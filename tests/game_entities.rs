use blockfit::board::{Board, Cell};
use blockfit::game::{Event, Game, GameState, GameStats, SelectedShape};
use blockfit::panel::{Panel, Shape, ShapeState};
use blockfit::shapes::{BaseShapeType, ShapeRot, ShapeType};
use blockfit::space::{CellCoord, OffsetXY};
use blockfit::systems::{
    floor_div, saturate_i16, FrameInput, NewGameSystem, PixelXY, PlacementSystem,
    ScoreCleanupSystem, ScreenLayout, SelectionValidationSystem, WinOrLoseSystem,
};

fn kind(base: BaseShapeType, rotation: ShapeRot) -> ShapeType {
    ShapeType::new(base, false, rotation)
}

fn game_with(size: usize, kinds: Vec<ShapeType>, filled: Vec<usize>) -> Game {
    let shapes = Shape::in_row(kinds);
    Game::level_with(size, 1, 0, Panel::from_shapes(shapes), &filled)
}

fn filled_count(board: &Board) -> usize {
    board.grid.iter().filter(|c| **c == Cell::Filled).count()
}

fn layout() -> ScreenLayout {
    ScreenLayout {
        cell_size_px: 30,
        board_offset_x_px: 100,
        board_offset_y_px: 100,
        panel_offset_x_px: 100,
        panel_offset_y_px: 500,
        panel_cols: 12,
        panel_rows: 5,
    }
}

fn left_click(x: i32, y: i32) -> FrameInput {
    FrameInput { mouse_left_clicked: Some(PixelXY(x, y)), mouse_right_clicked: false }
}

#[test]
fn test_shapes_as_grid() {
    let shapes = vec![
        Shape::new(kind(BaseShapeType::I1, ShapeRot::Cw90), 0),
        Shape::new(kind(BaseShapeType::OO, ShapeRot::No), 0),
    ];

    let result = Panel::from_shapes(shapes);

    let expected = vec![
        (CellCoord::new(0, 0), 0),
        (CellCoord::new(1, 0), 0),
        (CellCoord::new(2, 0), 0),
        (CellCoord::new(3, 0), 0),
        (CellCoord::new(5, 0), 1),
        (CellCoord::new(5, 1), 1),
        (CellCoord::new(6, 0), 1),
        (CellCoord::new(6, 1), 1),
    ];
    assert_eq!(result.shapes_in_cell_space.len(), expected.len());
    for (coord, ix) in expected {
        assert_eq!(result.shape_at(&coord), Some(ix), "at {:?}", coord);
    }
    assert_eq!(result.shape_at(&CellCoord::new(4, 0)), None);
}

#[test]
fn board_get_and_set_ignore_cells_off_the_board() {
    let mut board = Board::new(4);
    assert_eq!(board.get(3, 3), Some(&Cell::Empty));
    assert_eq!(board.get(4, 0), None);
    assert_eq!(board.get(0, 4), None);
    board.set_cell(4, 0, Cell::Filled);
    board.set_cell(1, 2, Cell::Filled);
    assert_eq!(filled_count(&board), 1);
    assert_eq!(board.get(1, 2), Some(&Cell::Filled));
    assert_eq!(board.get(2, 1), Some(&Cell::Empty));
}

#[test]
fn row_layout_advances_by_width_plus_one() {
    let shapes = Shape::in_row(vec![
        kind(BaseShapeType::T1, ShapeRot::No),
        kind(BaseShapeType::I1, ShapeRot::No),
        kind(BaseShapeType::L1, ShapeRot::Cw90),
    ]);
    let offsets: Vec<i16> = shapes.iter().map(|s| s.col_offset_in_panel_basis).collect();
    assert_eq!(offsets, vec![0, 4, 6]);
    assert!(shapes.iter().all(|s| s.state == ShapeState::VISIBLE));
}

#[test]
fn random_choice_gives_visible_shapes_in_a_row() {
    for _ in 0..20 {
        let shapes = Shape::get_random_choice(3);
        assert_eq!(shapes.len(), 3);
        let mut next = 0;
        for s in &shapes {
            assert_eq!(s.state, ShapeState::VISIBLE);
            assert_eq!(s.col_offset_in_panel_basis, next);
            next += s.kind.horizontal_cell_size() + 1;
        }
    }
}

#[test]
fn new_level_fills_the_scaled_number_of_cells() {
    for _ in 0..10 {
        let game = Game::new_level(10, 1, 7);
        assert_eq!(filled_count(&game.board), 6);
        assert_eq!(game.panel.shape_choice.len(), 3);
        assert_eq!(
            game.stats,
            GameStats { level: 1, target_score: 10, current_score: 0, total_score: 7 }
        );
        assert_eq!(game.game_state, GameState::Playing);
        assert!(game.selected_shape.is_none());
    }
    let game = Game::new_level(10, 20, 0);
    assert_eq!(filled_count(&game.board), 30);
    let game = Game::new_level(2, 5, 0);
    assert_eq!(filled_count(&game.board), 4);
}

#[test]
fn placement_is_all_or_nothing() {
    let t = kind(BaseShapeType::T1, ShapeRot::No);
    let game = game_with(5, vec![t], vec![]);
    assert!(game.is_valid_placement(&t, &CellCoord::new(0, 0)));
    assert!(game.is_valid_placement(&t, &CellCoord::new(2, 3)));
    assert!(!game.is_valid_placement(&t, &CellCoord::new(3, 0)));
    assert!(!game.is_valid_placement(&t, &CellCoord::new(0, 4)));
    assert!(!game.is_valid_placement(&t, &CellCoord::new(-1, 0)));
    let blocked = game_with(5, vec![t], vec![2 * 5 + 3]);
    assert!(!blocked.is_valid_placement(&t, &CellCoord::new(2, 1)));
    assert!(blocked.is_valid_placement(&t, &CellCoord::new(0, 1)));
}

#[test]
fn placing_fills_exactly_the_covered_cells() {
    let t = kind(BaseShapeType::T1, ShapeRot::No);
    let mut game = game_with(5, vec![t, t, t], vec![0]);
    game.select_shape(1, OffsetXY(0, 0));
    let before = game.board.grid.clone();
    assert!(game.is_valid_placement(&t, &CellCoord::new(1, 2)));
    game.place_shape(&t, &CellCoord::new(1, 2));
    for row in 0..5usize {
        for col in 0..5usize {
            let covered = [(2, 2), (1, 3), (2, 3), (3, 3)].contains(&(col, row));
            let expected = if covered { Cell::Filled } else { before[row * 5 + col] };
            assert_eq!(game.board.get(col, row), Some(&expected));
        }
    }
    assert!(game.selected_shape.is_none());
    assert_eq!(game.panel.shape_choice[1].state, ShapeState::PLACED);
    assert_eq!(game.panel.shape_choice[0].state, ShapeState::VISIBLE);
}

#[test]
fn line_clear_of_a_full_row() {
    let mut game = game_with(10, vec![kind(BaseShapeType::O, ShapeRot::No)], vec![]);
    for col in 0..10 {
        game.board.set_cell(col, 3, Cell::Filled);
    }
    game.board.set_cell(4, 5, Cell::Filled);
    ScoreCleanupSystem.update_state(&mut game);
    for col in 0..10 {
        assert_eq!(game.board.get(col, 3), Some(&Cell::Empty));
    }
    assert_eq!(game.board.get(4, 5), Some(&Cell::Filled));
    assert_eq!(game.stats.current_score, 10);
    assert_eq!(game.stats.total_score, 10);
}

#[test]
fn crossing_row_and_column_score_the_combo() {
    let mut game = game_with(4, vec![kind(BaseShapeType::O, ShapeRot::No)], vec![]);
    for i in 0..4 {
        game.board.set_cell(i, 1, Cell::Filled);
        game.board.set_cell(2, i, Cell::Filled);
    }
    ScoreCleanupSystem.update_state(&mut game);
    assert_eq!(filled_count(&game.board), 0);
    assert_eq!(game.stats.current_score, 4 + 4 + 1);
}

#[test]
fn sweeping_twice_scores_once() {
    let mut game = game_with(3, vec![kind(BaseShapeType::O, ShapeRot::No)], vec![]);
    for i in 0..3 {
        game.board.set_cell(i, 0, Cell::Filled);
        game.board.set_cell(0, i, Cell::Filled);
    }
    game.board.set_cell(2, 2, Cell::Filled);
    ScoreCleanupSystem.update_state(&mut game);
    let after_first = game.board.grid.clone();
    let score = game.stats.total_score;
    assert_eq!(score, 3 + 3 + 1);
    ScoreCleanupSystem.update_state(&mut game);
    assert_eq!(game.board.grid, after_first);
    assert_eq!(game.stats.total_score, score);
}

#[test]
fn cleaning_an_empty_row_or_column_changes_nothing() {
    let mut game = game_with(4, vec![kind(BaseShapeType::O, ShapeRot::No)], vec![1, 6]);
    let before = game.board.grid.clone();
    game.clean_row(3);
    game.clean_col(3);
    assert_eq!(game.board.grid, before);
    game.clean_row(0);
    assert_eq!(game.board.get(1, 0), Some(&Cell::Empty));
    assert_eq!(game.board.get(2, 1), Some(&Cell::Filled));
}

#[test]
fn reselecting_puts_the_first_shape_back() {
    let o = kind(BaseShapeType::O, ShapeRot::No);
    let l = kind(BaseShapeType::L1, ShapeRot::No);
    let mut game = game_with(5, vec![o, l, o], vec![]);
    game.select_shape(0, OffsetXY(-3, -4));
    assert_eq!(game.panel.shape_choice[0].state, ShapeState::SELECTED);
    game.select_shape(1, OffsetXY(-1, -2));
    assert_eq!(game.panel.shape_choice[0].state, ShapeState::VISIBLE);
    assert_eq!(game.panel.shape_choice[1].state, ShapeState::SELECTED);
    let selected = game
        .panel
        .shape_choice
        .iter()
        .filter(|s| s.state == ShapeState::SELECTED)
        .count();
    assert_eq!(selected, 1);
    assert_eq!(
        game.selected_shape,
        Some(SelectedShape { shape_type: l, anchor_offset: OffsetXY(-1, -2) })
    );
    game.deselect();
    assert!(game.selected_shape.is_none());
    assert_eq!(game.panel.shape_choice[1].state, ShapeState::VISIBLE);
    game.deselect();
    assert_eq!(game.panel.shape_choice[1].state, ShapeState::VISIBLE);
}

#[test]
fn placing_all_three_renews_the_panel() {
    let o = kind(BaseShapeType::O, ShapeRot::No);
    let mut game = game_with(6, vec![o, o, o], vec![]);
    for i in 0..3usize {
        game.select_shape(i, OffsetXY(0, 0));
        let cell = CellCoord::new(i as i16, 4);
        PlacementSystem.update_state(&mut game, &o, &cell);
        if i < 2 {
            assert_eq!(game.panel.shape_choice[i].state, ShapeState::PLACED);
        }
    }
    assert_eq!(game.panel.shape_choice.len(), 3);
    assert!(game.panel.shape_choice.iter().all(|s| s.state == ShapeState::VISIBLE));
    assert!(!game.panel.shapes_in_cell_space.is_empty());
    assert_eq!(filled_count(&game.board), 3);
}

#[test]
fn reaching_the_target_moves_to_the_next_level() {
    let o = kind(BaseShapeType::O, ShapeRot::No);
    let mut game = game_with(10, vec![o, o, o], vec![]);
    assert_eq!(game.stats.level, 1);
    assert_eq!(game.stats.target_score, 10);
    for col in 0..9 {
        game.board.set_cell(col, 0, Cell::Filled);
    }
    WinOrLoseSystem.update_state(&mut game);
    assert_eq!(game.game_state, GameState::Playing);
    game.select_shape(0, OffsetXY(0, 0));
    let placed = game.apply_event(Event::SelectedShapePlaced(o, CellCoord::new(9, 0)));
    assert!(placed);
    assert_eq!(game.stats.total_score, 10);
    WinOrLoseSystem.update_state(&mut game);
    assert_eq!(game.game_state, GameState::MoveToNextLevel);
    NewGameSystem.update_state(&mut game);
    assert_eq!(game.game_state, GameState::Playing);
    assert_eq!(
        game.stats,
        GameStats { level: 2, target_score: 20, current_score: 0, total_score: 10 }
    );
    assert_eq!(game.board.size, 10);
    assert_eq!(filled_count(&game.board), 9);
}

#[test]
fn no_room_for_any_shape_ends_the_game() {
    let i_shape = kind(BaseShapeType::I1, ShapeRot::No);
    let mut game = game_with(3, vec![i_shape], vec![]);
    WinOrLoseSystem.update_state(&mut game);
    assert_eq!(game.game_state, GameState::GameOver);
    let o = kind(BaseShapeType::O, ShapeRot::No);
    let mut open = game_with(3, vec![o], vec![]);
    WinOrLoseSystem.update_state(&mut open);
    assert_eq!(open.game_state, GameState::Playing);
}

#[test]
fn click_on_a_panel_shape_asks_to_select_it() {
    let o = kind(BaseShapeType::O, ShapeRot::No);
    let t = kind(BaseShapeType::T1, ShapeRot::No);
    let mut game = game_with(10, vec![o, t, o], vec![]);
    // The T starts at panel column 2; its cell (2, 1) is at pixels 160..190, 530..560.
    let event = SelectionValidationSystem.update_state(&mut game, &left_click(175, 545), &layout());
    assert_eq!(event, Some(Event::ShapeSelected(1, OffsetXY(-15, -45))));
    // Panel cell (2, 0) is the empty corner of the T's box.
    let miss = SelectionValidationSystem.update_state(&mut game, &left_click(175, 505), &layout());
    assert_eq!(miss, None);
    // Outside the panel area.
    let out = SelectionValidationSystem.update_state(&mut game, &left_click(50, 505), &layout());
    assert_eq!(out, None);
}

#[test]
fn click_with_a_selection_asks_to_drop_it_where_it_fits() {
    let o = kind(BaseShapeType::O, ShapeRot::No);
    let mut game = game_with(10, vec![o, o, o], vec![2 * 10 + 2]);
    game.select_shape(0, OffsetXY(-5, -5));
    // (165, 135) shifted by (-5, -5) is (160, 130): board cell (2, 1).
    let event = SelectionValidationSystem.update_state(&mut game, &left_click(165, 135), &layout());
    assert_eq!(event, Some(Event::SelectedShapePlaced(o, CellCoord::new(2, 1))));
    // Board cell (2, 2) is filled.
    let blocked = SelectionValidationSystem.update_state(&mut game, &left_click(165, 165), &layout());
    assert_eq!(blocked, None);
    // Left of the board: cell column -1.
    let off = SelectionValidationSystem.update_state(&mut game, &left_click(95, 135), &layout());
    assert_eq!(off, None);
}

#[test]
fn right_click_drops_the_selection_before_the_left_click() {
    let o = kind(BaseShapeType::O, ShapeRot::No);
    let mut game = game_with(10, vec![o, o, o], vec![]);
    game.select_shape(2, OffsetXY(0, 0));
    let input = FrameInput { mouse_left_clicked: Some(PixelXY(105, 505)), mouse_right_clicked: true };
    let event = SelectionValidationSystem.update_state(&mut game, &input, &layout());
    assert!(game.selected_shape.is_none());
    assert_eq!(game.panel.shape_choice[2].state, ShapeState::VISIBLE);
    assert_eq!(event, Some(Event::ShapeSelected(0, OffsetXY(-5, -5))));
}

#[test]
fn a_frame_picks_then_a_frame_places() {
    let o = kind(BaseShapeType::O, ShapeRot::No);
    let mut game = game_with(10, vec![o, o, o], vec![]);
    assert!(!game.tick(&left_click(105, 505), &layout()));
    assert_eq!(game.panel.shape_choice[0].state, ShapeState::SELECTED);
    assert!(game.tick(&left_click(135, 135), &layout()));
    assert_eq!(game.board.get(1, 1), Some(&Cell::Filled));
    assert_eq!(game.panel.shape_choice[0].state, ShapeState::PLACED);
    assert!(game.selected_shape.is_none());
}

#[test]
fn floor_division_rounds_down() {
    assert_eq!(floor_div(7, 3), 2);
    assert_eq!(floor_div(-1, 30), -1);
    assert_eq!(floor_div(-30, 30), -1);
    assert_eq!(floor_div(-31, 30), -2);
    assert_eq!(floor_div(0, 5), 0);
    assert_eq!(saturate_i16(40000), i16::MAX);
    assert_eq!(saturate_i16(-40000), i16::MIN);
    assert_eq!(saturate_i16(-12), -12);
}

#[test]
fn largest_board_plays_a_frame() {
    let mut game = Game::new_level(200, 1, 0);
    let idle = FrameInput { mouse_left_clicked: None, mouse_right_clicked: false };
    assert!(!game.tick(&idle, &layout()));
    assert_eq!(game.stats.total_score, 0);
    assert_eq!(filled_count(&game.board), 6);
}

#[test]
fn a_pick_frame_sweeps_a_full_row_left_on_the_board() {
    let o = kind(BaseShapeType::O, ShapeRot::No);
    let mut game = game_with(4, vec![o, o, o], vec![]);
    for col in 0..4 {
        game.board.set_cell(col, 2, Cell::Filled);
    }
    assert!(!game.tick(&left_click(165, 505), &layout()));
    assert_eq!(game.panel.shape_choice[1].state, ShapeState::SELECTED);
    assert_eq!(filled_count(&game.board), 0);
    assert_eq!(game.stats.current_score, 4);
}
