use blockfit::board::{Board, Cell};
use blockfit::panel::{Panel, Shape, ShapeState};
use blockfit::shapes::{BaseShapeType, ShapeRot, ShapeType};
use blockfit::space::{
    cell_to_ix, cell_to_ix_4, ix_to_cell, order_edges_for_linestrip, render_board, render_contour,
    render_panel, to_index_space, CellCoord, Edge,
};

#[test]
fn space_converters_test_single_cell() {
    let cells = vec![CellCoord::new(0, 0)];
    let indices = to_index_space(cells, 7, 0);

    assert_eq!(indices, vec![0, 8, 9, 0, 9, 1]);
}

#[test]
fn space_converters_test_two_adjacent_cells_horizontally() {
    let cells = vec![CellCoord::new(0, 0), CellCoord::new(1, 0)];
    let indices = to_index_space(cells, 7, 0);

    assert_eq!(indices, vec![0, 8, 9, 0, 9, 1, 1, 9, 10, 1, 10, 2]);
}

#[test]
fn space_converters_test_two_adjacent_cells_vertically() {
    let cells = vec![CellCoord::new(0, 0), CellCoord::new(0, 1)];
    let indices = to_index_space(cells, 7, 0);

    assert_eq!(indices, vec![0, 8, 9, 0, 9, 1, 8, 16, 17, 8, 17, 9]);
}

#[test]
fn space_converters_test_non_contiguous_cells_in_elonagated_grid() {
    let cells = vec![
        CellCoord::new(0, 0),
        CellCoord::new(2, 1),
        CellCoord::new(5, 2),
    ];
    let indices = to_index_space(cells, 7, 0);

    assert_eq!(
        indices,
        vec![
            0, 8, 9, 0, 9, 1, //
            10, 18, 19, 10, 19, 11, //
            21, 29, 30, 21, 30, 22,
        ]
    );
}

#[test]
fn index_space_offset_shifts_every_index() {
    let indices = to_index_space(vec![CellCoord::new(1, 1)], 3, 100);
    assert_eq!(indices, vec![105, 109, 110, 105, 110, 106]);
}

#[test]
fn test_order_edges_for_linestrip() {
    let edges = vec![Edge(1, 2), Edge(2, 3), Edge(3, 4), Edge(4, 1)];

    let ordered = order_edges_for_linestrip(edges);

    assert_eq!(ordered.len(), 5, "Should return a closed loop with one duplicate start");
    assert_eq!(ordered[0], ordered[4], "Last vertex should match first");
}

#[test]
fn test_order_edges_for_linestrip_incomplete_loop() {
    let edges = vec![Edge(1, 2), Edge(2, 3), Edge(3, 4)];

    let ordered = order_edges_for_linestrip(edges);

    assert_eq!(ordered.len(), 4, "Should return an ordered path with no duplicate end");
}

#[test]
fn linestrip_takes_smallest_unvisited_neighbour() {
    let edges = vec![Edge(5, 9), Edge(5, 7), Edge(7, 9)];
    assert_eq!(order_edges_for_linestrip(edges), vec![5, 7, 9, 5]);
}

#[test]
fn cell_quad_round_trip() {
    for max_col in [1usize, 4, 7, 10] {
        for row in 0..5i16 {
            for col in 0..=(max_col as i16) {
                let quad = cell_to_ix(&CellCoord::new(col, row), max_col);
                assert_eq!(ix_to_cell(quad[0], max_col), (col as u32, row as u32));
                let corners = cell_to_ix_4(&CellCoord::new(col, row), max_col);
                assert_eq!(ix_to_cell(corners[0], max_col), (col as u32, row as u32));
            }
        }
    }
}

#[test]
fn cell_corners_run_clockwise() {
    assert_eq!(cell_to_ix_4(&CellCoord::new(2, 1), 7), [10, 11, 19, 18]);
}

#[test]
fn edges_around_cell_are_canonical() {
    let edges = Edge::around_cell(&CellCoord::new(0, 0), 3);
    assert_eq!(edges, [Edge(0, 1), Edge(1, 5), Edge(4, 5), Edge(0, 4)]);
    assert_eq!(Edge(7, 3).canonical(), Edge(3, 7));
}

#[test]
fn board_indices_cover_filled_cells_row_by_row() {
    let mut board = Board::new(3);
    board.set_cell(2, 0, Cell::Filled);
    board.set_cell(0, 1, Cell::Filled);
    let indices = render_board(&board);
    assert_eq!(indices, vec![2, 6, 7, 2, 7, 3, 4, 8, 9, 4, 9, 5]);
}

#[test]
fn panel_indices_skip_shapes_no_longer_visible() {
    let o = ShapeType::new(BaseShapeType::O, false, ShapeRot::No);
    let mut panel = Panel::from_shapes(vec![Shape::new(o, 0), Shape::new(o, 0)]);
    assert_eq!(render_panel(&panel, 4, 25), vec![25, 30, 31, 25, 31, 26, 27, 32, 33, 27, 33, 28]);
    panel.shape_choice[0].set_state(ShapeState::PLACED);
    assert_eq!(render_panel(&panel, 4, 25), vec![27, 32, 33, 27, 33, 28]);
}

// A pointer at (15, 15) over a board at the origin with 10-pixel cells is
// over board cell (1, 1).
#[test]
fn test_render_contour_single_cell() {
    let shape = ShapeType::new(BaseShapeType::O, false, ShapeRot::No);

    let contour = render_contour(&shape, &CellCoord::new(1, 1), 10);

    assert_eq!(contour.len(), 5, "A single cell should have 4 contour edges");
}

#[test]
fn test_render_contour_l_shape() {
    let shape = ShapeType::new(BaseShapeType::L1, false, ShapeRot::No);

    let contour = render_contour(&shape, &CellCoord::new(1, 1), 10);

    assert_eq!(contour.len(), 11, "L-shape should have a valid contour with correct edges");
}

#[test]
fn contour_of_one_cell_walks_its_corners() {
    let shape = ShapeType::new(BaseShapeType::O, false, ShapeRot::No);
    assert_eq!(render_contour(&shape, &CellCoord::new(1, 1), 10), vec![12, 13, 24, 23, 12]);
}

#[test]
fn contour_is_clipped_to_the_board() {
    let shape = ShapeType::new(BaseShapeType::I1, false, ShapeRot::No);
    assert_eq!(render_contour(&shape, &CellCoord::new(0, 8), 10).len(), 7);
    assert!(render_contour(&shape, &CellCoord::new(-3, 0), 10).is_empty());
}
