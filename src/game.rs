//! The game aggregate: board, panel, selection and score, and the placement
//! rules that change them.
use crate::board::{Board, Cell};
use crate::panel::{
    entries_view, kinds, laid_out_in_row, offsets_laid_out, panel_entries, Panel, Shape, ShapeState,
    MAX_PANEL_SHAPES, SHAPES_PER_PANEL,
};
use rand::seq::IteratorRandom;
use crate::shapes::{shape_cells, ShapeType};
use crate::space::{CellCoord, OffsetXY};
use vstd::prelude::*;

verus! {

/// Largest board side: the score of one sweep still fits in `i32`.
pub const MAX_BOARD_SIZE: usize = 200;

#[derive(Clone, Copy, PartialEq, Eq, Debug, Structural)]
pub enum GameState {
    Playing,
    GameOver,
    MoveToNextLevel,
}

#[derive(Clone, Copy, PartialEq, Eq, Debug, Structural)]
pub struct GameStats {
    pub level: u16,
    pub target_score: i32,
    pub current_score: i32,
    pub total_score: i32,
}

/// The shape being dragged, and the pixel offset from the pointer to its
/// top-left corner.
#[derive(Clone, Copy, PartialEq, Eq, Debug, Structural)]
pub struct SelectedShape {
    pub shape_type: ShapeType,
    pub anchor_offset: OffsetXY,
}

/// What one step of input asks the game to do.
#[derive(Clone, Copy, PartialEq, Eq, Debug, Structural)]
pub enum Event {
    /// Pick up the panel shape with this index, grabbed at this offset.
    ShapeSelected(usize, OffsetXY),
    /// Drop the selected shape with its top-left offset on this board cell.
    SelectedShapePlaced(ShapeType, CellCoord),
}

pub struct Game {
    pub board: Board,
    pub selected_shape: Option<SelectedShape>,
    pub stats: GameStats,
    pub panel: Panel,
    pub game_state: GameState,
}

/// The panel cell list is the layout of its shapes.
pub open spec fn panel_wf(p: Panel) -> bool {
    &&& p.shape_choice@.len() <= MAX_PANEL_SHAPES
    &&& offsets_laid_out(p.shape_choice@)
    &&& entries_view(p.shapes_in_cell_space@) == panel_entries(
        kinds(p.shape_choice@),
        p.shape_choice@.len() as int,
    )
}

/// At most one shape is selected, and the selection agrees with the panel.
pub open spec fn selection_agrees(shapes: Seq<Shape>, sel: Option<SelectedShape>) -> bool {
    &&& forall|i: int, j: int|
        0 <= i < shapes.len() && 0 <= j < shapes.len() && #[trigger] shapes[i].state
            == ShapeState::SELECTED && #[trigger] shapes[j].state == ShapeState::SELECTED ==> i == j
    &&& match sel {
        None => forall|i: int|
            0 <= i < shapes.len() ==> #[trigger] shapes[i].state != ShapeState::SELECTED,
        Some(s) => exists|i: int|
            0 <= i < shapes.len() && #[trigger] shapes[i].state == ShapeState::SELECTED
                && shapes[i].kind == s.shape_type,
    }
}

/// Board cell (col, row) is covered by shape `t` anchored at (ac, ar).
pub open spec fn covers(t: ShapeType, ac: int, ar: int, col: int, row: int) -> bool {
    exists|k: int|
        0 <= k < shape_cells(t).len() && #[trigger] shape_cells(t)[k] == (col - ac, row - ar)
}

/// Every cell of `t` anchored at (ac, ar) is on the board and empty.
pub open spec fn valid_placement(b: Board, t: ShapeType, ac: int, ar: int) -> bool {
    forall|k: int|
        0 <= k < shape_cells(t).len() ==> {
            let c = #[trigger] shape_cells(t)[k];
            b.in_bounds(ac + c.0, ar + c.1) && b.cell(ac + c.0, ar + c.1) == Cell::Empty
        }
}

/// The panel after every selected shape has been given state `to`.
pub open spec fn with_selected_as(shapes: Seq<Shape>, to: ShapeState) -> Seq<Shape> {
    shapes.map_values(
        |s: Shape|
            if s.state == ShapeState::SELECTED {
                Shape { state: to, ..s }
            } else {
                s
            },
    )
}

/// Grid positions (row * size + col) of the filled cells.
pub open spec fn filled_positions(b: Board) -> Set<int> {
    Set::new(|k: int| 0 <= k < b.size * b.size && b.grid@[k] == Cell::Filled)
}

/// Number of cells filled at the start of a level.
pub open spec fn prefilled_count(board_size: int, level: int) -> int {
    let wanted = if level * 3 + 3 < board_size * 3 {
        level * 3 + 3
    } else {
        board_size * 3
    };
    if wanted < board_size * board_size {
        wanted
    } else {
        board_size * board_size
    }
}

/// Relies on rand's `IteratorRandom::choose_multiple` over `0..total` with
/// the thread-local generator: it returns `min(amount, total)` items of the
/// range, each item of the range at most once.
#[verifier::external_body]
fn choose_positions(total: usize, amount: usize) -> (r: Vec<usize>)
    ensures
        r@.len() == if amount < total {
            amount
        } else {
            total
        },
        forall|i: int| 0 <= i < r@.len() ==> #[trigger] r@[i] < total,
        r@.no_duplicates(),
{
    (0..total).choose_multiple(&mut rand::thread_rng(), amount)
}

/// Column and row of grid position `k`.
proof fn lemma_position_split(size: int, k: int)
    requires
        0 < size,
        0 <= k < size * size,
    ensures
        0 <= k % size < size,
        0 <= k / size < size,
        (k / size) * size + k % size == k,
{
    vstd::arithmetic::div_mod::lemma_fundamental_div_mod(k, size);
    vstd::arithmetic::div_mod::lemma_mod_bound(k, size);
    vstd::arithmetic::div_mod::lemma_div_pos_is_pos(k, size);
    if k / size >= size {
        assert((k / size) * size >= size * size) by (nonlinear_arith)
            requires
                k / size >= size,
                size > 0,
        ;
    }
    assert((k / size) * size == size * (k / size)) by (nonlinear_arith);
}

/// The panel after shape `ix` is picked: a shape selected before goes back
/// to visible, and `ix` becomes the selected one.
pub open spec fn with_selection(shapes: Seq<Shape>, ix: int) -> Seq<Shape> {
    with_selected_as(shapes, ShapeState::VISIBLE).update(
        ix,
        Shape { state: ShapeState::SELECTED, ..shapes[ix] },
    )
}

/// Picking shape `b` after shape `a`, with nothing placed or dropped in
/// between, puts `a` back to visible and leaves `b` as the only selected
/// shape.
pub proof fn lemma_selection_exclusive(shapes: Seq<Shape>, a: int, b: int)
    requires
        0 <= a < shapes.len(),
        0 <= b < shapes.len(),
        a != b,
    ensures
        with_selection(with_selection(shapes, a), b)[a].state == ShapeState::VISIBLE,
        with_selection(with_selection(shapes, a), b)[b].state == ShapeState::SELECTED,
        forall|i: int|
            0 <= i < shapes.len() && #[trigger] with_selection(with_selection(shapes, a), b)[i].state
                == ShapeState::SELECTED ==> i == b,
{
}

impl Game {
    pub open spec fn wf(&self) -> bool {
        &&& self.board.wf()
        &&& 0 < self.board.size <= MAX_BOARD_SIZE
        &&& panel_wf(self.panel)
        &&& selection_agrees(self.panel.shape_choice@, self.selected_shape)
    }

    /// A fresh level: an empty board of side `board_size` with the cells at
    /// the grid positions `filled` filled, the given panel, no selection,
    /// target score `level * 10` and the level's score at zero.
    pub fn level_with(
        board_size: usize,
        level: u16,
        total_score: i32,
        panel: Panel,
        filled: &Vec<usize>,
    ) -> (r: Game)
        requires
            0 < board_size <= MAX_BOARD_SIZE,
            panel_wf(panel),
            forall|i: int|
                0 <= i < panel.shape_choice@.len() ==> #[trigger] panel.shape_choice@[i].state
                    != ShapeState::SELECTED,
            forall|i: int| 0 <= i < filled@.len() ==> #[trigger] filled@[i] < board_size * board_size,
        ensures
            r.wf(),
            r.board.size == board_size,
            filled_positions(r.board) == filled@.map_values(|k: usize| k as int).to_set(),
            r.panel == panel,
            r.selected_shape is None,
            r.stats == (GameStats {
                level,
                target_score: (level * 10) as i32,
                current_score: 0,
                total_score,
            }),
            r.game_state == GameState::Playing,
    {
        proof {
            assert(board_size * board_size <= 40000) by (nonlinear_arith)
                requires
                    board_size <= 200,
            ;
        }
        let mut board = Board::new(board_size);
        let ghost fs = filled@.map_values(|k: usize| k as int);
        let ghost n = board_size * board_size;
        proof {
            assert forall|k: int| 0 <= k < n implies #[trigger] board.grid@[k] == Cell::Empty by {
                lemma_position_split(board_size as int, k);
                assert(board.cell(k % board_size as int, k / board_size as int) == board.grid@[k]);
            }
            assert(fs.take(0) =~= Seq::<int>::empty());
        }
        let mut i: usize = 0;
        while i < filled.len()
            invariant
                board.wf(),
                board.size == board_size,
                0 < board_size <= MAX_BOARD_SIZE,
                n == board_size * board_size,
                fs == filled@.map_values(|k: usize| k as int),
                i <= filled@.len(),
                forall|j: int| 0 <= j < filled@.len() ==> #[trigger] filled@[j] < n,
                forall|k: int|
                    0 <= k < n ==> #[trigger] board.grid@[k] == if fs.take(i as int).contains(k) {
                        Cell::Filled
                    } else {
                        Cell::Empty
                    },
            decreases filled@.len() - i,
        {
            let k = filled[i];
            proof {
                lemma_position_split(board_size as int, k as int);
            }
            let ghost before = board;
            board.set_cell(k % board_size, k / board_size, Cell::Filled);
            proof {
                assert(fs.take(i + 1) =~= fs.take(i as int).push(k as int));
                assert forall|j: int| 0 <= j < n implies #[trigger] board.grid@[j] == if fs.take(
                    i + 1,
                ).contains(j) {
                    Cell::Filled
                } else {
                    Cell::Empty
                } by {
                    lemma_position_split(board_size as int, j);
                    assert(fs.take(i + 1).contains(j) == (fs.take(i as int).contains(j) || j
                        == k as int)) by {
                        if fs.take(i + 1).contains(j) {
                            let m = choose|m: int| 0 <= m < i + 1 && #[trigger] fs.take(i + 1)[m] == j;
                            if m < i {
                                assert(fs.take(i as int)[m] == j);
                            }
                        }
                        if fs.take(i as int).contains(j) {
                            let m = choose|m: int| 0 <= m < i && #[trigger] fs.take(i as int)[m] == j;
                            assert(fs.take(i + 1)[m] == j);
                        }
                        if j == k {
                            assert(fs.take(i + 1)[i as int] == j);
                        }
                    }
                    let c = j % board_size as int;
                    let r = j / board_size as int;
                    assert(board.cell(c, r) == board.grid@[j]);
                    assert(before.cell(c, r) == before.grid@[j]);
                    if c == k % board_size && r == k / board_size {
                        assert(j == k);
                    } else {
                        assert(j != k);
                    }
                }
            }
            i = i + 1;
        }
        proof {
            assert(fs.take(i as int) =~= fs);
            assert(filled_positions(board) =~= fs.to_set());
        }
        let stats = GameStats { level, target_score: level as i32 * 10, current_score: 0, total_score };
        Game { board, selected_shape: None, stats, panel, game_state: GameState::Playing }
    }

    /// A new level with random shapes and `prefilled_count` random cells
    /// filled.
    pub fn new_level(board_size: usize, level: u16, total_score: i32) -> (r: Game)
        requires
            0 < board_size <= MAX_BOARD_SIZE,
        ensures
            r.wf(),
            r.board.size == board_size,
            filled_positions(r.board).len() == prefilled_count(board_size as int, level as int),
            r.panel.shape_choice@.len() == SHAPES_PER_PANEL,
            laid_out_in_row(r.panel.shape_choice@),
            r.selected_shape is None,
            r.stats == (GameStats {
                level,
                target_score: (level * 10) as i32,
                current_score: 0,
                total_score,
            }),
            r.game_state == GameState::Playing,
    {
        let wanted = if (level as usize) * 3 + 3 < board_size * 3 {
            (level as usize) * 3 + 3
        } else {
            board_size * 3
        };
        proof {
            assert(board_size * board_size <= 40000) by (nonlinear_arith)
                requires
                    board_size <= 200,
            ;
        }
        let panel = Panel::generate_for_3();
        let filled = choose_positions(board_size * board_size, wanted);
        let r = Game::level_with(board_size, level, total_score, panel, &filled);
        proof {
            let fs = filled@.map_values(|k: usize| k as int);
            assert forall|i: int, j: int|
                0 <= i < fs.len() && 0 <= j < fs.len() && i != j implies fs[i] != fs[j] by {
                assert(filled@[i] != filled@[j]);
            }
            fs.unique_seq_to_set();
        }
        r
    }

    /// Replaces the game with the next level on a board of the same size,
    /// carrying the total score over.
    pub fn go_next_level(&mut self)
        requires
            old(self).wf(),
            old(self).stats.level < u16::MAX,
        ensures
            final(self).wf(),
            final(self).board.size == old(self).board.size,
            filled_positions(final(self).board).len() == prefilled_count(
                old(self).board.size as int,
                old(self).stats.level + 1,
            ),
            final(self).panel.shape_choice@.len() == SHAPES_PER_PANEL,
            laid_out_in_row(final(self).panel.shape_choice@),
            final(self).selected_shape is None,
            final(self).stats == (GameStats {
                level: (old(self).stats.level + 1) as u16,
                target_score: ((old(self).stats.level + 1) * 10) as i32,
                current_score: 0,
                total_score: old(self).stats.total_score,
            }),
            final(self).game_state == GameState::Playing,
    {
        *self = Self::new_level(self.board.size, self.stats.level + 1, self.stats.total_score);
    }

    /// True when every cell of `shape` anchored at `cell_coord` is on the
    /// board and empty.
    pub fn is_valid_placement(&self, shape: &ShapeType, cell_coord: &CellCoord) -> (r: bool)
        requires
            self.wf(),
        ensures
            r == valid_placement(self.board, *shape, cell_coord.col as int, cell_coord.row as int),
    {
        let cells = shape.cells();
        let size = self.board.size as i32;
        let col = cell_coord.col as i32;
        let row = cell_coord.row as i32;
        let ghost sc = shape_cells(*shape);
        proof {
            crate::shapes::lemma_transform_closed(*shape);
        }
        let mut k: usize = 0;
        while k < cells.len()
            invariant
                self.wf(),
                size == self.board.size,
                col == cell_coord.col,
                row == cell_coord.row,
                sc == shape_cells(*shape),
                crate::shapes::int_pairs(cells@) == sc,
                cells@.len() == sc.len(),
                forall|j: int|
                    0 <= j < sc.len() ==> 0 <= #[trigger] sc[j].0 < 4 && 0 <= sc[j].1 < 4,
                forall|j: int|
                    0 <= j < k ==> {
                        let c = #[trigger] sc[j];
                        self.board.in_bounds(col + c.0, row + c.1) && self.board.cell(
                            col + c.0,
                            row + c.1,
                        ) == Cell::Empty
                    },
            decreases cells@.len() - k,
        {
            let (dx, dy) = cells[k];
            assert(sc[k as int] == (dx as int, dy as int));
            let nx = col + dx as i32;
            let ny = row + dy as i32;
            if nx < 0 || ny < 0 || nx >= size || ny >= size {
                return false;
            }
            match self.board.get(nx as usize, ny as usize) {
                Some(c) => {
                    if *c == Cell::Filled {
                        return false;
                    }
                },
                None => {
                    return false;
                },
            }
            k = k + 1;
        }
        true
    }

    /// Gives every selected panel shape the state `to`.
    fn set_selected_to(&mut self, to: ShapeState)
        requires
            panel_wf(old(self).panel),
        ensures
            panel_wf(final(self).panel),
            final(self).panel.shape_choice@ == with_selected_as(old(self).panel.shape_choice@, to),
            kinds(final(self).panel.shape_choice@) == kinds(old(self).panel.shape_choice@),
            final(self).panel.shapes_in_cell_space == old(self).panel.shapes_in_cell_space,
            final(self).board == old(self).board,
            final(self).stats == old(self).stats,
            final(self).selected_shape == old(self).selected_shape,
            final(self).game_state == old(self).game_state,
    {
        let ghost start = self.panel.shape_choice@;
        let ghost target = with_selected_as(start, to);
        let n = self.panel.shape_choice.len();
        let mut i: usize = 0;
        while i < n
            invariant
                i <= n,
                n == start.len(),
                target == with_selected_as(start, to),
                self.panel.shape_choice@.len() == n,
                forall|j: int| 0 <= j < i ==> #[trigger] self.panel.shape_choice@[j] == target[j],
                forall|j: int|
                    i <= j < n ==> #[trigger] self.panel.shape_choice@[j] == start[j],
                self.panel.shapes_in_cell_space == old(self).panel.shapes_in_cell_space,
                self.board == old(self).board,
                self.stats == old(self).stats,
                self.selected_shape == old(self).selected_shape,
                self.game_state == old(self).game_state,
            decreases n - i,
        {
            let s = self.panel.shape_choice[i];
            if s.state == ShapeState::SELECTED {
                self.panel.shape_choice.set(i, Shape { state: to, ..s });
            }
            i = i + 1;
        }
        assert(self.panel.shape_choice@ =~= target);
        assert(kinds(self.panel.shape_choice@) =~= kinds(start));
    }

    /// Fills every board cell that `shape_type` anchored at `cell_coord`
    /// covers (cells off the board are skipped; emptiness is not checked),
    /// marks the selected panel shape as placed and drops the selection.
    pub fn place_shape(&mut self, shape_type: &ShapeType, cell_coord: &CellCoord)
        requires
            old(self).wf(),
            old(self).board.in_bounds(cell_coord.col as int, cell_coord.row as int),
        ensures
            final(self).wf(),
            final(self).board.size == old(self).board.size,
            forall|c: int, r: int|
                #![trigger final(self).board.cell(c, r)]
                final(self).board.in_bounds(c, r) ==> final(self).board.cell(c, r) == if covers(
                    *shape_type,
                    cell_coord.col as int,
                    cell_coord.row as int,
                    c,
                    r,
                ) {
                    Cell::Filled
                } else {
                    old(self).board.cell(c, r)
                },
            final(self).selected_shape is None,
            final(self).panel.shape_choice@ == with_selected_as(
                old(self).panel.shape_choice@,
                ShapeState::PLACED,
            ),
            final(self).panel.shapes_in_cell_space == old(self).panel.shapes_in_cell_space,
            final(self).stats == old(self).stats,
            final(self).game_state == old(self).game_state,
    {
        let cells = shape_type.cells();
        let col = cell_coord.col as usize;
        let row = cell_coord.row as usize;
        let ghost sc = shape_cells(*shape_type);
        let ghost ac = cell_coord.col as int;
        let ghost ar = cell_coord.row as int;
        proof {
            crate::shapes::lemma_transform_closed(*shape_type);
        }
        let mut k: usize = 0;
        while k < cells.len()
            invariant
                self.wf(),
                self.board.size == old(self).board.size,
                col == ac,
                row == ar,
                0 <= ac < self.board.size,
                0 <= ar < self.board.size,
                sc == shape_cells(*shape_type),
                crate::shapes::int_pairs(cells@) == sc,
                cells@.len() == sc.len(),
                k <= sc.len(),
                forall|j: int|
                    0 <= j < sc.len() ==> 0 <= #[trigger] sc[j].0 < 4 && 0 <= sc[j].1 < 4,
                forall|c: int, r: int|
                    #![trigger self.board.cell(c, r)]
                    self.board.in_bounds(c, r) ==> self.board.cell(c, r) == if exists|j: int|
                        0 <= j < k && #[trigger] sc[j] == (c - ac, r - ar) {
                        Cell::Filled
                    } else {
                        old(self).board.cell(c, r)
                    },
                self.panel == old(self).panel,
                self.stats == old(self).stats,
                self.selected_shape == old(self).selected_shape,
                self.game_state == old(self).game_state,
            decreases cells@.len() - k,
        {
            let (dx, dy) = cells[k];
            assert(sc[k as int] == (dx as int, dy as int));
            self.board.set_cell(col + dx, row + dy, Cell::Filled);
            proof {
                assert forall|c: int, r: int|
                    #![trigger self.board.cell(c, r)]
                    self.board.in_bounds(c, r) implies self.board.cell(c, r) == if exists|j: int|
                        0 <= j < k + 1 && #[trigger] sc[j] == (c - ac, r - ar) {
                        Cell::Filled
                    } else {
                        old(self).board.cell(c, r)
                    } by {
                    if c == ac + dx && r == ar + dy {
                        assert(sc[k as int] == (c - ac, r - ar));
                    } else {
                        if exists|j: int| 0 <= j < k + 1 && #[trigger] sc[j] == (c - ac, r - ar) {
                            let j = choose|j: int|
                                0 <= j < k + 1 && #[trigger] sc[j] == (c - ac, r - ar);
                            assert(j != k);
                        }
                    }
                }
            }
            k = k + 1;
        }
        self.selected_shape = None;
        self.set_selected_to(ShapeState::PLACED);
        proof {
            let t = self.panel.shape_choice@;
            assert forall|i: int| 0 <= i < t.len() implies #[trigger] t[i].state
                != ShapeState::SELECTED by {
                assert(t[i] == with_selected_as(old(self).panel.shape_choice@, ShapeState::PLACED)[i]);
            }
        }
    }

    /// Drops the selection; a selected panel shape becomes visible again.
    pub fn deselect(&mut self)
        requires
            old(self).wf(),
        ensures
            final(self).wf(),
            final(self).selected_shape is None,
            final(self).panel.shape_choice@ == with_selected_as(
                old(self).panel.shape_choice@,
                ShapeState::VISIBLE,
            ),
            final(self).panel.shapes_in_cell_space == old(self).panel.shapes_in_cell_space,
            final(self).board == old(self).board,
            final(self).stats == old(self).stats,
            final(self).game_state == old(self).game_state,
    {
        self.selected_shape = None;
        self.set_selected_to(ShapeState::VISIBLE);
        proof {
            let t = self.panel.shape_choice@;
            assert forall|i: int| 0 <= i < t.len() implies #[trigger] t[i].state
                != ShapeState::SELECTED by {
                assert(t[i] == with_selected_as(old(self).panel.shape_choice@, ShapeState::VISIBLE)[i]);
            }
        }
    }

    /// Picks up panel shape `ix` grabbed at `anchor_offset`, putting back any
    /// shape selected before.
    pub fn select_shape(&mut self, ix: usize, anchor_offset: OffsetXY)
        requires
            old(self).wf(),
            ix < old(self).panel.shape_choice@.len(),
        ensures
            final(self).wf(),
            final(self).selected_shape == Some(
                SelectedShape { shape_type: old(self).panel.shape_choice@[ix as int].kind, anchor_offset },
            ),
            final(self).panel.shape_choice@ == with_selection(old(self).panel.shape_choice@, ix as int),
            final(self).panel.shapes_in_cell_space == old(self).panel.shapes_in_cell_space,
            final(self).board == old(self).board,
            final(self).stats == old(self).stats,
            final(self).game_state == old(self).game_state,
    {
        self.deselect();
        let s = self.panel.shape_choice[ix];
        let ghost before = self.panel.shape_choice@;
        self.panel.shape_choice.set(ix, Shape { state: ShapeState::SELECTED, ..s });
        self.selected_shape = Some(SelectedShape { shape_type: s.kind, anchor_offset });
        proof {
            let t = self.panel.shape_choice@;
            assert(kinds(t) =~= kinds(before));
            assert forall|i: int| 0 <= i < t.len() && i != ix implies #[trigger] t[i].state
                != ShapeState::SELECTED by {
                assert(t[i] == before[i]);
            }
            assert(t[ix as int].state == ShapeState::SELECTED);
        }
    }

    /// Empties every cell of row `row`.
    pub fn clean_row(&mut self, row: usize)
        requires
            old(self).wf(),
        ensures
            final(self).wf(),
            final(self).board.size == old(self).board.size,
            forall|c: int, r: int|
                #![trigger final(self).board.cell(c, r)]
                final(self).board.in_bounds(c, r) ==> final(self).board.cell(c, r) == if r == row {
                    Cell::Empty
                } else {
                    old(self).board.cell(c, r)
                },
            final(self).panel == old(self).panel,
            final(self).selected_shape == old(self).selected_shape,
            final(self).stats == old(self).stats,
            final(self).game_state == old(self).game_state,
    {
        let n = self.board.size;
        let mut col: usize = 0;
        while col < n
            invariant
                self.wf(),
                n == self.board.size,
                self.board.size == old(self).board.size,
                col <= n,
                forall|c: int, r: int|
                    #![trigger self.board.cell(c, r)]
                    self.board.in_bounds(c, r) ==> self.board.cell(c, r) == if r == row && c
                        < col {
                        Cell::Empty
                    } else {
                        old(self).board.cell(c, r)
                    },
                self.panel == old(self).panel,
                self.selected_shape == old(self).selected_shape,
                self.stats == old(self).stats,
                self.game_state == old(self).game_state,
            decreases n - col,
        {
            self.board.set_cell(col, row, Cell::Empty);
            col = col + 1;
        }
    }

    /// Empties every cell of column `col`.
    pub fn clean_col(&mut self, col: usize)
        requires
            old(self).wf(),
        ensures
            final(self).wf(),
            final(self).board.size == old(self).board.size,
            forall|c: int, r: int|
                #![trigger final(self).board.cell(c, r)]
                final(self).board.in_bounds(c, r) ==> final(self).board.cell(c, r) == if c == col {
                    Cell::Empty
                } else {
                    old(self).board.cell(c, r)
                },
            final(self).panel == old(self).panel,
            final(self).selected_shape == old(self).selected_shape,
            final(self).stats == old(self).stats,
            final(self).game_state == old(self).game_state,
    {
        let n = self.board.size;
        let mut row: usize = 0;
        while row < n
            invariant
                self.wf(),
                n == self.board.size,
                self.board.size == old(self).board.size,
                row <= n,
                forall|c: int, r: int|
                    #![trigger self.board.cell(c, r)]
                    self.board.in_bounds(c, r) ==> self.board.cell(c, r) == if c == col && r
                        < row {
                        Cell::Empty
                    } else {
                        old(self).board.cell(c, r)
                    },
                self.panel == old(self).panel,
                self.selected_shape == old(self).selected_shape,
                self.stats == old(self).stats,
                self.game_state == old(self).game_state,
            decreases n - row,
        {
            self.board.set_cell(col, row, Cell::Empty);
            row = row + 1;
        }
    }
}

} // verus!
