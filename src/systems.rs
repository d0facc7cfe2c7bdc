//! The steps of one turn: selection, placement, line clearing and scoring,
//! the win / lose check and the move to the next level.
use crate::board::{Board, Cell};
use crate::game::{
    covers, selection_agrees, valid_placement, with_selected_as, with_selection, Event, Game,
    GameState,
    GameStats, SelectedShape, MAX_BOARD_SIZE,
};
use crate::panel::{
    entries_view, laid_out_in_row, lookup, no_shape_in, Panel, Shape, ShapeState,
    SHAPES_PER_PANEL,
};
use crate::shapes::{shape_cells, ShapeType};
use crate::space::{CellCoord, OffsetXY};
use vstd::prelude::*;

verus! {

/// Turns clicks into selection and placement requests.
pub struct SelectionValidationSystem;

/// Clears full rows and columns and scores them.
pub struct ScoreCleanupSystem;

/// A pointer position in whole pixels.
#[derive(Clone, Copy, PartialEq, Eq, Debug, Structural)]
pub struct PixelXY(pub i32, pub i32);

/// The clicks of one frame.
#[derive(Clone, Copy, PartialEq, Eq, Debug, Structural)]
pub struct FrameInput {
    pub mouse_left_clicked: Option<PixelXY>,
    pub mouse_right_clicked: bool,
}

/// Where board and panel sit on screen, in whole pixels, and how many cells
/// the panel area spans.
#[derive(Clone, Copy, PartialEq, Eq, Debug, Structural)]
pub struct ScreenLayout {
    pub cell_size_px: i32,
    pub board_offset_x_px: i32,
    pub board_offset_y_px: i32,
    pub panel_offset_x_px: i32,
    pub panel_offset_y_px: i32,
    pub panel_cols: i32,
    pub panel_rows: i32,
}

/// Largest magnitude of a pixel coordinate handed to the selection step.
pub const MAX_PIXEL: i32 = 1_000_000;

/// Largest cell size in pixels.
pub const MAX_CELL_PX: i32 = 1000;

/// Largest panel extent in cells.
pub const MAX_PANEL_CELLS: i32 = 1000;

impl ScreenLayout {
    pub open spec fn wf(&self) -> bool {
        &&& 0 < self.cell_size_px <= MAX_CELL_PX
        &&& -MAX_PIXEL <= self.board_offset_x_px <= MAX_PIXEL
        &&& -MAX_PIXEL <= self.board_offset_y_px <= MAX_PIXEL
        &&& -MAX_PIXEL <= self.panel_offset_x_px <= MAX_PIXEL
        &&& -MAX_PIXEL <= self.panel_offset_y_px <= MAX_PIXEL
        &&& 0 <= self.panel_cols <= MAX_PANEL_CELLS
        &&& 0 <= self.panel_rows <= MAX_PANEL_CELLS
    }
}

impl FrameInput {
    pub open spec fn wf(&self) -> bool {
        match self.mouse_left_clicked {
            Some(p) => -MAX_PIXEL <= p.0 <= MAX_PIXEL && -MAX_PIXEL <= p.1 <= MAX_PIXEL,
            None => true,
        }
    }
}

/// `v` clamped to the range of `i16`.
pub open spec fn clamp_i16(v: int) -> int {
    if v < i16::MIN {
        i16::MIN as int
    } else if v > i16::MAX {
        i16::MAX as int
    } else {
        v
    }
}

/// The board cell under pixel (x, y): offset from the board's corner, divided
/// by the cell size and rounded down.
pub open spec fn board_cell_at(l: ScreenLayout, x: int, y: int) -> (int, int) {
    (
        clamp_i16((x - l.board_offset_x_px) / (l.cell_size_px as int)),
        clamp_i16((y - l.board_offset_y_px) / (l.cell_size_px as int)),
    )
}

/// What a left click at (x, y) asks when nothing is selected: pick the
/// visible panel shape under it, grabbed at the offset from the pointer to
/// the shape's top-left corner.
pub open spec fn panel_pick(
    shapes: Seq<Shape>,
    m: Seq<(CellCoord, usize)>,
    l: ScreenLayout,
    x: int,
    y: int,
) -> Option<Event> {
    let px = x - l.panel_offset_x_px;
    let py = y - l.panel_offset_y_px;
    let cs = l.cell_size_px as int;
    if 0 <= px < cs * l.panel_cols && 0 <= py < cs * l.panel_rows {
        match lookup(entries_view(m), px / cs, py / cs) {
            Some(i) => if 0 <= i < shapes.len() && shapes[i].state == ShapeState::VISIBLE {
                let s = shapes[i];
                Some(
                    Event::ShapeSelected(
                        i as usize,
                        OffsetXY(
                            clamp_i16(s.col_offset_in_panel_basis * cs - px) as i16,
                            clamp_i16(-py) as i16,
                        ),
                    ),
                )
            } else {
                None
            },
            None => None,
        }
    } else {
        None
    }
}

/// What a left click at (x, y) asks while `sel` is selected: drop it with its
/// top-left corner on the cell under the shifted pointer, when it fits there.
pub open spec fn board_drop(b: Board, l: ScreenLayout, sel: SelectedShape, x: int, y: int) -> Option<
    Event,
> {
    let cell = board_cell_at(l, x + sel.anchor_offset.0, y + sel.anchor_offset.1);
    if valid_placement(b, sel.shape_type, cell.0, cell.1) {
        Some(
            Event::SelectedShapePlaced(
                sel.shape_type,
                CellCoord { col: cell.0 as i16, row: cell.1 as i16 },
            ),
        )
    } else {
        None
    }
}

/// The panel after the frame's right click, if any, dropped the selection.
pub open spec fn shapes_after_right_click(shapes: Seq<Shape>, input: FrameInput) -> Seq<Shape> {
    if input.mouse_right_clicked {
        with_selected_as(shapes, ShapeState::VISIBLE)
    } else {
        shapes
    }
}

/// The selection after the frame's right click, if any.
pub open spec fn selection_after_right_click(
    sel: Option<SelectedShape>,
    input: FrameInput,
) -> Option<SelectedShape> {
    if input.mouse_right_clicked {
        None
    } else {
        sel
    }
}

/// The request that the frame's clicks make of game `g`: after a right
/// click has dropped any selection, a left click picks from the panel when
/// nothing is selected and drops the selection on the board otherwise.
pub open spec fn frame_request(g: Game, input: FrameInput, l: ScreenLayout) -> Option<Event> {
    match input.mouse_left_clicked {
        None => None,
        Some(p) => match selection_after_right_click(g.selected_shape, input) {
            None => panel_pick(
                shapes_after_right_click(g.panel.shape_choice@, input),
                g.panel.shapes_in_cell_space@,
                l,
                p.0 as int,
                p.1 as int,
            ),
            Some(sel) => board_drop(g.board, l, sel, p.0 as int, p.1 as int),
        },
    }
}

proof fn lemma_div_below(a: int, d: int, m: int)
    requires
        0 <= a < d * m,
        0 < d,
    ensures
        0 <= a / d < m,
{
    vstd::arithmetic::div_mod::lemma_fundamental_div_mod(a, d);
    vstd::arithmetic::div_mod::lemma_mod_bound(a, d);
    vstd::arithmetic::div_mod::lemma_div_pos_is_pos(a, d);
    if a / d >= m {
        assert(d * (a / d) >= d * m) by (nonlinear_arith)
            requires
                a / d >= m,
                d > 0,
        ;
    }
}

/// `a / b` rounded towards negative infinity.
pub fn floor_div(a: i32, b: i32) -> (r: i32)
    requires
        b > 0,
    ensures
        r == a as int / b as int,
{
    if a >= 0 {
        ((a as u32) / (b as u32)) as i32
    } else {
        let n: u64 = (-(a as i64) - 1) as u64;
        let q: u64 = n / (b as u64);
        let rem: u64 = n % (b as u64);
        proof {
            assert(n == q * b + rem) by {
                vstd::arithmetic::div_mod::lemma_fundamental_div_mod(n as int, b as int);
            }
            assert(q <= n) by {
                vstd::arithmetic::div_mod::lemma_div_is_ordered_by_denominator(n as int, 1, b as int);
            }
            vstd::arithmetic::div_mod::lemma_mod_bound(n as int, b as int);
            assert(a == (-(q as int) - 1) * b + (b - 1 - rem)) by (nonlinear_arith)
                requires
                    n == q * b + rem,
                    n == -a - 1,
            ;
            vstd::arithmetic::div_mod::lemma_fundamental_div_mod_converse(
                a as int,
                b as int,
                -(q as int) - 1,
                b - 1 - rem,
            );
        }
        (-(q as i64) - 1) as i32
    }
}

/// `v` clamped to the range of `i16`.
pub fn saturate_i16(v: i32) -> (r: i16)
    ensures
        r == clamp_i16(v as int),
{
    if v < i16::MIN as i32 {
        i16::MIN
    } else if v > i16::MAX as i32 {
        i16::MAX
    } else {
        v as i16
    }
}

/// Puts the selected shape on the board and renews an exhausted panel.
pub struct PlacementSystem;

/// Ends the level once its target is reached, or the game once no offered
/// shape fits anywhere.
pub struct WinOrLoseSystem;

/// Starts the next level.
pub struct NewGameSystem;

/// The panel after a placement: the selected shape of `shapes` is placed,
/// and once no shape is visible a fresh panel of three visible shapes, laid
/// out in a row, takes its place.
pub open spec fn panel_after_placement(
    shapes: Seq<Shape>,
    m: Seq<(CellCoord, usize)>,
    after: Panel,
) -> bool {
    let placed = with_selected_as(shapes, ShapeState::PLACED);
    if no_shape_in(placed, ShapeState::VISIBLE) {
        &&& after.shape_choice@.len() == SHAPES_PER_PANEL
        &&& laid_out_in_row(after.shape_choice@)
    } else {
        &&& after.shape_choice@ == placed
        &&& after.shapes_in_cell_space@ == m
    }
}

/// Some anchor on the board takes shape `t`.
pub open spec fn placeable_somewhere(b: Board, t: ShapeType) -> bool {
    exists|c: int, r: int| b.in_bounds(c, r) && #[trigger] valid_placement(b, t, c, r)
}

/// Some shape still on offer (visible or selected) fits somewhere.
pub open spec fn any_move(g: Game) -> bool {
    exists|i: int|
        0 <= i < g.panel.shape_choice@.len() && #[trigger] g.panel.shape_choice@[i].state
            != ShapeState::PLACED && placeable_somewhere(g.board, g.panel.shape_choice@[i].kind)
}

/// The panel after shape `ix` is picked and then placed.
pub open spec fn after_placing(shapes: Seq<Shape>, ix: int) -> Seq<Shape> {
    with_selected_as(with_selection(shapes, ix), ShapeState::PLACED)
}

/// Starting from three visible shapes, picking and placing each of them in
/// turn leaves no visible shape, which is when a placement draws a new panel
/// of three visible shapes.
pub proof fn lemma_three_placements_exhaust_panel(
    shapes: Seq<Shape>,
    a: int,
    b: int,
    c: int,
)
    requires
        shapes.len() == SHAPES_PER_PANEL,
        forall|i: int| 0 <= i < shapes.len() ==> #[trigger] shapes[i].state == ShapeState::VISIBLE,
        0 <= a < 3,
        0 <= b < 3,
        0 <= c < 3,
        a != b,
        b != c,
        a != c,
    ensures
        no_shape_in(after_placing(after_placing(after_placing(shapes, a), b), c), ShapeState::VISIBLE),
{
    let s1 = after_placing(shapes, a);
    let s2 = after_placing(s1, b);
    let s3 = after_placing(s2, c);
    assert(s1[a].state == ShapeState::PLACED);
    assert(s2[a].state == ShapeState::PLACED && s2[b].state == ShapeState::PLACED);
    assert(s3[a].state == ShapeState::PLACED && s3[b].state == ShapeState::PLACED && s3[c].state
        == ShapeState::PLACED);
}

/// A placement that passes the check has its anchor on the board.
pub proof fn lemma_valid_anchor_in_bounds(b: Board, t: ShapeType, c: int, r: int)
    requires
        valid_placement(b, t, c, r),
    ensures
        b.in_bounds(c, r),
{
    crate::shapes::lemma_touches_origin_edges(t);
    let i = choose|i: int| 0 <= i < shape_cells(t).len() && #[trigger] shape_cells(t)[i].0 == 0;
    let j = choose|j: int| 0 <= j < shape_cells(t).len() && #[trigger] shape_cells(t)[j].1 == 0;
    assert(b.in_bounds(c + shape_cells(t)[i].0, r + shape_cells(t)[i].1));
    assert(b.in_bounds(c + shape_cells(t)[j].0, r + shape_cells(t)[j].1));
}

/// When a placement passes the check, placing the shape fills exactly the
/// cells it covers, all of them empty before, and changes no other cell.
pub proof fn lemma_placement_atomic(before: Board, after: Board, t: ShapeType, c: int, r: int)
    requires
        valid_placement(before, t, c, r),
        after.size == before.size,
        forall|x: int, y: int|
            #![trigger after.cell(x, y)]
            after.in_bounds(x, y) ==> after.cell(x, y) == if covers(t, c, r, x, y) {
                Cell::Filled
            } else {
                before.cell(x, y)
            },
    ensures
        forall|k: int|
            0 <= k < shape_cells(t).len() ==> {
                let p = #[trigger] shape_cells(t)[k];
                before.in_bounds(c + p.0, r + p.1) && before.cell(c + p.0, r + p.1) == Cell::Empty
                    && after.cell(c + p.0, r + p.1) == Cell::Filled
            },
        forall|x: int, y: int|
            #![trigger after.cell(x, y)]
            before.in_bounds(x, y) && !covers(t, c, r, x, y) ==> after.cell(x, y) == before.cell(x, y),
{
    assert forall|k: int| 0 <= k < shape_cells(t).len() implies {
        let p = #[trigger] shape_cells(t)[k];
        before.in_bounds(c + p.0, r + p.1) && before.cell(c + p.0, r + p.1) == Cell::Empty
            && after.cell(c + p.0, r + p.1) == Cell::Filled
    } by {
        let p = shape_cells(t)[k];
        assert(shape_cells(t)[k] == (c + p.0 - c, r + p.1 - r));
        assert(covers(t, c, r, c + p.0, r + p.1));
    }
}

pub open spec fn row_full(b: Board, r: int) -> bool {
    forall|c: int| 0 <= c < b.size ==> #[trigger] b.cell(c, r) == Cell::Filled
}

pub open spec fn col_full(b: Board, c: int) -> bool {
    forall|r: int| 0 <= r < b.size ==> #[trigger] b.cell(c, r) == Cell::Filled
}

/// Number of full rows among the first `n`.
pub open spec fn count_full_rows(b: Board, n: int) -> int
    decreases n,
{
    if n <= 0 {
        0
    } else {
        count_full_rows(b, n - 1) + if row_full(b, n - 1) {
            1int
        } else {
            0int
        }
    }
}

/// Number of full columns among the first `n`.
pub open spec fn count_full_cols(b: Board, n: int) -> int
    decreases n,
{
    if n <= 0 {
        0
    } else {
        count_full_cols(b, n - 1) + if col_full(b, n - 1) {
            1int
        } else {
            0int
        }
    }
}

pub open spec fn full_rows(b: Board) -> int {
    count_full_rows(b, b.size as int)
}

pub open spec fn full_cols(b: Board) -> int {
    count_full_cols(b, b.size as int)
}

/// Score of one sweep: `size` for each full row and each full column, plus
/// the square of (full rows times full columns).
pub open spec fn sweep_score(b: Board) -> int {
    let fr = full_rows(b);
    let fc = full_cols(b);
    (fr + fc) * b.size + fr * fc * fr * fc
}

/// The largest score one sweep of a board of side `size` can give.
pub open spec fn max_sweep_score(size: int) -> int {
    2 * size * size + size * size * size * size
}

/// Cell (c, r) after the sweep: empty on a full row or a full column.
pub open spec fn swept_cell(b: Board, c: int, r: int) -> Cell {
    if row_full(b, r) || col_full(b, c) {
        Cell::Empty
    } else {
        b.cell(c, r)
    }
}

proof fn lemma_count_bounds(b: Board, n: int)
    requires
        0 <= n,
    ensures
        0 <= count_full_rows(b, n) <= n,
        0 <= count_full_cols(b, n) <= n,
    decreases n,
{
    if n > 0 {
        lemma_count_bounds(b, n - 1);
    }
}

proof fn lemma_sweep_score_bounds(b: Board)
    requires
        b.size <= MAX_BOARD_SIZE,
    ensures
        0 <= sweep_score(b) <= max_sweep_score(b.size as int),
        max_sweep_score(b.size as int) <= 1_600_080_000,
{
    let s = b.size as int;
    lemma_count_bounds(b, s);
    let fr = full_rows(b);
    let fc = full_cols(b);
    assert(0 <= fr * fc <= s * s) by (nonlinear_arith)
        requires
            0 <= fr <= s,
            0 <= fc <= s,
    ;
    let p = fr * fc;
    assert(0 <= p * p <= (s * s) * (s * s)) by (nonlinear_arith)
        requires
            0 <= p <= s * s,
    ;
    assert(fr * fc * fr * fc == p * p) by (nonlinear_arith)
        requires
            p == fr * fc,
    ;
    assert(s * s * s * s == (s * s) * (s * s)) by (nonlinear_arith);
    assert(0 <= (fr + fc) * s <= 2 * s * s) by (nonlinear_arith)
        requires
            0 <= fr <= s,
            0 <= fc <= s,
    ;
    assert(s * s <= 40000) by (nonlinear_arith)
        requires
            0 <= s <= 200,
    ;
    assert((s * s) * (s * s) <= 1_600_000_000) by (nonlinear_arith)
        requires
            0 <= s * s <= 40000,
    ;
    assert(2 * s * s == 2 * (s * s)) by (nonlinear_arith);
}

proof fn lemma_no_full_lines(b: Board, n: int)
    requires
        forall|r: int| 0 <= r < b.size ==> !#[trigger] row_full(b, r),
        forall|c: int| 0 <= c < b.size ==> !#[trigger] col_full(b, c),
        0 <= n <= b.size,
    ensures
        count_full_rows(b, n) == 0,
        count_full_cols(b, n) == 0,
    decreases n,
{
    if n > 0 {
        lemma_no_full_lines(b, n - 1);
        assert(!row_full(b, n - 1));
        assert(!col_full(b, n - 1));
    }
}

/// A sweep leaves no full row or column behind: sweeping the result again
/// changes no cell and scores nothing.
pub proof fn lemma_sweep_idempotent(before: Board, after: Board)
    requires
        before.wf(),
        after.wf(),
        0 < before.size,
        after.size == before.size,
        forall|c: int, r: int|
            before.in_bounds(c, r) ==> #[trigger] after.cell(c, r) == swept_cell(before, c, r),
    ensures
        forall|r: int| 0 <= r < after.size ==> !#[trigger] row_full(after, r),
        forall|c: int| 0 <= c < after.size ==> !#[trigger] col_full(after, c),
        full_rows(after) == 0,
        full_cols(after) == 0,
        sweep_score(after) == 0,
        forall|c: int, r: int|
            after.in_bounds(c, r) ==> #[trigger] swept_cell(after, c, r) == after.cell(c, r),
{
    assert forall|r: int| 0 <= r < after.size implies !#[trigger] row_full(after, r) by {
        if row_full(before, r) {
            assert(after.cell(0, r) == swept_cell(before, 0, r));
        } else {
            let c = choose|c: int| 0 <= c < before.size && #[trigger] before.cell(c, r) != Cell::Filled;
            assert(after.cell(c, r) == swept_cell(before, c, r));
        }
    }
    assert forall|c: int| 0 <= c < after.size implies !#[trigger] col_full(after, c) by {
        if col_full(before, c) {
            assert(after.cell(c, 0) == swept_cell(before, c, 0));
        } else {
            let r = choose|r: int| 0 <= r < before.size && #[trigger] before.cell(c, r) != Cell::Filled;
            assert(after.cell(c, r) == swept_cell(before, c, r));
        }
    }
    lemma_no_full_lines(after, after.size as int);
}

/// Emptying a row whose cells are all empty leaves the board as it was.
pub proof fn lemma_clean_empty_row_is_noop(before: Board, after: Board, row: int)
    requires
        after.size == before.size,
        forall|c: int| 0 <= c < before.size ==> #[trigger] before.cell(c, row) == Cell::Empty,
        forall|c: int, r: int|
            before.in_bounds(c, r) ==> #[trigger] after.cell(c, r) == if r == row {
                Cell::Empty
            } else {
                before.cell(c, r)
            },
    ensures
        forall|c: int, r: int| before.in_bounds(c, r) ==> #[trigger] after.cell(c, r) == before.cell(c, r),
{
}

/// Emptying a column whose cells are all empty leaves the board as it was.
pub proof fn lemma_clean_empty_col_is_noop(before: Board, after: Board, col: int)
    requires
        after.size == before.size,
        forall|r: int| 0 <= r < before.size ==> #[trigger] before.cell(col, r) == Cell::Empty,
        forall|c: int, r: int|
            before.in_bounds(c, r) ==> #[trigger] after.cell(c, r) == if c == col {
                Cell::Empty
            } else {
                before.cell(c, r)
            },
    ensures
        forall|c: int, r: int| before.in_bounds(c, r) ==> #[trigger] after.cell(c, r) == before.cell(c, r),
{
}

impl Game {
    /// True when every cell of row `row` is filled.
    pub fn row_is_full(&self, row: usize) -> (r: bool)
        requires
            self.wf(),
            row < self.board.size,
        ensures
            r == row_full(self.board, row as int),
    {
        let mut col: usize = 0;
        while col < self.board.size
            invariant
                self.wf(),
                row < self.board.size,
                col <= self.board.size,
                forall|c: int| 0 <= c < col ==> #[trigger] self.board.cell(c, row as int) == Cell::Filled,
            decreases self.board.size - col,
        {
            match self.board.get(col, row) {
                Some(c) => {
                    if *c != Cell::Filled {
                        return false;
                    }
                },
                None => {
                    return false;
                },
            }
            col = col + 1;
        }
        true
    }

    /// True when every cell of column `col` is filled.
    pub fn col_is_full(&self, col: usize) -> (r: bool)
        requires
            self.wf(),
            col < self.board.size,
        ensures
            r == col_full(self.board, col as int),
    {
        let mut row: usize = 0;
        while row < self.board.size
            invariant
                self.wf(),
                col < self.board.size,
                row <= self.board.size,
                forall|r: int| 0 <= r < row ==> #[trigger] self.board.cell(col as int, r) == Cell::Filled,
            decreases self.board.size - row,
        {
            match self.board.get(col, row) {
                Some(c) => {
                    if *c != Cell::Filled {
                        return false;
                    }
                },
                None => {
                    return false;
                },
            }
            row = row + 1;
        }
        true
    }
}

impl Game {
    /// True when some board anchor takes `shape`.
    pub fn can_place_anywhere(&self, shape: &ShapeType) -> (r: bool)
        requires
            self.wf(),
        ensures
            r == placeable_somewhere(self.board, *shape),
    {
        let n = self.board.size;
        let mut row: usize = 0;
        while row < n
            invariant
                self.wf(),
                n == self.board.size,
                row <= n,
                forall|c: int, r: int|
                    0 <= c < n && 0 <= r < row ==> !#[trigger] valid_placement(self.board, *shape, c, r),
            decreases n - row,
        {
            let mut col: usize = 0;
            while col < n
                invariant
                    self.wf(),
                    n == self.board.size,
                    row < n,
                    col <= n,
                    forall|c: int, r: int|
                        0 <= c < n && 0 <= r < row ==> !#[trigger] valid_placement(self.board, *shape, c, r),
                    forall|c: int| 0 <= c < col ==> !#[trigger] valid_placement(self.board, *shape, c, row as int),
                decreases n - col,
            {
                if self.is_valid_placement(shape, &CellCoord::new(col as i16, row as i16)) {
                    return true;
                }
                col = col + 1;
            }
            row = row + 1;
        }
        false
    }

    /// True when some shape still on offer fits somewhere on the board.
    pub fn has_any_move(&self) -> (r: bool)
        requires
            self.wf(),
        ensures
            r == any_move(*self),
    {
        let n = self.panel.shape_choice.len();
        let mut i: usize = 0;
        while i < n
            invariant
                self.wf(),
                n == self.panel.shape_choice@.len(),
                i <= n,
                forall|j: int|
                    0 <= j < i ==> !(#[trigger] self.panel.shape_choice@[j].state
                        != ShapeState::PLACED && placeable_somewhere(
                        self.board,
                        self.panel.shape_choice@[j].kind,
                    )),
            decreases n - i,
        {
            let s = self.panel.shape_choice[i];
            if s.state != ShapeState::PLACED && self.can_place_anywhere(&s.kind) {
                return true;
            }
            i = i + 1;
        }
        false
    }
}

impl SelectionValidationSystem {
    /// A right click drops the selection. A left click then either picks a
    /// visible panel shape (nothing selected) or asks to drop the selected
    /// shape on the board where it fits; the request is returned.
    pub fn update_state(&self, game: &mut Game, input: &FrameInput, layout: &ScreenLayout) -> (r:
        Option<Event>)
        requires
            old(game).wf(),
            input.wf(),
            layout.wf(),
        ensures
            final(game).wf(),
            final(game).selected_shape == selection_after_right_click(
                old(game).selected_shape,
                *input,
            ),
            final(game).panel.shape_choice@ == shapes_after_right_click(
                old(game).panel.shape_choice@,
                *input,
            ),
            final(game).panel.shapes_in_cell_space == old(game).panel.shapes_in_cell_space,
            final(game).board == old(game).board,
            final(game).stats == old(game).stats,
            final(game).game_state == old(game).game_state,
            r == frame_request(*old(game), *input, *layout),
            r matches Some(Event::ShapeSelected(_, off)) ==> off.0 <= 0 && off.1 <= 0,
    {
        if input.mouse_right_clicked {
            game.deselect();
        }
        match input.mouse_left_clicked {
            None => None,
            Some(p) => {
                match game.selected_shape {
                    None => Self::pick_from_panel(game, layout, p),
                    Some(sel) => Self::drop_on_board(game, layout, sel, p),
                }
            },
        }
    }

    fn pick_from_panel(game: &Game, layout: &ScreenLayout, p: PixelXY) -> (r: Option<Event>)
        requires
            game.wf(),
            layout.wf(),
            -MAX_PIXEL <= p.0 <= MAX_PIXEL,
            -MAX_PIXEL <= p.1 <= MAX_PIXEL,
        ensures
            r == panel_pick(
                game.panel.shape_choice@,
                game.panel.shapes_in_cell_space@,
                *layout,
                p.0 as int,
                p.1 as int,
            ),
            r matches Some(Event::ShapeSelected(_, off)) ==> off.0 <= 0 && off.1 <= 0,
    {
        let px = p.0 - layout.panel_offset_x_px;
        let py = p.1 - layout.panel_offset_y_px;
        let cs = layout.cell_size_px;
        proof {
            assert(cs * layout.panel_cols <= 1_000_000) by (nonlinear_arith)
                requires
                    0 < cs <= 1000,
                    0 <= layout.panel_cols <= 1000,
            ;
            assert(cs * layout.panel_rows <= 1_000_000) by (nonlinear_arith)
                requires
                    0 < cs <= 1000,
                    0 <= layout.panel_rows <= 1000,
            ;
        }
        if !(0 <= px && px < cs * layout.panel_cols && 0 <= py && py < cs * layout.panel_rows) {
            return None;
        }
        let col = floor_div(px, cs);
        let row = floor_div(py, cs);
        proof {
            lemma_div_below(px as int, cs as int, layout.panel_cols as int);
            lemma_div_below(py as int, cs as int, layout.panel_rows as int);
        }
        match game.panel.shape_at(&CellCoord::new(col as i16, row as i16)) {
            None => None,
            Some(i) => {
                if i < game.panel.shape_choice.len() && game.panel.shape_choice[i].state
                    == ShapeState::VISIBLE {
                    let s = game.panel.shape_choice[i];
                    proof {
                        assert(-32768 * 1000 <= s.col_offset_in_panel_basis * cs <= 32767 * 1000)
                            by (nonlinear_arith)
                            requires
                                0 < cs <= 1000,
                                -32768 <= s.col_offset_in_panel_basis <= 32767,
                        ;
                    }
                    proof {
                        crate::panel::lemma_lookup_in_range(
                            game.panel.shape_choice@,
                            game.panel.shapes_in_cell_space@,
                            col as int,
                            row as int,
                        );
                        assert(s.col_offset_in_panel_basis == crate::panel::layout_offset(
                            crate::panel::kinds(game.panel.shape_choice@),
                            i as int,
                        ));
                        vstd::arithmetic::div_mod::lemma_fundamental_div_mod(px as int, cs as int);
                        vstd::arithmetic::div_mod::lemma_mod_bound(px as int, cs as int);
                        assert(s.col_offset_in_panel_basis * cs <= px) by (nonlinear_arith)
                            requires
                                s.col_offset_in_panel_basis <= col,
                                col == px as int / cs as int,
                                px == cs * (px as int / cs as int) + px as int % cs as int,
                                0 <= px as int % cs as int,
                                cs > 0,
                        ;
                    }
                    let offset_x = saturate_i16(s.col_offset_in_panel_basis as i32 * cs - px);
                    let offset_y = saturate_i16(-py);
                    Some(Event::ShapeSelected(i, OffsetXY(offset_x, offset_y)))
                } else {
                    None
                }
            },
        }
    }

    fn drop_on_board(game: &Game, layout: &ScreenLayout, sel: SelectedShape, p: PixelXY) -> (r:
        Option<Event>)
        requires
            game.wf(),
            layout.wf(),
            -MAX_PIXEL <= p.0 <= MAX_PIXEL,
            -MAX_PIXEL <= p.1 <= MAX_PIXEL,
        ensures
            r == board_drop(game.board, *layout, sel, p.0 as int, p.1 as int),
    {
        let x = p.0 + sel.anchor_offset.0 as i32 - layout.board_offset_x_px;
        let y = p.1 + sel.anchor_offset.1 as i32 - layout.board_offset_y_px;
        let cell = CellCoord::new(
            saturate_i16(floor_div(x, layout.cell_size_px)),
            saturate_i16(floor_div(y, layout.cell_size_px)),
        );
        if game.is_valid_placement(&sel.shape_type, &cell) {
            Some(Event::SelectedShapePlaced(sel.shape_type, cell))
        } else {
            None
        }
    }
}

impl PlacementSystem {
    /// Places `shape` at `cell` (see `Game::place_shape`); when that leaves no
    /// visible shape in the panel, a new panel of three is drawn.
    pub fn update_state(&self, game: &mut Game, shape: &ShapeType, cell: &CellCoord)
        requires
            old(game).wf(),
            old(game).board.in_bounds(cell.col as int, cell.row as int),
        ensures
            final(game).wf(),
            final(game).board.size == old(game).board.size,
            forall|c: int, r: int|
                #![trigger final(game).board.cell(c, r)]
                final(game).board.in_bounds(c, r) ==> final(game).board.cell(c, r) == if covers(
                    *shape,
                    cell.col as int,
                    cell.row as int,
                    c,
                    r,
                ) {
                    Cell::Filled
                } else {
                    old(game).board.cell(c, r)
                },
            final(game).selected_shape is None,
            panel_after_placement(
                old(game).panel.shape_choice@,
                old(game).panel.shapes_in_cell_space@,
                final(game).panel,
            ),
            final(game).stats == old(game).stats,
            final(game).game_state == old(game).game_state,
    {
        game.place_shape(shape, cell);
        let mut any_visible = false;
        let mut i: usize = 0;
        while i < game.panel.shape_choice.len()
            invariant
                i <= game.panel.shape_choice@.len(),
                any_visible == exists|j: int|
                    0 <= j < i && #[trigger] game.panel.shape_choice@[j].state == ShapeState::VISIBLE,
            decreases game.panel.shape_choice@.len() - i,
        {
            if game.panel.shape_choice[i].state == ShapeState::VISIBLE {
                any_visible = true;
            }
            i = i + 1;
        }
        if !any_visible {
            let panel = Panel::generate_for_3();
            proof {
                assert forall|i: int, j: int|
                    0 <= i < panel.shape_choice@.len() && 0 <= j < panel.shape_choice@.len()
                        && #[trigger] panel.shape_choice@[i].state == ShapeState::SELECTED
                        && #[trigger] panel.shape_choice@[j].state == ShapeState::SELECTED implies i
                    == j by {}
            }
            game.panel = panel;
        }
    }
}

impl WinOrLoseSystem {
    /// While playing: the level is won once the total score reaches the
    /// target; otherwise the game is over when no shape on offer fits.
    pub fn update_state(&self, game: &mut Game)
        requires
            old(game).wf(),
        ensures
            final(game).wf(),
            final(game).game_state == if old(game).game_state != GameState::Playing {
                old(game).game_state
            } else if old(game).stats.total_score >= old(game).stats.target_score {
                GameState::MoveToNextLevel
            } else if !any_move(*old(game)) {
                GameState::GameOver
            } else {
                GameState::Playing
            },
            final(game).board == old(game).board,
            final(game).panel == old(game).panel,
            final(game).selected_shape == old(game).selected_shape,
            final(game).stats == old(game).stats,
    {
        if game.game_state == GameState::Playing {
            if game.stats.total_score >= game.stats.target_score {
                game.game_state = GameState::MoveToNextLevel;
            } else if !game.has_any_move() {
                game.game_state = GameState::GameOver;
            }
        }
    }
}

impl NewGameSystem {
    /// Moves the game to the next level (see `Game::go_next_level`).
    pub fn update_state(&self, game: &mut Game)
        requires
            old(game).wf(),
            old(game).stats.level < u16::MAX,
        ensures
            final(game).wf(),
            final(game).board.size == old(game).board.size,
            final(game).panel.shape_choice@.len() == SHAPES_PER_PANEL,
            laid_out_in_row(final(game).panel.shape_choice@),
            final(game).selected_shape is None,
            final(game).stats == (GameStats {
                level: (old(game).stats.level + 1) as u16,
                target_score: ((old(game).stats.level + 1) * 10) as i32,
                current_score: 0,
                total_score: old(game).stats.total_score,
            }),
            final(game).game_state == GameState::Playing,
    {
        game.go_next_level();
    }
}

/// What happens to the board when `t` is placed with its top-left offset on
/// (ac, ar), before any line is cleared.
pub open spec fn board_after_placing(before: Board, mid: Board, t: ShapeType, ac: int, ar: int) -> bool {
    &&& mid.wf()
    &&& mid.size == before.size
    &&& forall|c: int, r: int|
        #![trigger mid.cell(c, r)]
        mid.in_bounds(c, r) ==> mid.cell(c, r) == if covers(t, ac, ar, c, r) {
            Cell::Filled
        } else {
            before.cell(c, r)
        }
}

/// Room left in the scores for the largest sweep.
pub open spec fn score_headroom(g: Game) -> bool {
    &&& g.stats.current_score + max_sweep_score(g.board.size as int) <= i32::MAX
    &&& g.stats.total_score + max_sweep_score(g.board.size as int) <= i32::MAX
}

impl Game {
    /// Carries out a request of the selection step. Picking a shape selects
    /// it; dropping one places it, renews an exhausted panel and sweeps full
    /// lines. Returns true when a shape was placed.
    pub fn apply_event(&mut self, event: Event) -> (placed: bool)
        requires
            old(self).wf(),
            score_headroom(*old(self)),
            match event {
                Event::ShapeSelected(i, _) => i < old(self).panel.shape_choice@.len(),
                Event::SelectedShapePlaced(_, c) => old(self).board.in_bounds(
                    c.col as int,
                    c.row as int,
                ),
            },
        ensures
            final(self).wf(),
            final(self).board.size == old(self).board.size,
            final(self).game_state == old(self).game_state,
            match event {
                Event::ShapeSelected(i, offset) => {
                    &&& !placed
                    &&& final(self).selected_shape == Some(
                        SelectedShape {
                            shape_type: old(self).panel.shape_choice@[i as int].kind,
                            anchor_offset: offset,
                        },
                    )
                    &&& final(self).panel.shape_choice@ == with_selection(
                        old(self).panel.shape_choice@,
                        i as int,
                    )
                    &&& final(self).panel.shapes_in_cell_space
                        == old(self).panel.shapes_in_cell_space
                    &&& final(self).board == old(self).board
                    &&& final(self).stats == old(self).stats
                },
                Event::SelectedShapePlaced(t, cell) => {
                    &&& placed
                    &&& final(self).selected_shape is None
                    &&& panel_after_placement(
                        old(self).panel.shape_choice@,
                        old(self).panel.shapes_in_cell_space@,
                        final(self).panel,
                    )
                    &&& exists|mid: Board|
                        {
                            &&& board_after_placing(
                                old(self).board,
                                mid,
                                t,
                                cell.col as int,
                                cell.row as int,
                            )
                            &&& forall|c: int, r: int|
                                #![trigger final(self).board.cell(c, r)]
                                mid.in_bounds(c, r) ==> final(self).board.cell(c, r)
                                    == swept_cell(mid, c, r)
                            &&& final(self).stats.current_score == old(self).stats.current_score
                                + sweep_score(mid)
                            &&& final(self).stats.total_score == old(self).stats.total_score
                                + sweep_score(mid)
                        }
                    &&& final(self).stats.current_score <= old(self).stats.current_score
                        + max_sweep_score(old(self).board.size as int)
                    &&& final(self).stats.total_score <= old(self).stats.total_score
                        + max_sweep_score(old(self).board.size as int)
                    &&& final(self).stats.level == old(self).stats.level
                    &&& final(self).stats.target_score == old(self).stats.target_score
                },
            },
    {
        match event {
            Event::ShapeSelected(i, offset) => {
                self.select_shape(i, offset);
                false
            },
            Event::SelectedShapePlaced(t, cell) => {
                PlacementSystem.update_state(self, &t, &cell);
                let ghost mid = self.board;
                proof {
                    lemma_sweep_score_bounds(mid);
                }
                ScoreCleanupSystem.update_state(self);
                assert(board_after_placing(old(self).board, mid, t, cell.col as int, cell.row as int));
                true
            },
        }
    }

    /// One frame of play. The win / lose check runs first; a won level is
    /// replaced by the next one. While playing, the clicks are turned into a
    /// request, the request is carried out, and full lines are swept once
    /// more. Returns true when a shape was placed.
    pub fn tick(&mut self, input: &FrameInput, layout: &ScreenLayout) -> (placed: bool)
        requires
            old(self).wf(),
            input.wf(),
            layout.wf(),
            old(self).stats.level < u16::MAX,
            score_headroom(*old(self)),
        ensures
            final(self).wf(),
            final(self).board.size == old(self).board.size,
            old(self).game_state == GameState::GameOver ==> !placed && final(self).game_state
                == GameState::GameOver && final(self).stats == old(self).stats,
            (old(self).game_state == GameState::MoveToNextLevel || (old(self).game_state
                == GameState::Playing && old(self).stats.total_score
                >= old(self).stats.target_score)) ==> !placed && final(self).game_state
                == GameState::Playing && final(self).stats == (GameStats {
                level: (old(self).stats.level + 1) as u16,
                target_score: ((old(self).stats.level + 1) * 10) as i32,
                current_score: 0,
                total_score: old(self).stats.total_score,
            }),
            (old(self).game_state == GameState::Playing && old(self).stats.total_score
                < old(self).stats.target_score && !any_move(*old(self))) ==> !placed
                && final(self).game_state == GameState::GameOver && final(self).board
                == old(self).board && final(self).stats == old(self).stats,
            selection_agrees(final(self).panel.shape_choice@, final(self).selected_shape),
            (old(self).game_state == GameState::Playing && old(self).stats.total_score
                < old(self).stats.target_score && any_move(*old(self))) ==> ({
                let shapes_r = shapes_after_right_click(old(self).panel.shape_choice@, *input);
                let sel_r = selection_after_right_click(old(self).selected_shape, *input);
                &&& final(self).game_state == GameState::Playing
                &&& final(self).stats.level == old(self).stats.level
                &&& final(self).stats.target_score == old(self).stats.target_score
                &&& match frame_request(*old(self), *input, *layout) {
                    Some(Event::SelectedShapePlaced(t, cell)) => {
                        &&& placed
                        &&& final(self).selected_shape is None
                        &&& panel_after_placement(
                            shapes_r,
                            old(self).panel.shapes_in_cell_space@,
                            final(self).panel,
                        )
                        &&& exists|mid: Board|
                            {
                                &&& board_after_placing(
                                    old(self).board,
                                    mid,
                                    t,
                                    cell.col as int,
                                    cell.row as int,
                                )
                                &&& forall|c: int, r: int|
                                    #![trigger final(self).board.cell(c, r)]
                                    mid.in_bounds(c, r) ==> final(self).board.cell(c, r)
                                        == swept_cell(mid, c, r)
                                &&& final(self).stats.current_score
                                    == old(self).stats.current_score + sweep_score(mid)
                                &&& final(self).stats.total_score == old(self).stats.total_score
                                    + sweep_score(mid)
                            }
                    },
                    Some(Event::ShapeSelected(i, off)) => {
                        &&& !placed
                        &&& final(self).selected_shape == Some(
                            SelectedShape { shape_type: shapes_r[i as int].kind, anchor_offset: off },
                        )
                        &&& final(self).panel.shape_choice@ == with_selection(shapes_r, i as int)
                        &&& final(self).panel.shapes_in_cell_space
                            == old(self).panel.shapes_in_cell_space
                        &&& off.0 <= 0 && off.1 <= 0
                        &&& forall|c: int, r: int|
                            #![trigger final(self).board.cell(c, r)]
                            old(self).board.in_bounds(c, r) ==> final(self).board.cell(c, r)
                                == swept_cell(old(self).board, c, r)
                        &&& final(self).stats.current_score == old(self).stats.current_score
                            + sweep_score(old(self).board)
                        &&& final(self).stats.total_score == old(self).stats.total_score
                            + sweep_score(old(self).board)
                    },
                    None => {
                        &&& !placed
                        &&& final(self).selected_shape == sel_r
                        &&& final(self).panel.shape_choice@ == shapes_r
                        &&& final(self).panel.shapes_in_cell_space
                            == old(self).panel.shapes_in_cell_space
                        &&& forall|c: int, r: int|
                            #![trigger final(self).board.cell(c, r)]
                            old(self).board.in_bounds(c, r) ==> final(self).board.cell(c, r)
                                == swept_cell(old(self).board, c, r)
                        &&& final(self).stats.current_score == old(self).stats.current_score
                            + sweep_score(old(self).board)
                        &&& final(self).stats.total_score == old(self).stats.total_score
                            + sweep_score(old(self).board)
                    },
                }
            }),
    {
        WinOrLoseSystem.update_state(self);
        if self.game_state == GameState::MoveToNextLevel {
            NewGameSystem.update_state(self);
            return false;
        }
        if self.game_state != GameState::Playing {
            return false;
        }
        let mut placed = false;
        match SelectionValidationSystem.update_state(self, input, layout) {
            Some(event) => {
                proof {
                    match event {
                        Event::ShapeSelected(i, _) => {
                            let sel_p = input.mouse_left_clicked->0;
                            crate::panel::lemma_lookup_in_range(
                                self.panel.shape_choice@,
                                self.panel.shapes_in_cell_space@,
                                (sel_p.0 - layout.panel_offset_x_px) / (layout.cell_size_px as int),
                                (sel_p.1 - layout.panel_offset_y_px) / (layout.cell_size_px as int),
                            );
                        },
                        Event::SelectedShapePlaced(t, c) => {
                            lemma_valid_anchor_in_bounds(self.board, t, c.col as int, c.row as int);
                        },
                    }
                }
                placed = self.apply_event(event);
            },
            None => {},
        }
        let ghost before_sweep = self.board;
        proof {
            lemma_sweep_score_bounds(before_sweep);
            if placed {
                let ev = frame_request(*old(self), *input, *layout)->0;
                let t = ev->SelectedShapePlaced_0;
                let cell = ev->SelectedShapePlaced_1;
                let mid = choose|mid: Board|
                    {
                        &&& board_after_placing(old(self).board, mid, t, cell.col as int, cell.row as int)
                        &&& forall|c: int, r: int|
                            #![trigger before_sweep.cell(c, r)]
                            mid.in_bounds(c, r) ==> before_sweep.cell(c, r) == swept_cell(mid, c, r)
                        &&& self.stats.current_score == old(self).stats.current_score + sweep_score(mid)
                        &&& self.stats.total_score == old(self).stats.total_score + sweep_score(mid)
                    };
                lemma_sweep_idempotent(mid, before_sweep);
            }
        }
        ScoreCleanupSystem.update_state(self);
        placed
    }
}

impl ScoreCleanupSystem {
    /// Finds the rows and columns that are full, empties them all, and adds
    /// the sweep's score to the level's score and to the total.
    pub fn update_state(&self, game: &mut Game)
        requires
            old(game).wf(),
            old(game).stats.current_score + sweep_score(old(game).board) <= i32::MAX,
            old(game).stats.total_score + sweep_score(old(game).board) <= i32::MAX,
        ensures
            final(game).wf(),
            final(game).board.size == old(game).board.size,
            forall|c: int, r: int|
                #![trigger final(game).board.cell(c, r)]
                final(game).board.in_bounds(c, r) ==> final(game).board.cell(c, r) == swept_cell(
                    old(game).board,
                    c,
                    r,
                ),
            forall|r: int| 0 <= r < final(game).board.size ==> !#[trigger] row_full(final(game).board, r),
            forall|c: int| 0 <= c < final(game).board.size ==> !#[trigger] col_full(final(game).board, c),
            sweep_score(final(game).board) == 0,
            final(game).stats.current_score == old(game).stats.current_score + sweep_score(
                old(game).board,
            ),
            final(game).stats.total_score == old(game).stats.total_score + sweep_score(
                old(game).board,
            ),
            final(game).stats.level == old(game).stats.level,
            final(game).stats.target_score == old(game).stats.target_score,
            final(game).panel == old(game).panel,
            final(game).selected_shape == old(game).selected_shape,
            final(game).game_state == old(game).game_state,
    {
        let size = game.board.size;
        let ghost b0 = game.board;
        let mut full_row: Vec<bool> = Vec::new();
        let mut full_col: Vec<bool> = Vec::new();
        let mut full_rows: usize = 0;
        let mut full_cols: usize = 0;
        let mut i: usize = 0;
        while i < size
            invariant
                game.wf(),
                *game == *old(game),
                b0 == old(game).board,
                size == b0.size,
                i <= size,
                full_row@.len() == i,
                full_col@.len() == i,
                forall|j: int| 0 <= j < i ==> #[trigger] full_row@[j] == row_full(b0, j),
                forall|j: int| 0 <= j < i ==> #[trigger] full_col@[j] == col_full(b0, j),
                full_rows == count_full_rows(b0, i as int),
                full_cols == count_full_cols(b0, i as int),
                full_rows <= i,
                full_cols <= i,
            decreases size - i,
        {
            let fr = game.row_is_full(i);
            let fc = game.col_is_full(i);
            full_row.push(fr);
            full_col.push(fc);
            if fr {
                full_rows = full_rows + 1;
            }
            if fc {
                full_cols = full_cols + 1;
            }
            i = i + 1;
        }
        let mut row: usize = 0;
        while row < size
            invariant
                game.wf(),
                game.board.size == size,
                size == b0.size,
                b0 == old(game).board,
                row <= size,
                full_row@.len() == size,
                forall|j: int| 0 <= j < size ==> #[trigger] full_row@[j] == row_full(b0, j),
                forall|c: int, r: int|
                    #![trigger game.board.cell(c, r)]
                    game.board.in_bounds(c, r) ==> game.board.cell(c, r) == if r < row && row_full(
                        b0,
                        r,
                    ) {
                        Cell::Empty
                    } else {
                        b0.cell(c, r)
                    },
                game.panel == old(game).panel,
                game.selected_shape == old(game).selected_shape,
                game.stats == old(game).stats,
                game.game_state == old(game).game_state,
            decreases size - row,
        {
            if full_row[row] {
                game.clean_row(row);
            }
            row = row + 1;
        }
        let mut col: usize = 0;
        while col < size
            invariant
                game.wf(),
                game.board.size == size,
                size == b0.size,
                b0 == old(game).board,
                col <= size,
                full_col@.len() == size,
                forall|j: int| 0 <= j < size ==> #[trigger] full_col@[j] == col_full(b0, j),
                forall|c: int, r: int|
                    #![trigger game.board.cell(c, r)]
                    game.board.in_bounds(c, r) ==> game.board.cell(c, r) == if row_full(b0, r) || (c
                        < col && col_full(b0, c)) {
                        Cell::Empty
                    } else {
                        b0.cell(c, r)
                    },
                game.panel == old(game).panel,
                game.selected_shape == old(game).selected_shape,
                game.stats == old(game).stats,
                game.game_state == old(game).game_state,
            decreases size - col,
        {
            if full_col[col] {
                game.clean_col(col);
            }
            col = col + 1;
        }
        proof {
            lemma_sweep_score_bounds(b0);
            assert(full_rows * full_cols <= 40000) by (nonlinear_arith)
                requires
                    full_rows <= 200,
                    full_cols <= 200,
            ;
            assert((full_rows + full_cols) * size <= 80000) by (nonlinear_arith)
                requires
                    full_rows <= 200,
                    full_cols <= 200,
                    size <= 200,
            ;
            let p = full_rows * full_cols;
            assert(p * p <= 1_600_000_000) by (nonlinear_arith)
                requires
                    0 <= p <= 40000,
            ;
        }
        proof {
            lemma_sweep_idempotent(b0, game.board);
        }
        let total_cells = (full_rows + full_cols) * size;
        let combo = full_rows * full_cols;
        let score = (total_cells + combo * combo) as i32;
        proof {
            assert(combo * combo == full_rows * full_cols * full_rows * full_cols) by (nonlinear_arith)
                requires
                    combo == full_rows * full_cols,
            ;
        }
        game.stats.current_score = game.stats.current_score + score;
        game.stats.total_score = game.stats.total_score + score;
    }
}

} // verus!
