//! The panel of offered shapes and its cell-space layout.
use crate::shapes::{
    base_of_index, extent, rot_of_index, shape_cells, ShapeType, BASE_SHAPE_COUNT, ROTATION_COUNT,
};
use crate::space::CellCoord;
use rand::Rng;
use vstd::prelude::*;

verus! {

/// Lifecycle of an offered shape.
#[derive(Clone, Copy, PartialEq, Eq, Debug, Structural)]
pub enum ShapeState {
    VISIBLE,
    SELECTED,
    PLACED,
}

/// An entry of the panel: a shape, its state and the column where it starts
/// in panel cell space.
#[derive(Clone, Copy, PartialEq, Eq, Debug, Structural)]
pub struct Shape {
    pub kind: ShapeType,
    pub state: ShapeState,
    pub col_offset_in_panel_basis: i16,
}

/// The offered shapes, and each panel cell that one of them covers with the
/// index of that shape. The cell list is built once per set of shapes and is
/// not updated when a shape is selected or placed: readers filter by state.
pub struct Panel {
    pub shape_choice: Vec<Shape>,
    pub shapes_in_cell_space: Vec<(CellCoord, usize)>,
}

/// Number of shapes offered at a time.
pub const SHAPES_PER_PANEL: usize = 3;

/// Most shapes one panel can lay out with its columns still fitting in `i16`.
pub const MAX_PANEL_SHAPES: usize = 6000;

pub open spec fn kinds(shapes: Seq<Shape>) -> Seq<ShapeType> {
    shapes.map_values(|s: Shape| s.kind)
}

/// Column where shape `i` starts: each shape takes its width plus one empty
/// column.
pub open spec fn layout_offset(kinds: Seq<ShapeType>, i: int) -> int
    decreases i,
{
    if i <= 0 || i > kinds.len() {
        0
    } else {
        layout_offset(kinds, i - 1) + extent(kinds[i - 1]).0 + 1
    }
}

/// The cells that shape `i` covers, as (col, row, i).
pub open spec fn shape_entries(kind: ShapeType, offset: int, i: int) -> Seq<(int, int, int)> {
    shape_cells(kind).map_values(|c: (int, int)| (c.0 + offset, c.1, i))
}

/// The cells that the first `n` shapes cover, shape after shape.
pub open spec fn panel_entries(kinds: Seq<ShapeType>, n: int) -> Seq<(int, int, int)>
    decreases n,
{
    if n <= 0 || n > kinds.len() {
        Seq::empty()
    } else {
        panel_entries(kinds, n - 1) + shape_entries(kinds[n - 1], layout_offset(kinds, n - 1), n - 1)
    }
}

pub open spec fn entry_view(e: (CellCoord, usize)) -> (int, int, int) {
    (e.0.col as int, e.0.row as int, e.1 as int)
}

pub open spec fn entries_view(m: Seq<(CellCoord, usize)>) -> Seq<(int, int, int)> {
    m.map_values(|e: (CellCoord, usize)| entry_view(e))
}

/// The shape index of the latest entry at (col, row), if any: a later entry
/// for a cell replaces an earlier one, as an insert into a map does.
pub open spec fn lookup(m: Seq<(int, int, int)>, col: int, row: int) -> Option<int>
    decreases m.len(),
{
    if m.len() == 0 {
        None
    } else if m.last().0 == col && m.last().1 == row {
        Some(m.last().2)
    } else {
        lookup(m.drop_last(), col, row)
    }
}

pub open spec fn no_shape_in(shapes: Seq<Shape>, st: ShapeState) -> bool {
    forall|i: int| 0 <= i < shapes.len() ==> #[trigger] shapes[i].state != st
}

proof fn lemma_entries_in_range(kinds: Seq<ShapeType>, n: int)
    requires
        0 <= n <= kinds.len(),
    ensures
        forall|j: int|
            0 <= j < panel_entries(kinds, n).len() ==> 0 <= #[trigger] panel_entries(kinds, n)[j].2
                < n && layout_offset(kinds, panel_entries(kinds, n)[j].2) <= panel_entries(
                kinds,
                n,
            )[j].0,
    decreases n,
{
    if n > 0 {
        lemma_entries_in_range(kinds, n - 1);
        crate::shapes::lemma_transform_closed(kinds[n - 1]);
        let a = panel_entries(kinds, n - 1);
        let b = shape_entries(kinds[n - 1], layout_offset(kinds, n - 1), n - 1);
        assert forall|j: int| 0 <= j < (a + b).len() implies 0 <= #[trigger] (a + b)[j].2 < n
            && layout_offset(kinds, (a + b)[j].2) <= (a + b)[j].0 by {
            if j >= a.len() {
                let k = j - a.len();
                assert(b[k].2 == n - 1);
                assert(0 <= shape_cells(kinds[n - 1])[k].0);
            } else {
                assert((a + b)[j] == a[j]);
            }
        }
    }
}

proof fn lemma_lookup_witness(m: Seq<(int, int, int)>, col: int, row: int)
    ensures
        lookup(m, col, row) matches Some(i) ==> exists|j: int|
            0 <= j < m.len() && #[trigger] m[j].0 == col && m[j].1 == row && m[j].2 == i,
    decreases m.len(),
{
    if m.len() > 0 {
        let d = m.drop_last();
        lemma_lookup_witness(d, col, row);
        if !(m.last().0 == col && m.last().1 == row) {
            if lookup(d, col, row) is Some {
                let i = lookup(d, col, row)->0;
                let j = choose|j: int|
                    0 <= j < d.len() && #[trigger] d[j].0 == col && d[j].1 == row && d[j].2 == i;
                assert(m[j] == d[j]);
            }
        } else {
            assert(m[m.len() - 1] == m.last());
        }
    }
}

/// A laid-out panel names only its own shapes, and a cell it names for
/// shape `i` lies at or right of that shape's layout column.
pub proof fn lemma_lookup_in_range(
    shapes: Seq<Shape>,
    m: Seq<(CellCoord, usize)>,
    col: int,
    row: int,
)
    requires
        entries_view(m) == panel_entries(kinds(shapes), shapes.len() as int),
    ensures
        lookup(entries_view(m), col, row) matches Some(i) ==> 0 <= i < shapes.len()
            && layout_offset(kinds(shapes), i) <= col,
{
    let e = entries_view(m);
    lemma_entries_in_range(kinds(shapes), shapes.len() as int);
    lemma_lookup_witness(e, col, row);
    if lookup(e, col, row) is Some {
        let i = lookup(e, col, row)->0;
        let j = choose|j: int| 0 <= j < e.len() && #[trigger] e[j].0 == col && e[j].1 == row && e[j].2 == i;
        assert(0 <= e[j].2 < shapes.len() && layout_offset(kinds(shapes), e[j].2) <= e[j].0);
    }
}

proof fn lemma_layout_offset_bounds(kinds: Seq<ShapeType>, i: int)
    requires
        0 <= i <= kinds.len(),
    ensures
        i <= layout_offset(kinds, i) <= 5 * i,
    decreases i,
{
    if i > 0 {
        lemma_layout_offset_bounds(kinds, i - 1);
        crate::shapes::lemma_transform_closed(kinds[i - 1]);
    }
}

/// Relies on rand's `Rng::gen_range` over `0..n` on the thread-local
/// generator: the value lies in the range (it panics on an empty one).
#[verifier::external_body]
fn random_below(n: usize) -> (r: usize)
    requires
        n > 0,
    ensures
        r < n,
{
    rand::thread_rng().gen_range(0..n)
}

/// Every shape starts at its column of the row layout.
pub open spec fn offsets_laid_out(shapes: Seq<Shape>) -> bool {
    forall|i: int|
        0 <= i < shapes.len() ==> #[trigger] shapes[i].col_offset_in_panel_basis == layout_offset(
            kinds(shapes),
            i,
        )
}

/// Every shape is visible and starts at its column of the row layout.
pub open spec fn laid_out_in_row(shapes: Seq<Shape>) -> bool {
    &&& offsets_laid_out(shapes)
    &&& forall|i: int| 0 <= i < shapes.len() ==> #[trigger] shapes[i].state == ShapeState::VISIBLE
}

impl Shape {
    /// Visible shapes of the given kinds, laid out left to right, each one
    /// followed by one empty column.
    pub fn in_row(kinds_in: Vec<ShapeType>) -> (r: Vec<Shape>)
        requires
            kinds_in@.len() <= MAX_PANEL_SHAPES,
        ensures
            kinds(r@) == kinds_in@,
            laid_out_in_row(r@),
    {
        let mut r: Vec<Shape> = Vec::new();
        let mut position: i16 = 0;
        let mut i: usize = 0;
        while i < kinds_in.len()
            invariant
                i <= kinds_in@.len() <= MAX_PANEL_SHAPES,
                r@.len() == i,
                kinds(r@) == kinds_in@.take(i as int),
                position == layout_offset(kinds_in@, i as int),
                forall|j: int|
                    0 <= j < i ==> #[trigger] r@[j].state == ShapeState::VISIBLE
                        && r@[j].col_offset_in_panel_basis == layout_offset(kinds_in@, j),
            decreases kinds_in@.len() - i,
        {
            let kind = kinds_in[i];
            proof {
                lemma_layout_offset_bounds(kinds_in@, i as int);
                crate::shapes::lemma_transform_closed(kind);
            }
            let w = kind.horizontal_cell_size();
            r.push(Shape::new(kind, position));
            position = position + w + 1;
            i = i + 1;
            assert(kinds(r@) =~= kinds_in@.take(i as int));
        }
        assert(kinds_in@.take(i as int) =~= kinds_in@);
        proof {
            assert forall|j: int| 0 <= j < r@.len() implies #[trigger] r@[j].col_offset_in_panel_basis
                == layout_offset(kinds(r@), j) by {
                assert(r@[j].state == ShapeState::VISIBLE);
                assert(r@[j].col_offset_in_panel_basis == layout_offset(kinds_in@, j));
            }
            assert forall|j: int| 0 <= j < r@.len() implies #[trigger] r@[j].state
                == ShapeState::VISIBLE by {}
        }
        r
    }

    /// `n` shapes of random kind (base, mirror and rotation drawn
    /// independently), visible and laid out in a row.
    pub fn get_random_choice(n: usize) -> (r: Vec<Shape>)
        requires
            n <= MAX_PANEL_SHAPES,
        ensures
            r@.len() == n,
            laid_out_in_row(r@),
    {
        let mut picked: Vec<ShapeType> = Vec::new();
        let mut i: usize = 0;
        while i < n
            invariant
                i <= n,
                picked@.len() == i,
            decreases n - i,
        {
            let base_ix = random_below(BASE_SHAPE_COUNT);
            let mirror = random_below(2) == 1;
            let rot_ix = random_below(ROTATION_COUNT);
            picked.push(ShapeType::from_choice(base_ix, mirror, rot_ix));
            i = i + 1;
        }
        Shape::in_row(picked)
    }

    pub fn new(kind: ShapeType, col_offset_in_panel_basis: i16) -> (r: Shape)
        ensures
            r == (Shape { kind, state: ShapeState::VISIBLE, col_offset_in_panel_basis }),
    {
        Shape { kind, state: ShapeState::VISIBLE, col_offset_in_panel_basis }
    }

    pub fn set_state(&mut self, state: ShapeState)
        ensures
            *final(self) == (Shape { state, ..*old(self) }),
    {
        self.state = state;
    }
}

impl Panel {
    /// Lays the shapes out left to right from column 0, each one followed by
    /// one empty column, and records every cell each shape covers.
    pub fn from_shapes(shape_choice: Vec<Shape>) -> (r: Panel)
        requires
            shape_choice@.len() <= MAX_PANEL_SHAPES,
        ensures
            r.shape_choice@ == shape_choice@,
            entries_view(r.shapes_in_cell_space@) == panel_entries(
                kinds(shape_choice@),
                shape_choice@.len() as int,
            ),
    {
        let ghost ks = kinds(shape_choice@);
        let mut result: Vec<(CellCoord, usize)> = Vec::new();
        let mut offset_col: i16 = 0;
        let mut i: usize = 0;
        while i < shape_choice.len()
            invariant
                i <= shape_choice@.len() <= MAX_PANEL_SHAPES,
                ks == kinds(shape_choice@),
                offset_col == layout_offset(ks, i as int),
                entries_view(result@) == panel_entries(ks, i as int),
            decreases shape_choice@.len() - i,
        {
            let kind = shape_choice[i].kind;
            let cells = kind.cells();
            proof {
                crate::shapes::lemma_transform_closed(kind);
                lemma_layout_offset_bounds(ks, i as int);
                assert(ks[i as int] == kind);
            }
            let ghost before = result@;
            let mut k: usize = 0;
            while k < cells.len()
                invariant
                    k <= cells@.len(),
                    crate::shapes::int_pairs(cells@) == shape_cells(kind),
                    cells@.len() == shape_cells(kind).len(),
                    forall|j: int|
                        0 <= j < shape_cells(kind).len() ==> 0 <= #[trigger] shape_cells(kind)[j].0
                            < extent(kind).0 && 0 <= shape_cells(kind)[j].1 < extent(kind).1,
                    extent(kind).0 <= 4,
                    extent(kind).1 <= 4,
                    0 <= offset_col <= 5 * MAX_PANEL_SHAPES,
                    i < MAX_PANEL_SHAPES + 1,
                    entries_view(result@) == entries_view(before) + shape_entries(
                        kind,
                        offset_col as int,
                        i as int,
                    ).take(k as int),
                decreases cells@.len() - k,
            {
                let (dx, dy) = cells[k];
                assert(shape_cells(kind)[k as int] == (dx as int, dy as int));
                let ghost mid = result@;
                result.push((CellCoord::new(dx as i16 + offset_col, dy as i16), i));
                k = k + 1;
                assert(entries_view(result@) =~= entries_view(before) + shape_entries(
                    kind,
                    offset_col as int,
                    i as int,
                ).take(k as int)) by {
                    assert(entries_view(result@) =~= entries_view(mid).push(
                        entry_view(result@.last()),
                    ));
                }
            }
            assert(shape_entries(kind, offset_col as int, i as int).take(k as int) =~= shape_entries(
                kind,
                offset_col as int,
                i as int,
            ));
            let w = kind.horizontal_cell_size();
            offset_col = offset_col + w + 1;
            i = i + 1;
        }
        Panel { shape_choice, shapes_in_cell_space: result }
    }

    /// Three random shapes, laid out as `from_shapes` does.
    pub fn generate_for_3() -> (r: Panel)
        ensures
            r.shape_choice@.len() == SHAPES_PER_PANEL,
            laid_out_in_row(r.shape_choice@),
            entries_view(r.shapes_in_cell_space@) == panel_entries(
                kinds(r.shape_choice@),
                SHAPES_PER_PANEL as int,
            ),
    {
        let shapes = Shape::get_random_choice(SHAPES_PER_PANEL);
        Panel::from_shapes(shapes)
    }

    /// Index of the shape recorded at `coord`, whatever its state.
    pub fn shape_at(&self, coord: &CellCoord) -> (r: Option<usize>)
        ensures
            match r {
                Some(i) => lookup(
                    entries_view(self.shapes_in_cell_space@),
                    coord.col as int,
                    coord.row as int,
                ) == Some(i as int),
                None => lookup(
                    entries_view(self.shapes_in_cell_space@),
                    coord.col as int,
                    coord.row as int,
                ) is None,
            },
    {
        let ghost m = entries_view(self.shapes_in_cell_space@);
        let mut j: usize = self.shapes_in_cell_space.len();
        assert(m.take(j as int) =~= m);
        while j > 0
            invariant
                j <= self.shapes_in_cell_space@.len(),
                m == entries_view(self.shapes_in_cell_space@),
                lookup(m, coord.col as int, coord.row as int) == lookup(
                    m.take(j as int),
                    coord.col as int,
                    coord.row as int,
                ),
            decreases j,
        {
            let e = self.shapes_in_cell_space[j - 1];
            assert(m.take(j as int).drop_last() =~= m.take(j - 1));
            if e.0.col == coord.col && e.0.row == coord.row {
                return Some(e.1);
            }
            j = j - 1;
        }
        None
    }
}

} // verus!
