//! Cell coordinates and the index space of the vertex grid: a grid that is
//! `max_col` cells wide has `max_col + 1` vertices per row, and the cell
//! (col, row) is the quad whose top-left vertex is `row * (max_col + 1) + col`.
use crate::board::{Board, Cell};
use crate::panel::{Panel, Shape, ShapeState};
use crate::shapes::{shape_cells, ShapeType};
use vstd::prelude::*;

verus! {

/// A cell of the board or of the panel, as (col, row).
#[derive(Clone, Copy, PartialEq, Eq, Debug, Hash, Structural)]
pub struct CellCoord {
    pub col: i16,
    pub row: i16,
}

/// A pixel offset from the pointer to a selected shape's top-left corner.
#[derive(Clone, Copy, PartialEq, Eq, Debug, Structural)]
pub struct OffsetXY(pub i16, pub i16);

/// An undirected edge between two vertices of the index space.
#[derive(Clone, Copy, PartialEq, Eq, Debug, Hash, Structural)]
pub struct Edge(pub u32, pub u32);

impl CellCoord {
    pub fn new(col: i16, row: i16) -> (r: CellCoord)
        ensures
            r.col == col,
            r.row == row,
    {
        CellCoord { col, row }
    }
}

/// Index of the top-left vertex of cell (col, row).
pub open spec fn top_left(col: int, row: int, max_col: int) -> int {
    row * (max_col + 1) + col
}

/// The two triangles of a cell: (top-left, bottom-left, bottom-right) and
/// (top-left, bottom-right, top-right).
pub open spec fn quad_triangles(col: int, row: int, max_col: int) -> Seq<int> {
    let tl = top_left(col, row, max_col);
    let stride = max_col + 1;
    seq![tl, tl + stride, tl + stride + 1, tl, tl + stride + 1, tl + 1]
}

/// The four corners of a cell, clockwise from the top-left.
pub open spec fn quad_corners(col: int, row: int, max_col: int) -> Seq<int> {
    let tl = top_left(col, row, max_col);
    let stride = max_col + 1;
    seq![tl, tl + 1, tl + stride + 1, tl + stride]
}

/// Vertex indices read as integers.
pub open spec fn ints(v: Seq<u32>) -> Seq<int> {
    v.map_values(|x: u32| x as int)
}

/// The cell whose top-left vertex is `ix`.
pub open spec fn cell_of_vertex(ix: int, max_col: int) -> (int, int) {
    (ix % (max_col + 1), ix / (max_col + 1))
}

/// The triangles of each cell in turn, every index shifted by `offset`.
pub open spec fn index_space(cells: Seq<CellCoord>, max_col: int, offset: int) -> Seq<int> {
    cells.flat_map(
        |c: CellCoord|
            quad_triangles(c.col as int, c.row as int, max_col).map_values(|i: int| i + offset),
    )
}

/// The triangles of a cell fit in `u32` once shifted by `offset`.
pub open spec fn fits_index_space(c: CellCoord, max_col: int, offset: int) -> bool {
    &&& 0 <= c.col
    &&& 0 <= c.row
    &&& top_left(c.col as int, c.row as int, max_col) + max_col + 2 + offset <= u32::MAX
}

/// A cell's top-left vertex leads back to the cell, for every column inside
/// the grid's width.
pub proof fn lemma_vertex_round_trip(col: int, row: int, max_col: int)
    requires
        0 <= col <= max_col,
        0 <= row,
    ensures
        cell_of_vertex(quad_triangles(col, row, max_col)[0], max_col) == (col, row),
        cell_of_vertex(quad_corners(col, row, max_col)[0], max_col) == (col, row),
{
    let s = max_col + 1;
    vstd::arithmetic::div_mod::lemma_fundamental_div_mod_converse(row * s + col, s, row, col);
}

/// The six triangle indices of a cell.
pub fn cell_to_ix(coord: &CellCoord, max_col: usize) -> (r: [u32; 6])
    requires
        fits_index_space(*coord, max_col as int, 0),
    ensures
        ints(r@) == quad_triangles(coord.col as int, coord.row as int, max_col as int),
{
    let row = coord.row as u32;
    let col = coord.col as u32;
    proof {
        assert(row * (max_col + 1) <= top_left(coord.col as int, coord.row as int, max_col as int));
    }
    let stride = max_col as u32 + 1;
    let top_left = row * stride + col;
    let top_right = top_left + 1;
    let bottom_left = top_left + stride;
    let bottom_right = bottom_left + 1;
    let r = [top_left, bottom_left, bottom_right, top_left, bottom_right, top_right];
    assert(ints(r@) =~= quad_triangles(coord.col as int, coord.row as int, max_col as int));
    r
}

/// The four corner indices of a cell, clockwise from the top-left.
pub fn cell_to_ix_4(coord: &CellCoord, max_col: usize) -> (r: [u32; 4])
    requires
        0 <= coord.col,
        0 <= coord.row,
        max_col + 1 <= i16::MAX,
        top_left(coord.col as int, coord.row as int, max_col as int) + max_col + 2 <= i16::MAX,
    ensures
        ints(r@) == quad_corners(coord.col as int, coord.row as int, max_col as int),
{
    let row = coord.row;
    let col = coord.col;
    let stride = (max_col + 1) as i16;
    proof {
        assert(0 <= row * stride <= row * (max_col + 1) + col) by (nonlinear_arith)
            requires
                0 <= row,
                0 <= col,
                stride == max_col + 1,
        ;
    }
    let top_left = row * stride + col;
    let top_right = top_left + 1;
    let bottom_left = top_left + stride;
    let bottom_right = bottom_left + 1;
    let r = [top_left as u32, top_right as u32, bottom_right as u32, bottom_left as u32];
    assert(ints(r@) =~= quad_corners(coord.col as int, coord.row as int, max_col as int));
    r
}

/// The cell whose top-left vertex is `ix` in a grid `max_col` cells wide.
pub fn ix_to_cell(ix: u32, max_col: usize) -> (r: (u32, u32))
    requires
        max_col < u32::MAX,
    ensures
        (r.0 as int, r.1 as int) == cell_of_vertex(ix as int, max_col as int),
{
    let stride = max_col as u32 + 1;
    (ix % stride, ix / stride)
}

/// The triangles of one cell, every index shifted by `offset`.
pub open spec fn shifted_quad(c: CellCoord, max_col: int, offset: int) -> Seq<int> {
    quad_triangles(c.col as int, c.row as int, max_col).map_values(|i: int| i + offset)
}

/// Appends the shifted triangles of `c` to `out`.
fn append_cell(out: &mut Vec<u32>, c: CellCoord, max_col: usize, offset: u32)
    requires
        fits_index_space(c, max_col as int, offset as int),
    ensures
        ints(final(out)@) == ints(old(out)@) + shifted_quad(c, max_col as int, offset as int),
{
    let quad = cell_to_ix(&c, max_col);
    let ghost before = out@;
    let mut k: usize = 0;
    while k < 6
        invariant
            k <= 6,
            ints(quad@) == quad_triangles(c.col as int, c.row as int, max_col as int),
            fits_index_space(c, max_col as int, offset as int),
            out@.len() == before.len() + k,
            forall|j: int| 0 <= j < before.len() ==> #[trigger] out@[j] == before[j],
            forall|j: int| 0 <= j < k ==> #[trigger] out@[before.len() + j] as int == quad@[j] + offset,
        decreases 6 - k,
    {
        out.push(quad[k] + offset);
        k = k + 1;
    }
    let ghost f = shifted_quad(c, max_col as int, offset as int);
    assert forall|j: int| 0 <= j < 6 implies #[trigger] f[j] == quad@[j] + offset by {
        assert(ints(quad@)[j] == quad@[j] as int);
    }
    assert forall|j: int| 0 <= j < out@.len() implies #[trigger] ints(out@)[j] == (ints(before)
        + f)[j] by {
        if j >= before.len() {
            let m = j - before.len();
            assert(out@[before.len() + m] as int == quad@[m] + offset);
        }
    }
    assert(ints(out@) =~= ints(before) + f);
}

proof fn lemma_index_space_push(cells: Seq<CellCoord>, c: CellCoord, max_col: int, offset: int)
    ensures
        index_space(cells.push(c), max_col, offset) == index_space(cells, max_col, offset)
            + shifted_quad(c, max_col, offset),
{
    let f = |c: CellCoord|
        quad_triangles(c.col as int, c.row as int, max_col).map_values(|i: int| i + offset);
    cells.lemma_flat_map_push(f, c);
}

/// Triangle indices of every cell in turn, shifted by `offset`.
pub fn to_index_space(cells: Vec<CellCoord>, max_col: usize, offset: u32) -> (r: Vec<u32>)
    requires
        forall|i: int|
            0 <= i < cells@.len() ==> fits_index_space(
                #[trigger] cells@[i],
                max_col as int,
                offset as int,
            ),
    ensures
        ints(r@) == index_space(cells@, max_col as int, offset as int),
{
    let mut r: Vec<u32> = Vec::new();
    let mut i: usize = 0;
    assert(cells@.take(0) =~= Seq::<CellCoord>::empty());
    while i < cells.len()
        invariant
            i <= cells@.len(),
            forall|j: int|
                0 <= j < cells@.len() ==> fits_index_space(
                    #[trigger] cells@[j],
                    max_col as int,
                    offset as int,
                ),
            ints(r@) == index_space(cells@.take(i as int), max_col as int, offset as int),
        decreases cells@.len() - i,
    {
        let c = cells[i];
        append_cell(&mut r, c, max_col, offset);
        proof {
            lemma_index_space_push(cells@.take(i as int), c, max_col as int, offset as int);
            assert(cells@.take(i + 1) =~= cells@.take(i as int).push(c));
        }
        i = i + 1;
    }
    assert(cells@.take(i as int) =~= cells@);
    r
}

/// Filled cells of row `row` among its first `n` columns, left to right.
pub open spec fn filled_in_row(b: Board, row: int, n: int) -> Seq<CellCoord>
    decreases n,
{
    if n <= 0 {
        Seq::empty()
    } else {
        filled_in_row(b, row, n - 1) + if b.cell(n - 1, row) == Cell::Filled {
            seq![CellCoord { col: (n - 1) as i16, row: row as i16 }]
        } else {
            Seq::empty()
        }
    }
}

/// Filled cells of the first `n` rows, row by row.
pub open spec fn filled_rows(b: Board, n: int) -> Seq<CellCoord>
    decreases n,
{
    if n <= 0 {
        Seq::empty()
    } else {
        filled_rows(b, n - 1) + filled_in_row(b, n - 1, b.size as int)
    }
}

/// Filled cells of the board in row-major order.
pub open spec fn filled_cells(b: Board) -> Seq<CellCoord> {
    filled_rows(b, b.size as int)
}

/// Triangle indices of the filled board cells, row by row, on a vertex grid
/// `size + 1` vertices wide.
pub fn render_board(board: &Board) -> (r: Vec<u32>)
    requires
        board.wf(),
        board.size <= i16::MAX,
    ensures
        ints(r@) == index_space(filled_cells(*board), board.size as int, 0),
{
    let n = board.size;
    let mut indices: Vec<u32> = Vec::new();
    let ghost mut cells: Seq<CellCoord> = Seq::empty();
    let mut row: usize = 0;
    while row < n
        invariant
            board.wf(),
            n == board.size <= i16::MAX,
            row <= n,
            cells == filled_rows(*board, row as int),
            ints(indices@) == index_space(cells, n as int, 0),
        decreases n - row,
    {
        let mut col: usize = 0;
        while col < n
            invariant
                board.wf(),
                n == board.size <= i16::MAX,
                row < n,
                col <= n,
                cells == filled_rows(*board, row as int) + filled_in_row(*board, row as int, col as int),
                ints(indices@) == index_space(cells, n as int, 0),
            decreases n - col,
        {
            match board.get(col, row) {
                Some(c) => {
                    if *c == Cell::Filled {
                        let cc = CellCoord::new(col as i16, row as i16);
                        proof {
                            assert(row * (n + 1) <= (n - 1) * (n + 1)) by (nonlinear_arith)
                                requires
                                    row < n,
                            ;
                            assert((n - 1) * (n + 1) + (n - 1) + n + 2 <= 32767 * 32769 + 65536)
                                by (nonlinear_arith)
                                requires
                                    n <= 32767,
                                    n >= 1,
                            ;
                        }
                        append_cell(&mut indices, cc, n, 0);
                        proof {
                            lemma_index_space_push(cells, cc, n as int, 0);
                            cells = cells.push(cc);
                        }
                    }
                },
                None => {},
            }
            proof {
                assert(filled_in_row(*board, row as int, col + 1) =~= filled_in_row(
                    *board,
                    row as int,
                    col as int,
                ) + if board.cell(col as int, row as int) == Cell::Filled {
                    seq![CellCoord { col: col as i16, row: row as i16 }]
                } else {
                    Seq::empty()
                });
                if board.cell(col as int, row as int) == Cell::Filled {
                    assert(cells =~= filled_rows(*board, row as int) + filled_in_row(
                        *board,
                        row as int,
                        col + 1,
                    ));
                } else {
                    assert(cells =~= filled_rows(*board, row as int) + filled_in_row(
                        *board,
                        row as int,
                        col + 1,
                    ));
                }
            }
            col = col + 1;
        }
        row = row + 1;
    }
    indices
}

/// The panel cells whose shape is still visible, in the panel's order.
pub open spec fn visible_panel_cells(shapes: Seq<Shape>, m: Seq<(CellCoord, usize)>) -> Seq<CellCoord> {
    m.filter(
        |e: (CellCoord, usize)| e.1 < shapes.len() && shapes[e.1 as int].state == ShapeState::VISIBLE,
    ).map_values(|e: (CellCoord, usize)| e.0)
}

/// Triangle indices of the panel cells of visible shapes, on a vertex grid
/// `panel_width_cols + 1` wide, numbered after the board's
/// `board_index_offset` vertices.
pub fn render_panel(panel: &Panel, panel_width_cols: usize, board_index_offset: usize) -> (r: Vec<
    u32,
>)
    requires
        board_index_offset <= u32::MAX,
        forall|j: int|
            0 <= j < panel.shapes_in_cell_space@.len() ==> fits_index_space(
                (#[trigger] panel.shapes_in_cell_space@[j]).0,
                panel_width_cols as int,
                board_index_offset as int,
            ),
    ensures
        ints(r@) == index_space(
            visible_panel_cells(panel.shape_choice@, panel.shapes_in_cell_space@),
            panel_width_cols as int,
            board_index_offset as int,
        ),
{
    let ghost shapes = panel.shape_choice@;
    let ghost m = panel.shapes_in_cell_space@;
    let ghost pred = |e: (CellCoord, usize)|
        e.1 < shapes.len() && shapes[e.1 as int].state == ShapeState::VISIBLE;
    let mut visible: Vec<CellCoord> = Vec::new();
    let mut j: usize = 0;
    assert(m.take(0) =~= Seq::<(CellCoord, usize)>::empty());
    while j < panel.shapes_in_cell_space.len()
        invariant
            j <= m.len(),
            m == panel.shapes_in_cell_space@,
            shapes == panel.shape_choice@,
            pred == (|e: (CellCoord, usize)|
                e.1 < shapes.len() && shapes[e.1 as int].state == ShapeState::VISIBLE),
            visible@ == m.take(j as int).filter(pred).map_values(|e: (CellCoord, usize)| e.0),
        decreases m.len() - j,
    {
        let e = panel.shapes_in_cell_space[j];
        proof {
            assert(m.take(j + 1) =~= m.take(j as int).push(e));
            m.take(j as int).lemma_filter_push(e, pred);
        }
        if e.1 < panel.shape_choice.len() && panel.shape_choice[e.1].state == ShapeState::VISIBLE {
            visible.push(e.0);
            assert(visible@ =~= m.take(j + 1).filter(pred).map_values(
                |e: (CellCoord, usize)| e.0,
            ));
        } else {
            assert(visible@ =~= m.take(j + 1).filter(pred).map_values(
                |e: (CellCoord, usize)| e.0,
            ));
        }
        j = j + 1;
    }
    assert(m.take(j as int) =~= m);
    proof {
        assert forall|i: int| 0 <= i < visible@.len() implies fits_index_space(
            #[trigger] visible@[i],
            panel_width_cols as int,
            board_index_offset as int,
        ) by {
            let f = m.filter(pred);
            assert(visible@[i] == f[i].0);
            assert(m.contains(f[i])) by {
                m.lemma_filter_contains_rev(pred, f[i]);
                assert(f.contains(f[i]));
            }
        }
    }
    to_index_space(visible, panel_width_cols, board_index_offset as u32)
}

/// The endpoints of an edge in increasing order.
pub open spec fn canon(a: int, b: int) -> (int, int) {
    if a < b {
        (a, b)
    } else {
        (b, a)
    }
}

impl Edge {
    /// The four sides of a cell, each with its smaller vertex first.
    pub fn around_cell(coord: &CellCoord, board_size: usize) -> (r: [Edge; 4])
        requires
            0 <= coord.col,
            0 <= coord.row,
            board_size + 1 <= i16::MAX,
            top_left(coord.col as int, coord.row as int, board_size as int) + board_size + 2
                <= i16::MAX,
        ensures
            forall|i: int|
                0 <= i < 4 ==> {
                    let q = quad_corners(coord.col as int, coord.row as int, board_size as int);
                    (#[trigger] r@[i].0 as int, r@[i].1 as int) == canon(q[i], q[(i + 1) % 4])
                },
    {
        let ix = cell_to_ix_4(coord, board_size);
        let r = [
            Edge(ix[0], ix[1]).canonical(),
            Edge(ix[1], ix[2]).canonical(),
            Edge(ix[2], ix[3]).canonical(),
            Edge(ix[3], ix[0]).canonical(),
        ];
        proof {
            let q = quad_corners(coord.col as int, coord.row as int, board_size as int);
            assert forall|i: int| 0 <= i < 4 implies (#[trigger] r@[i].0 as int, r@[i].1 as int)
                == canon(q[i], q[(i + 1) % 4]) by {
                assert(ints(ix@)[i] == q[i]);
                assert(ints(ix@)[(i + 1) % 4] == q[(i + 1) % 4]);
            }
        }
        r
    }

    /// The same edge with its smaller vertex first.
    pub fn canonical(self) -> (r: Edge)
        ensures
            (r.0 as int, r.1 as int) == canon(self.0 as int, self.1 as int),
    {
        if self.0 < self.1 {
            self
        } else {
            Edge(self.1, self.0)
        }
    }
}

/// One of the first `n` edges joins `v` and `w`.
pub open spec fn adjacent_within(edges: Seq<Edge>, n: int, v: u32, w: u32) -> bool {
    exists|i: int|
        0 <= i < n && ((#[trigger] edges[i].0 == v && edges[i].1 == w) || (edges[i].1 == v
            && edges[i].0 == w))
}

/// Some edge of the list joins `v` and `w`.
pub open spec fn adjacent(edges: Seq<Edge>, v: u32, w: u32) -> bool {
    adjacent_within(edges, edges.len() as int, v, w)
}

/// Step `i` of `path` goes to the smallest neighbour of the previous vertex
/// that the path has not visited yet.
pub open spec fn greedy_step(edges: Seq<Edge>, path: Seq<u32>, i: int) -> bool {
    &&& adjacent(edges, path[i - 1], path[i])
    &&& !path.take(i).contains(path[i])
    &&& forall|w: u32|
        adjacent(edges, path[i - 1], w) && !path.take(i).contains(w) ==> path[i] <= w
}

/// `path` walks from the first vertex of the first edge, always to the
/// smallest unvisited neighbour, and stops where no unvisited neighbour is
/// left.
pub open spec fn greedy_walk(edges: Seq<Edge>, path: Seq<u32>) -> bool {
    &&& edges.len() > 0
    &&& path.len() >= 1
    &&& path[0] == edges[0].0
    &&& forall|i: int| 1 <= i < path.len() ==> #[trigger] greedy_step(edges, path, i)
    &&& forall|w: u32| adjacent(edges, path.last(), w) ==> path.contains(w)
}

/// Both endpoints of every edge, edge after edge.
pub open spec fn endpoints(edges: Seq<Edge>) -> Seq<u32> {
    Seq::new(
        2 * edges.len(),
        |k: int|
            if k % 2 == 0 {
                edges[k / 2].0
            } else {
                edges[k / 2].1
            },
    )
}

fn contains_vertex(v: &Vec<u32>, w: u32) -> (r: bool)
    ensures
        r == v@.contains(w),
{
    let mut i: usize = 0;
    while i < v.len()
        invariant
            i <= v@.len(),
            forall|j: int| 0 <= j < i ==> #[trigger] v@[j] != w,
        decreases v@.len() - i,
    {
        if v[i] == w {
            return true;
        }
        i = i + 1;
    }
    false
}

proof fn lemma_endpoint(edges: Seq<Edge>, i: int)
    requires
        0 <= i < edges.len(),
    ensures
        endpoints(edges).contains(edges[i].0),
        endpoints(edges).contains(edges[i].1),
{
    let e = endpoints(edges);
    assert((2 * i) % 2 == 0 && (2 * i) / 2 == i);
    assert((2 * i + 1) % 2 == 1 && (2 * i + 1) / 2 == i);
    assert(e[2 * i] == edges[i].0);
    assert(e[2 * i + 1] == edges[i].1);
}

proof fn lemma_path_len_bound(edges: Seq<Edge>, path: Seq<u32>)
    requires
        path.no_duplicates(),
        forall|i: int| 0 <= i < path.len() ==> endpoints(edges).contains(#[trigger] path[i]),
    ensures
        path.len() <= 2 * edges.len(),
{
    let e = endpoints(edges);
    path.unique_seq_to_set();
    e.lemma_cardinality_of_set();
    assert(path.to_set().subset_of(e.to_set())) by {
        assert forall|x: u32| path.to_set().contains(x) implies e.to_set().contains(x) by {
            let i = choose|i: int| 0 <= i < path.len() && path[i] == x;
        }
    }
    vstd::set_lib::lemma_len_subset(path.to_set(), e.to_set());
}

/// Orders the edges of a contour into a line strip: the greedy walk from the
/// first vertex of the first edge, followed by that vertex once more when the
/// walk ends next to it.
pub fn order_edges_for_linestrip(edges: Vec<Edge>) -> (r: Vec<u32>)
    requires
        edges@.len() > 0,
    ensures
        exists|path: Seq<u32>|
            greedy_walk(edges@, path) && r@ == if adjacent(edges@, path.last(), path[0]) {
                path.push(path[0])
            } else {
                path
            },
{
    let ghost es = edges@;
    let n = edges.len();
    let first = edges[0].0;
    let mut path: Vec<u32> = Vec::new();
    path.push(first);
    proof {
        lemma_endpoint(es, 0);
    }
    let mut done = false;
    let mut first_adjacent = false;
    while !done
        invariant
            es == edges@,
            n == es.len() > 0,
            path@.len() >= 1,
            path@[0] == first,
            first == es[0].0,
            path@.no_duplicates(),
            forall|i: int| 0 <= i < path@.len() ==> endpoints(es).contains(#[trigger] path@[i]),
            forall|i: int| 1 <= i < path@.len() ==> #[trigger] greedy_step(es, path@, i),
            done ==> forall|w: u32| adjacent(es, path@.last(), w) ==> path@.contains(w),
            done ==> first_adjacent == adjacent(es, path@.last(), first),
        decreases 2 * es.len() - path@.len() + if done {
            0int
        } else {
            1int
        },
    {
        proof {
            lemma_path_len_bound(es, path@);
        }
        let current = path[path.len() - 1];
        let mut best: Option<u32> = None;
        let mut closes = false;
        let mut j: usize = 0;
        while j < n
            invariant
                es == edges@,
                n == es.len(),
                j <= n,
                path@.len() >= 1,
                current == path@.last(),
                closes == adjacent_within(es, j as int, current, first),
                match best {
                    None => forall|w: u32|
                        adjacent_within(es, j as int, current, w) ==> path@.contains(w),
                    Some(b) => adjacent_within(es, j as int, current, b) && !path@.contains(b)
                        && forall|w: u32|
                        adjacent_within(es, j as int, current, w) && !path@.contains(w) ==> b <= w,
                },
            decreases n - j,
        {
            let e = edges[j];
            if e.0 == current {
                if e.1 == first {
                    closes = true;
                }
                if !contains_vertex(&path, e.1) {
                    match best {
                        None => {
                            best = Some(e.1);
                        },
                        Some(b) => {
                            if e.1 < b {
                                best = Some(e.1);
                            }
                        },
                    }
                }
            }
            if e.1 == current {
                if e.0 == first {
                    closes = true;
                }
                if !contains_vertex(&path, e.0) {
                    match best {
                        None => {
                            best = Some(e.0);
                        },
                        Some(b) => {
                            if e.0 < b {
                                best = Some(e.0);
                            }
                        },
                    }
                }
            }
            proof {
                assert forall|w: u32|
                    adjacent_within(es, j + 1, current, w) implies adjacent_within(
                    es,
                    j as int,
                    current,
                    w,
                ) || (e.0 == current && e.1 == w) || (e.1 == current && e.0 == w) by {
                    let i = choose|i: int|
                        0 <= i < j + 1 && ((#[trigger] es[i].0 == current && es[i].1 == w) || (
                        es[i].1 == current && es[i].0 == w));
                    if i < j {
                    }
                }
                if e.0 == current {
                    assert(adjacent_within(es, j + 1, current, e.1)) by {
                        assert(es[j as int] == e);
                    }
                }
                if e.1 == current {
                    assert(adjacent_within(es, j + 1, current, e.0)) by {
                        assert(es[j as int] == e);
                    }
                }
                assert forall|w: u32|
                    adjacent_within(es, j as int, current, w) implies adjacent_within(
                    es,
                    j + 1,
                    current,
                    w,
                ) by {
                    let i = choose|i: int|
                        0 <= i < j && ((#[trigger] es[i].0 == current && es[i].1 == w) || (
                        es[i].1 == current && es[i].0 == w));
                }
            }
            j = j + 1;
        }
        match best {
            Some(w) => {
                proof {
                    let i = choose|i: int|
                        0 <= i < n && ((#[trigger] es[i].0 == current && es[i].1 == w) || (
                        es[i].1 == current && es[i].0 == w));
                    lemma_endpoint(es, i);
                }
                let ghost before = path@;
                path.push(w);
                proof {
                    assert(path@.take(before.len() as int) =~= before);
                    assert forall|i: int| 1 <= i < path@.len() implies #[trigger] greedy_step(
                        es,
                        path@,
                        i,
                    ) by {
                        if i < before.len() {
                            assert(greedy_step(es, before, i));
                            assert(path@.take(i) =~= before.take(i));
                        }
                    }
                }
            },
            None => {
                done = true;
                first_adjacent = closes;
            },
        }
    }
    let ghost walk = path@;
    assert(greedy_walk(es, walk));
    if first_adjacent {
        path.push(first);
    }
    assert(path@ =~= if adjacent(es, walk.last(), walk[0]) {
        walk.push(walk[0])
    } else {
        walk
    });
    path
}

/// Largest board side whose corner indices fit in `i16`.
pub const MAX_CONTOUR_BOARD: usize = 180;

/// The cells of `t` anchored at `anchor` that lie on a board of side `n`, in
/// the shape's order.
pub open spec fn on_board_cells(t: ShapeType, anchor: CellCoord, n: int) -> Seq<CellCoord> {
    shape_cells(t).filter(
        |p: (int, int)|
            0 <= anchor.col + p.0 < n && 0 <= anchor.row + p.1 < n,
    ).map_values(
        |p: (int, int)| CellCoord { col: (anchor.col + p.0) as i16, row: (anchor.row + p.1) as i16 },
    )
}

/// The four sides of a cell, each with its smaller vertex first.
pub open spec fn cell_sides(c: CellCoord, n: int) -> Seq<Edge> {
    let q = quad_corners(c.col as int, c.row as int, n);
    Seq::new(
        4,
        |i: int|
            Edge(canon(q[i], q[(i + 1) % 4]).0 as u32, canon(q[i], q[(i + 1) % 4]).1 as u32),
    )
}

/// The sides of every on-board cell of the shape, cell after cell.
pub open spec fn contour_sides(t: ShapeType, anchor: CellCoord, n: int) -> Seq<Edge> {
    on_board_cells(t, anchor, n).flat_map(|c: CellCoord| cell_sides(c, n))
}

/// Number of times `e` occurs in `s`.
pub open spec fn occurrences(s: Seq<Edge>, e: Edge) -> nat
    decreases s.len(),
{
    if s.len() == 0 {
        0
    } else {
        occurrences(s.drop_last(), e) + if s.last() == e {
            1nat
        } else {
            0nat
        }
    }
}

/// The edges that occur an odd number of times: the outline of a set of
/// cells, since a side shared by two cells occurs twice.
pub open spec fn odd_edges(s: Seq<Edge>) -> Set<Edge> {
    Set::new(|e: Edge| occurrences(s, e) % 2 == 1)
}

/// Adds `e` to the set held in `set`, or takes it out if it is there.
fn toggle_edge(set: &mut Vec<Edge>, e: Edge)
    requires
        old(set)@.no_duplicates(),
    ensures
        final(set)@.no_duplicates(),
        forall|x: Edge|
            #[trigger] final(set)@.contains(x) == if x == e {
                !old(set)@.contains(x)
            } else {
                old(set)@.contains(x)
            },
{
    let ghost before = set@;
    let mut i: usize = 0;
    while i < set.len()
        invariant
            set@ == before,
            before == old(set)@,
            before.no_duplicates(),
            i <= before.len(),
            forall|j: int| 0 <= j < i ==> #[trigger] before[j] != e,
        decreases before.len() - i,
    {
        if set[i] == e {
            set.remove(i);
            proof {
                assert(set@ == before.remove(i as int));
                assert forall|k: int| 0 <= k < set@.len() implies #[trigger] set@[k] == if k < i {
                    before[k]
                } else {
                    before[k + 1]
                } by {}
                assert forall|x: Edge| #[trigger] set@.contains(x) == if x == e {
                    !before.contains(x)
                } else {
                    before.contains(x)
                } by {
                    if set@.contains(x) {
                        let k = choose|k: int| 0 <= k < set@.len() && set@[k] == x;
                        if k < i {
                            assert(before[k] == x);
                            if x == e {
                                assert(before[i as int] == e);
                            }
                        } else {
                            assert(before[k + 1] == x);
                            if x == e {
                                assert(before[i as int] == e);
                            }
                        }
                    }
                    if x == e {
                        assert(before[i as int] == e);
                    }
                    if x != e && before.contains(x) {
                        let k = choose|k: int| 0 <= k < before.len() && before[k] == x;
                        if k < i {
                            assert(set@[k] == x);
                        } else {
                            assert(k != i);
                            assert(set@[k - 1] == x);
                        }
                    }
                }
                assert forall|a: int, b: int|
                    0 <= a < set@.len() && 0 <= b < set@.len() && a != b implies set@[a]
                    != set@[b] by {
                    let a2 = if a < i {
                        a
                    } else {
                        a + 1
                    };
                    let b2 = if b < i {
                        b
                    } else {
                        b + 1
                    };
                    assert(set@[a] == before[a2]);
                    assert(set@[b] == before[b2]);
                }
            }
            return;
        }
        i = i + 1;
    }
    set.push(e);
    proof {
        assert forall|x: Edge| #[trigger] set@.contains(x) == if x == e {
            !before.contains(x)
        } else {
            before.contains(x)
        } by {
            if x == e {
                assert(set@[before.len() as int] == e);
            }
            if set@.contains(x) && x != e {
                let k = choose|k: int| 0 <= k < set@.len() && set@[k] == x;
                assert(before[k] == x);
            }
            if before.contains(x) {
                let k = choose|k: int| 0 <= k < before.len() && before[k] == x;
                assert(set@[k] == x);
            }
        }
    }
}

proof fn lemma_occurrences_push(s: Seq<Edge>, e: Edge, x: Edge)
    ensures
        occurrences(s.push(e), x) == occurrences(s, x) + if e == x {
            1nat
        } else {
            0nat
        },
{
    assert(s.push(e).drop_last() =~= s);
}

/// The outline of the shape `shape_type` with its top-left offset on
/// `anchor`, clipped to a board of side `board_size`, as a line strip of
/// board vertex indices: the sides that exactly one covered cell has, walked
/// from one of them (see `order_edges_for_linestrip`). Empty when no cell of
/// the shape is on the board.
pub fn render_contour(shape_type: &ShapeType, anchor: &CellCoord, board_size: usize) -> (r: Vec<u32>)
    requires
        0 < board_size <= MAX_CONTOUR_BOARD,
    ensures
        exists|es: Seq<Edge>|
            {
                &&& es.no_duplicates()
                &&& es.to_set() == odd_edges(contour_sides(*shape_type, *anchor, board_size as int))
                &&& if es.len() == 0 {
                    r@.len() == 0
                } else {
                    exists|path: Seq<u32>|
                        greedy_walk(es, path) && r@ == if adjacent(es, path.last(), path[0]) {
                            path.push(path[0])
                        } else {
                            path
                        }
                }
            },
{
    let n = board_size;
    let cells = shape_type.cells();
    let ghost sc = shape_cells(*shape_type);
    let ghost inside = |p: (int, int)|
        0 <= anchor.col + p.0 < n && 0 <= anchor.row + p.1 < n;
    let ghost to_coord = |p: (int, int)|
        CellCoord { col: (anchor.col + p.0) as i16, row: (anchor.row + p.1) as i16 };
    proof {
        crate::shapes::lemma_transform_closed(*shape_type);
    }
    let mut visible: Vec<CellCoord> = Vec::new();
    let mut k: usize = 0;
    assert(sc.take(0) =~= Seq::<(int, int)>::empty());
    while k < cells.len()
        invariant
            k <= cells@.len(),
            sc == shape_cells(*shape_type),
            crate::shapes::int_pairs(cells@) == sc,
            cells@.len() == sc.len(),
            forall|j: int| 0 <= j < sc.len() ==> 0 <= #[trigger] sc[j].0 < 4 && 0 <= sc[j].1 < 4,
            n == board_size <= MAX_CONTOUR_BOARD,
            inside == (|p: (int, int)| 0 <= anchor.col + p.0 < n && 0 <= anchor.row + p.1 < n),
            to_coord == (|p: (int, int)|
                CellCoord { col: (anchor.col + p.0) as i16, row: (anchor.row + p.1) as i16 }),
            visible@ == sc.take(k as int).filter(inside).map_values(to_coord),
        decreases cells@.len() - k,
    {
        let (dx, dy) = cells[k];
        assert(sc[k as int] == (dx as int, dy as int));
        proof {
            assert(sc.take(k + 1) =~= sc.take(k as int).push(sc[k as int]));
            sc.take(k as int).lemma_filter_push(sc[k as int], inside);
        }
        let nx = anchor.col as i32 + dx as i32;
        let ny = anchor.row as i32 + dy as i32;
        if nx >= 0 && nx < n as i32 && ny >= 0 && ny < n as i32 {
            visible.push(CellCoord::new(nx as i16, ny as i16));
        }
        k = k + 1;
        assert(visible@ =~= sc.take(k as int).filter(inside).map_values(to_coord));
    }
    assert(sc.take(k as int) =~= sc);
    let ghost cs = visible@;
    assert(cs == on_board_cells(*shape_type, *anchor, n as int));
    let mut set: Vec<Edge> = Vec::new();
    let ghost mut toggled: Seq<Edge> = Seq::empty();
    let mut i: usize = 0;
    assert(cs.take(0) =~= Seq::<CellCoord>::empty());
    while i < visible.len()
        invariant
            cs == visible@,
            i <= cs.len(),
            n == board_size,
            0 < n <= MAX_CONTOUR_BOARD,
            forall|j: int|
                0 <= j < cs.len() ==> 0 <= #[trigger] cs[j].col < n && 0 <= cs[j].row < n,
            toggled == cs.take(i as int).flat_map(|c: CellCoord| cell_sides(c, n as int)),
            set@.no_duplicates(),
            forall|x: Edge| #[trigger] set@.contains(x) == (occurrences(toggled, x) % 2 == 1),
        decreases cs.len() - i,
    {
        let c = visible[i];
        proof {
            assert(c.row * (n + 1) + c.col + n + 2 <= 32767) by (nonlinear_arith)
                requires
                    0 <= c.col < n,
                    0 <= c.row < n,
                    n <= 180,
            ;
        }
        let sides = Edge::around_cell(&c, n);
        let ghost start = toggled;
        let mut m: usize = 0;
        while m < 4
            invariant
                m <= 4,
                0 <= c.col < n,
                0 <= c.row < n,
                toggled == start + cell_sides(c, n as int).take(m as int),
                forall|j: int|
                    0 <= j < 4 ==> {
                        let q = quad_corners(c.col as int, c.row as int, n as int);
                        (#[trigger] sides@[j].0 as int, sides@[j].1 as int) == canon(
                            q[j],
                            q[(j + 1) % 4],
                        )
                    },
                set@.no_duplicates(),
                forall|x: Edge| #[trigger] set@.contains(x) == (occurrences(toggled, x) % 2 == 1),
            decreases 4 - m,
        {
            let e = sides[m];
            proof {
                let q = quad_corners(c.col as int, c.row as int, n as int);
                let cp = canon(q[m as int], q[(m + 1) % 4]);
                assert(0 <= c.row * (n + 1)) by (nonlinear_arith)
                    requires
                        0 <= c.row,
                        0 <= n,
                ;
                assert(0 <= q[m as int] && 0 <= q[(m + 1) % 4]);
                assert(sides@[m as int] == e);
                assert((sides@[m as int].0 as int, sides@[m as int].1 as int) == canon(
                    q[m as int],
                    q[(m + 1) % 4],
                ));
                assert(e.0 as int == cp.0 && e.1 as int == cp.1);
                assert(cell_sides(c, n as int)[m as int] == Edge(cp.0 as u32, cp.1 as u32));
                assert(cell_sides(c, n as int)[m as int] == e);
                assert(cell_sides(c, n as int).take(m + 1) =~= cell_sides(c, n as int).take(
                    m as int,
                ).push(e));
            }
            toggle_edge(&mut set, e);
            proof {
                assert forall|x: Edge| #[trigger] set@.contains(x) == (occurrences(toggled.push(e), x) % 2
                    == 1) by {
                    lemma_occurrences_push(toggled, e, x);
                }
                toggled = toggled.push(e);
            }
            m = m + 1;
        }
        proof {
            let f = |c: CellCoord| cell_sides(c, n as int);
            cs.take(i as int).lemma_flat_map_push(f, c);
            assert(cs.take(i + 1) =~= cs.take(i as int).push(c));
            assert(cell_sides(c, n as int).take(4) =~= cell_sides(c, n as int));
        }
        i = i + 1;
    }
    proof {
        assert(cs.take(i as int) =~= cs);
        assert(set@.to_set() =~= odd_edges(contour_sides(*shape_type, *anchor, n as int)));
    }
    if set.len() == 0 {
        Vec::new()
    } else {
        order_edges_for_linestrip(set)
    }
}

} // verus!
