//! The catalogue of polyomino shapes and their mirror / rotation transforms.
use vstd::prelude::*;

verus! {

/// Canonical polyomino kinds, before any mirror or rotation.
#[derive(Clone, Copy, PartialEq, Eq, Debug, Structural)]
pub enum BaseShapeType {
    T1,
    L1,
    I1,
    O,
    OO,
}

/// Clockwise rotation applied after the optional mirror.
#[derive(Clone, Copy, PartialEq, Eq, Debug, Structural)]
pub enum ShapeRot {
    No,
    Cw90,
    Cw180,
    Cw270,
}

/// Bounding box of a shape in cells.
#[derive(Clone, Copy, PartialEq, Eq, Debug, Structural)]
pub struct Dimension {
    pub horizontal: i16,
    pub vertical: i16,
}

/// A base shape together with its symmetry transform.
#[derive(Clone, Copy, PartialEq, Eq, Debug, Structural)]
pub struct ShapeType {
    pub base_shape_type: BaseShapeType,
    pub mirror: bool,
    pub rotation: ShapeRot,
}

/// Width and height of the canonical bounding box.
pub open spec fn base_dims(b: BaseShapeType) -> (int, int) {
    match b {
        BaseShapeType::T1 => (3, 2),
        BaseShapeType::L1 => (2, 3),
        BaseShapeType::I1 => (1, 4),
        BaseShapeType::O => (1, 1),
        BaseShapeType::OO => (2, 2),
    }
}

/// Canonical cell offsets, as (col, row) pairs.
pub open spec fn base_cells(b: BaseShapeType) -> Seq<(int, int)> {
    match b {
        BaseShapeType::T1 => seq![(1, 0), (0, 1), (1, 1), (2, 1)],
        BaseShapeType::L1 => seq![(0, 0), (0, 1), (0, 2), (1, 2)],
        BaseShapeType::I1 => seq![(0, 0), (0, 1), (0, 2), (0, 3)],
        BaseShapeType::O => seq![(0, 0)],
        BaseShapeType::OO => seq![(0, 0), (0, 1), (1, 0), (1, 1)],
    }
}

/// Mirror (within the bounding width, only when it is wider than one cell),
/// then rotate clockwise within the bounding box.
pub open spec fn transform_cell(t: ShapeType, c: (int, int)) -> (int, int) {
    let (w, h) = base_dims(t.base_shape_type);
    let x = if t.mirror && w > 1 { w - 1 - c.0 } else { c.0 };
    let y = c.1;
    match t.rotation {
        ShapeRot::No => (x, y),
        ShapeRot::Cw90 => (y, w - 1 - x),
        ShapeRot::Cw180 => (w - 1 - x, h - 1 - y),
        ShapeRot::Cw270 => (h - 1 - y, x),
    }
}

/// The transformed offsets of a shape, in the order of the canonical ones.
pub open spec fn shape_cells(t: ShapeType) -> Seq<(int, int)> {
    base_cells(t.base_shape_type).map_values(|c: (int, int)| transform_cell(t, c))
}

/// Bounding box (horizontal, vertical) after the transform.
pub open spec fn extent(t: ShapeType) -> (int, int) {
    let (w, h) = base_dims(t.base_shape_type);
    match t.rotation {
        ShapeRot::No | ShapeRot::Cw180 => (w, h),
        ShapeRot::Cw90 | ShapeRot::Cw270 => (h, w),
    }
}

/// Offsets held as machine pairs, read as integers.
pub open spec fn int_pairs(v: Seq<(usize, usize)>) -> Seq<(int, int)> {
    v.map_values(|p: (usize, usize)| (p.0 as int, p.1 as int))
}

proof fn lemma_base_cells_in_box(b: BaseShapeType)
    ensures
        forall|i: int|
            0 <= i < base_cells(b).len() ==> 0 <= #[trigger] base_cells(b)[i].0 < base_dims(b).0
                && 0 <= base_cells(b)[i].1 < base_dims(b).1,
{
}

/// Every transform keeps the number of cells of the base shape, puts each
/// offset inside the transformed bounding box, and never sends two cells to
/// the same offset.
pub proof fn lemma_transform_closed(t: ShapeType)
    ensures
        shape_cells(t).len() == base_cells(t.base_shape_type).len(),
        forall|i: int|
            0 <= i < shape_cells(t).len() ==> 0 <= #[trigger] shape_cells(t)[i].0 < extent(t).0
                && 0 <= shape_cells(t)[i].1 < extent(t).1,
        shape_cells(t).no_duplicates(),
{
    lemma_base_cells_in_box(t.base_shape_type);
}

/// Every transformed shape touches the left and the top edge of its box.
pub proof fn lemma_touches_origin_edges(t: ShapeType)
    ensures
        exists|i: int| 0 <= i < shape_cells(t).len() && #[trigger] shape_cells(t)[i].0 == 0,
        exists|i: int| 0 <= i < shape_cells(t).len() && #[trigger] shape_cells(t)[i].1 == 0,
{
    let sc = shape_cells(t);
    if t.base_shape_type == BaseShapeType::O {
        assert(sc[0].0 == 0 && sc[0].1 == 0);
    } else {
        assert(sc[0].0 == 0 || sc[1].0 == 0 || sc[2].0 == 0 || sc[3].0 == 0);
        assert(sc[0].1 == 0 || sc[1].1 == 0 || sc[2].1 == 0 || sc[3].1 == 0);
    }
}

impl Dimension {
    pub fn new(horizontal: i16, vertical: i16) -> (r: Dimension)
        ensures
            r.horizontal == horizontal,
            r.vertical == vertical,
    {
        Dimension { horizontal, vertical }
    }
}

impl BaseShapeType {
    pub fn dimensions(&self) -> (r: Dimension)
        ensures
            r.horizontal == base_dims(*self).0,
            r.vertical == base_dims(*self).1,
    {
        match self {
            BaseShapeType::T1 => Dimension::new(3, 2),
            BaseShapeType::L1 => Dimension::new(2, 3),
            BaseShapeType::I1 => Dimension::new(1, 4),
            BaseShapeType::O => Dimension::new(1, 1),
            BaseShapeType::OO => Dimension::new(2, 2),
        }
    }

    pub fn cells(&self) -> (r: Vec<(usize, usize)>)
        ensures
            int_pairs(r@) == base_cells(*self),
    {
        let r: Vec<(usize, usize)> = match self {
            BaseShapeType::T1 => vec![(1, 0), (0, 1), (1, 1), (2, 1)],
            BaseShapeType::L1 => vec![(0, 0), (0, 1), (0, 2), (1, 2)],
            BaseShapeType::I1 => vec![(0, 0), (0, 1), (0, 2), (0, 3)],
            BaseShapeType::O => vec![(0, 0)],
            BaseShapeType::OO => vec![(0, 0), (0, 1), (1, 0), (1, 1)],
        };
        assert(int_pairs(r@) =~= base_cells(*self));
        r
    }
}

/// The base shape numbered `i` in declaration order.
pub open spec fn base_of_index(i: int) -> BaseShapeType {
    if i == 0 {
        BaseShapeType::T1
    } else if i == 1 {
        BaseShapeType::L1
    } else if i == 2 {
        BaseShapeType::I1
    } else if i == 3 {
        BaseShapeType::O
    } else {
        BaseShapeType::OO
    }
}

/// The rotation numbered `i` in declaration order.
pub open spec fn rot_of_index(i: int) -> ShapeRot {
    if i == 0 {
        ShapeRot::No
    } else if i == 1 {
        ShapeRot::Cw90
    } else if i == 2 {
        ShapeRot::Cw180
    } else {
        ShapeRot::Cw270
    }
}

/// Number of base shapes.
pub const BASE_SHAPE_COUNT: usize = 5;

/// Number of rotations.
pub const ROTATION_COUNT: usize = 4;

impl ShapeType {
    /// The shape type picked by the given base index, mirror flag and
    /// rotation index.
    pub fn from_choice(base_ix: usize, mirror: bool, rot_ix: usize) -> (r: ShapeType)
        requires
            base_ix < BASE_SHAPE_COUNT,
            rot_ix < ROTATION_COUNT,
        ensures
            r == (ShapeType {
                base_shape_type: base_of_index(base_ix as int),
                mirror,
                rotation: rot_of_index(rot_ix as int),
            }),
    {
        let base_shape_type = if base_ix == 0 {
            BaseShapeType::T1
        } else if base_ix == 1 {
            BaseShapeType::L1
        } else if base_ix == 2 {
            BaseShapeType::I1
        } else if base_ix == 3 {
            BaseShapeType::O
        } else {
            BaseShapeType::OO
        };
        let rotation = if rot_ix == 0 {
            ShapeRot::No
        } else if rot_ix == 1 {
            ShapeRot::Cw90
        } else if rot_ix == 2 {
            ShapeRot::Cw180
        } else {
            ShapeRot::Cw270
        };
        ShapeType { base_shape_type, mirror, rotation }
    }

    pub fn new(base_shape_type: BaseShapeType, mirror: bool, rotation: ShapeRot) -> (r: ShapeType)
        ensures
            r == (ShapeType { base_shape_type, mirror, rotation }),
    {
        ShapeType { base_shape_type, mirror, rotation }
    }

    /// Width of the transformed bounding box.
    pub fn horizontal_cell_size(&self) -> (r: i16)
        ensures
            r == extent(*self).0,
    {
        let n = self.base_shape_type.dimensions();
        match self.rotation {
            ShapeRot::No => n.horizontal,
            ShapeRot::Cw90 => n.vertical,
            ShapeRot::Cw180 => n.horizontal,
            ShapeRot::Cw270 => n.vertical,
        }
    }

    /// Height of the transformed bounding box.
    pub fn vertical_cell_size(&self) -> (r: i16)
        ensures
            r == extent(*self).1,
    {
        let n = self.base_shape_type.dimensions();
        match self.rotation {
            ShapeRot::No => n.vertical,
            ShapeRot::Cw90 => n.horizontal,
            ShapeRot::Cw180 => n.vertical,
            ShapeRot::Cw270 => n.horizontal,
        }
    }

    /// The offsets of the shape after mirror and rotation.
    pub fn cells(&self) -> (r: Vec<(usize, usize)>)
        ensures
            int_pairs(r@) == shape_cells(*self),
    {
        let canonical = self.base_shape_type.cells();
        let dimensions = self.base_shape_type.dimensions();
        let w = dimensions.horizontal as usize;
        let h = dimensions.vertical as usize;
        proof {
            lemma_base_cells_in_box(self.base_shape_type);
        }
        let mut transformed: Vec<(usize, usize)> = Vec::new();
        let mut i: usize = 0;
        while i < canonical.len()
            invariant
                i <= canonical@.len(),
                int_pairs(canonical@) == base_cells(self.base_shape_type),
                w == base_dims(self.base_shape_type).0,
                h == base_dims(self.base_shape_type).1,
                forall|j: int|
                    0 <= j < base_cells(self.base_shape_type).len() ==> 0
                        <= #[trigger] base_cells(self.base_shape_type)[j].0 < base_dims(
                        self.base_shape_type,
                    ).0 && 0 <= base_cells(self.base_shape_type)[j].1 < base_dims(
                        self.base_shape_type,
                    ).1,
                transformed@.len() == i,
                shape_cells(*self).len() == canonical@.len(),
                int_pairs(transformed@) == shape_cells(*self).take(i as int),
            decreases canonical@.len() - i,
        {
            let (x0, y) = canonical[i];
            assert(base_cells(self.base_shape_type)[i as int] == (x0 as int, y as int));
            let x = if self.mirror && w > 1 {
                w - 1 - x0
            } else {
                x0
            };
            let cell = match self.rotation {
                ShapeRot::No => (x, y),
                ShapeRot::Cw90 => (y, w - 1 - x),
                ShapeRot::Cw180 => (w - 1 - x, h - 1 - y),
                ShapeRot::Cw270 => (h - 1 - y, x),
            };
            assert((cell.0 as int, cell.1 as int) == transform_cell(
                *self,
                base_cells(self.base_shape_type)[i as int],
            ));
            let ghost before = transformed@;
            transformed.push(cell);
            assert forall|j: int| 0 <= j < i + 1 implies int_pairs(transformed@)[j] == shape_cells(
                *self,
            )[j] by {
                if j < i {
                    assert(transformed@[j] == before[j]);
                    assert(int_pairs(before)[j] == shape_cells(*self).take(i as int)[j]);
                }
            }
            i = i + 1;
            assert(int_pairs(transformed@) =~= shape_cells(*self).take(i as int));
        }
        assert(shape_cells(*self).take(i as int) =~= shape_cells(*self));
        transformed
    }
}

} // verus!
