use blockfit::shapes::{BaseShapeType, Dimension, ShapeRot, ShapeType};
use std::collections::HashSet;

const BASES: [BaseShapeType; 5] = [
    BaseShapeType::T1,
    BaseShapeType::L1,
    BaseShapeType::I1,
    BaseShapeType::O,
    BaseShapeType::OO,
];
const ROTATIONS: [ShapeRot; 4] = [ShapeRot::No, ShapeRot::Cw90, ShapeRot::Cw180, ShapeRot::Cw270];

#[test]
fn every_transform_keeps_count_and_stays_in_its_box() {
    for base in BASES {
        for mirror in [false, true] {
            for rotation in ROTATIONS {
                let t = ShapeType::new(base, mirror, rotation);
                let cells = t.cells();
                assert_eq!(cells.len(), base.cells().len());
                let w = t.horizontal_cell_size() as usize;
                let h = t.vertical_cell_size() as usize;
                for (x, y) in &cells {
                    assert!(*x < w && *y < h, "{:?} leaves its box", t);
                }
                let distinct: HashSet<(usize, usize)> = cells.iter().cloned().collect();
                assert_eq!(distinct.len(), cells.len());
            }
        }
    }
}

#[test]
fn dimensions_of_the_catalogue() {
    assert_eq!(BaseShapeType::T1.dimensions(), Dimension::new(3, 2));
    assert_eq!(BaseShapeType::L1.dimensions(), Dimension::new(2, 3));
    assert_eq!(BaseShapeType::I1.dimensions(), Dimension::new(1, 4));
    assert_eq!(BaseShapeType::O.dimensions(), Dimension::new(1, 1));
    assert_eq!(BaseShapeType::OO.dimensions(), Dimension::new(2, 2));
}

#[test]
fn rotation_formulas_on_the_l_shape() {
    let l = |mirror, rotation| ShapeType::new(BaseShapeType::L1, mirror, rotation).cells();
    assert_eq!(l(false, ShapeRot::No), vec![(0, 0), (0, 1), (0, 2), (1, 2)]);
    assert_eq!(l(false, ShapeRot::Cw90), vec![(0, 1), (1, 1), (2, 1), (2, 0)]);
    assert_eq!(l(false, ShapeRot::Cw180), vec![(1, 2), (1, 1), (1, 0), (0, 0)]);
    assert_eq!(l(false, ShapeRot::Cw270), vec![(2, 0), (1, 0), (0, 0), (0, 1)]);
    assert_eq!(l(true, ShapeRot::No), vec![(1, 0), (1, 1), (1, 2), (0, 2)]);
    assert_eq!(l(true, ShapeRot::Cw90), vec![(0, 0), (1, 0), (2, 0), (2, 1)]);
}

#[test]
fn mirror_is_skipped_for_one_cell_wide_shapes() {
    let plain = ShapeType::new(BaseShapeType::I1, false, ShapeRot::No).cells();
    let mirrored = ShapeType::new(BaseShapeType::I1, true, ShapeRot::No).cells();
    assert_eq!(plain, mirrored);
}

#[test]
fn rotated_extent_swaps_width_and_height() {
    let t = ShapeType::new(BaseShapeType::T1, false, ShapeRot::Cw90);
    assert_eq!(t.horizontal_cell_size(), 2);
    assert_eq!(t.vertical_cell_size(), 3);
    let t = ShapeType::new(BaseShapeType::T1, true, ShapeRot::Cw180);
    assert_eq!(t.horizontal_cell_size(), 3);
}

#[test]
fn choice_indices_name_each_kind() {
    assert_eq!(
        ShapeType::from_choice(4, true, 3),
        ShapeType::new(BaseShapeType::OO, true, ShapeRot::Cw270)
    );
    assert_eq!(
        ShapeType::from_choice(0, false, 0),
        ShapeType::new(BaseShapeType::T1, false, ShapeRot::No)
    );
}
