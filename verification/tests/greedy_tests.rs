use converter::cuboid::Box;
use converter::greedy::{bounding_range, greedy, GreedyDirection};
use converter::voxel::Voxel;
use std::collections::BTreeMap;

type Pos = (usize, usize, usize);

const XYZ: [GreedyDirection; 3] = [GreedyDirection::X, GreedyDirection::Y, GreedyDirection::Z];
const XZY: [GreedyDirection; 3] = [GreedyDirection::X, GreedyDirection::Z, GreedyDirection::Y];
const YXZ: [GreedyDirection; 3] = [GreedyDirection::Y, GreedyDirection::X, GreedyDirection::Z];
const YZX: [GreedyDirection; 3] = [GreedyDirection::Y, GreedyDirection::Z, GreedyDirection::X];
const ZXY: [GreedyDirection; 3] = [GreedyDirection::Z, GreedyDirection::X, GreedyDirection::Y];
const ZYX: [GreedyDirection; 3] = [GreedyDirection::Z, GreedyDirection::Y, GreedyDirection::X];
const ORDERS: [[GreedyDirection; 3]; 6] = [XYZ, XZY, YXZ, YZX, ZXY, ZYX];

fn store(cells: &[(Pos, &str, &str)]) -> BTreeMap<Pos, Voxel> {
    let mut voxels = BTreeMap::new();
    for (pos, id, properties) in cells {
        voxels.insert(*pos, Voxel::new(id.to_string(), properties.to_string()));
    }
    voxels
}

fn stone(cells: &[Pos]) -> BTreeMap<Pos, Voxel> {
    let mut voxels = BTreeMap::new();
    for pos in cells {
        voxels.insert(*pos, Voxel::new("stone".to_string(), String::new()));
    }
    voxels
}

fn extents(boxes: &[Box]) -> Vec<(Pos, Pos)> {
    boxes.iter().map(|b| (b.min, b.max)).collect()
}

fn cells_of(boxes: &[Box]) -> Vec<Pos> {
    let mut cells = Vec::new();
    for b in boxes {
        cells.extend(b.all_positions());
    }
    cells.sort();
    cells
}

fn covers_exactly(boxes: &[Box], voxels: &BTreeMap<Pos, Voxel>) -> bool {
    let wanted: Vec<Pos> = voxels.keys().copied().collect();
    cells_of(boxes) == wanted
}

#[test]
fn single_voxel_gives_one_unit_box() {
    let voxels = stone(&[(0, 0, 0)]);
    for order in ORDERS.iter() {
        let boxes = greedy(&voxels, order);
        assert_eq!(boxes.len(), 1);
        assert_eq!(boxes[0].min, (0, 0, 0));
        assert_eq!(boxes[0].max, (0, 0, 0));
        assert_eq!(boxes[0].id, "stone");
        assert_eq!(boxes[0].properties, "");
    }
}

#[test]
fn run_of_two_along_x_gives_one_box() {
    let voxels = stone(&[(0, 0, 0), (1, 0, 0)]);
    let boxes = greedy(&voxels, &XYZ);
    assert_eq!(extents(&boxes), vec![((0, 0, 0), (1, 0, 0))]);
}

#[test]
fn l_shape_needs_two_boxes() {
    let voxels = stone(&[(0, 0, 0), (1, 0, 0), (0, 1, 0)]);
    for order in ORDERS.iter() {
        let boxes = greedy(&voxels, order);
        assert!(boxes.len() >= 2);
        assert!(covers_exactly(&boxes, &voxels));
    }
    let boxes = greedy(&voxels, &XYZ);
    assert_eq!(extents(&boxes), vec![((0, 0, 0), (1, 0, 0)), ((0, 1, 0), (0, 1, 0))]);
    let boxes = greedy(&voxels, &YXZ);
    assert_eq!(extents(&boxes), vec![((0, 0, 0), (0, 1, 0)), ((1, 0, 0), (1, 0, 0))]);
}

#[test]
fn different_identities_are_never_merged() {
    let voxels = store(&[((0, 0, 0), "stone", ""), ((1, 0, 0), "dirt", "")]);
    for order in ORDERS.iter() {
        let boxes = greedy(&voxels, order);
        assert_eq!(boxes.len(), 2);
        assert_eq!(boxes[0].min, (0, 0, 0));
        assert_eq!(boxes[0].max, (0, 0, 0));
        assert_eq!(boxes[0].id, "stone");
        assert_eq!(boxes[1].min, (1, 0, 0));
        assert_eq!(boxes[1].max, (1, 0, 0));
        assert_eq!(boxes[1].id, "dirt");
    }
}

#[test]
fn properties_do_not_stop_growth() {
    let voxels = store(&[
        ((0, 0, 0), "stairs", "[facing=north]"),
        ((1, 0, 0), "stairs", "[facing=south]"),
    ]);
    let boxes = greedy(&voxels, &XYZ);
    assert_eq!(extents(&boxes), vec![((0, 0, 0), (1, 0, 0))]);
    assert_eq!(boxes[0].id, "stairs");
    assert_eq!(boxes[0].properties, "[facing=north]");
}

#[test]
fn empty_store_gives_no_boxes() {
    let voxels: BTreeMap<Pos, Voxel> = BTreeMap::new();
    assert!(greedy(&voxels, &XYZ).is_empty());
    assert_eq!(bounding_range(&voxels), None);
}

#[test]
fn no_directions_gives_unit_boxes() {
    let voxels = stone(&[(0, 0, 0), (1, 0, 0)]);
    let boxes = greedy(&voxels, &[]);
    assert_eq!(extents(&boxes), vec![((0, 0, 0), (0, 0, 0)), ((1, 0, 0), (1, 0, 0))]);
}

#[test]
fn full_cube_gives_one_box_under_every_order() {
    let mut cells = Vec::new();
    for x in 2..5 {
        for y in 1..4 {
            for z in 7..9 {
                cells.push((x, y, z));
            }
        }
    }
    let voxels = stone(&cells);
    for order in ORDERS.iter() {
        let boxes = greedy(&voxels, order);
        assert_eq!(extents(&boxes), vec![((2, 1, 7), (4, 3, 8))]);
    }
}

#[test]
fn axis_order_decides_the_boxes() {
    // a 2 x 2 square in the plane z = 0 with one more cell at (2, 0, 0)
    let voxels = stone(&[(0, 0, 0), (1, 0, 0), (2, 0, 0), (0, 1, 0), (1, 1, 0)]);
    let boxes = greedy(&voxels, &XYZ);
    assert_eq!(extents(&boxes), vec![((0, 0, 0), (2, 0, 0)), ((0, 1, 0), (1, 1, 0))]);
    let boxes = greedy(&voxels, &YXZ);
    assert_eq!(extents(&boxes), vec![((0, 0, 0), (1, 1, 0)), ((2, 0, 0), (2, 0, 0))]);
}

#[test]
fn seeds_come_in_lexicographic_order() {
    let voxels = stone(&[(3, 0, 0), (0, 5, 1), (0, 5, 3), (0, 0, 9), (1, 0, 0)]);
    let boxes = greedy(&voxels, &XYZ);
    let seeds: Vec<Pos> = boxes.iter().map(|b| b.min).collect();
    assert_eq!(seeds, vec![(0, 0, 9), (0, 5, 1), (0, 5, 3), (1, 0, 0), (3, 0, 0)]);
}

#[test]
fn a_box_never_grows_into_an_earlier_box() {
    // The box seeded at (0, 1, 0) takes (0..=1, 1, 0..=1). The box seeded at
    // (1, 0, 1) then grows along x to (2, 0, 1); along y its new corner
    // (2, 1, 1) is free, but the layer would hold the taken cell (1, 1, 1).
    let voxels = stone(&[
        (0, 1, 0),
        (1, 1, 0),
        (0, 1, 1),
        (1, 1, 1),
        (2, 1, 1),
        (1, 0, 1),
        (2, 0, 1),
    ]);
    let boxes = greedy(&voxels, &XYZ);
    assert_eq!(
        extents(&boxes),
        vec![((0, 1, 0), (1, 1, 1)), ((1, 0, 1), (2, 0, 1)), ((2, 1, 1), (2, 1, 1))]
    );
    assert!(covers_exactly(&boxes, &voxels));
}

#[test]
fn boxes_cover_the_store_without_overlap() {
    let mut cells = Vec::new();
    for x in 0..6usize {
        for y in 0..5usize {
            for z in 0..4usize {
                if (x * 7 + y * 3 + z * 5) % 4 != 0 {
                    cells.push((x, y, z));
                }
            }
        }
    }
    let voxels = stone(&cells);
    for order in ORDERS.iter() {
        let boxes = greedy(&voxels, order);
        assert!(covers_exactly(&boxes, &voxels));
        for i in 0..boxes.len() {
            for j in (i + 1)..boxes.len() {
                assert!(!boxes[i].overlaps(&boxes[j]));
            }
        }
    }
}

#[test]
fn every_cell_of_a_box_has_the_identity_of_the_box() {
    let voxels = store(&[
        ((0, 0, 0), "stone", ""),
        ((1, 0, 0), "stone", "[a=b]"),
        ((2, 0, 0), "dirt", ""),
        ((0, 1, 0), "dirt", ""),
        ((1, 1, 0), "stone", ""),
        ((2, 1, 0), "dirt", "[c=d]"),
    ]);
    for order in ORDERS.iter() {
        let boxes = greedy(&voxels, order);
        assert!(covers_exactly(&boxes, &voxels));
        for b in boxes.iter() {
            for cell in b.all_positions() {
                assert_eq!(voxels[&cell].id, b.id);
            }
        }
    }
}

#[test]
fn greedy_gives_the_same_boxes_twice() {
    let voxels = stone(&[(0, 0, 0), (1, 0, 0), (0, 1, 0), (4, 4, 4), (4, 5, 4), (1, 1, 1)]);
    for order in ORDERS.iter() {
        let first = greedy(&voxels, order);
        let second = greedy(&voxels, order);
        assert_eq!(extents(&first), extents(&second));
        for (a, b) in first.iter().zip(second.iter()) {
            assert_eq!(a.id, b.id);
            assert_eq!(a.properties, b.properties);
        }
    }
}

#[test]
fn bounding_range_is_tight() {
    let voxels = stone(&[(3, 9, 2), (5, 1, 7), (4, 4, 0)]);
    assert_eq!(bounding_range(&voxels), Some(((3, 1, 0), (5, 9, 7))));
}

#[test]
fn growth_at_the_largest_coordinate() {
    let top = usize::MAX;
    let voxels = stone(&[(top - 1, top, top), (top, top, top)]);
    let boxes = greedy(&voxels, &XYZ);
    assert_eq!(extents(&boxes), vec![((top - 1, top, top), (top, top, top))]);
}
