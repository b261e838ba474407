use converter::cuboid::Box;
use converter::voxel::Voxel;

fn cuboid(min: (usize, usize, usize), max: (usize, usize, usize)) -> Box {
    Box { min, max, id: "stone".to_string(), properties: String::new() }
}

#[test]
fn contains_is_inclusive_at_both_corners() {
    let b = cuboid((1, 2, 3), (4, 5, 6));
    assert!(b.contains((1, 2, 3)));
    assert!(b.contains((4, 5, 6)));
    assert!(b.contains((2, 5, 4)));
    assert!(!b.contains((0, 2, 3)));
    assert!(!b.contains((5, 5, 6)));
    assert!(!b.contains((1, 1, 3)));
    assert!(!b.contains((1, 6, 3)));
    assert!(!b.contains((1, 2, 2)));
    assert!(!b.contains((1, 2, 7)));
}

#[test]
fn all_positions_walks_x_then_y_then_z() {
    let b = cuboid((1, 2, 3), (2, 3, 4));
    assert_eq!(
        b.all_positions(),
        vec![
            (1, 2, 3),
            (1, 2, 4),
            (1, 3, 3),
            (1, 3, 4),
            (2, 2, 3),
            (2, 2, 4),
            (2, 3, 3),
            (2, 3, 4),
        ]
    );
}

#[test]
fn all_positions_counts_the_volume() {
    let b = cuboid((0, 10, 20), (2, 13, 24));
    assert_eq!(b.all_positions().len(), 3 * 4 * 5);
}

#[test]
fn all_positions_of_a_unit_box() {
    let b = cuboid((7, 8, 9), (7, 8, 9));
    assert_eq!(b.all_positions(), vec![(7, 8, 9)]);
}

#[test]
fn all_positions_of_an_inverted_box_is_empty() {
    assert!(cuboid((2, 0, 0), (1, 5, 5)).all_positions().is_empty());
    assert!(cuboid((0, 2, 0), (5, 1, 5)).all_positions().is_empty());
    assert!(cuboid((0, 0, 2), (5, 5, 1)).all_positions().is_empty());
}

#[test]
fn all_positions_at_the_largest_coordinate() {
    let top = usize::MAX;
    let b = cuboid((top, top - 1, top), (top, top, top));
    assert_eq!(b.all_positions(), vec![(top, top - 1, top), (top, top, top)]);
}

#[test]
fn overlaps_needs_a_shared_cell() {
    let a = cuboid((0, 0, 0), (2, 2, 2));
    assert!(a.overlaps(&cuboid((2, 2, 2), (3, 3, 3))));
    assert!(a.overlaps(&cuboid((1, 1, 1), (1, 1, 1))));
    assert!(!a.overlaps(&cuboid((3, 0, 0), (4, 2, 2))));
    assert!(!a.overlaps(&cuboid((0, 3, 0), (2, 4, 2))));
    assert!(!a.overlaps(&cuboid((0, 0, 3), (2, 2, 4))));
}

#[test]
fn clone_keeps_corners_and_label() {
    let b = Box {
        min: (1, 2, 3),
        max: (4, 5, 6),
        id: "oak_log".to_string(),
        properties: "[axis=y]".to_string(),
    };
    let c = b.clone();
    assert_eq!(c.min, (1, 2, 3));
    assert_eq!(c.max, (4, 5, 6));
    assert_eq!(c.id, "oak_log");
    assert_eq!(c.properties, "[axis=y]");
}

#[test]
fn voxels_are_equal_by_identity_alone() {
    let a = Voxel::new("stairs".to_string(), "[facing=north]".to_string());
    let b = Voxel::new("stairs".to_string(), "[facing=south]".to_string());
    let c = Voxel::new("slab".to_string(), "[facing=north]".to_string());
    assert!(a == b);
    assert!(a != c);
    let d = a.clone();
    assert_eq!(d.id, "stairs");
    assert_eq!(d.properties, "[facing=north]");
}
