use converter::cuboid::Box;
use converter::greedy::{greedy, GreedyDirection};
use converter::optimizer::{best_greedy, group_by_label, mesh_component, select_fewest, split_group};
use converter::voxel::Voxel;
use std::collections::BTreeMap;

type Pos = (usize, usize, usize);

fn store(cells: &[(Pos, &str, &str)]) -> BTreeMap<Pos, Voxel> {
    let mut voxels = BTreeMap::new();
    for (pos, id, properties) in cells {
        voxels.insert(*pos, Voxel::new(id.to_string(), properties.to_string()));
    }
    voxels
}

fn stone(cells: &[Pos]) -> BTreeMap<Pos, Voxel> {
    let mut voxels = BTreeMap::new();
    for pos in cells {
        voxels.insert(*pos, Voxel::new("stone".to_string(), String::new()));
    }
    voxels
}

fn extents(boxes: &[Box]) -> Vec<(Pos, Pos)> {
    boxes.iter().map(|b| (b.min, b.max)).collect()
}

fn unit_boxes(count: usize, tag: usize) -> Vec<Box> {
    let mut boxes = Vec::new();
    for i in 0..count {
        boxes.push(Box {
            min: (tag, i, 0),
            max: (tag, i, 0),
            id: "stone".to_string(),
            properties: String::new(),
        });
    }
    boxes
}

fn candidates(counts: &[usize]) -> Vec<Vec<Box>> {
    counts.iter().enumerate().map(|(tag, count)| unit_boxes(*count, tag)).collect()
}

#[test]
fn the_fewest_boxes_are_selected() {
    let best = select_fewest(candidates(&[5, 5, 3, 5, 5, 5])).unwrap();
    assert_eq!(best.len(), 3);
    assert_eq!(best[0].min.0, 2);
}

#[test]
fn of_equal_counts_the_first_is_selected() {
    let best = select_fewest(candidates(&[3, 3, 3, 3, 3, 3])).unwrap();
    assert_eq!(best.len(), 3);
    assert_eq!(best[0].min.0, 0);
    let best = select_fewest(candidates(&[4, 3, 5, 3, 3, 9])).unwrap();
    assert_eq!(best.len(), 3);
    assert_eq!(best[0].min.0, 1);
    let best = select_fewest(candidates(&[7, 6, 5, 4, 3, 2])).unwrap();
    assert_eq!(best.len(), 2);
    assert_eq!(best[0].min.0, 5);
}

#[test]
fn nothing_is_selected_from_nothing() {
    assert!(select_fewest(Vec::new()).is_none());
    let best = select_fewest(vec![Vec::new()]).unwrap();
    assert!(best.is_empty());
}

#[test]
fn single_voxel_store() {
    let boxes = best_greedy(&stone(&[(0, 0, 0)]));
    assert_eq!(boxes.len(), 1);
    assert_eq!(boxes[0].min, (0, 0, 0));
    assert_eq!(boxes[0].max, (0, 0, 0));
    assert_eq!(boxes[0].id, "stone");
    assert_eq!(boxes[0].properties, "");
}

#[test]
fn empty_store() {
    assert!(best_greedy(&BTreeMap::new()).is_empty());
}

#[test]
fn the_order_with_the_fewest_boxes_wins() {
    // x, y, z and x, z, y need three boxes; y, x, z is the first that needs two
    let voxels = stone(&[(0, 0, 0), (0, 1, 0), (1, 0, 0), (1, 0, 1)]);
    let xyz = [GreedyDirection::X, GreedyDirection::Y, GreedyDirection::Z];
    assert_eq!(greedy(&voxels, &xyz).len(), 3);
    let expected = vec![((0, 0, 0), (0, 1, 0)), ((1, 0, 0), (1, 0, 1))];
    assert_eq!(extents(&mesh_component(&voxels)), expected);
    assert_eq!(extents(&best_greedy(&voxels)), expected);
}

#[test]
fn a_later_order_with_fewer_boxes_wins() {
    // the first three orders need three boxes; y, z, x is the first that needs two
    let voxels = stone(&[(0, 0, 0), (0, 0, 1), (1, 0, 0), (1, 1, 0)]);
    let yxz = [GreedyDirection::Y, GreedyDirection::X, GreedyDirection::Z];
    assert_eq!(greedy(&voxels, &yxz).len(), 3);
    let expected = vec![((0, 0, 0), (0, 0, 1)), ((1, 0, 0), (1, 1, 0))];
    assert_eq!(extents(&mesh_component(&voxels)), expected);
}

#[test]
fn separated_clusters_are_meshed_on_their_own() {
    let voxels = stone(&[(0, 0, 0), (1, 0, 0), (3, 0, 0), (4, 0, 0)]);
    let boxes = best_greedy(&voxels);
    assert_eq!(extents(&boxes), vec![((0, 0, 0), (1, 0, 0)), ((3, 0, 0), (4, 0, 0))]);
}

#[test]
fn different_identities_are_never_in_one_box() {
    let voxels = store(&[((0, 0, 0), "stone", ""), ((1, 0, 0), "dirt", "")]);
    let boxes = best_greedy(&voxels);
    assert_eq!(extents(&boxes), vec![((0, 0, 0), (0, 0, 0)), ((1, 0, 0), (1, 0, 0))]);
    assert_eq!(boxes[0].id, "stone");
    assert_eq!(boxes[1].id, "dirt");
}

#[test]
fn different_properties_are_never_in_one_box() {
    let voxels = store(&[
        ((0, 0, 0), "stairs", "[facing=north]"),
        ((1, 0, 0), "stairs", "[facing=south]"),
        ((2, 0, 0), "stairs", "[facing=north]"),
    ]);
    let boxes = best_greedy(&voxels);
    assert_eq!(boxes.len(), 3);
    for b in boxes.iter() {
        assert_eq!(b.min, b.max);
        assert_eq!(voxels[&b.min].id, b.id);
        assert_eq!(voxels[&b.min].properties, b.properties);
    }
    let mut seeds: Vec<Pos> = boxes.iter().map(|b| b.min).collect();
    seeds.sort();
    assert_eq!(seeds, vec![(0, 0, 0), (1, 0, 0), (2, 0, 0)]);
}

#[test]
fn the_store_is_covered_without_overlap() {
    let mut cells = Vec::new();
    for x in 0..5usize {
        for y in 0..4usize {
            for z in 0..4usize {
                let id = if (x + y) % 3 == 0 { "dirt" } else { "stone" };
                let properties = if z == 2 { "[snowy=true]" } else { "" };
                if (x * 5 + y * 3 + z) % 7 != 0 {
                    cells.push(((x, y, z), id, properties));
                }
            }
        }
    }
    let voxels = store(&cells);
    let boxes = best_greedy(&voxels);
    let mut covered: Vec<Pos> = Vec::new();
    for b in boxes.iter() {
        for cell in b.all_positions() {
            assert_eq!(voxels[&cell].id, b.id);
            assert_eq!(voxels[&cell].properties, b.properties);
            covered.push(cell);
        }
    }
    covered.sort();
    let wanted: Vec<Pos> = voxels.keys().copied().collect();
    assert_eq!(covered, wanted);
    for i in 0..boxes.len() {
        for j in (i + 1)..boxes.len() {
            assert!(!boxes[i].overlaps(&boxes[j]));
        }
    }
}

#[test]
fn groups_hold_the_positions_of_one_label_each() {
    let voxels = store(&[
        ((0, 0, 0), "stone", ""),
        ((1, 0, 0), "dirt", ""),
        ((2, 0, 0), "stone", ""),
        ((3, 0, 0), "stone", "[a=b]"),
        ((4, 0, 0), "dirt", ""),
    ]);
    let groups = group_by_label(&voxels);
    let mut listed: Vec<(String, String, Vec<Pos>)> = groups
        .iter()
        .map(|g| {
            let mut positions = g.positions.clone();
            positions.sort();
            (g.label.id.clone(), g.label.properties.clone(), positions)
        })
        .collect();
    listed.sort();
    assert_eq!(
        listed,
        vec![
            ("dirt".to_string(), String::new(), vec![(1, 0, 0), (4, 0, 0)]),
            ("stone".to_string(), String::new(), vec![(0, 0, 0), (2, 0, 0)]),
            ("stone".to_string(), "[a=b]".to_string(), vec![(3, 0, 0)]),
        ]
    );
}

#[test]
fn a_group_is_split_into_stores_of_its_label() {
    let voxels = store(&[
        ((0, 0, 0), "stone", "[a=b]"),
        ((1, 0, 0), "stone", "[a=b]"),
        ((5, 0, 0), "stone", "[a=b]"),
    ]);
    let groups = group_by_label(&voxels);
    assert_eq!(groups.len(), 1);
    let parts = split_group(&groups[0]);
    assert_eq!(parts.len(), 2);
    let first: Vec<Pos> = parts[0].keys().copied().collect();
    let second: Vec<Pos> = parts[1].keys().copied().collect();
    assert_eq!(first, vec![(0, 0, 0), (1, 0, 0)]);
    assert_eq!(second, vec![(5, 0, 0)]);
    for part in parts.iter() {
        for voxel in part.values() {
            assert_eq!(voxel.id, "stone");
            assert_eq!(voxel.properties, "[a=b]");
        }
    }
}
