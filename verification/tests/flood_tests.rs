use converter::flood::flood;

type Pos = (usize, usize, usize);

fn sorted(mut cells: Vec<Pos>) -> Vec<Pos> {
    cells.sort();
    cells
}

#[test]
fn empty_input_gives_no_components() {
    assert!(flood(&Vec::new()).is_empty());
}

#[test]
fn single_position_is_its_own_component() {
    assert_eq!(flood(&vec![(4, 5, 6)]), vec![vec![(4, 5, 6)]]);
}

#[test]
fn two_separated_clusters_give_two_components() {
    let cells = vec![(0, 0, 0), (1, 0, 0), (5, 5, 5), (5, 6, 5), (5, 6, 6)];
    let clumps = flood(&cells);
    assert_eq!(clumps.len(), 2);
    assert_eq!(sorted(clumps[0].clone()), vec![(0, 0, 0), (1, 0, 0)]);
    assert_eq!(sorted(clumps[1].clone()), vec![(5, 5, 5), (5, 6, 5), (5, 6, 6)]);
}

#[test]
fn diagonal_neighbours_are_not_connected() {
    let clumps = flood(&vec![(0, 0, 0), (1, 1, 0), (1, 1, 1), (2, 2, 2)]);
    assert_eq!(clumps, vec![vec![(0, 0, 0)], vec![(1, 1, 0), (1, 1, 1)], vec![(2, 2, 2)]]);
}

#[test]
fn a_gap_of_one_cell_separates() {
    let clumps = flood(&vec![(0, 0, 0), (2, 0, 0)]);
    assert_eq!(clumps, vec![vec![(0, 0, 0)], vec![(2, 0, 0)]]);
}

#[test]
fn each_of_the_six_faces_connects() {
    let centre = (3, 3, 3);
    for other in [(4, 3, 3), (2, 3, 3), (3, 4, 3), (3, 2, 3), (3, 3, 4), (3, 3, 2)] {
        assert_eq!(flood(&vec![centre, other]), vec![vec![centre, other]]);
    }
}

#[test]
fn components_come_in_the_order_of_their_first_position() {
    let cells = vec![(9, 9, 9), (0, 0, 0), (9, 9, 8), (0, 0, 1), (4, 4, 4)];
    let clumps = flood(&cells);
    assert_eq!(clumps.len(), 3);
    assert_eq!(clumps[0][0], (9, 9, 9));
    assert_eq!(clumps[1][0], (0, 0, 0));
    assert_eq!(clumps[2][0], (4, 4, 4));
    assert_eq!(sorted(clumps[0].clone()), vec![(9, 9, 8), (9, 9, 9)]);
    assert_eq!(sorted(clumps[1].clone()), vec![(0, 0, 0), (0, 0, 1)]);
    assert_eq!(clumps[2], vec![(4, 4, 4)]);
}

#[test]
fn the_walk_is_depth_first_with_the_last_neighbour_first() {
    // from (1, 1, 1) the neighbours are pushed as x + 1, x - 1, y + 1, and
    // taken from the stack in the reverse order
    let cells = vec![(1, 1, 1), (2, 1, 1), (0, 1, 1), (1, 2, 1)];
    assert_eq!(flood(&cells), vec![vec![(1, 1, 1), (1, 2, 1), (0, 1, 1), (2, 1, 1)]]);
}

#[test]
fn a_winding_component_is_found_whole() {
    let cells = vec![
        (0, 0, 0),
        (1, 0, 0),
        (1, 1, 0),
        (1, 1, 1),
        (2, 1, 1),
        (2, 2, 1),
        (7, 7, 7),
    ];
    let clumps = flood(&cells);
    assert_eq!(clumps.len(), 2);
    assert_eq!(sorted(clumps[0].clone()), sorted(cells[..6].to_vec()));
    assert_eq!(clumps[1], vec![(7, 7, 7)]);
}

#[test]
fn a_repeated_position_is_listed_once() {
    let clumps = flood(&vec![(0, 0, 0), (0, 0, 0), (1, 0, 0), (0, 0, 0)]);
    assert_eq!(clumps, vec![vec![(0, 0, 0), (1, 0, 0)]]);
}

#[test]
fn positions_at_the_bounds_have_no_neighbour_beyond() {
    let top = usize::MAX;
    let clumps = flood(&vec![(0, 0, 0), (top, 0, 0), (0, top, top)]);
    assert_eq!(clumps, vec![vec![(0, 0, 0)], vec![(top, 0, 0)], vec![(0, top, top)]]);
    let clumps = flood(&vec![(top, top, top), (top - 1, top, top)]);
    assert_eq!(clumps, vec![vec![(top, top, top), (top - 1, top, top)]]);
}

#[test]
fn every_position_is_in_exactly_one_component() {
    let mut cells = Vec::new();
    for x in 0..5usize {
        for y in 0..5usize {
            for z in 0..3usize {
                if (x + 2 * y + 3 * z) % 3 != 0 {
                    cells.push((x, y, z));
                }
            }
        }
    }
    let clumps = flood(&cells);
    let mut seen: Vec<Pos> = Vec::new();
    for clump in clumps.iter() {
        assert!(!clump.is_empty());
        seen.extend(clump.iter().copied());
    }
    assert_eq!(sorted(seen), sorted(cells));
}
