use converter::lattice::next_in_range;

#[test]
fn the_walk_goes_along_z_first() {
    assert_eq!(next_in_range((1, 2, 3), (1, 2, 3), (4, 5, 6)), Some((1, 2, 4)));
    assert_eq!(next_in_range((1, 2, 5), (1, 2, 3), (4, 5, 6)), Some((1, 2, 6)));
}

#[test]
fn at_the_end_of_a_row_the_walk_starts_the_next_row() {
    assert_eq!(next_in_range((1, 2, 6), (1, 2, 3), (4, 5, 6)), Some((1, 3, 3)));
    assert_eq!(next_in_range((1, 5, 6), (1, 2, 3), (4, 5, 6)), Some((2, 2, 3)));
}

#[test]
fn the_walk_ends_at_the_greatest_corner() {
    assert_eq!(next_in_range((4, 5, 6), (1, 2, 3), (4, 5, 6)), None);
    assert_eq!(next_in_range((0, 0, 0), (0, 0, 0), (0, 0, 0)), None);
    let top = usize::MAX;
    assert_eq!(next_in_range((top, top, top), (0, 0, 0), (top, top, top)), None);
    assert_eq!(next_in_range((top - 1, top, top), (0, 0, 0), (top, top, top)), Some((top, 0, 0)));
}

#[test]
fn the_walk_visits_every_cell_once() {
    let lo = (2, 0, 5);
    let hi = (3, 2, 6);
    let mut seen = vec![lo];
    let mut at = lo;
    while let Some(next) = next_in_range(at, lo, hi) {
        assert!(at < next);
        seen.push(next);
        at = next;
    }
    assert_eq!(seen.len(), 2 * 3 * 2);
    assert_eq!(seen.first(), Some(&lo));
    assert_eq!(seen.last(), Some(&hi));
}
