//! Face-connectedness within a set of lattice positions.

use vstd::prelude::*;
use crate::lattice::{adjacent, Pos};

verus! {

/// `path` is a walk through `cells`: it is not empty, each of its positions
/// is in `cells`, and each shares a face with the one before it.
pub open spec fn is_path(cells: Set<Pos>, path: Seq<Pos>) -> bool {
    &&& path.len() > 0
    &&& forall|i: int| 0 <= i < path.len() ==> cells.contains(#[trigger] path[i])
    &&& forall|i: int| 0 <= i < path.len() - 1 ==> adjacent(#[trigger] path[i], path[i + 1])
}

/// A walk through `cells` leads from `a` to `b`.
#[verifier::opaque]
pub open spec fn connected(cells: Set<Pos>, a: Pos, b: Pos) -> bool {
    exists|path: Seq<Pos>| #[trigger] is_path(cells, path) && path.first() == a && path.last() == b
}

/// No face leads from a position of `part` to a position of `cells` outside
/// `part`.
pub open spec fn is_closed(cells: Set<Pos>, part: Set<Pos>) -> bool {
    forall|p: Pos, q: Pos|
        part.contains(p) && cells.contains(q) && #[trigger] adjacent(p, q) ==> part.contains(q)
}

/// A walk through `cells` starts and ends within `cells`.
pub proof fn lemma_connected_within(cells: Set<Pos>, a: Pos, b: Pos)
    requires
        connected(cells, a, b),
    ensures
        cells.contains(a),
        cells.contains(b),
{
    reveal(connected);
}

/// Every position of `cells` is connected to itself.
pub proof fn lemma_connected_to_itself(cells: Set<Pos>, a: Pos)
    requires
        cells.contains(a),
    ensures
        connected(cells, a, a),
{
    reveal(connected);
    assert(is_path(cells, seq![a]));
}

/// A walk can be extended by one step to a neighbour in `cells`.
pub proof fn lemma_connected_step(cells: Set<Pos>, a: Pos, b: Pos, c: Pos)
    requires
        connected(cells, a, b),
        cells.contains(c),
        adjacent(b, c),
    ensures
        connected(cells, a, c),
{
    reveal(connected);
    let path = choose|path: Seq<Pos>| #[trigger]
        is_path(cells, path) && path.first() == a && path.last() == b;
    let longer = path.push(c);
    assert(is_path(cells, longer));
}

/// A walk that starts inside a closed part of `cells` stays inside it.
pub proof fn lemma_walk_stays_in_closed_part(cells: Set<Pos>, part: Set<Pos>, a: Pos, b: Pos)
    requires
        is_closed(cells, part),
        part.contains(a),
        connected(cells, a, b),
    ensures
        part.contains(b),
{
    reveal(connected);
    let path = choose|path: Seq<Pos>| #[trigger]
        is_path(cells, path) && path.first() == a && path.last() == b;
    lemma_path_stays_in_closed_part(cells, part, path, path.len() - 1);
}

proof fn lemma_path_stays_in_closed_part(cells: Set<Pos>, part: Set<Pos>, path: Seq<Pos>, k: int)
    requires
        is_closed(cells, part),
        is_path(cells, path),
        part.contains(path.first()),
        0 <= k < path.len(),
    ensures
        part.contains(path[k]),
    decreases k,
{
    if k > 0 {
        lemma_path_stays_in_closed_part(cells, part, path, k - 1);
    }
}

/// What a closed part of `cells` leaves over is closed too.
pub proof fn lemma_rest_of_closed_part_is_closed(cells: Set<Pos>, part: Set<Pos>)
    requires
        is_closed(cells, part),
        part.subset_of(cells),
    ensures
        is_closed(cells, cells.difference(part)),
{
    let rest = cells.difference(part);
    assert forall|p: Pos, q: Pos|
        rest.contains(p) && cells.contains(q) && #[trigger] adjacent(p, q) implies rest.contains(
        q,
    ) by {
        if part.contains(q) {
            assert(adjacent(q, p));
        }
    }
}

/// A walk through a part of `cells` is a walk through `cells`.
pub proof fn lemma_connected_in_larger_set(part: Set<Pos>, cells: Set<Pos>, a: Pos, b: Pos)
    requires
        part.subset_of(cells),
        connected(part, a, b),
    ensures
        connected(cells, a, b),
{
    reveal(connected);
    let path = choose|path: Seq<Pos>| #[trigger]
        is_path(part, path) && path.first() == a && path.last() == b;
    assert(is_path(cells, path));
}

} // verus!
