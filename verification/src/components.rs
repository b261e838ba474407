//! What holds of every list of components that the flood fill can return.

use vstd::prelude::*;
use crate::connectivity::{
    connected, is_closed, lemma_connected_in_larger_set, lemma_connected_step,
    lemma_connected_within, lemma_rest_of_closed_part_is_closed,
    lemma_walk_stays_in_closed_part,
};
use crate::flood::{
    is_component, is_flood_result, lemma_earlier_index, lemma_in_earlier,
    starts_at_first_left,
};
use crate::lattice::{adjacent, Pos};

verus! {

/// A component is closed: no face leads from it to a position outside it.
pub proof fn lemma_component_is_closed(cells: Set<Pos>, clump: Seq<Pos>)
    requires
        is_component(cells, clump),
    ensures
        is_closed(cells, clump.to_set()),
        clump.to_set().subset_of(cells),
{
    assert forall|p: Pos, q: Pos|
        clump.to_set().contains(p) && cells.contains(q) && #[trigger] adjacent(
            p,
            q,
        ) implies clump.to_set().contains(q) by {
        lemma_connected_step(cells, clump[0], p, q);
    }
    assert forall|p: Pos| clump.to_set().contains(p) implies cells.contains(p) by {
        lemma_connected_within(cells, clump[0], p);
    }
}

/// The first position of a component is in none of the components before
/// it.
pub proof fn lemma_component_starts_outside_earlier(
    positions: Seq<Pos>,
    clumps: Seq<Seq<Pos>>,
    j: int,
    k: int,
)
    requires
        is_flood_result(positions, clumps),
        0 <= j < k < clumps.len(),
    ensures
        !clumps[j].contains(clumps[k][0]),
{
    assert(starts_at_first_left(positions, clumps, k));
    if clumps[j].contains(clumps[k][0]) {
        lemma_in_earlier(clumps, k, j, clumps[k][0]);
    }
}

/// No position is in two components.
pub proof fn lemma_components_are_disjoint(
    positions: Seq<Pos>,
    clumps: Seq<Seq<Pos>>,
    j: int,
    k: int,
    p: Pos,
)
    requires
        is_flood_result(positions, clumps),
        0 <= j < k < clumps.len(),
        clumps[j].contains(p),
    ensures
        !clumps[k].contains(p),
{
    let cells = positions.to_set();
    let part = clumps[j].to_set();
    lemma_component_is_closed(cells, clumps[j]);
    lemma_rest_of_closed_part_is_closed(cells, part);
    lemma_component_starts_outside_earlier(positions, clumps, j, k);
    if clumps[k].contains(p) {
        let seed = clumps[k][0];
        lemma_connected_within(cells, seed, p);
        lemma_walk_stays_in_closed_part(cells, cells.difference(part), seed, p);
    }
}

/// Every position of the input is in a component, and every position of a
/// component is one of the input.
pub proof fn lemma_components_cover(positions: Seq<Pos>, clumps: Seq<Seq<Pos>>, p: Pos)
    requires
        is_flood_result(positions, clumps),
    ensures
        positions.contains(p) <==> exists|k: int|
            0 <= k < clumps.len() && (#[trigger] clumps[k]).contains(p),
{
    if positions.contains(p) {
        let i = choose|i: int| 0 <= i < positions.len() && positions[i] == p;
        let k = lemma_earlier_index(clumps, clumps.len() as int, positions[i]);
    }
    if exists|k: int| 0 <= k < clumps.len() && (#[trigger] clumps[k]).contains(p) {
        let k = choose|k: int| 0 <= k < clumps.len() && (#[trigger] clumps[k]).contains(p);
        lemma_connected_within(positions.to_set(), clumps[k][0], p);
    }
}

/// A component that starts in a connected, closed part of the input is
/// that part.
proof fn lemma_component_of_cluster(cells: Set<Pos>, part: Set<Pos>, clump: Seq<Pos>)
    requires
        is_component(cells, clump),
        part.subset_of(cells),
        is_closed(cells, part),
        part.contains(clump[0]),
        forall|p: Pos, q: Pos| part.contains(p) && part.contains(q) ==> connected(part, p, q),
    ensures
        clump.to_set() == part,
{
    assert forall|p: Pos| clump.to_set().contains(p) <==> part.contains(p) by {
        if clump.contains(p) {
            lemma_walk_stays_in_closed_part(cells, part, clump[0], p);
        }
        if part.contains(p) {
            lemma_connected_in_larger_set(part, cells, clump[0], p);
        }
    }
}

/// Where the input falls into two clusters, each connected in itself, with
/// no face between a position of one and a position of the other, the
/// flood fill returns exactly two components, and they are the two
/// clusters.
pub proof fn lemma_two_clusters_give_two_components(
    positions: Seq<Pos>,
    clumps: Seq<Seq<Pos>>,
    a: Set<Pos>,
    b: Set<Pos>,
)
    requires
        is_flood_result(positions, clumps),
        positions.to_set() == a.union(b),
        exists|p: Pos| a.contains(p),
        exists|p: Pos| b.contains(p),
        forall|p: Pos, q: Pos| a.contains(p) && a.contains(q) ==> connected(a, p, q),
        forall|p: Pos, q: Pos| b.contains(p) && b.contains(q) ==> connected(b, p, q),
        a.disjoint(b),
        forall|p: Pos, q: Pos| a.contains(p) && b.contains(q) ==> !adjacent(p, q),
    ensures
        clumps.len() == 2,
        (clumps[0].to_set() == a && clumps[1].to_set() == b) || (clumps[0].to_set() == b
            && clumps[1].to_set() == a),
{
    let cells = positions.to_set();
    assert(is_closed(cells, b)) by {
        assert forall|p: Pos, q: Pos|
            b.contains(p) && cells.contains(q) && #[trigger] adjacent(p, q) implies b.contains(
            q,
        ) by {
            if a.contains(q) {
                assert(adjacent(q, p));
            }
        }
    }
    assert forall|k: int| 0 <= k < clumps.len() implies (#[trigger] clumps[k]).to_set() == a
        || clumps[k].to_set() == b by {
        assert(clumps[k].contains(clumps[k][0]));
        lemma_connected_within(cells, clumps[k][0], clumps[k][0]);
        if a.contains(clumps[k][0]) {
            lemma_component_of_cluster(cells, a, clumps[k]);
        } else {
            lemma_component_of_cluster(cells, b, clumps[k]);
        }
    }
    assert forall|j: int, k: int| 0 <= j < k < clumps.len() implies (#[trigger] clumps[j]).to_set()
        != (#[trigger] clumps[k]).to_set() by {
        lemma_component_starts_outside_earlier(positions, clumps, j, k);
        assert(!clumps[j].to_set().contains(clumps[k][0]));
    }
    let pa = choose|p: Pos| a.contains(p);
    let pb = choose|p: Pos| b.contains(p);
    assert(cells.contains(pa) && cells.contains(pb));
    lemma_components_cover(positions, clumps, pa);
    lemma_components_cover(positions, clumps, pb);
    if clumps.len() > 2 {
        assert(clumps[0].to_set() != clumps[2].to_set());
        assert(clumps[1].to_set() != clumps[2].to_set());
    }
}

} // verus!
