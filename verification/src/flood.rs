//! Splitting a list of positions into its face-connected components.

use vstd::prelude::*;
use std::collections::BTreeSet;
use crate::connectivity::{
    connected, is_closed, lemma_connected_step, lemma_connected_to_itself,
    lemma_rest_of_closed_part_is_closed, lemma_walk_stays_in_closed_part,
};
use crate::lattice::{adjacent, lemma_push_contains, Pos};

verus! {

broadcast use vstd::laws_cmp::group_laws_cmp;

/// A list of components as the contracts see it.
pub open spec fn clump_views(clumps: Seq<Vec<Pos>>) -> Seq<Seq<Pos>> {
    clumps.map_values(|c: Vec<Pos>| c@)
}

/// `clump` lists, each once, the positions that a walk through `cells`
/// reaches from its first position.
pub open spec fn is_component(cells: Set<Pos>, clump: Seq<Pos>) -> bool {
    &&& clump.len() > 0
    &&& clump.no_duplicates()
    &&& forall|p: Pos| clump.contains(p) <==> connected(cells, clump[0], p)
}

/// One of the first `k` components holds `p`.
#[verifier::opaque]
pub open spec fn in_earlier(clumps: Seq<Seq<Pos>>, k: int, p: Pos) -> bool {
    exists|j: int| 0 <= j < k && j < clumps.len() && (#[trigger] clumps[j]).contains(p)
}

/// The component `k` starts at the first of `positions` that the
/// components before it leave out.
pub open spec fn starts_at_first_left(positions: Seq<Pos>, clumps: Seq<Seq<Pos>>, k: int) -> bool {
    exists|i: int|
        {
            &&& 0 <= i < positions.len()
            &&& #[trigger] positions[i] == clumps[k][0]
            &&& !in_earlier(clumps, k, positions[i])
            &&& forall|h: int| 0 <= h < i ==> in_earlier(clumps, k, #[trigger] positions[h])
        }
}

/// `clumps` are the components of `positions`, in the order in which
/// `positions` first enters each of them.
pub open spec fn is_flood_result(positions: Seq<Pos>, clumps: Seq<Seq<Pos>>) -> bool {
    &&& forall|k: int|
        0 <= k < clumps.len() ==> is_component(positions.to_set(), #[trigger] clumps[k])
    &&& forall|k: int|
        0 <= k < clumps.len() ==> #[trigger] starts_at_first_left(positions, clumps, k)
    &&& forall|i: int|
        0 <= i < positions.len() ==> in_earlier(
            clumps,
            clumps.len() as int,
            #[trigger] positions[i],
        )
}

/// A position of one of the first `k` components is in one of them.
pub proof fn lemma_in_earlier(clumps: Seq<Seq<Pos>>, k: int, j: int, p: Pos)
    requires
        0 <= j < k,
        j < clumps.len(),
        clumps[j].contains(p),
    ensures
        in_earlier(clumps, k, p),
{
    reveal(in_earlier);
}

/// The index of one of the first `k` components that holds `p`.
pub proof fn lemma_earlier_index(clumps: Seq<Seq<Pos>>, k: int, p: Pos) -> (j: int)
    requires
        in_earlier(clumps, k, p),
    ensures
        0 <= j < k,
        j < clumps.len(),
        clumps[j].contains(p),
{
    reveal(in_earlier);
    choose|j: int| 0 <= j < k && j < clumps.len() && (#[trigger] clumps[j]).contains(p)
}

/// The positions of the list as a set.
fn member_set(positions: &Vec<Pos>) -> (members: BTreeSet<Pos>)
    ensures
        members@ == positions@.to_set(),
        members@.finite(),
{
    let mut members: BTreeSet<Pos> = BTreeSet::new();
    for i in 0..positions.len()
        invariant
            members@.finite(),
            forall|p: Pos|
                members@.contains(p) <==> exists|h: int| 0 <= h < i && #[trigger] positions[h] == p,
    {
        members.insert(positions[i]);
    }
    members
}

/// The up to six positions that share a face with `p`, in the order
/// `x + 1`, `x - 1`, `y + 1`, `y - 1`, `z + 1`, `z - 1`.
pub open spec fn neighbours(p: Pos) -> Seq<Pos> {
    (if p.0 < usize::MAX {
        seq![((p.0 + 1) as usize, p.1, p.2)]
    } else {
        seq![]
    }) + (if p.0 > 0 {
        seq![((p.0 - 1) as usize, p.1, p.2)]
    } else {
        seq![]
    }) + (if p.1 < usize::MAX {
        seq![(p.0, (p.1 + 1) as usize, p.2)]
    } else {
        seq![]
    }) + (if p.1 > 0 {
        seq![(p.0, (p.1 - 1) as usize, p.2)]
    } else {
        seq![]
    }) + (if p.2 < usize::MAX {
        seq![(p.0, p.1, (p.2 + 1) as usize)]
    } else {
        seq![]
    }) + (if p.2 > 0 {
        seq![(p.0, p.1, (p.2 - 1) as usize)]
    } else {
        seq![]
    })
}

/// Of `around`, in its order, the positions of `cells` that are not in
/// `visited`.
pub open spec fn keep_open(cells: Set<Pos>, visited: Set<Pos>, around: Seq<Pos>) -> Seq<Pos>
    decreases around.len(),
{
    if around.len() == 0 {
        Seq::empty()
    } else {
        let before = keep_open(cells, visited, around.drop_last());
        if cells.contains(around.last()) && !visited.contains(around.last()) {
            before.push(around.last())
        } else {
            before
        }
    }
}

/// The positions that a depth-first walk reaches, in the order in which it
/// reaches them. The walk takes the last position of `stack`; where that
/// is a position of `cells` that has not been visited, the walk visits it
/// and puts those of its neighbours on the stack that are in `cells` and
/// have not been visited.
pub open spec fn walk(cells: Set<Pos>, visited: Set<Pos>, stack: Seq<Pos>) -> Seq<Pos>
    decreases cells.difference(visited).len(), stack.len(),
    when cells.finite()
    via walk_decreases
{
    if stack.len() == 0 {
        Seq::empty()
    } else {
        let p = stack.last();
        if !cells.contains(p) || visited.contains(p) {
            walk(cells, visited, stack.drop_last())
        } else {
            seq![p] + walk(
                cells,
                visited.insert(p),
                stack.drop_last() + keep_open(cells, visited.insert(p), neighbours(p)),
            )
        }
    }
}

#[via_fn]
proof fn walk_decreases(cells: Set<Pos>, visited: Set<Pos>, stack: Seq<Pos>) {
    if stack.len() > 0 {
        let p = stack.last();
        if cells.contains(p) && !visited.contains(p) {
            lemma_visit_leaves_fewer(cells, visited, p);
        }
    }
}

/// Visiting a position of `cells` leaves fewer positions to visit.
proof fn lemma_visit_leaves_fewer(cells: Set<Pos>, visited: Set<Pos>, p: Pos)
    requires
        cells.finite(),
        cells.contains(p),
        !visited.contains(p),
    ensures
        cells.difference(visited.insert(p)).len() < cells.difference(visited).len(),
{
    let open = cells.difference(visited);
    assert(cells.difference(visited.insert(p)) =~= open.remove(p));
}

/// The components of the positions from the index `from` on, without the
/// positions in `visited`.
pub open spec fn components_from(positions: Seq<Pos>, from: int, visited: Set<Pos>) -> Seq<
    Seq<Pos>,
>
    decreases positions.len() - from,
{
    if from < 0 || from >= positions.len() {
        Seq::empty()
    } else if visited.contains(positions[from]) {
        components_from(positions, from + 1, visited)
    } else {
        let clump = walk(positions.to_set(), visited, seq![positions[from]]);
        seq![clump] + components_from(positions, from + 1, visited.union(clump.to_set()))
    }
}

/// The components of the positions: each position that no earlier
/// component holds starts a component, which lists the positions that a
/// depth-first walk reaches from it.
pub open spec fn components(positions: Seq<Pos>) -> Seq<Seq<Pos>> {
    components_from(positions, 0, Set::empty())
}

/// The positions that share a face with `p`.
fn neighbours_of(p: Pos) -> (around: Vec<Pos>)
    ensures
        around@ == neighbours(p),
        forall|q: Pos| around@.contains(q) <==> adjacent(p, q),
{
    let mut around: Vec<Pos> = Vec::new();
    let ghost mut seen: Seq<Pos> = around@;
    if p.0 < usize::MAX {
        let q: Pos = (p.0 + 1, p.1, p.2);
        around.push(q);
        proof {
            lemma_push_contains(seen, q);
        }
    }
    proof {
        seen = around@;
    }
    if p.0 > 0 {
        let q: Pos = (p.0 - 1, p.1, p.2);
        around.push(q);
        proof {
            lemma_push_contains(seen, q);
        }
    }
    proof {
        seen = around@;
    }
    if p.1 < usize::MAX {
        let q: Pos = (p.0, p.1 + 1, p.2);
        around.push(q);
        proof {
            lemma_push_contains(seen, q);
        }
    }
    proof {
        seen = around@;
    }
    if p.1 > 0 {
        let q: Pos = (p.0, p.1 - 1, p.2);
        around.push(q);
        proof {
            lemma_push_contains(seen, q);
        }
    }
    proof {
        seen = around@;
    }
    if p.2 < usize::MAX {
        let q: Pos = (p.0, p.1, p.2 + 1);
        around.push(q);
        proof {
            lemma_push_contains(seen, q);
        }
    }
    proof {
        seen = around@;
    }
    if p.2 > 0 {
        let q: Pos = (p.0, p.1, p.2 - 1);
        around.push(q);
        proof {
            lemma_push_contains(seen, q);
        }
    }
    around
}

/// `keep_open` keeps the positions of `around` that are in `cells` and not
/// in `visited`, and no others.
pub proof fn lemma_keep_open_holds(cells: Set<Pos>, visited: Set<Pos>, around: Seq<Pos>)
    ensures
        forall|q: Pos| #[trigger]
            keep_open(cells, visited, around).contains(q) <==> around.contains(q) && cells.contains(
                q,
            ) && !visited.contains(q),
    decreases around.len(),
{
    if around.len() > 0 {
        let front = around.drop_last();
        let last = around.last();
        lemma_keep_open_holds(cells, visited, front);
        lemma_push_contains(keep_open(cells, visited, front), last);
        assert(around =~= front.push(last));
    }
}

/// Pushes on `stack`, in their order, the positions of `around` that are
/// members and have not been visited.
fn push_open(
    members: &BTreeSet<Pos>,
    visited: &BTreeSet<Pos>,
    stack: &mut Vec<Pos>,
    around: &Vec<Pos>,
)
    ensures
        final(stack)@ == old(stack)@ + keep_open(members@, visited@, around@),
        forall|q: Pos| #[trigger]
            keep_open(members@, visited@, around@).contains(q) <==> around@.contains(q)
                && members@.contains(q) && !visited@.contains(q),
{
    let ghost before = stack@;
    for k in 0..around.len()
        invariant
            stack@ == before + keep_open(members@, visited@, around@.take(k as int)),
    {
        let q = around[k];
        proof {
            let upto = around@.take(k + 1);
            assert(upto.drop_last() =~= around@.take(k as int));
        }
        if !visited.contains(&q) && members.contains(&q) {
            stack.push(q);
        }
    }
    proof {
        assert(around@.take(around@.len() as int) =~= around@);
        lemma_keep_open_holds(members@, visited@, around@);
    }
}

/// Pushes on `stack`, in the order of `neighbours`, each neighbour of `p`
/// that is a member and has not been visited.
fn push_open_neighbours(
    members: &BTreeSet<Pos>,
    visited: &BTreeSet<Pos>,
    stack: &mut Vec<Pos>,
    p: Pos,
)
    ensures
        final(stack)@ == old(stack)@ + keep_open(members@, visited@, neighbours(p)),
        final(stack)@.len() >= old(stack)@.len(),
        final(stack)@.take(old(stack)@.len() as int) == old(stack)@,
        forall|i: int|
            old(stack)@.len() <= i < final(stack)@.len() ==> members@.contains(
                #[trigger] final(stack)@[i],
            ) && adjacent(p, final(stack)@[i]),
        forall|q: Pos|
            #[trigger] adjacent(p, q) && members@.contains(q) && !visited@.contains(q)
                ==> final(stack)@.contains(q),
{
    let ghost before = stack@;
    let around = neighbours_of(p);
    push_open(members, visited, stack, &around);
    proof {
        let opened = keep_open(members@, visited@, around@);
        assert forall|i: int| before.len() <= i < stack@.len() implies members@.contains(
            #[trigger] stack@[i],
        ) && adjacent(p, stack@[i]) by {
            assert(opened.contains(stack@[i]));
        }
        assert forall|q: Pos|
            #[trigger] adjacent(p, q) && members@.contains(q) && !visited@.contains(
                q,
            ) implies stack@.contains(q) by {
            assert(opened.contains(q));
            let h = choose|h: int| 0 <= h < opened.len() && opened[h] == q;
            assert(stack@[before.len() + h] == q);
        }
    }
}

/// Walks from `seed` through the members that have not been visited, depth
/// first, marks each position it reaches as visited and returns them in the
/// order in which it reached them.
fn collect_component(members: &BTreeSet<Pos>, visited: &mut BTreeSet<Pos>, seed: Pos) -> (clump:
    Vec<Pos>)
    requires
        members@.finite(),
        members@.contains(seed),
        !old(visited)@.contains(seed),
        old(visited)@.subset_of(members@),
        is_closed(members@, old(visited)@),
    ensures
        clump@ == walk(members@, old(visited)@, seq![seed]),
        is_component(members@, clump@),
        clump@[0] == seed,
        forall|p: Pos| #[trigger]
            final(visited)@.contains(p) <==> old(visited)@.contains(p) || clump@.contains(p),
        forall|p: Pos| #[trigger] clump@.contains(p) ==> !old(visited)@.contains(p),
        final(visited)@.subset_of(members@),
        is_closed(members@, final(visited)@),
{
    let ghost cells = members@;
    let ghost done = visited@;
    let mut clump: Vec<Pos> = Vec::new();
    let mut stack: Vec<Pos> = Vec::new();
    stack.push(seed);
    proof {
        lemma_connected_to_itself(cells, seed);
    }
    loop
        invariant
            cells == members@,
            cells.finite(),
            cells.contains(seed),
            !done.contains(seed),
            done.subset_of(cells),
            is_closed(cells, done),
            visited@.subset_of(cells),
            forall|p: Pos| #[trigger]
                visited@.contains(p) <==> done.contains(p) || clump@.contains(p),
            forall|p: Pos| #[trigger] clump@.contains(p) ==> !done.contains(p),
            clump@.no_duplicates(),
            forall|i: int|
                0 <= i < stack.len() ==> cells.contains(#[trigger] stack[i]) && connected(
                    cells,
                    seed,
                    stack[i],
                ),
            forall|i: int| 0 <= i < clump.len() ==> connected(cells, seed, #[trigger] clump[i]),
            clump.len() == 0 ==> stack@ =~= seq![seed],
            clump.len() > 0 ==> clump[0] == seed,
            walk(cells, done, seq![seed]) == clump@ + walk(cells, visited@, stack@),
            forall|p: Pos, q: Pos|
                clump@.contains(p) && cells.contains(q) && #[trigger] adjacent(p, q)
                    ==> visited@.contains(q) || stack@.contains(q),
        ensures
            stack.len() == 0,
        decreases cells.len() - visited@.len(), stack.len(),
    {
        let ghost held = stack@;
        let ghost listed = clump@;
        match stack.pop() {
            None => {
                break ;
            },
            Some(p) => {
                assert forall|q: Pos| held.contains(q) implies q == p || stack@.contains(q) by {
                    let i = choose|i: int| 0 <= i < held.len() && held[i] == q;
                    if i < held.len() - 1 {
                        assert(stack@[i] == q);
                    }
                }
                if !visited.contains(&p) {
                    visited.insert(p);
                    clump.push(p);
                    let ghost rest = stack@;
                    push_open_neighbours(members, visited, &mut stack, p);
                    proof {
                        lemma_push_contains(listed, p);
                        vstd::set_lib::lemma_len_subset(visited@, cells);
                        assert forall|i: int| 0 <= i < stack.len() implies cells.contains(
                            #[trigger] stack[i],
                        ) && connected(cells, seed, stack[i]) by {
                            if i >= rest.len() {
                                lemma_connected_step(cells, seed, p, stack[i]);
                            }
                        }
                    }
                }
            },
        }
    }
    proof {
        let part = visited@;
        lemma_rest_of_closed_part_is_closed(cells, done);
        assert forall|p: Pos| clump@.contains(p) <==> connected(cells, clump@[0], p) by {
            if connected(cells, seed, p) {
                lemma_walk_stays_in_closed_part(cells, part, seed, p);
                lemma_walk_stays_in_closed_part(cells, cells.difference(done), seed, p);
            }
        }
    }
    clump
}

/// Splits `voxels` into its components: the largest sets of positions in
/// which a walk over shared faces, through positions of `voxels` only,
/// leads from each to each.
///
/// The components come in the order in which `voxels` first enters each of
/// them, and each starts with that first position. A position that
/// `voxels` lists more than once is listed once.
pub fn flood(voxels: &Vec<Pos>) -> (clumps: Vec<Vec<Pos>>)
    ensures
        clump_views(clumps@) == components(voxels@),
        is_flood_result(voxels@, clump_views(clumps@)),
{
    let members = member_set(voxels);
    let mut visited: BTreeSet<Pos> = BTreeSet::new();
    let mut clumps: Vec<Vec<Pos>> = Vec::new();
    let ghost cells = voxels@.to_set();
    proof {
        assert forall|p: Pos| !in_earlier(clump_views(clumps@), 0, p) by {
            if in_earlier(clump_views(clumps@), 0, p) {
                lemma_earlier_index(clump_views(clumps@), 0, p);
            }
        }
    }
    for idx in 0..voxels.len()
        invariant
            components(voxels@) == clump_views(clumps@) + components_from(
                voxels@,
                idx as int,
                visited@,
            ),
            members@ == cells,
            cells == voxels@.to_set(),
            cells.finite(),
            visited@.subset_of(cells),
            is_closed(cells, visited@),
            forall|p: Pos|
                visited@.contains(p) <==> in_earlier(
                    clump_views(clumps@),
                    clumps.len() as int,
                    p,
                ),
            forall|h: int| 0 <= h < idx ==> visited@.contains(#[trigger] voxels[h]),
            forall|k: int|
                0 <= k < clumps.len() ==> is_component(cells, #[trigger] clump_views(clumps@)[k]),
            forall|k: int|
                0 <= k < clumps.len() ==> #[trigger] starts_at_first_left(
                    voxels@,
                    clump_views(clumps@),
                    k,
                ),
    {
        let pos = voxels[idx];
        let ghost before = clump_views(clumps@);
        let ghost marked = visited@;
        if !visited.contains(&pos) {
            let clump = collect_component(&members, &mut visited, pos);
            clumps.push(clump);
            proof {
                let now = clump_views(clumps@);
                let n = before.len() as int;
                assert(visited@ =~= marked.union(clump@.to_set()));
                assert forall|k: int| 0 <= k < n implies now[k] == before[k] by {}
                assert forall|k: int, p: Pos| 0 <= k <= n implies (in_earlier(now, k, p)
                    <==> in_earlier(before, k, p)) by {
                    if in_earlier(now, k, p) {
                        let j = lemma_earlier_index(now, k, p);
                        lemma_in_earlier(before, k, j, p);
                    }
                    if in_earlier(before, k, p) {
                        let j = lemma_earlier_index(before, k, p);
                        lemma_in_earlier(now, k, j, p);
                    }
                }
                assert forall|p: Pos| visited@.contains(p) <==> in_earlier(now, n + 1, p) by {
                    if in_earlier(now, n + 1, p) {
                        let j = lemma_earlier_index(now, n + 1, p);
                        if j < n {
                            lemma_in_earlier(before, n, j, p);
                        }
                    }
                    if marked.contains(p) {
                        let j = lemma_earlier_index(before, n, p);
                        lemma_in_earlier(now, n + 1, j, p);
                    }
                    if clump@.contains(p) {
                        lemma_in_earlier(now, n + 1, n, p);
                    }
                }
                assert forall|k: int| 0 <= k < clumps.len() implies #[trigger] starts_at_first_left(
                    voxels@,
                    now,
                    k,
                ) by {
                    if k < n {
                        assert(starts_at_first_left(voxels@, before, k));
                    }
                }
            }
        }
    }
    clumps
}

} // verus!
