//! The component optimizer: the store is split by exact label into
//! components, each component is meshed under the six axis orders, and the
//! meshing with the fewest boxes is kept.

use vstd::prelude::*;
use vstd::std_specs::btree::increasing_seq;
use std::collections::BTreeMap;
use crate::cuboid::{Box, BoxView};
use crate::flood::{clump_views, flood};
use crate::greedy::{
    box_views, covered, greedy, greedy_meshing, is_greedy_meshing, store_view, GreedyDirection,
};
use crate::key_order::lemma_increasing_is_lexicographic;
use crate::labels::{
    group_split, grouping, in_first_groups, is_ascending, is_component_split, is_group_split,
    is_grouping, label_cells, labelled, lemma_group_splits_are_component_split,
    lemma_grouping_is_unique, store_parts, GroupView,
};
use crate::lattice::{lemma_push_contains, lex_lt, Pos};
use crate::meshing::{is_some_meshing, lemma_component_meshes_partition};
use crate::parallel::par_map;
use crate::voxel::{Voxel, VoxelView};

verus! {

broadcast use vstd::laws_cmp::group_laws_cmp;

/// The six orders of the three axes, in the order in which they are tried.
pub open spec fn axis_orders() -> Seq<Seq<GreedyDirection>> {
    seq![
        seq![GreedyDirection::X, GreedyDirection::Y, GreedyDirection::Z],
        seq![GreedyDirection::X, GreedyDirection::Z, GreedyDirection::Y],
        seq![GreedyDirection::Y, GreedyDirection::X, GreedyDirection::Z],
        seq![GreedyDirection::Y, GreedyDirection::Z, GreedyDirection::X],
        seq![GreedyDirection::Z, GreedyDirection::X, GreedyDirection::Y],
        seq![GreedyDirection::Z, GreedyDirection::Y, GreedyDirection::X],
    ]
}

/// `k` is the first index at which `counts` is least.
pub open spec fn is_first_least(counts: Seq<nat>, k: int) -> bool {
    &&& 0 <= k < counts.len()
    &&& forall|j: int| 0 <= j < counts.len() ==> counts[k] <= #[trigger] counts[j]
    &&& forall|j: int| 0 <= j < k ==> counts[k] < #[trigger] counts[j]
}

/// The first index at which `counts` is least.
pub open spec fn first_least(counts: Seq<nat>) -> int {
    choose|k: int| is_first_least(counts, k)
}

/// The meshings of `store` under the six axis orders.
pub open spec fn meshings(store: Map<Pos, VoxelView>) -> Seq<Seq<BoxView>> {
    axis_orders().map_values(|dirs: Seq<GreedyDirection>| greedy_meshing(store, dirs))
}

/// The number of boxes of each candidate.
pub open spec fn box_counts(candidates: Seq<Seq<BoxView>>) -> Seq<nat> {
    candidates.map_values(|boxes: Seq<BoxView>| boxes.len())
}

/// The meshing of `store` that is kept: among those under the six axis
/// orders the first with the fewest boxes.
pub open spec fn best_meshing(store: Map<Pos, VoxelView>) -> Seq<BoxView> {
    meshings(store)[first_least(box_counts(meshings(store)))]
}

/// A list of box lists as the contracts see it.
pub open spec fn candidate_views(candidates: Seq<Vec<Box>>) -> Seq<Seq<BoxView>> {
    candidates.map_values(|boxes: Vec<Box>| box_views(boxes@))
}

/// At most one index is the first at which `counts` is least.
pub proof fn lemma_first_least_is_unique(counts: Seq<nat>, j: int, k: int)
    requires
        is_first_least(counts, j),
        is_first_least(counts, k),
    ensures
        j == k,
{
    if j < k {
        assert(counts[k] < counts[j]);
    } else if k < j {
        assert(counts[j] < counts[k]);
    }
}

/// The candidate with the fewest boxes, and of several such the first.
/// `None` where there is no candidate.
pub fn select_fewest(candidates: Vec<Vec<Box>>) -> (best: Option<Vec<Box>>)
    ensures
        best is None <==> candidates.len() == 0,
        best matches Some(boxes) ==> {
            let k = first_least(box_counts(candidate_views(candidates@)));
            &&& is_first_least(box_counts(candidate_views(candidates@)), k)
            &&& boxes == candidates[k]
        },
{
    let mut candidates = candidates;
    if candidates.len() == 0 {
        return None;
    }
    let ghost given = candidates@;
    let ghost counts = box_counts(candidate_views(given));
    let mut at: usize = 0;
    for j in 1..candidates.len()
        invariant
            candidates@ == given,
            counts == box_counts(candidate_views(given)),
            0 <= at < j,
            forall|h: int| 0 <= h < j ==> counts[at as int] <= #[trigger] counts[h],
            forall|h: int| 0 <= h < at ==> counts[at as int] < #[trigger] counts[h],
    {
        if candidates[j].len() < candidates[at].len() {
            at = j;
        }
    }
    proof {
        assert(is_first_least(counts, at as int));
    }
    Some(candidates.swap_remove(at))
}

/// The six axis orders as lists.
fn axis_order_list() -> (orders: Vec<Vec<GreedyDirection>>)
    ensures
        orders.len() == 6,
        orders@.map_values(|dirs: Vec<GreedyDirection>| dirs@) == axis_orders(),
{
    let orders = vec![
        vec![GreedyDirection::X, GreedyDirection::Y, GreedyDirection::Z],
        vec![GreedyDirection::X, GreedyDirection::Z, GreedyDirection::Y],
        vec![GreedyDirection::Y, GreedyDirection::X, GreedyDirection::Z],
        vec![GreedyDirection::Y, GreedyDirection::Z, GreedyDirection::X],
        vec![GreedyDirection::Z, GreedyDirection::X, GreedyDirection::Y],
        vec![GreedyDirection::Z, GreedyDirection::Y, GreedyDirection::X],
    ];
    orders
}

/// Meshes one component under each of the six axis orders and keeps the
/// first meshing with the fewest boxes.
pub fn mesh_component(clump: &BTreeMap<Pos, Voxel>) -> (boxes: Vec<Box>)
    ensures
        box_views(boxes@) == best_meshing(store_view(clump@)),
        exists|k: int|
            0 <= k < 6 && is_greedy_meshing(
                store_view(clump@),
                #[trigger] axis_orders()[k],
                box_views(boxes@),
            ),
{
    let ghost store = store_view(clump@);
    let orders = axis_order_list();
    let mesh = |dirs: &Vec<GreedyDirection>| -> (meshed: Vec<Box>)
        ensures
            is_greedy_meshing(store_view(clump@), dirs@, box_views(meshed@)),
            box_views(meshed@) == greedy_meshing(store_view(clump@), dirs@),
        { greedy(clump, dirs.as_slice()) };
    let candidates = par_map(&orders, mesh);
    let ghost views = candidate_views(candidates@);
    proof {
        assert(views =~= meshings(store));
    }
    match select_fewest(candidates) {
        Some(boxes) => {
            boxes
        },
        None => Vec::new(),
    }
}

/// The voxels of one label: the label and the positions that carry it.
pub struct Group {
    pub label: Voxel,
    pub positions: Vec<Pos>,
}

impl View for Group {
    type V = GroupView;

    open spec fn view(&self) -> GroupView {
        GroupView { label: self.label@, positions: self.positions@ }
    }
}

/// A list of groups as the contracts see it.
pub open spec fn group_views(groups: Seq<Group>) -> Seq<GroupView> {
    groups.map_values(|g: Group| g@)
}

/// A list of stores as the contracts see it.
pub open spec fn part_views(parts: Seq<BTreeMap<Pos, Voxel>>) -> Seq<Map<Pos, VoxelView>> {
    parts.map_values(|part: BTreeMap<Pos, Voxel>| store_view(part@))
}

/// The index of the group with the label of `voxel`, identity and
/// properties.
fn find_group(groups: &Vec<Group>, voxel: &Voxel) -> (at: Option<usize>)
    ensures
        match at {
            Some(g) => g < groups.len() && groups[g as int].label@ == voxel@,
            None => forall|g: int|
                0 <= g < groups.len() ==> (#[trigger] groups[g]).label@ != voxel@,
        },
{
    for g in 0..groups.len()
        invariant
            forall|h: int| 0 <= h < g ==> (#[trigger] groups[h]).label@ != voxel@,
    {
        if groups[g].label.id == voxel.id && groups[g].label.properties == voxel.properties {
            return Some(g);
        }
    }
    None
}

/// Sorts the positions of the store by label, identity and properties.
pub fn group_by_label(voxels: &BTreeMap<Pos, Voxel>) -> (groups: Vec<Group>)
    ensures
        is_grouping(store_view(voxels@), group_views(groups@)),
        group_views(groups@) == grouping(store_view(voxels@)),
{
    let ghost store = store_view(voxels@);
    let mut groups: Vec<Group> = Vec::new();
    let ghost mut seen: Set<Pos> = Set::empty();
    for (pos, voxel) in entries: voxels.iter()
        invariant
            store == store_view(voxels@),
            increasing_seq(entries.seq().map_values(|kv: (&Pos, &Voxel)| *kv.0)),
            forall|q: Pos, i: int|
                #[trigger] seen.contains(q) && entries.index() <= i < entries.seq().len()
                    ==> lex_lt(q, *(#[trigger] entries.seq()[i]).0),
            forall|g: int|
                0 <= g < groups.len() ==> (#[trigger] groups[g]).positions.len() > 0
                    && is_ascending(groups[g].positions@),
            forall|g: int, h: int|
                0 <= g < h < groups.len() ==> lex_lt(
                    (#[trigger] groups[g]).positions[0],
                    (#[trigger] groups[h]).positions[0],
                ),
            forall|i: int|
                0 <= i < entries.seq().len() ==> voxels@.contains_key(
                    *(#[trigger] entries.seq()[i]).0,
                ) && voxels@[*entries.seq()[i].0] == *entries.seq()[i].1,
            forall|k: Pos| #[trigger]
                voxels@.contains_key(k) ==> entries.seq().contains((&k, &voxels@[k])),
            forall|i: int|
                0 <= i < entries.index() ==> seen.contains(*(#[trigger] entries.seq()[i]).0),
            forall|p: Pos| #[trigger] seen.contains(p) ==> store.contains_key(p),
            forall|g: int, p: Pos|
                0 <= g < groups.len() ==> ((#[trigger] groups[g]).positions@.contains(p)
                    <==> #[trigger] seen.contains(p) && store[p] == groups[g].label@),
            forall|g: int, h: int|
                0 <= g < h < groups.len() ==> (#[trigger] groups[g]).label@ != (
                #[trigger] groups[h]).label@,
            forall|p: Pos| #[trigger]
                seen.contains(p) ==> in_first_groups(
                    group_views(groups@),
                    groups.len() as int,
                    store[p],
                ),
            entries.index() == entries.seq().len() ==> is_grouping(store, group_views(groups@)),
    {
        let ghost before = groups@;
        let ghost known = seen;
        let p = *pos;
        assert(forall|q: Pos| known.contains(q) ==> lex_lt(q, p));
        assert(forall|i: int|
            entries.index() < i < entries.seq().len() ==> lex_lt(
                p,
                *(#[trigger] entries.seq()[i]).0,
            )) by {
            let keys = entries.seq().map_values(|kv: (&Pos, &Voxel)| *kv.0);
            lemma_increasing_is_lexicographic(keys);
            assert forall|i: int| entries.index() < i < entries.seq().len() implies lex_lt(
                p,
                *(#[trigger] entries.seq()[i]).0,
            ) by {
                assert(lex_lt(keys[entries.index()], keys[i]));
            }
        }
        let ghost found: int;
        match find_group(&groups, voxel) {
            Some(g) => {
                groups[g].positions.push(p);
                proof {
                    found = g as int;
                    lemma_push_contains(before[g as int].positions@, p);
                }
            },
            None => {
                let mut positions: Vec<Pos> = Vec::new();
                positions.push(p);
                groups.push(Group { label: voxel.clone(), positions });
                proof {
                    found = before.len() as int;
                    lemma_push_contains(Seq::<Pos>::empty(), p);
                    assert forall|q: Pos| known.contains(q) implies store[q] != voxel@ by {
                        reveal(in_first_groups);
                    }
                }
            },
        }
        proof {
            seen = seen.insert(p);
            let now = group_views(groups@);
            assert forall|g: int, q: Pos| 0 <= g < groups.len() implies ((
            #[trigger] groups[g]).positions@.contains(q) <==> #[trigger] seen.contains(q)
                && store[q] == groups[g].label@) by {
                if g < before.len() {
                    assert(before[g].positions@.contains(q) <==> known.contains(q) && store[q]
                        == before[g].label@);
                    if g != found {
                        assert(groups[g].label@ != groups[found].label@);
                    }
                }
            }
            assert forall|q: Pos| #[trigger] seen.contains(q) implies in_first_groups(
                now,
                groups.len() as int,
                store[q],
            ) by {
                reveal(in_first_groups);
                if known.contains(q) {
                    let g = choose|g: int|
                        0 <= g < before.len() && (#[trigger] group_views(before)[g]).label
                            == store[q];
                    assert(now[g].label == store[q]);
                } else {
                    assert(now[found].label == store[q]);
                }
            }
        }
        assert(forall|i: int|
            0 <= i < entries.index() + 1 ==> seen.contains(*(#[trigger] entries.seq()[i]).0));
        assert(entries.index() + 1 == entries.seq().len() ==> is_grouping(
            store,
            group_views(groups@),
        )) by {
            let now = group_views(groups@);
            assert forall|g: int|
                entries.index() + 1 == entries.seq().len() && 0 <= g < now.len() implies (
            #[trigger] now[g]).positions.to_set() == label_cells(store, now[g].label) by {
                assert forall|q: Pos|
                    now[g].positions.to_set().contains(q) <==> label_cells(
                        store,
                        now[g].label,
                    ).contains(q) by {
                    assert(groups[g].positions@.contains(q) <==> seen.contains(q) && store[q]
                        == groups[g].label@);
                }
            }
        }
    }
    proof {
        lemma_grouping_is_unique(store, group_views(groups@), grouping(store));
    }
    groups
}

/// The store that holds a voxel of the label of `label` at each position
/// of `clump`.
fn component_store(clump: &Vec<Pos>, label: &Voxel) -> (part: BTreeMap<Pos, Voxel>)
    ensures
        store_view(part@) == labelled(clump@.to_set(), label@),
{
    let mut part: BTreeMap<Pos, Voxel> = BTreeMap::new();
    for i in 0..clump.len()
        invariant
            forall|p: Pos|
                part@.contains_key(p) <==> exists|h: int| 0 <= h < i && #[trigger] clump[h] == p,
            forall|p: Pos| #[trigger] part@.contains_key(p) ==> part@[p]@ == label@,
    {
        part.insert(clump[i], label.clone());
    }
    part
}

/// Splits the positions of one label into their components, each as a
/// store of its own.
pub fn split_group(group: &Group) -> (parts: Vec<BTreeMap<Pos, Voxel>>)
    ensures
        part_views(parts@) == group_split(group.positions@, group.label@),
        is_group_split(group.positions@, group.label@, part_views(parts@)),
{
    let clumps = flood(&group.positions);
    let mut parts: Vec<BTreeMap<Pos, Voxel>> = Vec::new();
    let ghost found = clump_views(clumps@);
    for k in 0..clumps.len()
        invariant
            found == clump_views(clumps@),
            parts.len() == k,
            forall|h: int|
                0 <= h < k ==> store_view((#[trigger] parts[h])@) == labelled(
                    found[h].to_set(),
                    group.label@,
                ),
    {
        let part = component_store(&clumps[k], &group.label);
        parts.push(part);
    }
    proof {
        assert(part_views(parts@) =~= found.map_values(
            |clump: Seq<Pos>| labelled(clump.to_set(), group.label@),
        ));
    }
    parts
}

/// The elements of the lists, put together in their order.
fn concat<T>(lists: Vec<Vec<T>>) -> (flat: Vec<T>)
    ensures
        flat@ == lists@.map_values(|list: Vec<T>| list@).flatten(),
{
    let mut lists = lists;
    let mut flat: Vec<T> = Vec::new();
    let ghost given = lists@.map_values(|list: Vec<T>| list@);
    let n = lists.len();
    for i in 0..n
        invariant
            lists.len() == n,
            given.len() == n,
            flat@ == given.take(i as int).flatten(),
            forall|h: int| i <= h < n ==> (#[trigger] lists[h])@ == given[h],
    {
        flat.append(&mut lists[i]);
        proof {
            assert(given.take(i + 1) =~= given.take(i as int).push(given[i as int]));
            given.take(i as int).lemma_flatten_push(given[i as int]);
        }
    }
    proof {
        assert(given.take(n as int) =~= given);
    }
    flat
}

/// Mapping the elements of lists put together gives the mapped lists put
/// together.
proof fn lemma_map_values_flatten<A, B>(lists: Seq<Seq<A>>, f: spec_fn(A) -> B)
    ensures
        lists.flatten().map_values(f) == lists.map_values(
            |list: Seq<A>| list.map_values(f),
        ).flatten(),
    decreases lists.len(),
{
    let mapped = lists.map_values(|list: Seq<A>| list.map_values(f));
    if lists.len() > 0 {
        let front = lists.drop_last();
        let last = lists.last();
        lemma_map_values_flatten(front, f);
        assert(lists =~= front.push(last));
        front.lemma_flatten_push(last);
        let mapped_front = front.map_values(|list: Seq<A>| list.map_values(f));
        assert(mapped =~= mapped_front.push(last.map_values(f)));
        mapped_front.lemma_flatten_push(last.map_values(f));
    }
}

/// The best meshings of the stores `parts`, one after the other.
pub open spec fn best_meshings(parts: Seq<Map<Pos, VoxelView>>) -> Seq<BoxView> {
    parts.map_values(|part: Map<Pos, VoxelView>| best_meshing(part)).flatten()
}

/// The boxes for the store: the best meshings of its components. The
/// components of one label stand together, in the order in which the
/// flood fill finds them, and the labels stand in the order of their first
/// positions.
pub open spec fn best_boxes(store: Map<Pos, VoxelView>) -> Seq<BoxView> {
    best_meshings(store_parts(grouping(store)))
}

/// The boxes for the whole store: the store is split into its components,
/// the largest face-connected sets of voxels of one label (identity and
/// properties), and each component is meshed on its own by
/// `mesh_component`.
///
/// The components of one label stand together, in the order in which the
/// flood fill finds them from the positions of the label in lexicographic
/// order; the labels stand in the order of their first positions. The
/// boxes of a component stand together, in the order the grower gave them.
/// The boxes cover the positions of the store and no others, no two of
/// them share a cell, and each holds only voxels of its own label.
pub fn best_greedy(voxels: &BTreeMap<Pos, Voxel>) -> (boxes: Vec<Box>)
    ensures
        box_views(boxes@) == best_boxes(store_view(voxels@)),
        is_grouping(store_view(voxels@), grouping(store_view(voxels@))),
        is_component_split(store_view(voxels@), store_parts(grouping(store_view(voxels@)))),
        forall|p: Pos| voxels@.contains_key(p) <==> covered(box_views(boxes@), p),
        forall|i: int, j: int|
            0 <= i < j < boxes.len() ==> !(#[trigger] boxes[i])@.meets((#[trigger] boxes[j])@),
        forall|i: int, p: Pos|
            0 <= i < boxes.len() && #[trigger] boxes[i]@.covers(p) ==> voxels@.contains_key(p)
                && voxels@[p]@.id == boxes[i].id@ && voxels@[p]@.properties
                == boxes[i].properties@,
        forall|i: int| 0 <= i < boxes.len() ==> (#[trigger] boxes[i])@.well_formed(),
{
    let ghost store = store_view(voxels@);
    let groups = group_by_label(voxels);
    let split = |group: &Group| -> (parts: Vec<BTreeMap<Pos, Voxel>>)
        ensures
            part_views(parts@) == group_split(group.positions@, group.label@),
            is_group_split(group.positions@, group.label@, part_views(parts@)),
        { split_group(group) };
    let per_group = par_map(&groups, split);
    let ghost splits = per_group@.map_values(|parts: Vec<BTreeMap<Pos, Voxel>>| part_views(parts@));
    let clumps = concat(per_group);
    let ghost parts = part_views(clumps@);
    proof {
        let raw = per_group@.map_values(|parts: Vec<BTreeMap<Pos, Voxel>>| parts@);
        lemma_map_values_flatten(raw, |part: BTreeMap<Pos, Voxel>| store_view(part@));
        assert(splits =~= raw.map_values(
            |list: Seq<BTreeMap<Pos, Voxel>>|
                list.map_values(|part: BTreeMap<Pos, Voxel>| store_view(part@)),
        ));
        let views = group_views(groups@);
        lemma_group_splits_are_component_split(store, views, splits);
        assert(splits =~= views.map_values(
            |group: GroupView| group_split(group.positions, group.label),
        ));
    }
    let mesh = |clump: &BTreeMap<Pos, Voxel>| -> (meshed: Vec<Box>)
        ensures
            box_views(meshed@) == best_meshing(store_view(clump@)),
            is_some_meshing(store_view(clump@), box_views(meshed@)),
        { mesh_component(clump) };
    let per_clump = par_map(&clumps, mesh);
    let ghost pieces = candidate_views(per_clump@);
    let boxes = concat(per_clump);
    proof {
        let raw = per_clump@.map_values(|list: Vec<Box>| list@);
        lemma_map_values_flatten(raw, |b: Box| b@);
        assert(pieces =~= raw.map_values(|list: Seq<Box>| list.map_values(|b: Box| b@)));
        let views = box_views(boxes@);
        assert(pieces =~= parts.map_values(|part: Map<Pos, VoxelView>| best_meshing(part)));
        lemma_component_meshes_partition(store, parts, pieces);
        assert forall|i: int, j: int| 0 <= i < j < boxes.len() implies !(
        #[trigger] boxes[i])@.meets((#[trigger] boxes[j])@) by {
            assert(!views[i].meets(views[j]));
        }
        assert forall|i: int, p: Pos|
            0 <= i < boxes.len() && #[trigger] boxes[i]@.covers(p) implies voxels@.contains_key(p)
            && voxels@[p]@.id == boxes[i].id@ && voxels@[p]@.properties
            == boxes[i].properties@ by {
            assert(views[i].covers(p));
        }
        assert forall|i: int| 0 <= i < boxes.len() implies (#[trigger] boxes[i])@.well_formed() by {
            assert(views[i].well_formed());
        }
    }
    boxes
}

} // verus!
