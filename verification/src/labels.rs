//! The components of a labelled store: the largest sets of voxels of one
//! exact label that are connected over shared faces.

use vstd::prelude::*;
use crate::components::{lemma_components_are_disjoint, lemma_components_cover};
use crate::connectivity::{connected, lemma_connected_within};
use crate::flood::{components, is_component, is_flood_result};
use crate::lattice::{lex_lt, Pos};
use crate::voxel::VoxelView;

verus! {

/// The positions of the store that carry `label`, identity and properties.
pub open spec fn label_cells(store: Map<Pos, VoxelView>, label: VoxelView) -> Set<Pos> {
    Set::new(|p: Pos| store.contains_key(p) && store[p] == label)
}

/// The component of the voxel at `seed`: the voxels that a walk from `seed`
/// reaches through voxels of the label of `seed`.
pub open spec fn component_at(store: Map<Pos, VoxelView>, seed: Pos) -> Map<Pos, VoxelView> {
    Map::new(
        |p: Pos| connected(label_cells(store, store[seed]), seed, p),
        |p: Pos| store[seed],
    )
}

/// `part` is the component of some voxel of the store.
pub open spec fn is_label_component(store: Map<Pos, VoxelView>, part: Map<Pos, VoxelView>) -> bool {
    exists|seed: Pos| store.contains_key(seed) && part == #[trigger] component_at(store, seed)
}

/// One of the first `n` parts holds the position `p`.
#[verifier::opaque]
pub open spec fn in_first_parts(parts: Seq<Map<Pos, VoxelView>>, n: int, p: Pos) -> bool {
    exists|k: int| 0 <= k < n && k < parts.len() && (#[trigger] parts[k]).contains_key(p)
}

/// `parts` are the components of the store, each once.
pub open spec fn is_component_split(
    store: Map<Pos, VoxelView>,
    parts: Seq<Map<Pos, VoxelView>>,
) -> bool {
    &&& forall|k: int| 0 <= k < parts.len() ==> is_label_component(store, #[trigger] parts[k])
    &&& forall|j: int, k: int|
        0 <= j < k < parts.len() ==> (#[trigger] parts[j]).dom().disjoint(
            (#[trigger] parts[k]).dom(),
        )
    &&& forall|p: Pos| #[trigger]
        store.contains_key(p) ==> in_first_parts(parts, parts.len() as int, p)
}

/// A position of one of the first `n` parts is in one of them.
pub proof fn lemma_in_first_parts(parts: Seq<Map<Pos, VoxelView>>, n: int, k: int, p: Pos)
    requires
        0 <= k < n,
        k < parts.len(),
        parts[k].contains_key(p),
    ensures
        in_first_parts(parts, n, p),
{
    reveal(in_first_parts);
}

/// The index of one of the first `n` parts that holds `p`.
pub proof fn lemma_part_index(parts: Seq<Map<Pos, VoxelView>>, n: int, p: Pos) -> (k: int)
    requires
        in_first_parts(parts, n, p),
    ensures
        0 <= k < n,
        k < parts.len(),
        parts[k].contains_key(p),
{
    reveal(in_first_parts);
    choose|k: int| 0 <= k < n && k < parts.len() && (#[trigger] parts[k]).contains_key(p)
}

/// A component holds voxels of the store only, each with the label it has
/// in the store, and all with one label.
pub proof fn lemma_component_agrees_with_store(
    store: Map<Pos, VoxelView>,
    part: Map<Pos, VoxelView>,
    p: Pos,
    q: Pos,
)
    requires
        is_label_component(store, part),
        part.contains_key(p),
        part.contains_key(q),
    ensures
        store.contains_key(p),
        store[p] == part[p],
        part[p] == part[q],
{
    let seed = choose|seed: Pos| store.contains_key(seed) && part == #[trigger] component_at(
        store,
        seed,
    );
    lemma_connected_within(label_cells(store, store[seed]), seed, p);
}

/// The voxels of one label: the label and the positions that carry it.
pub struct GroupView {
    pub label: VoxelView,
    pub positions: Seq<Pos>,
}

/// One of the first `n` groups has the label `label`.
#[verifier::opaque]
pub open spec fn in_first_groups(groups: Seq<GroupView>, n: int, label: VoxelView) -> bool {
    exists|g: int| 0 <= g < n && g < groups.len() && (#[trigger] groups[g]).label == label
}

/// The positions stand in lexicographic order, none twice.
pub open spec fn is_ascending(positions: Seq<Pos>) -> bool {
    forall|i: int, j: int|
        0 <= i < j < positions.len() ==> lex_lt(#[trigger] positions[i], #[trigger] positions[j])
}

/// `groups` sorts the positions of the store by label: each label of the
/// store has one group, which lists the positions that carry it in
/// lexicographic order. The groups stand in the order of their first
/// positions.
pub open spec fn is_grouping(store: Map<Pos, VoxelView>, groups: Seq<GroupView>) -> bool {
    &&& forall|g: int|
        0 <= g < groups.len() ==> (#[trigger] groups[g]).positions.to_set() == label_cells(
            store,
            groups[g].label,
        )
    &&& forall|g: int|
        0 <= g < groups.len() ==> (#[trigger] groups[g]).positions.len() > 0 && is_ascending(
            groups[g].positions,
        )
    &&& forall|g: int, h: int|
        0 <= g < h < groups.len() ==> lex_lt(
            (#[trigger] groups[g]).positions[0],
            (#[trigger] groups[h]).positions[0],
        )
    &&& forall|g: int, h: int|
        0 <= g < h < groups.len() ==> (#[trigger] groups[g]).label != (#[trigger] groups[h]).label
    &&& forall|p: Pos| #[trigger]
        store.contains_key(p) ==> in_first_groups(groups, groups.len() as int, store[p])
}

/// The grouping of the store.
pub open spec fn grouping(store: Map<Pos, VoxelView>) -> Seq<GroupView> {
    choose|groups: Seq<GroupView>| is_grouping(store, groups)
}

/// The store that holds `label` at each position of `cells`.
pub open spec fn labelled(cells: Set<Pos>, label: VoxelView) -> Map<Pos, VoxelView> {
    Map::new(|p: Pos| cells.contains(p), |p: Pos| label)
}

/// The components of `positions`, each as a store of voxels of the label
/// `label`.
pub open spec fn group_split(positions: Seq<Pos>, label: VoxelView) -> Seq<Map<Pos, VoxelView>> {
    components(positions).map_values(|clump: Seq<Pos>| labelled(clump.to_set(), label))
}

/// The components of all groups, each as a store, group after group.
pub open spec fn store_parts(groups: Seq<GroupView>) -> Seq<Map<Pos, VoxelView>> {
    groups.map_values(|group: GroupView| group_split(group.positions, group.label)).flatten()
}

/// `parts` are the components of `positions`, each as a store of voxels of
/// the label `label`.
pub open spec fn is_group_split(
    positions: Seq<Pos>,
    label: VoxelView,
    parts: Seq<Map<Pos, VoxelView>>,
) -> bool {
    exists|clumps: Seq<Seq<Pos>>| #[trigger]
        is_flood_result(positions, clumps) && parts == clumps.map_values(
            |clump: Seq<Pos>| labelled(clump.to_set(), label),
        )
}

/// What holds of the components of the first `n` groups, put together:
/// each is a component of the store, no two share a position, and they
/// hold the voxels whose label is that of one of these groups.
spec fn splits_first_groups(
    store: Map<Pos, VoxelView>,
    groups: Seq<GroupView>,
    n: int,
    parts: Seq<Map<Pos, VoxelView>>,
) -> bool {
    &&& forall|k: int| 0 <= k < parts.len() ==> is_label_component(store, #[trigger] parts[k])
    &&& forall|j: int, k: int|
        0 <= j < k < parts.len() ==> (#[trigger] parts[j]).dom().disjoint(
            (#[trigger] parts[k]).dom(),
        )
    &&& forall|p: Pos| #[trigger]
        in_first_parts(parts, parts.len() as int, p) <==> store.contains_key(p) && in_first_groups(
            groups,
            n,
            store[p],
        )
}

proof fn lemma_first_group_splits(
    store: Map<Pos, VoxelView>,
    groups: Seq<GroupView>,
    splits: Seq<Seq<Map<Pos, VoxelView>>>,
    n: int,
)
    requires
        is_grouping(store, groups),
        splits.len() == groups.len(),
        forall|g: int|
            0 <= g < groups.len() ==> is_group_split(
                groups[g].positions,
                groups[g].label,
                #[trigger] splits[g],
            ),
        0 <= n <= groups.len(),
    ensures
        splits_first_groups(store, groups, n, splits.take(n).flatten()),
    decreases n,
{
    reveal(in_first_groups);
    if n == 0 {
        let none = splits.take(0).flatten();
        assert forall|p: Pos| #[trigger]
            in_first_parts(none, none.len() as int, p) <==> store.contains_key(p)
                && in_first_groups(groups, 0, store[p]) by {
            if in_first_parts(none, 0, p) {
                lemma_part_index(none, 0, p);
            }
        }
    } else {
        lemma_first_group_splits(store, groups, splits, n - 1);
        let before = splits.take(n - 1).flatten();
        let added = splits[n - 1];
        let all = splits.take(n).flatten();
        assert(splits.take(n) =~= splits.take(n - 1).push(added));
        splits.take(n - 1).lemma_flatten_push(added);
        let group = groups[n - 1];
        let cells = group.positions.to_set();
        let clumps = choose|clumps: Seq<Seq<Pos>>| #[trigger]
            is_flood_result(group.positions, clumps) && added == clumps.map_values(
                |clump: Seq<Pos>| labelled(clump.to_set(), group.label),
            );
        assert forall|k: int| 0 <= k < added.len() implies is_label_component(
            store,
            #[trigger] added[k],
        ) && added[k].dom() =~= clumps[k].to_set() && added[k].dom().subset_of(cells) by {
            let seed = clumps[k][0];
            assert(clumps[k].contains(seed));
            lemma_connected_within(cells, seed, seed);
            assert(added[k] =~= component_at(store, seed));
            assert forall|p: Pos| added[k].dom().contains(p) implies cells.contains(p) by {
                lemma_connected_within(cells, seed, p);
            }
        }
        assert forall|p: Pos| #[trigger]
            in_first_parts(all, all.len() as int, p) <==> store.contains_key(p) && in_first_groups(
                groups,
                n,
                store[p],
            ) by {
            if in_first_parts(all, all.len() as int, p) {
                let k = lemma_part_index(all, all.len() as int, p);
                if k < before.len() {
                    lemma_in_first_parts(before, before.len() as int, k, p);
                }
            }
            if store.contains_key(p) && in_first_groups(groups, n, store[p]) {
                let g = choose|g: int|
                    0 <= g < n && g < groups.len() && (#[trigger] groups[g]).label == store[p];
                if g < n - 1 {
                    let k = lemma_part_index(before, before.len() as int, p);
                    lemma_in_first_parts(all, all.len() as int, k, p);
                } else {
                    assert(cells.contains(p));
                    lemma_components_cover(group.positions, clumps, p);
                    let k = choose|k: int|
                        0 <= k < clumps.len() && (#[trigger] clumps[k]).contains(p);
                    lemma_in_first_parts(all, all.len() as int, before.len() + k, p);
                }
            }
        }
        assert forall|j: int, k: int| 0 <= j < k < all.len() implies (
        #[trigger] all[j]).dom().disjoint((#[trigger] all[k]).dom()) by {
            assert forall|p: Pos| !(all[j].dom().contains(p) && all[k].dom().contains(p)) by {
                if all[j].dom().contains(p) && all[k].dom().contains(p) {
                    if j >= before.len() {
                        let a = j - before.len();
                        let b = k - before.len();
                        lemma_components_are_disjoint(group.positions, clumps, a, b, p);
                    } else if k >= before.len() {
                        lemma_in_first_parts(before, before.len() as int, j, p);
                    }
                }
            }
        }
    }
}

/// The components of the groups of a store, put together, are the
/// components of the store.
pub proof fn lemma_group_splits_are_component_split(
    store: Map<Pos, VoxelView>,
    groups: Seq<GroupView>,
    splits: Seq<Seq<Map<Pos, VoxelView>>>,
)
    requires
        is_grouping(store, groups),
        splits.len() == groups.len(),
        forall|g: int|
            0 <= g < groups.len() ==> is_group_split(
                groups[g].positions,
                groups[g].label,
                #[trigger] splits[g],
            ),
    ensures
        is_component_split(store, splits.flatten()),
{
    let n = groups.len() as int;
    lemma_first_group_splits(store, groups, splits, n);
    assert(splits.take(n) =~= splits);
}

/// Two ascending lists of the same positions are the same list.
pub proof fn lemma_ascending_is_unique(x: Seq<Pos>, y: Seq<Pos>)
    requires
        is_ascending(x),
        is_ascending(y),
        x.to_set() == y.to_set(),
    ensures
        x == y,
    decreases x.len(),
{
    if x.len() == 0 {
        if y.len() > 0 {
            assert(y.to_set().contains(y[0]));
        }
    } else {
        let top = x.last();
        assert(x.to_set().contains(top));
        let at = choose|i: int| 0 <= i < y.len() && y[i] == top;
        if at < y.len() - 1 {
            let above = y.last();
            assert(y.to_set().contains(above));
        }
        let x_front = x.drop_last();
        let y_front = y.drop_last();
        assert forall|p: Pos| x_front.to_set().contains(p) <==> y_front.to_set().contains(p) by {
            if x_front.contains(p) {
                let i = choose|i: int| 0 <= i < x_front.len() && x_front[i] == p;
                assert(x.to_set().contains(x[i]));
                let j = choose|j: int| 0 <= j < y.len() && y[j] == p;
                assert(y_front[j] == p);
            }
            if y_front.contains(p) {
                let j = choose|j: int| 0 <= j < y_front.len() && y_front[j] == p;
                assert(y.to_set().contains(y[j]));
                let i = choose|i: int| 0 <= i < x.len() && x[i] == p;
                assert(x_front[i] == p);
            }
        }
        assert(x_front.to_set() =~= y_front.to_set());
        lemma_ascending_is_unique(x_front, y_front);
        assert(y =~= y_front.push(top));
    }
}

/// A group starts at the least position of its label.
proof fn lemma_group_starts_at_least(
    store: Map<Pos, VoxelView>,
    groups: Seq<GroupView>,
    g: int,
    p: Pos,
)
    requires
        is_grouping(store, groups),
        0 <= g < groups.len(),
        store.contains_key(p),
        store[p] == groups[g].label,
    ensures
        store.contains_key(groups[g].positions[0]),
        store[groups[g].positions[0]] == groups[g].label,
        p == groups[g].positions[0] || lex_lt(groups[g].positions[0], p),
{
    let list = groups[g].positions;
    assert(list.to_set().contains(list[0]));
    assert(label_cells(store, groups[g].label).contains(p));
}

/// Two groupings of one store agree on their first `k` groups.
proof fn lemma_groupings_share_prefix(
    store: Map<Pos, VoxelView>,
    a: Seq<GroupView>,
    b: Seq<GroupView>,
    k: int,
)
    requires
        is_grouping(store, a),
        is_grouping(store, b),
        0 <= k <= a.len(),
        k <= b.len(),
    ensures
        a.take(k) == b.take(k),
    decreases k,
{
    reveal(in_first_groups);
    if k > 0 {
        lemma_groupings_share_prefix(store, a, b, k - 1);
        let n = k - 1;
        let fa = a[n].positions[0];
        let fb = b[n].positions[0];
        assert(label_cells(store, a[n].label).contains(fa));
        assert(label_cells(store, b[n].label).contains(fb));
        let h = choose|h: int| 0 <= h < b.len() && (#[trigger] b[h]).label == store[fa];
        let i = choose|i: int| 0 <= i < a.len() && (#[trigger] a[i]).label == store[fb];
        if h < n {
            assert(a.take(n)[h] == b.take(n)[h]);
        }
        if i < n {
            assert(a.take(n)[i] == b.take(n)[i]);
        }
        lemma_ascending_is_unique(a[n].positions, b[n].positions);
    }
}

/// A store has one grouping.
pub proof fn lemma_grouping_is_unique(
    store: Map<Pos, VoxelView>,
    a: Seq<GroupView>,
    b: Seq<GroupView>,
)
    requires
        is_grouping(store, a),
        is_grouping(store, b),
    ensures
        a == b,
{
    reveal(in_first_groups);
    let k = if a.len() <= b.len() { a.len() as int } else { b.len() as int };
    lemma_groupings_share_prefix(store, a, b, k);
    assert(b.take(b.len() as int) =~= b);
    if a.len() < b.len() {
        let first = b[k].positions[0];
        assert(label_cells(store, b[k].label).contains(first));
        let h = choose|h: int| 0 <= h < a.len() && (#[trigger] a[h]).label == store[first];
        assert(b[h].label != b[k].label);
    } else if b.len() < a.len() {
        let first = a[k].positions[0];
        assert(label_cells(store, a[k].label).contains(first));
    }
}

} // verus!
