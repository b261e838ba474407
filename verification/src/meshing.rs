//! What holds of every list of boxes that the greedy grower can return.

use vstd::prelude::*;
use crate::cuboid::BoxView;
use crate::greedy::{
    axis, claimable, covered, grow, grow_axis, is_greedy_meshing, is_next_box, lemma_covered_by,
    lemma_covering_box, may_extend, step, GreedyDirection,
};
use crate::labels::{
    in_first_parts, is_component_split, lemma_component_agrees_with_store, lemma_in_first_parts,
    lemma_part_index,
};
use crate::lattice::{in_range, lex_lt, Pos};
use crate::voxel::VoxelView;

verus! {

/// Stretching a claimable box along one axis leaves it claimable, and its
/// far corner does not move back.
pub proof fn lemma_grow_axis_claimable(
    store: Map<Pos, VoxelView>,
    prior: Seq<BoxView>,
    id: Seq<char>,
    min: Pos,
    max: Pos,
    dir: GreedyDirection,
)
    requires
        claimable(store, prior, id, min, max),
        in_range(min, max, min),
    ensures
        claimable(store, prior, id, min, grow_axis(store, prior, id, min, max, dir)),
        in_range(min, grow_axis(store, prior, id, min, max, dir), max),
    decreases usize::MAX - axis(max, dir),
{
    if may_extend(store, prior, id, min, max, dir) {
        lemma_grow_axis_claimable(store, prior, id, min, step(max, dir), dir);
    }
}

/// A box that has been stretched along an axis cannot take another layer
/// of cells on that axis.
pub proof fn lemma_grow_axis_is_maximal(
    store: Map<Pos, VoxelView>,
    prior: Seq<BoxView>,
    id: Seq<char>,
    min: Pos,
    max: Pos,
    dir: GreedyDirection,
)
    ensures
        !may_extend(store, prior, id, min, grow_axis(store, prior, id, min, max, dir), dir),
    decreases usize::MAX - axis(max, dir),
{
    if may_extend(store, prior, id, min, max, dir) {
        lemma_grow_axis_is_maximal(store, prior, id, min, step(max, dir), dir);
    }
}

/// The box grown from an uncovered voxel holds only voxels of the seed's
/// identity that no earlier box covers, the seed among them.
pub proof fn lemma_grow_claimable(
    store: Map<Pos, VoxelView>,
    prior: Seq<BoxView>,
    id: Seq<char>,
    min: Pos,
    dirs: Seq<GreedyDirection>,
)
    requires
        store.contains_key(min),
        store[min].id == id,
        !covered(prior, min),
    ensures
        claimable(store, prior, id, min, grow(store, prior, id, min, dirs)),
        in_range(min, grow(store, prior, id, min, dirs), min),
    decreases dirs.len(),
{
    if dirs.len() > 0 {
        lemma_grow_claimable(store, prior, id, min, dirs.drop_last());
        lemma_grow_axis_claimable(
            store,
            prior,
            id,
            min,
            grow(store, prior, id, min, dirs.drop_last()),
            dirs.last(),
        );
    }
}

/// Every box of a meshing is well formed, starts at a voxel and carries the
/// label of that voxel.
pub proof fn lemma_meshing_boxes_are_seeded(
    store: Map<Pos, VoxelView>,
    dirs: Seq<GreedyDirection>,
    boxes: Seq<BoxView>,
)
    requires
        is_greedy_meshing(store, dirs, boxes),
    ensures
        forall|i: int|
            0 <= i < boxes.len() ==> {
                &&& (#[trigger] boxes[i]).well_formed()
                &&& store.contains_key(boxes[i].min)
                &&& store[boxes[i].min].id == boxes[i].id
                &&& store[boxes[i].min].properties == boxes[i].properties
            },
{
    assert forall|i: int| 0 <= i < boxes.len() implies {
        &&& (#[trigger] boxes[i]).well_formed()
        &&& store.contains_key(boxes[i].min)
        &&& store[boxes[i].min].id == boxes[i].id
        &&& store[boxes[i].min].properties == boxes[i].properties
    } by {
        lemma_grow_claimable(store, boxes.take(i), boxes[i].id, boxes[i].min, dirs);
    }
}

/// The cells of the boxes of a meshing are exactly the positions of the
/// store.
pub proof fn lemma_meshing_covers(
    store: Map<Pos, VoxelView>,
    dirs: Seq<GreedyDirection>,
    boxes: Seq<BoxView>,
)
    requires
        is_greedy_meshing(store, dirs, boxes),
    ensures
        forall|p: Pos| store.contains_key(p) <==> covered(boxes, p),
{
    assert forall|p: Pos| covered(boxes, p) implies store.contains_key(p) by {
        let i = lemma_covering_box(boxes, p);
        lemma_grow_claimable(store, boxes.take(i), boxes[i].id, boxes[i].min, dirs);
    }
}

/// No two boxes of a meshing share a cell.
pub proof fn lemma_meshing_is_disjoint(
    store: Map<Pos, VoxelView>,
    dirs: Seq<GreedyDirection>,
    boxes: Seq<BoxView>,
)
    requires
        is_greedy_meshing(store, dirs, boxes),
    ensures
        forall|i: int, j: int|
            0 <= i < j < boxes.len() ==> !(#[trigger] boxes[i]).meets(#[trigger] boxes[j]),
{
    assert forall|i: int, j: int| 0 <= i < j < boxes.len() implies !(#[trigger] boxes[i]).meets(
        #[trigger] boxes[j],
    ) by {
        if boxes[i].meets(boxes[j]) {
            let p = choose|p: Pos| boxes[i].covers(p) && boxes[j].covers(p);
            lemma_grow_claimable(store, boxes.take(j), boxes[j].id, boxes[j].min, dirs);
            lemma_covered_by(boxes.take(j), i, p);
        }
    }
}

/// Every cell of a box of a meshing is a voxel whose identity is that of
/// the box.
pub proof fn lemma_meshing_is_uniform(
    store: Map<Pos, VoxelView>,
    dirs: Seq<GreedyDirection>,
    boxes: Seq<BoxView>,
)
    requires
        is_greedy_meshing(store, dirs, boxes),
    ensures
        forall|i: int, p: Pos|
            0 <= i < boxes.len() && #[trigger] boxes[i].covers(p) ==> store.contains_key(p)
                && store[p].id == boxes[i].id,
{
    assert forall|i: int, p: Pos|
        0 <= i < boxes.len() && #[trigger] boxes[i].covers(p) implies store.contains_key(p)
        && store[p].id == boxes[i].id by {
        lemma_grow_claimable(store, boxes.take(i), boxes[i].id, boxes[i].min, dirs);
    }
}

/// Two meshings of one store under one axis order agree on their first
/// `k` boxes.
proof fn lemma_meshings_share_prefix(
    store: Map<Pos, VoxelView>,
    dirs: Seq<GreedyDirection>,
    a: Seq<BoxView>,
    b: Seq<BoxView>,
    k: int,
)
    requires
        is_greedy_meshing(store, dirs, a),
        is_greedy_meshing(store, dirs, b),
        0 <= k <= a.len(),
        k <= b.len(),
    ensures
        a.take(k) == b.take(k),
    decreases k,
{
    if k > 0 {
        lemma_meshings_share_prefix(store, dirs, a, b, k - 1);
    }
}

/// A store and an axis order have one meshing, box for box and in one
/// order: the grower gives the same list whenever it is run on them.
pub proof fn lemma_meshing_is_unique(
    store: Map<Pos, VoxelView>,
    dirs: Seq<GreedyDirection>,
    a: Seq<BoxView>,
    b: Seq<BoxView>,
)
    requires
        is_greedy_meshing(store, dirs, a),
        is_greedy_meshing(store, dirs, b),
    ensures
        a == b,
{
    let k = if a.len() <= b.len() { a.len() as int } else { b.len() as int };
    lemma_meshings_share_prefix(store, dirs, a, b, k);
    assert(a.take(a.len() as int) =~= a);
    assert(b.take(b.len() as int) =~= b);
    if a.len() < b.len() {
        let extra = b[k];
    } else if b.len() < a.len() {
        let extra = a[k];
    }
}

/// A position is covered by two lists put together when one of them covers
/// it.
pub proof fn lemma_covered_by_either(a: Seq<BoxView>, b: Seq<BoxView>, p: Pos)
    ensures
        covered(a + b, p) <==> covered(a, p) || covered(b, p),
{
    if covered(a + b, p) {
        let i = lemma_covering_box(a + b, p);
        if i < a.len() {
            lemma_covered_by(a, i, p);
        } else {
            lemma_covered_by(b, i - a.len(), p);
        }
    }
    if covered(a, p) {
        let i = lemma_covering_box(a, p);
        lemma_covered_by(a + b, i, p);
    }
    if covered(b, p) {
        let i = lemma_covering_box(b, p);
        lemma_covered_by(a + b, a.len() + i, p);
    }
}

/// `boxes` is a meshing of `store` under some axis order.
pub open spec fn is_some_meshing(store: Map<Pos, VoxelView>, boxes: Seq<BoxView>) -> bool {
    exists|dirs: Seq<GreedyDirection>| is_greedy_meshing(store, dirs, boxes)
}

/// The boxes of `boxes` cover the positions of the first `n` parts and no
/// others, no two of them share a cell, and each holds only voxels that
/// carry its label, identity and properties.
pub open spec fn partitions_first_parts(
    store: Map<Pos, VoxelView>,
    parts: Seq<Map<Pos, VoxelView>>,
    n: int,
    boxes: Seq<BoxView>,
) -> bool {
    &&& forall|p: Pos| #[trigger] covered(boxes, p) <==> in_first_parts(parts, n, p)
    &&& forall|i: int, j: int|
        0 <= i < j < boxes.len() ==> !(#[trigger] boxes[i]).meets(#[trigger] boxes[j])
    &&& forall|i: int, p: Pos|
        0 <= i < boxes.len() && #[trigger] boxes[i].covers(p) ==> {
            &&& store.contains_key(p)
            &&& store[p].id == boxes[i].id
            &&& store[p].properties == boxes[i].properties
        }
    &&& forall|i: int| 0 <= i < boxes.len() ==> (#[trigger] boxes[i]).well_formed()
}

/// The meshings of the first `n` components, put together, partition the
/// voxels of these components.
proof fn lemma_first_meshes_partition(
    store: Map<Pos, VoxelView>,
    parts: Seq<Map<Pos, VoxelView>>,
    pieces: Seq<Seq<BoxView>>,
    n: int,
)
    requires
        is_component_split(store, parts),
        pieces.len() == parts.len(),
        forall|k: int| 0 <= k < parts.len() ==> is_some_meshing(parts[k], #[trigger] pieces[k]),
        0 <= n <= parts.len(),
    ensures
        partitions_first_parts(store, parts, n, pieces.take(n).flatten()),
    decreases n,
{
    if n == 0 {
        let none = pieces.take(0).flatten();
        assert forall|p: Pos| #[trigger] covered(none, p) <==> in_first_parts(parts, 0, p) by {
            if covered(none, p) {
                lemma_covering_box(none, p);
            }
            if in_first_parts(parts, 0, p) {
                lemma_part_index(parts, 0, p);
            }
        }
    } else {
        lemma_first_meshes_partition(store, parts, pieces, n - 1);
        let before = pieces.take(n - 1).flatten();
        let piece = pieces[n - 1];
        let part = parts[n - 1];
        let all = pieces.take(n).flatten();
        assert(pieces.take(n) =~= pieces.take(n - 1).push(piece));
        pieces.take(n - 1).lemma_flatten_push(piece);
        let dirs = choose|dirs: Seq<GreedyDirection>| is_greedy_meshing(part, dirs, piece);
        lemma_meshing_covers(part, dirs, piece);
        lemma_meshing_is_disjoint(part, dirs, piece);
        lemma_meshing_is_uniform(part, dirs, piece);
        assert forall|p: Pos| #[trigger] covered(all, p) <==> in_first_parts(parts, n, p) by {
            lemma_covered_by_either(before, piece, p);
            if in_first_parts(parts, n, p) {
                let k = lemma_part_index(parts, n, p);
                if k < n - 1 {
                    lemma_in_first_parts(parts, n - 1, k, p);
                }
            }
            if covered(before, p) {
                let k = lemma_part_index(parts, n - 1, p);
                lemma_in_first_parts(parts, n, k, p);
            }
            if covered(piece, p) {
                lemma_in_first_parts(parts, n, n - 1, p);
            }
        }
        assert forall|i: int, j: int| 0 <= i < j < all.len() implies !(#[trigger] all[i]).meets(
            #[trigger] all[j],
        ) by {
            if all[i].meets(all[j]) {
                let p = choose|p: Pos| all[i].covers(p) && all[j].covers(p);
                if i < before.len() && j >= before.len() {
                    lemma_covered_by(before, i, p);
                    lemma_part_index(parts, n - 1, p);
                }
            }
        }
        lemma_meshing_boxes_are_seeded(part, dirs, piece);
        assert forall|i: int, p: Pos| 0 <= i < all.len() && #[trigger] all[i].covers(p) implies {
            &&& store.contains_key(p)
            &&& store[p].id == all[i].id
            &&& store[p].properties == all[i].properties
        } by {
            if i >= before.len() {
                let h = i - before.len();
                lemma_component_agrees_with_store(store, part, p, piece[h].min);
            }
        }
    }
}

/// The meshings of the components of a store, put together, partition the
/// store: the boxes cover the positions of the store and no others, no two
/// boxes share a cell, whichever components they come from, and each box
/// holds only voxels that carry its label, identity and properties.
pub proof fn lemma_component_meshes_partition(
    store: Map<Pos, VoxelView>,
    parts: Seq<Map<Pos, VoxelView>>,
    pieces: Seq<Seq<BoxView>>,
)
    requires
        is_component_split(store, parts),
        pieces.len() == parts.len(),
        forall|k: int| 0 <= k < parts.len() ==> is_some_meshing(parts[k], #[trigger] pieces[k]),
    ensures
        forall|p: Pos| store.contains_key(p) <==> covered(pieces.flatten(), p),
        forall|i: int, j: int|
            0 <= i < j < pieces.flatten().len() ==> !(#[trigger] pieces.flatten()[i]).meets(
                #[trigger] pieces.flatten()[j],
            ),
        forall|i: int, p: Pos|
            0 <= i < pieces.flatten().len() && #[trigger] pieces.flatten()[i].covers(p) ==> {
                &&& store.contains_key(p)
                &&& store[p].id == pieces.flatten()[i].id
                &&& store[p].properties == pieces.flatten()[i].properties
            },
        forall|i: int|
            0 <= i < pieces.flatten().len() ==> (#[trigger] pieces.flatten()[i]).well_formed(),
{
    let n = parts.len() as int;
    lemma_first_meshes_partition(store, parts, pieces, n);
    assert(pieces.take(n) =~= pieces);
    let all = pieces.flatten();
    assert forall|p: Pos| store.contains_key(p) <==> covered(all, p) by {
        if covered(all, p) {
            let k = lemma_part_index(parts, n, p);
            lemma_component_agrees_with_store(store, parts[k], p, p);
        }
    }
}

} // verus!
