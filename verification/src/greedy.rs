//! The greedy box grower.
//!
//! The cells of the store are visited in lexicographic order. Each voxel that
//! no earlier box covers seeds a box of one cell, which is then stretched
//! along each of the given axes in turn, one cell at a time, for as long as
//! every cell of the stretched box is a voxel of the seed's identity that no
//! earlier box covers.

use vstd::prelude::*;
use std::collections::BTreeMap;
use crate::cuboid::{Box, BoxView};
use crate::lattice::{in_range, lex_lt, next_in_range, Pos};
use crate::meshing::{
    lemma_grow_claimable, lemma_meshing_boxes_are_seeded, lemma_meshing_covers,
    lemma_meshing_is_disjoint, lemma_meshing_is_uniform, lemma_meshing_is_unique,
};
use crate::parallel::par_any;
use crate::voxel::{Voxel, VoxelView};

verus! {

broadcast use vstd::laws_cmp::group_laws_cmp;

/// An axis along which a box grows, towards larger coordinates.
#[derive(Debug, Clone, Copy, PartialEq, Eq, Structural)]
pub enum GreedyDirection {
    X,
    Y,
    Z,
}

/// The voxel store as the contracts see it: a label for each occupied
/// position.
pub open spec fn store_view(voxels: Map<Pos, Voxel>) -> Map<Pos, VoxelView> {
    voxels.map_values(|v: Voxel| v@)
}

/// A list of boxes as the contracts see it.
pub open spec fn box_views(boxes: Seq<Box>) -> Seq<BoxView> {
    boxes.map_values(|b: Box| b@)
}

/// Some box of the list has `p` among its cells.
#[verifier::opaque]
pub open spec fn covered(boxes: Seq<BoxView>, p: Pos) -> bool {
    exists|i: int| 0 <= i < boxes.len() && (#[trigger] boxes[i]).covers(p)
}

/// A cell of one box of the list is covered by the list.
pub proof fn lemma_covered_by(boxes: Seq<BoxView>, i: int, p: Pos)
    requires
        0 <= i < boxes.len(),
        boxes[i].covers(p),
    ensures
        covered(boxes, p),
{
    reveal(covered);
}

/// The index of a box of the list that covers `p`.
pub proof fn lemma_covering_box(boxes: Seq<BoxView>, p: Pos) -> (i: int)
    requires
        covered(boxes, p),
    ensures
        0 <= i < boxes.len(),
        boxes[i].covers(p),
{
    reveal(covered);
    choose|i: int| 0 <= i < boxes.len() && (#[trigger] boxes[i]).covers(p)
}

/// The coordinate of `p` on the axis `dir`.
pub open spec fn axis(p: Pos, dir: GreedyDirection) -> usize {
    match dir {
        GreedyDirection::X => p.0,
        GreedyDirection::Y => p.1,
        GreedyDirection::Z => p.2,
    }
}

/// `p` moved by one cell along the axis `dir`.
pub open spec fn step(p: Pos, dir: GreedyDirection) -> Pos {
    match dir {
        GreedyDirection::X => ((p.0 + 1) as usize, p.1, p.2),
        GreedyDirection::Y => (p.0, (p.1 + 1) as usize, p.2),
        GreedyDirection::Z => (p.0, p.1, (p.2 + 1) as usize),
    }
}

/// Every cell of the cuboid from `min` to `max` is a voxel of the identity
/// `id` that none of the boxes in `prior` covers.
pub open spec fn claimable(
    store: Map<Pos, VoxelView>,
    prior: Seq<BoxView>,
    id: Seq<char>,
    min: Pos,
    max: Pos,
) -> bool {
    forall|p: Pos| #[trigger]
        in_range(min, max, p) ==> store.contains_key(p) && store[p].id == id && !covered(prior, p)
}

/// The box from `min` to `max` can take one more layer of cells on the axis
/// `dir`.
pub open spec fn may_extend(
    store: Map<Pos, VoxelView>,
    prior: Seq<BoxView>,
    id: Seq<char>,
    min: Pos,
    max: Pos,
    dir: GreedyDirection,
) -> bool {
    axis(max, dir) < usize::MAX && claimable(store, prior, id, min, step(max, dir))
}

/// The far corner of the box from `min` to `max` once it has been stretched
/// along `dir` as far as it can go.
pub open spec fn grow_axis(
    store: Map<Pos, VoxelView>,
    prior: Seq<BoxView>,
    id: Seq<char>,
    min: Pos,
    max: Pos,
    dir: GreedyDirection,
) -> Pos
    decreases usize::MAX - axis(max, dir),
{
    if may_extend(store, prior, id, min, max, dir) {
        grow_axis(store, prior, id, min, step(max, dir), dir)
    } else {
        max
    }
}

/// The far corner of the box seeded at `min` once it has been stretched
/// along each axis of `dirs` in turn.
pub open spec fn grow(
    store: Map<Pos, VoxelView>,
    prior: Seq<BoxView>,
    id: Seq<char>,
    min: Pos,
    dirs: Seq<GreedyDirection>,
) -> Pos
    decreases dirs.len(),
{
    if dirs.len() == 0 {
        min
    } else {
        grow_axis(
            store,
            prior,
            id,
            min,
            grow(store, prior, id, min, dirs.drop_last()),
            dirs.last(),
        )
    }
}

/// `b` is the box that the grower emits after the boxes of `prior`: its seed
/// is the first voxel in lexicographic order that `prior` leaves uncovered,
/// it carries the seed's label, and it is grown as far as `dirs` allows.
pub open spec fn is_next_box(
    store: Map<Pos, VoxelView>,
    dirs: Seq<GreedyDirection>,
    prior: Seq<BoxView>,
    b: BoxView,
) -> bool {
    &&& store.contains_key(b.min)
    &&& !covered(prior, b.min)
    &&& forall|p: Pos| #[trigger] store.contains_key(p) && lex_lt(p, b.min) ==> covered(prior, p)
    &&& b.id == store[b.min].id
    &&& b.properties == store[b.min].properties
    &&& b.max == grow(store, prior, b.id, b.min, dirs)
}

/// `boxes` is what the grower makes of `store` under the axis order `dirs`.
pub open spec fn is_greedy_meshing(
    store: Map<Pos, VoxelView>,
    dirs: Seq<GreedyDirection>,
    boxes: Seq<BoxView>,
) -> bool {
    &&& forall|i: int|
        0 <= i < boxes.len() ==> is_next_box(store, dirs, boxes.take(i), #[trigger] boxes[i])
    &&& forall|p: Pos| #[trigger] store.contains_key(p) ==> covered(boxes, p)
}

/// `range` holds the corners of the smallest cuboid around the positions of
/// `dom`, or is `None` where `dom` is empty.
pub open spec fn is_bounding_range(dom: Set<Pos>, range: Option<(Pos, Pos)>) -> bool {
    match range {
        None => dom =~= Set::empty(),
        Some((lo, hi)) => {
            &&& forall|p: Pos| dom.contains(p) ==> in_range(lo, hi, p)
            &&& exists|p: Pos| dom.contains(p) && p.0 == lo.0
            &&& exists|p: Pos| dom.contains(p) && p.1 == lo.1
            &&& exists|p: Pos| dom.contains(p) && p.2 == lo.2
            &&& exists|p: Pos| dom.contains(p) && p.0 == hi.0
            &&& exists|p: Pos| dom.contains(p) && p.1 == hi.1
            &&& exists|p: Pos| dom.contains(p) && p.2 == hi.2
        },
    }
}

/// The meshing of `store` under the axis order `dirs`.
pub open spec fn greedy_meshing(store: Map<Pos, VoxelView>, dirs: Seq<GreedyDirection>) -> Seq<
    BoxView,
> {
    choose|boxes: Seq<BoxView>| is_greedy_meshing(store, dirs, boxes)
}

/// The smallest cuboid that holds every position of the store, as its two
/// corners; `None` for an empty store.
pub fn bounding_range(voxels: &BTreeMap<Pos, Voxel>) -> (range: Option<(Pos, Pos)>)
    ensures
        is_bounding_range(voxels@.dom(), range),
{
    let mut range: Option<(Pos, Pos)> = None;
    for pos in keys: voxels.keys()
        invariant
            keys.seq().unref().to_set() == voxels@.dom(),
            range is None <==> keys.index() == 0,
            range matches Some((lo, hi)) ==> {
                &&& forall|i: int|
                    0 <= i < keys.index() ==> in_range(lo, hi, *#[trigger] keys.seq()[i])
                &&& exists|i: int| 0 <= i < keys.index() && (*#[trigger] keys.seq()[i]).0 == lo.0
                &&& exists|i: int| 0 <= i < keys.index() && (*#[trigger] keys.seq()[i]).1 == lo.1
                &&& exists|i: int| 0 <= i < keys.index() && (*#[trigger] keys.seq()[i]).2 == lo.2
                &&& exists|i: int| 0 <= i < keys.index() && (*#[trigger] keys.seq()[i]).0 == hi.0
                &&& exists|i: int| 0 <= i < keys.index() && (*#[trigger] keys.seq()[i]).1 == hi.1
                &&& exists|i: int| 0 <= i < keys.index() && (*#[trigger] keys.seq()[i]).2 == hi.2
            },
            keys.index() == keys.seq().len() ==> is_bounding_range(voxels@.dom(), range),
    {
        let p = *pos;
        range = match range {
            None => Some((p, p)),
            Some((lo, hi)) => Some(
                (
                    (
                        if p.0 < lo.0 { p.0 } else { lo.0 },
                        if p.1 < lo.1 { p.1 } else { lo.1 },
                        if p.2 < lo.2 { p.2 } else { lo.2 },
                    ),
                    (
                        if p.0 > hi.0 { p.0 } else { hi.0 },
                        if p.1 > hi.1 { p.1 } else { hi.1 },
                        if p.2 > hi.2 { p.2 } else { hi.2 },
                    ),
                ),
            ),
        };
        assert(keys.index() + 1 == keys.seq().len() ==> is_bounding_range(voxels@.dom(), range))
            by {
            assert forall|i: int| 0 <= i < keys.seq().len() implies voxels@.dom().contains(
                *#[trigger] keys.seq()[i],
            ) by {
                assert(keys.seq().unref().to_set().contains(keys.seq().unref()[i]));
            }
        }
    }
    range
}

/// No position of the store exceeds `hi` on any axis.
spec fn stays_below(voxels: Map<Pos, Voxel>, hi: Pos) -> bool {
    forall|p: Pos| #[trigger] voxels.contains_key(p) ==> p.0 <= hi.0 && p.1 <= hi.1 && p.2 <= hi.2
}

/// The coordinate of `p` on the axis `dir`.
fn coordinate(p: Pos, dir: GreedyDirection) -> (c: usize)
    ensures
        c == axis(p, dir),
{
    match dir {
        GreedyDirection::X => p.0,
        GreedyDirection::Y => p.1,
        GreedyDirection::Z => p.2,
    }
}

/// `p` moved by one cell along the axis `dir`.
fn advance(p: Pos, dir: GreedyDirection) -> (q: Pos)
    requires
        axis(p, dir) < usize::MAX,
    ensures
        q == step(p, dir),
{
    match dir {
        GreedyDirection::X => (p.0 + 1, p.1, p.2),
        GreedyDirection::Y => (p.0, p.1 + 1, p.2),
        GreedyDirection::Z => (p.0, p.1, p.2 + 1),
    }
}

/// Whether `pos` holds a voxel that equals `seed`, that is, one of the same
/// identity.
fn matches_seed(voxels: &BTreeMap<Pos, Voxel>, seed: &Voxel, pos: &Pos) -> (same: bool)
    ensures
        same == (voxels@.contains_key(*pos) && voxels@[*pos].id@ == seed.id@),
{
    match voxels.get(pos) {
        Some(voxel) => voxel == seed,
        None => false,
    }
}

/// Whether one of `boxes` covers `pos`.
fn any_box_covers(boxes: &Vec<Box>, pos: Pos) -> (hit: bool)
    ensures
        hit == covered(box_views(boxes@), pos),
{
    let covers = |b: &Box| -> (inside: bool)
        ensures
            inside == b@.covers(pos),
        { b.contains(pos) };
    let hit = par_any(boxes, covers);
    proof {
        let views = box_views(boxes@);
        if hit {
            let i = choose|i: int| 0 <= i < boxes.len() && boxes[i]@.covers(pos);
            lemma_covered_by(views, i, pos);
        }
        if covered(views, pos) {
            let i = lemma_covering_box(views, pos);
        }
    }
    hit
}

/// Whether one of `boxes` shares a cell with `candidate`.
fn any_box_overlaps(boxes: &Vec<Box>, candidate: &Box) -> (hit: bool)
    ensures
        hit == exists|p: Pos| candidate@.covers(p) && covered(box_views(boxes@), p),
{
    let overlaps = |b: &Box| -> (shared: bool)
        ensures
            shared == b@.meets(candidate@),
        { b.overlaps(candidate) };
    let hit = par_any(boxes, overlaps);
    proof {
        let views = box_views(boxes@);
        if hit {
            let i = choose|i: int| 0 <= i < boxes.len() && boxes[i]@.meets(candidate@);
            let p = choose|p: Pos| boxes[i]@.covers(p) && candidate@.covers(p);
            lemma_covered_by(views, i, p);
        }
        if exists|p: Pos| candidate@.covers(p) && covered(views, p) {
            let p = choose|p: Pos| candidate@.covers(p) && covered(views, p);
            let i = lemma_covering_box(views, p);
        }
    }
    hit
}

/// Whether one of `cells` holds no voxel, or one that differs from `seed`.
fn any_cell_differs(cells: &Vec<Pos>, voxels: &BTreeMap<Pos, Voxel>, seed: &Voxel) -> (bad: bool)
    ensures
        bad == exists|i: int|
            0 <= i < cells.len() && !(voxels@.contains_key(#[trigger] cells[i])
                && voxels@[cells[i]].id@ == seed.id@),
{
    let differs = |pos: &Pos| -> (differs: bool)
        ensures
            differs == !(voxels@.contains_key(*pos) && voxels@[*pos].id@ == seed.id@),
        { !matches_seed(voxels, seed, pos) };
    par_any(cells, differs)
}

/// Stretches `current` along `dir`, one layer of cells at a time, for as
/// long as the stretched box stays within voxels of the seed's identity that
/// no box of `boxes` covers.
fn extend_along(
    voxels: &BTreeMap<Pos, Voxel>,
    boxes: &Vec<Box>,
    seed: &Voxel,
    current: Box,
    hi: Pos,
    dir: GreedyDirection,
) -> (grown: Box)
    requires
        stays_below(voxels@, hi),
        in_range(current.min, current.max, current.min),
    ensures
        grown.min == current.min,
        grown.id == current.id,
        grown.properties == current.properties,
        grown.max == grow_axis(
            store_view(voxels@),
            box_views(boxes@),
            seed.id@,
            current.min,
            current.max,
            dir,
        ),
        in_range(grown.min, grown.max, grown.min),
{
    let ghost store = store_view(voxels@);
    let ghost prior = box_views(boxes@);
    let ghost id = seed.id@;
    let ghost first = current;
    let mut current = current;
    loop
        invariant_except_break
            grow_axis(store, prior, id, first.min, first.max, dir) == grow_axis(
                store,
                prior,
                id,
                first.min,
                current.max,
                dir,
            ),
        invariant
            stays_below(voxels@, hi),
            store == store_view(voxels@),
            prior == box_views(boxes@),
            id == seed.id@,
            current.min == first.min,
            current.id == first.id,
            current.properties == first.properties,
            in_range(current.min, current.max, current.min),
        ensures
            current.max == grow_axis(store, prior, id, first.min, first.max, dir),
        decreases axis(hi, dir) - axis(current.max, dir),
    {
        if coordinate(current.max, dir) >= coordinate(hi, dir) {
            proof {
                if axis(current.max, dir) < usize::MAX {
                    let next = step(current.max, dir);
                    assert(in_range(current.min, next, next));
                }
            }
            break ;
        }
        let next_pos = advance(current.max, dir);
        assert(in_range(current.min, next_pos, next_pos));
        if !matches_seed(voxels, seed, &next_pos) {
            break ;
        }
        if any_box_covers(boxes, next_pos) {
            break ;
        }
        let next_box = Box {
            min: current.min,
            max: next_pos,
            id: current.id.clone(),
            properties: current.properties.clone(),
        };
        let cells = next_box.all_positions();
        if any_cell_differs(&cells, voxels, seed) {
            proof {
                let i = choose|i: int|
                    0 <= i < cells.len() && !(voxels@.contains_key(#[trigger] cells[i])
                        && voxels@[cells[i]].id@ == seed.id@);
                assert(cells@.contains(cells[i]));
            }
            break ;
        }
        if any_box_overlaps(boxes, &next_box) {
            break ;
        }
        proof {
            assert forall|p: Pos| #[trigger] in_range(current.min, next_pos, p) implies {
                &&& store.contains_key(p)
                &&& store[p].id == id
                &&& !covered(prior, p)
            } by {
                assert(cells@.contains(p));
            }
        }
        current = next_box;
    }
    current
}

/// The box that `seed`, the voxel at `min`, grows into when it is stretched
/// along each axis of `directions` in turn.
fn grow_box(
    voxels: &BTreeMap<Pos, Voxel>,
    boxes: &Vec<Box>,
    seed: &Voxel,
    min: Pos,
    hi: Pos,
    directions: &[GreedyDirection],
) -> (grown: Box)
    requires
        stays_below(voxels@, hi),
    ensures
        grown.min == min,
        grown.id@ == seed.id@,
        grown.properties@ == seed.properties@,
        grown.max == grow(store_view(voxels@), box_views(boxes@), seed.id@, min, directions@),
{
    let ghost store = store_view(voxels@);
    let ghost prior = box_views(boxes@);
    let mut grown = Box { min, max: min, id: seed.id.clone(), properties: seed.properties.clone() };
    for k in 0..directions.len()
        invariant
            stays_below(voxels@, hi),
            store == store_view(voxels@),
            prior == box_views(boxes@),
            grown.min == min,
            grown.id@ == seed.id@,
            grown.properties@ == seed.properties@,
            in_range(min, grown.max, min),
            grown.max == grow(store, prior, seed.id@, min, directions@.take(k as int)),
    {
        proof {
            let upto = directions@.take(k + 1);
            assert(upto.drop_last() =~= directions@.take(k as int));
        }
        grown = extend_along(voxels, boxes, seed, grown, hi, directions[k]);
    }
    proof {
        assert(directions@.take(directions@.len() as int) =~= directions@);
    }
    grown
}

/// Covers the voxels of the store with boxes, growing each box along the
/// axes of `directions` in the order given.
///
/// The store is scanned in lexicographic order. The first voxel that no
/// box covers yet seeds the next box; the box takes the seed's label and is
/// stretched along each axis in turn while all of its cells are voxels of
/// the seed's identity (the properties do not count) outside every earlier
/// box. The boxes come in the order of their seeds.
pub fn greedy(voxels: &BTreeMap<Pos, Voxel>, directions: &[GreedyDirection]) -> (boxes: Vec<Box>)
    ensures
        is_greedy_meshing(store_view(voxels@), directions@, box_views(boxes@)),
        box_views(boxes@) == greedy_meshing(store_view(voxels@), directions@),
        forall|p: Pos| voxels@.contains_key(p) <==> covered(box_views(boxes@), p),
        forall|i: int, j: int|
            0 <= i < j < boxes.len() ==> !(#[trigger] boxes[i])@.meets((#[trigger] boxes[j])@),
        forall|i: int, p: Pos|
            0 <= i < boxes.len() && #[trigger] boxes[i]@.covers(p) ==> voxels@.contains_key(p)
                && voxels@[p].id@ == boxes[i].id@,
        forall|i: int| 0 <= i < boxes.len() ==> (#[trigger] boxes[i])@.well_formed(),
{
    let ghost store = store_view(voxels@);
    let mut boxes: Vec<Box> = Vec::new();
    let (lo, hi) = match bounding_range(voxels) {
        Some(range) => range,
        None => {
            proof {
                assert forall|p: Pos| !covered(box_views(boxes@), p) by {
                    if covered(box_views(boxes@), p) {
                        lemma_covering_box(box_views(boxes@), p);
                    }
                }
                lemma_meshing_is_unique(
                    store,
                    directions@,
                    box_views(boxes@),
                    greedy_meshing(store, directions@),
                );
            }
            return boxes;
        },
    };
    let mut p = lo;
    loop
        invariant_except_break
            in_range(lo, hi, p),
            forall|q: Pos| #[trigger]
                store.contains_key(q) && lex_lt(q, p) ==> covered(box_views(boxes@), q),
        invariant
            store == store_view(voxels@),
            forall|q: Pos| #[trigger] voxels@.contains_key(q) ==> in_range(lo, hi, q),
            forall|i: int|
                0 <= i < boxes.len() ==> is_next_box(
                    store,
                    directions@,
                    box_views(boxes@).take(i),
                    #[trigger] box_views(boxes@)[i],
                ),
        ensures
            forall|q: Pos| #[trigger] store.contains_key(q) ==> covered(box_views(boxes@), q),
        decreases hi.0 - p.0, hi.1 - p.1, hi.2 - p.2,
    {
        let ghost prior = box_views(boxes@);
        match voxels.get(&p) {
            Some(voxel) => {
                if !any_box_covers(&boxes, p) {
                    let grown = grow_box(voxels, &boxes, voxel, p, hi, directions);
                    boxes.push(grown);
                    proof {
                        let now = box_views(boxes@);
                        assert(now.take(prior.len() as int) =~= prior);
                        assert forall|i: int| 0 <= i < boxes.len() implies is_next_box(
                            store,
                            directions@,
                            now.take(i),
                            #[trigger] now[i],
                        ) by {
                            if i < prior.len() {
                                assert(now.take(i) =~= prior.take(i));
                                assert(now[i] == prior[i]);
                            }
                        }
                        lemma_grow_claimable(store, prior, grown.id@, p, directions@);
                        lemma_covered_by(now, prior.len() as int, p);
                        assert forall|q: Pos| covered(prior, q) implies covered(now, q) by {
                            let i = lemma_covering_box(prior, q);
                            lemma_covered_by(now, i, q);
                        }
                    }
                }
            },
            None => {},
        }
        match next_in_range(p, lo, hi) {
            Some(s) => {
                p = s;
            },
            None => {
                break ;
            },
        }
    }
    proof {
        let views = box_views(boxes@);
        lemma_meshing_covers(store, directions@, views);
        lemma_meshing_is_disjoint(store, directions@, views);
        lemma_meshing_is_uniform(store, directions@, views);
        lemma_meshing_boxes_are_seeded(store, directions@, views);
        assert forall|i: int| 0 <= i < boxes.len() implies (#[trigger] boxes[i])@.well_formed() by {
            assert(views[i].well_formed());
        }
        lemma_meshing_is_unique(store, directions@, views, greedy_meshing(store, directions@));
        assert forall|i: int, j: int| 0 <= i < j < boxes.len() implies !(
        #[trigger] boxes[i])@.meets((#[trigger] boxes[j])@) by {
            assert(!views[i].meets(views[j]));
        }
        assert forall|i: int, p: Pos|
            0 <= i < boxes.len() && #[trigger] boxes[i]@.covers(p) implies voxels@.contains_key(p)
            && voxels@[p].id@ == boxes[i].id@ by {
            assert(views[i].covers(p));
        }
    }
    boxes
}

} // verus!
