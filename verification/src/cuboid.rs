//! Axis-aligned boxes of lattice cells.

use vstd::prelude::*;
use crate::lattice::{in_range, lex_lt, next_in_range, Pos};

verus! {

/// A box as the contracts see it: the inclusive corners and the label.
pub struct BoxView {
    pub min: Pos,
    pub max: Pos,
    pub id: Seq<char>,
    pub properties: Seq<char>,
}

impl BoxView {
    /// On no axis does `min` exceed `max`.
    pub open spec fn well_formed(self) -> bool {
        in_range(self.min, self.max, self.min)
    }

    /// `pos` is one of the cells of the box.
    pub open spec fn covers(self, pos: Pos) -> bool {
        in_range(self.min, self.max, pos)
    }

    /// Some cell belongs to both boxes.
    pub open spec fn meets(self, other: BoxView) -> bool {
        exists|p: Pos| self.covers(p) && other.covers(p)
    }

    /// The number of cells of the box; none where `min` exceeds `max` on
    /// some axis.
    pub open spec fn volume(self) -> int {
        if self.well_formed() {
            (self.max.0 - self.min.0 + 1) * (self.max.1 - self.min.1 + 1) * (self.max.2
                - self.min.2 + 1)
        } else {
            0
        }
    }
}

/// The number of cells that come before `p` when the cuboid from `lo` to
/// `hi` is walked in lexicographic order.
spec fn cells_before(lo: Pos, hi: Pos, p: Pos) -> int {
    (p.0 - lo.0) * ((hi.1 - lo.1 + 1) * (hi.2 - lo.2 + 1)) + (p.1 - lo.1) * (hi.2 - lo.2 + 1) + (
    p.2 - lo.2)
}

/// The cell that follows `p` in the walk has one more cell before it.
proof fn lemma_one_more_before(lo: Pos, hi: Pos, p: Pos, s: Pos)
    requires
        in_range(lo, hi, p),
        s == if p.2 < hi.2 {
            (p.0, p.1, (p.2 + 1) as usize)
        } else if p.1 < hi.1 {
            (p.0, (p.1 + 1) as usize, lo.2)
        } else {
            ((p.0 + 1) as usize, lo.1, lo.2)
        },
        p != hi,
    ensures
        cells_before(lo, hi, s) == cells_before(lo, hi, p) + 1,
{
    let dy = hi.1 - lo.1 + 1;
    let dz = hi.2 - lo.2 + 1;
    let x = p.0 - lo.0;
    let y = p.1 - lo.1;
    if p.2 == hi.2 && p.1 < hi.1 {
        assert((y + 1) * dz == y * dz + dz) by (nonlinear_arith);
    } else if p.2 == hi.2 {
        assert(0 * dz == 0);
        assert((x + 1) * (dy * dz) == x * (dy * dz) + dy * dz) by (nonlinear_arith);
        assert(dy * dz == (dy - 1) * dz + dz) by (nonlinear_arith);
    }
}

/// The last cell of a cuboid has all cells but itself before it.
proof fn lemma_all_but_one_before(lo: Pos, hi: Pos)
    requires
        in_range(lo, hi, lo),
    ensures
        cells_before(lo, hi, hi) + 1 == (hi.0 - lo.0 + 1) * (hi.1 - lo.1 + 1) * (hi.2 - lo.2 + 1),
{
    let dx = hi.0 - lo.0 + 1;
    let dy = hi.1 - lo.1 + 1;
    let dz = hi.2 - lo.2 + 1;
    assert(dx * dy * dz == (dx - 1) * (dy * dz) + dy * dz) by (nonlinear_arith);
    assert(dy * dz == (dy - 1) * dz + dz) by (nonlinear_arith);
}

/// An axis-aligned cuboid of cells with the inclusive corners `min` and
/// `max`, and the label of the voxel it was grown from.
#[derive(Debug)]
pub struct Box {
    pub min: Pos,
    pub max: Pos,
    pub id: String,
    pub properties: String,
}

impl View for Box {
    type V = BoxView;

    open spec fn view(&self) -> BoxView {
        BoxView { min: self.min, max: self.max, id: self.id@, properties: self.properties@ }
    }
}

impl Clone for Box {
    fn clone(&self) -> (copy: Self)
        ensures
            copy == *self,
    {
        Self {
            min: self.min,
            max: self.max,
            id: self.id.clone(),
            properties: self.properties.clone(),
        }
    }
}

impl Box {
    pub fn contains(&self, pos: Pos) -> (inside: bool)
        ensures
            inside == self@.covers(pos),
    {
        pos.0 >= self.min.0 && pos.0 <= self.max.0 && pos.1 >= self.min.1 && pos.1 <= self.max.1
            && pos.2 >= self.min.2 && pos.2 <= self.max.2
    }

    /// Whether the two boxes have a cell in common.
    pub fn overlaps(&self, other: &Box) -> (shared: bool)
        ensures
            shared == self@.meets(other@),
    {
        let lo = (
            if self.min.0 > other.min.0 { self.min.0 } else { other.min.0 },
            if self.min.1 > other.min.1 { self.min.1 } else { other.min.1 },
            if self.min.2 > other.min.2 { self.min.2 } else { other.min.2 },
        );
        let hi = (
            if self.max.0 < other.max.0 { self.max.0 } else { other.max.0 },
            if self.max.1 < other.max.1 { self.max.1 } else { other.max.1 },
            if self.max.2 < other.max.2 { self.max.2 } else { other.max.2 },
        );
        let shared = lo.0 <= hi.0 && lo.1 <= hi.1 && lo.2 <= hi.2;
        proof {
            if shared {
                assert(self@.covers(lo) && other@.covers(lo));
            }
        }
        shared
    }

    /// The cells of the box in lexicographic order. A box whose `min` exceeds
    /// its `max` on some axis has none.
    pub fn all_positions(&self) -> (positions: Vec<Pos>)
        ensures
            positions@.len() == self@.volume(),
            forall|p: Pos| positions@.contains(p) <==> self@.covers(p),
            forall|i: int, j: int|
                0 <= i < j < positions.len() ==> lex_lt(
                    #[trigger] positions[i],
                    #[trigger] positions[j],
                ),
    {
        let mut positions: Vec<Pos> = Vec::new();
        if self.min.0 > self.max.0 || self.min.1 > self.max.1 || self.min.2 > self.max.2 {
            return positions;
        }
        let lo = self.min;
        let hi = self.max;
        let mut p = lo;
        loop
            invariant_except_break
                in_range(lo, hi, p),
                positions@.len() == cells_before(lo, hi, p),
                forall|q: Pos| #[trigger]
                    positions@.contains(q) <==> in_range(lo, hi, q) && lex_lt(q, p),
            invariant
                lo == self.min,
                hi == self.max,
                in_range(lo, hi, lo),
                forall|i: int, j: int|
                    0 <= i < j < positions.len() ==> lex_lt(
                        #[trigger] positions[i],
                        #[trigger] positions[j],
                    ),
            ensures
                positions@.len() == self@.volume(),
                forall|q: Pos| #[trigger] positions@.contains(q) <==> in_range(lo, hi, q),
            decreases hi.0 - p.0, hi.1 - p.1, hi.2 - p.2,
        {
            let ghost before = positions@;
            positions.push(p);
            proof {
                assert forall|q: Pos| #[trigger]
                    positions@.contains(q) <==> (before.contains(q) || q == p) by {
                    if before.contains(q) {
                        let i = choose|i: int| 0 <= i < before.len() && before[i] == q;
                        assert(positions@[i] == q);
                    }
                    if q == p {
                        assert(positions@[before.len() as int] == q);
                    }
                }
                assert forall|i: int, j: int| 0 <= i < j < positions.len() implies lex_lt(
                    #[trigger] positions[i],
                    #[trigger] positions[j],
                ) by {
                    if j == before.len() {
                        assert(before.contains(before[i]));
                    }
                }
            }
            match next_in_range(p, lo, hi) {
                Some(s) => {
                    proof {
                        lemma_one_more_before(lo, hi, p, s);
                    }
                    p = s;
                },
                None => {
                    proof {
                        lemma_all_but_one_before(lo, hi);
                    }
                    break;
                },
            }
        }
        positions
    }
}

} // verus!
