//! Positions of the integer lattice: order, ranges and face adjacency.

use vstd::prelude::*;

verus! {

/// A lattice position `(x, y, z)`.
pub type Pos = (usize, usize, usize);

/// Strict lexicographic order on positions: by `x`, then `y`, then `z`.
pub open spec fn lex_lt(a: Pos, b: Pos) -> bool {
    a.0 < b.0 || (a.0 == b.0 && (a.1 < b.1 || (a.1 == b.1 && a.2 < b.2)))
}

/// `p` lies in the cuboid with the inclusive corners `lo` and `hi`.
pub open spec fn in_range(lo: Pos, hi: Pos, p: Pos) -> bool {
    &&& lo.0 <= p.0 <= hi.0
    &&& lo.1 <= p.1 <= hi.1
    &&& lo.2 <= p.2 <= hi.2
}

/// `a` and `b` share a face: they differ by one on exactly one axis.
pub open spec fn adjacent(a: Pos, b: Pos) -> bool {
    ||| (a.1 == b.1 && a.2 == b.2 && (a.0 + 1 == b.0 || b.0 + 1 == a.0))
    ||| (a.0 == b.0 && a.2 == b.2 && (a.1 + 1 == b.1 || b.1 + 1 == a.1))
    ||| (a.0 == b.0 && a.1 == b.1 && (a.2 + 1 == b.2 || b.2 + 1 == a.2))
}

/// The position that follows `p` when the cuboid from `lo` to `hi` is walked
/// in lexicographic order, or `None` when `p` is its last position.
pub fn next_in_range(p: Pos, lo: Pos, hi: Pos) -> (next: Option<Pos>)
    requires
        in_range(lo, hi, p),
    ensures
        match next {
            Some(s) => {
                &&& in_range(lo, hi, s)
                &&& lex_lt(p, s)
                &&& forall|q: Pos| in_range(lo, hi, q) && lex_lt(p, q) ==> s == q || lex_lt(s, q)
                &&& s == if p.2 < hi.2 {
                    (p.0, p.1, (p.2 + 1) as usize)
                } else if p.1 < hi.1 {
                    (p.0, (p.1 + 1) as usize, lo.2)
                } else {
                    ((p.0 + 1) as usize, lo.1, lo.2)
                }
            },
            None => p == hi,
        },
{
    if p.2 < hi.2 {
        Some((p.0, p.1, p.2 + 1))
    } else if p.1 < hi.1 {
        Some((p.0, p.1 + 1, lo.2))
    } else if p.0 < hi.0 {
        Some((p.0 + 1, lo.1, lo.2))
    } else {
        None
    }
}

/// What a list of positions holds once `x` is pushed on it.
pub proof fn lemma_push_contains(s: Seq<Pos>, x: Pos)
    ensures
        forall|y: Pos| #[trigger] s.push(x).contains(y) <==> s.contains(y) || y == x,
{
    assert forall|y: Pos| #[trigger] s.push(x).contains(y) <==> s.contains(y) || y == x by {
        if s.contains(y) {
            let i = choose|i: int| 0 <= i < s.len() && s[i] == y;
            assert(s.push(x)[i] == y);
        }
        if y == x {
            assert(s.push(x)[s.len() as int] == y);
        }
    }
}

} // verus!
