//! The order in which an ordered map hands out positions.

use vstd::prelude::*;
use vstd::std_specs::btree::increasing_seq;
use vstd::std_specs::cmp::OrdSpec;
use crate::lattice::{lex_lt, Pos};

verus! {

/// Positions that an ordered map or set hands out as increasing stand in
/// lexicographic order.
pub proof fn lemma_increasing_is_lexicographic(keys: Seq<Pos>)
    requires
        increasing_seq(keys),
    ensures
        forall|i: int, j: int|
            0 <= i < j < keys.len() ==> lex_lt(#[trigger] keys[i], #[trigger] keys[j]),
{
    broadcast use vstd::laws_cmp::group_laws_cmp;
    broadcast use vstd::std_specs::btree::axiom_increasing_seq_meaning;

    assert forall|i: int, j: int| 0 <= i < j < keys.len() implies lex_lt(
        #[trigger] keys[i],
        #[trigger] keys[j],
    ) by {
        assert(keys[i].cmp_spec(&keys[j]) is Less);
    }
}

} // verus!
