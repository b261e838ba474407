//! Comparing strings character by character.

use vstd::prelude::*;

verus! {

/// `needle` stands in `hay` at the index `i`.
pub open spec fn occurs_at(hay: Seq<char>, needle: Seq<char>, i: int) -> bool {
    &&& 0 <= i
    &&& i + needle.len() <= hay.len()
    &&& hay.subrange(i, i + needle.len()) == needle
}

/// `needle` stands somewhere in `hay`.
pub open spec fn has_substring(hay: Seq<char>, needle: Seq<char>) -> bool {
    exists|i: int| occurs_at(hay, needle, i)
}

/// `hay` starts with `needle`.
pub open spec fn has_prefix(hay: Seq<char>, needle: Seq<char>) -> bool {
    occurs_at(hay, needle, 0)
}

/// The characters of a string.
pub fn characters(text: &str) -> (chars: Vec<char>)
    ensures
        chars@ == text@,
{
    let mut chars: Vec<char> = Vec::new();
    for c in it: text.chars()
        invariant
            it.seq() == text@,
            chars@ == it.seq().take(it.index()),
    {
        chars.push(c);
    }
    chars
}

/// Whether `needle` stands in `hay` at the index `i`.
fn occurs(hay: &Vec<char>, needle: &Vec<char>, i: usize) -> (found: bool)
    ensures
        found == occurs_at(hay@, needle@, i as int),
{
    if needle.len() > hay.len() || i > hay.len() - needle.len() {
        return false;
    }
    for k in 0..needle.len()
        invariant
            i + needle.len() <= hay.len(),
            forall|h: int| 0 <= h < k ==> hay@[i + h] == needle@[h],
    {
        if hay[i + k] != needle[k] {
            return false;
        }
    }
    assert(hay@.subrange(i as int, i + needle.len()) =~= needle@);
    true
}

/// Whether the two strings hold the same characters.
pub fn same_text(a: &str, b: &str) -> (same: bool)
    ensures
        same == (a@ == b@),
{
    let left = characters(a);
    let right = characters(b);
    if left.len() != right.len() {
        return false;
    }
    let same = occurs(&left, &right, 0);
    proof {
        assert(left@.subrange(0, left@.len() as int) =~= left@);
    }
    same
}

/// Whether `hay` starts with `needle`.
pub fn starts_with(hay: &str, needle: &str) -> (found: bool)
    ensures
        found == has_prefix(hay@, needle@),
{
    let text = characters(hay);
    let wanted = characters(needle);
    occurs(&text, &wanted, 0)
}

/// Whether `needle` stands somewhere in `hay`.
pub fn contains(hay: &str, needle: &str) -> (found: bool)
    ensures
        found == has_substring(hay@, needle@),
{
    let text = characters(hay);
    let wanted = characters(needle);
    if wanted.len() > text.len() {
        return false;
    }
    let last = text.len() - wanted.len();
    let mut i: usize = 0;
    loop
        invariant
            text@ == hay@,
            wanted@ == needle@,
            i <= last,
            last == text.len() - wanted.len(),
            forall|h: int| 0 <= h < i ==> !occurs_at(text@, wanted@, h),
        decreases last - i,
    {
        if occurs(&text, &wanted, i) {
            return true;
        }
        if i == last {
            return false;
        }
        i += 1;
    }
}

} // verus!
