//! The faces of a block, and the property string of a label.

use vstd::prelude::*;
use vstd::string::StrSliceExecFns;
use crate::text::characters;

verus! {

/// A face of a block.
#[derive(Debug, Clone, Copy, PartialEq, Eq, Structural)]
pub enum Face {
    South,
    East,
    North,
    West,
    Bottom,
    Top,
}

impl Face {
    /// The number of the face: 0 for south, then east, north, west, bottom
    /// and 5 for top.
    pub open spec fn number(self) -> int {
        match self {
            Face::South => 0,
            Face::East => 1,
            Face::North => 2,
            Face::West => 3,
            Face::Bottom => 4,
            Face::Top => 5,
        }
    }

    pub fn index(self) -> (n: usize)
        ensures
            n == self.number(),
    {
        match self {
            Face::South => 0,
            Face::East => 1,
            Face::North => 2,
            Face::West => 3,
            Face::Bottom => 4,
            Face::Top => 5,
        }
    }
}

/// The characters of Unicode's `White_Space` property.
pub open spec fn is_space(c: char) -> bool {
    ||| '\u{9}' <= c <= '\u{d}'
    ||| c == ' '
    ||| c == '\u{85}'
    ||| c == '\u{a0}'
    ||| c == '\u{1680}'
    ||| '\u{2000}' <= c <= '\u{200a}'
    ||| c == '\u{2028}'
    ||| c == '\u{2029}'
    ||| c == '\u{202f}'
    ||| c == '\u{205f}'
    ||| c == '\u{3000}'
}

fn is_whitespace(c: char) -> (space: bool)
    ensures
        space == is_space(c),
{
    ('\u{9}' <= c && c <= '\u{d}') || c == ' ' || c == '\u{85}' || c == '\u{a0}' || c == '\u{1680}'
        || ('\u{2000}' <= c && c <= '\u{200a}') || c == '\u{2028}' || c == '\u{2029}' || c
        == '\u{202f}' || c == '\u{205f}' || c == '\u{3000}'
}

/// The index of the first `c` in `s` at or after `from`; the length of `s`
/// where there is none.
pub open spec fn find(s: Seq<char>, from: int, c: char) -> int
    decreases s.len() - from,
{
    if 0 <= from < s.len() && s[from] != c {
        find(s, from + 1, c)
    } else {
        from
    }
}

/// The pieces of `s` from `from` on that the separator `c` parts. A
/// separator at the end leaves an empty last piece.
pub open spec fn split_from(s: Seq<char>, from: int, c: char) -> Seq<Seq<char>>
    decreases s.len() - from,
{
    let end = find(s, from, c);
    if 0 <= from <= end < s.len() {
        seq![s.subrange(from, end)] + split_from(s, end + 1, c)
    } else {
        seq![s.subrange(from, s.len() as int)]
    }
}

/// The pieces of `s` that the separator `c` parts.
pub open spec fn split(s: Seq<char>, c: char) -> Seq<Seq<char>> {
    split_from(s, 0, c)
}

pub open spec fn is_bracket(c: char) -> bool {
    c == '[' || c == ']'
}

/// The index of the first character at or after `from` that is no bracket.
pub open spec fn skip_brackets(s: Seq<char>, from: int) -> int
    decreases s.len() - from,
{
    if 0 <= from < s.len() && is_bracket(s[from]) {
        skip_brackets(s, from + 1)
    } else {
        from
    }
}

/// The end of `s` once the brackets that end it are dropped, down to `lo`
/// at most.
pub open spec fn drop_brackets(s: Seq<char>, lo: int, to: int) -> int
    decreases to - lo,
{
    if lo < to <= s.len() && is_bracket(s[to - 1]) {
        drop_brackets(s, lo, to - 1)
    } else {
        to
    }
}

/// `s` without the brackets that it starts and ends with.
pub open spec fn strip_brackets(s: Seq<char>) -> Seq<char> {
    let lo = skip_brackets(s, 0);
    s.subrange(lo, drop_brackets(s, lo, s.len() as int))
}

/// `s` holds white space only.
pub open spec fn is_blank(s: Seq<char>) -> bool {
    forall|i: int| 0 <= i < s.len() ==> is_space(#[trigger] s[i])
}

/// The piece holds a `=`, and so a key and a value.
pub open spec fn has_value(piece: Seq<char>) -> bool {
    find(piece, 0, '=') < piece.len()
}

/// What stands before the first `=` of the piece.
pub open spec fn key_of(piece: Seq<char>) -> Seq<char> {
    piece.subrange(0, find(piece, 0, '='))
}

/// What stands between the first `=` of the piece and the second, or the
/// end of the piece.
pub open spec fn value_of(piece: Seq<char>) -> Seq<char> {
    let start = find(piece, 0, '=') + 1;
    piece.subrange(start, find(piece, start, '='))
}

/// The keys and values of the pieces; of two pieces with one key the later
/// one counts.
pub open spec fn entries_of(pieces: Seq<Seq<char>>) -> Map<Seq<char>, Seq<char>>
    decreases pieces.len(),
{
    if pieces.len() == 0 {
        Map::empty()
    } else {
        entries_of(pieces.drop_last()).insert(key_of(pieces.last()), value_of(pieces.last()))
    }
}

/// The property string can be parsed: between its brackets it is blank, or
/// each of its pieces between commas holds a `=`.
pub open spec fn is_parsable(s: Seq<char>) -> bool {
    let inner = strip_brackets(s);
    is_blank(inner) || forall|k: int|
        0 <= k < split(inner, ',').len() ==> has_value(#[trigger] split(inner, ',')[k])
}

/// The properties that the string `s` states, such as
/// `[facing=north,half=top]`: the brackets at both ends are dropped, and
/// each piece between commas gives a key and a value. A blank string
/// states none.
pub open spec fn parsed(s: Seq<char>) -> Map<Seq<char>, Seq<char>> {
    let inner = strip_brackets(s);
    if is_blank(inner) {
        Map::empty()
    } else {
        entries_of(split(inner, ','))
    }
}

/// Named properties, each key once.
pub struct Properties {
    entries: Vec<(String, String)>,
}

impl Properties {
    /// No key is held twice.
    pub closed spec fn well_formed(&self) -> bool {
        forall|i: int, j: int|
            0 <= i < j < self.entries.len() ==> (#[trigger] self.entries[i]).0@ != (
            #[trigger] self.entries[j]).0@
    }

    /// `key` is held at the index `i`.
    pub closed spec fn holds_at(&self, key: Seq<char>, i: int) -> bool {
        0 <= i < self.entries.len() && self.entries[i].0@ == key
    }

    /// No properties: the map is empty, and no entry is listed.
    pub fn new() -> (properties: Self)
        ensures
            properties.well_formed(),
            properties@ == Map::<Seq<char>, Seq<char>>::empty(),
            properties.entries_view() == Seq::<(Seq<char>, Seq<char>)>::empty(),
    {
        let properties = Properties { entries: Vec::new() };
        properties
    }

    /// The number of properties.
    pub fn len(&self) -> (n: usize)
        ensures
            n == self.entries_view().len(),
    {
        self.entries.len()
    }

    /// The keys with their values, each key once, in the order in which
    /// `entry` hands them out.
    pub closed spec fn entries_view(&self) -> Seq<(Seq<char>, Seq<char>)> {
        self.entries@.map_values(|e: (String, String)| (e.0@, e.1@))
    }

    /// The key and the value at the index `i`.
    pub fn entry(&self, i: usize) -> (e: (&String, &String))
        requires
            i < self.entries_view().len(),
        ensures
            (e.0@, e.1@) == self.entries_view()[i as int],
    {
        (&self.entries[i].0, &self.entries[i].1)
    }

    fn position(&self, key: &str) -> (at: Option<usize>)
        ensures
            match at {
                Some(i) => self.holds_at(key@, i as int),
                None => forall|i: int| !self.holds_at(key@, i),
            },
    {
        let wanted = key.to_owned();
        for i in 0..self.entries.len()
            invariant
                wanted@ == key@,
                forall|h: int| 0 <= h < i ==> !self.holds_at(key@, h),
        {
            if self.entries[i].0 == wanted {
                return Some(i);
            }
        }
        None
    }

    /// The value of `key`.
    pub fn get(&self, key: &str) -> (value: Option<&String>)
        requires
            self.well_formed(),
        ensures
            match value {
                Some(v) => self@.contains_key(key@) && self@[key@] == v@,
                None => !self@.contains_key(key@),
            },
    {
        match self.position(key) {
            Some(i) => {
                Some(&self.entries[i].1)
            },
            None => None,
        }
    }

    /// Sets the value of `key`.
    pub fn insert(&mut self, key: String, value: String)
        requires
            old(self).well_formed(),
        ensures
            final(self).well_formed(),
            final(self)@ == old(self)@.insert(key@, value@),
    {
        let ghost before = *self;
        match self.position(key.as_str()) {
            Some(i) => {
                self.entries[i].1 = value;
                proof {
                    assert forall|k: Seq<char>| #[trigger]
                        self@.contains_key(k) <==> before@.insert(key@, value@).contains_key(
                            k,
                        ) by {
                        if before@.contains_key(k) {
                            let h = choose|h: int| before.holds_at(k, h);
                            assert(self.holds_at(k, h));
                        }
                        if self@.contains_key(k) {
                            let h = choose|h: int| self.holds_at(k, h);
                            assert(before.holds_at(k, h));
                        }
                    }
                }
            },
            None => {
                self.entries.push((key, value));
                proof {
                    let n = before.entries.len() as int;
                    assert forall|i: int, j: int| 0 <= i < j < self.entries.len() implies (
                    #[trigger] self.entries[i]).0@ != (#[trigger] self.entries[j]).0@ by {
                        if j == n {
                            assert(!before.holds_at(key@, i));
                        }
                    }
                    assert forall|k: Seq<char>| #[trigger]
                        self@.contains_key(k) <==> before@.insert(key@, value@).contains_key(
                            k,
                        ) by {
                        if before@.contains_key(k) {
                            let h = choose|h: int| before.holds_at(k, h);
                            assert(self.holds_at(k, h));
                        }
                        if self@.contains_key(k) {
                            let h = choose|h: int| self.holds_at(k, h);
                            if h < n {
                                assert(before.holds_at(k, h));
                            }
                        }
                        if k == key@ {
                            assert(self.holds_at(k, n));
                        }
                    }
                    assert forall|k: Seq<char>| #[trigger] self@.contains_key(k) implies self@[k]
                        == before@.insert(key@, value@)[k] by {
                        let h = choose|h: int| self.holds_at(k, h);
                        if h < n {
                            before.lemma_value_at(k, h);
                        }
                    }
                }
            },
        }
    }

    /// The entry at the index `i` gives a key of the map and its value.
    pub proof fn lemma_entry_is_held(&self, i: int)
        requires
            self.well_formed(),
            0 <= i < self.entries_view().len(),
        ensures
            self@.contains_key(self.entries_view()[i].0),
            self@[self.entries_view()[i].0] == self.entries_view()[i].1,
    {
        self.lemma_value_at(self.entries[i].0@, i);
    }

    /// The index of the entry that gives the key `key` and its value.
    pub proof fn lemma_held_entry(&self, key: Seq<char>) -> (i: int)
        requires
            self.well_formed(),
            self@.contains_key(key),
        ensures
            0 <= i < self.entries_view().len(),
            self.entries_view()[i] == (key, self@[key]),
    {
        let i = choose|i: int| self.holds_at(key, i);
        i
    }

    /// The value of a key is the one that stands beside it.
    proof fn lemma_value_at(&self, key: Seq<char>, i: int)
        requires
            self.well_formed(),
            self.holds_at(key, i),
        ensures
            self@.contains_key(key),
            self@[key] == self.entries[i].1@,
    {
    }
}

impl View for Properties {
    type V = Map<Seq<char>, Seq<char>>;

    closed spec fn view(&self) -> Map<Seq<char>, Seq<char>> {
        Map::new(
            |key: Seq<char>| exists|i: int| self.holds_at(key, i),
            |key: Seq<char>| self.entries[choose|i: int| self.holds_at(key, i)].1@,
        )
    }
}

/// The index of the first `c` at or after `from`, or the length of `chars`.
fn find_char(chars: &Vec<char>, from: usize, c: char) -> (at: usize)
    requires
        from <= chars.len(),
    ensures
        at == find(chars@, from as int, c),
        from <= at <= chars.len(),
{
    let mut at = from;
    while at < chars.len() && chars[at] != c
        invariant
            from <= at <= chars.len(),
            find(chars@, from as int, c) == find(chars@, at as int, c),
        decreases chars.len() - at,
    {
        at += 1;
    }
    at
}

/// The range of `chars` that is left once the brackets at both ends are
/// dropped.
fn inner_range(chars: &Vec<char>) -> (range: (usize, usize))
    ensures
        range.0 <= range.1 <= chars.len(),
        range.0 == skip_brackets(chars@, 0),
        range.1 == drop_brackets(chars@, range.0 as int, chars.len() as int),
{
    let mut lo: usize = 0;
    while lo < chars.len() && (chars[lo] == '[' || chars[lo] == ']')
        invariant
            lo <= chars.len(),
            skip_brackets(chars@, 0) == skip_brackets(chars@, lo as int),
        decreases chars.len() - lo,
    {
        lo += 1;
    }
    let mut hi: usize = chars.len();
    while lo < hi && (chars[hi - 1] == '[' || chars[hi - 1] == ']')
        invariant
            lo <= hi <= chars.len(),
            drop_brackets(chars@, lo as int, chars.len() as int) == drop_brackets(
                chars@,
                lo as int,
                hi as int,
            ),
        decreases hi - lo,
    {
        hi -= 1;
    }
    (lo, hi)
}

/// Whether `chars` holds white space only.
fn blank(chars: &Vec<char>) -> (all: bool)
    ensures
        all == is_blank(chars@),
{
    for i in 0..chars.len()
        invariant
            forall|h: int| 0 <= h < i ==> is_space(#[trigger] chars@[h]),
    {
        if !is_whitespace(chars[i]) {
            return false;
        }
    }
    true
}

/// The key and the value of one piece of a property string, where it has
/// both.
fn parse_piece(piece: &str) -> (entry: Option<(String, String)>)
    ensures
        entry is Some <==> has_value(piece@),
        entry matches Some(e) ==> e.0@ == key_of(piece@) && e.1@ == value_of(piece@),
{
    let chars = characters(piece);
    let eq = find_char(&chars, 0, '=');
    if eq == chars.len() {
        return None;
    }
    let end = find_char(&chars, eq + 1, '=');
    let key = piece.substring_char(0, eq).to_owned();
    let value = piece.substring_char(eq + 1, end).to_owned();
    Some((key, value))
}

/// The properties that `props` states, or `None` where it cannot be
/// parsed.
pub fn try_parse_properties(props: &str) -> (properties: Option<Properties>)
    ensures
        properties is Some <==> is_parsable(props@),
        properties matches Some(found) ==> found.well_formed() && found@ == parsed(props@),
{
    let all = characters(props);
    let (lo, hi) = inner_range(&all);
    let inner = props.substring_char(lo, hi);
    let chars = characters(inner);
    let mut properties = Properties::new();
    if blank(&chars) {
        return Some(properties);
    }
    let ghost mut done: Seq<Seq<char>> = Seq::empty();
    let mut start: usize = 0;
    loop
        invariant_except_break
            split(chars@, ',') == done + split_from(chars@, start as int, ','),
        invariant
            start <= chars.len(),
            chars@ == inner@,
            chars@ == strip_brackets(props@),
            !is_blank(chars@),
            forall|k: int| 0 <= k < done.len() ==> has_value(#[trigger] done[k]),
            properties.well_formed(),
            properties@ == entries_of(done),
        ensures
            split(chars@, ',') == done,
        decreases chars.len() - start,
    {
        let end = find_char(&chars, start, ',');
        let piece = inner.substring_char(start, end);
        match parse_piece(piece) {
            None => {
                proof {
                    let pieces = split(chars@, ',');
                    assert(!has_value(pieces[done.len() as int]));
                }
                return None;
            },
            Some(entry) => {
                properties.insert(entry.0, entry.1);
                proof {
                    let longer = done.push(piece@);
                    assert(longer.drop_last() =~= done);
                    done = longer;
                }
            },
        }
        if end == chars.len() {
            break ;
        }
        start = end + 1;
    }
    Some(properties)
}

/// The properties that `props` states. Of a key that `props` states twice
/// the later value counts.
pub fn parse_properties(props: &str) -> (properties: Properties)
    requires
        is_parsable(props@),
    ensures
        properties.well_formed(),
        properties@ == parsed(props@),
{
    match try_parse_properties(props) {
        Some(properties) => properties,
        None => Properties::new(),
    }
}

} // verus!
