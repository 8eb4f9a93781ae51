//! Character-level helpers shared by the parsers and renderers.

use std::collections::HashMap;
use vstd::prelude::*;
use vstd::utf8::{decode_utf8, valid_utf8};

verus! {

broadcast use vstd::string::group_string_axioms;

/// The first index `k >= from` with `s[k] == c`, if there is one.
pub open spec fn first_index_from(s: Seq<char>, c: char, from: int) -> Option<int>
    decreases s.len() - from,
{
    if from < 0 || from >= s.len() {
        None
    } else if s[from] == c {
        Some(from)
    } else {
        first_index_from(s, c, from + 1)
    }
}

/// What `first_index_from` finds is the first occurrence at or after `from`.
pub proof fn lemma_first_index_from(s: Seq<char>, c: char, from: int)
    requires
        0 <= from,
    ensures
        match first_index_from(s, c, from) {
            Some(k) => from <= k < s.len() && s[k] == c && forall|m: int|
                from <= m < k ==> s[m] != c,
            None => forall|m: int| from <= m < s.len() ==> s[m] != c,
        },
    decreases s.len() - from,
{
    if from < s.len() && s[from] != c {
        lemma_first_index_from(s, c, from + 1);
    }
}

/// `first_index_from` finds `k` where `c` stands at `k` and nowhere in `[from, k)`.
pub proof fn lemma_first_index_is(s: Seq<char>, c: char, from: int, k: int)
    requires
        0 <= from <= k < s.len(),
        s[k] == c,
        forall|m: int| from <= m < k ==> s[m] != c,
    ensures
        first_index_from(s, c, from) == Some(k),
    decreases k - from,
{
    if from < k {
        lemma_first_index_is(s, c, from + 1, k);
    }
}

/// `first_index_from` finds nothing where `c` stands nowhere in `[from, s.len())`.
pub proof fn lemma_first_index_none(s: Seq<char>, c: char, from: int)
    requires
        0 <= from,
        forall|m: int| from <= m < s.len() ==> s[m] != c,
    ensures
        first_index_from(s, c, from) is None,
    decreases s.len() - from,
{
    if from < s.len() {
        lemma_first_index_none(s, c, from + 1);
    }
}

/// The index of the next `stop` at or after `from`, or `s.len()` where there is none.
pub open spec fn stop_or_end(s: Seq<char>, stop: char, from: int) -> int {
    match first_index_from(s, stop, from) {
        Some(k) => k,
        None => s.len() as int,
    }
}

pub proof fn lemma_stop_or_end(s: Seq<char>, stop: char, from: int)
    requires
        0 <= from <= s.len(),
    ensures
        from <= stop_or_end(s, stop, from) <= s.len(),
        forall|m: int| from <= m < stop_or_end(s, stop, from) ==> s[m] != stop,
        stop_or_end(s, stop, from) < s.len() ==> s[stop_or_end(s, stop, from)] == stop,
{
    lemma_first_index_from(s, stop, from);
}

/// The first index `k >= from` whose character is neither `a` nor `b`, or `s.len()`.
pub open spec fn skip_from(s: Seq<char>, a: char, b: char, from: int) -> int
    decreases s.len() - from,
{
    if from < 0 {
        0
    } else if from >= s.len() {
        from
    } else if s[from] == a || s[from] == b {
        skip_from(s, a, b, from + 1)
    } else {
        from
    }
}

/// `skip_from` is characterised by what it skips and where it stops.
pub proof fn lemma_skip_from(s: Seq<char>, a: char, b: char, from: int, to: int)
    requires
        0 <= from <= to <= s.len(),
        forall|k: int| from <= k < to ==> s[k] == a || s[k] == b,
        to == s.len() || !(s[to] == a || s[to] == b),
    ensures
        skip_from(s, a, b, from) == to,
    decreases to - from,
{
    if from < to {
        lemma_skip_from(s, a, b, from + 1, to);
    }
}

pub proof fn lemma_skip_from_bounds(s: Seq<char>, a: char, b: char, from: int)
    requires
        0 <= from <= s.len(),
    ensures
        from <= skip_from(s, a, b, from) <= s.len(),
    decreases s.len() - from,
{
    if from < s.len() && (s[from] == a || s[from] == b) {
        lemma_skip_from_bounds(s, a, b, from + 1);
    }
}

/// The characters of `s`, in order.
pub(crate) fn chars_of(s: &str) -> (v: Vec<char>)
    ensures
        v@ == s@,
{
    let mut v: Vec<char> = Vec::new();
    for c in it: s.chars()
        invariant
            it.seq() == s@,
            v@ == s@.take(it.index()),
    {
        v.push(c);
    }
    v
}

/// Appends one character to a string (`String::push`).
#[verifier::external_body]
pub(crate) fn push_char(s: &mut String, c: char)
    ensures
        final(s)@ == old(s)@.push(c),
{
    s.push(c);
}

/// The string made of `v[from..to]`.
pub(crate) fn string_from_chars(v: &Vec<char>, from: usize, to: usize) -> (s: String)
    requires
        from <= to <= v@.len(),
    ensures
        s@ == v@.subrange(from as int, to as int),
{
    let mut s = String::new();
    let mut i = from;
    while i < to
        invariant
            from <= i <= to <= v@.len(),
            s@ == v@.subrange(from as int, i as int),
        decreases to - i,
    {
        push_char(&mut s, v[i]);
        assert(v@.subrange(from as int, i + 1) =~= v@.subrange(from as int, i as int).push(v@[i as int]));
        i = i + 1;
    }
    s
}

/// The first index `k >= from` with `v[k] == c`, if there is one.
pub(crate) fn find_char(v: &Vec<char>, c: char, from: usize) -> (r: Option<usize>)
    requires
        from <= v@.len(),
    ensures
        match r {
            Some(k) => first_index_from(v@, c, from as int) == Some(k as int),
            None => first_index_from(v@, c, from as int) is None,
        },
{
    let mut i = from;
    while i < v.len()
        invariant
            from <= i <= v@.len(),
            first_index_from(v@, c, from as int) == first_index_from(v@, c, i as int),
        decreases v@.len() - i,
    {
        if v[i] == c {
            return Some(i);
        }
        i = i + 1;
    }
    None
}

/// Whether `v[from..to]` spells out `word`.
pub(crate) fn chars_match(v: &Vec<char>, from: usize, to: usize, word: &[char]) -> (b: bool)
    requires
        from <= to <= v@.len(),
    ensures
        b == (v@.subrange(from as int, to as int) == word@),
{
    if to - from != word.len() {
        return false;
    }
    let mut i: usize = 0;
    while i < word.len()
        invariant
            from <= to <= v@.len(),
            to - from == word@.len(),
            0 <= i <= word@.len(),
            forall|m: int| 0 <= m < i ==> v@[from + m] == word@[m],
        decreases word@.len() - i,
    {
        if v[from + i] != word[i] {
            assert(v@.subrange(from as int, to as int)[i as int] != word@[i as int]);
            return false;
        }
        i = i + 1;
    }
    assert(v@.subrange(from as int, to as int) =~= word@);
    true
}

/// The contents of a map from strings to strings, keyed and valued by characters.
pub uninterp spec fn string_map_view(m: HashMap<String, String>) -> Map<Seq<char>, Seq<char>>;

/// An empty map (`HashMap::new`); its contents are empty.
#[verifier::external_body]
pub(crate) fn new_string_map() -> (m: HashMap<String, String>)
    ensures
        string_map_view(m) =~= Map::empty(),
{
    HashMap::new()
}

/// `HashMap::insert`: afterwards `k` maps to `v` and every other key keeps its value.
/// Two `String` keys are the same key exactly when their characters agree.
#[verifier::external_body]
pub(crate) fn string_map_insert(m: &mut HashMap<String, String>, k: String, v: String)
    ensures
        string_map_view(*final(m)) == string_map_view(*old(m)).insert(k@, v@),
{
    m.insert(k, v);
}

/// The characters that `String::from_utf8_lossy` reads from `bytes`.
pub uninterp spec fn utf8_lossy(bytes: Seq<u8>) -> Seq<char>;

/// `String::from_utf8_lossy`, taken as an owned string. Its result depends on
/// the bytes alone; where they are valid UTF-8 it is their decoding. What it
/// makes of invalid sequences (each becomes U+FFFD) is not stated here.
#[verifier::external_body]
pub(crate) fn decode_lossy(bytes: &[u8]) -> (s: String)
    ensures
        s@ == utf8_lossy(bytes@),
        valid_utf8(bytes@) ==> s@ == decode_utf8(bytes@),
{
    String::from_utf8_lossy(bytes).into_owned()
}

} // verus!
