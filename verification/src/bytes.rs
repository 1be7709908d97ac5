//! Byte-level vocabulary shared by the document modules.

use vstd::prelude::*;

verus! {

pub const TAB: u8 = 0x09;

pub const LF: u8 = 0x0a;

pub const CR: u8 = 0x0d;

pub const SPACE: u8 = 0x20;

pub const HASH: u8 = 0x23;

pub const LESS: u8 = 0x3c;

pub const GREATER: u8 = 0x3e;

pub const UPPER_X: u8 = 0x58;

pub const OPEN_BRACKET: u8 = 0x5b;

pub const CLOSE_BRACKET: u8 = 0x5d;

pub const BACKTICK: u8 = 0x60;

pub const LOWER_X: u8 = 0x78;

pub const TILDE: u8 = 0x7e;

/// A half-open byte range.
#[derive(Clone, Copy, Debug, PartialEq, Eq, Hash, Structural)]
pub struct ByteRange {
    pub start: usize,
    pub end: usize,
}

/// A half-open range over mathematical integers: the model of [`ByteRange`].
pub struct Span {
    pub start: int,
    pub end: int,
}

impl View for ByteRange {
    type V = Span;

    open spec fn view(&self) -> Span {
        Span { start: self.start as int, end: self.end as int }
    }
}

/// The bytes of `s` inside `r`.
pub open spec fn slice_of(s: Seq<u8>, r: Span) -> Seq<u8> {
    s.subrange(r.start, r.end)
}

/// A range that is ordered and stays inside a source of `len` bytes.
pub open spec fn span_within(r: Span, len: int) -> bool {
    0 <= r.start <= r.end <= len
}

/// The models of a vector of ranges.
pub open spec fn spans(v: Seq<ByteRange>) -> Seq<Span> {
    v.map_values(|r: ByteRange| r@)
}

/// The model of an optional range.
pub open spec fn opt_span(r: Option<ByteRange>) -> Option<Span> {
    match r {
        Some(r) => Some(r@),
        None => None,
    }
}

/// A space or a tab.
pub open spec fn is_space_or_tab(b: u8) -> bool {
    b == SPACE || b == TAB
}

/// A line feed or a carriage return.
pub open spec fn is_line_break(b: u8) -> bool {
    b == LF || b == CR
}

/// The first index at or after `from` whose item satisfies `p`, or the length.
pub open spec fn find_from<T>(s: Seq<T>, p: spec_fn(T) -> bool, from: int) -> int
    decreases s.len() - from,
{
    if from < 0 || from >= s.len() {
        s.len() as int
    } else if p(s[from]) {
        from
    } else {
        find_from(s, p, from + 1)
    }
}

/// `find_from` lands on a match or on the length, and skips only non-matches.
pub proof fn lemma_find_from<T>(s: Seq<T>, p: spec_fn(T) -> bool, from: int)
    requires
        0 <= from <= s.len(),
    ensures
        from <= find_from(s, p, from) <= s.len(),
        find_from(s, p, from) < s.len() ==> p(s[find_from(s, p, from)]),
        forall|k: int| from <= k < find_from(s, p, from) ==> !p(#[trigger] s[k]),
    decreases s.len() - from,
{
    if from < s.len() && !p(s[from]) {
        lemma_find_from(s, p, from + 1);
    }
}

/// A position with no earlier match that matches, or is the end, is what `find_from` finds.
pub proof fn lemma_find_from_is<T>(s: Seq<T>, p: spec_fn(T) -> bool, from: int, at: int)
    requires
        0 <= from <= at <= s.len(),
        at < s.len() ==> p(s[at]),
        forall|k: int| from <= k < at ==> !p(#[trigger] s[k]),
    ensures
        find_from(s, p, from) == at,
    decreases at - from,
{
    if from < at {
        assert(!p(s[from]));
        lemma_find_from_is(s, p, from + 1, at);
    }
}

/// Searching behind a prefix is searching in what follows it.
pub proof fn lemma_find_behind<T>(a: Seq<T>, x: Seq<T>, p: spec_fn(T) -> bool, i: int)
    requires
        0 <= i <= x.len(),
    ensures
        find_from(a + x, p, a.len() + i) == a.len() + find_from(x, p, i),
{
    let s = a + x;
    let e = find_from(x, p, i);
    lemma_find_from(x, p, i);
    assert forall|k: int| a.len() + i <= k < a.len() + e implies !p(#[trigger] s[k]) by {
        assert(!p(x[k - a.len()]));
    }
    if e < x.len() {
        assert(s[a.len() + e] == x[e]);
    }
    lemma_find_from_is(s, p, a.len() + i, a.len() + e);
}

/// Whether `haystack` begins with `prefix`.
pub fn starts_with(haystack: &[u8], prefix: &[u8]) -> (r: bool)
    ensures
        r == prefix@.is_prefix_of(haystack@),
{
    if haystack.len() < prefix.len() {
        return false;
    }
    let mut i: usize = 0;
    while i < prefix.len()
        invariant
            i <= prefix.len() <= haystack.len(),
            forall|k: int| 0 <= k < i ==> prefix@[k] == haystack@[k],
        decreases prefix.len() - i,
    {
        if haystack[i] != prefix[i] {
            assert(haystack@.take(prefix@.len() as int)[i as int] != prefix@[i as int]);
            return false;
        }
        i += 1;
    }
    assert(haystack@.subrange(0, prefix@.len() as int) =~= prefix@);
    true
}

/// Whether two byte strings are equal.
pub fn equal(a: &[u8], b: &[u8]) -> (r: bool)
    ensures
        r == (a@ == b@),
{
    if a.len() != b.len() {
        return false;
    }
    let mut i: usize = 0;
    while i < a.len()
        invariant
            i <= a.len() == b.len(),
            forall|k: int| 0 <= k < i ==> a@[k] == b@[k],
        decreases a.len() - i,
    {
        if a[i] != b[i] {
            return false;
        }
        i += 1;
    }
    assert(a@ =~= b@);
    true
}

/// Whether `haystack` has `needle` at byte `at`.
pub fn has_at(haystack: &[u8], at: usize, needle: &[u8]) -> (r: bool)
    requires
        at <= haystack@.len(),
    ensures
        r == needle@.is_prefix_of(haystack@.skip(at as int)),
{
    let rest = vstd::slice::slice_subrange(haystack, at, haystack.len());
    assert(rest@ =~= haystack@.skip(at as int));
    starts_with(rest, needle)
}

/// A copy of `source[start..end]`.
pub fn copy_range(source: &[u8], start: usize, end: usize) -> (r: Vec<u8>)
    requires
        start <= end <= source@.len(),
    ensures
        r@ == source@.subrange(start as int, end as int),
{
    vstd::slice::slice_to_vec(vstd::slice::slice_subrange(source, start, end))
}

/// `source` with the bytes `[start, end)` replaced by `insert`.
pub open spec fn spliced(source: Seq<u8>, start: int, end: int, insert: Seq<u8>) -> Seq<u8> {
    source.take(start) + insert + source.skip(end)
}

/// Replace the bytes `[start, end)` of `source` by `insert`.
pub fn splice(source: &[u8], start: usize, end: usize, insert: &[u8]) -> (r: Vec<u8>)
    requires
        start <= end <= source@.len(),
    ensures
        r@ == spliced(source@, start as int, end as int, insert@),
{
    let mut out = copy_range(source, 0, start);
    out.extend_from_slice(insert);
    out.extend_from_slice(vstd::slice::slice_subrange(source, end, source.len()));
    assert(source@.take(start as int) =~= source@.subrange(0, start as int));
    assert(source@.skip(end as int) =~= source@.subrange(end as int, source@.len() as int));
    out
}

} // verus!
