//! Splits source bytes into a byte-order-mark preamble and physical lines.
//!
//! The tokenizer knows nothing of Markdown: it finds line breaks and nothing else.

use crate::bytes;
use crate::bytes::{ByteRange, Span, CR, LF};
use vstd::prelude::*;

verus! {

/// The first byte of the UTF-8 byte-order mark.
pub const BOM_0: u8 = 0xef;

/// The second byte of the UTF-8 byte-order mark.
pub const BOM_1: u8 = 0xbb;

/// The third byte of the UTF-8 byte-order mark.
pub const BOM_2: u8 = 0xbf;

/// The length of the preamble: three bytes for a byte-order mark, else none.
pub open spec fn preamble_len(s: Seq<u8>) -> int {
    if s.len() >= 3 && s[0] == BOM_0 && s[1] == BOM_1 && s[2] == BOM_2 {
        3
    } else {
        0
    }
}

/// The preamble of a source: its byte-order mark, or nothing.
#[derive(Clone, Copy, Debug, PartialEq, Eq, Structural)]
pub struct Preamble {
    pub range: ByteRange,
}

impl Preamble {
    /// Detect a byte-order mark at the start of `source`.
    pub fn new(source: &[u8]) -> (r: Self)
        ensures
            r.range@ == (Span { start: 0, end: preamble_len(source@) }),
    {
        if source.len() >= 3 && source[0] == BOM_0 && source[1] == BOM_1 && source[2] == BOM_2 {
            Preamble { range: ByteRange { start: 0, end: 3 } }
        } else {
            Preamble { range: ByteRange { start: 0, end: 0 } }
        }
    }

    /// Where physical lines begin.
    pub fn start_of_lines(&self) -> (r: usize)
        ensures
            r == self.range.end,
    {
        self.range.end
    }
}

/// One physical line: its content, then its break (which the last line may lack).
#[derive(Clone, Copy, Debug, PartialEq, Eq, Structural)]
pub struct Line {
    pub range: ByteRange,
    pub content_end: usize,
}

/// The model of a [`Line`].
pub struct LineSpan {
    pub start: int,
    pub content_end: int,
    pub end: int,
}

impl LineSpan {
    /// The whole line, break included.
    pub open spec fn span(self) -> Span {
        Span { start: self.start, end: self.end }
    }

    /// The bytes before the break.
    pub open spec fn content(self, s: Seq<u8>) -> Seq<u8> {
        s.subrange(self.start, self.content_end)
    }
}

impl View for Line {
    type V = LineSpan;

    open spec fn view(&self) -> LineSpan {
        LineSpan {
            start: self.range.start as int,
            content_end: self.content_end as int,
            end: self.range.end as int,
        }
    }
}

/// The models of a vector of lines.
pub open spec fn line_spans(v: Seq<Line>) -> Seq<LineSpan> {
    v.map_values(|l: Line| l@)
}

/// The test for a line break byte.
pub open spec fn breaks() -> spec_fn(u8) -> bool {
    |b: u8| bytes::is_line_break(b)
}

/// Where the content of the line that starts at `i` ends.
pub open spec fn line_end(s: Seq<u8>, i: int) -> int {
    bytes::find_from(s, breaks(), i)
}

/// Where the line break at `pos` ends: `\r\n` is one break.
pub open spec fn terminator_end(s: Seq<u8>, pos: int) -> int {
    if pos < 0 || pos >= s.len() {
        pos
    } else if s[pos] == LF {
        pos + 1
    } else if s[pos] == CR {
        if pos + 1 < s.len() && s[pos + 1] == LF {
            pos + 2
        } else {
            pos + 1
        }
    } else {
        pos
    }
}

/// The line that starts at `i`.
pub open spec fn line_at(s: Seq<u8>, i: int) -> LineSpan {
    LineSpan {
        start: i,
        content_end: line_end(s, i),
        end: terminator_end(s, line_end(s, i)),
    }
}

/// The lines of `s` from byte `i` on.
pub open spec fn lines_from(s: Seq<u8>, i: int) -> Seq<LineSpan>
    decreases s.len() - i,
{
    if i < 0 || i >= s.len() {
        Seq::empty()
    } else {
        proof {
            lemma_line_at(s, i);
        }
        seq![line_at(s, i)] + lines_from(s, line_at(s, i).end)
    }
}

/// The physical lines of a source, after its preamble.
pub open spec fn source_lines(s: Seq<u8>) -> Seq<LineSpan> {
    lines_from(s, preamble_len(s))
}

/// The shape of one line of `s`.
pub open spec fn line_ok(s: Seq<u8>, l: LineSpan) -> bool {
    &&& 0 <= l.start <= l.content_end <= l.end <= s.len()
    &&& l.start < l.end
    &&& l.end < s.len() ==> l.content_end < l.end
    &&& l.content_end < l.end ==> bytes::is_line_break(s[l.end - 1])
    &&& l.content_end < l.end && l.end < s.len() && s[l.end - 1] == CR ==> s[l.end] != LF
    &&& l.content_end < l.end && s[l.content_end] == LF ==> l.end == l.content_end + 1
    &&& forall|k: int| l.start <= k < l.content_end ==> !bytes::is_line_break(#[trigger] s[k])
}

/// The line that starts inside the source is well formed.
pub proof fn lemma_line_at(s: Seq<u8>, i: int)
    requires
        0 <= i < s.len(),
    ensures
        line_ok(s, line_at(s, i)),
{
    bytes::lemma_find_from(s, breaks(), i);
    let e = line_end(s, i);
    assert forall|k: int| i <= k < e implies !bytes::is_line_break(#[trigger] s[k]) by {
        assert(!breaks()(s[k]));
    }
    if e < s.len() {
        assert(breaks()(s[e]));
    }
}

/// Line `k` ends where line `k + 1` starts.
pub open spec fn adjoin(l: Seq<LineSpan>, k: int) -> bool {
    l[k].end == l[k + 1].start
}

/// Consecutive lines that tile `[from, to)`.
pub open spec fn lines_tile(s: Seq<u8>, l: Seq<LineSpan>, from: int, to: int) -> bool {
    &&& forall|k: int| 0 <= k < l.len() ==> line_ok(s, #[trigger] l[k])
    &&& forall|k: int| 0 <= k < l.len() - 1 ==> #[trigger] adjoin(l, k)
    &&& l.len() == 0 ==> from == to
    &&& l.len() > 0 ==> l[0].start == from && l.last().end == to
}

/// The lines from `i` on tile the rest of the source.
pub proof fn lemma_lines_from(s: Seq<u8>, i: int)
    requires
        0 <= i <= s.len(),
    ensures
        lines_tile(s, lines_from(s, i), i, s.len() as int),
    decreases s.len() - i,
{
    if i < s.len() {
        lemma_line_at(s, i);
        let first = line_at(s, i);
        lemma_lines_from(s, first.end);
        let rest = lines_from(s, first.end);
        let all = lines_from(s, i);
        assert(all =~= seq![first] + rest);
        assert forall|k: int| 0 <= k < all.len() implies line_ok(s, #[trigger] all[k]) by {
            if k > 0 {
                assert(all[k] == rest[k - 1]);
            }
        }
        assert forall|k: int| 0 <= k < all.len() - 1 implies #[trigger] adjoin(all, k) by {
            assert(all[k + 1] == rest[k]);
            if k > 0 {
                assert(adjoin(rest, k - 1));
                assert(all[k] == rest[k - 1]);
            }
        }
    }
}

/// In a tiling, later lines start no earlier than earlier ones end.
pub proof fn lemma_tile_order(s: Seq<u8>, l: Seq<LineSpan>, from: int, to: int, a: int, b: int)
    requires
        lines_tile(s, l, from, to),
        0 <= a < b < l.len(),
    ensures
        l[a].end <= l[b].start,
    decreases b - a,
{
    assert(adjoin(l, b - 1));
    if a < b - 1 {
        lemma_tile_order(s, l, from, to, a, b - 1);
        assert(line_ok(s, l[b - 1]));
    }
}

/// Each line of a source is the one that starts there.
pub proof fn lemma_line_is(s: Seq<u8>, i: int, k: int)
    requires
        0 <= i <= s.len(),
        0 <= k < lines_from(s, i).len(),
    ensures
        ({
            let line = lines_from(s, i)[k];
            0 <= line.start < s.len() && line == line_at(s, line.start)
        }),
    decreases s.len() - i,
{
    lemma_line_at(s, i);
    let first = line_at(s, i);
    let all = lines_from(s, i);
    assert(all =~= seq![first] + lines_from(s, first.end));
    if k > 0 {
        lemma_line_is(s, first.end, k - 1);
        assert(all[k] == lines_from(s, first.end)[k - 1]);
    }
}

/// The first index at or after `pos` of a byte that breaks a line.
fn line_end_at(source: &[u8], pos: usize) -> (r: usize)
    requires
        pos <= source@.len(),
    ensures
        r == line_end(source@, pos as int),
        pos <= r <= source@.len(),
{
    let mut i: usize = pos;
    while i < source.len() && source[i] != LF && source[i] != CR
        invariant
            pos <= i <= source.len(),
            forall|k: int| pos <= k < i ==> !breaks()(#[trigger] source@[k]),
        decreases source.len() - i,
    {
        i += 1;
    }
    proof {
        bytes::lemma_find_from_is(source@, breaks(), pos as int, i as int);
    }
    i
}

/// Where the line break at `pos` ends.
fn terminator_end_at(source: &[u8], pos: usize) -> (r: usize)
    requires
        pos <= source@.len(),
    ensures
        r == terminator_end(source@, pos as int),
        pos <= r <= source@.len(),
{
    if pos >= source.len() {
        return pos;
    }
    if source[pos] == LF {
        pos + 1
    } else if source[pos] == CR {
        if pos + 1 < source.len() && source[pos + 1] == LF {
            pos + 2
        } else {
            pos + 1
        }
    } else {
        pos
    }
}

/// Split `source` into its preamble and its physical lines.
pub fn tokenize(source: &[u8]) -> (r: (Preamble, Vec<Line>))
    ensures
        r.0.range@ == (Span { start: 0, end: preamble_len(source@) }),
        line_spans(r.1@) == source_lines(source@),
{
    let preamble = Preamble::new(source);
    let mut lines: Vec<Line> = Vec::new();
    let mut i: usize = preamble.start_of_lines();
    assert(line_spans(lines@) + lines_from(source@, i as int) =~= source_lines(source@));
    while i < source.len()
        invariant
            i <= source.len(),
            line_spans(lines@) + lines_from(source@, i as int) == source_lines(source@),
        decreases source.len() - i,
    {
        let content_end = line_end_at(source, i);
        let end = terminator_end_at(source, content_end);
        let line = Line { range: ByteRange { start: i, end }, content_end };
        proof {
            lemma_line_at(source@, i as int);
            assert(line@ == line_at(source@, i as int));
        }
        let ghost before = lines@;
        lines.push(line);
        proof {
            assert(line_spans(lines@) =~= line_spans(before).push(line@));
            assert(line_spans(before) + (seq![line@] + lines_from(source@, end as int))
                =~= line_spans(lines@) + lines_from(source@, end as int));
        }
        i = end;
    }
    assert(line_spans(lines@) + lines_from(source@, i as int) =~= line_spans(lines@));
    (preamble, lines)
}

} // verus!
