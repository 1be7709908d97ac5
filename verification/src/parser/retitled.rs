//! What is read back of a note whose title was replaced.

use crate::bytes;
use crate::bytes::{Span, HASH, LF, SPACE};
use crate::error::NbErrorView;
use crate::lines;
use crate::parser;
use crate::parser::assemble;
use crate::parser::classify;
use crate::parser::document;
use crate::parser::document::{DocumentKind, DocumentView};
use crate::parser::helpers;
use crate::parser::readback;
use crate::parser::types::Token;
use crate::tokenizer;
use crate::tokenizer::LineSpan;
use vstd::prelude::*;

verus! {

/// A line moved by `by` bytes.
pub open spec fn moved(l: LineSpan, by: int) -> LineSpan {
    LineSpan { start: l.start + by, content_end: l.content_end + by, end: l.end + by }
}

/// Lines moved by `by` bytes.
pub open spec fn all_moved(l: Seq<LineSpan>, by: int) -> Seq<LineSpan> {
    Seq::new(l.len(), |k: int| moved(l[k], by))
}

/// The lines behind a prefix are those of what follows it.
pub proof fn lemma_lines_behind(a: Seq<u8>, x: Seq<u8>, i: int)
    requires
        0 <= i <= x.len(),
    ensures
        tokenizer::lines_from(a + x, a.len() + i) == all_moved(
            tokenizer::lines_from(x, i),
            a.len() as int,
        ),
    decreases x.len() - i,
{
    let s = a + x;
    let n = a.len() as int;
    if i < x.len() {
        bytes::lemma_find_behind(a, x, tokenizer::breaks(), i);
        bytes::lemma_find_from(x, tokenizer::breaks(), i);
        let e = tokenizer::line_end(x, i);
        if e < x.len() {
            assert(s[n + e] == x[e]);
            if e + 1 < x.len() {
                assert(s[n + e + 1] == x[e + 1]);
            }
        }
        let line = tokenizer::line_at(x, i);
        tokenizer::lemma_line_at(x, i);
        assert(tokenizer::line_at(s, n + i) == moved(line, n));
        lemma_lines_behind(a, x, line.end);
        let rest = tokenizer::lines_from(x, line.end);
        assert(tokenizer::lines_from(x, i) =~= seq![line] + rest);
        assert(tokenizer::lines_from(s, n + i) =~= seq![moved(line, n)] + all_moved(rest, n));
        assert(tokenizer::lines_from(s, n + i) =~= all_moved(tokenizer::lines_from(x, i), n));
    } else {
        assert(tokenizer::lines_from(s, n + i) =~= all_moved(tokenizer::lines_from(x, i), n));
    }
}

/// The tokens of what follows the head of a note.
pub open spec fn tail_tokens(x: Seq<u8>) -> Seq<Token> {
    classify::note_tokens(x, tokenizer::lines_from(x, 0))
}

/// The line where the body starts in what follows the title of a note.
pub open spec fn tail_body_line(t: Seq<Token>) -> int {
    let q = assemble::next_content(t, 0);
    if q < t.len() && t[q] is TagsPrefix {
        assemble::next_content(t, q + 1)
    } else {
        q
    }
}

/// The tag line in what follows the title of a note.
pub open spec fn tail_tags(x: Seq<u8>) -> Option<Seq<u8>> {
    let t = tail_tokens(x);
    let q = assemble::next_content(t, 0);
    if q < t.len() && t[q] is TagsPrefix {
        Some(bytes::slice_of(x, tokenizer::lines_from(x, 0)[q].span()))
    } else {
        None
    }
}

/// The body in what follows the title of a note.
pub open spec fn tail_body(x: Seq<u8>) -> Seq<u8> {
    let l = tokenizer::lines_from(x, 0);
    let b = tail_body_line(tail_tokens(x));
    if b < l.len() {
        x.skip(l[b].start)
    } else {
        Seq::empty()
    }
}

/// The lines and tokens of a note, those of its head first.
pub proof fn lemma_head_and_tail(a: Seq<u8>, x: Seq<u8>)
    requires
        tokenizer::preamble_len(a + x) <= a.len(),
        x.len() > 0 ==> readback::whole_lines(a, tokenizer::preamble_len(a + x), x),
    ensures
        ({
            let s = a + x;
            let p = tokenizer::preamble_len(s);
            let la = tokenizer::lines_from(a, p);
            let lx = tokenizer::lines_from(x, 0);
            &&& tokenizer::source_lines(s) == la + all_moved(lx, a.len() as int)
            &&& parser::tokens_of(s, DocumentKind::Note) == classify::note_tokens(a, la)
                + tail_tokens(x)
        }),
{
    let s = a + x;
    let p = tokenizer::preamble_len(s);
    let n = a.len() as int;
    let la = tokenizer::lines_from(a, p);
    let lx = tokenizer::lines_from(x, 0);
    let l = tokenizer::source_lines(s);
    if x.len() > 0 {
        readback::lemma_lines_join(a, x, p);
        lemma_lines_behind(a, x, 0);
    } else {
        assert(s =~= a);
        assert(lx =~= Seq::<LineSpan>::empty());
        assert(la + all_moved(lx, n) =~= la);
    }
    tokenizer::lemma_lines_from(a, p);
    tokenizer::lemma_lines_from(x, 0);
    let t = parser::tokens_of(s, DocumentKind::Note);
    let u = classify::note_tokens(a, la) + tail_tokens(x);
    assert forall|k: int| 0 <= k < t.len() implies t[k] == #[trigger] u[k] by {
        if k < la.len() {
            assert(l[k] == la[k]);
            assert(tokenizer::line_ok(a, la[k]));
            assert(la[k].content(a) =~= l[k].content(s));
        } else {
            let j = k - la.len();
            assert(l[k] == moved(lx[j], n));
            assert(tokenizer::line_ok(x, lx[j]));
            assert(lx[j].content(x) =~= l[k].content(s));
        }
    }
    assert(t =~= u);
}

/// Where content comes next in two token sequences, the second after the first.
pub proof fn lemma_next_behind(a: Seq<Token>, x: Seq<Token>, from: int, i: int)
    requires
        0 <= from <= a.len(),
        0 <= i <= x.len(),
        forall|k: int| from <= k < a.len() ==> (#[trigger] a[k]) is Blank,
    ensures
        assemble::next_content(a + x, from) == a.len() + assemble::next_content(x, 0),
        assemble::next_content(a + x, a.len() + i) == a.len() + assemble::next_content(x, i),
{
    let p = assemble::has_content();
    bytes::lemma_find_behind(a, x, p, i);
    bytes::lemma_find_behind(a, x, p, 0);
    let at = bytes::find_from(x, p, 0);
    bytes::lemma_find_from(x, p, 0);
    let t = a + x;
    assert forall|k: int| from <= k < a.len() + at implies !p(#[trigger] t[k]) by {
        if k < a.len() {
            assert(a[k] is Blank);
        } else {
            assert(!p(x[k - a.len()]));
        }
    }
    if at < x.len() {
        assert(t[a.len() + at] == x[at]);
    }
    bytes::lemma_find_from_is(t, p, from, a.len() + at);
}

/// Where the parts of a note stand whose first lines are blank but for a title.
#[verifier::rlimit(40)]
#[verifier::spinoff_prover]
proof fn lemma_titled_indices(
    s: Seq<u8>,
    l: Seq<LineSpan>,
    ta: Seq<Token>,
    tx: Seq<Token>,
    h: int,
)
    requires
        0 <= h < ta.len(),
        assemble::is_title(ta[h]),
        forall|k: int| 0 <= k < ta.len() && k != h ==> (#[trigger] ta[k]) is Blank,
    ensures
        ({
            let p = assemble::note_partition(s, l, ta + tx);
            let q = assemble::next_content(tx, 0);
            &&& 0 <= q <= tx.len()
            &&& p.title == Some(l[h].span())
            &&& p.tags == assemble::span_if(l, ta.len() + q, q < tx.len() && tx[q] is TagsPrefix)
            &&& p.bodies == assemble::rest_from(l, ta.len() + tail_body_line(tx), s.len() as int)
            &&& 0 <= tail_body_line(tx) <= tx.len()
        }),
{
    let t = ta + tx;
    let full = assemble::has_content();
    assert forall|k: int| 0 <= k < h implies !full(#[trigger] t[k]) by {
        assert(ta[k] is Blank);
    }
    assert(t[h] == ta[h] && full(t[h]));
    bytes::lemma_find_from_is(t, full, 0, h);
    let q = assemble::next_content(tx, 0);
    assemble::lemma_next_content(tx, 0);
    lemma_next_behind(ta, tx, h + 1, 0);
    if q < tx.len() {
        assert(t[ta.len() + q] == tx[q]);
        lemma_next_behind(ta, tx, h + 1, q + 1);
        assemble::lemma_next_content(tx, q + 1);
    }
}

/// Bytes behind a prefix.
pub proof fn lemma_slices_behind(a: Seq<u8>, x: Seq<u8>, r: LineSpan)
    requires
        0 <= r.start <= r.end <= x.len(),
    ensures
        bytes::slice_of(a + x, moved(r, a.len() as int).span()) == bytes::slice_of(x, r.span()),
        (a + x).skip(a.len() + r.start) == x.skip(r.start),
{
    assert(bytes::slice_of(a + x, moved(r, a.len() as int).span()) =~= bytes::slice_of(
        x,
        r.span(),
    ));
    assert((a + x).skip(a.len() + r.start) =~= x.skip(r.start));
}

/// The range of the tag line behind a head of `n` bytes.
pub open spec fn tags_behind(x: Seq<u8>, n: int) -> Option<Span> {
    let t = tail_tokens(x);
    let q = assemble::next_content(t, 0);
    if q < t.len() && t[q] is TagsPrefix {
        Some(moved(tokenizer::lines_from(x, 0)[q], n).span())
    } else {
        None
    }
}

/// The range of the body behind a head of `n` bytes.
pub open spec fn bodies_behind(x: Seq<u8>, n: int) -> Seq<Span> {
    let l = tokenizer::lines_from(x, 0);
    let b = tail_body_line(tail_tokens(x));
    if b < l.len() {
        seq![Span { start: n + l[b].start, end: n + x.len() }]
    } else {
        Seq::empty()
    }
}

/// A head of blank lines and one title, at line `h`.
pub open spec fn heads(a: Seq<u8>, p: int, h: int) -> bool {
    let la = tokenizer::lines_from(a, p);
    let t = classify::note_tokens(a, la);
    &&& 0 <= h < la.len()
    &&& assemble::is_title(t[h])
    &&& forall|k: int| 0 <= k < la.len() && k != h ==> (#[trigger] t[k]) is Blank
}

/// The partition of a note whose head is blank lines and a title.
#[verifier::rlimit(40)]
#[verifier::spinoff_prover]
proof fn lemma_titled_partition(a: Seq<u8>, x: Seq<u8>, h: int)
    requires
        tokenizer::preamble_len(a + x) <= a.len(),
        x.len() > 0 ==> readback::whole_lines(a, tokenizer::preamble_len(a + x), x),
        heads(a, tokenizer::preamble_len(a + x), h),
    ensures
        ({
            let la = tokenizer::lines_from(a, tokenizer::preamble_len(a + x));
            let p = parser::partition_of(a + x, DocumentKind::Note)->0;
            &&& p.title == Some(la[h].span())
            &&& p.tags == tags_behind(x, a.len() as int)
            &&& p.bodies == bodies_behind(x, a.len() as int)
        }),
{
    let s = a + x;
    let n = a.len() as int;
    let la = tokenizer::lines_from(a, tokenizer::preamble_len(s));
    let lx = tokenizer::lines_from(x, 0);
    let l = tokenizer::source_lines(s);
    let ta = classify::note_tokens(a, la);
    let tx = tail_tokens(x);
    lemma_head_and_tail(a, x);
    lemma_titled_indices(s, l, ta, tx, h);
    let q = assemble::next_content(tx, 0);
    let b = tail_body_line(tx);
    assert(l[h] == la[h]);
    assert(q < lx.len() ==> l[la.len() + q] == moved(lx[q], n));
    assert(b < lx.len() ==> l[la.len() + b] == moved(lx[b], n));
}

/// What those ranges hold.
pub proof fn lemma_tail_read(a: Seq<u8>, x: Seq<u8>)
    ensures
        document::opt_slice(a + x, tags_behind(x, a.len() as int)) == tail_tags(x),
        document::concat_ranges(a + x, bodies_behind(x, a.len() as int)) == tail_body(x),
{
    let s = a + x;
    let n = a.len() as int;
    let lx = tokenizer::lines_from(x, 0);
    let tx = tail_tokens(x);
    let q = assemble::next_content(tx, 0);
    assemble::lemma_next_content(tx, 0);
    tokenizer::lemma_lines_from(x, 0);
    if q < lx.len() {
        assemble::lemma_next_content(tx, q + 1);
        assert(tokenizer::line_ok(x, lx[q]));
        lemma_slices_behind(a, x, lx[q]);
    }
    let b = tail_body_line(tx);
    if b < lx.len() {
        assert(tokenizer::line_ok(x, lx[b]));
        lemma_slices_behind(a, x, lx[b]);
        readback::lemma_body_of(s, n + lx[b].start, x.skip(lx[b].start));
    } else {
        readback::lemma_body_of(s, s.len() as int, s.skip(s.len() as int));
    }
}

/// The partition of a note without a title and without a byte-order mark.
pub proof fn lemma_untitled_partition(s: Seq<u8>)
    requires
        tokenizer::preamble_len(s) == 0,
        parser::partition_of(s, DocumentKind::Note)->0.title is None,
    ensures
        ({
            let p = parser::partition_of(s, DocumentKind::Note)->0;
            &&& p.tags == tags_behind(s, 0)
            &&& p.bodies == bodies_behind(s, 0)
        }),
{
    assert(parser::tokens_of(s, DocumentKind::Note) == tail_tokens(s));
    let l = tokenizer::source_lines(s);
    assert(forall|k: int| #![trigger l[k]] moved(l[k], 0) == l[k]);
}

/// The lines before the end of line `h`, or before its start, are the first lines of a source.
#[verifier::rlimit(40)]
#[verifier::spinoff_prover]
pub proof fn lemma_lines_up_to(s: Seq<u8>, at: int, h: int)
    requires
        0 <= h < tokenizer::source_lines(s).len(),
        ({
            let line = tokenizer::source_lines(s)[h];
            at == line.start || at == line.end
        }),
    ensures
        ({
            let p = tokenizer::preamble_len(s);
            let a = s.take(at);
            let la = tokenizer::lines_from(a, p);
            let l = tokenizer::source_lines(s);
            let t = parser::tokens_of(s, DocumentKind::Note);
            let ta = classify::note_tokens(a, la);
            &&& p <= at <= s.len()
            &&& a + s.skip(at) == s
            &&& s.skip(at).len() > 0 ==> readback::whole_lines(a, p, s.skip(at))
            &&& at == l[h].end ==> la.len() == h + 1
            &&& at == l[h].start ==> la.len() == h
            &&& la.len() <= l.len()
            &&& forall|k: int| 0 <= k < la.len() ==> #[trigger] la[k] == l[k]
            &&& forall|k: int| 0 <= k < la.len() ==> #[trigger] ta[k] == t[k]
        }),
{
    let p = tokenizer::preamble_len(s);
    let l = tokenizer::source_lines(s);
    let a = s.take(at);
    let x = s.skip(at);
    assemble::lemma_source_lines(s);
    assemble::lemma_line_ends(s, l, h);
    if h > 0 {
        assemble::lemma_line_ends(s, l, h - 1);
        assemble::lemma_line_starts(s, l, 0, h);
    }
    assert(a + x =~= s);
    if x.len() > 0 && p < at {
        assert(a.last() == s[at - 1]);
        assert(x[0] == s[at]);
    }
    lemma_head_and_tail(a, x);
    let la = tokenizer::lines_from(a, p);
    let ta = classify::note_tokens(a, la);
    let t = parser::tokens_of(s, DocumentKind::Note);
    let m = la.len() as int;
    tokenizer::lemma_lines_from(a, p);
    assert forall|k: int| 0 <= k < m implies #[trigger] la[k] == l[k] by {}
    assert forall|k: int| 0 <= k < m implies #[trigger] ta[k] == t[k] by {
        assert(t == ta + tail_tokens(x));
    }
    if m > 0 {
        assert(l[m - 1].end == at);
        assert(tokenizer::line_ok(s, l[m - 1]));
        if m - 1 < h {
            tokenizer::lemma_tile_order(s, l, p, s.len() as int, m - 1, h);
            if m < h {
                tokenizer::lemma_tile_order(s, l, p, s.len() as int, m - 1, h - 1);
            }
        } else if m - 1 > h {
            tokenizer::lemma_tile_order(s, l, p, s.len() as int, h, m - 1);
        }
    }
}

/// A line that reads as the title of a note.
pub open spec fn titles(line: Seq<u8>) -> bool {
    &&& assemble::is_title(classify::note_token(line))
    &&& forall|k: int| 0 <= k < line.len() ==> !bytes::is_line_break(#[trigger] line[k])
}

/// A title line starts with a space or a `#`.
proof fn lemma_title_start(line: Seq<u8>)
    requires
        titles(line),
    ensures
        line.len() > 0,
        line[0] == SPACE || line[0] == HASH,
{
    assert(helpers::heading_level(line) is Some);
    bytes::lemma_find_from(line, helpers::not_space(), 0);
    let i = helpers::indent(line);
    bytes::lemma_find_from(line, helpers::not_hash(), i);
    if i > 0 {
        assert(!helpers::not_space()(line[0]));
    } else {
        assert(!helpers::not_hash()(line[0]));
    }
}

/// Some lines and then one more.
pub proof fn lemma_line_last(front: Seq<u8>, p: int, line: Seq<u8>)
    requires
        0 <= p <= front.len(),
        readback::whole_lines(front, p, line.push(LF)),
        forall|k: int| 0 <= k < line.len() ==> !bytes::is_line_break(#[trigger] line[k]),
    ensures
        ({
            let a = front + line.push(LF);
            let n = front.len() as int;
            let e = n + line.len();
            let lf = tokenizer::lines_from(front, p);
            let la = tokenizer::lines_from(a, p);
            &&& la == lf.push(LineSpan { start: n, content_end: e, end: e + 1 })
            &&& classify::note_tokens(a, la) == classify::note_tokens(front, lf).push(
                classify::note_token(line),
            )
        }),
{
    let x = line.push(LF);
    let a = front + x;
    let n = front.len() as int;
    let e = n + line.len();
    readback::lemma_lines_join(front, x, p);
    assert forall|k: int| n <= k < e implies !bytes::is_line_break(#[trigger] a[k]) by {
        assert(a[k] == line[k - n]);
    }
    readback::lemma_line_here(a, n, e);
    assert(tokenizer::lines_from(a, e + 1) =~= Seq::<LineSpan>::empty());
    let lf = tokenizer::lines_from(front, p);
    let la = tokenizer::lines_from(a, p);
    let tf = classify::note_tokens(front, lf);
    let ta = classify::note_tokens(a, la);
    let h = lf.len() as int;
    let last = LineSpan { start: n, content_end: e, end: e + 1 };
    assert(la =~= lf.push(last));
    assert(last.content(a) =~= line);
    tokenizer::lemma_lines_from(front, p);
    assert forall|k: int| 0 <= k < h implies #[trigger] ta[k] == tf[k] by {
        assert(la[k] == lf[k]);
        assert(tokenizer::line_ok(front, lf[k]));
        assert(la[k].content(a) =~= lf[k].content(front));
    }
    assert(ta =~= tf.push(classify::note_token(line)));
}

/// What a note with a new title reads back as.
pub open spec fn retitled(doc: DocumentView, line: Seq<u8>) -> bool {
    let source = lines::title_replaced(doc, line);
    let after = parser::parsed_as(source, DocumentKind::Note)->Ok_0;
    &&& parser::parsed_as(source, DocumentKind::Note) is Ok
    &&& document::opt_slice(source, after.partition.title) == Some(line.push(LF))
    &&& document::opt_slice(source, after.partition.tags) == document::opt_slice(
        doc.source,
        doc.partition.tags,
    )
    &&& after.body() == doc.body()
}

/// A note that is a head and something else, and one with another head before the same.
proof fn lemma_same_tail(a: Seq<u8>, b: Seq<u8>, x: Seq<u8>)
    requires
        ({
            let p = parser::partition_of(a + x, DocumentKind::Note)->0;
            let q = parser::partition_of(b + x, DocumentKind::Note)->0;
            &&& p.tags == tags_behind(x, a.len() as int)
            &&& p.bodies == bodies_behind(x, a.len() as int)
            &&& q.tags == tags_behind(x, b.len() as int)
            &&& q.bodies == bodies_behind(x, b.len() as int)
        }),
    ensures
        ({
            let p = parser::partition_of(a + x, DocumentKind::Note)->0;
            let q = parser::partition_of(b + x, DocumentKind::Note)->0;
            &&& document::opt_slice(a + x, p.tags) == document::opt_slice(b + x, q.tags)
            &&& document::concat_ranges(a + x, p.bodies) == document::concat_ranges(
                b + x,
                q.bodies,
            )
        }),
{
    lemma_tail_read(a, x);
    lemma_tail_read(b, x);
}

/// The head of a note with a title.
#[verifier::rlimit(40)]
#[verifier::spinoff_prover]
pub proof fn lemma_old_head(s: Seq<u8>, h: int)
    requires
        h == assemble::next_content(parser::tokens_of(s, DocumentKind::Note), 0),
        h < tokenizer::source_lines(s).len(),
        assemble::is_title(parser::tokens_of(s, DocumentKind::Note)[h]),
    ensures
        ({
            let r = tokenizer::source_lines(s)[h].span();
            let p = tokenizer::preamble_len(s);
            let part = parser::partition_of(s, DocumentKind::Note)->0;
            let x = s.skip(r.end);
            &&& p <= r.start < r.end <= s.len()
            &&& s.take(r.end) + x == s
            &&& part.title == Some(r)
            &&& part.tags == tags_behind(x, r.end)
            &&& part.bodies == bodies_behind(x, r.end)
        }),
{
    let p = tokenizer::preamble_len(s);
    let l = tokenizer::source_lines(s);
    let t = parser::tokens_of(s, DocumentKind::Note);
    assemble::lemma_next_content(t, 0);
    assemble::lemma_line_ends(s, l, h);
    let r = l[h].span();
    let a = s.take(r.end);
    lemma_lines_up_to(s, r.start, h);
    lemma_lines_up_to(s, r.end, h);
    let la = tokenizer::lines_from(a, p);
    let ta = classify::note_tokens(a, la);
    assert forall|k: int| 0 <= k < la.len() && k != h implies (#[trigger] ta[k]) is Blank by {
        assert(ta[k] == t[k]);
        assert(t[k] is Blank);
    }
    assert(ta[h] == t[h]);
    assert(la[h] == l[h]);
    lemma_titled_partition(a, s.skip(r.end), h);
}

/// The head of a note with another title.
#[verifier::rlimit(40)]
#[verifier::spinoff_prover]
proof fn lemma_new_head(s: Seq<u8>, h: int, line: Seq<u8>)
    requires
        h == assemble::next_content(parser::tokens_of(s, DocumentKind::Note), 0),
        h < tokenizer::source_lines(s).len(),
        assemble::is_title(parser::tokens_of(s, DocumentKind::Note)[h]),
        titles(line),
    ensures
        ({
            let r = tokenizer::source_lines(s)[h].span();
            let head = s.take(r.start) + line.push(LF);
            let x = s.skip(r.end);
            let part = parser::partition_of(head + x, DocumentKind::Note)->0;
            &&& part.title == Some(Span { start: r.start, end: head.len() as int })
            &&& part.tags == tags_behind(x, head.len() as int)
            &&& part.bodies == bodies_behind(x, head.len() as int)
        }),
{
    let p = tokenizer::preamble_len(s);
    let l = tokenizer::source_lines(s);
    let t = parser::tokens_of(s, DocumentKind::Note);
    assemble::lemma_next_content(t, 0);
    assemble::lemma_line_ends(s, l, h);
    let r = l[h].span();
    let front = s.take(r.start);
    lemma_lines_up_to(s, r.start, h);
    lemma_title_start(line);
    assert(s.skip(r.start).len() > 0);
    assert(line.push(LF)[0] == line[0]);
    lemma_line_last(front, p, line);
    let head = front + line.push(LF);
    let x = s.skip(r.end);
    let source = head + x;
    assert(source[r.start] == line[0]);
    assert(r.start >= 3 ==> source[0] == s[0] && source[1] == s[1] && source[2] == s[2]);
    assert(tokenizer::preamble_len(source) == p);
    let lf = tokenizer::lines_from(front, p);
    let tf = classify::note_tokens(front, lf);
    let ta = classify::note_tokens(head, tokenizer::lines_from(head, p));
    let g = lf.len() as int;
    assert forall|k: int| 0 <= k < g implies (#[trigger] ta[k]) is Blank by {
        assert(ta[k] == tf[k]);
        assert(tf[k] == t[k]);
        assert(t[k] is Blank);
    }
    assert(head.last() == LF);
    lemma_titled_partition(head, x, g);
}

/// A note with a title gets another one.
#[verifier::rlimit(40)]
#[verifier::spinoff_prover]
proof fn lemma_title_exchanged(doc: DocumentView, line: Seq<u8>)
    requires
        parser::parsed_as(doc.source, DocumentKind::Note) == Ok::<DocumentView, NbErrorView>(doc),
        titles(line),
        doc.partition.title is Some,
    ensures
        retitled(doc, line),
{
    let s = doc.source;
    let t = parser::tokens_of(s, DocumentKind::Note);
    let h = assemble::next_content(t, 0);
    assemble::lemma_next_content(t, 0);
    let r = tokenizer::source_lines(s)[h].span();
    lemma_old_head(s, h);
    lemma_new_head(s, h, line);
    let x = s.skip(r.end);
    let head = s.take(r.start) + line.push(LF);
    lemma_same_tail(s.take(r.end), head, x);
    let source = head + x;
    assert(line.last() != LF) by {
        lemma_title_start(line);
        assert(!bytes::is_line_break(line[line.len() - 1]));
    }
    assert(source =~= lines::title_replaced(doc, line));
    assert(bytes::slice_of(source, Span { start: r.start, end: head.len() as int })
        =~= line.push(LF));
}

/// A note without a title gets one.
#[verifier::rlimit(40)]
#[verifier::spinoff_prover]
proof fn lemma_title_added(doc: DocumentView, line: Seq<u8>)
    requires
        parser::parsed_as(doc.source, DocumentKind::Note) == Ok::<DocumentView, NbErrorView>(doc),
        titles(line),
        doc.partition.title is None,
        tokenizer::preamble_len(doc.source) == 0,
    ensures
        retitled(doc, line),
{
    let s = doc.source;
    let none = Seq::<u8>::empty();
    lemma_untitled_partition(s);
    lemma_title_start(line);
    assert(line.last() != LF) by {
        assert(!bytes::is_line_break(line[line.len() - 1]));
    }
    lemma_line_last(none, 0, line);
    let alone = line.push(LF);
    assert(none + alone =~= alone);
    let spaced = s.len() > 0 && s[0] != LF;
    let head = if spaced {
        alone.push(LF)
    } else {
        alone
    };
    let source = head + s;
    assert(source =~= lines::title_replaced(doc, line));
    assert(source[0] == line[0]);
    assert(tokenizer::lines_from(none, 0) =~= Seq::<LineSpan>::empty());
    let la = tokenizer::lines_from(alone, 0);
    assert(heads(alone, 0, 0));
    if spaced {
        lemma_blank_added(alone, 0);
    }
    lemma_titled_partition(head, s, 0);
    assert(none + s =~= s);
    lemma_same_tail(none, head, s);
    assert(bytes::slice_of(source, la[0].span()) =~= alone);
}

/// An empty line after a head of one title.
proof fn lemma_blank_added(a: Seq<u8>, h: int)
    requires
        heads(a, 0, h),
        a.len() > 0,
        a.last() == LF,
    ensures
        heads(a.push(LF), 0, h),
        tokenizer::lines_from(a.push(LF), 0)[h] == tokenizer::lines_from(a, 0)[h],
{
    let none = Seq::<u8>::empty();
    lemma_line_last(a, 0, none);
    assert(a + none.push(LF) =~= a.push(LF));
    assert(helpers::blank(none));
}

/// The new title of a note reads back as it was written, and its tag line and its body stay.
/// This leaves out lines that do not read as a title, and a note without a title that starts
/// with a byte-order mark, which would stand behind the new title.
pub proof fn law_new_title_reads_back(doc: DocumentView, line: Seq<u8>)
    requires
        parser::parsed_as(doc.source, DocumentKind::Note) == Ok::<DocumentView, NbErrorView>(doc),
        titles(line),
        doc.partition.title is None ==> tokenizer::preamble_len(doc.source) == 0,
    ensures
        retitled(doc, line),
{
    if doc.partition.title is Some {
        lemma_title_exchanged(doc, line);
    } else {
        lemma_title_added(doc, line);
    }
}

} // verus!
