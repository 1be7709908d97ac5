//! The lines of a source that is put together of whole lines, and what its parts are read as.

use crate::bytes;
use crate::bytes::Span;
use crate::parser;
use crate::parser::assemble;
use crate::parser::classify;
use crate::parser::classify::BookmarkScan;
use crate::parser::document;
use crate::parser::document::DocumentKind;
use crate::parser::readback;
use crate::parser::retitled;
use crate::parser::types::Token;
use crate::tokenizer;
use crate::tokenizer::LineSpan;
use vstd::prelude::*;

verus! {

/// What stands on each of some lines.
pub open spec fn rows(s: Seq<u8>, l: Seq<LineSpan>) -> Seq<Seq<u8>> {
    Seq::new(l.len(), |k: int| l[k].content(s))
}

/// What stands on each line of a text without a byte-order mark.
pub open spec fn rows_of(x: Seq<u8>) -> Seq<Seq<u8>> {
    rows(x, tokenizer::lines_from(x, 0))
}

/// What stands on each line of a source.
pub open spec fn source_rows(s: Seq<u8>) -> Seq<Seq<u8>> {
    rows(s, tokenizer::source_lines(s))
}

/// A text that follows another starts on a line of its own.
pub open spec fn follows(a: Seq<u8>, p: int, x: Seq<u8>) -> bool {
    0 <= p <= a.len() && (x.len() > 0 ==> readback::whole_lines(a, p, x))
}

/// The lines of two texts, the second of which starts on a line of its own.
pub proof fn lemma_joined(a: Seq<u8>, p: int, x: Seq<u8>)
    requires
        follows(a, p, x),
    ensures
        tokenizer::lines_from(a + x, p) == tokenizer::lines_from(a, p) + retitled::all_moved(
            tokenizer::lines_from(x, 0),
            a.len() as int,
        ),
        rows(a + x, tokenizer::lines_from(a + x, p)) == rows(a, tokenizer::lines_from(a, p))
            + rows_of(x),
{
    let s = a + x;
    let n = a.len() as int;
    let la = tokenizer::lines_from(a, p);
    let lx = tokenizer::lines_from(x, 0);
    let l = tokenizer::lines_from(s, p);
    if x.len() > 0 {
        readback::lemma_lines_join(a, x, p);
        retitled::lemma_lines_behind(a, x, 0);
    } else {
        assert(s =~= a);
        assert(lx =~= Seq::<LineSpan>::empty());
        assert(la + retitled::all_moved(lx, n) =~= la);
    }
    assert(l == la + retitled::all_moved(lx, n));
    tokenizer::lemma_lines_from(a, p);
    tokenizer::lemma_lines_from(x, 0);
    let r = rows(s, l);
    let u = rows(a, la) + rows_of(x);
    assert forall|k: int| 0 <= k < r.len() implies r[k] == #[trigger] u[k] by {
        if k < la.len() {
            assert(l[k] == la[k]);
            assert(tokenizer::line_ok(a, la[k]));
            assert(la[k].content(a) =~= l[k].content(s));
        } else {
            let j = k - la.len();
            assert(l[k] == retitled::moved(lx[j], n));
            assert(tokenizer::line_ok(x, lx[j]));
            assert(lx[j].content(x) =~= l[k].content(s));
        }
    }
    assert(r =~= u);
}

/// A source is what stands before one of its lines, and the rest.
pub proof fn lemma_split(s: Seq<u8>, h: int)
    requires
        0 <= h <= tokenizer::source_lines(s).len(),
    ensures
        ({
            let l = tokenizer::source_lines(s);
            let p = tokenizer::preamble_len(s);
            let at = assemble::line_start(s, l, h);
            let a = s.take(at);
            let x = s.skip(at);
            &&& p <= at <= s.len()
            &&& a + x == s
            &&& follows(a, p, x)
            &&& tokenizer::lines_from(a, p) == l.take(h)
            &&& retitled::all_moved(tokenizer::lines_from(x, 0), at) == l.skip(h)
            &&& rows(a, tokenizer::lines_from(a, p)) == source_rows(s).take(h)
            &&& rows_of(x) == source_rows(s).skip(h)
        }),
{
    let l = tokenizer::source_lines(s);
    let p = tokenizer::preamble_len(s);
    let at = assemble::line_start(s, l, h);
    let a = s.take(at);
    let x = s.skip(at);
    assemble::lemma_source_lines(s);
    if h < l.len() {
        retitled::lemma_lines_up_to(s, at, h);
        assert(tokenizer::line_ok(s, l[h]));
    } else {
        assert(a =~= s);
        assert(x =~= Seq::<u8>::empty());
    }
    assert(a + x =~= s);
    let la = tokenizer::lines_from(a, p);
    let lx = tokenizer::lines_from(x, 0);
    lemma_joined(a, p, x);
    assert(la =~= l.take(h));
    assert(retitled::all_moved(lx, at) =~= l.skip(h));
    assert(rows(a, la) =~= source_rows(s).take(h));
    assert(rows_of(x) =~= source_rows(s).skip(h));
}

/// The tokens of the lines of a task.
pub open spec fn task_tokens(r: Seq<Seq<u8>>) -> Seq<Token> {
    r.map_values(|line: Seq<u8>| classify::todo_token(line))
}

/// What the first `n` of some lines of a bookmark say about the next.
pub open spec fn scan_over(scan: BookmarkScan, r: Seq<Seq<u8>>, n: int) -> BookmarkScan
    decreases n,
{
    if n <= 0 {
        scan
    } else {
        classify::bookmark_step(scan_over(scan, r, n - 1), r[n - 1])
    }
}

/// The tokens of some lines of a bookmark.
pub open spec fn link_tokens(scan: BookmarkScan, r: Seq<Seq<u8>>) -> Seq<Token> {
    Seq::new(r.len(), |k: int| classify::bookmark_token(scan_over(scan, r, k), r[k]))
}

/// At the start of a bookmark no fence is open, and no content was seen.
pub open spec fn at_start() -> BookmarkScan {
    BookmarkScan { fence: None, in_body: false }
}

proof fn lemma_scan(s: Seq<u8>, l: Seq<LineSpan>, n: int)
    requires
        0 <= n <= l.len(),
    ensures
        classify::bookmark_scan(s, l, n) == scan_over(at_start(), rows(s, l), n),
    decreases n,
{
    if n > 0 {
        lemma_scan(s, l, n - 1);
    }
}

/// The tokens of a source are those of its lines.
pub proof fn lemma_tokens(s: Seq<u8>)
    ensures
        parser::tokens_of(s, DocumentKind::Todo) == task_tokens(source_rows(s)),
        parser::tokens_of(s, DocumentKind::Bookmark) == link_tokens(at_start(), source_rows(s)),
{
    let l = tokenizer::source_lines(s);
    assert(parser::tokens_of(s, DocumentKind::Todo) =~= task_tokens(source_rows(s)));
    let t = parser::tokens_of(s, DocumentKind::Bookmark);
    let u = link_tokens(at_start(), source_rows(s));
    assert forall|k: int| 0 <= k < t.len() implies t[k] == #[trigger] u[k] by {
        lemma_scan(s, l, k);
    }
    assert(t =~= u);
}

/// The scan over the lines of two texts, one after the other.
pub proof fn lemma_scan_join(scan: BookmarkScan, a: Seq<Seq<u8>>, x: Seq<Seq<u8>>, n: int)
    requires
        0 <= n <= a.len() + x.len(),
    ensures
        scan_over(scan, a + x, n) == (if n <= a.len() {
            scan_over(scan, a, n)
        } else {
            scan_over(scan_over(scan, a, a.len() as int), x, n - a.len())
        }),
    decreases n,
{
    if n > 0 {
        lemma_scan_join(scan, a, x, n - 1);
    }
}

/// The tokens of the lines of two texts, one after the other.
pub proof fn lemma_tokens_join(scan: BookmarkScan, a: Seq<Seq<u8>>, x: Seq<Seq<u8>>)
    ensures
        link_tokens(scan, a + x) == link_tokens(scan, a) + link_tokens(
            scan_over(scan, a, a.len() as int),
            x,
        ),
        task_tokens(a + x) == task_tokens(a) + task_tokens(x),
        scan_over(scan, a + x, (a + x).len() as int) == scan_over(
            scan_over(scan, a, a.len() as int),
            x,
            x.len() as int,
        ),
{
    let t = link_tokens(scan, a + x);
    let u = link_tokens(scan, a) + link_tokens(scan_over(scan, a, a.len() as int), x);
    assert forall|k: int| 0 <= k < t.len() implies t[k] == #[trigger] u[k] by {
        lemma_scan_join(scan, a, x, k);
    }
    assert(t =~= u);
    assert(task_tokens(a + x) =~= task_tokens(a) + task_tokens(x));
    lemma_scan_join(scan, a, x, (a + x).len() as int);
    if x.len() == 0 {
        assert(scan_over(scan_over(scan, a, a.len() as int), x, 0) == scan_over(
            scan,
            a,
            a.len() as int,
        ));
    }
}

/// A range moved by `by` bytes.
pub open spec fn moved(r: Span, by: int) -> Span {
    Span { start: r.start + by, end: r.end + by }
}

/// Ranges moved by `by` bytes.
pub open spec fn all_moved(v: Seq<Span>, by: int) -> Seq<Span> {
    Seq::new(v.len(), |k: int| moved(v[k], by))
}

/// A range, if there is one, moved by `by` bytes.
pub open spec fn opt_moved(r: Option<Span>, by: int) -> Option<Span> {
    match r {
        Some(r) => Some(moved(r, by)),
        None => None,
    }
}

/// What ranges hold does not depend on what stands before them.
pub proof fn lemma_moved_reads(a: Seq<u8>, x: Seq<u8>, v: Seq<Span>)
    requires
        forall|k: int| 0 <= k < v.len() ==> bytes::span_within(#[trigger] v[k], x.len() as int),
    ensures
        document::concat_ranges(a + x, all_moved(v, a.len() as int)) == document::concat_ranges(
            x,
            v,
        ),
    decreases v.len(),
{
    let n = a.len() as int;
    let w = all_moved(v, n);
    if v.len() > 0 {
        assert forall|k: int| 0 <= k < v.drop_last().len() implies bytes::span_within(
            #[trigger] v.drop_last()[k],
            x.len() as int,
        ) by {
            assert(v.drop_last()[k] == v[k]);
        }
        lemma_moved_reads(a, x, v.drop_last());
        assert(w.drop_last() =~= all_moved(v.drop_last(), n));
        assert(bytes::span_within(v.last(), x.len() as int));
        assert(bytes::slice_of(a + x, w.last()) =~= bytes::slice_of(x, v.last()));
    }
}

/// What a range holds does not depend on what stands before it.
pub proof fn lemma_moved_read(a: Seq<u8>, x: Seq<u8>, r: Option<Span>)
    requires
        r matches Some(r) ==> bytes::span_within(r, x.len() as int),
    ensures
        document::opt_slice(a + x, opt_moved(r, a.len() as int)) == document::opt_slice(x, r),
{
    if let Some(r) = r {
        assert(bytes::slice_of(a + x, moved(r, a.len() as int)) =~= bytes::slice_of(x, r));
    }
}

/// The last heading of two runs of tokens.
pub proof fn lemma_last_heading_join(a: Seq<Token>, x: Seq<Token>, n: int)
    requires
        0 <= n <= x.len(),
    ensures
        assemble::last_heading(a + x, a.len() + n) == (if assemble::last_heading(x, n) >= 0 {
            a.len() + assemble::last_heading(x, n)
        } else {
            assemble::last_heading(a, a.len() as int)
        }),
    decreases n,
{
    let t = a + x;
    if n > 0 {
        lemma_last_heading_join(a, x, n - 1);
        assert(t[a.len() + n - 1] == x[n - 1]);
        assemble::lemma_last_heading(x, n - 1);
    } else {
        lemma_last_heading_same(a, t, a.len() as int);
    }
}

/// The last heading does not depend on what follows.
proof fn lemma_last_heading_same(a: Seq<Token>, t: Seq<Token>, n: int)
    requires
        0 <= n <= a.len(),
        n <= t.len(),
        forall|k: int| 0 <= k < n ==> t[k] == #[trigger] a[k],
    ensures
        assemble::last_heading(t, n) == assemble::last_heading(a, n),
    decreases n,
{
    if n > 0 {
        assert(t[n - 1] == a[n - 1]);
        lemma_last_heading_same(a, t, n - 1);
    }
}

} // verus!
