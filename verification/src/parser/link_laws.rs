//! What is read back of a bookmark whose title was replaced.

use crate::bytes;
use crate::bytes::{Span, HASH, LF, SPACE};
use crate::error::NbErrorView;
use crate::lines;
use crate::parser;
use crate::parser::assemble;
use crate::parser::assemble::{SectionView, Walk};
use crate::parser::classify;
use crate::parser::document;
use crate::parser::document::{DocumentKind, DocumentView};
use crate::parser::fragments;
use crate::parser::helpers;
use crate::parser::partition;
use crate::parser::pieces;
use crate::parser::readback;
use crate::parser::retitled;
use crate::parser::task_laws;
use crate::parser::types::Token;
use crate::tokenizer;
use crate::tokenizer::LineSpan;
use vstd::prelude::*;

verus! {

/// Lines counted from `by` on.
pub open spec fn counted(v: Seq<int>, by: int) -> Seq<int> {
    v.map_values(|k: int| k + by)
}

/// The section headings of two runs of tokens.
pub proof fn lemma_section_lines_join(a: Seq<Token>, x: Seq<Token>, n: int)
    requires
        0 <= n <= x.len(),
    ensures
        assemble::section_lines(a + x, a.len() + n) == assemble::section_lines(a, a.len() as int)
            + counted(assemble::section_lines(x, n), a.len() as int),
    decreases n,
{
    let t = a + x;
    let by = a.len() as int;
    if n > 0 {
        lemma_section_lines_join(a, x, n - 1);
        assert(t[by + n - 1] == x[n - 1]);
        let before = assemble::section_lines(x, n - 1);
        assert(counted(before.push(n - 1), by) =~= counted(before, by).push(by + n - 1));
        assert(assemble::section_lines(t, by + n) =~= assemble::section_lines(a, by) + counted(
            assemble::section_lines(x, n),
            by,
        ));
    } else {
        lemma_section_lines_same(a, t, by);
        assert(assemble::section_lines(t, by) =~= assemble::section_lines(a, by) + counted(
            Seq::empty(),
            by,
        ));
    }
}

/// The section headings do not depend on what follows.
pub proof fn lemma_section_lines_same(a: Seq<Token>, t: Seq<Token>, n: int)
    requires
        0 <= n <= a.len(),
        n <= t.len(),
        forall|k: int| 0 <= k < n ==> t[k] == #[trigger] a[k],
    ensures
        assemble::section_lines(t, n) == assemble::section_lines(a, n),
    decreases n,
{
    if n > 0 {
        assert(t[n - 1] == a[n - 1]);
        lemma_section_lines_same(a, t, n - 1);
    }
}

/// The section headings are headings among the first `n` tokens, in order.
pub proof fn lemma_section_lines_are(t: Seq<Token>, n: int)
    requires
        0 <= n <= t.len(),
    ensures
        forall|k: int|
            0 <= k < assemble::section_lines(t, n).len() ==> 0
                <= #[trigger] assemble::section_lines(t, n)[k] < n && (
            t[assemble::section_lines(t, n)[k]] matches Token::Heading { level, .. } && level >= 2),
        forall|j: int, k: int|
            0 <= j < k < assemble::section_lines(t, n).len()
                ==> #[trigger] assemble::section_lines(t, n)[j]
                < #[trigger] assemble::section_lines(t, n)[k],
    decreases n,
{
    if n > 0 {
        lemma_section_lines_are(t, n - 1);
    }
}

/// Where no token is a section heading there is none.
pub proof fn lemma_no_sections(t: Seq<Token>, n: int)
    requires
        0 <= n <= t.len(),
        forall|k: int|
            0 <= k < n ==> !((#[trigger] t[k]) matches Token::Heading { level, .. } && level >= 2),
    ensures
        assemble::section_lines(t, n) == Seq::<int>::empty(),
    decreases n,
{
    if n > 0 {
        lemma_no_sections(t, n - 1);
        assert(!(t[n - 1] matches Token::Heading { level, .. } && level >= 2));
    }
}

/// Two sections are of the same sort.
pub open spec fn same_sort(x: SectionView, y: SectionView) -> bool {
    x.text == y.text && x.role == y.role && x.exact_tags == y.exact_tags
}

/// Sections are of the same sort, one by one.
pub open spec fn same_sorts(x: Seq<SectionView>, y: Seq<SectionView>) -> bool {
    x.len() == y.len() && forall|k: int| 0 <= k < x.len() ==> same_sort(#[trigger] x[k], y[k])
}

/// Which section holds the tags depends on their sorts alone.
pub proof fn lemma_same_tags(x: Seq<SectionView>, y: Seq<SectionView>)
    requires
        same_sorts(x, y),
    ensures
        assemble::canonical_tags(x) == assemble::canonical_tags(y),
        -1 <= assemble::canonical_tags(x) < x.len(),
        assemble::canonical_tags(x) >= 0 ==> x[assemble::canonical_tags(x)].exact_tags,
{
    lemma_same_leading(x, y, 0);
    lemma_same_trailing(x, y, x.len() as int);
}

pub proof fn lemma_same_leading(x: Seq<SectionView>, y: Seq<SectionView>, i: int)
    requires
        same_sorts(x, y),
        0 <= i <= x.len(),
    ensures
        assemble::leading_tags(x, i) == assemble::leading_tags(y, i),
        i <= assemble::leading_tags(x, i) <= x.len(),
        assemble::leading_tags(x, i) < x.len() ==> x[assemble::leading_tags(x, i)].exact_tags,
    decreases x.len() - i,
{
    if i < x.len() {
        lemma_same_leading(x, y, i + 1);
        assert(same_sort(x[i], y[i]));
        assert(assemble::content_after(x, i) == assemble::content_after(y, i)) by {
            if assemble::content_after(x, i) {
                let j = choose|j: int|
                    i < j < x.len() && assemble::is_content_section(#[trigger] x[j]);
                assert(same_sort(x[j], y[j]));
                assert(assemble::is_content_section(y[j]));
            }
            if assemble::content_after(y, i) {
                let j = choose|j: int|
                    i < j < y.len() && assemble::is_content_section(#[trigger] y[j]);
                assert(same_sort(x[j], y[j]));
                assert(assemble::is_content_section(x[j]));
            }
        }
    }
}

proof fn lemma_same_trailing(x: Seq<SectionView>, y: Seq<SectionView>, n: int)
    requires
        same_sorts(x, y),
        0 <= n <= x.len(),
    ensures
        assemble::trailing_tags(x, n) == assemble::trailing_tags(y, n),
        -1 <= assemble::trailing_tags(x, n) < n,
        assemble::trailing_tags(x, n) >= 0 ==> x[assemble::trailing_tags(x, n)].exact_tags,
    decreases n,
{
    if n > 0 {
        assert(same_sort(x[n - 1], y[n - 1]));
        lemma_same_trailing(x, y, n - 1);
    }
}

/// One walk is another moved by `by` bytes.
pub open spec fn walk_moved(v: Walk, w: Walk, by: int) -> bool {
    &&& w.cursor == v.cursor + by
    &&& w.bodies == pieces::all_moved(v.bodies, by)
    &&& w.open == pieces::opt_moved(v.open, by)
}

/// The walk over sections that are moved.
pub proof fn lemma_walk_moved(
    v: Walk,
    w: Walk,
    x: Seq<SectionView>,
    y: Seq<SectionView>,
    tags: int,
    n: int,
    by: int,
)
    requires
        walk_moved(v, w, by),
        same_sorts(x, y),
        forall|k: int| 0 <= k < x.len() ==> y[k].span == pieces::moved((#[trigger] x[k]).span, by),
        0 <= n <= x.len(),
    ensures
        walk_moved(assemble::walk(v, x, tags, n), assemble::walk(w, y, tags, n), by),
    decreases n,
{
    if n > 0 {
        lemma_walk_moved(v, w, x, y, tags, n - 1, by);
        let a = assemble::walk(v, x, tags, n - 1);
        let b = assemble::walk(w, y, tags, n - 1);
        assert(same_sort(x[n - 1], y[n - 1]));
        assert(y[n - 1].span == pieces::moved(x[n - 1].span, by));
        assert(b.bodies + partition::opt_seq(b.open) =~= pieces::all_moved(
            a.bodies + partition::opt_seq(a.open),
            by,
        ));
    }
}

/// The URL line, the tag section and the body in what follows the title of a bookmark.
pub struct LinkTail {
    pub url: Option<Span>,
    pub tags: Option<Span>,
    pub bodies: Seq<Span>,
}

/// The line where the body of a bookmark would start, in what follows its title.
pub open spec fn tail_line(t: Seq<Token>) -> int {
    let u = assemble::next_content(t, 0);
    if u < t.len() && t[u] is Url {
        assemble::next_content(t, u + 1)
    } else {
        u
    }
}

/// The start of the walk over the sections from a place on.
pub open spec fn walk_from(cursor: int) -> Walk {
    Walk { separators: Seq::empty(), bodies: Seq::empty(), open: None, cursor }
}

/// The tokens of what follows the title of a bookmark.
pub open spec fn tail_tokens(x: Seq<u8>) -> Seq<Token> {
    pieces::link_tokens(pieces::at_start(), pieces::rows_of(x))
}

/// The sections of some lines.
pub open spec fn all_sections(x: Seq<u8>, l: Seq<LineSpan>, t: Seq<Token>) -> Seq<SectionView> {
    assemble::sections(x, l, t, assemble::section_lines(t, t.len() as int))
}

/// The body fragments that a walk leaves.
pub open spec fn bodies_of(x: Seq<SectionView>, cursor: int, len: int) -> Seq<Span> {
    let w = assemble::walk(walk_from(cursor), x, assemble::canonical_tags(x), x.len() as int);
    if x.len() == 0 {
        assemble::gap(cursor, len)
    } else {
        w.bodies + partition::opt_seq(w.open)
    }
}

/// The parts of what follows the title of a bookmark.
#[verifier::opaque]
pub open spec fn link_tail(x: Seq<u8>) -> LinkTail {
    let l = tokenizer::lines_from(x, 0);
    let t = tail_tokens(x);
    let u = assemble::next_content(t, 0);
    let v = all_sections(x, l, t);
    let tags = assemble::canonical_tags(v);
    LinkTail {
        url: assemble::span_if(l, u, u < t.len() && t[u] is Url),
        tags: if tags >= 0 {
            Some(v[tags].span)
        } else {
            None
        },
        bodies: bodies_of(v, assemble::line_start(x, l, tail_line(t)), x.len() as int),
    }
}

/// A head of blank lines and perhaps one title, at line `h`.
pub open spec fn link_head(r: Seq<Seq<u8>>, h: int) -> bool {
    let t = pieces::link_tokens(pieces::at_start(), r);
    &&& -1 <= h < t.len()
    &&& h >= 0 ==> assemble::is_title(t[h])
    &&& forall|k: int| 0 <= k < t.len() && k != h ==> (#[trigger] t[k]) is Blank
}

/// Blank lines and a title leave no fence open and are no content.
pub proof fn lemma_head_scan(r: Seq<Seq<u8>>, h: int, n: int)
    requires
        link_head(r, h),
        0 <= n <= r.len(),
    ensures
        pieces::scan_over(pieces::at_start(), r, n) == pieces::at_start(),
    decreases n,
{
    if n > 0 {
        lemma_head_scan(r, h, n - 1);
        let t = pieces::link_tokens(pieces::at_start(), r);
        assert(t[n - 1] == classify::bookmark_token(pieces::at_start(), r[n - 1]));
        assert(t[n - 1] is Blank || assemble::is_title(t[n - 1]));
    }
}

/// The sections behind a head are those of what follows it, moved.
#[verifier::rlimit(40)]
#[verifier::spinoff_prover]
pub proof fn lemma_sections_moved(
    s: Seq<u8>,
    l: Seq<LineSpan>,
    t: Seq<Token>,
    a: Seq<u8>,
    x: Seq<u8>,
    na: int,
    at: Seq<int>,
)
    requires
        s == a + x,
        0 <= na <= l.len(),
        l.len() == na + tokenizer::lines_from(x, 0).len(),
        forall|k: int|
            0 <= k < tokenizer::lines_from(x, 0).len() ==> l[na + k] == retitled::moved(
                #[trigger] tokenizer::lines_from(x, 0)[k],
                a.len() as int,
            ),
        t.len() == l.len(),
        forall|k: int| 0 <= k < at.len() ==> 0 <= #[trigger] at[k] < l.len() - na,
        forall|j: int, k: int|
            0 <= j < k < at.len() ==> #[trigger] at[j] < #[trigger] at[k],
    ensures
        ({
            let v = assemble::sections(x, tokenizer::lines_from(x, 0), t.skip(na), at);
            let w = assemble::sections(s, l, t, counted(at, na));
            &&& same_sorts(v, w)
            &&& forall|k: int|
                0 <= k < v.len() ==> w[k].span == pieces::moved(
                    (#[trigger] v[k]).span,
                    a.len() as int,
                )
        }),
{
    let lx = tokenizer::lines_from(x, 0);
    let n = a.len() as int;
    let v = assemble::sections(x, lx, t.skip(na), at);
    let w = assemble::sections(s, l, t, counted(at, na));
    tokenizer::lemma_lines_from(x, 0);
    assert forall|k: int| 0 <= k < v.len() implies same_sort(#[trigger] v[k], w[k]) && w[k].span
        == pieces::moved(v[k].span, n) by {
        let i = at[k];
        assert(counted(at, na)[k] == i + na);
        assert(t.skip(na)[i] == t[i + na]);
        assert(l[na + i] == retitled::moved(lx[i], n));
        assert(tokenizer::line_ok(x, lx[i]));
        assert(l[na + i].content(s) =~= lx[i].content(x));
        if k + 1 < at.len() {
            let j = at[k + 1];
            assert(at[k] < at[k + 1]);
            assert(counted(at, na)[k + 1] == j + na);
            assert(l[na + j] == retitled::moved(lx[j], n));
            assert(l[na + (j - 1)] == retitled::moved(lx[j - 1], n));
        }
    }
}

/// The parts of a bookmark are its title, if it has one, and those of what follows.
#[verifier::rlimit(40)]
#[verifier::spinoff_prover]
pub proof fn lemma_link_tail(a: Seq<u8>, x: Seq<u8>, h: int)
    requires
        pieces::follows(a, tokenizer::preamble_len(a + x), x),
        link_head(
            pieces::rows(a, tokenizer::lines_from(a, tokenizer::preamble_len(a + x))),
            h,
        ),
        h < 0 ==> ({
            let t = tail_tokens(x);
            let q = assemble::next_content(t, 0);
            q < t.len() && !assemble::is_title(t[q])
        }),
    ensures
        ({
            let la = tokenizer::lines_from(a, tokenizer::preamble_len(a + x));
            let p = parser::partition_of(a + x, DocumentKind::Bookmark);
            let n = a.len() as int;
            &&& p is Some
            &&& p->0.title == assemble::span_if(la, h, h >= 0)
            &&& p->0.url == pieces::opt_moved(link_tail(x).url, n)
            &&& p->0.tags == pieces::opt_moved(link_tail(x).tags, n)
            &&& p->0.bodies == pieces::all_moved(link_tail(x).bodies, n)
        }),
{
    reveal(link_tail);
    let s = a + x;
    let n = a.len() as int;
    let p = tokenizer::preamble_len(s);
    let la = tokenizer::lines_from(a, p);
    let lx = tokenizer::lines_from(x, 0);
    let l = tokenizer::source_lines(s);
    let start = pieces::at_start();
    let ra = pieces::rows(a, la);
    let ta = pieces::link_tokens(start, ra);
    let tx = tail_tokens(x);
    let t = parser::tokens_of(s, DocumentKind::Bookmark);
    let na = la.len() as int;
    pieces::lemma_joined(a, p, x);
    pieces::lemma_tokens(s);
    pieces::lemma_tokens_join(start, ra, pieces::rows_of(x));
    lemma_head_scan(ra, h, na);
    assert(t == ta + tx);
    lemma_tail_indices(ta, tx, h);
    let q = assemble::next_content(tx, 0);
    assemble::lemma_next_content(tx, 0);
    let b = tail_line(tx);
    if q < tx.len() {
        assemble::lemma_next_content(tx, q + 1);
        assert(t[na + q] == tx[q]);
        assert(l[na + q] == retitled::moved(lx[q], n));
    }
    if b < tx.len() {
        assert(l[na + b] == retitled::moved(lx[b], n));
    }
    if h >= 0 {
        assert(l[h] == la[h]);
        assert(t[h] == ta[h]);
    }
    // The sections.
    lemma_section_lines_join(ta, tx, tx.len() as int);
    assert forall|k: int| 0 <= k < ta.len() implies !((#[trigger] ta[k]) matches Token::Heading {
        level,
        ..
    } && level >= 2) by {
        if k == h {
            assert(assemble::is_title(ta[k]));
        } else {
            assert(ta[k] is Blank);
        }
    }
    lemma_no_sections(ta, na);
    let at = assemble::section_lines(tx, tx.len() as int);
    lemma_section_lines_are(tx, tx.len() as int);
    assert(assemble::section_lines(t, t.len() as int) =~= counted(at, na));
    assert(t.skip(na) =~= tx);
    lemma_sections_moved(s, l, t, a, x, na, at);
    let v = all_sections(x, lx, tx);
    let w = all_sections(s, l, t);
    lemma_same_tags(v, w);
    let cursor = assemble::line_start(x, lx, b);
    lemma_walk_separators(
        walk_from(n + cursor),
        Walk { separators: assemble::blank_spans(l, t, na + b), ..walk_from(n + cursor) },
        w,
        assemble::canonical_tags(w),
        w.len() as int,
    );
    assert(pieces::all_moved(Seq::empty(), n) =~= Seq::<Span>::empty());
    lemma_walk_moved(
        walk_from(cursor),
        walk_from(n + cursor),
        v,
        w,
        assemble::canonical_tags(v),
        v.len() as int,
        n,
    );
    lemma_bodies_moved(v, w, cursor, x.len() as int, n);
}

/// The body fragments of sections that are moved.
proof fn lemma_bodies_moved(
    v: Seq<SectionView>,
    w: Seq<SectionView>,
    cursor: int,
    len: int,
    by: int,
)
    requires
        same_sorts(v, w),
        walk_moved(
            assemble::walk(
                walk_from(cursor),
                v,
                assemble::canonical_tags(v),
                v.len() as int,
            ),
            assemble::walk(
                walk_from(by + cursor),
                w,
                assemble::canonical_tags(w),
                w.len() as int,
            ),
            by,
        ),
    ensures
        bodies_of(w, by + cursor, by + len) == pieces::all_moved(bodies_of(v, cursor, len), by),
{
    assert(bodies_of(w, by + cursor, by + len) =~= pieces::all_moved(
        bodies_of(v, cursor, len),
        by,
    ));
}

/// The separators that a walk starts with have no part in its body fragments.
pub proof fn lemma_walk_separators(v: Walk, w: Walk, x: Seq<SectionView>, tags: int, n: int)
    requires
        w.bodies == v.bodies,
        w.open == v.open,
        w.cursor == v.cursor,
        0 <= n <= x.len(),
    ensures
        assemble::walk(w, x, tags, n).bodies == assemble::walk(v, x, tags, n).bodies,
        assemble::walk(w, x, tags, n).open == assemble::walk(v, x, tags, n).open,
        assemble::walk(w, x, tags, n).cursor == assemble::walk(v, x, tags, n).cursor,
    decreases n,
{
    if n > 0 {
        lemma_walk_separators(v, w, x, tags, n - 1);
    }
}

/// Where the parts of a bookmark stand behind a head.
proof fn lemma_tail_indices(ta: Seq<Token>, tx: Seq<Token>, h: int)
    requires
        -1 <= h < ta.len(),
        h >= 0 ==> assemble::is_title(ta[h]),
        forall|k: int| 0 <= k < ta.len() && k != h ==> (#[trigger] ta[k]) is Blank,
    ensures
        ({
            let t = ta + tx;
            let q = assemble::next_content(tx, 0);
            &&& h >= 0 ==> assemble::next_content(t, 0) == h
            &&& assemble::next_content(t, h + 1) == ta.len() + q
            &&& q < tx.len() ==> assemble::next_content(t, ta.len() + q + 1) == ta.len()
                + assemble::next_content(tx, q + 1)
        }),
{
    let t = ta + tx;
    let full = assemble::has_content();
    if h >= 0 {
        assert forall|k: int| 0 <= k < h implies !full(#[trigger] t[k]) by {
            assert(t[k] == ta[k]);
            assert(ta[k] is Blank);
        }
        assert(t[h] == ta[h] && full(t[h]));
        bytes::lemma_find_from_is(t, full, 0, h);
    }
    let q = assemble::next_content(tx, 0);
    assemble::lemma_next_content(tx, 0);
    retitled::lemma_next_behind(ta, tx, h + 1, 0);
    if q < tx.len() {
        retitled::lemma_next_behind(ta, tx, h + 1, q + 1);
    }
}
/// The sections of what follows a title are in order, and start behind the URL line.
#[verifier::rlimit(40)]
#[verifier::spinoff_prover]
pub proof fn lemma_tail_sections(x: Seq<u8>)
    ensures
        ({
            let l = tokenizer::lines_from(x, 0);
            let t = tail_tokens(x);
            let cursor = assemble::line_start(x, l, tail_line(t));
            &&& 0 <= tail_line(t) <= t.len()
            &&& t.len() == l.len()
            &&& 0 <= cursor <= x.len()
            &&& assemble::sections_in_order(all_sections(x, l, t), cursor, x.len() as int)
        }),
{
    let l = tokenizer::lines_from(x, 0);
    let t = tail_tokens(x);
    let b = tail_line(t);
    let u = assemble::next_content(t, 0);
    assemble::lemma_next_content(t, 0);
    if u < t.len() {
        assemble::lemma_next_content(t, u + 1);
    }
    tokenizer::lemma_lines_from(x, 0);
    if b < l.len() {
        assert(tokenizer::line_ok(x, l[b]));
    }
    // An empty line before the text changes nothing.
    let a = seq![LF];
    let s = a + x;
    let start = pieces::at_start();
    assert(task_laws::one_break(a));
    task_laws::lemma_empty_row(a);
    assert(tokenizer::preamble_len(s) == 0) by {
        assert(s[0] == LF);
    }
    pieces::lemma_joined(a, 0, x);
    let none = Seq::<u8>::empty();
    let ra = pieces::rows_of(a);
    classify::lemma_blank_opens_no_fence(none);
    assert(helpers::blank(none));
    pieces::lemma_tokens_join(start, ra, pieces::rows_of(x));
    pieces::lemma_tokens(s);
    assert(pieces::scan_over(start, ra, 1) == start) by {
        assert(pieces::scan_over(start, ra, 0) == start);
        assert(ra[0] == none);
    }
    let ta = pieces::link_tokens(start, ra);
    assert(ta.len() == 1 && ta[0] is Blank);
    let l2 = tokenizer::source_lines(s);
    let t2 = parser::tokens_of(s, DocumentKind::Bookmark);
    assert(t2 == ta + t);
    assert forall|j: int| 0 <= j < 1 + b implies !((#[trigger] t2[j]) matches Token::Heading {
        level,
        ..
    } && level >= 2) by {
        if j > 0 {
            assert(t2[j] == t[j - 1]);
            if j - 1 != u {
                assert(t[j - 1] is Blank);
            }
        }
    }
    assemble::lemma_sections_in_order(s, l2, t2, 1 + b);
    lemma_section_lines_join(ta, t, t.len() as int);
    lemma_no_sections(ta, 1);
    let at = assemble::section_lines(t, t.len() as int);
    lemma_section_lines_are(t, t.len() as int);
    assert(assemble::section_lines(t2, t2.len() as int) =~= counted(at, 1));
    assert(t2.skip(1) =~= t);
    lemma_sections_moved(s, l2, t2, a, x, 1, at);
    let v = all_sections(x, l, t);
    let w = all_sections(s, l2, t2);
    assert forall|k: int| 0 <= k < v.len() implies (#[trigger] v[k]).span.start
        < v[k].span.end by {
        assert(w[k].span == pieces::moved(v[k].span, 1));
        assert(w[k].span.start < w[k].span.end);
    }
    assert forall|k: int| 0 <= k < v.len() - 1 implies #[trigger] assemble::precedes(v, k) by {
        assert(assemble::precedes(w, k));
        assert(w[k].span == pieces::moved(v[k].span, 1));
        assert(w[k + 1].span == pieces::moved(v[k + 1].span, 1));
    }
    if v.len() > 0 {
        assert(w[0].span == pieces::moved(v[0].span, 1));
        assert(w[v.len() - 1].span == pieces::moved(v[v.len() - 1].span, 1));
        if b < l.len() {
            assert(l2[1 + b] == retitled::moved(l[b], 1));
        }
    }
}

/// Each section starts at or after the place where the first may start.
pub proof fn lemma_in_order(x: Seq<SectionView>, cursor: int, len: int, k: int)
    requires
        assemble::sections_in_order(x, cursor, len),
        0 <= k < x.len(),
    ensures
        cursor <= x[k].span.start < x[k].span.end <= len,
    decreases x.len(),
{
    lemma_starts(x, cursor, len, k);
    lemma_ends(x, cursor, len, k);
    assert(x[k].span.start < x[k].span.end);
}

proof fn lemma_starts(x: Seq<SectionView>, cursor: int, len: int, k: int)
    requires
        assemble::sections_in_order(x, cursor, len),
        0 <= k < x.len(),
    ensures
        cursor <= x[k].span.start,
    decreases k,
{
    if k > 0 {
        lemma_starts(x, cursor, len, k - 1);
        assert(assemble::precedes(x, k - 1));
        assert(x[k - 1].span.start < x[k - 1].span.end);
    }
}

proof fn lemma_ends(x: Seq<SectionView>, cursor: int, len: int, k: int)
    requires
        assemble::sections_in_order(x, cursor, len),
        0 <= k < x.len(),
    ensures
        x[k].span.end <= len,
    decreases x.len() - k,
{
    if k < x.len() - 1 {
        lemma_ends(x, cursor, len, k + 1);
        assert(assemble::precedes(x, k));
        assert(x[k + 1].span.start < x[k + 1].span.end);
    }
}

/// The ranges of the tail lie inside it.
pub proof fn lemma_link_within(x: Seq<u8>)
    ensures
        link_tail(x).url matches Some(r) ==> bytes::span_within(r, x.len() as int),
        link_tail(x).tags matches Some(r) ==> bytes::span_within(r, x.len() as int),
        forall|k: int|
            0 <= k < link_tail(x).bodies.len() ==> bytes::span_within(
                #[trigger] link_tail(x).bodies[k],
                x.len() as int,
            ),
{
    reveal(link_tail);
    let l = tokenizer::lines_from(x, 0);
    let t = tail_tokens(x);
    let len = x.len() as int;
    lemma_tail_sections(x);
    tokenizer::lemma_lines_from(x, 0);
    let u = assemble::next_content(t, 0);
    assemble::lemma_next_content(t, 0);
    if u < l.len() {
        assert(tokenizer::line_ok(x, l[u]));
    }
    let v = all_sections(x, l, t);
    let cursor = assemble::line_start(x, l, tail_line(t));
    lemma_same_tags(v, v);
    let tags = assemble::canonical_tags(v);
    if tags >= 0 {
        lemma_in_order(v, cursor, len, tags);
    }
    fragments::lemma_walk_in_order(walk_from(cursor), v, tags, len, v.len() as int);
    assert forall|k: int| 0 <= k < link_tail(x).bodies.len() implies bytes::span_within(
        #[trigger] link_tail(x).bodies[k],
        len,
    ) by {
        if v.len() > 0 {
            let w = assemble::walk(walk_from(cursor), v, tags, v.len() as int);
            assert(link_tail(x).bodies == fragments::fragments(w));
            assert(fragments::fragments(w)[k].end <= w.cursor);
        }
    }
}

/// What the parts of a bookmark read as.
pub proof fn lemma_link_reads(a: Seq<u8>, x: Seq<u8>, h: int)
    requires
        pieces::follows(a, tokenizer::preamble_len(a + x), x),
        link_head(
            pieces::rows(a, tokenizer::lines_from(a, tokenizer::preamble_len(a + x))),
            h,
        ),
        h < 0 ==> ({
            let t = tail_tokens(x);
            let q = assemble::next_content(t, 0);
            q < t.len() && !assemble::is_title(t[q])
        }),
    ensures
        ({
            let p = parser::partition_of(a + x, DocumentKind::Bookmark)->0;
            let tail = link_tail(x);
            &&& document::opt_slice(a + x, p.url) == document::opt_slice(x, tail.url)
            &&& document::opt_slice(a + x, p.tags) == document::opt_slice(x, tail.tags)
            &&& document::concat_ranges(a + x, p.bodies) == document::concat_ranges(
                x,
                tail.bodies,
            )
        }),
{
    lemma_link_tail(a, x, h);
    lemma_link_within(x);
    pieces::lemma_moved_read(a, x, link_tail(x).url);
    pieces::lemma_moved_read(a, x, link_tail(x).tags);
    pieces::lemma_moved_reads(a, x, link_tail(x).bodies);
}

/// A bookmark with a title is a head that ends with its title line, and what follows.
#[verifier::rlimit(40)]
#[verifier::spinoff_prover]
pub proof fn lemma_titled_parts(s: Seq<u8>) -> (h: int)
    requires
        parser::partition_of(s, DocumentKind::Bookmark) is Some,
        parser::partition_of(s, DocumentKind::Bookmark)->0.title is Some,
    ensures
        ({
            let l = tokenizer::source_lines(s);
            let p = tokenizer::preamble_len(s);
            let r = l[h].span();
            let front = s.take(r.start);
            let a = s.take(r.end);
            let x = s.skip(r.end);
            &&& 0 <= h < l.len()
            &&& p <= r.start < r.end <= s.len()
            &&& parser::partition_of(s, DocumentKind::Bookmark)->0.title == Some(r)
            &&& a + x == s
            &&& pieces::follows(a, p, x)
            &&& pieces::follows(front, p, s.skip(r.start))
            &&& link_head(pieces::rows(a, tokenizer::lines_from(a, p)), h)
            &&& tokenizer::lines_from(a, p)[h] == l[h]
            &&& pieces::rows(front, tokenizer::lines_from(front, p)).len() == h
            &&& link_head(pieces::rows(front, tokenizer::lines_from(front, p)), -1)
        }),
{
    let l = tokenizer::source_lines(s);
    let p = tokenizer::preamble_len(s);
    let t = parser::tokens_of(s, DocumentKind::Bookmark);
    let h = assemble::next_content(t, 0);
    assemble::lemma_next_content(t, 0);
    pieces::lemma_tokens(s);
    pieces::lemma_split(s, h);
    pieces::lemma_split(s, h + 1);
    assemble::lemma_line_ends(s, l, h);
    let r = l[h].span();
    let front = s.take(r.start);
    let a = s.take(r.end);
    let start = pieces::at_start();
    let rows = pieces::source_rows(s);
    assert(l.take(h + 1)[h] == l[h]);
    assert(rows =~= rows.take(h) + rows.skip(h));
    assert(rows =~= rows.take(h + 1) + rows.skip(h + 1));
    pieces::lemma_tokens_join(start, rows.take(h), rows.skip(h));
    pieces::lemma_tokens_join(start, rows.take(h + 1), rows.skip(h + 1));
    let ta = pieces::link_tokens(start, rows.take(h + 1));
    let tf = pieces::link_tokens(start, rows.take(h));
    assert forall|k: int| 0 <= k < tf.len() implies (#[trigger] tf[k]) is Blank by {
        assert(tf[k] == t[k]);
    }
    assert forall|k: int| 0 <= k < ta.len() implies (#[trigger] ta[k]) == t[k] by {}
    assert forall|k: int| 0 <= k < ta.len() && k != h implies (#[trigger] ta[k]) is Blank by {
        assert(ta[k] == t[k]);
    }
    assert(ta[h] == t[h]);
    h
}

/// A line that reads as the title of a bookmark.
pub open spec fn link_titles(line: Seq<u8>) -> bool {
    &&& assemble::is_title(classify::bookmark_token(pieces::at_start(), line))
    &&& forall|k: int| 0 <= k < line.len() ==> !bytes::is_line_break(#[trigger] line[k])
}

/// A title line starts with a space or a `#`.
proof fn lemma_link_title_start(line: Seq<u8>)
    requires
        link_titles(line),
    ensures
        line.len() > 0,
        line[0] == SPACE || line[0] == HASH,
{
    assert(helpers::heading_level(line) is Some);
    bytes::lemma_find_from(line, helpers::not_space(), 0);
    let i = helpers::indent(line);
    bytes::lemma_find_from(line, helpers::not_hash(), i);
    if i > 0 {
        assert(!helpers::not_space()(line[0]));
    } else {
        assert(!helpers::not_hash()(line[0]));
    }
}

/// Blank lines and then a title line.
proof fn lemma_titled_head(front: Seq<u8>, p: int, line: Seq<u8>)
    requires
        0 <= p <= front.len(),
        readback::whole_lines(front, p, line.push(LF)),
        link_head(pieces::rows(front, tokenizer::lines_from(front, p)), -1),
        link_titles(line),
    ensures
        ({
            let a = front + line.push(LF);
            let la = tokenizer::lines_from(a, p);
            let h = tokenizer::lines_from(front, p).len() as int;
            &&& link_head(pieces::rows(a, la), h)
            &&& la[h].span() == (Span { start: front.len() as int, end: a.len() as int })
        }),
{
    let a = front + line.push(LF);
    let start = pieces::at_start();
    task_laws::lemma_line_after(front, p, line);
    let rf = pieces::rows(front, tokenizer::lines_from(front, p));
    let ra = pieces::rows(a, tokenizer::lines_from(a, p));
    let h = rf.len() as int;
    assert(ra =~= rf + seq![line]);
    lemma_head_scan(rf, -1, h);
    pieces::lemma_tokens_join(start, rf, seq![line]);
    let tf = pieces::link_tokens(start, rf);
    let ta = pieces::link_tokens(start, ra);
    let one = pieces::link_tokens(start, seq![line]);
    assert(one.len() == 1);
    assert(one[0] == classify::bookmark_token(start, line));
    assert(ta[h] == one[0]);
    assert forall|k: int| 0 <= k < ta.len() && k != h implies (#[trigger] ta[k]) is Blank by {
        assert(ta[k] == tf[k]);
    }
}

/// A bookmark with a title gets another one.
#[verifier::rlimit(40)]
#[verifier::spinoff_prover]
proof fn lemma_link_title_exchanged(doc: DocumentView, line: Seq<u8>)
    requires
        parser::parsed_as(doc.source, DocumentKind::Bookmark) == Ok::<DocumentView, NbErrorView>(
            doc,
        ),
        link_titles(line),
        doc.partition.title is Some,
    ensures
        task_laws::retitled_as(doc, line, DocumentKind::Bookmark),
{
    let s = doc.source;
    let h = lemma_titled_parts(s);
    let p = tokenizer::preamble_len(s);
    let r = tokenizer::source_lines(s)[h].span();
    let front = s.take(r.start);
    let x = s.skip(r.end);
    let head = front + line.push(LF);
    let source = head + x;
    lemma_link_title_start(line);
    assert(line.last() != LF) by {
        assert(!bytes::is_line_break(line[line.len() - 1]));
    }
    assert(source =~= lines::title_replaced(doc, line));
    assert(line.push(LF)[0] == line[0]);
    assert(source[r.start] == line[0]);
    assert(r.start >= 3 ==> source[0] == s[0] && source[1] == s[1] && source[2] == s[2]);
    assert(tokenizer::preamble_len(source) == p);
    lemma_titled_head(front, p, line);
    assert(head.last() == LF);
    lemma_link_tail(head, x, h);
    lemma_link_reads(head, x, h);
    lemma_link_reads(s.take(r.end), x, h);
    assert(bytes::slice_of(source, Span { start: r.start, end: head.len() as int })
        =~= line.push(LF));
}

/// A bookmark without a title gets one.
#[verifier::rlimit(40)]
#[verifier::spinoff_prover]
proof fn lemma_link_title_added(doc: DocumentView, line: Seq<u8>)
    requires
        parser::parsed_as(doc.source, DocumentKind::Bookmark) == Ok::<DocumentView, NbErrorView>(
            doc,
        ),
        link_titles(line),
        doc.partition.title is None,
        tokenizer::preamble_len(doc.source) == 0,
    ensures
        task_laws::retitled_as(doc, line, DocumentKind::Bookmark),
{
    let s = doc.source;
    let none = Seq::<u8>::empty();
    let start = pieces::at_start();
    lemma_link_title_start(line);
    assert(line.last() != LF) by {
        assert(!bytes::is_line_break(line[line.len() - 1]));
    }
    assert(none + s =~= s);
    assert(tokenizer::lines_from(none, 0) =~= Seq::<LineSpan>::empty());
    let r0 = pieces::rows(none, tokenizer::lines_from(none, 0));
    assert(link_head(r0, -1));
    pieces::lemma_tokens(s);
    lemma_link_reads(none, s, -1);
    lemma_titled_head(none, 0, line);
    let alone = line.push(LF);
    assert(none + alone =~= alone);
    let spaced = s.len() > 0 && s[0] != LF;
    let head = if spaced {
        alone.push(LF)
    } else {
        alone
    };
    let source = head + s;
    assert(source =~= lines::title_replaced(doc, line));
    assert(source[0] == line[0]);
    let la = tokenizer::lines_from(alone, 0);
    assert(la[0].span() == (Span { start: 0, end: alone.len() as int }));
    if spaced {
        lemma_blank_after(alone, 0);
    }
    assert(head.last() == LF);
    lemma_link_tail(head, s, 0);
    lemma_link_reads(head, s, 0);
    assert(bytes::slice_of(source, la[0].span()) =~= alone);
}

/// An empty line after a head.
proof fn lemma_blank_after(a: Seq<u8>, h: int)
    requires
        link_head(pieces::rows_of(a), h),
        h >= 0,
        a.len() > 0,
        a.last() == LF,
    ensures
        link_head(pieces::rows_of(a.push(LF)), h),
        tokenizer::lines_from(a.push(LF), 0)[h] == tokenizer::lines_from(a, 0)[h],
{
    let none = Seq::<u8>::empty();
    let start = pieces::at_start();
    task_laws::lemma_line_after(a, 0, none);
    assert(a + none.push(LF) =~= a.push(LF));
    let ra = pieces::rows_of(a);
    let rb = pieces::rows_of(a.push(LF));
    assert(rb =~= ra + seq![none]);
    lemma_head_scan(ra, h, ra.len() as int);
    pieces::lemma_tokens_join(start, ra, seq![none]);
    classify::lemma_blank_opens_no_fence(none);
    assert(helpers::blank(none));
    let one = pieces::link_tokens(start, seq![none]);
    assert(one.len() == 1 && one[0] is Blank);
    let ta = pieces::link_tokens(start, ra);
    let tb = pieces::link_tokens(start, rb);
    assert(tb == ta + one);
    assert forall|k: int| 0 <= k < tb.len() && k != h implies (#[trigger] tb[k]) is Blank by {
        if k < ta.len() {
            assert(tb[k] == ta[k]);
        } else {
            assert(tb[k] == one[0]);
        }
    }
    assert(tb[h] == ta[h]);
}

/// The new title of a bookmark reads back as it was written, and its URL line, its tag section
/// and its body stay. This leaves out lines that do not read as a title, and a bookmark without
/// a title that starts with a byte-order mark, which would stand behind the new title.
pub proof fn law_new_link_title_reads_back(doc: DocumentView, line: Seq<u8>)
    requires
        parser::parsed_as(doc.source, DocumentKind::Bookmark) == Ok::<DocumentView, NbErrorView>(
            doc,
        ),
        link_titles(line),
        doc.partition.title is None ==> tokenizer::preamble_len(doc.source) == 0,
    ensures
        task_laws::retitled_as(doc, line, DocumentKind::Bookmark),
{
    if doc.partition.title is Some {
        lemma_link_title_exchanged(doc, line);
    } else {
        lemma_link_title_added(doc, line);
    }
}

} // verus!
