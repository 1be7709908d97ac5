//! The shape of the body of a document.

use crate::bytes;
use crate::bytes::Span;
use crate::parser;
use crate::parser::assemble;
use crate::parser::assemble::{SectionView, Walk};
use crate::parser::document::DocumentKind;
use crate::parser::helpers;
use crate::parser::partition;
use crate::parser::readback;
use crate::parser::types::{HeadingRole, Token};
use crate::tokenizer;
use crate::tokenizer::LineSpan;
use vstd::prelude::*;

verus! {

/// Non-empty spans before `to`, one after the other.
pub open spec fn in_order(v: Seq<Span>, to: int) -> bool {
    &&& forall|k: int| 0 <= k < v.len() ==> 0 <= (#[trigger] v[k]).start < v[k].end <= to
    &&& forall|i: int, j: int|
        0 <= i < j < v.len() ==> (#[trigger] v[i]).end <= (#[trigger] v[j]).start
}

/// One more span at the end.
proof fn lemma_in_order_push(v: Seq<Span>, to: int, x: Span)
    requires
        in_order(v, to),
        0 <= x.start < x.end,
        to <= x.start,
    ensures
        in_order(v.push(x), x.end),
{
    let w = v.push(x);
    assert forall|k: int| 0 <= k < w.len() implies 0 <= (#[trigger] w[k]).start < w[k].end
        <= x.end by {
        if k < v.len() {
            assert(w[k] == v[k]);
        }
    }
    assert forall|i: int, j: int| 0 <= i < j < w.len() implies (#[trigger] w[i]).end <= (
    #[trigger] w[j]).start by {
        assert(w[i] == v[i]);
        if j < v.len() {
            assert(w[j] == v[j]);
        }
    }
}

/// The fragments that a walk has made so far.
pub open spec fn fragments(w: Walk) -> Seq<Span> {
    w.bodies + partition::opt_seq(w.open)
}

/// One step of the walk keeps the fragments in order.
proof fn lemma_step_in_order(w: Walk, y: SectionView, first: bool, is_tags: bool)
    requires
        in_order(fragments(w), w.cursor),
        w.open matches Some(o) ==> o.end == w.cursor,
        0 <= w.cursor <= y.span.start < y.span.end,
    ensures
        in_order(
            fragments(assemble::walk_step(w, y, first, is_tags)),
            assemble::walk_step(w, y, first, is_tags).cursor,
        ),
        assemble::walk_step(w, y, first, is_tags).open matches Some(o) ==> o.end == y.span.end,
        assemble::walk_step(w, y, first, is_tags).cursor == y.span.end,
{
    let r = assemble::walk_step(w, y, first, is_tags);
    let v = fragments(w);
    let u = fragments(r);
    if is_tags {
        assert(u =~= v);
    } else if y.role == HeadingRole::InternalBody && w.open is Some {
        let n = v.len() - 1;
        assert(v[n] == w.open->0);
        assert(u[n] == r.open->0);
        assert forall|k: int| 0 <= k < n implies u[k] == #[trigger] v[k] by {}
        assert forall|i: int, j: int| 0 <= i < j < u.len() implies (#[trigger] u[i]).end <= (
        #[trigger] u[j]).start by {
            assert(v[i].end <= v[j].start);
        }
        assert forall|k: int| 0 <= k < u.len() implies 0 <= (#[trigger] u[k]).start < u[k].end
            <= r.cursor by {
            assert(0 <= v[k].start < v[k].end);
        }
    } else {
        lemma_in_order_push(v, w.cursor, r.open->0);
        assert(u =~= v.push(r.open->0));
    }
}

/// The walk keeps the fragments in order.
pub proof fn lemma_walk_in_order(start: Walk, x: Seq<SectionView>, tags: int, len: int, n: int)
    requires
        0 <= start.cursor,
        start.open is None,
        start.bodies.len() == 0,
        assemble::sections_in_order(x, start.cursor, len),
        0 <= n <= x.len(),
    ensures
        ({
            let w = assemble::walk(start, x, tags, n);
            &&& in_order(fragments(w), w.cursor)
            &&& w.open matches Some(o) ==> o.end == w.cursor
            &&& w.cursor == if n > 0 {
                x[n - 1].span.end
            } else {
                start.cursor
            }
            &&& 0 <= w.cursor
        }),
    decreases n,
{
    if n == 0 {
        assert(fragments(start) =~= Seq::<Span>::empty());
    } else {
        lemma_walk_in_order(start, x, tags, len, n - 1);
        let w = assemble::walk(start, x, tags, n - 1);
        if n > 1 {
            assert(assemble::precedes(x, n - 2));
        }
        assert(x[n - 1].span.start < x[n - 1].span.end);
        lemma_step_in_order(w, x[n - 1], n == 1, n - 1 == tags);
    }
}

/// The fragments of a bookmark.
proof fn lemma_bookmark_fragments(s: Seq<u8>, l: Seq<LineSpan>, t: Seq<Token>)
    requires
        assemble::fits(s, l, t),
        assemble::bookmark_partition(s, l, t) is Some,
    ensures
        in_order(assemble::bookmark_partition(s, l, t)->0.bodies, s.len() as int),
{
    assemble::lemma_source_lines(s);
    let h = assemble::next_content(t, 0);
    assemble::lemma_next_content(t, 0);
    let titled = assemble::is_title(t[h]);
    let u = if titled {
        assemble::next_content(t, h + 1)
    } else {
        h
    };
    if titled {
        assemble::lemma_next_content(t, h + 1);
    }
    let linked = u < t.len() && t[u] is Url;
    let b = if linked {
        assemble::next_content(t, u + 1)
    } else {
        u
    };
    if linked {
        assemble::lemma_next_content(t, u + 1);
    }
    assert forall|j: int| 0 <= j < b implies !((#[trigger] t[j]) matches Token::Heading {
        level,
        ..
    } && level >= 2) by {
        if j != h && j != u {
            assert(t[j] is Blank);
        }
    }
    assemble::lemma_sections_in_order(s, l, t, b);
    let cursor = assemble::line_start(s, l, b);
    if b > 0 {
        assemble::lemma_line_starts(s, l, 0, b);
        assemble::lemma_line_ends(s, l, 0);
    }
    if b < l.len() {
        assemble::lemma_line_ends(s, l, b);
    }
    let start = Walk {
        separators: assemble::blank_spans(l, t, b),
        bodies: Seq::empty(),
        open: None,
        cursor,
    };
    let x = assemble::sections(s, l, t, assemble::section_lines(t, t.len() as int));
    lemma_walk_in_order(start, x, assemble::canonical_tags(x), s.len() as int, x.len() as int);
}

/// The body of a note starts on a line that is not blank.
proof fn lemma_note_fragment(s: Seq<u8>)
    ensures
        ({
            let v = parser::partition_of(s, DocumentKind::Note)->0.bodies;
            &&& v.len() <= 1
            &&& in_order(v, s.len() as int)
            &&& v.len() == 1 ==> v[0].end == s.len() && !helpers::blank(
                readback::first_line(bytes::slice_of(s, v[0])),
            )
        }),
{
    let l = tokenizer::source_lines(s);
    let t = parser::tokens_of(s, DocumentKind::Note);
    let h = assemble::next_content(t, 0);
    assemble::lemma_next_content(t, 0);
    let titled = h < t.len() && assemble::is_title(t[h]);
    let u = if titled {
        assemble::next_content(t, h + 1)
    } else {
        h
    };
    if titled {
        assemble::lemma_next_content(t, h + 1);
    }
    let tagged = u < t.len() && t[u] is TagsPrefix;
    let b = if tagged {
        assemble::next_content(t, u + 1)
    } else {
        u
    };
    if tagged {
        assemble::lemma_next_content(t, u + 1);
    }
    if b < l.len() {
        assemble::lemma_line_ends(s, l, b);
        let at = l[b].start;
        let x = s.skip(at);
        assert(s.take(at) + x =~= s);
        readback::lemma_first_line_behind(s.take(at), x);
        tokenizer::lemma_line_is(s, tokenizer::preamble_len(s), b);
        tokenizer::lemma_line_at(s, at);
        let from = tokenizer::lines_from(s, at);
        assert(from[0] == tokenizer::line_at(s, at));
        assert(bytes::slice_of(s, Span { start: at, end: s.len() as int }) =~= x);
        assert(!helpers::blank(l[b].content(s)));
    }
}

/// The fragment of a task.
proof fn lemma_todo_fragment(s: Seq<u8>)
    requires
        parser::partition_of(s, DocumentKind::Todo) is Some,
    ensures
        ({
            let v = parser::partition_of(s, DocumentKind::Todo)->0.bodies;
            &&& v.len() <= 1
            &&& in_order(v, s.len() as int)
        }),
{
    let l = tokenizer::source_lines(s);
    let t = parser::tokens_of(s, DocumentKind::Todo);
    let h = assemble::next_content(t, 0);
    assemble::lemma_next_content(t, 0);
    let b = assemble::next_content(t, h + 1);
    assemble::lemma_next_content(t, h + 1);
    let k = assemble::last_heading(t, t.len() as int);
    assemble::lemma_last_heading(t, t.len() as int);
    if b < l.len() {
        assemble::lemma_line_ends(s, l, b);
    }
    if k > h {
        assemble::lemma_line_ends(s, l, k);
    }
}

/// The fragments of a body are non-empty, lie inside the source and stand one after the other.
/// A note or a task has at most one; that of a note reaches to the end of the source and starts
/// on a line that is not blank.
pub proof fn law_body_fragments_are_in_order(s: Seq<u8>, kind: DocumentKind)
    ensures
        parser::parsed_as(s, kind) matches Ok(doc) ==> {
            let v = doc.partition.bodies;
            &&& in_order(v, s.len() as int)
            &&& kind != DocumentKind::Bookmark ==> v.len() <= 1
            &&& kind == DocumentKind::Note && v.len() == 1 ==> v[0].end == s.len()
                && !helpers::blank(readback::first_line(bytes::slice_of(s, v[0])))
        },
{
    if parser::partition_of(s, kind) is Some {
        match kind {
            DocumentKind::Note => lemma_note_fragment(s),
            DocumentKind::Todo => lemma_todo_fragment(s),
            DocumentKind::Bookmark => lemma_bookmark_fragments(
                s,
                tokenizer::source_lines(s),
                parser::tokens_of(s, kind),
            ),
        }
    }
}

} // verus!
