//! What is read back of a bookmark whose body was replaced.

use crate::bytes;
use crate::bytes::{Span, CR, LF};
use crate::error::NbErrorView;
use crate::lines;
use crate::parser;
use crate::parser::assemble;
use crate::parser::assemble::SectionView;
use crate::parser::classify;
use crate::parser::classify::BookmarkScan;
use crate::parser::document;
use crate::parser::document::{DocumentKind, DocumentView};
use crate::parser::fragments;
use crate::parser::helpers;
use crate::parser::link_laws;
use crate::parser::partition;
use crate::parser::pieces;
use crate::parser::readback;
use crate::parser::retitled;
use crate::parser::tag_sections;
use crate::parser::tag_sections::opens_section;
use crate::parser::task_laws;
use crate::parser::types::{HeadingRole, Token};
use crate::tokenizer;
use crate::tokenizer::LineSpan;
use vstd::prelude::*;

verus! {

/// From section `from` on, every section but that one belongs to what comes before it.
pub open spec fn run_on(v: Seq<SectionView>, from: int, to: int) -> bool {
    forall|k: int| from < k < to ==> (#[trigger] v[k]).role == HeadingRole::InternalBody
}

/// The walk over sections that make one body.
proof fn lemma_one_body(v: Seq<SectionView>, cursor: int, tags: int, n: int)
    requires
        0 < n <= v.len(),
        tags < 0 || tags >= n,
        run_on(v, 0, n),
    ensures
        ({
            let w = assemble::walk(link_laws::walk_from(cursor), v, tags, n);
            &&& w.bodies == Seq::<Span>::empty()
            &&& w.open == Some(Span { start: cursor, end: v[n - 1].span.end })
        }),
    decreases n,
{
    let start = link_laws::walk_from(cursor);
    if n > 1 {
        lemma_one_body(v, cursor, tags, n - 1);
        assert(v[n - 1].role == HeadingRole::InternalBody);
    } else {
        assert(assemble::walk(start, v, tags, 0) == start);
        assert(start.bodies + partition::opt_seq(start.open) =~= Seq::<Span>::empty());
    }
}

/// The body of a bookmark without tags.
pub proof fn lemma_body_alone(v: Seq<SectionView>, cursor: int, len: int)
    requires
        v.len() > 0,
        run_on(v, 0, v.len() as int),
        forall|k: int| 0 <= k < v.len() ==> !(#[trigger] v[k]).exact_tags,
    ensures
        assemble::canonical_tags(v) < 0,
        link_laws::bodies_of(v, cursor, len) == seq![
            Span { start: cursor, end: v.last().span.end },
        ],
{
    tag_sections::lemma_untagged(v);
    lemma_one_body(v, cursor, assemble::canonical_tags(v), v.len() as int);
    assert(link_laws::bodies_of(v, cursor, len) =~= seq![
        Span { start: cursor, end: v.last().span.end },
    ]);
}

/// The body of a bookmark whose tags are in its last section.
pub proof fn lemma_body_before_tags(v: Seq<SectionView>, cursor: int, len: int)
    requires
        v.len() > 0,
        run_on(v, 0, v.len() - 1),
        v.last().exact_tags,
        forall|k: int| 0 <= k < v.len() - 1 ==> !(#[trigger] v[k]).exact_tags,
    ensures
        assemble::canonical_tags(v) == v.len() - 1,
        link_laws::bodies_of(v, cursor, len) == (if v.len() > 1 {
            seq![Span { start: cursor, end: v[v.len() - 2].span.end }]
        } else {
            Seq::empty()
        }),
{
    tag_sections::lemma_last_holds_tags(v);
    let n = v.len() as int;
    let start = link_laws::walk_from(cursor);
    if n > 1 {
        lemma_one_body(v, cursor, n - 1, n - 1);
    } else {
        assert(assemble::walk(start, v, 0, 0) == start);
    }
    let w = assemble::walk(start, v, n - 1, n);
    assert(link_laws::bodies_of(v, cursor, len) =~= w.bodies + partition::opt_seq(w.open));
    assert(link_laws::bodies_of(v, cursor, len) =~= (if n > 1 {
        seq![Span { start: cursor, end: v[n - 2].span.end }]
    } else {
        Seq::empty()
    }));
}

/// The walk over sections that make one body behind a tag section.
proof fn lemma_one_body_behind(v: Seq<SectionView>, cursor: int, n: int)
    requires
        1 < n <= v.len(),
        run_on(v, 1, n),
    ensures
        ({
            let w = assemble::walk(link_laws::walk_from(cursor), v, 0, n);
            &&& w.bodies == Seq::<Span>::empty()
            &&& w.open == Some(Span { start: v[1].span.start, end: v[n - 1].span.end })
        }),
    decreases n,
{
    let start = link_laws::walk_from(cursor);
    if n > 2 {
        lemma_one_body_behind(v, cursor, n - 1);
        assert(v[n - 1].role == HeadingRole::InternalBody);
    } else {
        assert(assemble::walk(start, v, 0, 0) == start);
        let w = assemble::walk(start, v, 0, 1);
        assert(w.bodies =~= Seq::<Span>::empty());
        assert(w.open is None);
        let u = assemble::walk(start, v, 0, 2);
        assert(u.bodies =~= Seq::<Span>::empty());
    }
}

/// The body of a bookmark whose tags are in its first section.
pub proof fn lemma_body_behind_tags(v: Seq<SectionView>, cursor: int, len: int)
    requires
        v.len() > 0,
        run_on(v, 1, v.len() as int),
        v[0].exact_tags,
        forall|k: int| 0 < k < v.len() ==> !(#[trigger] v[k]).exact_tags,
    ensures
        assemble::canonical_tags(v) == 0,
        link_laws::bodies_of(v, cursor, len) == (if v.len() > 1 {
            seq![Span { start: v[1].span.start, end: v.last().span.end }]
        } else {
            Seq::empty()
        }),
{
    link_laws::lemma_same_tags(v, v);
    tag_sections::lemma_untagged(v);
    let n = v.len() as int;
    let start = link_laws::walk_from(cursor);
    assert(assemble::canonical_tags(v) == 0);
    if n > 1 {
        lemma_one_body_behind(v, cursor, n);
    } else {
        assert(assemble::walk(start, v, 0, 0) == start);
        assert(assemble::walk(start, v, 0, 1).open is None);
    }
    let w = assemble::walk(start, v, 0, n);
    assert(link_laws::bodies_of(v, cursor, len) =~= (if n > 1 {
        seq![Span { start: v[1].span.start, end: v.last().span.end }]
    } else {
        Seq::empty()
    }));
}

/// Blank lines, and perhaps a URL line among them.
pub open spec fn leads(t: Seq<Token>) -> bool {
    link_laws::tail_line(t) == t.len()
}

/// Where the body starts behind blank lines and perhaps a URL line.
pub proof fn lemma_lead(tg: Seq<Token>, tw: Seq<Token>)
    requires
        leads(tg),
        tw.len() > 0 ==> tw[0] !is Blank && (assemble::next_content(tg, 0) == tg.len()
            ==> tw[0] !is Url),
    ensures
        link_laws::tail_line(tg + tw) == tg.len(),
        forall|k: int| 0 <= k < tg.len() ==> !opens_section(#[trigger] tg[k]),
        ({
            let t = tg + tw;
            let u = assemble::next_content(t, 0);
            &&& u == assemble::next_content(tg, 0)
            &&& u < t.len() && t[u] is Url <==> u < tg.len()
            &&& u < tg.len() ==> tg[u] is Url
        }),
{
    let t = tg + tw;
    let full = assemble::has_content();
    let u = assemble::next_content(tg, 0);
    assemble::lemma_next_content(tg, 0);
    if u < tg.len() {
        assemble::lemma_next_content(tg, u + 1);
        assert(tg[u] is Url);
        assert forall|k: int| u < k < tg.len() implies (#[trigger] tg[k]) is Blank by {}
    }
    assert forall|k: int| 0 <= k < tg.len() implies !opens_section(#[trigger] tg[k]) by {
        if k != u {
            assert(tg[k] is Blank);
        }
    }
    assert forall|k: int| 0 <= k < u implies !full(#[trigger] t[k]) by {
        assert(t[k] == tg[k]);
    }
    if u < tg.len() {
        assert(t[u] == tg[u]);
        assert(full(t[u]));
    } else if tw.len() > 0 {
        assert(t[u] == tw[0]);
        assert(full(t[u]));
    }
    bytes::lemma_find_from_is(t, full, 0, u);
    if u < tg.len() {
        assert forall|k: int| u + 1 <= k < tg.len() implies !full(#[trigger] t[k]) by {
            assert(t[k] == tg[k]);
        }
        if tw.len() > 0 {
            assert(t[tg.len() as int] == tw[0]);
            assert(full(t[tg.len() as int]));
        }
        bytes::lemma_find_from_is(t, full, u + 1, tg.len() as int);
    }
}

/// New text for a body reads as one piece: no section but the first stands for itself, and
/// none is a tag section.
pub open spec fn one_piece(scan: BookmarkScan, new: Seq<u8>) -> bool {
    let t = tag_sections::tokens_behind(scan, new);
    let at = assemble::section_lines(t, t.len() as int);
    &&& forall|k: int| 0 < k < at.len() ==> t[#[trigger] at[k]]->role == HeadingRole::InternalBody
    &&& forall|k: int|
        0 <= k < at.len() ==> pieces::rows_of(new)[#[trigger] at[k]] != helpers::reserved_heading(
            "Tags"@,
        )
}

/// The sections of a text, by number.
pub open spec fn sections_of(x: Seq<u8>) -> Seq<SectionView> {
    link_laws::all_sections(x, tokenizer::lines_from(x, 0), link_laws::tail_tokens(x))
}

/// What a section of a text is, by its heading line.
proof fn lemma_section_is(x: Seq<u8>, k: int)
    requires
        0 <= k < sections_of(x).len(),
    ensures
        ({
            let t = link_laws::tail_tokens(x);
            let at = assemble::section_lines(t, t.len() as int);
            let v = sections_of(x);
            &&& at.len() == v.len()
            &&& 0 <= at[k] < t.len()
            &&& t.len() == tokenizer::lines_from(x, 0).len()
            &&& t.len() == pieces::rows_of(x).len()
            &&& v[k].role == t[at[k]]->role
            &&& v[k].span.start == tokenizer::lines_from(x, 0)[at[k]].start
            &&& v[k].exact_tags <==> t[at[k]]->text == "Tags"@ && pieces::rows_of(x)[at[k]]
                == helpers::reserved_heading("Tags"@)
        }),
{
    let t = link_laws::tail_tokens(x);
    link_laws::lemma_section_lines_are(t, t.len() as int);
    let at = assemble::section_lines(t, t.len() as int);
    assert(pieces::rows_of(x)[at[k]] == tokenizer::lines_from(x, 0)[at[k]].content(x));
}

/// A body behind blank lines and perhaps a URL line, where nothing follows.
#[verifier::rlimit(40)]
#[verifier::spinoff_prover]
pub proof fn lemma_tail_alone(g: Seq<u8>, new: Seq<u8>)
    requires
        pieces::follows(g, 0, new),
        leads(link_laws::tail_tokens(g)),
        one_piece(tag_sections::scan_behind(g), new),
        new.len() > 0 ==> ({
            let first = tag_sections::tokens_behind(tag_sections::scan_behind(g), new)[0];
            let tg = link_laws::tail_tokens(g);
            first !is Blank && (assemble::next_content(tg, 0) == tg.len() ==> first !is Url)
        }),
    ensures
        link_laws::link_tail(g + new).tags is None,
        link_laws::link_tail(g + new).url == link_laws::link_tail(g).url,
        link_laws::link_tail(g + new).bodies == (if new.len() > 0 {
            seq![Span { start: g.len() as int, end: (g + new).len() as int }]
        } else {
            Seq::empty()
        }),
{
    reveal(link_laws::link_tail);
    let x = g + new;
    let scan = tag_sections::scan_behind(g);
    let tg = link_laws::tail_tokens(g);
    let tn = tag_sections::tokens_behind(scan, new);
    let t = link_laws::tail_tokens(x);
    let l = tokenizer::lines_from(x, 0);
    pieces::lemma_joined(g, 0, new);
    pieces::lemma_tokens_join(pieces::at_start(), pieces::rows_of(g), pieces::rows_of(new));
    assert(t == tg + tn);
    if new.len() > 0 {
        task_laws::lemma_first_row(new);
    } else {
        assert(tokenizer::lines_from(new, 0) =~= Seq::<LineSpan>::empty());
    }
    lemma_lead(tg, tn);
    link_laws::lemma_no_sections(tg, tg.len() as int);
    link_laws::lemma_section_lines_join(tg, tn, tn.len() as int);
    link_laws::lemma_section_lines_are(tn, tn.len() as int);
    let b = assemble::section_lines(tn, tn.len() as int);
    let at = assemble::section_lines(t, t.len() as int);
    let ng = tg.len() as int;
    assert(at =~= link_laws::counted(b, ng));
    let v = sections_of(x);
    assert forall|k: int| 0 <= k < v.len() implies !(#[trigger] v[k]).exact_tags by {
        lemma_section_is(x, k);
        assert(at[k] == b[k] + ng);
        assert(pieces::rows_of(x)[at[k]] == pieces::rows_of(new)[b[k]]);
    }
    assert forall|k: int| 0 < k < v.len() implies (#[trigger] v[k]).role
        == HeadingRole::InternalBody by {
        lemma_section_is(x, k);
        assert(at[k] == b[k] + ng);
        assert(t[at[k]] == tn[b[k]]);
    }
    tag_sections::lemma_untagged(v);
    tokenizer::lemma_lines_from(new, 0);
    let cursor = assemble::line_start(x, l, ng);
    assert(cursor == g.len()) by {
        if new.len() > 0 {
            assert(l[ng] == retitled::moved(tokenizer::lines_from(new, 0)[0], g.len() as int));
        }
    }
    if v.len() > 0 {
        lemma_body_alone(v, cursor, x.len() as int);
        lemma_last_section(x);
    }
    let u = assemble::next_content(tg, 0);
    assemble::lemma_next_content(tg, 0);
    if u < ng {
        assert(l[u] == tokenizer::lines_from(g, 0)[u]);
    }
}

/// The last section goes to the end.
proof fn lemma_last_section(x: Seq<u8>)
    requires
        sections_of(x).len() > 0,
    ensures
        sections_of(x).last().span.end == x.len(),
{
}
/// The tokens of a line break alone, where no fence is open.
proof fn lemma_break_tokens(scan: BookmarkScan, sep: Seq<u8>)
    requires
        task_laws::one_break(sep),
        scan.fence is None,
    ensures
        tag_sections::tokens_behind(scan, sep) == (if sep.len() > 0 {
            seq![Token::Blank]
        } else {
            Seq::<Token>::empty()
        }),
        tag_sections::scan_after(scan, sep) == scan,
{
    let none = Seq::<u8>::empty();
    let r = pieces::rows_of(sep);
    if sep.len() > 0 {
        task_laws::lemma_empty_row(sep);
        classify::lemma_blank_opens_no_fence(none);
        assert(helpers::blank(none));
        assert(pieces::scan_over(scan, r, 0) == scan);
        assert(pieces::scan_over(scan, r, 1) == classify::bookmark_step(scan, none));
        assert(tag_sections::tokens_behind(scan, sep) =~= seq![Token::Blank]);
    } else {
        assert(tokenizer::lines_from(sep, 0) =~= Seq::<LineSpan>::empty());
        assert(tag_sections::tokens_behind(scan, sep) =~= Seq::<Token>::empty());
    }
}

/// New text for a body can stand before a tag section: it has a section of its own, leaves no
/// fence open, and ends with a whole line, which is not empty where nothing sets the tag section
/// apart.
pub open spec fn before_tags(scan: BookmarkScan, new: Seq<u8>, sep: Seq<u8>, y: Seq<u8>) -> bool {
    let t = tag_sections::tokens_behind(scan, new);
    &&& assemble::section_lines(t, t.len() as int).len() > 0
    &&& tag_sections::scan_after(scan, new).fence is None
    &&& readback::whole_lines(new, 0, sep + y)
    &&& sep.len() == 0 ==> pieces::rows_of(new).last().len() > 0
}

/// The lines and tokens of a text with a body before a tag section.
#[verifier::rlimit(40)]
#[verifier::spinoff_prover]
proof fn lemma_tagged_text(g: Seq<u8>, new: Seq<u8>, sep: Seq<u8>, y: Seq<u8>)
    requires
        pieces::follows(g, 0, new + (sep + y)),
        pieces::follows(new, 0, sep + y),
        task_laws::one_break(sep),
        tag_sections::scan_after(tag_sections::scan_behind(g), new).fence is None,
        y.len() > 0,
        y[0] != LF,
    ensures
        ({
            let x = g + (new + (sep + y));
            let scan = tag_sections::scan_behind(g);
            let after = tag_sections::scan_after(scan, new);
            let tg = link_laws::tail_tokens(g);
            let tn = tag_sections::tokens_behind(scan, new);
            let ts = tag_sections::tokens_behind(after, sep);
            let ty = tag_sections::tokens_behind(after, y);
            let l = tokenizer::lines_from(x, 0);
            let k = tg.len() + tn.len() + ts.len();
            &&& link_laws::tail_tokens(x) == tg + ((tn + ts) + ty)
            &&& ts == (if sep.len() > 0 {
                seq![Token::Blank]
            } else {
                Seq::<Token>::empty()
            })
            &&& pieces::rows_of(x) == pieces::rows_of(g) + ((pieces::rows_of(new)
                + pieces::rows_of(sep)) + pieces::rows_of(y))
            &&& l.len() == k + ty.len()
            &&& ty.len() > 0
            &&& l[k as int].start == g.len() + new.len() + sep.len()
            &&& sep.len() > 0 ==> l[k - 1].start == g.len() + new.len() && l[k - 1].content_end
                == l[k - 1].start
            &&& sep.len() == 0 && new.len() > 0 ==> l[k - 1].content_end - l[k - 1].start
                == pieces::rows_of(new).last().len()
            &&& new.len() > 0 ==> l[tg.len() as int].start == g.len()
            &&& forall|i: int|
                0 <= i < tg.len() ==> #[trigger] l[i] == tokenizer::lines_from(g, 0)[i]
        }),
{
    let w = new + sep;
    let x = g + (new + (sep + y));
    let scan = tag_sections::scan_behind(g);
    let after = tag_sections::scan_after(scan, new);
    lemma_break_tokens(after, sep);
    assert(new + (sep + y) =~= w + y);
    assert(pieces::follows(new, 0, sep)) by {
        if sep.len() > 0 {
            assert((sep + y)[0] == sep[0]);
        }
    }
    assert(pieces::follows(w, 0, y)) by {
        if sep.len() > 0 {
            assert(w.last() == sep.last());
        } else {
            assert(w =~= new);
            assert(sep + y =~= y);
        }
    }
    tag_sections::lemma_three_parts(g, w, y);
    pieces::lemma_joined(new, 0, sep);
    pieces::lemma_tokens_join(scan, pieces::rows_of(new), pieces::rows_of(sep));
    tokenizer::lemma_lines_from(y, 0);
    tokenizer::lemma_lines_from(new, 0);
    tokenizer::lemma_lines_from(sep, 0);
    task_laws::lemma_first_row(y);
    let l = tokenizer::lines_from(x, 0);
    let lg = tokenizer::lines_from(g, 0);
    let ln = tokenizer::lines_from(new, 0);
    let ls = tokenizer::lines_from(sep, 0);
    let lw = tokenizer::lines_from(w, 0);
    let ly = tokenizer::lines_from(y, 0);
    let ng = lg.len() as int;
    let nn = ln.len() as int;
    let nw = lw.len() as int;
    assert(l[ng + nw] == retitled::moved(ly[0], (g.len() + w.len()) as int));
    if sep.len() > 0 {
        task_laws::lemma_empty_row(sep);
        assert(ls.len() == 1);
        assert(pieces::rows_of(sep)[0].len() == 0);
        assert(tokenizer::line_ok(sep, ls[0]));
        assert(lw[nn] == retitled::moved(ls[0], new.len() as int));
        assert(l[ng + nn] == retitled::moved(lw[nn], g.len() as int));
    } else {
        assert(w =~= new);
        if new.len() > 0 {
            task_laws::lemma_first_row(new);
            assert(tokenizer::line_ok(new, ln[nn - 1]));
            assert(l[ng + nn - 1] == retitled::moved(ln[nn - 1], g.len() as int));
            assert(pieces::rows_of(new)[nn - 1].len() == ln[nn - 1].content_end
                - ln[nn - 1].start);
        }
    }
    if new.len() > 0 {
        task_laws::lemma_first_row(new);
        assert(lw[0] == ln[0]);
        assert(l[ng] == retitled::moved(lw[0], g.len() as int));
    }
}

/// A body between blank lines and perhaps a URL line, and a tag section at the end.
#[verifier::rlimit(60)]
#[verifier::spinoff_prover]
pub proof fn lemma_tail_before_tags(g: Seq<u8>, new: Seq<u8>, sep: Seq<u8>, y: Seq<u8>)
    requires
        pieces::follows(g, 0, new + (sep + y)),
        leads(link_laws::tail_tokens(g)),
        task_laws::one_break(sep),
        y.len() > 0,
        y[0] != LF,
        tag_sections::is_tag_section(
            tag_sections::scan_after(tag_sections::scan_behind(g), new),
            y,
        ),
        tag_sections::scan_after(tag_sections::scan_behind(g), new).fence is None,
        new.len() > 0 ==> one_piece(tag_sections::scan_behind(g), new) && before_tags(
            tag_sections::scan_behind(g),
            new,
            sep,
            y,
        ),
        new.len() == 0 ==> sep.len() == 0,
        new.len() > 0 ==> ({
            let first = tag_sections::tokens_behind(tag_sections::scan_behind(g), new)[0];
            let tg = link_laws::tail_tokens(g);
            first !is Blank && (assemble::next_content(tg, 0) == tg.len() ==> first !is Url)
        }),
    ensures
        ({
            let x = g + (new + (sep + y));
            let n = g.len() as int + new.len();
            let tail = link_laws::link_tail(x);
            &&& tail.tags == Some(Span { start: n + sep.len(), end: x.len() as int })
            &&& tail.url == link_laws::link_tail(g).url
            &&& tail.bodies == (if new.len() > 0 {
                seq![Span { start: g.len() as int, end: n }]
            } else {
                Seq::empty()
            })
        }),
{
    reveal(link_laws::link_tail);
    let x = g + (new + (sep + y));
    let scan = tag_sections::scan_behind(g);
    let after = tag_sections::scan_after(scan, new);
    let tg = link_laws::tail_tokens(g);
    let tn = tag_sections::tokens_behind(scan, new);
    let ts = tag_sections::tokens_behind(after, sep);
    let ty = tag_sections::tokens_behind(after, y);
    let tw = tn + ts;
    let t = link_laws::tail_tokens(x);
    let l = tokenizer::lines_from(x, 0);
    lemma_tagged_text(g, new, sep, y);
    let ng = tg.len() as int;
    let nw = tw.len() as int;
    if new.len() > 0 {
        task_laws::lemma_first_row(new);
        assert((tw + ty)[0] == tn[0]);
    } else {
        assert(tokenizer::lines_from(new, 0) =~= Seq::<LineSpan>::empty());
        assert(tw =~= Seq::<Token>::empty());
        assert((tw + ty)[0] == ty[0]);
    }
    lemma_lead(tg, tw + ty);
    // The section headings.
    link_laws::lemma_no_sections(tg, ng);
    link_laws::lemma_section_lines_join(tn, ts, ts.len() as int);
    link_laws::lemma_no_sections(ts, ts.len() as int);
    tag_sections::lemma_one_section(ty, ty.len() as int);
    link_laws::lemma_section_lines_join(tw, ty, ty.len() as int);
    link_laws::lemma_section_lines_join(tg, tw + ty, (tw + ty).len() as int);
    link_laws::lemma_section_lines_are(tn, tn.len() as int);
    let b = assemble::section_lines(tn, tn.len() as int);
    let at = assemble::section_lines(t, t.len() as int);
    assert(assemble::section_lines(tw, nw) =~= b);
    assert(at =~= link_laws::counted(b, ng).push(ng + nw));
    let v = sections_of(x);
    let m = v.len() - 1;
    assert(m == b.len());
    let rows = pieces::rows_of(x);
    assert forall|k: int| 0 <= k < m implies !(#[trigger] v[k]).exact_tags by {
        lemma_section_is(x, k);
        assert(at[k] == b[k] + ng);
        assert(rows[at[k]] == pieces::rows_of(new)[b[k]]);
    }
    assert forall|k: int| 0 < k < m implies (#[trigger] v[k]).role
        == HeadingRole::InternalBody by {
        lemma_section_is(x, k);
        assert(at[k] == b[k] + ng);
        assert(t[at[k]] == tn[b[k]]);
    }
    lemma_section_is(x, m);
    assert(at[m] == ng + nw);
    assert(t[ng + nw] == ty[0]);
    assert(rows[ng + nw] == pieces::rows_of(y)[0]);
    assert(v.last().exact_tags);
    let cursor = assemble::line_start(x, l, ng);
    lemma_body_before_tags(v, cursor, x.len() as int);
    assert(v[m].span == (Span {
        start: g.len() as int + new.len() + sep.len(),
        end: x.len() as int,
    }));
    if m > 0 {
        assert(at[m - 1] == b[m - 1] + ng);
        assert(b[m - 1] < tn.len());
        assert(v[m - 1].span.end == assemble::section_end(l, at[m - 1], at[m]));
    }
    let u = assemble::next_content(tg, 0);
    assemble::lemma_next_content(tg, 0);
    if u < ng {
        assert(l[u] == tokenizer::lines_from(g, 0)[u]);
    }
}
/// A body behind a tag section, which is the only section before it.
#[verifier::rlimit(60)]
#[verifier::spinoff_prover]
pub proof fn lemma_tail_behind_tags(g: Seq<u8>, new: Seq<u8>)
    requires
        pieces::follows(g, 0, new),
        sections_of(g).len() == 1,
        sections_of(g)[0].exact_tags,
        new.len() > 0,
        opens_section(tag_sections::tokens_behind(tag_sections::scan_behind(g), new)[0]),
        one_piece(tag_sections::scan_behind(g), new),
    ensures
        ({
            let x = g + new;
            let tail = link_laws::link_tail(x);
            let tg = link_laws::tail_tokens(g);
            let k = assemble::section_lines(tg, tg.len() as int)[0];
            let rows = pieces::rows_of(g);
            let lg = tokenizer::lines_from(g, 0);
            let ng = lg.len() as int;
            &&& tail.tags == Some(
                Span {
                    start: lg[k].start,
                    end: if ng - 1 > k && rows[ng - 1].len() == 0 {
                        lg[ng - 1].start
                    } else {
                        g.len() as int
                    },
                },
            )
            &&& tail.url == link_laws::link_tail(g).url
            &&& tail.bodies == seq![Span { start: g.len() as int, end: x.len() as int }]
            &&& 0 <= k < ng
        }),
{
    reveal(link_laws::link_tail);
    let x = g + new;
    let scan = tag_sections::scan_behind(g);
    let tg = link_laws::tail_tokens(g);
    let tn = tag_sections::tokens_behind(scan, new);
    let t = link_laws::tail_tokens(x);
    let l = tokenizer::lines_from(x, 0);
    let lg = tokenizer::lines_from(g, 0);
    let ln = tokenizer::lines_from(new, 0);
    pieces::lemma_joined(g, 0, new);
    pieces::lemma_tokens_join(pieces::at_start(), pieces::rows_of(g), pieces::rows_of(new));
    assert(t == tg + tn);
    task_laws::lemma_first_row(new);
    let ng = tg.len() as int;
    link_laws::lemma_section_lines_join(tg, tn, tn.len() as int);
    link_laws::lemma_section_lines_are(tn, tn.len() as int);
    link_laws::lemma_section_lines_are(tg, ng);
    tag_sections::lemma_first_section(tn, tn.len() as int, 0);
    let a = assemble::section_lines(tg, ng);
    let b = assemble::section_lines(tn, tn.len() as int);
    let at = assemble::section_lines(t, t.len() as int);
    lemma_section_is(g, 0);
    let k = a[0];
    assert(at =~= a + link_laws::counted(b, ng));
    let v = sections_of(x);
    let rows = pieces::rows_of(x);
    lemma_section_is(x, 0);
    assert(at[0] == k);
    assert(t[k] == tg[k]);
    assert(rows[k] == pieces::rows_of(g)[k]);
    assert(v[0].exact_tags);
    assert forall|j: int| 0 < j < v.len() implies !(#[trigger] v[j]).exact_tags by {
        lemma_section_is(x, j);
        assert(at[j] == b[j - 1] + ng);
        assert(rows[at[j]] == pieces::rows_of(new)[b[j - 1]]);
    }
    assert forall|j: int| 1 < j < v.len() implies (#[trigger] v[j]).role
        == HeadingRole::InternalBody by {
        lemma_section_is(x, j);
        assert(at[j] == b[j - 1] + ng);
        assert(t[at[j]] == tn[b[j - 1]]);
    }
    let cursor = assemble::line_start(x, l, link_laws::tail_line(t));
    lemma_body_behind_tags(v, cursor, x.len() as int);
    lemma_last_section(x);
    tokenizer::lemma_lines_from(new, 0);
    tokenizer::lemma_lines_from(g, 0);
    assert(l[ng] == retitled::moved(ln[0], g.len() as int));
    assert(at[1] == ng);
    lemma_section_is(x, 1);
    assert(l[k] == lg[k]);
    assert(l[ng - 1] == lg[ng - 1]);
    assert(tokenizer::line_ok(g, lg[ng - 1]));
    assert(pieces::rows_of(g)[ng - 1].len() == lg[ng - 1].content_end - lg[ng - 1].start);
    assert(v[0].span.end == assemble::section_end(l, k, ng));
    // The URL line.
    let full = assemble::has_content();
    let u = assemble::next_content(tg, 0);
    assemble::lemma_next_content(tg, 0);
    assert(u <= k) by {
        if u > k {
            assert(tg[k] is Blank);
        }
    }
    assert forall|j: int| 0 <= j < u implies !full(#[trigger] t[j]) by {
        assert(t[j] == tg[j]);
    }
    assert(t[u] == tg[u] && full(t[u]));
    bytes::lemma_find_from_is(t, full, 0, u);
    assert(l[u] == lg[u]);
}

/// The fragments of a walk: where they start, and that a section behind the tags adds one.
proof fn lemma_fragments(v: Seq<SectionView>, cursor: int, tags: int, n: int)
    requires
        0 <= n <= v.len(),
        tags < v.len(),
    ensures
        ({
            let w = assemble::walk(link_laws::walk_from(cursor), v, tags, n);
            let f = fragments::fragments(w);
            &&& n == 0 ==> f.len() == 0 && w.open is None
            &&& tags != 0 && n > 0 ==> f.len() > 0 && f[0].start == cursor
            &&& tags == 0 && n > 0 ==> (f.len() > 0 <==> n > 1)
            &&& tags == 0 && n > 1 ==> f[0].start == v[1].span.start
            &&& n > 0 && n - 1 != tags ==> w.open is Some
            &&& n > 0 && n - 1 == tags ==> w.open is None
            &&& 0 < tags && tags + 1 < n ==> f.len() > 1
        }),
    decreases n,
{
    let start = link_laws::walk_from(cursor);
    if n == 0 {
        assert(fragments::fragments(start) =~= Seq::<Span>::empty());
    } else {
        lemma_fragments(v, cursor, tags, n - 1);
        let w = assemble::walk(start, v, tags, n - 1);
        let u = assemble::walk(start, v, tags, n);
        let f = fragments::fragments(w);
        let h = fragments::fragments(u);
        if n - 1 == tags {
            assert(h =~= f);
        } else if v[n - 1].role == HeadingRole::InternalBody && w.open is Some {
            assert(h.len() == f.len());
            assert(f[f.len() - 1] == w.open->0);
            assert(h[h.len() - 1] == u.open->0);
            if f.len() > 1 {
                assert(h[0] == f[0]);
            }
        } else {
            assert(h =~= f.push(u.open->0));
        }
    }
}

/// What stands before the body of a text leads to it.
proof fn lemma_lead_of(x: Seq<u8>)
    ensures
        ({
            let l = tokenizer::lines_from(x, 0);
            let t = link_laws::tail_tokens(x);
            let b = link_laws::tail_line(t);
            let g = x.take(assemble::line_start(x, l, b));
            &&& 0 <= b <= t.len()
            &&& t.len() == l.len()
            &&& link_laws::tail_tokens(g) == t.take(b)
            &&& leads(link_laws::tail_tokens(g))
            &&& link_laws::link_tail(g).url == link_laws::link_tail(x).url
            &&& (assemble::next_content(t, 0) < b <==> link_laws::link_tail(x).url is Some)
            &&& assemble::next_content(t, 0) <= b
            &&& assemble::next_content(t.take(b), 0) == assemble::next_content(t, 0)
        }),
{
    reveal(link_laws::link_tail);
    let l = tokenizer::lines_from(x, 0);
    let t = link_laws::tail_tokens(x);
    let b = link_laws::tail_line(t);
    let u = assemble::next_content(t, 0);
    assemble::lemma_next_content(t, 0);
    if u < t.len() {
        assemble::lemma_next_content(t, u + 1);
    }
    task_laws::lemma_split_tail(x, b);
    let g = x.take(assemble::line_start(x, l, b));
    let rows = pieces::rows_of(x);
    assert(rows =~= rows.take(b) + rows.skip(b));
    pieces::lemma_tokens_join(pieces::at_start(), rows.take(b), rows.skip(b));
    let tg = link_laws::tail_tokens(g);
    assert(tg =~= t.take(b));
    let full = assemble::has_content();
    assert forall|k: int| 0 <= k < u implies !full(#[trigger] tg[k]) by {
        assert(tg[k] == t[k]);
    }
    if u < b {
        assert(tg[u] == t[u] && full(tg[u]));
    }
    bytes::lemma_find_from_is(tg, full, 0, u);
    if u < b {
        assert forall|k: int| u + 1 <= k < b implies !full(#[trigger] tg[k]) by {
            assert(tg[k] == t[k]);
        }
        bytes::lemma_find_from_is(tg, full, u + 1, b);
        assert(l.take(b)[u] == l[u]);
    }
}

/// Scans that agree on the open fence find the same sections.
proof fn lemma_same_fence(p: BookmarkScan, q: BookmarkScan, r: Seq<Seq<u8>>, n: int)
    requires
        p.fence == q.fence,
        0 <= n <= r.len(),
    ensures
        pieces::scan_over(p, r, n).fence == pieces::scan_over(q, r, n).fence,
    decreases n,
{
    if n > 0 {
        lemma_same_fence(p, q, r, n - 1);
    }
}

/// A tag section is one wherever no fence is open.
proof fn lemma_section_anywhere(p: BookmarkScan, q: BookmarkScan, y: Seq<u8>)
    requires
        p.fence == q.fence,
        tag_sections::is_tag_section(p, y),
    ensures
        tag_sections::is_tag_section(q, y),
{
    let r = pieces::rows_of(y);
    let tp = tag_sections::tokens_behind(p, y);
    let tq = tag_sections::tokens_behind(q, y);
    assert forall|k: int| 0 <= k < r.len() implies (opens_section(#[trigger] tp[k])
        <==> opens_section(tq[k])) && (opens_section(tp[k]) ==> tp[k]->text == tq[k]->text) by {
        lemma_same_fence(p, q, r, k);
        assert(tp[k] == classify::bookmark_token(pieces::scan_over(p, r, k), r[k]));
        assert(tq[k] == classify::bookmark_token(pieces::scan_over(q, r, k), r[k]));
    }
    assert(opens_section(tp[0]));
    assert forall|k: int| 0 < k < tq.len() implies !opens_section(#[trigger] tq[k]) by {
        assert(!opens_section(tp[k]));
    }
}

/// The bytes of an empty line.
proof fn lemma_empty_line(x: Seq<u8>, k: int)
    requires
        0 <= k < tokenizer::lines_from(x, 0).len(),
        pieces::rows_of(x)[k].len() == 0,
    ensures
        ({
            let line = tokenizer::lines_from(x, 0)[k];
            task_laws::one_break(x.subrange(line.start, line.end))
        }),
{
    let l = tokenizer::lines_from(x, 0);
    let line = l[k];
    tokenizer::lemma_lines_from(x, 0);
    assert(tokenizer::line_ok(x, line));
    tokenizer::lemma_line_is(x, 0, k);
    assert(pieces::rows_of(x)[k].len() == line.content_end - line.start);
    let sep = x.subrange(line.start, line.end);
    bytes::lemma_find_from(x, tokenizer::breaks(), line.start);
    if sep.len() == 2 {
        assert(sep =~= seq![CR, LF]);
    } else if x[line.start] == LF {
        assert(sep =~= seq![LF]);
    } else {
        assert(sep =~= seq![CR]);
    }
}
/// Where the body in what follows a title starts, or would start.
pub open spec fn body_at(x: Seq<u8>) -> int {
    if link_laws::link_tail(x).bodies.len() > 0 {
        link_laws::link_tail(x).bodies[0].start
    } else {
        x.len() as int
    }
}

/// Where the body in what follows a title ends.
pub open spec fn body_end(x: Seq<u8>) -> int {
    if link_laws::link_tail(x).bodies.len() > 0 {
        link_laws::link_tail(x).bodies[0].end
    } else {
        x.len() as int
    }
}

/// Where the body would start if nothing but blank lines and a URL line stood before it.
pub open spec fn lead_end(x: Seq<u8>) -> int {
    assemble::line_start(
        x,
        tokenizer::lines_from(x, 0),
        link_laws::tail_line(link_laws::tail_tokens(x)),
    )
}

/// The section that holds the tags.
pub open spec fn tag_index(x: Seq<u8>) -> int {
    assemble::canonical_tags(sections_of(x))
}

/// Where the one body of a bookmark stands: alone, behind its tag section, or before it.
#[verifier::rlimit(40)]
#[verifier::spinoff_prover]
proof fn lemma_body_place(x: Seq<u8>)
    requires
        link_laws::link_tail(x).bodies.len() <= 1,
    ensures
        ({
            let v = sections_of(x);
            let i = tag_index(x);
            let len = x.len() as int;
            let tail = link_laws::link_tail(x);
            &&& -1 <= i < v.len()
            &&& 0 <= lead_end(x) <= len
            &&& i < 0 ==> tail.tags is None && body_at(x) == lead_end(x) && body_end(x) == len
            &&& i >= 0 ==> tail.tags == Some(v[i].span) && v[i].exact_tags
            &&& i == 0 ==> body_end(x) == len && (v.len() > 1 ==> tail.bodies.len() == 1
                && body_at(x) == v[1].span.start) && (v.len() == 1 ==> tail.bodies.len() == 0)
            &&& i > 0 ==> i == v.len() - 1 && tail.bodies.len() == 1 && body_at(x) == lead_end(x)
                && body_end(x) == v[i - 1].span.end
            &&& 0 <= body_at(x) <= body_end(x) <= len
            &&& i == 0 ==> v[i].span.start < body_at(x)
            &&& i > 0 ==> body_end(x) <= v[i].span.start
        }),
{
    reveal(link_laws::link_tail);
    let v = sections_of(x);
    let i = tag_index(x);
    let n = v.len() as int;
    let len = x.len() as int;
    let c = lead_end(x);
    link_laws::lemma_same_tags(v, v);
    link_laws::lemma_tail_sections(x);
    link_laws::lemma_link_within(x);
    let start = link_laws::walk_from(c);
    let w = assemble::walk(start, v, i, n);
    let f = fragments::fragments(w);
    fragments::lemma_walk_in_order(start, v, i, len, n);
    lemma_fragments(v, c, i, n);
    if n > 0 {
        assert(link_laws::link_tail(x).bodies == f);
        assert(v.last().span.end == len);
        if f.len() == 1 && w.open is Some {
            assert(w.bodies.len() == 0);
            assert(f[0] == w.open->0);
        }
        if i == 0 {
            link_laws::lemma_in_order(v, c, len, 0);
            if n > 1 {
                assert(assemble::precedes(v, 0));
            }
        }
        if i > 0 {
            assert(i == n - 1);
            assert(assemble::precedes(v, i - 1));
            lemma_fragments(v, c, i, n - 1);
            fragments::lemma_walk_in_order(start, v, i, len, n - 1);
            let u = assemble::walk(start, v, i, n - 1);
            assert(f =~= fragments::fragments(u));
            assert(u.bodies.len() == 0);
            assert(f[0] == u.open->0);
        }
    } else {
        assert(link_laws::link_tail(x).bodies == assemble::gap(c, len));
    }
    if link_laws::link_tail(x).bodies.len() > 0 {
        assert(bytes::span_within(link_laws::link_tail(x).bodies[0], len));
    }
}

/// Blank lines and a URL line leave no fence open and are no content.
proof fn lemma_lead_scan(r: Seq<Seq<u8>>, n: int)
    requires
        leads(pieces::link_tokens(pieces::at_start(), r)),
        0 <= n <= r.len(),
    ensures
        pieces::scan_over(pieces::at_start(), r, n) == pieces::at_start(),
    decreases n,
{
    if n > 0 {
        lemma_lead_scan(r, n - 1);
        let t = pieces::link_tokens(pieces::at_start(), r);
        lemma_lead_tokens(t, n - 1);
        assert(t[n - 1] == classify::bookmark_token(pieces::at_start(), r[n - 1]));
        if t[n - 1] is Blank {
            classify::lemma_blank_opens_no_fence(r[n - 1]);
        }
    }
}

/// What leads to a body is blank lines and a URL line.
proof fn lemma_lead_tokens(t: Seq<Token>, k: int)
    requires
        leads(t),
        0 <= k < t.len(),
    ensures
        t[k] is Blank || t[k] is Url,
{
    let u = assemble::next_content(t, 0);
    assemble::lemma_next_content(t, 0);
    if u < t.len() {
        assemble::lemma_next_content(t, u + 1);
    }
}

/// An empty line more still leads to a body.
proof fn lemma_lead_and_break(g: Seq<u8>, sep: Seq<u8>)
    requires
        pieces::follows(g, 0, sep),
        task_laws::one_break(sep),
        leads(link_laws::tail_tokens(g)),
    ensures
        leads(link_laws::tail_tokens(g + sep)),
        link_laws::link_tail(g + sep).url == link_laws::link_tail(g).url,
        tag_sections::scan_behind(g + sep) == pieces::at_start(),
        tag_sections::scan_behind(g) == pieces::at_start(),
{
    reveal(link_laws::link_tail);
    let start = pieces::at_start();
    let z = g + sep;
    let tg = link_laws::tail_tokens(g);
    lemma_lead_scan(pieces::rows_of(g), pieces::rows_of(g).len() as int);
    lemma_break_tokens(start, sep);
    pieces::lemma_joined(g, 0, sep);
    pieces::lemma_tokens_join(start, pieces::rows_of(g), pieces::rows_of(sep));
    let ts = tag_sections::tokens_behind(start, sep);
    let t = link_laws::tail_tokens(z);
    assert(t == tg + ts);
    let full = assemble::has_content();
    let u = assemble::next_content(tg, 0);
    assemble::lemma_next_content(tg, 0);
    assert forall|k: int| 0 <= k < ts.len() implies (#[trigger] ts[k]) is Blank by {}
    let n = t.len() as int;
    if u < tg.len() {
        assemble::lemma_next_content(tg, u + 1);
        assert forall|k: int| 0 <= k < u implies !full(#[trigger] t[k]) by {
            assert(t[k] == tg[k]);
        }
        assert(t[u] == tg[u] && full(t[u]));
        bytes::lemma_find_from_is(t, full, 0, u);
        assert forall|k: int| u + 1 <= k < n implies !full(#[trigger] t[k]) by {
            if k < tg.len() {
                assert(t[k] == tg[k]);
            } else {
                assert(t[k] == ts[k - tg.len()]);
            }
        }
        bytes::lemma_find_from_is(t, full, u + 1, n);
        assert(tokenizer::lines_from(z, 0)[u] == tokenizer::lines_from(g, 0)[u]);
    } else {
        assert forall|k: int| 0 <= k < n implies !full(#[trigger] t[k]) by {
            if k < tg.len() {
                assert(t[k] == tg[k]);
            } else {
                assert(t[k] == ts[k - tg.len()]);
            }
        }
        bytes::lemma_find_from_is(t, full, 0, n);
    }
}

/// A text from a heading of exact tags on, where no other section follows, is a tag section
/// wherever no fence is open.
#[verifier::rlimit(40)]
#[verifier::spinoff_prover]
proof fn lemma_section_from(x: Seq<u8>, q: int, scan: BookmarkScan)
    requires
        ({
            let t = link_laws::tail_tokens(x);
            &&& 0 <= q < t.len()
            &&& opens_section(t[q])
            &&& t[q]->text == "Tags"@
            &&& pieces::rows_of(x)[q] == helpers::reserved_heading("Tags"@)
            &&& forall|k: int| q < k < t.len() ==> !opens_section(#[trigger] t[k])
        }),
        scan.fence is None,
    ensures
        ({
            let y = x.skip(tokenizer::lines_from(x, 0)[q].start);
            &&& tag_sections::is_tag_section(scan, y)
            &&& y.len() > 0
            &&& y[0] != LF
        }),
{
    let l = tokenizer::lines_from(x, 0);
    let t = link_laws::tail_tokens(x);
    let rows = pieces::rows_of(x);
    tokenizer::lemma_lines_from(x, 0);
    assert(tokenizer::line_ok(x, l[q]));
    task_laws::lemma_split_tail(x, q);
    let y = x.skip(l[q].start);
    let ry = pieces::rows_of(y);
    assert(ry[0] == rows[q]);
    let before = pieces::scan_over(pieces::at_start(), rows, q);
    assert(t[q] == classify::bookmark_token(before, rows[q]));
    assert(rows =~= rows.take(q) + rows.skip(q));
    pieces::lemma_tokens_join(pieces::at_start(), rows.take(q), rows.skip(q));
    pieces::lemma_scan_join(pieces::at_start(), rows.take(q), rows.skip(q), q);
    let ty = tag_sections::tokens_behind(before, y);
    assert(ty =~= t.skip(q));
    assert forall|m: int| 0 < m < ty.len() implies !opens_section(#[trigger] ty[m]) by {
        assert(ty[m] == t[q + m]);
    }
    assert(ty[0] == t[q]);
    lemma_section_anywhere(before, scan, y);
    lemma_heading_starts(y);
}

/// A text whose first line is the heading of a tag section does not start with a line feed.
proof fn lemma_heading_starts(y: Seq<u8>)
    requires
        pieces::rows_of(y).len() > 0,
        pieces::rows_of(y)[0] == helpers::reserved_heading("Tags"@),
    ensures
        y.len() > 0,
        y[0] != LF,
{
    let ly = tokenizer::lines_from(y, 0);
    tokenizer::lemma_lines_from(y, 0);
    assert(tokenizer::line_ok(y, ly[0]));
    let head = helpers::reserved_heading("Tags"@);
    assert(head[0] == crate::bytes::HASH);
    assert(pieces::rows_of(y)[0] == ly[0].content(y));
    assert(ly[0].start == 0);
    assert(head.len() > 0);
    assert(ly[0].content(y)[0] == y[0]);
}

/// Between two sections in a row there is an empty line, or nothing.
#[verifier::rlimit(40)]
#[verifier::spinoff_prover]
proof fn lemma_between_sections(x: Seq<u8>, i: int)
    requires
        0 < i < sections_of(x).len(),
    ensures
        ({
            let v = sections_of(x);
            let from = v[i - 1].span.end;
            let to = v[i].span.start;
            &&& 0 <= from <= to <= x.len()
            &&& task_laws::one_break(x.subrange(from, to))
        }),
{
    let l = tokenizer::lines_from(x, 0);
    let (k, j) = tag_sections::lemma_section_place(x, i - 1);
    lemma_section_is(x, i);
    let t = link_laws::tail_tokens(x);
    let q = assemble::section_lines(t, t.len() as int)[i];
    tokenizer::lemma_lines_from(x, 0);
    assert(q == j || q == j + 1);
    assert(tokenizer::line_ok(x, l[q]));
    if q == j {
        assert(x.subrange(l[q].start, l[q].start) =~= Seq::<u8>::empty());
    } else {
        assert(tokenizer::adjoin(l, j));
        assert(tokenizer::line_ok(x, l[j]));
        lemma_empty_line(x, j);
    }
}

/// What follows the body of a bookmark whose tags are in its last section: an empty line, or
/// nothing, and that section.
proof fn lemma_rest_of(x: Seq<u8>, scan: BookmarkScan) -> (parts: (Seq<u8>, Seq<u8>))
    requires
        link_laws::link_tail(x).bodies.len() <= 1,
        tag_index(x) > 0,
        scan.fence is None,
    ensures
        task_laws::one_break(parts.0),
        parts.1.len() > 0,
        parts.1[0] != LF,
        x.skip(body_end(x)) == parts.0 + parts.1,
        link_laws::link_tail(x).tags->0.start == body_end(x) + parts.0.len(),
        parts.1 == bytes::slice_of(x, link_laws::link_tail(x).tags->0),
        tag_sections::is_tag_section(scan, parts.1),
{
    let v = sections_of(x);
    let i = tag_index(x);
    lemma_body_place(x);
    lemma_between_sections(x, i);
    lemma_last_place(x, i, scan);
    let end = body_end(x);
    let tag = v[i].span.start;
    let sep = x.subrange(end, tag);
    let y = x.skip(tag);
    assert(x.skip(end) =~= sep + y);
    lemma_last_section(x);
    assert(y =~= bytes::slice_of(x, v[i].span));
    (sep, y)
}

/// The last section, where it is one of exact tags, is a tag section.
proof fn lemma_last_place(x: Seq<u8>, i: int, scan: BookmarkScan)
    requires
        i == sections_of(x).len() - 1,
        i >= 0,
        sections_of(x)[i].exact_tags,
        scan.fence is None,
    ensures
        ({
            let y = x.skip(sections_of(x)[i].span.start);
            &&& tag_sections::is_tag_section(scan, y)
            &&& y.len() > 0
            &&& y[0] != LF
        }),
{
    let t = link_laws::tail_tokens(x);
    lemma_section_is(x, i);
    link_laws::lemma_section_lines_are(t, t.len() as int);
    tag_sections::lemma_between(t, t.len() as int, i);
    let q = assemble::section_lines(t, t.len() as int)[i];
    lemma_section_from(x, q, scan);
}

/// New text can stand as the body in what follows the title of a bookmark, or where the title
/// would be. Behind the tag section it starts with a heading; elsewhere it does not look like a
/// part that the bookmark lacks. It stays in one piece, and before a tag section it brings a
/// heading, leaves no code fence open and ends with a whole line. Where a body behind the tag
/// section comes or goes, the section must not end with an empty line, which would change hands;
/// and something other than blank lines must be left.
pub open spec fn tail_separable(x: Seq<u8>, titled: bool, new: Seq<u8>) -> bool {
    let tail = link_laws::link_tail(x);
    let lead = x.take(body_at(x));
    let rest = x.skip(body_end(x));
    let scan = tag_sections::scan_behind(lead);
    let t = tag_sections::tokens_behind(scan, new);
    let behind = tail.tags matches Some(r) && r.start < body_at(x);
    &&& pieces::follows(lead, 0, new + rest)
    &&& new.len() > 0 ==> one_piece(scan, new)
    &&& if behind {
        &&& new.len() > 0 ==> opens_section(t[0])
        &&& (tail.bodies.len() == 0) != (new.len() == 0) ==> pieces::rows_of(lead).last().len() > 0
    } else {
        &&& new.len() > 0 ==> t[0] !is Blank && (tail.url is None ==> t[0] !is Url && (titled
            || !assemble::is_title(t[0])))
        &&& new.len() == 0 ==> titled || tail.url is Some || tail.tags is Some
        &&& new.len() > 0 ==> (tail.tags matches Some(r) ==> {
            &&& assemble::section_lines(t, t.len() as int).len() > 0
            &&& tag_sections::scan_after(scan, new).fence is None
            &&& readback::whole_lines(new, 0, rest)
            &&& r.start == body_end(x) ==> pieces::rows_of(new).last().len() > 0
        })
    }
}

/// What a text with a new body reads as.
pub open spec fn rebodied(x: Seq<u8>, titled: bool, new: Seq<u8>) -> bool {
    let z = x.take(body_at(x)) + (new + x.skip(body_end(x)));
    let tail = link_laws::link_tail(x);
    let after = link_laws::link_tail(z);
    let t = link_laws::tail_tokens(z);
    let q = assemble::next_content(t, 0);
    &&& document::opt_slice(z, after.url) == document::opt_slice(x, tail.url)
    &&& document::opt_slice(z, after.tags) == document::opt_slice(x, tail.tags)
    &&& document::concat_ranges(z, after.bodies) == new
    &&& !titled ==> q < t.len() && !assemble::is_title(t[q])
}

/// The bytes of one range.
proof fn lemma_one_range(z: Seq<u8>, g: Seq<u8>, new: Seq<u8>, rest: Seq<u8>, v: Seq<Span>)
    requires
        z == g + (new + rest),
        v == (if new.len() > 0 {
            seq![Span { start: g.len() as int, end: g.len() as int + new.len() }]
        } else {
            Seq::empty()
        }),
    ensures
        document::concat_ranges(z, v) == new,
{
    let none = Seq::<u8>::empty();
    if new.len() > 0 {
        let r = Span { start: g.len() as int, end: g.len() as int + new.len() };
        assert(seq![r].drop_last() =~= Seq::<Span>::empty());
        assert(document::concat_ranges(z, seq![r].drop_last()) =~= none);
        assert(bytes::slice_of(z, r) =~= new);
        assert(document::concat_ranges(z, seq![r]) =~= new);
    } else {
        assert(document::concat_ranges(z, Seq::empty()) =~= none);
        assert(new =~= none);
    }
}

/// The first content of a text that goes on after what leads to its body.
proof fn lemma_first_content(g: Seq<u8>, w: Seq<u8>)
    requires
        pieces::follows(g, 0, w),
        leads(link_laws::tail_tokens(g)),
        ({
            let tg = link_laws::tail_tokens(g);
            let tw = tag_sections::tokens_behind(tag_sections::scan_behind(g), w);
            assemble::next_content(tg, 0) == tg.len() ==> tw.len() > 0 && tw[0] !is Blank
                && !assemble::is_title(tw[0])
        }),
    ensures
        ({
            let t = link_laws::tail_tokens(g + w);
            let q = assemble::next_content(t, 0);
            q < t.len() && !assemble::is_title(t[q])
        }),
{
    let tg = link_laws::tail_tokens(g);
    let tw = tag_sections::tokens_behind(tag_sections::scan_behind(g), w);
    pieces::lemma_joined(g, 0, w);
    pieces::lemma_tokens_join(pieces::at_start(), pieces::rows_of(g), pieces::rows_of(w));
    let t = link_laws::tail_tokens(g + w);
    assert(t == tg + tw);
    let full = assemble::has_content();
    let u = assemble::next_content(tg, 0);
    assemble::lemma_next_content(tg, 0);
    assert forall|k: int| 0 <= k < u implies !full(#[trigger] t[k]) by {
        assert(t[k] == tg[k]);
    }
    if u < tg.len() {
        assert(t[u] == tg[u]);
        lemma_lead_tokens(tg, u);
    } else {
        assert(t[u] == tw[0]);
    }
    assert(full(t[u]));
    bytes::lemma_find_from_is(t, full, 0, u);
}
/// A new body where the bookmark has no tag section.
#[verifier::rlimit(40)]
#[verifier::spinoff_prover]
proof fn lemma_rebodied_alone(x: Seq<u8>, titled: bool, new: Seq<u8>)
    requires
        link_laws::link_tail(x).bodies.len() <= 1,
        tag_index(x) < 0,
        tail_separable(x, titled, new),
    ensures
        rebodied(x, titled, new),
{
    lemma_body_place(x);
    lemma_lead_of(x);
    link_laws::lemma_link_within(x);
    let g = x.take(body_at(x));
    let rest = x.skip(body_end(x));
    let none = Seq::<u8>::empty();
    assert(rest =~= none);
    assert(new + rest =~= new);
    let z = g + (new + rest);
    let tg = link_laws::tail_tokens(g);
    let scan = tag_sections::scan_behind(g);
    let tn = tag_sections::tokens_behind(scan, new);
    if new.len() == 0 {
        assert(tokenizer::lines_from(new, 0) =~= Seq::<LineSpan>::empty());
        assert(assemble::section_lines(tn, tn.len() as int) =~= Seq::<int>::empty());
    } else {
        task_laws::lemma_first_row(new);
    }
    lemma_tail_alone(g, new);
    lemma_one_range(z, g, new, rest, link_laws::link_tail(z).bodies);
    lemma_url_stays(x, z);
    if !titled {
        lemma_first_content(g, new);
    }
}

/// A URL line before a body is read in the same place.
proof fn lemma_url_stays(x: Seq<u8>, z: Seq<u8>)
    requires
        link_laws::link_tail(z).url == link_laws::link_tail(x).url,
        lead_end(x) <= z.len(),
        0 <= lead_end(x) <= x.len(),
        forall|k: int| 0 <= k < lead_end(x) ==> z[k] == #[trigger] x[k],
    ensures
        document::opt_slice(z, link_laws::link_tail(z).url) == document::opt_slice(
            x,
            link_laws::link_tail(x).url,
        ),
{
    reveal(link_laws::link_tail);
    link_laws::lemma_link_within(x);
    if let Some(r) = link_laws::link_tail(x).url {
        let l = tokenizer::lines_from(x, 0);
        let t = link_laws::tail_tokens(x);
        let u = assemble::next_content(t, 0);
        assemble::lemma_next_content(t, 0);
        assemble::lemma_next_content(t, u + 1);
        let b = link_laws::tail_line(t);
        tokenizer::lemma_lines_from(x, 0);
        assert(r.end <= lead_end(x)) by {
            if b < l.len() {
                tokenizer::lemma_tile_order(x, l, 0, x.len() as int, u, b);
            }
        }
        assert(bytes::slice_of(z, r) =~= bytes::slice_of(x, r));
    }
}

/// A new body before a tag section.
#[verifier::rlimit(60)]
#[verifier::spinoff_prover]
proof fn lemma_rebodied_before(x: Seq<u8>, titled: bool, new: Seq<u8>)
    requires
        link_laws::link_tail(x).bodies.len() <= 1,
        tag_index(x) > 0,
        tail_separable(x, titled, new),
    ensures
        rebodied(x, titled, new),
{
    lemma_body_place(x);
    lemma_lead_of(x);
    let g = x.take(body_at(x));
    let rest = x.skip(body_end(x));
    let z = g + (new + rest);
    let scan = tag_sections::scan_behind(g);
    let tg = link_laws::tail_tokens(g);
    let none = Seq::<u8>::empty();
    lemma_lead_scan(pieces::rows_of(g), pieces::rows_of(g).len() as int);
    let after = tag_sections::scan_after(scan, new);
    if new.len() > 0 {
        let (sep, y) = lemma_rest_of(x, after);
        task_laws::lemma_first_row(new);
        lemma_tail_before_tags(g, new, sep, y);
        lemma_one_range(z, g, new, rest, link_laws::link_tail(z).bodies);
        assert(bytes::slice_of(z, link_laws::link_tail(z).tags->0) =~= y);
        if !titled {
            pieces::lemma_joined(new, 0, rest);
            pieces::lemma_tokens_join(scan, pieces::rows_of(new), pieces::rows_of(rest));
            lemma_first_content(g, new + rest);
        }
    } else {
        let (sep, y) = lemma_rest_of(x, pieces::at_start());
        assert(new =~= none);
        assert(new + rest =~= sep + y);
        assert(pieces::follows(g, 0, sep)) by {
            if sep.len() > 0 {
                assert((sep + y)[0] == sep[0]);
            }
        }
        lemma_lead_and_break(g, sep);
        let lead = g + sep;
        assert(pieces::follows(lead, 0, none + (none + y))) by {
            assert(none + (none + y) =~= y);
            if sep.len() > 0 {
                assert(lead.last() == sep.last());
            } else {
                assert(lead =~= g);
                assert(sep + y =~= y);
            }
        }
        assert(tokenizer::lines_from(none, 0) =~= Seq::<LineSpan>::empty());
        assert(tag_sections::scan_after(tag_sections::scan_behind(lead), none)
            == pieces::at_start());
        lemma_tail_before_tags(lead, none, none, y);
        assert(lead + (none + (none + y)) =~= z);
        lemma_one_range(z, lead, none, y, link_laws::link_tail(z).bodies);
        assert(bytes::slice_of(z, link_laws::link_tail(z).tags->0) =~= y);
        if !titled {
            assert(lead + y =~= z);
            assert(none + (none + y) =~= y);
            assert(opens_section(
                tag_sections::tokens_behind(tag_sections::scan_behind(lead), y)[0],
            ));
            lemma_first_content(lead, y);
        }
    }
    lemma_url_stays(x, z);
}

/// What stands before a body behind the tags has one section, which holds them.
#[verifier::rlimit(40)]
#[verifier::spinoff_prover]
proof fn lemma_tags_before(x: Seq<u8>)
    requires
        link_laws::link_tail(x).bodies.len() <= 1,
        tag_index(x) == 0,
    ensures
        ({
            let g = x.take(body_at(x));
            let t = link_laws::tail_tokens(x);
            let tg = link_laws::tail_tokens(g);
            let k = assemble::section_lines(t, t.len() as int)[0];
            let lg = tokenizer::lines_from(g, 0);
            let ng = lg.len() as int;
            let rows = pieces::rows_of(g);
            &&& sections_of(g).len() == 1
            &&& sections_of(g)[0].exact_tags
            &&& assemble::section_lines(tg, tg.len() as int)[0] == k
            &&& 0 <= k < ng
            &&& ng == tg.len()
            &&& ng <= t.len()
            &&& tg[k] !is Blank
            &&& rows.len() == ng
            &&& tg == t.take(ng)
            &&& lg == tokenizer::lines_from(x, 0).take(ng)
            &&& link_laws::link_tail(x).tags == Some(
                Span {
                    start: lg[k].start,
                    end: if link_laws::link_tail(x).bodies.len() > 0 && ng - 1 > k
                        && rows[ng - 1].len() == 0 {
                        lg[ng - 1].start
                    } else {
                        g.len() as int
                    },
                },
            )
        }),
{
    reveal(link_laws::link_tail);
    let l = tokenizer::lines_from(x, 0);
    let t = link_laws::tail_tokens(x);
    let v = sections_of(x);
    let rows = pieces::rows_of(x);
    lemma_body_place(x);
    link_laws::lemma_section_lines_are(t, t.len() as int);
    let at = assemble::section_lines(t, t.len() as int);
    lemma_section_is(x, 0);
    let k = at[0];
    let n = if v.len() > 1 {
        at[1]
    } else {
        t.len() as int
    };
    if v.len() > 1 {
        lemma_section_is(x, 1);
        assert(at[0] < at[1]);
    }
    assert(body_at(x) == assemble::line_start(x, l, n));
    task_laws::lemma_split_tail(x, n);
    let g = x.take(body_at(x));
    let tg = link_laws::tail_tokens(g);
    assert(rows =~= rows.take(n) + rows.skip(n));
    pieces::lemma_tokens_join(pieces::at_start(), rows.take(n), rows.skip(n));
    assert(tg =~= t.take(n));
    assert(opens_section(t[k]));
    tag_sections::lemma_between(t, t.len() as int, 0);
    assert forall|j: int| 0 <= j < k implies !opens_section(#[trigger] t[j]) by {
        lemma_before_first(t, t.len() as int, j);
    }
    assert forall|j: int| 0 <= j < n && j != k implies !opens_section(#[trigger] tg[j]) by {
        assert(tg[j] == t[j]);
    }
    assert(tg[k] == t[k]);
    lemma_only_section(tg, n, k);
    lemma_section_is(g, 0);
    assert(pieces::rows_of(g)[k] == rows[k]);
    tokenizer::lemma_lines_from(x, 0);
    let lg = tokenizer::lines_from(g, 0);
    assert(lg[k] == l[k]);
    if v.len() > 1 {
        assert(l[n - 1] == lg[n - 1]);
        assert(tokenizer::line_ok(x, l[n - 1]));
        assert(rows[n - 1].len() == l[n - 1].content_end - l[n - 1].start);
        assert(pieces::rows_of(g)[n - 1] == rows[n - 1]);
        assert(v[0].span.end == assemble::section_end(l, k, n));
    }
}

/// No section heading stands before the first.
proof fn lemma_before_first(t: Seq<Token>, n: int, j: int)
    requires
        0 <= n <= t.len(),
        assemble::section_lines(t, n).len() > 0,
        0 <= j < assemble::section_lines(t, n)[0],
    ensures
        !opens_section(t[j]),
    decreases n,
{
    let before = assemble::section_lines(t, n - 1);
    if before.len() > 0 {
        lemma_before_first(t, n - 1, j);
    } else {
        assert(assemble::section_lines(t, n)[0] == n - 1);
        lemma_none_before(t, n - 1, j);
    }
}

proof fn lemma_none_before(t: Seq<Token>, n: int, j: int)
    requires
        0 <= j < n <= t.len(),
        assemble::section_lines(t, n).len() == 0,
    ensures
        !opens_section(t[j]),
    decreases n,
{
    if j < n - 1 {
        lemma_none_before(t, n - 1, j);
    }
}

/// The section headings of a run of tokens with one.
proof fn lemma_only_section(t: Seq<Token>, n: int, k: int)
    requires
        0 <= k < n <= t.len(),
        opens_section(t[k]),
        forall|j: int| 0 <= j < n && j != k ==> !opens_section(#[trigger] t[j]),
    ensures
        assemble::section_lines(t, n) == seq![k],
    decreases n,
{
    if n - 1 > k {
        assert(!opens_section(t[n - 1]));
        lemma_only_section(t, n - 1, k);
    } else {
        link_laws::lemma_no_sections(t, k);
        assert(assemble::section_lines(t, n) =~= seq![k]);
    }
}

/// A text whose one section holds the tags.
proof fn lemma_only_tags(g: Seq<u8>)
    requires
        sections_of(g).len() == 1,
        sections_of(g)[0].exact_tags,
    ensures
        ({
            let t = link_laws::tail_tokens(g);
            let k = assemble::section_lines(t, t.len() as int)[0];
            &&& link_laws::link_tail(g).tags == Some(
                Span { start: tokenizer::lines_from(g, 0)[k].start, end: g.len() as int },
            )
            &&& link_laws::link_tail(g).bodies == Seq::<Span>::empty()
        }),
{
    reveal(link_laws::link_tail);
    let v = sections_of(g);
    lemma_body_behind_tags(v, lead_end(g), g.len() as int);
    lemma_section_is(g, 0);
    lemma_last_section(g);
}

/// A new body behind a tag section.
#[verifier::rlimit(60)]
#[verifier::spinoff_prover]
proof fn lemma_rebodied_behind(x: Seq<u8>, titled: bool, new: Seq<u8>)
    requires
        link_laws::link_tail(x).bodies.len() <= 1,
        tag_index(x) == 0,
        tail_separable(x, titled, new),
        !titled ==> !assemble::is_title(
            link_laws::tail_tokens(x)[assemble::next_content(link_laws::tail_tokens(x), 0)],
        ),
    ensures
        rebodied(x, titled, new),
{
    lemma_body_place(x);
    lemma_tags_before(x);
    link_laws::lemma_link_within(x);
    let g = x.take(body_at(x));
    let rest = x.skip(body_end(x));
    let none = Seq::<u8>::empty();
    assert(rest =~= none);
    assert(new + rest =~= new);
    let z = g + (new + rest);
    let t = link_laws::tail_tokens(x);
    let k = assemble::section_lines(t, t.len() as int)[0];
    let lg = tokenizer::lines_from(g, 0);
    let l = tokenizer::lines_from(x, 0);
    tokenizer::lemma_lines_from(g, 0);
    assert(tokenizer::line_ok(g, lg[k]));
    if new.len() > 0 {
        task_laws::lemma_first_row(new);
        lemma_tail_behind_tags(g, new);
    } else {
        assert(z =~= g);
        lemma_only_tags(g);
    }
    assert(link_laws::link_tail(z).tags == link_laws::link_tail(x).tags);
    lemma_one_range(z, g, new, rest, link_laws::link_tail(z).bodies);
    let r = link_laws::link_tail(x).tags->0;
    assert(r.end <= g.len());
    assert(bytes::slice_of(z, r) =~= bytes::slice_of(x, r));
    // The URL line.
    let tg = link_laws::tail_tokens(g);
    assert(tg[k] !is Blank);
    lemma_same_start(x, g);
    if new.len() > 0 {
        let scan = tag_sections::scan_behind(g);
        pieces::lemma_joined(g, 0, new);
        pieces::lemma_tokens_join(pieces::at_start(), pieces::rows_of(g), pieces::rows_of(new));
        let tz = link_laws::tail_tokens(z);
        let tn = tag_sections::tokens_behind(scan, new);
        assert(tz == tg + tn);
        assert(tz.take(tg.len() as int) =~= tg);
        assert(tokenizer::lines_from(z, 0).take(lg.len() as int) =~= lg);
        lemma_same_start(z, g);
    }
    if let Some(r) = link_laws::link_tail(x).url {
        let u = assemble::next_content(tg, 0);
        assert(tokenizer::line_ok(g, lg[u]));
        assert(bytes::slice_of(z, r) =~= bytes::slice_of(x, r));
    }
}

/// The first content and the URL line of a text whose first lines have content are those of
/// these lines.
proof fn lemma_same_start(x: Seq<u8>, g: Seq<u8>)
    requires
        ({
            let tg = link_laws::tail_tokens(g);
            let n = tg.len() as int;
            &&& n <= link_laws::tail_tokens(x).len()
            &&& tg == link_laws::tail_tokens(x).take(n)
            &&& tokenizer::lines_from(g, 0) == tokenizer::lines_from(x, 0).take(n)
            &&& exists|k: int| 0 <= k < n && (#[trigger] tg[k]) !is Blank
        }),
    ensures
        ({
            let tg = link_laws::tail_tokens(g);
            let t = link_laws::tail_tokens(x);
            let u = assemble::next_content(tg, 0);
            &&& 0 <= u < tg.len()
            &&& assemble::next_content(t, 0) == u
            &&& t[u] == tg[u]
            &&& link_laws::link_tail(x).url == link_laws::link_tail(g).url
            &&& link_laws::link_tail(g).url matches Some(r) ==> r == tokenizer::lines_from(
                g,
                0,
            )[u].span()
        }),
{
    reveal(link_laws::link_tail);
    let tg = link_laws::tail_tokens(g);
    let t = link_laws::tail_tokens(x);
    let u = assemble::next_content(tg, 0);
    let full = assemble::has_content();
    assemble::lemma_next_content(tg, 0);
    let k = choose|k: int| 0 <= k < tg.len() && (#[trigger] tg[k]) !is Blank;
    assert(u <= k) by {
        if u > k {
            assert(tg[k] is Blank);
        }
    }
    assert forall|j: int| 0 <= j < u implies !full(#[trigger] t[j]) by {
        assert(t[j] == tg[j]);
    }
    assert(t[u] == tg[u] && full(t[u]));
    bytes::lemma_find_from_is(t, full, 0, u);
    assert(tokenizer::lines_from(g, 0)[u] == tokenizer::lines_from(x, 0)[u]);
}
/// What follows the title of a bookmark, or its byte-order mark where it has no title.
pub open spec fn after_title(doc: DocumentView) -> Seq<u8> {
    doc.source.skip(head_len(doc))
}

/// The length of what stands before it.
pub open spec fn head_len(doc: DocumentView) -> int {
    match doc.partition.title {
        Some(r) => r.end,
        None => tokenizer::preamble_len(doc.source),
    }
}

/// A bookmark is a head, and what follows.
proof fn lemma_link_parts(doc: DocumentView) -> (h: int)
    requires
        parser::parsed_as(doc.source, DocumentKind::Bookmark) == Ok::<DocumentView, NbErrorView>(
            doc,
        ),
    ensures
        ({
            let s = doc.source;
            let p = tokenizer::preamble_len(s);
            let a = s.take(head_len(doc));
            let x = after_title(doc);
            let t = link_laws::tail_tokens(x);
            &&& p <= head_len(doc) <= s.len()
            &&& s == a + x
            &&& pieces::follows(a, p, x)
            &&& link_laws::link_head(pieces::rows(a, tokenizer::lines_from(a, p)), h)
            &&& h >= 0 <==> doc.partition.title is Some
            &&& h >= 0 ==> head_len(doc) > p && doc.partition.title == Some(
                tokenizer::lines_from(a, p)[h].span(),
            ) && bytes::span_within(doc.partition.title->0, a.len() as int)
            &&& h < 0 ==> assemble::next_content(t, 0) < t.len() && !assemble::is_title(
                t[assemble::next_content(t, 0)],
            )
        }),
{
    let s = doc.source;
    let p = tokenizer::preamble_len(s);
    if doc.partition.title is Some {
        link_laws::lemma_titled_parts(s)
    } else {
        pieces::lemma_split(s, 0);
        assemble::lemma_source_lines(s);
        let a = s.take(p);
        let x = s.skip(p);
        let l = tokenizer::source_lines(s);
        assert(tokenizer::lines_from(a, p) =~= Seq::<LineSpan>::empty());
        assert(link_laws::link_head(pieces::rows(a, tokenizer::lines_from(a, p)), -1));
        assert(pieces::source_rows(s).skip(0) =~= pieces::source_rows(s));
        pieces::lemma_tokens(s);
        assert(parser::tokens_of(s, DocumentKind::Bookmark) == link_laws::tail_tokens(x));
        -1
    }
}

/// A body can be told from the parts of a bookmark around it, starts on a line of its own, and
/// is not taken for a byte-order mark.
pub open spec fn link_separable(doc: DocumentView, new: Seq<u8>) -> bool {
    let s = doc.source;
    let x = after_title(doc);
    let at = head_len(doc) + body_at(x);
    let rest = x.skip(body_end(x));
    &&& tail_separable(x, doc.partition.title is Some, new)
    &&& pieces::follows(s.take(at), tokenizer::preamble_len(s), new + rest)
    &&& at == 0 ==> tokenizer::preamble_len(new + rest) == 0
}

/// What comes behind the start of a source has no part in its byte-order mark.
proof fn lemma_mark_stays(s: Seq<u8>, at: int, w: Seq<u8>)
    requires
        tokenizer::preamble_len(s) <= at <= s.len(),
        pieces::follows(s.take(at), tokenizer::preamble_len(s), w),
        at == 0 ==> tokenizer::preamble_len(w) == 0,
    ensures
        tokenizer::preamble_len(s.take(at) + w) == tokenizer::preamble_len(s),
{
    let z = s.take(at) + w;
    let p = tokenizer::preamble_len(s);
    if at >= 3 {
        assert(z[0] == s[0] && z[1] == s[1] && z[2] == s[2]);
    } else if at == 0 {
        assert(z =~= w);
    } else {
        assert(z[0] == s[0]);
        if w.len() > 0 {
            assert(z[at - 1] == s[at - 1]);
            assert(s.take(at).last() == s[at - 1]);
        }
    }
}

/// The new body of a bookmark that has its body in one piece reads back as it was written, and
/// its title, its URL line and its tag section stay. This leaves out bodies that cannot be told
/// from what stands around them, as [`link_separable`] says.
#[verifier::rlimit(60)]
#[verifier::spinoff_prover]
pub proof fn law_replaced_link_body_reads_back(doc: DocumentView, new_body: Seq<u8>)
    requires
        parser::parsed_as(doc.source, DocumentKind::Bookmark) == Ok::<DocumentView, NbErrorView>(
            doc,
        ),
        doc.partition.bodies.len() <= 1,
        link_separable(doc, new_body),
    ensures
        ({
            let source = lines::body_replaced(doc, new_body)->Ok_0;
            let after = parser::parsed_as(source, DocumentKind::Bookmark)->Ok_0;
            &&& lines::body_replaced(doc, new_body) is Ok
            &&& parser::parsed_as(source, DocumentKind::Bookmark) is Ok
            &&& after.body() == new_body
            &&& document::opt_slice(source, after.partition.title) == document::opt_slice(
                doc.source,
                doc.partition.title,
            )
            &&& document::opt_slice(source, after.partition.url) == document::opt_slice(
                doc.source,
                doc.partition.url,
            )
            &&& document::opt_slice(source, after.partition.tags) == document::opt_slice(
                doc.source,
                doc.partition.tags,
            )
        }),
{
    let h = lemma_link_parts(doc);
    let a = doc.source.take(head_len(doc));
    let x = after_title(doc);
    let titled = doc.partition.title is Some;
    link_laws::lemma_link_tail(a, x, h);
    lemma_body_place(x);
    if tag_index(x) < 0 {
        lemma_rebodied_alone(x, titled, new_body);
    } else if tag_index(x) == 0 {
        lemma_rebodied_behind(x, titled, new_body);
    } else {
        lemma_rebodied_before(x, titled, new_body);
    }
    lemma_new_source(doc, new_body, h);
    let z = x.take(body_at(x)) + (new_body + x.skip(body_end(x)));
    lemma_new_reads(doc, z, h);
}

/// The source of a bookmark with a new body is its head, and what follows with a new body.
#[verifier::rlimit(40)]
#[verifier::spinoff_prover]
proof fn lemma_new_source(doc: DocumentView, new: Seq<u8>, h: int)
    requires
        ({
            let s = doc.source;
            let n = head_len(doc);
            let tail = link_laws::link_tail(after_title(doc));
            &&& tokenizer::preamble_len(s) <= n <= s.len()
            &&& doc.partition.bodies == pieces::all_moved(tail.bodies, n)
            &&& tail.bodies.len() <= 1
            &&& pieces::follows(s.take(n), tokenizer::preamble_len(s), after_title(doc))
        }),
        link_separable(doc, new),
    ensures
        ({
            let s = doc.source;
            let a = s.take(head_len(doc));
            let x = after_title(doc);
            let z = x.take(body_at(x)) + (new + x.skip(body_end(x)));
            &&& lines::body_replaced(doc, new) is Ok
            &&& lines::body_replaced(doc, new)->Ok_0 == a + z
            &&& tokenizer::preamble_len(a + z) == tokenizer::preamble_len(s)
            &&& pieces::follows(a, tokenizer::preamble_len(s), z)
        }),
{
    let s = doc.source;
    let p = tokenizer::preamble_len(s);
    let n = head_len(doc);
    let a = s.take(n);
    let x = after_title(doc);
    let tail = link_laws::link_tail(x);
    lemma_body_place(x);
    let g = x.take(body_at(x));
    let rest = x.skip(body_end(x));
    let z = g + (new + rest);
    let source = a + z;
    if tail.bodies.len() > 0 {
        assert(doc.partition.bodies[0] == pieces::moved(tail.bodies[0], n));
    }
    assert(source =~= lines::body_replaced(doc, new)->Ok_0);
    let at = n + body_at(x);
    assert(s.take(at) =~= a + g);
    assert(source =~= s.take(at) + (new + rest));
    lemma_mark_stays(s, at, new + rest);
    if g.len() > 0 {
        assert(z[0] == x[0]);
    } else {
        assert(z =~= new + rest);
        assert(a + g =~= a);
    }
}

/// What a bookmark with the same head reads as.
proof fn lemma_new_reads(doc: DocumentView, z: Seq<u8>, h: int)
    requires
        parser::parsed_as(doc.source, DocumentKind::Bookmark) == Ok::<DocumentView, NbErrorView>(
            doc,
        ),
        ({
            let s = doc.source;
            let p = tokenizer::preamble_len(s);
            let a = s.take(head_len(doc));
            let x = after_title(doc);
            let t = link_laws::tail_tokens(x);
            let u = link_laws::tail_tokens(z);
            &&& p <= head_len(doc) <= s.len()
            &&& s == a + x
            &&& pieces::follows(a, p, x)
            &&& pieces::follows(a, p, z)
            &&& tokenizer::preamble_len(a + z) == p
            &&& link_laws::link_head(pieces::rows(a, tokenizer::lines_from(a, p)), h)
            &&& h >= 0 <==> doc.partition.title is Some
            &&& h >= 0 ==> bytes::span_within(doc.partition.title->0, a.len() as int)
            &&& h < 0 ==> assemble::next_content(t, 0) < t.len() && !assemble::is_title(
                t[assemble::next_content(t, 0)],
            )
            &&& h < 0 ==> assemble::next_content(u, 0) < u.len() && !assemble::is_title(
                u[assemble::next_content(u, 0)],
            )
        }),
    ensures
        ({
            let s = doc.source;
            let a = s.take(head_len(doc));
            let x = after_title(doc);
            let source = a + z;
            let after = parser::parsed_as(source, DocumentKind::Bookmark)->Ok_0;
            let old = link_laws::link_tail(x);
            let new = link_laws::link_tail(z);
            &&& parser::parsed_as(source, DocumentKind::Bookmark) is Ok
            &&& after.body() == document::concat_ranges(z, new.bodies)
            &&& document::opt_slice(source, after.partition.title) == document::opt_slice(
                s,
                doc.partition.title,
            )
            &&& document::opt_slice(source, after.partition.url) == document::opt_slice(z, new.url)
            &&& document::opt_slice(source, after.partition.tags) == document::opt_slice(
                z,
                new.tags,
            )
            &&& document::opt_slice(s, doc.partition.url) == document::opt_slice(x, old.url)
            &&& document::opt_slice(s, doc.partition.tags) == document::opt_slice(x, old.tags)
        }),
{
    let s = doc.source;
    let a = s.take(head_len(doc));
    let x = after_title(doc);
    let source = a + z;
    link_laws::lemma_link_tail(a, x, h);
    link_laws::lemma_link_reads(a, x, h);
    link_laws::lemma_link_tail(a, z, h);
    link_laws::lemma_link_reads(a, z, h);
    if h >= 0 {
        let r = doc.partition.title->0;
        assert(bytes::slice_of(source, r) =~= bytes::slice_of(s, r));
    }
}

} // verus!
