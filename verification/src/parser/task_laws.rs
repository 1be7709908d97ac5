//! What is read back of a task whose title or body was replaced.

use crate::bytes;
use crate::bytes::{Span, CR, LF};
use crate::error::NbErrorView;
use crate::lines;
use crate::parser;
use crate::parser::assemble;
use crate::parser::classify;
use crate::parser::document;
use crate::parser::document::{DocumentKind, DocumentView};
use crate::parser::helpers;
use crate::parser::pieces;
use crate::parser::readback;
use crate::parser::retitled;
use crate::parser::types::Token;
use crate::tokenizer;
use crate::tokenizer::LineSpan;
use vstd::prelude::*;

verus! {

/// The tag section and the body in what follows the title of a task.
pub struct TaskTail {
    pub tags: Option<Span>,
    pub bodies: Seq<Span>,
}

/// The tag section and the body in what follows the title of a task, by its lines and tokens.
pub open spec fn tail_parts(x: Seq<u8>, l: Seq<LineSpan>, t: Seq<Token>) -> TaskTail {
    let b = assemble::next_content(t, 0);
    let k = assemble::last_heading(t, t.len() as int);
    let tagged = k >= 0 && assemble::is_tag_boundary(t[k]);
    let tag = Span { start: l[k].start, end: x.len() as int };
    let floor = l[b].start;
    let split = tagged && b < t.len() && floor < tag.start && assemble::ends_with_empty_line(
        x,
        floor,
        tag.start,
    );
    let at = assemble::break_before(x, floor, tag.start);
    TaskTail {
        tags: if tagged {
            Some(tag)
        } else {
            None
        },
        bodies: if !tagged {
            assemble::rest_from(l, b, x.len() as int)
        } else if b >= t.len() || floor >= tag.start {
            Seq::empty()
        } else if !split {
            seq![Span { start: floor, end: tag.start }]
        } else if floor < at {
            seq![Span { start: floor, end: at }]
        } else {
            Seq::empty()
        },
    }
}

/// The tag section and the body in what follows the title of a task.
pub open spec fn task_tail(x: Seq<u8>) -> TaskTail {
    tail_parts(x, tokenizer::lines_from(x, 0), pieces::task_tokens(pieces::rows_of(x)))
}

/// The ranges of the tail lie inside it.
pub proof fn lemma_tail_within(x: Seq<u8>)
    ensures
        task_tail(x).tags matches Some(r) ==> bytes::span_within(r, x.len() as int),
        task_tail(x).bodies.len() <= 1,
        forall|k: int|
            0 <= k < task_tail(x).bodies.len() ==> bytes::span_within(
                #[trigger] task_tail(x).bodies[k],
                x.len() as int,
            ),
{
    let l = tokenizer::lines_from(x, 0);
    let t = pieces::task_tokens(pieces::rows_of(x));
    tokenizer::lemma_lines_from(x, 0);
    assemble::lemma_next_content(t, 0);
    assemble::lemma_last_heading(t, t.len() as int);
    let b = assemble::next_content(t, 0);
    let k = assemble::last_heading(t, t.len() as int);
    if b < l.len() {
        assert(tokenizer::line_ok(x, l[b]));
    }
    if k >= 0 {
        assert(tokenizer::line_ok(x, l[k]));
    }
}

/// Line breaks are found by the bytes between two places alone.
proof fn lemma_break_moved(a: Seq<u8>, x: Seq<u8>, floor: int, end: int)
    requires
        0 <= floor <= end <= x.len(),
    ensures
        assemble::break_before(a + x, a.len() + floor, a.len() + end) == a.len()
            + assemble::break_before(x, floor, end),
        floor < end ==> assemble::ends_with_empty_line(a + x, a.len() + floor, a.len() + end)
            == assemble::ends_with_empty_line(x, floor, end),
{
    let s = a + x;
    let n = a.len() as int;
    if end > floor {
        assert(s[n + end - 1] == x[end - 1]);
        if end - 1 > floor {
            assert(s[n + end - 2] == x[end - 2]);
        }
        let at = assemble::break_before(x, floor, end);
        if at > floor {
            assert(s[n + at - 1] == x[at - 1]);
        }
    }
}

/// A head of blank lines but for one, at line `h`.
pub open spec fn task_head(a: Seq<u8>, p: int, h: int) -> bool {
    let t = pieces::task_tokens(pieces::rows(a, tokenizer::lines_from(a, p)));
    &&& 0 <= h < t.len()
    &&& t[h] !is Blank
    &&& forall|k: int| 0 <= k < t.len() && k != h ==> (#[trigger] t[k]) is Blank
}

/// The parts of a task are its title and those of what follows.
#[verifier::rlimit(40)]
#[verifier::spinoff_prover]
pub proof fn lemma_task_tail(a: Seq<u8>, x: Seq<u8>, h: int)
    requires
        pieces::follows(a, tokenizer::preamble_len(a + x), x),
        task_head(a, tokenizer::preamble_len(a + x), h),
    ensures
        ({
            let la = tokenizer::lines_from(a, tokenizer::preamble_len(a + x));
            let p = parser::partition_of(a + x, DocumentKind::Todo);
            let n = a.len() as int;
            &&& p is Some
            &&& p->0.title == Some(la[h].span())
            &&& p->0.tags == pieces::opt_moved(task_tail(x).tags, n)
            &&& p->0.bodies == pieces::all_moved(task_tail(x).bodies, n)
        }),
{
    let s = a + x;
    let n = a.len() as int;
    let p = tokenizer::preamble_len(s);
    let la = tokenizer::lines_from(a, p);
    let lx = tokenizer::lines_from(x, 0);
    let l = tokenizer::source_lines(s);
    let ta = pieces::task_tokens(pieces::rows(a, la));
    let tx = pieces::task_tokens(pieces::rows_of(x));
    let t = parser::tokens_of(s, DocumentKind::Todo);
    pieces::lemma_joined(a, p, x);
    pieces::lemma_tokens(s);
    pieces::lemma_tokens_join(pieces::at_start(), pieces::rows(a, la), pieces::rows_of(x));
    assert(t == ta + tx);
    let full = assemble::has_content();
    assert forall|k: int| 0 <= k < h implies !full(#[trigger] t[k]) by {
        assert(t[k] == ta[k]);
        assert(ta[k] is Blank);
    }
    assert(t[h] == ta[h] && full(t[h]));
    bytes::lemma_find_from_is(t, full, 0, h);
    retitled::lemma_next_behind(ta, tx, h + 1, 0);
    let q = assemble::next_content(tx, 0);
    assemble::lemma_next_content(tx, 0);
    let b = assemble::next_content(t, h + 1);
    assert(b == ta.len() + q);
    pieces::lemma_last_heading_join(ta, tx, tx.len() as int);
    let k = assemble::last_heading(t, t.len() as int);
    let kx = assemble::last_heading(tx, tx.len() as int);
    assemble::lemma_last_heading(tx, tx.len() as int);
    assemble::lemma_last_heading(ta, ta.len() as int);
    let ka = assemble::last_heading(ta, ta.len() as int);
    if ka >= 0 && ka != h {
        assert(ta[ka] is Blank);
    }
    assert(kx < 0 ==> k <= h);
    tokenizer::lemma_lines_from(x, 0);
    if q < lx.len() {
        assert(l[b] == retitled::moved(lx[q], n));
        assert(tokenizer::line_ok(x, lx[q]));
    }
    if kx >= 0 {
        assert(l[k] == retitled::moved(lx[kx], n));
        assert(t[k] == tx[kx]);
        assert(tokenizer::line_ok(x, lx[kx]));
        if q < lx.len() && lx[q].start <= lx[kx].start {
            lemma_break_moved(a, x, lx[q].start, lx[kx].start);
        }
    }
    assert(l[h] == la[h]);
    let part = parser::partition_of(s, DocumentKind::Todo)->0;
    assert(part.tags == pieces::opt_moved(task_tail(x).tags, n));
    assert(part.bodies =~= pieces::all_moved(task_tail(x).bodies, n));
}

/// What the parts of a task read as.
pub proof fn lemma_task_reads(a: Seq<u8>, x: Seq<u8>, h: int)
    requires
        pieces::follows(a, tokenizer::preamble_len(a + x), x),
        task_head(a, tokenizer::preamble_len(a + x), h),
    ensures
        ({
            let p = parser::partition_of(a + x, DocumentKind::Todo)->0;
            &&& document::opt_slice(a + x, p.tags) == document::opt_slice(x, task_tail(x).tags)
            &&& document::concat_ranges(a + x, p.bodies) == document::concat_ranges(
                x,
                task_tail(x).bodies,
            )
        }),
{
    lemma_task_tail(a, x, h);
    lemma_tail_within(x);
    pieces::lemma_moved_read(a, x, task_tail(x).tags);
    pieces::lemma_moved_reads(a, x, task_tail(x).bodies);
}

/// A task is a head that ends with its title line, and what follows.
pub proof fn lemma_task_parts(s: Seq<u8>) -> (h: int)
    requires
        parser::partition_of(s, DocumentKind::Todo) is Some,
    ensures
        ({
            let l = tokenizer::source_lines(s);
            let p = tokenizer::preamble_len(s);
            let r = l[h].span();
            let front = s.take(r.start);
            let a = s.take(r.end);
            let x = s.skip(r.end);
            &&& 0 <= h < l.len()
            &&& h == assemble::next_content(parser::tokens_of(s, DocumentKind::Todo), 0)
            &&& p <= r.start < r.end <= s.len()
            &&& parser::partition_of(s, DocumentKind::Todo)->0.title == Some(r)
            &&& a + x == s
            &&& pieces::follows(a, p, x)
            &&& pieces::follows(front, p, s.skip(r.start))
            &&& task_head(a, p, h)
            &&& tokenizer::lines_from(a, p)[h] == l[h]
            &&& pieces::rows(front, tokenizer::lines_from(front, p)).len() == h
            &&& forall|k: int|
                0 <= k < h ==> #[trigger] pieces::task_tokens(
                    pieces::rows(front, tokenizer::lines_from(front, p)),
                )[k] is Blank
        }),
{
    let l = tokenizer::source_lines(s);
    let p = tokenizer::preamble_len(s);
    let t = parser::tokens_of(s, DocumentKind::Todo);
    let h = assemble::next_content(t, 0);
    assemble::lemma_next_content(t, 0);
    pieces::lemma_tokens(s);
    pieces::lemma_split(s, h);
    pieces::lemma_split(s, h + 1);
    assemble::lemma_line_ends(s, l, h);
    let r = l[h].span();
    let front = s.take(r.start);
    let a = s.take(r.end);
    let rows = pieces::source_rows(s);
    let ta = pieces::task_tokens(pieces::rows(a, tokenizer::lines_from(a, p)));
    let tf = pieces::task_tokens(pieces::rows(front, tokenizer::lines_from(front, p)));
    assert(l.take(h + 1)[h] == l[h]);
    assert forall|k: int| 0 <= k < h implies (#[trigger] tf[k]) is Blank by {
        assert(rows.take(h)[k] == rows[k]);
        assert(t[k] is Blank);
    }
    assert forall|k: int| 0 <= k <= h implies (#[trigger] ta[k]) == t[k] by {
        assert(rows.take(h + 1)[k] == rows[k]);
    }
    assert forall|k: int| 0 <= k < ta.len() && k != h implies (#[trigger] ta[k]) is Blank by {
        assert(ta[k] == t[k]);
        assert(t[k] is Blank);
    }
    assert(ta[h] == t[h]);
    h
}

/// A line that can stand as the title of a task: it is not blank and not broken.
pub open spec fn task_titles(line: Seq<u8>) -> bool {
    &&& !helpers::blank(line)
    &&& forall|k: int| 0 <= k < line.len() ==> !bytes::is_line_break(#[trigger] line[k])
}

/// A text and then one line more.
pub proof fn lemma_line_after(front: Seq<u8>, p: int, line: Seq<u8>)
    requires
        0 <= p <= front.len(),
        readback::whole_lines(front, p, line.push(LF)),
        forall|k: int| 0 <= k < line.len() ==> !bytes::is_line_break(#[trigger] line[k]),
    ensures
        ({
            let a = front + line.push(LF);
            let n = front.len() as int;
            let e = n + line.len();
            let lf = tokenizer::lines_from(front, p);
            let la = tokenizer::lines_from(a, p);
            &&& la == lf.push(LineSpan { start: n, content_end: e, end: e + 1 })
            &&& pieces::rows(a, la) == pieces::rows(front, lf).push(line)
        }),
{
    let a = front + line.push(LF);
    let one = line.push(LF);
    let n = front.len() as int;
    let e = n + line.len();
    pieces::lemma_joined(front, p, one);
    readback::lemma_line_here(one, 0, line.len() as int);
    assert(tokenizer::lines_from(one, one.len() as int) =~= Seq::<LineSpan>::empty());
    let lf = tokenizer::lines_from(front, p);
    let la = tokenizer::lines_from(a, p);
    assert(la =~= lf.push(LineSpan { start: n, content_end: e, end: e + 1 }));
    assert(pieces::rows_of(one) =~= seq![line]) by {
        assert(tokenizer::lines_from(one, 0)[0].content(one) =~= line);
    }
    assert(pieces::rows(a, la) =~= pieces::rows(front, lf).push(line));
}

/// What a document with a new title reads back as: the title, and as before the tags and the
/// body.
pub open spec fn retitled_as(doc: DocumentView, line: Seq<u8>, kind: DocumentKind) -> bool {
    let source = lines::title_replaced(doc, line);
    let after = parser::parsed_as(source, kind)->Ok_0;
    &&& parser::parsed_as(source, kind) is Ok
    &&& document::opt_slice(source, after.partition.title) == Some(line.push(LF))
    &&& document::opt_slice(source, after.partition.url) == document::opt_slice(
        doc.source,
        doc.partition.url,
    )
    &&& document::opt_slice(source, after.partition.tags) == document::opt_slice(
        doc.source,
        doc.partition.tags,
    )
    &&& after.body() == doc.body()
}

/// The new title of a task reads back as it was written, and its tag section and its body
/// stay. This leaves out blank and broken lines, and a title at the very start that would be
/// taken for a byte-order mark.
#[verifier::rlimit(40)]
#[verifier::spinoff_prover]
pub proof fn law_new_task_title_reads_back(doc: DocumentView, line: Seq<u8>)
    requires
        parser::parsed_as(doc.source, DocumentKind::Todo) == Ok::<DocumentView, NbErrorView>(doc),
        task_titles(line),
        doc.partition.title->0.start == 0 ==> tokenizer::preamble_len(line) == 0,
    ensures
        retitled_as(doc, line, DocumentKind::Todo),
{
    let s = doc.source;
    let h = lemma_task_parts(s);
    let p = tokenizer::preamble_len(s);
    let r = tokenizer::source_lines(s)[h].span();
    let front = s.take(r.start);
    let x = s.skip(r.end);
    let head = front + line.push(LF);
    let source = head + x;
    assert(line.len() > 0) by {
        if line.len() == 0 {
            assert(helpers::blank(line));
        }
    }
    assert(line.last() != LF) by {
        assert(!bytes::is_line_break(line[line.len() - 1]));
    }
    assert(source =~= lines::title_replaced(doc, line));
    assert(!bytes::is_line_break(line[0]));
    assert(line.push(LF)[0] == line[0]);
    assert(tokenizer::preamble_len(source) == p) by {
        if r.start == 0 {
            if source.len() >= 3 {
                assert(source[0] == line.push(LF)[0]);
                if line.len() >= 3 {
                    assert(source[1] == line[1] && source[2] == line[2]);
                } else if line.len() == 2 {
                    assert(source[2] == LF);
                } else {
                    assert(source[1] == LF);
                }
            }
        } else {
            assert(source[0] == s[0]);
            assert(r.start >= 3 ==> source[1] == s[1] && source[2] == s[2]);
            if p == 0 {
                lemma_blank_start(s, h);
            }
        }
    }
    lemma_line_after(front, p, line);
    let lf = tokenizer::lines_from(front, p);
    let th = pieces::task_tokens(pieces::rows(head, tokenizer::lines_from(head, p)));
    let tf = pieces::task_tokens(pieces::rows(front, lf));
    assert(th =~= tf.push(classify::todo_token(line)));
    assert forall|k: int| 0 <= k < th.len() && k != h implies (#[trigger] th[k]) is Blank by {
        assert(th[k] == tf[k]);
    }
    assert(task_head(head, p, h));
    assert(head.last() == LF);
    lemma_task_reads(head, x, h);
    lemma_task_tail(head, x, h);
    lemma_task_reads(s.take(r.end), x, h);
    assert(bytes::slice_of(source, tokenizer::lines_from(head, p)[h].span()) =~= line.push(LF));
}

/// A task without a byte-order mark whose title is not at its start starts with a blank line.
proof fn lemma_blank_start(s: Seq<u8>, h: int)
    requires
        tokenizer::preamble_len(s) == 0,
        h == assemble::next_content(parser::tokens_of(s, DocumentKind::Todo), 0),
        0 < h < tokenizer::source_lines(s).len(),
    ensures
        s.len() > 0,
        !assemble::visible(s[0]),
{
    let l = tokenizer::source_lines(s);
    let t = parser::tokens_of(s, DocumentKind::Todo);
    assemble::lemma_next_content(t, 0);
    assert(t[0] is Blank);
    assemble::lemma_source_lines(s);
    assert(tokenizer::line_ok(s, l[0]));
    let content = l[0].content(s);
    assert(helpers::blank(content)) by {
        if !helpers::blank(content) {
            assert(classify::todo_token(content) !is Blank);
        }
    }
    if content.len() > 0 {
        assert(content[0] == s[0]);
    } else {
        assert(bytes::is_line_break(s[0]));
    }
}
/// Where the body in what follows a title starts, or would start.
pub open spec fn tail_start(x: Seq<u8>) -> int {
    if task_tail(x).bodies.len() > 0 {
        task_tail(x).bodies[0].start
    } else {
        x.len() as int
    }
}

/// Where the body in what follows a title ends.
pub open spec fn tail_end(x: Seq<u8>) -> int {
    if task_tail(x).bodies.len() > 0 {
        task_tail(x).bodies[0].end
    } else {
        x.len() as int
    }
}

/// A new body can be told from the tag section that follows it, if there is one: it ends with
/// a whole line, and with an empty line only where one sets the tag section apart. Where no tag
/// section follows, it does not bring one.
pub open spec fn told_apart(x: Seq<u8>, new: Seq<u8>) -> bool {
    let rest = x.skip(tail_end(x));
    match task_tail(x).tags {
        None => task_tail(new).tags is None,
        Some(tag) => {
            &&& task_tail(x).bodies.len() > 0 || new.len() == 0
            &&& new.len() > 0 ==> readback::whole_lines(new, 0, rest) && (tag.start == tail_end(x)
                ==> !assemble::ends_with_empty_line(new, 0, new.len() as int))
        },
    }
}

/// What stands before the body in what follows a title is blank.
proof fn lemma_gap(x: Seq<u8>)
    ensures
        ({
            let g = x.take(tail_start(x));
            let tg = pieces::task_tokens(pieces::rows_of(g));
            &&& 0 <= tail_start(x) <= tail_end(x) <= x.len()
            &&& task_tail(x).tags is None || task_tail(x).bodies.len() > 0 ==> forall|k: int|
                0 <= k < tg.len() ==> (#[trigger] tg[k]) is Blank
        }),
{
    lemma_tail_within(x);
    let l = tokenizer::lines_from(x, 0);
    let t = pieces::task_tokens(pieces::rows_of(x));
    let b = assemble::next_content(t, 0);
    assemble::lemma_next_content(t, 0);
    assemble::lemma_last_heading(t, t.len() as int);
    if task_tail(x).bodies.len() > 0 {
        assert(bytes::span_within(task_tail(x).bodies[0], x.len() as int));
    }
    if task_tail(x).tags is None || task_tail(x).bodies.len() > 0 {
        assert(tail_start(x) == assemble::line_start(x, l, b));
        lemma_split_tail(x, b);
        let g = x.take(tail_start(x));
        let tg = pieces::task_tokens(pieces::rows_of(g));
        assert forall|k: int| 0 <= k < tg.len() implies (#[trigger] tg[k]) is Blank by {
            assert(pieces::rows_of(x).take(b)[k] == pieces::rows_of(x)[k]);
            assert(tg[k] == t[k]);
        }
    }
}

/// A text is what stands before one of its lines, and the rest.
pub proof fn lemma_split_tail(x: Seq<u8>, h: int)
    requires
        0 <= h <= tokenizer::lines_from(x, 0).len(),
    ensures
        ({
            let l = tokenizer::lines_from(x, 0);
            let at = assemble::line_start(x, l, h);
            let a = x.take(at);
            let y = x.skip(at);
            &&& 0 <= at <= x.len()
            &&& a + y == x
            &&& pieces::follows(a, 0, y)
            &&& tokenizer::lines_from(a, 0) == l.take(h)
            &&& retitled::all_moved(tokenizer::lines_from(y, 0), at) == l.skip(h)
            &&& pieces::rows_of(a) == pieces::rows_of(x).take(h)
            &&& pieces::rows_of(y) == pieces::rows_of(x).skip(h)
        }),
{
    let l = tokenizer::lines_from(x, 0);
    let at = assemble::line_start(x, l, h);
    let a = x.take(at);
    let y = x.skip(at);
    tokenizer::lemma_lines_from(x, 0);
    if h < l.len() {
        assert(tokenizer::line_ok(x, l[h]));
        if h > 0 {
            assert(tokenizer::adjoin(l, h - 1));
            assert(tokenizer::line_ok(x, l[h - 1]));
            assert(a.last() == x[at - 1]);
            assert(y[0] == x[at]);
        }
    } else {
        assert(a =~= x);
        assert(y =~= Seq::<u8>::empty());
    }
    assert(a + y =~= x);
    pieces::lemma_joined(a, 0, y);
    let la = tokenizer::lines_from(a, 0);
    let ly = tokenizer::lines_from(y, 0);
    tokenizer::lemma_lines_from(a, 0);
    tokenizer::lemma_lines_from(y, 0);
    let m = la.len() as int;
    assert(m == h) by {
        if m > 0 {
            assert(l[m - 1] == la[m - 1]);
            assert(tokenizer::line_ok(x, l[m - 1]));
            assert(l[m - 1].end == at);
        }
        if h < l.len() {
            if m < h {
                if m > 0 {
                    if m - 1 < h - 1 {
                        tokenizer::lemma_tile_order(x, l, 0, x.len() as int, m - 1, h - 1);
                        assert(tokenizer::adjoin(l, h - 1));
                        assert(tokenizer::line_ok(x, l[h - 1]));
                    }
                } else {
                    assert(at == 0);
                    assert(tokenizer::line_ok(x, l[0]));
                    tokenizer::lemma_tile_order(x, l, 0, x.len() as int, 0, h);
                }
            } else if m > h {
                if m - 1 > h {
                    tokenizer::lemma_tile_order(x, l, 0, x.len() as int, h, m - 1);
                }
                assert(tokenizer::line_ok(x, l[h]));
            }
        } else {
            assert(ly =~= Seq::<LineSpan>::empty());
            assert(l =~= la);
        }
    }
    assert(la =~= l.take(h));
    assert(retitled::all_moved(ly, at) =~= l.skip(h));
    assert(pieces::rows_of(a) =~= pieces::rows_of(x).take(h));
    assert(pieces::rows_of(y) =~= pieces::rows_of(x).skip(h));
}

/// The first of some lines is what the first line holds.
pub proof fn lemma_first_row(x: Seq<u8>)
    requires
        x.len() > 0,
    ensures
        pieces::rows_of(x).len() > 0,
        pieces::rows_of(x)[0] == readback::first_line(x),
{
    let none = Seq::<u8>::empty();
    readback::lemma_first_line_behind(none, x);
    assert(none + x =~= x);
}

/// A new body behind blank lines, where no tag section follows.
pub proof fn lemma_tail_untagged(g: Seq<u8>, new: Seq<u8>)
    requires
        pieces::follows(g, 0, new),
        forall|k: int|
            0 <= k < pieces::rows_of(g).len() ==> (#[trigger] pieces::task_tokens(
                pieces::rows_of(g),
            )[k]) is Blank,
        new.len() > 0 ==> !helpers::blank(readback::first_line(new)),
        task_tail(new).tags is None,
    ensures
        task_tail(g + new).tags is None,
        task_tail(g + new).bodies == (if new.len() > 0 {
            seq![Span { start: g.len() as int, end: (g + new).len() as int }]
        } else {
            Seq::empty()
        }),
{
    let x = g + new;
    let tg = pieces::task_tokens(pieces::rows_of(g));
    let tn = pieces::task_tokens(pieces::rows_of(new));
    pieces::lemma_joined(g, 0, new);
    pieces::lemma_tokens_join(pieces::at_start(), pieces::rows_of(g), pieces::rows_of(new));
    let t = pieces::task_tokens(pieces::rows_of(x));
    assert(t == tg + tn);
    assert forall|k: int| 0 <= k < tg.len() implies (#[trigger] tg[k]) is Blank by {}
    retitled::lemma_next_behind(tg, tn, 0, 0);
    pieces::lemma_last_heading_join(tg, tn, tn.len() as int);
    assemble::lemma_last_heading(tg, tg.len() as int);
    assemble::lemma_last_heading(tn, tn.len() as int);
    let full = assemble::has_content();
    if new.len() > 0 {
        lemma_first_row(new);
        assert(full(tn[0]));
        bytes::lemma_find_from_is(tn, full, 0, 0);
        tokenizer::lemma_lines_from(new, 0);
        let l = tokenizer::lines_from(x, 0);
        assert(l[tg.len() as int] == retitled::moved(
            tokenizer::lines_from(new, 0)[0],
            g.len() as int,
        ));
    } else {
        assert(tn.len() == 0);
        assemble::lemma_next_content(tn, 0);
    }
    let kn = assemble::last_heading(tn, tn.len() as int);
    if kn >= 0 {
        assert(t[tg.len() + kn] == tn[kn]);
    }
}

/// The line break of an empty line, if it is one.
pub open spec fn one_break(sep: Seq<u8>) -> bool {
    sep.len() == 0 || sep == seq![LF] || sep == seq![CR] || sep == seq![CR, LF]
}

/// The line of a line break alone.
pub proof fn lemma_empty_row(sep: Seq<u8>)
    requires
        one_break(sep),
        sep.len() > 0,
    ensures
        pieces::task_tokens(pieces::rows_of(sep)) == seq![Token::Blank],
        pieces::rows_of(sep) == seq![Seq::<u8>::empty()],
{
    let p = tokenizer::breaks();
    assert(p(sep[0]));
    bytes::lemma_find_from_is(sep, p, 0, 0);
    let line = tokenizer::line_at(sep, 0);
    assert(line.end == sep.len());
    assert(tokenizer::lines_from(sep, line.end) =~= Seq::<LineSpan>::empty());
    assert(tokenizer::lines_from(sep, 0) =~= seq![line]);
    assert(line.content(sep) =~= Seq::<u8>::empty());
    assert(pieces::rows_of(sep) =~= seq![Seq::<u8>::empty()]);
    assert(helpers::blank(Seq::<u8>::empty()));
    assert(pieces::task_tokens(pieces::rows_of(sep)) =~= seq![Token::Blank]);
}

/// A tag section: a heading that opens one, and no heading after it.
pub open spec fn is_section(y: Seq<u8>) -> bool {
    let t = pieces::task_tokens(pieces::rows_of(y));
    &&& t.len() > 0
    &&& assemble::is_tag_boundary(t[0])
    &&& assemble::last_heading(t, t.len() as int) == 0
    &&& y[0] != LF
}

/// The tokens of a tail that is put together of four parts.
proof fn lemma_four_parts(g: Seq<u8>, new: Seq<u8>, sep: Seq<u8>, y: Seq<u8>)
    requires
        pieces::follows(g, 0, new + (sep + y)),
        pieces::follows(new, 0, sep + y),
        one_break(sep),
        is_section(y),
    ensures
        ({
            let x = g + (new + (sep + y));
            let tg = pieces::task_tokens(pieces::rows_of(g));
            let tn = pieces::task_tokens(pieces::rows_of(new));
            let ts = pieces::task_tokens(pieces::rows_of(sep));
            let ty = pieces::task_tokens(pieces::rows_of(y));
            let l = tokenizer::lines_from(x, 0);
            let k = tg.len() + tn.len() + ts.len();
            &&& pieces::task_tokens(pieces::rows_of(x)) == tg + (tn + (ts + ty))
            &&& ts == (if sep.len() > 0 {
                seq![Token::Blank]
            } else {
                Seq::<Token>::empty()
            })
            &&& l.len() == k + ty.len()
            &&& l[k as int].start == g.len() + new.len() + sep.len()
            &&& new.len() > 0 ==> tn.len() > 0 && l[tg.len() as int].start == g.len()
            &&& new.len() == 0 ==> tn.len() == 0
        }),
{
    let start = pieces::at_start();
    let z = sep + y;
    if sep.len() > 0 {
        lemma_empty_row(sep);
    } else {
        assert(tokenizer::lines_from(sep, 0) =~= Seq::<LineSpan>::empty());
        assert(pieces::task_tokens(pieces::rows_of(sep)) =~= Seq::<Token>::empty());
    }
    pieces::lemma_joined(sep, 0, y);
    pieces::lemma_tokens_join(start, pieces::rows_of(sep), pieces::rows_of(y));
    pieces::lemma_joined(new, 0, z);
    pieces::lemma_tokens_join(start, pieces::rows_of(new), pieces::rows_of(z));
    let w = new + z;
    pieces::lemma_joined(g, 0, w);
    pieces::lemma_tokens_join(start, pieces::rows_of(g), pieces::rows_of(w));
    tokenizer::lemma_lines_from(y, 0);
    tokenizer::lemma_lines_from(new, 0);
    if new.len() > 0 {
        lemma_first_row(new);
    } else {
        assert(tokenizer::lines_from(new, 0) =~= Seq::<LineSpan>::empty());
    }
    let lw = tokenizer::lines_from(w, 0);
    let lz = tokenizer::lines_from(z, 0);
    let ly = tokenizer::lines_from(y, 0);
    let ns = tokenizer::lines_from(sep, 0).len() as int;
    let nn = tokenizer::lines_from(new, 0).len() as int;
    assert(lz[ns] == retitled::moved(ly[0], sep.len() as int));
    assert(lw[nn + ns] == retitled::moved(lz[ns], new.len() as int));
}

/// A new body between blank lines and a tag section.
#[verifier::rlimit(40)]
#[verifier::spinoff_prover]
pub proof fn lemma_tail_tagged(g: Seq<u8>, new: Seq<u8>, sep: Seq<u8>, y: Seq<u8>)
    requires
        pieces::follows(g, 0, new + (sep + y)),
        forall|k: int|
            0 <= k < pieces::rows_of(g).len() ==> (#[trigger] pieces::task_tokens(
                pieces::rows_of(g),
            )[k]) is Blank,
        one_break(sep),
        is_section(y),
        new.len() > 0 ==> !helpers::blank(readback::first_line(new)) && readback::whole_lines(
            new,
            0,
            sep + y,
        ) && (sep.len() == 0 ==> !assemble::ends_with_empty_line(new, 0, new.len() as int)),
    ensures
        ({
            let x = g + (new + (sep + y));
            let n = g.len() as int + new.len();
            &&& task_tail(x).tags == Some(
                Span { start: n + sep.len() as int, end: x.len() as int },
            )
            &&& task_tail(x).bodies == (if new.len() > 0 {
                seq![Span { start: g.len() as int, end: n }]
            } else {
                Seq::empty()
            })
        }),
{
    let w = new + (sep + y);
    let x = g + w;
    lemma_four_parts(g, new, sep, y);
    let tg = pieces::task_tokens(pieces::rows_of(g));
    let tn = pieces::task_tokens(pieces::rows_of(new));
    let ts = pieces::task_tokens(pieces::rows_of(sep));
    let ty = pieces::task_tokens(pieces::rows_of(y));
    let t = pieces::task_tokens(pieces::rows_of(x));
    assert forall|k: int| 0 <= k < tg.len() implies (#[trigger] tg[k]) is Blank by {}
    let tw = tn + (ts + ty);
    let full = assemble::has_content();
    // The tag section.
    let front = tg + tn + ts;
    assert(t =~= front + ty);
    pieces::lemma_last_heading_join(front, ty, ty.len() as int);
    let k = front.len() as int;
    assert(t[k] == ty[0]);
    // The first line with content.
    retitled::lemma_next_behind(tg, tw, 0, 0);
    assert(full(ty[0]));
    if new.len() > 0 {
        lemma_first_row(new);
        assert(tw[0] == tn[0]);
        assert(full(tw[0]));
        bytes::lemma_find_from_is(tw, full, 0, 0);
        let end = new.len() + sep.len();
        lemma_break_moved(g, w, 0, end as int);
        assert(w[new.len() - 1] == new.last());
        if sep.len() > 0 {
            assert(w[new.len() as int] == (sep + y)[0]);
            assert((sep + y)[0] == sep[0]);
            if sep.len() == 2 {
                assert(w[new.len() as int + 1] == sep[1]);
            }
            assert(assemble::break_before(w, 0, end as int) == new.len());
            assert(assemble::ends_with_empty_line(w, 0, end as int));
        } else {
            let at = assemble::break_before(new, 0, new.len() as int);
            if new.len() > 1 {
                assert(w[new.len() - 2] == new[new.len() - 2]);
            }
            if at > 0 {
                assert(w[at - 1] == new[at - 1]);
            }
            assert(!assemble::ends_with_empty_line(w, 0, end as int));
        }
    } else {
        assert(tw =~= ts + ty);
        if sep.len() > 0 {
            assert(tw[0] is Blank);
            assert(!full(tw[0]));
            assert(tw[1] == ty[0]);
            bytes::lemma_find_from_is(tw, full, 0, 1);
        } else {
            assert(tw[0] == ty[0]);
            bytes::lemma_find_from_is(tw, full, 0, 0);
        }
    }
}
/// A line that starts with a line feed is blank.
proof fn lemma_line_feed_is_blank(x: Seq<u8>, line: LineSpan)
    requires
        tokenizer::line_ok(x, line),
        x[line.start] == LF,
    ensures
        classify::todo_token(line.content(x)) is Blank,
{
    assert(line.content_end == line.start) by {
        if line.content_end > line.start {
            assert(!bytes::is_line_break(x[line.start]));
        }
    }
    assert(line.content(x) =~= Seq::<u8>::empty());
    assert(helpers::blank(line.content(x)));
}

/// From the last heading on, it is the only one.
proof fn lemma_last_heading_skip(t: Seq<Token>, k: int)
    requires
        k == assemble::last_heading(t, t.len() as int),
        k >= 0,
    ensures
        k < t.len(),
        assemble::last_heading(t.skip(k), t.skip(k).len() as int) == 0,
{
    assemble::lemma_last_heading(t, t.len() as int);
    let u = t.skip(k);
    assemble::lemma_last_heading(u, u.len() as int);
    let m = assemble::last_heading(u, u.len() as int);
    assert(u[0] == t[k]);
    if m > 0 {
        assert(u[m] == t[k + m]);
    }
}

/// The last heading of a tail, where it opens a tag section, and what follows it are one.
proof fn lemma_section_of(x: Seq<u8>, k: int)
    requires
        ({
            let t = pieces::task_tokens(pieces::rows_of(x));
            &&& k == assemble::last_heading(t, t.len() as int)
            &&& k >= 0
            &&& assemble::is_tag_boundary(t[k])
        }),
    ensures
        0 <= k < tokenizer::lines_from(x, 0).len(),
        0 <= tokenizer::lines_from(x, 0)[k].start < x.len(),
        is_section(x.skip(tokenizer::lines_from(x, 0)[k].start)),
{
    let l = tokenizer::lines_from(x, 0);
    let t = pieces::task_tokens(pieces::rows_of(x));
    assemble::lemma_last_heading(t, t.len() as int);
    tokenizer::lemma_lines_from(x, 0);
    assert(tokenizer::line_ok(x, l[k]));
    let tag = l[k].start;
    let y = x.skip(tag);
    lemma_split_tail(x, k);
    let ty = pieces::task_tokens(pieces::rows_of(y));
    assert(ty =~= t.skip(k));
    lemma_last_heading_skip(t, k);
    assert(ty[0] == t[k]);
    if y[0] == LF {
        assert(x[tag] == LF);
        lemma_line_feed_is_blank(x, l[k]);
        assert(t[k] is Blank);
    }
}

/// The line break before a place.
proof fn lemma_break_shape(x: Seq<u8>, floor: int, end: int)
    requires
        0 <= floor <= end <= x.len(),
    ensures
        floor <= assemble::break_before(x, floor, end) <= end,
        one_break(x.subrange(assemble::break_before(x, floor, end), end)),
{
    let at = assemble::break_before(x, floor, end);
    let sep = x.subrange(at, end);
    if at == end - 2 {
        assert(sep =~= seq![CR, LF]);
    } else if at == end - 1 && x[end - 1] == LF {
        assert(sep =~= seq![LF]);
    } else if at == end - 1 {
        assert(sep =~= seq![CR]);
    }
}

/// What follows the body of a task with a tag section: a line break that sets the section
/// apart, or nothing, and the section.
proof fn lemma_tail_rest(x: Seq<u8>) -> (parts: (Seq<u8>, Seq<u8>))
    requires
        task_tail(x).tags is Some,
        task_tail(x).bodies.len() > 0,
    ensures
        one_break(parts.0),
        is_section(parts.1),
        x.skip(tail_end(x)) == parts.0 + parts.1,
        task_tail(x).tags->0.start == tail_end(x) + parts.0.len(),
        parts.1 == bytes::slice_of(x, task_tail(x).tags->0),
{
    let l = tokenizer::lines_from(x, 0);
    let t = pieces::task_tokens(pieces::rows_of(x));
    let b = assemble::next_content(t, 0);
    let k = assemble::last_heading(t, t.len() as int);
    assemble::lemma_next_content(t, 0);
    tokenizer::lemma_lines_from(x, 0);
    lemma_section_of(x, k);
    assert(b < l.len());
    assert(tokenizer::line_ok(x, l[b]));
    let tag = l[k].start;
    let floor = l[b].start;
    lemma_break_shape(x, floor, tag);
    let end = tail_end(x);
    assert(end == tag || end == assemble::break_before(x, floor, tag));
    let sep = x.subrange(end, tag);
    let y = x.skip(tag);
    assert(x.skip(end) =~= sep + y);
    assert(y =~= bytes::slice_of(x, task_tail(x).tags->0));
    (sep, y)
}

/// The tail of a task with another body.
proof fn lemma_tail_replaced(x: Seq<u8>, new: Seq<u8>)
    requires
        told_apart(x, new),
        new.len() > 0 ==> !helpers::blank(readback::first_line(new)),
        pieces::follows(x.take(tail_start(x)), 0, new + x.skip(tail_end(x))),
    ensures
        ({
            let y = x.take(tail_start(x)) + (new + x.skip(tail_end(x)));
            &&& 0 <= tail_start(x) <= tail_end(x) <= x.len()
            &&& document::opt_slice(y, task_tail(y).tags) == document::opt_slice(
                x,
                task_tail(x).tags,
            )
            &&& document::concat_ranges(y, task_tail(y).bodies) == new
        }),
{
    lemma_gap(x);
    let g = x.take(tail_start(x));
    let rest = x.skip(tail_end(x));
    let y = g + (new + rest);
    let none = Seq::<u8>::empty();
    if task_tail(x).tags is None {
        assert(task_tail(x).bodies.len() > 0 ==> tail_end(x) == x.len());
        assert(rest =~= none);
        assert(new + rest =~= new);
        lemma_tail_untagged(g, new);
    } else if task_tail(x).bodies.len() > 0 {
        let (sep, section) = lemma_tail_rest(x);
        lemma_tail_tagged(g, new, sep, section);
        assert(bytes::slice_of(y, task_tail(y).tags->0) =~= section);
    } else {
        assert(y =~= x);
        assert(new =~= none);
    }
    if new.len() > 0 {
        let r = Span { start: g.len() as int, end: (g + new).len() as int };
        assert(seq![r].drop_last() =~= Seq::<Span>::empty());
        assert(document::concat_ranges(y, seq![r].drop_last()) =~= none);
        assert(bytes::slice_of(y, r) =~= new);
        assert(document::concat_ranges(y, seq![r]) =~= new);
    } else {
        assert(document::concat_ranges(y, Seq::empty()) =~= none);
        assert(new =~= none);
    }
}

/// What follows a head of whole lines has no part in a byte-order mark.
pub proof fn lemma_same_preamble(a: Seq<u8>, x: Seq<u8>, y: Seq<u8>)
    requires
        a.len() > tokenizer::preamble_len(a + x),
        pieces::follows(a, tokenizer::preamble_len(a + x), y),
        pieces::follows(a, tokenizer::preamble_len(a + x), x),
    ensures
        tokenizer::preamble_len(a + y) == tokenizer::preamble_len(a + x),
{
    let s = a + x;
    let source = a + y;
    let n = a.len() as int;
    assert(source[0] == a[0] && s[0] == a[0]);
    if n >= 2 {
        assert(source[1] == a[1] && s[1] == a[1]);
    }
    if n >= 3 {
        assert(source[2] == a[2] && s[2] == a[2]);
    }
}

/// A body can be told from the parts of a task around it: it does not start with a blank line,
/// it starts on a line of its own, and it can be told from the tag section. A task with a tag
/// section and no body has no place for one.
pub open spec fn task_separable(doc: DocumentView, new: Seq<u8>) -> bool {
    let s = doc.source;
    let v = doc.partition.bodies;
    let at = readback::body_start(doc);
    let end = if v.len() > 0 {
        v[0].end
    } else {
        s.len() as int
    };
    &&& new.len() > 0 ==> !helpers::blank(readback::first_line(new))
    &&& pieces::follows(s.take(at), tokenizer::preamble_len(s), new + s.skip(end))
    &&& match doc.partition.tags {
        None => task_tail(new).tags is None,
        Some(tag) => {
            &&& v.len() > 0 || new.len() == 0
            &&& new.len() > 0 ==> readback::whole_lines(new, 0, s.skip(end)) && (tag.start == end
                ==> !assemble::ends_with_empty_line(new, 0, new.len() as int))
        },
    }
}

/// The new body of a task reads back as it was written, and its title and its tag section stay.
/// This leaves out a body that cannot be told from what stands around it: one that starts with
/// a blank line, that does not end with a line break before a tag section, that brings a tag
/// section of its own, or any for a task with a tag section and no body.
#[verifier::rlimit(40)]
#[verifier::spinoff_prover]
pub proof fn law_replaced_task_body_reads_back(doc: DocumentView, new_body: Seq<u8>)
    requires
        parser::parsed_as(doc.source, DocumentKind::Todo) == Ok::<DocumentView, NbErrorView>(doc),
        task_separable(doc, new_body),
    ensures
        ({
            let source = lines::body_replaced(doc, new_body)->Ok_0;
            let after = parser::parsed_as(source, DocumentKind::Todo)->Ok_0;
            &&& lines::body_replaced(doc, new_body) is Ok
            &&& parser::parsed_as(source, DocumentKind::Todo) is Ok
            &&& after.body() == new_body
            &&& document::opt_slice(source, after.partition.title) == document::opt_slice(
                doc.source,
                doc.partition.title,
            )
            &&& document::opt_slice(source, after.partition.tags) == document::opt_slice(
                doc.source,
                doc.partition.tags,
            )
        }),
{
    let s = doc.source;
    let h = lemma_task_parts(s);
    let p = tokenizer::preamble_len(s);
    let r = tokenizer::source_lines(s)[h].span();
    let a = s.take(r.end);
    let x = s.skip(r.end);
    let n = a.len() as int;
    lemma_task_tail(a, x, h);
    lemma_task_reads(a, x, h);
    lemma_tail_within(x);
    let g = x.take(tail_start(x));
    let rest = x.skip(tail_end(x));
    if task_tail(x).bodies.len() > 0 {
        assert(doc.partition.bodies[0] == pieces::moved(task_tail(x).bodies[0], n));
        assert(bytes::span_within(task_tail(x).bodies[0], x.len() as int));
    }
    let at = readback::body_start(doc);
    assert(at == n + tail_start(x));
    assert(s.take(at) =~= a + g);
    assert(s.skip(n + tail_end(x)) =~= rest);
    if g.len() > 0 {
        assert((a + g).last() == g.last());
    }
    lemma_tail_replaced(x, new_body);
    let y = g + (new_body + rest);
    let source = a + y;
    assert(source =~= lines::body_replaced(doc, new_body)->Ok_0);
    assert(pieces::follows(a, p, y)) by {
        if g.len() > 0 {
            assert(y[0] == x[0]);
        } else {
            assert(y =~= new_body + rest);
            assert(a + g =~= a);
        }
    }
    lemma_same_preamble(a, x, y);
    lemma_task_tail(a, y, h);
    lemma_task_reads(a, y, h);
    let line = tokenizer::lines_from(a, p)[h].span();
    assert(bytes::slice_of(source, line) =~= bytes::slice_of(s, line));
}

} // verus!
