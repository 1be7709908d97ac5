//! What is read back of a note after its body was written.

use crate::bytes;
use crate::bytes::{Span, CR, LF};
use crate::error::NbErrorView;
use crate::lines;
use crate::parser;
use crate::parser::assemble;
use crate::parser::classify;
use crate::parser::document;
use crate::parser::document::{DocumentKind, DocumentView};
use crate::parser::types::Token;
use crate::tokenizer;
use crate::tokenizer::LineSpan;
use vstd::prelude::*;

verus! {

/// The content of the first line of some bytes.
pub open spec fn first_line(x: Seq<u8>) -> Seq<u8> {
    x.take(tokenizer::line_end(x, 0))
}

/// The bytes from `i` on end with a whole line, and what follows does not continue its break.
pub open spec fn whole_lines(head: Seq<u8>, i: int, rest: Seq<u8>) -> bool {
    i < head.len() ==> bytes::is_line_break(head.last()) && !(head.last() == CR && rest.len() > 0
        && rest[0] == LF)
}

/// The lines of two byte strings, the first of which ends with a whole line, are those of the
/// first and then the others.
pub proof fn lemma_lines_join(a: Seq<u8>, x: Seq<u8>, i: int)
    requires
        0 <= i <= a.len(),
        whole_lines(a, i, x),
    ensures
        tokenizer::lines_from(a + x, i) == tokenizer::lines_from(a, i) + tokenizer::lines_from(
            a + x,
            a.len() as int,
        ),
    decreases a.len() - i,
{
    let s = a + x;
    if i == a.len() {
        assert(tokenizer::lines_from(a, i) =~= Seq::<LineSpan>::empty());
        assert(tokenizer::lines_from(s, i) =~= tokenizer::lines_from(a, i)
            + tokenizer::lines_from(s, i));
    } else {
        let p = tokenizer::breaks();
        let e = tokenizer::line_end(a, i);
        bytes::lemma_find_from(a, p, i);
        assert(p(a[a.len() - 1]));
        assert(e < a.len());
        assert forall|k: int| i <= k < e implies !p(#[trigger] s[k]) by {
            assert(!p(a[k]));
        }
        assert(s[e] == a[e]);
        bytes::lemma_find_from_is(s, p, i, e);
        tokenizer::lemma_line_at(a, i);
        let line = tokenizer::line_at(a, i);
        assert(tokenizer::line_at(s, i) == line);
        lemma_lines_join(a, x, line.end);
        assert(tokenizer::lines_from(s, i) =~= tokenizer::lines_from(a, i)
            + tokenizer::lines_from(s, a.len() as int));
    }
}

/// A line that ends with a line feed.
pub proof fn lemma_line_here(s: Seq<u8>, i: int, e: int)
    requires
        0 <= i <= e < s.len(),
        s[e] == LF,
        forall|k: int| i <= k < e ==> !bytes::is_line_break(#[trigger] s[k]),
    ensures
        tokenizer::lines_from(s, i) == seq![LineSpan { start: i, content_end: e, end: e + 1 }]
            + tokenizer::lines_from(s, e + 1),
{
    let p = tokenizer::breaks();
    assert forall|k: int| i <= k < e implies !p(#[trigger] s[k]) by {
        assert(!bytes::is_line_break(s[k]));
    }
    bytes::lemma_find_from_is(s, p, i, e);
}

/// The first line behind a prefix.
pub proof fn lemma_first_line_behind(a: Seq<u8>, x: Seq<u8>)
    requires
        x.len() > 0,
    ensures
        ({
            let l = tokenizer::lines_from(a + x, a.len() as int);
            l.len() > 0 && l[0].start == a.len() && l[0].content(a + x) == first_line(x)
        }),
{
    let s = a + x;
    bytes::lemma_find_behind(a, x, tokenizer::breaks(), 0);
    bytes::lemma_find_from(x, tokenizer::breaks(), 0);
    tokenizer::lemma_line_at(s, a.len() as int);
    assert(tokenizer::line_at(s, a.len() as int).content(s) =~= first_line(x));
}

/// Where the body of a note starts, or would start.
pub open spec fn body_start(doc: DocumentView) -> int {
    if doc.partition.bodies.len() > 0 {
        doc.partition.bodies[0].start
    } else {
        doc.source.len() as int
    }
}

/// A line would be taken for the first line of the body of a note with or without a title and
/// a tag line: it is not blank, and not a tag line or a title that the note still lacks.
pub open spec fn opens_body(titled: bool, tagged: bool, line: Seq<u8>) -> bool {
    let token = classify::note_token(line);
    &&& token !is Blank
    &&& !(token is TagsPrefix && !tagged)
    &&& !(assemble::is_title(token) && !titled && !tagged)
}

/// A body can be told from the parts of a note that it follows: it is not empty line by line
/// at its start, does not look like a part that the note lacks, starts on a line of its own,
/// and is not taken for a byte-order mark.
pub open spec fn separable(doc: DocumentView, x: Seq<u8>) -> bool {
    let at = body_start(doc);
    x.len() > 0 ==> {
        &&& opens_body(doc.partition.title is Some, doc.partition.tags is Some, first_line(x))
        &&& at > tokenizer::preamble_len(doc.source) ==> bytes::is_line_break(doc.source[at - 1])
        &&& at == 0 ==> tokenizer::preamble_len(x) == 0
    }
}

/// Where the next content is does not depend on what follows a line that has some.
proof fn lemma_same_next(t: Seq<Token>, t2: Seq<Token>, from: int, b: int)
    requires
        0 <= from <= b <= t.len(),
        b <= t2.len(),
        forall|k: int| 0 <= k < b ==> t2[k] == #[trigger] t[k],
        b < t2.len() ==> t2[b] !is Blank,
        assemble::next_content(t, from) <= b,
    ensures
        assemble::next_content(t2, from) == assemble::next_content(t, from),
{
    assemble::lemma_next_content(t, from);
    let n = assemble::next_content(t, from);
    let p = assemble::has_content();
    assert forall|k: int| from <= k < n implies !p(#[trigger] t2[k]) by {
        assert(t[k] is Blank);
    }
    if n < b {
        assert(t2[n] == t[n]);
        assert(p(t2[n]));
    } else if b < t2.len() {
        assert(p(t2[b]));
    } else {
        assert(n == t2.len());
    }
    bytes::lemma_find_from_is(t2, p, from, n);
}

/// The lines of a source before a line that starts at `at`, and those of the same source with
/// something else from there on.
#[verifier::rlimit(40)]
#[verifier::spinoff_prover]
proof fn lemma_lines_of_new_rest(s: Seq<u8>, at: int, x: Seq<u8>, b: int)
    requires
        0 <= b <= tokenizer::source_lines(s).len(),
        assemble::line_start(s, tokenizer::source_lines(s), b) == at,
        x.len() > 0 ==> x[0] != LF && (at > tokenizer::preamble_len(s) ==> bytes::is_line_break(
            s[at - 1],
        )) && (at == 0 ==> tokenizer::preamble_len(x) == 0),
    ensures
        ({
            let s2 = s.take(at) + x;
            let l = tokenizer::source_lines(s);
            let l2 = tokenizer::source_lines(s2);
            &&& tokenizer::preamble_len(s2) == tokenizer::preamble_len(s)
            &&& b <= l2.len()
            &&& x.len() == 0 ==> l2.len() == b
            &&& x.len() > 0 ==> b < l2.len() && l2[b].start == at && l2[b].content(s2)
                == first_line(x)
            &&& forall|k: int| 0 <= k < b ==> l2[k] == #[trigger] l[k]
            &&& forall|k: int|
                0 <= k < b ==> l2[k].content(s2) == (#[trigger] l[k]).content(s)
        }),
{
    let a = s.take(at);
    let s2 = a + x;
    let l = tokenizer::source_lines(s);
    let p = tokenizer::preamble_len(s);
    assemble::lemma_source_lines(s);
    assert(p <= at <= s.len()) by {
        if b > 0 {
            assemble::lemma_line_starts(s, l, 0, b);
        }
    }
    if b > 0 {
        assemble::lemma_line_ends(s, l, b - 1);
    }
    // The lines of the old note.
    let rest = s.skip(at);
    assert(a + rest =~= s);
    if at < s.len() || x.len() > 0 {
        assert(whole_lines(a, p, rest));
        lemma_lines_join(a, rest, p);
    } else {
        assert(rest =~= Seq::<u8>::empty());
        assert(a =~= s);
        assert(tokenizer::lines_from(s, at) =~= Seq::<LineSpan>::empty());
        assert(l =~= tokenizer::lines_from(a, p) + tokenizer::lines_from(s, at));
    }
    let la = tokenizer::lines_from(a, p);
    assert(l == la + tokenizer::lines_from(s, at));
    tokenizer::lemma_lines_from(a, p);
    assert(la.len() == b) by {
        if at < s.len() {
            lemma_first_line_behind(a, rest);
            assert(l[la.len() as int].start == at);
            if b < la.len() {
                assemble::lemma_line_starts(s, l, b, la.len() as int);
            } else if la.len() < b {
                assemble::lemma_line_starts(s, l, la.len() as int, b);
            }
        } else {
            assert(tokenizer::lines_from(s, at) =~= Seq::<LineSpan>::empty());
            assert(l =~= la);
            if b < l.len() {
                assemble::lemma_line_starts(s, l, b, l.len() as int);
            }
        }
    }
    // The lines of the new one.
    assert(tokenizer::preamble_len(s2) == p) by {
        if at > 0 && at < 3 && x.len() > 0 && p == 0 {
            assert(s2[at - 1] == s[at - 1]);
        }
        if at == 0 {
            assert(s2 =~= x);
        }
    }
    if x.len() > 0 {
        assert(whole_lines(a, p, x));
        lemma_lines_join(a, x, p);
        lemma_first_line_behind(a, x);
    } else {
        assert(s2 =~= a);
    }
    let l2 = tokenizer::source_lines(s2);
    assert forall|k: int| 0 <= k < b implies l2[k] == #[trigger] l[k] && l2[k].content(s2)
        == l[k].content(s) by {
        assert(l[k] == la[k]);
        assert(l2[k] == la[k]);
        assert(tokenizer::line_ok(a, la[k]));
        assert(l2[k].content(s2) =~= l[k].content(s));
    }
}

/// The line with which the body of a note starts.
pub open spec fn body_line(t: Seq<Token>) -> int {
    let h = assemble::next_content(t, 0);
    let titled = h < t.len() && assemble::is_title(t[h]);
    let u = if titled {
        assemble::next_content(t, h + 1)
    } else {
        h
    };
    if u < t.len() && t[u] is TagsPrefix {
        assemble::next_content(t, u + 1)
    } else {
        u
    }
}

/// The title and the tag line of a note stand before its body.
proof fn lemma_body_line(s: Seq<u8>, l: Seq<LineSpan>, t: Seq<Token>)
    requires
        assemble::fits(s, l, t),
    ensures
        ({
            let p = assemble::note_partition(s, l, t);
            let b = body_line(t);
            &&& 0 <= b <= l.len()
            &&& p.bodies == assemble::rest_from(l, b, s.len() as int)
            &&& p.title matches Some(r) ==> 0 <= r.start <= r.end <= assemble::line_start(s, l, b)
            &&& p.tags matches Some(r) ==> 0 <= r.start <= r.end <= assemble::line_start(s, l, b)
        }),
{
    let h = assemble::next_content(t, 0);
    assemble::lemma_next_content(t, 0);
    let titled = h < t.len() && assemble::is_title(t[h]);
    if titled {
        assemble::lemma_next_content(t, h + 1);
    }
    let u = if titled {
        assemble::next_content(t, h + 1)
    } else {
        h
    };
    let tagged = u < t.len() && t[u] is TagsPrefix;
    if tagged {
        assemble::lemma_next_content(t, u + 1);
    }
    let b = body_line(t);
    if titled {
        assemble::lemma_line_ends(s, l, h);
        assemble::lemma_line_starts(s, l, h, b);
    }
    if tagged {
        assemble::lemma_line_ends(s, l, u);
        assemble::lemma_line_starts(s, l, u, b);
    }
}

/// A note whose lines before the body are those of another has the same title and tag line.
proof fn lemma_same_head(
    s: Seq<u8>,
    l: Seq<LineSpan>,
    t: Seq<Token>,
    s2: Seq<u8>,
    l2: Seq<LineSpan>,
    t2: Seq<Token>,
)
    requires
        assemble::fits(s, l, t),
        assemble::fits(s2, l2, t2),
        body_line(t) <= t2.len(),
        forall|k: int| 0 <= k < body_line(t) ==> l2[k] == #[trigger] l[k],
        forall|k: int| 0 <= k < body_line(t) ==> t2[k] == #[trigger] t[k],
        body_line(t) < t2.len() ==> ({
            let p = assemble::note_partition(s, l, t);
            let token = t2[body_line(t)];
            &&& token !is Blank
            &&& !(token is TagsPrefix && p.tags is None)
            &&& !(assemble::is_title(token) && p.title is None && p.tags is None)
        }),
    ensures
        body_line(t2) == body_line(t),
        assemble::note_partition(s2, l2, t2).title == assemble::note_partition(s, l, t).title,
        assemble::note_partition(s2, l2, t2).tags == assemble::note_partition(s, l, t).tags,
{
    let b = body_line(t);
    let h = assemble::next_content(t, 0);
    assemble::lemma_next_content(t, 0);
    let titled = h < t.len() && assemble::is_title(t[h]);
    if titled {
        assemble::lemma_next_content(t, h + 1);
    }
    let u = if titled {
        assemble::next_content(t, h + 1)
    } else {
        h
    };
    let tagged = u < t.len() && t[u] is TagsPrefix;
    if tagged {
        assemble::lemma_next_content(t, u + 1);
    }
    lemma_same_next(t, t2, 0, b);
    if h < b {
        assert(t2[h] == t[h]);
        assert(l2[h] == l[h]);
    }
    if titled {
        lemma_same_next(t, t2, h + 1, b);
    }
    if u < b {
        assert(t2[u] == t[u]);
        assert(l2[u] == l[u]);
    }
    if tagged {
        lemma_same_next(t, t2, u + 1, b);
    }
}

/// The bytes of one range to the end.
pub proof fn lemma_body_of(s: Seq<u8>, at: int, x: Seq<u8>)
    requires
        0 <= at <= s.len(),
        s.skip(at) == x,
    ensures
        document::concat_ranges(s, seq![Span { start: at, end: s.len() as int }]) == x,
        document::concat_ranges(s, Seq::empty()) == Seq::<u8>::empty(),
{
    let r = Span { start: at, end: s.len() as int };
    assert(seq![r].drop_last() =~= Seq::<Span>::empty());
    assert(document::concat_ranges(s, seq![r].drop_last()) =~= Seq::<u8>::empty());
    assert(bytes::slice_of(s, r) =~= x);
    assert(document::concat_ranges(s, seq![r]) =~= x);
}

/// The tokens of a note with another body.
proof fn lemma_tokens_of_new_rest(s: Seq<u8>, at: int, x: Seq<u8>, b: int)
    requires
        0 <= b <= tokenizer::source_lines(s).len(),
        assemble::line_start(s, tokenizer::source_lines(s), b) == at,
        x.len() > 0 ==> x[0] != LF && (at > tokenizer::preamble_len(s) ==> bytes::is_line_break(
            s[at - 1],
        )) && (at == 0 ==> tokenizer::preamble_len(x) == 0),
    ensures
        ({
            let s2 = s.take(at) + x;
            let t = parser::tokens_of(s, DocumentKind::Note);
            let t2 = parser::tokens_of(s2, DocumentKind::Note);
            &&& b <= t2.len()
            &&& x.len() == 0 ==> t2.len() == b
            &&& x.len() > 0 ==> b < t2.len() && t2[b] == classify::note_token(first_line(x))
            &&& forall|k: int| 0 <= k < b ==> t2[k] == #[trigger] t[k]
        }),
{
    lemma_lines_of_new_rest(s, at, x, b);
    let s2 = s.take(at) + x;
    let l = tokenizer::source_lines(s);
    let l2 = tokenizer::source_lines(s2);
    let t = parser::tokens_of(s, DocumentKind::Note);
    let t2 = parser::tokens_of(s2, DocumentKind::Note);
    assert forall|k: int| 0 <= k < b implies t2[k] == #[trigger] t[k] by {
        assert(l2[k].content(s2) == l[k].content(s));
        assert(t[k] == classify::note_token(l[k].content(s)));
        assert(t2[k] == classify::note_token(l2[k].content(s2)));
    }
}

/// A blank line is no first line of a body.
proof fn lemma_opening_line(titled: bool, tagged: bool, x: Seq<u8>)
    requires
        x.len() > 0,
        opens_body(titled, tagged, first_line(x)),
    ensures
        x[0] != LF,
{
    if x[0] == LF {
        assert(tokenizer::breaks()(x[0]));
        assert(first_line(x) =~= Seq::<u8>::empty());
        assert(crate::parser::helpers::blank(first_line(x)));
    }
}

/// The partition of a note with another body.
#[verifier::rlimit(40)]
#[verifier::spinoff_prover]
proof fn lemma_partition_of_new_body(s: Seq<u8>, at: int, x: Seq<u8>)
    requires
        at == body_start(DocumentView {
            source: s,
            partition: parser::partition_of(s, DocumentKind::Note)->0,
        }),
        separable(
            DocumentView { source: s, partition: parser::partition_of(s, DocumentKind::Note)->0 },
            x,
        ),
    ensures
        ({
            let s2 = s.take(at) + x;
            let p = parser::partition_of(s, DocumentKind::Note)->0;
            let p2 = parser::partition_of(s2, DocumentKind::Note)->0;
            &&& 0 <= at <= s.len()
            &&& p2.title == p.title
            &&& p2.tags == p.tags
            &&& p.title matches Some(r) ==> 0 <= r.start <= r.end <= at
            &&& p.tags matches Some(r) ==> 0 <= r.start <= r.end <= at
            &&& p2.bodies == (if x.len() > 0 {
                seq![Span { start: at, end: s2.len() as int }]
            } else {
                Seq::empty()
            })
        }),
{
    let l = tokenizer::source_lines(s);
    let t = parser::tokens_of(s, DocumentKind::Note);
    let b = body_line(t);
    let p = parser::partition_of(s, DocumentKind::Note)->0;
    lemma_body_line(s, l, t);
    assemble::lemma_source_lines(s);
    assert(assemble::line_start(s, l, b) == at);
    assert(0 <= at <= s.len()) by {
        if b > 0 {
            assemble::lemma_line_starts(s, l, 0, b);
        }
    }
    if x.len() > 0 {
        lemma_opening_line(p.title is Some, p.tags is Some, x);
    }
    lemma_lines_of_new_rest(s, at, x, b);
    lemma_tokens_of_new_rest(s, at, x, b);
    let s2 = s.take(at) + x;
    let l2 = tokenizer::source_lines(s2);
    let t2 = parser::tokens_of(s2, DocumentKind::Note);
    lemma_same_head(s, l, t, s2, l2, t2);
    lemma_body_line(s2, l2, t2);
}

/// The new body of a note reads back as it was written, and the title and the tag line of the
/// note stay. This leaves out the bodies that cannot be told from what they follow, such as one
/// that starts with a blank line, or a tag line as the body of a note without one.
pub proof fn law_replaced_body_reads_back(doc: DocumentView, new_body: Seq<u8>)
    requires
        parser::parsed_as(doc.source, DocumentKind::Note) == Ok::<DocumentView, NbErrorView>(doc),
        separable(doc, new_body),
    ensures
        ({
            let source = lines::body_replaced(doc, new_body)->Ok_0;
            let after = parser::parsed_as(source, DocumentKind::Note)->Ok_0;
            &&& lines::body_replaced(doc, new_body) is Ok
            &&& parser::parsed_as(source, DocumentKind::Note) is Ok
            &&& after.body() == new_body
            &&& document::opt_slice(source, after.partition.title) == document::opt_slice(
                doc.source,
                doc.partition.title,
            )
            &&& document::opt_slice(source, after.partition.tags) == document::opt_slice(
                doc.source,
                doc.partition.tags,
            )
        }),
{
    let s = doc.source;
    let at = body_start(doc);
    lemma_partition_of_new_body(s, at, new_body);
    let l = tokenizer::source_lines(s);
    lemma_body_line(s, l, parser::tokens_of(s, DocumentKind::Note));
    let s2 = s.take(at) + new_body;
    assert(lines::body_replaced(doc, new_body)->Ok_0 =~= s2);
    if let Some(r) = doc.partition.title {
        assert(bytes::slice_of(s2, r) =~= bytes::slice_of(s, r));
    }
    if let Some(r) = doc.partition.tags {
        assert(bytes::slice_of(s2, r) =~= bytes::slice_of(s, r));
    }
    assert(s2.skip(at) =~= new_body);
    lemma_body_of(s2, at, new_body);
    assert(new_body.len() == 0 ==> new_body =~= Seq::<u8>::empty());
}

} // verus!
