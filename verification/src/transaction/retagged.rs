//! What is read back of a note or a task whose tags were edited.

use crate::bytes;
use crate::bytes::{Span, HASH, LF};
use crate::error::NbErrorView;
use crate::lines;
use crate::parser;
use crate::parser::assemble;
use crate::parser::classify;
use crate::parser::document;
use crate::parser::document::{DocumentKind, DocumentView};
use crate::parser::helpers;
use crate::parser::retitled;
use crate::parser::types::Token;
use crate::text;
use crate::tokenizer;
use crate::tokenizer::LineSpan;
use crate::transaction::content;
use crate::transaction::created;
use crate::transaction::readback;
use vstd::prelude::*;

verus! {

/// A tag without its `#` that is one word.
pub open spec fn clean(tag: Seq<char>) -> bool {
    tag.len() > 0 && !tag.contains(' ') && !tag.contains('\t') && !tag.contains('#')
        && readback::on_one_line(tag)
}

/// The bytes of each tag.
pub open spec fn tags_bytes(tags: Seq<Seq<char>>) -> Seq<Seq<u8>> {
    tags.map_values(|t: Seq<char>| vstd::utf8::encode_utf8(t))
}

/// A line of clean tags.
pub proof fn lemma_clean_line(tags: Seq<Seq<char>>)
    requires
        tags.len() > 0,
        forall|k: int| 0 <= k < tags.len() ==> clean(#[trigger] tags[k]),
    ensures
        vstd::utf8::encode_utf8(content::hashed(tags)) == readback::hashed_line(tags_bytes(tags)),
        forall|k: int|
            0 <= k < tags.len() ==> readback::word_bytes(#[trigger] tags_bytes(tags)[k]),
{
    reveal_strlit("#");
    assert forall|k: int| 0 <= k < tags.len() implies readback::plain(#[trigger] tags[k])
        && content::tag_text(tags[k]) == "#"@ + tags[k] && readback::word(tags[k]) == tags[k] by {
        let t = tags[k];
        assert(clean(t));
        if t[0] == '#' {
            assert(t.contains('#'));
        }
        assert(("#"@ + t).skip(1) =~= t);
    }
    assert(tags.map_values(|t: Seq<char>| content::tag_text(t)) =~= tags.map_values(
        |t: Seq<char>| "#"@ + t,
    ));
    assert(readback::words(tags) =~= tags_bytes(tags));
    readback::lemma_tags_bytes(tags);
}

/// Two or more words make a tag line.
proof fn lemma_line_token(v: Seq<Seq<u8>>)
    requires
        v.len() >= 2,
        forall|k: int| 0 <= k < v.len() ==> readback::word_bytes(#[trigger] v[k]),
    ensures
        classify::note_token(readback::hashed_line(v)) is TagsPrefix,
        readback::unbroken(readback::hashed_line(v)),
        readback::hashed_line(v).len() > 0,
        readback::hashed_line(v)[0] == HASH,
{
    let line = readback::hashed_line(v);
    readback::lemma_hashed_unbroken(v);
    assert(line.skip(0) =~= line);
    readback::lemma_tags_from(line, 0, v);
    assert(!helpers::blank(line)) by {
        assert(!bytes::is_space_or_tab(line[0]));
    }
}

/// A head of blank lines, an optional title and a tag line, at lines `h` and `u`; -1 for no
/// title.
pub open spec fn heads(t: Seq<Token>, h: int, u: int) -> bool {
    &&& -1 <= h < u < t.len()
    &&& h >= 0 ==> assemble::is_title(t[h])
    &&& t[u] is TagsPrefix
    &&& forall|k: int| 0 <= k < t.len() && k != h && k != u ==> (#[trigger] t[k]) is Blank
}

/// Where the parts of a note with such a head stand.
#[verifier::rlimit(40)]
#[verifier::spinoff_prover]
proof fn lemma_tagged_indices(
    s: Seq<u8>,
    l: Seq<LineSpan>,
    ta: Seq<Token>,
    tx: Seq<Token>,
    h: int,
    u: int,
)
    requires
        heads(ta, h, u),
    ensures
        ({
            let p = assemble::note_partition(s, l, ta + tx);
            let q = assemble::next_content(tx, 0);
            &&& 0 <= q <= tx.len()
            &&& p.title == assemble::span_if(l, h, h >= 0)
            &&& p.tags == Some(l[u].span())
            &&& p.bodies == assemble::rest_from(l, ta.len() + q, s.len() as int)
        }),
{
    let t = ta + tx;
    let full = assemble::has_content();
    let first = if h >= 0 {
        h
    } else {
        u
    };
    assert forall|k: int| 0 <= k < first implies !full(#[trigger] t[k]) by {
        assert(ta[k] is Blank);
    }
    assert(t[first] == ta[first] && full(t[first]));
    assert(t[u] == ta[u] && full(t[u]));
    bytes::lemma_find_from_is(t, full, 0, first);
    if h >= 0 {
        assert forall|k: int| h + 1 <= k < u implies !full(#[trigger] t[k]) by {
            assert(ta[k] is Blank);
        }
        bytes::lemma_find_from_is(t, full, h + 1, u);
    }
    assemble::lemma_next_content(tx, 0);
    retitled::lemma_next_behind(ta, tx, u + 1, 0);
}

/// The range from the first line with content in `x` on, behind a head of `n` bytes.
pub open spec fn rest_behind(x: Seq<u8>, n: int) -> Seq<Span> {
    let l = tokenizer::lines_from(x, 0);
    let q = assemble::next_content(retitled::tail_tokens(x), 0);
    if q < l.len() {
        seq![Span { start: n + l[q].start, end: n + x.len() }]
    } else {
        Seq::empty()
    }
}

/// The bytes from the first line with content on.
pub open spec fn rest_of(x: Seq<u8>) -> Seq<u8> {
    let l = tokenizer::lines_from(x, 0);
    let q = assemble::next_content(retitled::tail_tokens(x), 0);
    if q < l.len() {
        x.skip(l[q].start)
    } else {
        Seq::empty()
    }
}

/// What that range holds.
proof fn lemma_rest_read(a: Seq<u8>, x: Seq<u8>)
    ensures
        document::concat_ranges(a + x, rest_behind(x, a.len() as int)) == rest_of(x),
{
    let s = a + x;
    let n = a.len() as int;
    let l = tokenizer::lines_from(x, 0);
    let t = retitled::tail_tokens(x);
    let q = assemble::next_content(t, 0);
    assemble::lemma_next_content(t, 0);
    tokenizer::lemma_lines_from(x, 0);
    if q < l.len() {
        assert(tokenizer::line_ok(x, l[q]));
        retitled::lemma_slices_behind(a, x, l[q]);
        parser::readback::lemma_body_of(s, n + l[q].start, x.skip(l[q].start));
    } else {
        parser::readback::lemma_body_of(s, s.len() as int, s.skip(s.len() as int));
    }
}

/// The partition of a note with such a head.
proof fn lemma_tagged_partition(a: Seq<u8>, x: Seq<u8>, h: int, u: int)
    requires
        tokenizer::preamble_len(a + x) <= a.len(),
        x.len() > 0 ==> parser::readback::whole_lines(a, tokenizer::preamble_len(a + x), x),
        heads(
            classify::note_tokens(
                a,
                tokenizer::lines_from(a, tokenizer::preamble_len(a + x)),
            ),
            h,
            u,
        ),
    ensures
        ({
            let la = tokenizer::lines_from(a, tokenizer::preamble_len(a + x));
            let p = parser::partition_of(a + x, DocumentKind::Note)->0;
            &&& p.title == assemble::span_if(la, h, h >= 0)
            &&& p.tags == Some(la[u].span())
            &&& p.bodies == rest_behind(x, a.len() as int)
        }),
{
    let s = a + x;
    let n = a.len() as int;
    let la = tokenizer::lines_from(a, tokenizer::preamble_len(s));
    let lx = tokenizer::lines_from(x, 0);
    let l = tokenizer::source_lines(s);
    let ta = classify::note_tokens(a, la);
    let tx = retitled::tail_tokens(x);
    retitled::lemma_head_and_tail(a, x);
    lemma_tagged_indices(s, l, ta, tx, h, u);
    let q = assemble::next_content(tx, 0);
    assert(h >= 0 ==> l[h] == la[h]);
    assert(l[u] == la[u]);
    assert(q < lx.len() ==> l[la.len() + q] == retitled::moved(lx[q], n));
}

/// What a note with edited tags reads back as.
pub open spec fn note_reads(doc: DocumentView, source: Seq<u8>, tags: Seq<Seq<char>>) -> bool {
    let after = parser::parsed_as(source, DocumentKind::Note)->Ok_0;
    &&& parser::parsed_as(source, DocumentKind::Note) is Ok
    &&& document::opt_slice(source, after.partition.title) == document::opt_slice(
        doc.source,
        doc.partition.title,
    )
    &&& document::slices(source, after.tag_spans()) == tags_bytes(tags)
    &&& after.body() == doc.body()
}

/// The tags of a tag line.
proof fn lemma_line_tags(s: Seq<u8>, r: Span, v: Seq<Seq<u8>>)
    requires
        0 <= r.start <= r.end <= s.len(),
        bytes::slice_of(s, r) == readback::hashed_line(v).push(LF),
        v.len() > 0,
        forall|k: int| 0 <= k < v.len() ==> readback::word_bytes(#[trigger] v[k]),
    ensures
        document::slices(s, helpers::tag_tokens_in(s, Some(r))) == v,
{
    let line = bytes::slice_of(s, r);
    assert(line.skip(0) =~= readback::hashed_line(v) + seq![LF]);
    readback::lemma_tokens_from(line, 0, v);
    let inner = helpers::tag_tokens(line, 0);
    let got = document::slices(s, helpers::tag_tokens_in(s, Some(r)));
    assert forall|k: int| 0 <= k < v.len() implies got[k] == #[trigger] v[k] by {
        assert(0 <= inner[k].start <= inner[k].end <= line.len());
        assert(bytes::slice_of(line, inner[k]) == v[k]);
        assert(got[k] =~= bytes::slice_of(line, inner[k]));
    }
    assert(got =~= v);
}

/// The head of a note with a tag line.
proof fn lemma_tagged_head(s: Seq<u8>) -> (x: (int, int))
    requires
        parser::partition_of(s, DocumentKind::Note)->0.tags is Some,
    ensures
        ({
            let l = tokenizer::source_lines(s);
            let t = parser::tokens_of(s, DocumentKind::Note);
            let p = parser::partition_of(s, DocumentKind::Note)->0;
            let (h, u) = x;
            &&& -1 <= h < u < l.len()
            &&& h >= 0 ==> assemble::is_title(t[h])
            &&& t[u] is TagsPrefix
            &&& forall|k: int| 0 <= k < u && k != h ==> (#[trigger] t[k]) is Blank
            &&& p.title == assemble::span_if(l, h, h >= 0)
            &&& p.tags == Some(l[u].span())
        }),
{
    let t = parser::tokens_of(s, DocumentKind::Note);
    let first = assemble::next_content(t, 0);
    assemble::lemma_next_content(t, 0);
    if first < t.len() && assemble::is_title(t[first]) {
        let u = assemble::next_content(t, first + 1);
        assemble::lemma_next_content(t, first + 1);
        (first, u)
    } else {
        (-1, first)
    }
}

/// The body of a note with a tag line.
#[verifier::rlimit(40)]
#[verifier::spinoff_prover]
proof fn lemma_tagged_body(s: Seq<u8>, h: int, u: int)
    requires
        -1 <= h < u < tokenizer::source_lines(s).len(),
        ({
            let t = parser::tokens_of(s, DocumentKind::Note);
            &&& h >= 0 ==> assemble::is_title(t[h])
            &&& t[u] is TagsPrefix
            &&& forall|k: int| 0 <= k < u && k != h ==> (#[trigger] t[k]) is Blank
        }),
    ensures
        ({
            let r = tokenizer::source_lines(s)[u].span();
            &&& 0 <= r.start < r.end <= s.len()
            &&& document::concat_ranges(s, parser::partition_of(s, DocumentKind::Note)->0.bodies)
                == rest_of(s.skip(r.end))
        }),
{
    let p = tokenizer::preamble_len(s);
    let l = tokenizer::source_lines(s);
    let t = parser::tokens_of(s, DocumentKind::Note);
    assemble::lemma_line_ends(s, l, u);
    let r = l[u].span();
    let a = s.take(r.end);
    let x = s.skip(r.end);
    retitled::lemma_lines_up_to(s, r.end, u);
    let ta = classify::note_tokens(a, tokenizer::lines_from(a, p));
    assert forall|k: int| 0 <= k < ta.len() && k != h && k != u implies (#[trigger] ta[k]) is Blank
        by {
        assert(ta[k] == t[k]);
    }
    assert(ta[u] == t[u]);
    assert(h >= 0 ==> ta[h] == t[h]);
    lemma_tagged_partition(a, x, h, u);
    lemma_rest_read(a, x);
}

/// The head of a note with another tag line.
#[verifier::rlimit(40)]
#[verifier::spinoff_prover]
proof fn lemma_new_tag_head(s: Seq<u8>, h: int, u: int, line: Seq<u8>)
    requires
        -1 <= h < u < tokenizer::source_lines(s).len(),
        ({
            let t = parser::tokens_of(s, DocumentKind::Note);
            &&& h >= 0 ==> assemble::is_title(t[h])
            &&& forall|k: int| 0 <= k < u && k != h ==> (#[trigger] t[k]) is Blank
        }),
        classify::note_token(line) is TagsPrefix,
        readback::unbroken(line),
        line.len() > 0,
        line[0] == HASH,
    ensures
        ({
            let l = tokenizer::source_lines(s);
            let r = l[u].span();
            let head = s.take(r.start) + line.push(LF);
            let x = s.skip(r.end);
            let part = parser::partition_of(head + x, DocumentKind::Note)->0;
            &&& 0 <= r.start < r.end <= s.len()
            &&& part.title == assemble::span_if(l, h, h >= 0)
            &&& part.tags == Some(Span { start: r.start, end: head.len() as int })
            &&& part.bodies == rest_behind(x, head.len() as int)
        }),
{
    let p = tokenizer::preamble_len(s);
    let l = tokenizer::source_lines(s);
    let t = parser::tokens_of(s, DocumentKind::Note);
    assemble::lemma_line_ends(s, l, u);
    let r = l[u].span();
    let front = s.take(r.start);
    let head = front + line.push(LF);
    let x = s.skip(r.end);
    retitled::lemma_lines_up_to(s, r.start, u);
    assert(s.skip(r.start).len() > 0);
    assert(line.push(LF)[0] == HASH);
    retitled::lemma_line_last(front, p, line);
    let source = head + x;
    assert(source[r.start] == line[0]);
    assert(r.start >= 3 ==> source[0] == s[0] && source[1] == s[1] && source[2] == s[2]);
    assert(tokenizer::preamble_len(source) == p);
    let lf = tokenizer::lines_from(front, p);
    let tf = classify::note_tokens(front, lf);
    let ta = classify::note_tokens(head, tokenizer::lines_from(head, p));
    assert forall|k: int| 0 <= k < u implies (#[trigger] ta[k]) == t[k] by {
        assert(ta[k] == tf[k]);
        assert(tf[k] == t[k]);
    }
    assert(h >= 0 ==> lf[h] == l[h]);
    assert(head.last() == LF);
    lemma_tagged_partition(head, x, h, u);
}

/// The line that clean tags make.
proof fn lemma_tag_line(tags: Seq<Seq<char>>)
    requires
        tags.len() >= 2,
        forall|k: int| 0 <= k < tags.len() ==> clean(#[trigger] tags[k]),
    ensures
        ({
            let v = tags_bytes(tags);
            let line = readback::hashed_line(v);
            &&& vstd::utf8::encode_utf8(content::hashed(tags) + "\n"@) == line.push(LF)
            &&& forall|k: int| 0 <= k < v.len() ==> readback::word_bytes(#[trigger] v[k])
            &&& classify::note_token(line) is TagsPrefix
            &&& readback::unbroken(line)
            &&& line.len() > 0
            &&& line[0] == HASH
        }),
{
    let v = tags_bytes(tags);
    lemma_clean_line(tags);
    assert forall|k: int| 0 <= k < v.len() implies readback::word_bytes(#[trigger] v[k]) by {
        assert(clean(tags[k]));
    }
    lemma_line_token(v);
    created::lemma_ended_bytes(content::hashed(tags));
}

/// A note with a tag line gets another one.
#[verifier::rlimit(40)]
#[verifier::spinoff_prover]
proof fn lemma_tags_exchanged(doc: DocumentView, tags: Seq<Seq<char>>)
    requires
        parser::parsed_as(doc.source, DocumentKind::Note) == Ok::<DocumentView, NbErrorView>(doc),
        tags.len() >= 2,
        forall|k: int| 0 <= k < tags.len() ==> clean(#[trigger] tags[k]),
        doc.partition.tags is Some,
    ensures
        note_reads(doc, content::note_tagged(doc, tags), tags),
{
    let s = doc.source;
    let l = tokenizer::source_lines(s);
    let v = tags_bytes(tags);
    let line = readback::hashed_line(v);
    lemma_tag_line(tags);
    let (h, u) = lemma_tagged_head(s);
    lemma_tagged_body(s, h, u);
    lemma_new_tag_head(s, h, u, line);
    let r = l[u].span();
    let head = s.take(r.start) + line.push(LF);
    let x = s.skip(r.end);
    let source = head + x;
    lemma_rest_read(head, x);
    let spot = Span { start: r.start, end: head.len() as int };
    assert(bytes::slice_of(source, spot) =~= line.push(LF));
    lemma_line_tags(source, spot, v);
    if h >= 0 {
        assemble::lemma_line_starts(s, l, h, u);
        assemble::lemma_line_ends(s, l, h);
        assert(bytes::slice_of(source, l[h].span()) =~= bytes::slice_of(s, l[h].span()));
    }
    assert(source =~= content::note_tagged(doc, tags));
}

/// A note without tags has its body where the content behind its title starts.
proof fn lemma_untagged_body(a: Seq<u8>, x: Seq<u8>)
    requires
        retitled::tags_behind(x, a.len() as int) is None,
    ensures
        document::concat_ranges(a + x, retitled::bodies_behind(x, a.len() as int)) == rest_of(x),
{
    assert(retitled::bodies_behind(x, a.len() as int) == rest_behind(x, a.len() as int));
    lemma_rest_read(a, x);
}

/// A tag line and an empty line after a head without tags.
proof fn lemma_line_added(a: Seq<u8>, p: int, line: Seq<u8>)
    requires
        0 <= p <= a.len(),
        p < a.len() ==> a.last() == LF,
        readback::unbroken(line),
        line.len() > 0,
        classify::note_token(line) is TagsPrefix,
    ensures
        ({
            let b = a + line.push(LF).push(LF);
            let la = tokenizer::lines_from(a, p);
            let lb = tokenizer::lines_from(b, p);
            let ta = classify::note_tokens(a, la);
            let tb = classify::note_tokens(b, lb);
            let u = la.len() as int;
            &&& lb.len() == u + 2
            &&& forall|k: int| 0 <= k < u ==> #[trigger] lb[k] == la[k]
            &&& forall|k: int| 0 <= k < u ==> #[trigger] tb[k] == ta[k]
            &&& tb[u] is TagsPrefix
            &&& tb[u + 1] is Blank
            &&& lb[u].span() == (Span {
                start: a.len() as int,
                end: a.len() as int + line.len() + 1,
            })
        }),
{
    let none = Seq::<u8>::empty();
    let c = a + line.push(LF);
    retitled::lemma_line_last(a, p, line);
    retitled::lemma_line_last(c, p, none);
    assert(c + none.push(LF) =~= a + line.push(LF).push(LF));
    assert(helpers::blank(none));
}

/// The head of a note with a tag line after its title.
#[verifier::rlimit(40)]
#[verifier::spinoff_prover]
proof fn lemma_head_after_title(s: Seq<u8>, h: int, line: Seq<u8>)
    requires
        h == assemble::next_content(parser::tokens_of(s, DocumentKind::Note), 0),
        h < tokenizer::source_lines(s).len(),
        assemble::is_title(parser::tokens_of(s, DocumentKind::Note)[h]),
        s[tokenizer::source_lines(s)[h].end - 1] == LF,
        classify::note_token(line) is TagsPrefix,
        readback::unbroken(line),
        line.len() > 0,
    ensures
        ({
            let r = tokenizer::source_lines(s)[h].span();
            let head = s.take(r.end).push(LF) + line.push(LF).push(LF);
            let x = s.skip(r.end);
            let part = parser::partition_of(head + x, DocumentKind::Note)->0;
            &&& part.title == Some(r)
            &&& part.tags == Some(Span { start: r.end + 1, end: r.end + 1 + line.len() + 1 })
            &&& part.bodies == rest_behind(x, head.len() as int)
        }),
{
    let p = tokenizer::preamble_len(s);
    let l = tokenizer::source_lines(s);
    let t = parser::tokens_of(s, DocumentKind::Note);
    assemble::lemma_next_content(t, 0);
    assemble::lemma_line_ends(s, l, h);
    let r = l[h].span();
    let a = s.take(r.end);
    let x = s.skip(r.end);
    retitled::lemma_lines_up_to(s, r.end, h);
    let none = Seq::<u8>::empty();
    let spaced = a.push(LF);
    assert(a.last() == LF);
    retitled::lemma_line_last(a, p, none);
    assert(a + none.push(LF) =~= spaced);
    assert(helpers::blank(none));
    lemma_line_added(spaced, p, line);
    let head = spaced + line.push(LF).push(LF);
    let source = head + x;
    assert forall|k: int| 0 <= k < r.end implies source[k] == s[k] by {}
    assert(source[r.end - 1] == LF);
    assert(tokenizer::preamble_len(source) == p);
    let la = tokenizer::lines_from(a, p);
    let ta = classify::note_tokens(a, la);
    let lb = tokenizer::lines_from(head, p);
    let tb = classify::note_tokens(head, lb);
    assert forall|k: int| 0 <= k < h implies (#[trigger] tb[k]) is Blank by {
        assert(ta[k] == t[k]);
    }
    assert(tb[h] == ta[h] && ta[h] == t[h]);
    assert(tb[h + 1] is Blank);
    assert(lb[h] == la[h] && la[h] == l[h]);
    assert(head.last() == LF);
    lemma_tagged_partition(head, x, h, h + 2);
}

/// A note with a title and without tags gets a tag line.
#[verifier::rlimit(40)]
#[verifier::spinoff_prover]
proof fn lemma_tags_after_title(doc: DocumentView, tags: Seq<Seq<char>>)
    requires
        parser::parsed_as(doc.source, DocumentKind::Note) == Ok::<DocumentView, NbErrorView>(doc),
        tags.len() >= 2,
        forall|k: int| 0 <= k < tags.len() ==> clean(#[trigger] tags[k]),
        doc.partition.tags is None,
        doc.partition.title matches Some(r) && doc.source[r.end - 1] == LF,
    ensures
        note_reads(doc, content::note_tagged(doc, tags), tags),
{
    let s = doc.source;
    let t = parser::tokens_of(s, DocumentKind::Note);
    let v = tags_bytes(tags);
    let line = readback::hashed_line(v);
    lemma_tag_line(tags);
    let h = assemble::next_content(t, 0);
    assemble::lemma_next_content(t, 0);
    retitled::lemma_old_head(s, h);
    let r = tokenizer::source_lines(s)[h].span();
    let a = s.take(r.end);
    let x = s.skip(r.end);
    lemma_untagged_body(a, x);
    lemma_head_after_title(s, h, line);
    let head = a.push(LF) + line.push(LF).push(LF);
    let source = head + x;
    lemma_rest_read(head, x);
    let spot = Span { start: r.end + 1, end: r.end + 1 + line.len() + 1 };
    assert(bytes::slice_of(source, spot) =~= line.push(LF));
    lemma_line_tags(source, spot, v);
    assert(bytes::slice_of(source, r) =~= bytes::slice_of(s, r));
    assert(source =~= content::note_tagged(doc, tags));
}

/// A note without a title and without tags gets a tag line.
#[verifier::rlimit(40)]
#[verifier::spinoff_prover]
proof fn lemma_tags_in_front(doc: DocumentView, tags: Seq<Seq<char>>)
    requires
        parser::parsed_as(doc.source, DocumentKind::Note) == Ok::<DocumentView, NbErrorView>(doc),
        tags.len() >= 2,
        forall|k: int| 0 <= k < tags.len() ==> clean(#[trigger] tags[k]),
        doc.partition.tags is None,
        doc.partition.title is None,
        tokenizer::preamble_len(doc.source) == 0,
    ensures
        note_reads(doc, content::note_tagged(doc, tags), tags),
{
    let s = doc.source;
    let v = tags_bytes(tags);
    let line = readback::hashed_line(v);
    lemma_tag_line(tags);
    let none = Seq::<u8>::empty();
    assert(none + s =~= s);
    retitled::lemma_untitled_partition(s);
    lemma_untagged_body(none, s);
    lemma_line_added(none, 0, line);
    assert(tokenizer::lines_from(none, 0) =~= Seq::<LineSpan>::empty());
    let head = none + line.push(LF).push(LF);
    let source = head + s;
    assert(source[0] == HASH);
    assert(head.last() == LF);
    lemma_tagged_partition(head, s, -1, 0);
    lemma_rest_read(head, s);
    let spot = Span { start: 0, end: line.len() as int + 1 };
    assert(bytes::slice_of(source, spot) =~= line.push(LF));
    lemma_line_tags(source, spot, v);
    assert(source =~= content::note_tagged(doc, tags));
}

/// The edited tags of a note read back one by one, and its title and its body stay. This leaves
/// out tags that are not one word each, fewer than two tags, which make no tag line, a title
/// without a line feed that a tag line would follow, and a note with neither title nor tags
/// that starts with a byte-order mark, which would stand behind the new tag line.
pub proof fn law_edited_tags_read_back(
    doc: DocumentView,
    add: Seq<Seq<char>>,
    remove: Seq<Seq<char>>,
)
    requires
        parser::parsed_as(doc.source, DocumentKind::Note) == Ok::<DocumentView, NbErrorView>(doc),
        ({
            let tags = content::tags_edited(content::document_tags(doc), add, remove);
            tags.len() >= 2 && forall|k: int| 0 <= k < tags.len() ==> clean(#[trigger] tags[k])
        }),
        doc.partition.tags is None ==> match doc.partition.title {
            Some(r) => doc.source[r.end - 1] == LF,
            None => tokenizer::preamble_len(doc.source) == 0,
        },
    ensures
        note_reads(
            doc,
            content::tag_edit(doc, add, remove),
            content::tags_edited(content::document_tags(doc), add, remove),
        ),
{
    let tags = content::tags_edited(content::document_tags(doc), add, remove);
    assert(doc.partition.kind == DocumentKind::Note);
    if doc.partition.tags is Some {
        lemma_tags_exchanged(doc, tags);
    } else if doc.partition.title is Some {
        lemma_tags_after_title(doc, tags);
    } else {
        lemma_tags_in_front(doc, tags);
    }
}

/// What stands before the tag section of a task ends with a line break.
proof fn lemma_before_section(s: Seq<u8>)
    requires
        parser::partition_of(s, DocumentKind::Todo) matches Some(p) && p.tags is Some,
    ensures
        ({
            let r = parser::partition_of(s, DocumentKind::Todo)->0.tags->0;
            &&& tokenizer::preamble_len(s) < r.start <= r.end
            &&& r.end == s.len()
            &&& bytes::is_line_break(s[r.start - 1])
        }),
{
    let l = tokenizer::source_lines(s);
    let t = parser::tokens_of(s, DocumentKind::Todo);
    let h = assemble::next_content(t, 0);
    assemble::lemma_next_content(t, 0);
    let k = assemble::last_heading(t, t.len() as int);
    assemble::lemma_last_heading(t, t.len() as int);
    assert(h < k && assemble::is_tag_boundary(t[k]));
    assemble::lemma_source_lines(s);
    assemble::lemma_line_ends(s, l, k);
    assemble::lemma_line_ends(s, l, k - 1);
    assemble::lemma_line_starts(s, l, 0, k);
    assert(tokenizer::line_ok(s, l[k - 1]));
    assert(tokenizer::line_ok(s, l[0]));
}

/// The bytes of a tag section of clean tags.
pub proof fn lemma_clean_section(tags: Seq<Seq<char>>)
    requires
        tags.len() > 0,
        forall|k: int| 0 <= k < tags.len() ==> clean(#[trigger] tags[k]),
    ensures
        vstd::utf8::encode_utf8("## Tags\n\n"@ + content::hashed(tags) + "\n"@)
            == readback::paragraph(helpers::reserved_heading("Tags"@)) + readback::hashed_line(
            tags_bytes(tags),
        ) + seq![LF],
{
    lemma_clean_line(tags);
    created::lemma_ended_bytes("## Tags\n\n"@ + content::hashed(tags));
    text::lemma_encode_concat("## Tags\n\n"@, content::hashed(tags));
    created::lemma_tag_paragraph();
    assert(vstd::utf8::encode_utf8("## Tags\n\n"@ + content::hashed(tags) + "\n"@)
        =~= readback::paragraph(helpers::reserved_heading("Tags"@)) + readback::hashed_line(
        tags_bytes(tags),
    ) + seq![LF]);
}

/// What stands before the tag section of a task whose tags are edited.
pub open spec fn section_front(doc: DocumentView) -> Seq<u8> {
    match doc.partition.tags {
        Some(r) => doc.source.take(r.start),
        None => lines::title_line(doc.source).push(LF),
    }
}

/// That front ends with a line break, and holds the byte-order mark, if there is one, and
/// something visible behind it.
proof fn lemma_section_front(doc: DocumentView, section: Seq<u8>) -> (shown: int)
    requires
        parser::parsed_as(doc.source, DocumentKind::Todo) == Ok::<DocumentView, NbErrorView>(doc),
        section.len() > 0,
        section[0] == HASH,
    ensures
        ({
            let front = section_front(doc);
            &&& front.len() > 0
            &&& bytes::is_line_break(front.last())
            &&& tokenizer::preamble_len(front + section) <= shown < front.len()
            &&& assemble::visible(front[shown])
            &&& doc.partition.tags matches Some(r) ==> bytes::spliced(
                doc.source,
                r.start,
                r.end,
                section,
            ) == front + section
        }),
{
    let s = doc.source;
    let front = section_front(doc);
    let source = front + section;
    assert(source[front.len() as int] == HASH);
    if let Some(r) = doc.partition.tags {
        lemma_before_section(s);
        assert(front.last() == s[r.start - 1]);
        assert(bytes::spliced(s, r.start, r.end, section) =~= source);
    }
    let shown = assemble::lemma_title_visible(s);
    assert(source[front.len() as int] == section[0]);
    assert(source[shown] == s[shown]);
    if front.len() >= 3 {
        assert(source[0] == front[0] && source[1] == front[1] && source[2] == front[2]);
        if s.len() < 3 {
            assert(front[s.len() as int] == LF);
        }
    }
    shown
}

/// The edited tags of a task read back one by one. This leaves out tags that are not one word
/// each, and an edit that leaves no tag.
#[verifier::rlimit(40)]
#[verifier::spinoff_prover]
pub proof fn law_edited_task_tags_read_back(
    doc: DocumentView,
    add: Seq<Seq<char>>,
    remove: Seq<Seq<char>>,
)
    requires
        parser::parsed_as(doc.source, DocumentKind::Todo) == Ok::<DocumentView, NbErrorView>(doc),
        ({
            let tags = content::tags_edited(content::document_tags(doc), add, remove);
            tags.len() > 0 && forall|k: int| 0 <= k < tags.len() ==> clean(#[trigger] tags[k])
        }),
    ensures
        ({
            let tags = content::tags_edited(content::document_tags(doc), add, remove);
            let source = content::tag_edit(doc, add, remove);
            let after = parser::parsed_as(source, DocumentKind::Todo)->Ok_0;
            &&& parser::parsed_as(source, DocumentKind::Todo) is Ok
            &&& document::slices(source, after.tag_spans()) == tags_bytes(tags)
        }),
{
    let s = doc.source;
    let tags = content::tags_edited(content::document_tags(doc), add, remove);
    let v = tags_bytes(tags);
    lemma_clean_line(tags);
    assert forall|k: int| 0 <= k < v.len() implies readback::word_bytes(#[trigger] v[k]) by {
        assert(clean(tags[k]));
    }
    lemma_clean_section(tags);
    let section = vstd::utf8::encode_utf8("## Tags\n\n"@ + content::hashed(tags) + "\n"@);
    assert(section[0] == HASH);
    let shown = lemma_section_front(doc, section);
    let front = section_front(doc);
    let source = front + section;
    assert(doc.partition.kind == DocumentKind::Todo);
    assert(source == content::tag_edit(doc, add, remove)) by {
        if doc.partition.tags is None {
            assert(lines::title_line(s).push(LF) =~= lines::title_line(s) + seq![LF]);
        }
    }
    created::lemma_task_tags(front, section, v, shown);
    let after = parser::parsed_as(source, DocumentKind::Todo)->Ok_0;
    assert(source.skip(front.len() as int) =~= section);
    created::lemma_tags_of_section(source, after.partition.tags->0, section, v);
}
/// A tag edit changes nothing outside the tags of a document: what stands before and behind
/// them stays, byte for byte. A task or a bookmark without tags stays whole, and what is new
/// stands behind it.
pub proof fn law_tag_edit_keeps_the_rest(
    doc: DocumentView,
    kind: DocumentKind,
    add: Seq<Seq<char>>,
    remove: Seq<Seq<char>>,
)
    requires
        parser::parsed_as(doc.source, kind) == Ok::<DocumentView, NbErrorView>(doc),
    ensures
        ({
            let s = doc.source;
            let source = content::tag_edit(doc, add, remove);
            match doc.partition.tags {
                Some(r) => {
                    let n = s.len() - r.end;
                    &&& 0 <= r.start <= r.end <= s.len()
                    &&& r.start + n <= source.len()
                    &&& source.take(r.start) == s.take(r.start)
                    &&& source.skip(source.len() - n) == s.skip(r.end)
                },
                None => kind != DocumentKind::Note ==> s.is_prefix_of(source),
            }
        }),
{
    let s = doc.source;
    let source = content::tag_edit(doc, add, remove);
    assemble::lemma_partition_within(s, kind, doc.partition);
    if let Some(r) = doc.partition.tags {
        assert(bytes::span_within(r, s.len() as int));
        let n = s.len() - r.end;
        assert(source.take(r.start) =~= s.take(r.start));
        assert(source.skip(source.len() - n) =~= s.skip(r.end));
    } else if kind != DocumentKind::Note {
        assert(doc.partition.kind == kind);
        assert(source.subrange(0, s.len() as int) =~= s);
    }
}

} // verus!
