//! What is read back of a note that was created.

use crate::bytes;
use crate::bytes::{Span, HASH, LF, SPACE};
use crate::lines;
use crate::parser;
use crate::parser::assemble;
use crate::parser::classify;
use crate::parser::document;
use crate::parser::document::DocumentKind;
use crate::parser::helpers;
use crate::parser::readback;
use crate::parser::types::Token;
use crate::text;
use crate::tokenizer;
use crate::tokenizer::LineSpan;
use crate::transaction::content;
use vstd::prelude::*;

verus! {

/// A text without line breaks.
pub open spec fn on_one_line(s: Seq<char>) -> bool {
    !s.contains('\n') && !s.contains('\r')
}

/// Bytes without line breaks.
pub open spec fn unbroken(b: Seq<u8>) -> bool {
    forall|k: int| 0 <= k < b.len() ==> !bytes::is_line_break(#[trigger] b[k])
}

/// The tags of a new note are recognised as its tag line.
pub open spec fn make_tag_line(tags: Seq<Seq<char>>) -> bool {
    let b = vstd::utf8::encode_utf8(content::tags_text(tags));
    tags.len() > 0 ==> unbroken(b) && helpers::tags_prefix_line(b)
}

/// The bytes of a paragraph of one line: the line and an empty one.
pub open spec fn paragraph(line: Seq<u8>) -> Seq<u8> {
    line + seq![LF, LF]
}

/// No byte of a text on one line breaks a line.
pub proof fn lemma_one_line_bytes(s: Seq<char>)
    requires
        on_one_line(s),
    ensures
        unbroken(vstd::utf8::encode_utf8(s)),
{
    let b = vstd::utf8::encode_utf8(s);
    text::lemma_encode_without(s, '\n');
    text::lemma_encode_without(s, '\r');
    assert forall|k: int| 0 <= k < b.len() implies !bytes::is_line_break(#[trigger] b[k]) by {
        assert(b.contains(b[k]));
    }
}

/// The bytes of a text and an empty line.
pub proof fn lemma_paragraph_bytes(s: Seq<char>)
    ensures
        vstd::utf8::encode_utf8(s + "\n\n"@) == paragraph(vstd::utf8::encode_utf8(s)),
{
    text::lemma_encode_concat(s, "\n\n"@);
    reveal_strlit("\n\n");
    vstd::utf8::is_ascii_chars_encode_utf8("\n\n"@);
    assert(vstd::utf8::encode_utf8("\n\n"@) =~= seq![LF, LF]);
}

/// The bytes of a heading of level one.
proof fn lemma_heading_bytes(t: Seq<char>)
    ensures
        vstd::utf8::encode_utf8("# "@ + t) == seq![HASH, SPACE] + vstd::utf8::encode_utf8(t),
        assemble::is_title(classify::note_token(vstd::utf8::encode_utf8("# "@ + t))),
{
    text::lemma_encode_concat("# "@, t);
    reveal_strlit("# ");
    vstd::utf8::is_ascii_chars_encode_utf8("# "@);
    assert(vstd::utf8::encode_utf8("# "@) =~= seq![HASH, SPACE]);
    let line = vstd::utf8::encode_utf8("# "@ + t);
    assert(line[0] == HASH && line[1] == SPACE);
    assert(!helpers::blank(line)) by {
        assert(!bytes::is_space_or_tab(line[0]));
    }
    bytes::lemma_find_from_is(line, helpers::tag_stop(), 1, 1);
    assert(helpers::tags_from(line, 0) is None);
    bytes::lemma_find_from_is(line, helpers::not_space(), 0, 0);
    bytes::lemma_find_from_is(line, helpers::not_hash(), 0, 1);
    assert(helpers::heading_level(line) == Some(1u8));
}

/// The bytes of the title line of a new note.
pub proof fn lemma_title_line(t: Seq<char>)
    requires
        on_one_line(t),
    ensures
        ({
            let line = vstd::utf8::encode_utf8("# "@ + t);
            unbroken(line) && line.len() > 1 && line[0] == HASH && line[1] == SPACE
        }),
{
    lemma_heading_bytes(t);
    reveal_strlit("# ");
    let all = "# "@ + t;
    if all.contains('\n') {
        let k = choose|k: int| 0 <= k < all.len() && all[k] == '\n';
        assert(t[k - 2] == '\n');
    }
    if all.contains('\r') {
        let k = choose|k: int| 0 <= k < all.len() && all[k] == '\r';
        assert(t[k - 2] == '\r');
    }
    lemma_one_line_bytes(all);
}

/// The lines of a paragraph that starts at `i`.
pub proof fn lemma_paragraph_lines(s: Seq<u8>, i: int, line: Seq<u8>)
    requires
        0 <= i,
        i + line.len() + 2 <= s.len(),
        s.subrange(i, i + line.len() + 2) == paragraph(line),
        unbroken(line),
    ensures
        ({
            let e = i + line.len();
            &&& tokenizer::lines_from(s, i) == seq![
                LineSpan { start: i, content_end: e, end: e + 1 },
                LineSpan { start: e + 1, content_end: e + 1, end: e + 2 },
            ] + tokenizer::lines_from(s, e + 2)
            &&& (LineSpan { start: i, content_end: e, end: e + 1 }).content(s) == line
            &&& (LineSpan { start: e + 1, content_end: e + 1, end: e + 2 }).content(s) == Seq::<
                u8,
            >::empty()
        }),
{
    let e = i + line.len();
    let part = s.subrange(i, e + 2);
    assert forall|k: int| i <= k < e implies !bytes::is_line_break(#[trigger] s[k]) by {
        assert(s[k] == part[k - i]);
        assert(!bytes::is_line_break(line[k - i]));
    }
    assert(s[e] == part[e - i]);
    assert(s[e + 1] == part[e + 1 - i]);
    readback::lemma_line_here(s, i, e);
    readback::lemma_line_here(s, e + 1, e + 1);
    assert(tokenizer::lines_from(s, i) =~= seq![
        LineSpan { start: i, content_end: e, end: e + 1 },
        LineSpan { start: e + 1, content_end: e + 1, end: e + 2 },
    ] + tokenizer::lines_from(s, e + 2));
    assert((LineSpan { start: i, content_end: e, end: e + 1 }).content(s) =~= line) by {
        assert forall|k: int| 0 <= k < line.len() implies s[i + k] == line[k] by {
            assert(s[i + k] == part[k]);
        }
    }
    assert((LineSpan { start: e + 1, content_end: e + 1, end: e + 2 }).content(s) =~= Seq::<
        u8,
    >::empty());
}

/// The title paragraph of a new note.
pub open spec fn title_bytes(title: Option<Seq<char>>) -> Seq<u8> {
    match title {
        Some(t) => paragraph(vstd::utf8::encode_utf8("# "@ + t)),
        None => Seq::empty(),
    }
}

/// The tag paragraph of a new note.
pub open spec fn tag_bytes(tags: Seq<Seq<char>>) -> Seq<u8> {
    if tags.len() > 0 {
        paragraph(vstd::utf8::encode_utf8(content::tags_text(tags)))
    } else {
        Seq::empty()
    }
}

/// The bytes of the head of a new note.
proof fn lemma_head_bytes(title: Option<Seq<char>>, tags: Seq<Seq<char>>)
    ensures
        vstd::utf8::encode_utf8(content::note_head(title, tags)) == title_bytes(title) + tag_bytes(
            tags,
        ),
{
    let a = match title {
        Some(t) => "# "@ + t + "\n\n"@,
        None => ""@,
    };
    let b = if tags.len() > 0 {
        content::tags_text(tags) + "\n\n"@
    } else {
        ""@
    };
    reveal_strlit("");
    assert(vstd::utf8::encode_utf8(""@) =~= Seq::<u8>::empty());
    text::lemma_encode_concat(a, b);
    if let Some(t) = title {
        lemma_paragraph_bytes("# "@ + t);
    }
    if tags.len() > 0 {
        lemma_paragraph_bytes(content::tags_text(tags));
    }
}

/// How the head of a new note is partitioned: a title and a tag line as given, and no body.
pub open spec fn head_is(s: Seq<u8>, title: Option<Seq<u8>>, tags: Option<Seq<u8>>) -> bool {
    let p = parser::partition_of(s, DocumentKind::Note)->0;
    &&& document::opt_slice(s, p.title) == title
    &&& document::opt_slice(s, p.tags) == tags
    &&& p.bodies == Seq::<Span>::empty()
    &&& tokenizer::preamble_len(s) == 0
}

/// The tokens of a paragraph: that of its line, and a blank one.
proof fn lemma_no_tokens(s: Seq<u8>)
    requires
        s.len() == 0,
    ensures
        head_is(s, None, None),
{
    assert(tokenizer::source_lines(s) =~= Seq::<LineSpan>::empty());
    let t = parser::tokens_of(s, DocumentKind::Note);
    assert(t =~= Seq::<Token>::empty());
    assert(assemble::next_content(t, 0) == 0);
    assert(parser::partition_of(s, DocumentKind::Note)->0.bodies =~= Seq::<Span>::empty());
}

/// The head of a note with a title only, or with tags only.
proof fn lemma_one_paragraph(line: Seq<u8>)
    requires
        unbroken(line),
        tokenizer::preamble_len(paragraph(line)) == 0,
    ensures
        assemble::is_title(classify::note_token(line)) ==> head_is(
            paragraph(line),
            Some(line + seq![LF]),
            None,
        ),
        classify::note_token(line) is TagsPrefix ==> head_is(
            paragraph(line),
            None,
            Some(line + seq![LF]),
        ),
{
    let s = paragraph(line);
    let n = line.len() as int;
    assert(s.subrange(0, n + 2) =~= s);
    lemma_paragraph_lines(s, 0, line);
    let l = tokenizer::source_lines(s);
    assert(tokenizer::lines_from(s, n + 2) =~= Seq::<LineSpan>::empty());
    assert(l.len() == 2);
    let t = parser::tokens_of(s, DocumentKind::Note);
    assert(t.len() == 2);
    assert(t[0] == classify::note_token(line));
    assert(t[1] is Blank);
    let full = assemble::has_content();
    if assemble::is_title(t[0]) || t[0] is TagsPrefix {
        assert(full(t[0]));
        assert(!full(t[1]));
        bytes::lemma_find_from_is(t, full, 0, 0);
        bytes::lemma_find_from_is(t, full, 1, 2);
        assert(bytes::slice_of(s, l[0].span()) =~= line + seq![LF]);
        assert(parser::partition_of(s, DocumentKind::Note)->0.bodies =~= Seq::<Span>::empty());
    }
}

/// The head of a note with a title and tags.
#[verifier::rlimit(40)]
#[verifier::spinoff_prover]
proof fn lemma_two_paragraphs(title: Seq<u8>, tags: Seq<u8>)
    requires
        unbroken(title),
        unbroken(tags),
        tokenizer::preamble_len(paragraph(title) + paragraph(tags)) == 0,
        assemble::is_title(classify::note_token(title)),
        classify::note_token(tags) is TagsPrefix,
    ensures
        head_is(
            paragraph(title) + paragraph(tags),
            Some(title + seq![LF]),
            Some(tags + seq![LF]),
        ),
{
    let s = paragraph(title) + paragraph(tags);
    let n = title.len() as int;
    let m = n + 2;
    let e = m + tags.len();
    assert(s.subrange(0, n + 2) =~= paragraph(title));
    assert(s.subrange(m, e + 2) =~= paragraph(tags));
    lemma_paragraph_lines(s, 0, title);
    lemma_paragraph_lines(s, m, tags);
    let l = tokenizer::source_lines(s);
    assert(tokenizer::lines_from(s, e + 2) =~= Seq::<LineSpan>::empty());
    assert(l.len() == 4);
    assert(l[2] == (LineSpan { start: m, content_end: e, end: e + 1 }));
    assert(l[3] == (LineSpan { start: e + 1, content_end: e + 1, end: e + 2 }));
    let t = parser::tokens_of(s, DocumentKind::Note);
    assert(t.len() == 4);
    assert(t[0] == classify::note_token(title));
    assert(t[1] is Blank);
    assert(t[2] == classify::note_token(tags));
    assert(t[3] is Blank);
    let full = assemble::has_content();
    assert(full(t[0]) && !full(t[1]) && full(t[2]) && !full(t[3]));
    bytes::lemma_find_from_is(t, full, 0, 0);
    bytes::lemma_find_from_is(t, full, 1, 2);
    bytes::lemma_find_from_is(t, full, 3, 4);
    assert(bytes::slice_of(s, l[0].span()) =~= title + seq![LF]);
    assert(bytes::slice_of(s, l[2].span()) =~= tags + seq![LF]);
    assert(parser::partition_of(s, DocumentKind::Note)->0.bodies =~= Seq::<Span>::empty());
}

/// The title line of a new note.
pub open spec fn title_line_of(title: Option<Seq<char>>) -> Option<Seq<u8>> {
    match title {
        Some(t) => Some(vstd::utf8::encode_utf8("# "@ + t) + seq![LF]),
        None => None,
    }
}

/// The tag line of a new note.
pub open spec fn tag_line_of(tags: Seq<Seq<char>>) -> Option<Seq<u8>> {
    if tags.len() > 0 {
        Some(vstd::utf8::encode_utf8(content::tags_text(tags)) + seq![LF])
    } else {
        None
    }
}

/// The head of a new note is partitioned as it was made.
#[verifier::rlimit(40)]
#[verifier::spinoff_prover]
proof fn lemma_head(title: Option<Seq<char>>, tags: Seq<Seq<char>>)
    requires
        title matches Some(t) ==> on_one_line(t),
        make_tag_line(tags),
    ensures
        ({
            let s = vstd::utf8::encode_utf8(content::note_head(title, tags));
            &&& head_is(s, title_line_of(title), tag_line_of(tags))
            &&& s.len() > 0 ==> s.last() == LF
            &&& s.len() == 0 <==> title is None && tags.len() == 0
        }),
{
    let s = vstd::utf8::encode_utf8(content::note_head(title, tags));
    lemma_head_bytes(title, tags);
    let tag = vstd::utf8::encode_utf8(content::tags_text(tags));
    if tags.len() > 0 {
        assert(!helpers::blank(tag)) by {
            assert(tag[0] == HASH);
            assert(!bytes::is_space_or_tab(tag[0]));
        }
    }
    if let Some(t) = title {
        let line = vstd::utf8::encode_utf8("# "@ + t);
        lemma_heading_bytes(t);
        lemma_title_line(t);
        assert(s[0] == HASH);
        if tags.len() > 0 {
            lemma_two_paragraphs(line, tag);
        } else {
            assert(s =~= paragraph(line));
            lemma_one_paragraph(line);
        }
    } else if tags.len() > 0 {
        assert(s =~= paragraph(tag));
        assert(s[0] == HASH);
        lemma_one_paragraph(tag);
    } else {
        lemma_no_tokens(s);
    }
}

/// The content of a new note can be told from its title and its tag line.
pub open spec fn content_separable(
    title: Option<Seq<char>>,
    text: Seq<char>,
    tags: Seq<Seq<char>>,
) -> bool {
    let x = vstd::utf8::encode_utf8(text);
    x.len() > 0 ==> readback::opens_body(title is Some, tags.len() > 0, readback::first_line(x))
        && (title is None && tags.len() == 0 ==> tokenizer::preamble_len(x) == 0)
}

/// A new note reads back as it was made: its title, its tag line and its content. This leaves
/// out a title of several lines, tags that do not make a tag line, such as a single one, and
/// content that cannot be told from what it follows, such as content that starts with a blank
/// line.
pub proof fn law_new_note_reads_back(
    title: Option<Seq<char>>,
    text: Seq<char>,
    tags: Seq<Seq<char>>,
)
    requires
        title matches Some(t) ==> on_one_line(t),
        make_tag_line(tags),
        content_separable(title, text, tags),
    ensures
        ({
            let s = vstd::utf8::encode_utf8(content::note_text(title, text, tags));
            let doc = parser::parsed_as(s, DocumentKind::Note)->Ok_0;
            &&& parser::parsed_as(s, DocumentKind::Note) is Ok
            &&& document::opt_slice(s, doc.partition.title) == title_line_of(title)
            &&& document::opt_slice(s, doc.partition.tags) == tag_line_of(tags)
            &&& doc.body() == vstd::utf8::encode_utf8(text)
        }),
{
    let head = vstd::utf8::encode_utf8(content::note_head(title, tags));
    let x = vstd::utf8::encode_utf8(text);
    text::lemma_encode_concat(content::note_head(title, tags), text);
    lemma_head(title, tags);
    let doc = parser::parsed_as(head, DocumentKind::Note)->Ok_0;
    assert(readback::separable(doc, x));
    readback::law_replaced_body_reads_back(doc, x);
    assert(lines::body_replaced(doc, x)->Ok_0 == head + x);
}

/// A tag without its `#`.
pub open spec fn word(tag: Seq<char>) -> Seq<char> {
    content::tag_text(tag).skip(1)
}

/// A tag that is one word.
pub open spec fn plain(tag: Seq<char>) -> bool {
    let w = word(tag);
    w.len() > 0 && !w.contains(' ') && !w.contains('\t') && !w.contains('#') && on_one_line(w)
}

/// The bytes of each word.
pub open spec fn words(tags: Seq<Seq<char>>) -> Seq<Seq<u8>> {
    tags.map_values(|t: Seq<char>| vstd::utf8::encode_utf8(word(t)))
}

/// A byte string that can stand in a line as a tag.
pub open spec fn word_bytes(w: Seq<u8>) -> bool {
    w.len() > 0 && forall|k: int|
        0 <= k < w.len() ==> !bytes::is_space_or_tab(#[trigger] w[k]) && w[k] != HASH
            && !bytes::is_line_break(w[k])
}

/// Words, each with its `#`, with spaces between them.
pub open spec fn hashed_line(v: Seq<Seq<u8>>) -> Seq<u8>
    decreases v.len(),
{
    if v.len() == 0 {
        Seq::empty()
    } else if v.len() == 1 {
        seq![HASH] + v[0]
    } else {
        seq![HASH] + v[0] + seq![SPACE] + hashed_line(v.drop_first())
    }
}

/// One more word at the end.
proof fn lemma_hashed_push(v: Seq<Seq<u8>>, w: Seq<u8>)
    requires
        v.len() > 0,
    ensures
        hashed_line(v.push(w)) == hashed_line(v) + seq![SPACE, HASH] + w,
    decreases v.len(),
{
    let all = v.push(w);
    assert(all.drop_first() =~= v.drop_first().push(w));
    if v.len() == 1 {
        assert(all.drop_first() =~= seq![w]);
        assert(hashed_line(seq![w]) =~= seq![HASH] + w);
        assert(hashed_line(all) =~= hashed_line(v) + seq![SPACE, HASH] + w);
    } else {
        lemma_hashed_push(v.drop_first(), w);
        assert(hashed_line(all) =~= hashed_line(v) + seq![SPACE, HASH] + w);
    }
}

/// The bytes of one word.
proof fn lemma_word(tag: Seq<char>)
    requires
        plain(tag),
    ensures
        word_bytes(vstd::utf8::encode_utf8(word(tag))),
        vstd::utf8::encode_utf8(content::tag_text(tag)) == seq![HASH] + vstd::utf8::encode_utf8(
            word(tag),
        ),
{
    let w = word(tag);
    let b = vstd::utf8::encode_utf8(w);
    reveal_strlit("#");
    let t = content::tag_text(tag);
    assert(t =~= "#"@ + w);
    text::lemma_encode_concat("#"@, w);
    vstd::utf8::is_ascii_chars_encode_utf8("#"@);
    assert(vstd::utf8::encode_utf8("#"@) =~= seq![HASH]);
    text::lemma_encode_without(w, ' ');
    text::lemma_encode_without(w, '\t');
    text::lemma_encode_without(w, '#');
    text::lemma_encode_without(w, '\n');
    text::lemma_encode_without(w, '\r');
    vstd::utf8::encode_utf8_first_scalar(w);
    assert(b.len() > 0);
    assert forall|k: int| 0 <= k < b.len() implies !bytes::is_space_or_tab(#[trigger] b[k]) && b[k]
        != HASH && !bytes::is_line_break(b[k]) by {
        assert(b.contains(b[k]));
    }
}

/// The bytes of a line of plain tags.
pub proof fn lemma_tags_bytes(tags: Seq<Seq<char>>)
    requires
        tags.len() > 0,
        forall|k: int| 0 <= k < tags.len() ==> plain(#[trigger] tags[k]),
    ensures
        vstd::utf8::encode_utf8(content::tags_text(tags)) == hashed_line(words(tags)),
        forall|k: int| 0 <= k < tags.len() ==> word_bytes(#[trigger] words(tags)[k]),
    decreases tags.len(),
{
    let last = tags.last();
    lemma_word(last);
    let parts = tags.map_values(|t: Seq<char>| content::tag_text(t));
    if tags.len() == 1 {
        assert(hashed_line(words(tags)) =~= seq![HASH] + words(tags)[0]);
    } else {
        let init = tags.drop_last();
        assert forall|k: int| 0 <= k < init.len() implies plain(#[trigger] init[k]) by {
            assert(init[k] == tags[k]);
        }
        lemma_tags_bytes(init);
        assert(parts.drop_last() =~= init.map_values(|t: Seq<char>| content::tag_text(t)));
        let before = content::tags_text(init);
        assert(content::tags_text(tags) == before + " "@ + content::tag_text(last));
        text::lemma_encode_concat(before + " "@, content::tag_text(last));
        text::lemma_encode_concat(before, " "@);
        reveal_strlit(" ");
        vstd::utf8::is_ascii_chars_encode_utf8(" "@);
        assert(vstd::utf8::encode_utf8(" "@) =~= seq![SPACE]);
        assert(words(tags) =~= words(init).push(vstd::utf8::encode_utf8(word(last))));
        lemma_hashed_push(words(init), vstd::utf8::encode_utf8(word(last)));
        assert(vstd::utf8::encode_utf8(content::tags_text(tags)) =~= hashed_line(words(tags)));
        assert forall|k: int| 0 <= k < tags.len() implies word_bytes(#[trigger] words(tags)[k]) by {
            if k < init.len() {
                assert(words(init)[k] == words(tags)[k]);
            }
        }
    }
}

/// The tags of a line that reads as words from `i` on.
pub proof fn lemma_tags_from(line: Seq<u8>, i: int, v: Seq<Seq<u8>>)
    requires
        0 <= i <= line.len(),
        line.skip(i) == hashed_line(v),
        v.len() > 0,
        forall|k: int| 0 <= k < v.len() ==> word_bytes(#[trigger] v[k]),
    ensures
        helpers::tags_from(line, i) == Some(v.len()),
    decreases v.len(),
{
    let w = v[0];
    let rest = line.skip(i);
    let stop = i + 1 + w.len();
    assert(word_bytes(w));
    let n = hashed_line(v);
    assert(n.len() >= 1 + w.len());
    assert(rest.len() == line.len() - i);
    assert(line[i] == rest[0]);
    assert forall|k: int| i + 1 <= k < stop implies !helpers::tag_stop()(#[trigger] line[k]) by {
        assert(line[k] == rest[k - i]);
        assert(rest[k - i] == w[k - i - 1]);
    }
    if v.len() == 1 {
        assert(stop == line.len());
        bytes::lemma_find_from_is(line, helpers::tag_stop(), i + 1, stop);
    } else {
        let more = hashed_line(v.drop_first());
        assert(rest == seq![HASH] + w + seq![SPACE] + more);
        assert(more.len() > 0 && more[0] == HASH);
        assert(line[stop] == rest[stop - i]);
        assert(line[stop + 1] == rest[stop + 1 - i]);
        bytes::lemma_find_from_is(line, helpers::tag_stop(), i + 1, stop);
        bytes::lemma_find_from_is(line, helpers::not_blank(), stop, stop + 1);
        assert(rest.skip(stop + 1 - i) =~= more);
        assert(line.skip(stop + 1) =~= rest.skip(stop + 1 - i));
        assert forall|k: int| 0 <= k < v.drop_first().len() implies word_bytes(
            #[trigger] v.drop_first()[k],
        ) by {
            assert(v.drop_first()[k] == v[k + 1]);
        }
        lemma_tags_from(line, stop + 1, v.drop_first());
    }
}

/// The tag tokens of a line that reads as words from `i` on.
pub proof fn lemma_tokens_from(t: Seq<u8>, i: int, v: Seq<Seq<u8>>)
    requires
        0 <= i <= t.len(),
        t.skip(i) == hashed_line(v) + seq![LF],
        v.len() > 0,
        forall|k: int| 0 <= k < v.len() ==> word_bytes(#[trigger] v[k]),
    ensures
        helpers::tag_tokens(t, i).len() == v.len(),
        forall|k: int|
            0 <= k < v.len() ==> 0 <= (#[trigger] helpers::tag_tokens(t, i)[k]).start
                <= helpers::tag_tokens(t, i)[k].end <= t.len() && bytes::slice_of(
                t,
                helpers::tag_tokens(t, i)[k],
            ) == v[k],
    decreases v.len(),
{
    let w = v[0];
    let rest = t.skip(i);
    let stop = i + 1 + w.len();
    let span = Span { start: i + 1, end: stop };
    assert(word_bytes(w));
    let n = hashed_line(v);
    assert(n.len() >= 1 + w.len());
    assert(rest.len() == t.len() - i);
    assert(t[i] == rest[0]);
    assert forall|k: int| i + 1 <= k < stop implies !helpers::tag_end()(#[trigger] t[k]) by {
        assert(t[k] == rest[k - i]);
        assert(rest[k - i] == w[k - i - 1]);
    }
    assert(t[stop] == rest[stop - i]);
    assert(bytes::slice_of(t, span) =~= w) by {
        assert forall|k: int| 0 <= k < w.len() implies t[i + 1 + k] == w[k] by {
            assert(t[i + 1 + k] == rest[1 + k]);
        }
    }
    if v.len() == 1 {
        bytes::lemma_find_from_is(t, helpers::tag_end(), i + 1, stop);
        assert(stop + 1 == t.len());
        assert(helpers::tag_tokens(t, stop + 1) =~= Seq::<Span>::empty());
        assert(helpers::tag_tokens(t, stop) =~= Seq::<Span>::empty());
        assert(helpers::tag_tokens(t, i) =~= seq![span]);
    } else {
        let more = hashed_line(v.drop_first());
        assert(rest == seq![HASH] + w + seq![SPACE] + more + seq![LF]);
        bytes::lemma_find_from_is(t, helpers::tag_end(), i + 1, stop);
        assert(rest.skip(stop + 1 - i) =~= more + seq![LF]);
        assert(t.skip(stop + 1) =~= rest.skip(stop + 1 - i));
        assert forall|k: int| 0 <= k < v.drop_first().len() implies word_bytes(
            #[trigger] v.drop_first()[k],
        ) by {
            assert(v.drop_first()[k] == v[k + 1]);
        }
        lemma_tokens_from(t, stop + 1, v.drop_first());
        let tail = helpers::tag_tokens(t, stop + 1);
        assert(helpers::tag_tokens(t, stop) == tail);
        let all = helpers::tag_tokens(t, i);
        assert(all =~= seq![span] + tail);
        assert forall|k: int| 0 <= k < v.len() implies 0 <= (#[trigger] all[k]).start <= all[k].end
            <= t.len() && bytes::slice_of(t, all[k]) == v[k] by {
            if k > 0 {
                assert(all[k] == tail[k - 1]);
                assert(v.drop_first()[k - 1] == v[k]);
            }
        }
    }
}

/// A line of words has no line breaks.
pub proof fn lemma_hashed_unbroken(v: Seq<Seq<u8>>)
    requires
        forall|k: int| 0 <= k < v.len() ==> word_bytes(#[trigger] v[k]),
    ensures
        unbroken(hashed_line(v)),
    decreases v.len(),
{
    if v.len() > 0 {
        assert(word_bytes(v[0]));
    }
    if v.len() > 1 {
        let more = v.drop_first();
        assert forall|k: int| 0 <= k < more.len() implies word_bytes(#[trigger] more[k]) by {
            assert(more[k] == v[k + 1]);
        }
        lemma_hashed_unbroken(more);
    }
}

/// Two or more tags of one word each are recognised as a tag line.
pub proof fn law_plain_tags_make_a_tag_line(tags: Seq<Seq<char>>)
    requires
        tags.len() >= 2,
        forall|k: int| 0 <= k < tags.len() ==> plain(#[trigger] tags[k]),
    ensures
        make_tag_line(tags),
{
    lemma_tags_bytes(tags);
    let b = vstd::utf8::encode_utf8(content::tags_text(tags));
    let v = words(tags);
    assert forall|k: int| 0 <= k < v.len() implies word_bytes(#[trigger] v[k]) by {
        assert(plain(tags[k]));
    }
    lemma_hashed_unbroken(v);
    assert(b.skip(0) =~= b);
    lemma_tags_from(b, 0, v);
}

/// The tags of a new note read back one by one, without their `#`.
pub proof fn law_new_tags_read_back(
    title: Option<Seq<char>>,
    text: Seq<char>,
    tags: Seq<Seq<char>>,
)
    requires
        title matches Some(t) ==> on_one_line(t),
        tags.len() >= 2,
        forall|k: int| 0 <= k < tags.len() ==> plain(#[trigger] tags[k]),
        content_separable(title, text, tags),
    ensures
        ({
            let s = vstd::utf8::encode_utf8(content::note_text(title, text, tags));
            let doc = parser::parsed_as(s, DocumentKind::Note)->Ok_0;
            document::slices(s, doc.tag_spans()) == words(tags)
        }),
{
    law_plain_tags_make_a_tag_line(tags);
    law_new_note_reads_back(title, text, tags);
    lemma_tags_bytes(tags);
    let s = vstd::utf8::encode_utf8(content::note_text(title, text, tags));
    let doc = parser::parsed_as(s, DocumentKind::Note)->Ok_0;
    let v = words(tags);
    assert forall|k: int| 0 <= k < v.len() implies word_bytes(#[trigger] v[k]) by {
        assert(plain(tags[k]));
    }
    let r = doc.partition.tags->0;
    assert(doc.partition.tags == Some(r));
    let line = bytes::slice_of(s, r);
    assert(line == hashed_line(v) + seq![LF]);
    assert(line.skip(0) =~= line);
    lemma_tokens_from(line, 0, v);
    let inner = helpers::tag_tokens(line, 0);
    assemble::lemma_partition_within(s, DocumentKind::Note, doc.partition);
    let got = document::slices(s, doc.tag_spans());
    assert forall|k: int| 0 <= k < v.len() implies got[k] == #[trigger] v[k] by {
        assert(0 <= inner[k].start <= inner[k].end <= line.len());
        assert(bytes::slice_of(line, inner[k]) == v[k]);
        assert(got[k] =~= bytes::slice_of(line, inner[k]));
    }
    assert(got =~= v);
}

} // verus!
