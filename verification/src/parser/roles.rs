//! Which lines of a document are its title, its link, its tags and its body.

use vstd::prelude::*;

use crate::bytes;
use crate::bytes::Span;
use crate::parser;
use crate::parser::assemble;
use crate::parser::document::DocumentKind;
use crate::parser::helpers;
use crate::parser::recognised;
use crate::parser::types::Token;
use crate::tokenizer;

verus! {

/// The content of line `k` of a source.
pub open spec fn line_of(s: Seq<u8>, k: int) -> Seq<u8> {
    s.subrange(tokenizer::source_lines(s)[k].start, tokenizer::source_lines(s)[k].content_end)
}

/// The bytes of line `k`, with its break.
pub open spec fn span_of(s: Seq<u8>, k: int) -> Span {
    Span { start: tokenizer::source_lines(s)[k].start, end: tokenizer::source_lines(s)[k].end }
}

/// Line `k` has something else than spaces and tabs on it.
pub open spec fn visible(s: Seq<u8>, k: int) -> bool {
    exists|i: int| 0 <= i < line_of(s, k).len() && !recognised::gap(#[trigger] line_of(s, k)[i])
}

/// Line `k` is the first from line `from` on that is not blank; the number of lines stands for
/// none.
pub open spec fn next_visible(s: Seq<u8>, from: int, k: int) -> bool {
    &&& 0 <= from <= k <= tokenizer::source_lines(s).len()
    &&& k < tokenizer::source_lines(s).len() ==> visible(s, k)
    &&& forall|j: int| from <= j < k ==> !#[trigger] visible(s, j)
}

pub proof fn lemma_visible(s: Seq<u8>, k: int)
    ensures
        visible(s, k) <==> !helpers::blank(line_of(s, k)),
{
    let line = line_of(s, k);
    if helpers::blank(line) {
        assert forall|i: int| 0 <= i < line.len() implies recognised::gap(#[trigger] line[i]) by {
            assert(bytes::is_space_or_tab(line[i]));
        }
    } else {
        let i = choose|i: int| 0 <= i < line.len() && !bytes::is_space_or_tab(#[trigger] line[i]);
        assert(!recognised::gap(line[i]));
    }
}

proof fn lemma_next(s: Seq<u8>, kind: DocumentKind, from: int, k: int)
    requires
        next_visible(s, from, k),
        kind != DocumentKind::Bookmark,
    ensures
        assemble::next_content(parser::tokens_of(s, kind), from) == k,
        parser::tokens_of(s, kind).len() == tokenizer::source_lines(s).len(),
{
    let t = parser::tokens_of(s, kind);
    let p = assemble::has_content();
    assert forall|j: int| from <= j < k implies !p(#[trigger] t[j]) by {
        assert(!visible(s, j));
        lemma_visible(s, j);
    }
    if k < t.len() {
        lemma_visible(s, k);
        assert(p(t[k]));
    }
    bytes::lemma_find_from_is(t, p, from, k);
}

/// The title of a note is its first line that is not blank, when that is a heading of level one
/// and no tag line; a note that starts otherwise has none.
pub proof fn law_title_of_a_note(s: Seq<u8>, h: int)
    requires
        next_visible(s, 0, h),
    ensures
        ({
            let doc = parser::parsed_as(s, DocumentKind::Note)->Ok_0;
            let titled = h < tokenizer::source_lines(s).len() && helpers::heading_level(
                line_of(s, h),
            ) == Some(1u8) && !helpers::tags_prefix_line(line_of(s, h));
            &&& parser::parsed_as(s, DocumentKind::Note) is Ok
            &&& doc.partition.title == (if titled {
                Some(span_of(s, h))
            } else {
                None
            })
        }),
{
    lemma_next(s, DocumentKind::Note, 0, h);
    if h < tokenizer::source_lines(s).len() {
        lemma_visible(s, h);
    }
}

/// The tags of a note are on the first line behind its title that is not blank, or on its first
/// line where it has no title, when that is a line of tags; its body are all lines from the
/// next one on that is not blank.
pub proof fn law_tags_and_body_of_a_note(s: Seq<u8>, h: int, u: int, b: int)
    requires
        next_visible(s, 0, h),
        ({
            let doc = parser::parsed_as(s, DocumentKind::Note)->Ok_0;
            let lines = tokenizer::source_lines(s).len();
            &&& doc.partition.title is Some ==> next_visible(s, h + 1, u)
            &&& doc.partition.title is None ==> u == h
            &&& u < lines && helpers::tags_prefix_line(line_of(s, u)) ==> next_visible(s, u + 1, b)
            &&& !(u < lines && helpers::tags_prefix_line(line_of(s, u))) ==> b == u
        }),
    ensures
        ({
            let doc = parser::parsed_as(s, DocumentKind::Note)->Ok_0;
            let lines = tokenizer::source_lines(s);
            &&& doc.partition.tags == (if u < lines.len() && helpers::tags_prefix_line(
                line_of(s, u),
            ) {
                Some(span_of(s, u))
            } else {
                None
            })
            &&& doc.partition.bodies == (if b < lines.len() {
                seq![Span { start: lines[b].start, end: s.len() as int }]
            } else {
                Seq::empty()
            })
            &&& doc.partition.url is None
        }),
{
    law_title_of_a_note(s, h);
    lemma_next(s, DocumentKind::Note, 0, h);
    let doc = parser::parsed_as(s, DocumentKind::Note)->Ok_0;
    let lines = tokenizer::source_lines(s);
    if doc.partition.title is Some {
        lemma_next(s, DocumentKind::Note, h + 1, u);
    }
    if u < lines.len() {
        lemma_visible(s, u);
        assert(visible(s, u));
        if helpers::tags_prefix_line(line_of(s, u)) {
            lemma_next(s, DocumentKind::Note, u + 1, b);
        }
    }
}

/// The title of a task is its first line that is not blank, whatever it looks like.
pub proof fn law_title_of_a_task(s: Seq<u8>, h: int)
    requires
        next_visible(s, 0, h),
    ensures
        h < tokenizer::source_lines(s).len() <==> parser::parsed_as(s, DocumentKind::Todo) is Ok,
        parser::parsed_as(s, DocumentKind::Todo) matches Ok(doc) ==> doc.partition.title == Some(
            span_of(s, h),
        ) && doc.partition.url is None,
{
    lemma_next(s, DocumentKind::Todo, 0, h);
}

/// A line that reads exactly `## Tags`.
pub open spec fn tags_heading(line: Seq<u8>) -> bool {
    line == seq![35u8, 35, 32, 84, 97, 103, 115]
}

/// The tags of a task reach from its last heading to its end, when that heading stands behind
/// the title and reads exactly `## Tags`; a task with another last heading has none.
pub proof fn law_tags_of_a_task(s: Seq<u8>, h: int, k: int)
    requires
        next_visible(s, 0, h),
        h < tokenizer::source_lines(s).len(),
        -1 <= k < tokenizer::source_lines(s).len(),
        k >= 0 ==> visible(s, k) && helpers::heading_level(line_of(s, k)) is Some,
        forall|j: int|
            k < j < tokenizer::source_lines(s).len() ==> helpers::heading_level(
                #[trigger] line_of(s, j),
            ) is None || !visible(s, j),
    ensures
        ({
            let doc = parser::parsed_as(s, DocumentKind::Todo)->Ok_0;
            doc.partition.tags == (if k > h && tags_heading(line_of(s, k)) {
                Some(Span { start: tokenizer::source_lines(s)[k].start, end: s.len() as int })
            } else {
                None
            })
        }),
{
    lemma_next(s, DocumentKind::Todo, 0, h);
    let t = parser::tokens_of(s, DocumentKind::Todo);
    assert forall|j: int| k < j < t.len() implies !((#[trigger] t[j]) is Heading) by {
        lemma_visible(s, j);
        assert(helpers::heading_level(line_of(s, j)) is None || !visible(s, j));
    }
    if k >= 0 {
        lemma_visible(s, k);
        assert(t[k] is Heading);
    }
    lemma_last_heading(t, k, t.len() as int);
    if k > h {
        lemma_tags_heading(line_of(s, k));
    }
}

proof fn lemma_last_heading(t: Seq<Token>, k: int, n: int)
    requires
        -1 <= k < n <= t.len() || (k == -1 && n == 0),
        k >= 0 ==> t[k] is Heading,
        forall|j: int| k < j < n ==> !((#[trigger] t[j]) is Heading),
    ensures
        assemble::last_heading(t, n) == k,
    decreases n,
{
    if n > 0 && k < n - 1 {
        assert(!(t[n - 1] is Heading));
        lemma_last_heading(t, k, n - 1);
    }
}

/// A heading that opens a tag section is recognised by its bytes.
proof fn lemma_tags_heading(line: Seq<u8>)
    ensures
        line == helpers::reserved_heading("Tags"@) <==> tags_heading(line),
        tags_heading(line) ==> helpers::heading_level(line) == Some(2u8)
            && crate::text::lossy_text(helpers::heading_text_bytes(line, 2)) == "Tags"@,
{
    reveal_strlit("Tags");
    vstd::utf8::is_ascii_chars_encode_utf8("Tags"@);
    let word = seq![84u8, 97, 103, 115];
    assert(vstd::utf8::encode_utf8("Tags"@) =~= word);
    assert(helpers::reserved_heading("Tags"@) =~= seq![35u8, 35, 32, 84, 97, 103, 115]);
    if tags_heading(line) {
        recognised::law_heading_has_its_level_and_text(0, 2, 32, word, 0);
        assert(line =~= recognised::run(32, 0) + recognised::run(35, 2) + seq![32u8] + word);
        crate::text::lemma_lossy_of_text("Tags"@);
    }
}

/// The title of a bookmark is its first line that is not blank, when that is a heading of level
/// one; its link is on the next such line, or on the first where it has no title, when that is
/// a URL line. This leaves out bookmarks that open a code fence before that line.
pub proof fn law_title_and_link_of_a_bookmark(s: Seq<u8>, h: int, u: int)
    requires
        next_visible(s, 0, h),
        h < tokenizer::source_lines(s).len(),
        ({
            let titled = helpers::heading_level(line_of(s, h)) == Some(1u8);
            &&& titled ==> next_visible(s, h + 1, u)
            &&& !titled ==> u == h
        }),
        forall|j: int|
            0 <= j <= u && j < tokenizer::source_lines(s).len()
                ==> crate::parser::classify::fence_mark(#[trigger] line_of(s, j)) is None,
    ensures
        ({
            let doc = parser::parsed_as(s, DocumentKind::Bookmark)->Ok_0;
            &&& parser::parsed_as(s, DocumentKind::Bookmark) is Ok
            &&& doc.partition.title == (if helpers::heading_level(line_of(s, h)) == Some(1u8) {
                Some(span_of(s, h))
            } else {
                None
            })
            &&& doc.partition.url == (if u < tokenizer::source_lines(s).len() && helpers::url_line(
                line_of(s, u),
            ) {
                Some(span_of(s, u))
            } else {
                None
            })
        }),
{
    let l = tokenizer::source_lines(s);
    let t = parser::tokens_of(s, DocumentKind::Bookmark);
    let p = assemble::has_content();
    assert forall|j: int| 0 <= j <= u && j < l.len() implies crate::parser::classify::bookmark_scan(
        s,
        l,
        j,
    ).fence is None && ((#[trigger] t[j]) is Blank <==> !visible(s, j)) by {
        lemma_no_fence(s, j);
        lemma_visible(s, j);
        assert(crate::parser::classify::fence_mark(line_of(s, j)) is None);
    }
    assert forall|j: int| 0 <= j < h implies !p(#[trigger] t[j]) by {
        assert(!visible(s, j));
    }
    assert(t[h] !is Blank);
    bytes::lemma_find_from_is(t, p, 0, h);
    lemma_url_is_no_heading(line_of(s, h));
    if helpers::heading_level(line_of(s, h)) == Some(1u8) {
        assert forall|j: int| h + 1 <= j < u implies !p(#[trigger] t[j]) by {
            assert(!visible(s, j));
        }
        if u < l.len() {
            assert(t[u] !is Blank);
        }
        bytes::lemma_find_from_is(t, p, h + 1, u);
    }
    if u < l.len() {
        lemma_url_is_visible(line_of(s, u));
    }
}

proof fn lemma_no_fence(s: Seq<u8>, j: int)
    requires
        0 <= j <= tokenizer::source_lines(s).len(),
        forall|i: int|
            0 <= i < j ==> crate::parser::classify::fence_mark(#[trigger] line_of(s, i)) is None,
    ensures
        crate::parser::classify::bookmark_scan(s, tokenizer::source_lines(s), j).fence is None,
    decreases j,
{
    if j > 0 {
        lemma_no_fence(s, j - 1);
        assert(crate::parser::classify::fence_mark(line_of(s, j - 1)) is None);
    }
}

/// A URL line is no heading.
pub proof fn lemma_url_is_no_heading(line: Seq<u8>)
    ensures
        helpers::url_line(line) ==> helpers::heading_level(line) is None,
{
    if helpers::url_line(line) {
        bytes::lemma_find_from_is(line, helpers::not_space(), 0, 0);
        bytes::lemma_find_from_is(line, helpers::not_hash(), 0, 0);
    }
}

/// A URL line is not blank.
proof fn lemma_url_is_visible(line: Seq<u8>)
    ensures
        helpers::url_line(line) ==> !helpers::blank(line),
{
    if helpers::url_line(line) && helpers::blank(line) {
        assert(bytes::is_space_or_tab(line[0]));
    }
}

/// The body of a task without tags are all lines from the first on behind its title that is
/// not blank. That of a task with tags starts there too, and ends where the tags start, or
/// before an empty line there; it is nothing where only blank lines stand between.
pub proof fn law_body_of_a_task(s: Seq<u8>, h: int, b: int)
    requires
        next_visible(s, 0, h),
        h < tokenizer::source_lines(s).len(),
        next_visible(s, h + 1, b),
    ensures
        ({
            let doc = parser::parsed_as(s, DocumentKind::Todo)->Ok_0;
            let lines = tokenizer::source_lines(s);
            let bodies = doc.partition.bodies;
            match doc.partition.tags {
                None => bodies == (if b < lines.len() {
                    seq![Span { start: lines[b].start, end: s.len() as int }]
                } else {
                    Seq::empty()
                }),
                Some(x) => {
                    &&& b >= lines.len() || lines[b].start >= x.start ==> bodies.len() == 0
                    &&& bodies.len() <= 1
                    &&& bodies.len() == 1 ==> bodies[0].start == lines[b].start && x.start - 2
                        <= bodies[0].end <= x.start && (forall|i: int|
                        bodies[0].end <= i < x.start ==> #[trigger] s[i] == 10 || s[i] == 13)
                    &&& b < lines.len() && lines[b].start < x.start && s[x.start - 1] != 10 && s[
                        x.start - 1
                    ] != 13 ==> bodies == seq![Span { start: lines[b].start, end: x.start }]
                },
            }
        }),
{
    lemma_next(s, DocumentKind::Todo, 0, h);
    lemma_next(s, DocumentKind::Todo, h + 1, b);
}

/// A bookmark with a tag section before a section for its content or its source has its tags in
/// the first such tag section.
pub proof fn law_tags_before_content(x: Seq<assemble::SectionView>, i: int, j: int)
    requires
        0 <= i < j < x.len(),
        x[i].exact_tags,
        x[j].text == "Content"@ || x[j].text == "Source"@,
        forall|k: int| 0 <= k < i ==> !(#[trigger] x[k]).exact_tags,
    ensures
        assemble::canonical_tags(x) == i,
{
    assert(assemble::is_content_section(x[j]));
    lemma_leading(x, 0, i);
}

proof fn lemma_leading(x: Seq<assemble::SectionView>, from: int, i: int)
    requires
        0 <= from <= i <= x.len(),
        i < x.len() ==> x[i].exact_tags && assemble::content_after(x, i),
        forall|k: int|
            from <= k < i ==> !(#[trigger] x[k]).exact_tags || !assemble::content_after(x, k),
    ensures
        assemble::leading_tags(x, from) == i,
    decreases i - from,
{
    if from < i {
        assert(!x[from].exact_tags || !assemble::content_after(x, from));
        lemma_leading(x, from + 1, i);
    }
}

/// A bookmark without a section for content or source behind its tag sections has its tags in
/// the last of them.
pub proof fn law_tags_behind_content(x: Seq<assemble::SectionView>, i: int)
    requires
        0 <= i < x.len(),
        x[i].exact_tags,
        forall|k: int| i < k < x.len() ==> !(#[trigger] x[k]).exact_tags,
        forall|k: int, j: int|
            0 <= k < j < x.len() && (#[trigger] x[k]).exact_tags ==> (#[trigger] x[j]).text
                != "Content"@ && x[j].text != "Source"@,
    ensures
        assemble::canonical_tags(x) == i,
{
    assert forall|k: int| 0 <= k < x.len() implies !(#[trigger] x[k]).exact_tags
        || !assemble::content_after(x, k) by {
        if x[k].exact_tags && assemble::content_after(x, k) {
            let j = choose|j: int| k < j < x.len() && assemble::is_content_section(#[trigger] x[j]);
            assert(x[j].text != "Content"@ && x[j].text != "Source"@);
        }
    }
    lemma_leading(x, 0, x.len() as int);
    lemma_trailing(x, x.len() as int, i);
}

proof fn lemma_trailing(x: Seq<assemble::SectionView>, n: int, i: int)
    requires
        -1 <= i < n <= x.len() || (i == -1 && n == 0),
        i >= 0 ==> x[i].exact_tags,
        forall|k: int| i < k < n ==> !(#[trigger] x[k]).exact_tags,
    ensures
        assemble::trailing_tags(x, n) == i,
    decreases n,
{
    if n > 0 && i < n - 1 {
        assert(!x[n - 1].exact_tags);
        lemma_trailing(x, n - 1, i);
    }
}

/// A bookmark without a tag section has no tags.
pub proof fn law_no_tag_section(x: Seq<assemble::SectionView>)
    requires
        forall|k: int| 0 <= k < x.len() ==> !(#[trigger] x[k]).exact_tags,
    ensures
        assemble::canonical_tags(x) == -1,
{
    lemma_leading(x, 0, x.len() as int);
    lemma_trailing(x, x.len() as int, -1);
}

/// The heading of a reserved section is two `#`s, a space and its name, and nothing else.
pub proof fn law_reserved_sections_have_exact_headings(line: Seq<u8>, level: u8)
    ensures
        helpers::content_or_source(line, level) <==> level == 2 && (line == seq![
            35u8,
            35,
            32,
            67,
            111,
            110,
            116,
            101,
            110,
            116,
        ] || line == seq![35u8, 35, 32, 83, 111, 117, 114, 99, 101]),
        helpers::reserved_section(line, level) <==> level == 2 && (tags_heading(line)
            || helpers::content_or_source(line, level)),
{
    lemma_tags_heading(line);
    reveal_strlit("Content");
    reveal_strlit("Source");
    vstd::utf8::is_ascii_chars_encode_utf8("Content"@);
    vstd::utf8::is_ascii_chars_encode_utf8("Source"@);
    assert(helpers::reserved_heading("Content"@) =~= seq![
        35u8,
        35,
        32,
        67,
        111,
        110,
        116,
        101,
        110,
        116,
    ]);
    assert(helpers::reserved_heading("Source"@) =~= seq![
        35u8,
        35,
        32,
        83,
        111,
        117,
        114,
        99,
        101,
    ]);
}

/// The tags of a range of a source stand where they stand in the bytes of the range, counted
/// from its start.
pub proof fn law_tags_of_a_range(source: Seq<u8>, x: Span, k: int)
    requires
        0 <= x.start <= x.end <= source.len(),
    ensures
        ({
            let inside = helpers::tag_tokens(source.subrange(x.start, x.end), 0);
            let r = helpers::tag_tokens_in(source, Some(x));
            &&& r.len() == inside.len()
            &&& 0 <= k < inside.len() ==> r[k].start == inside[k].start + x.start && r[k].end
                == inside[k].end + x.start
            &&& helpers::tag_tokens_in(source, None).len() == 0
        }),
{
}

} // verus!
