//! How code fences and section headings shape a bookmark.

use vstd::prelude::*;

use crate::bytes;
use crate::parser;
use crate::parser::assemble;
use crate::parser::classify;
use crate::parser::document::DocumentKind;
use crate::parser::helpers;
use crate::parser::recognised;
use crate::parser::roles;
use crate::parser::types::{HeadingRole, Token};
use crate::tokenizer;
use crate::tokenizer::LineSpan;

verus! {

/// Three or more backticks, or three or more tildes, make a fence, also behind spaces; fewer do
/// not, and neither does any other start of a line.
pub proof fn law_fence_is_three_marks(spaces: nat, mark: u8, n: nat, rest: Seq<u8>)
    requires
        mark == 96 || mark == 126,
        n > 0,
        rest.len() > 0 ==> rest[0] != mark,
    ensures
        ({
            let front = recognised::run(32, spaces);
            let line = front + recognised::run(mark, n) + rest;
            &&& n >= 3 ==> classify::fence_mark(line) == Some((mark, n as int))
            &&& n < 3 ==> classify::fence_mark(line) is None
            &&& rest.len() > 0 && rest[0] != 32 && rest[0] != 96 && rest[0] != 126
                ==> classify::fence_mark(front + rest) is None
            &&& classify::fence_mark(front) is None
        }),
{
    let front = recognised::run(32, spaces);
    let marks = recognised::run(mark, n);
    let line = front + marks + rest;
    let p = helpers::not_space();
    let i = spaces as int;
    assert forall|k: int| 0 <= k < i implies !p(#[trigger] line[k]) by {
        assert(line[k] == front[k]);
    }
    assert(line[i] == marks[0]);
    bytes::lemma_find_from_is(line, p, 0, i);
    let t = line.skip(i);
    assert(t =~= marks + rest);
    let q = classify::not_byte(mark);
    assert forall|k: int| 0 <= k < n implies !q(#[trigger] t[k]) by {
        assert(t[k] == marks[k]);
    }
    if rest.len() > 0 {
        assert(t[n as int] == rest[0]);
    }
    bytes::lemma_find_from_is(t, q, 0, n as int);
    let three = seq![mark, mark, mark];
    if n >= 3 {
        assert(t.take(3) =~= three);
        assert(t[0] == mark);
        if mark == 126 && (seq![96u8, 96, 96]).is_prefix_of(t) {
            assert(t.take(3)[0] == 96);
        }
    } else {
        if three.is_prefix_of(t) {
            assert(t.take(3)[n as int] == mark);
            assert(t[n as int] == rest[0]);
        }
        let other: u8 = if mark == 96 {
            126
        } else {
            96
        };
        if (seq![other, other, other]).is_prefix_of(t) {
            assert(t.take(3)[0] == other);
        }
    }
    if rest.len() > 0 && rest[0] != 32 && rest[0] != 96 && rest[0] != 126 {
        let l = front + rest;
        assert forall|k: int| 0 <= k < i implies !p(#[trigger] l[k]) by {
            assert(l[k] == front[k]);
        }
        assert(l[i] == rest[0]);
        bytes::lemma_find_from_is(l, p, 0, i);
        let u = l.skip(i);
        assert(u[0] == rest[0]);
        lemma_no_marks(u);
    }
    assert forall|k: int| 0 <= k < i implies !p(#[trigger] front[k]) by {}
    bytes::lemma_find_from_is(front, p, 0, i);
    lemma_no_marks(front.skip(i));
}

proof fn lemma_no_marks(u: Seq<u8>)
    requires
        u.len() > 0 ==> u[0] != 96 && u[0] != 126,
    ensures
        !(seq![96u8, 96, 96]).is_prefix_of(u),
        !(seq![126u8, 126, 126]).is_prefix_of(u),
{
    if (seq![96u8, 96, 96]).is_prefix_of(u) {
        assert(u.take(3)[0] == 96);
        assert(u.take(3)[0] == u[0]);
    }
    if (seq![126u8, 126, 126]).is_prefix_of(u) {
        assert(u.take(3)[0] == 126);
        assert(u.take(3)[0] == u[0]);
    }
}

/// A fence that a line has open for the lines behind it.
pub open spec fn open_before(s: Seq<u8>, i: int) -> Option<(u8, int)> {
    classify::bookmark_scan(s, tokenizer::source_lines(s), i).fence
}

/// A line closes a fence when it is a fence of the same mark, and at least as long.
pub open spec fn closes(line: Seq<u8>, mark: u8, n: int) -> bool {
    classify::fence_mark(line) matches Some(x) && x.0 == mark && x.1 >= n
}

/// A fence stays open up to the next line that closes it, and every line inside it is text,
/// whatever it looks like. The line that closes it ends it.
pub proof fn law_lines_in_a_fence_are_text(s: Seq<u8>, j: int, mark: u8, n: int, i: int)
    requires
        0 <= j < i < tokenizer::source_lines(s).len(),
        open_before(s, j) is None,
        classify::fence_mark(roles::line_of(s, j)) == Some((mark, n)),
        forall|k: int| j < k < i ==> !closes(#[trigger] roles::line_of(s, k), mark, n),
    ensures
        open_before(s, i) == Some((mark, n)),
        parser::tokens_of(s, DocumentKind::Bookmark)[i] is Body,
        parser::tokens_of(s, DocumentKind::Bookmark)[j] is Body,
        closes(roles::line_of(s, i), mark, n) ==> open_before(s, i + 1) is None,
    decreases i,
{
    if j < i - 1 {
        law_lines_in_a_fence_are_text(s, j, mark, n, i - 1);
        assert(!closes(roles::line_of(s, i - 1), mark, n));
    }
    let l = tokenizer::source_lines(s);
    let before = classify::bookmark_scan(s, l, i - 1);
    assert(classify::bookmark_scan(s, l, i) == classify::bookmark_step(
        before,
        roles::line_of(s, i - 1),
    ));
    assert(classify::bookmark_scan(s, l, i + 1) == classify::bookmark_step(
        classify::bookmark_scan(s, l, i),
        roles::line_of(s, i),
    ));
}

/// A line before line `i` is the heading of the content or the source of a bookmark.
pub open spec fn content_before(s: Seq<u8>, i: int) -> bool {
    exists|j: int|
        0 <= j < i && (#[trigger] roles::line_of(s, j) == seq![
            35u8,
            35,
            32,
            67,
            111,
            110,
            116,
            101,
            110,
            116,
        ] || roles::line_of(s, j) == seq![35u8, 35, 32, 83, 111, 117, 114, 99, 101])
}

proof fn lemma_in_body(s: Seq<u8>, i: int)
    requires
        0 <= i <= tokenizer::source_lines(s).len(),
        forall|k: int|
            0 <= k < i ==> classify::fence_mark(#[trigger] roles::line_of(s, k)) is None,
    ensures
        classify::bookmark_scan(s, tokenizer::source_lines(s), i).fence is None,
        classify::bookmark_scan(s, tokenizer::source_lines(s), i).in_body == content_before(s, i),
    decreases i,
{
    if i > 0 {
        lemma_in_body(s, i - 1);
        let line = roles::line_of(s, i - 1);
        assert(classify::fence_mark(line) is None);
        roles::law_reserved_sections_have_exact_headings(line, 2);
        let content = seq![35u8, 35, 32, 67, 111, 110, 116, 101, 110, 116];
        let source = seq![35u8, 35, 32, 83, 111, 117, 114, 99, 101];
        let hit = line == content || line == source;
        if hit {
            lemma_section_heading(line);
        }
        let l = tokenizer::source_lines(s);
        let before = classify::bookmark_scan(s, l, i - 1);
        let after = classify::bookmark_scan(s, l, i);
        assert(after == classify::bookmark_step(before, line));
        if let Some(level) = helpers::heading_level(line) {
            roles::law_reserved_sections_have_exact_headings(line, level);
        }
        assert(after.in_body == (before.in_body || hit));
        if content_before(s, i - 1) {
            let j = choose|j: int|
                0 <= j < i - 1 && (#[trigger] roles::line_of(s, j) == content || roles::line_of(
                    s,
                    j,
                ) == source);
            assert(roles::line_of(s, j) == content || roles::line_of(s, j) == source);
            assert(content_before(s, i));
        }
        if content_before(s, i) && !hit {
            let j = choose|j: int|
                0 <= j < i && (#[trigger] roles::line_of(s, j) == content || roles::line_of(s, j)
                    == source);
            assert(j < i - 1);
            assert(content_before(s, i - 1));
        }
    }
}

/// The heading of a section for content or source is a heading of level two, and neither blank
/// nor a link.
proof fn lemma_section_heading(line: Seq<u8>)
    requires
        line == seq![35u8, 35, 32, 67, 111, 110, 116, 101, 110, 116] || line == seq![
            35u8,
            35,
            32,
            83,
            111,
            117,
            114,
            99,
            101,
        ],
    ensures
        helpers::heading_level(line) == Some(2u8),
        !helpers::blank(line),
        !helpers::url_line(line),
{
    let word = line.skip(3);
    assert(line =~= recognised::run(32, 0) + recognised::run(35, 2) + seq![32u8] + word);
    recognised::law_heading_has_its_level_and_text(0, 2, 32, word, 0);
    assert(line[0] == 35);
}

/// A heading of a bookmark opens a section when it is reserved, or when no heading for content
/// or source stands before it; behind such a heading, all others belong to the text. This
/// leaves out bookmarks with code fences before the heading.
pub proof fn law_headings_open_sections(s: Seq<u8>, i: int, level: u8)
    requires
        0 <= i < tokenizer::source_lines(s).len(),
        forall|k: int|
            0 <= k <= i ==> classify::fence_mark(#[trigger] roles::line_of(s, k)) is None,
        helpers::heading_level(roles::line_of(s, i)) == Some(level),
        roles::visible(s, i),
    ensures
        ({
            let line = roles::line_of(s, i);
            let reserved = line == seq![35u8, 35, 32, 84, 97, 103, 115] || line == seq![
                35u8,
                35,
                32,
                67,
                111,
                110,
                116,
                101,
                110,
                116,
            ] || line == seq![35u8, 35, 32, 83, 111, 117, 114, 99, 101];
            parser::tokens_of(s, DocumentKind::Bookmark)[i] matches Token::Heading {
                level: v,
                text,
                role,
            } && v == level && role == (if (level == 2 && reserved) || !content_before(s, i) {
                HeadingRole::SectionBoundary
            } else {
                HeadingRole::InternalBody
            })
        }),
{
    lemma_in_body(s, i);
    let line = roles::line_of(s, i);
    assert(classify::fence_mark(line) is None);
    roles::lemma_visible(s, i);
    roles::lemma_url_is_no_heading(line);
    roles::law_reserved_sections_have_exact_headings(line, level);
}

/// A section reaches from its heading to the next one, but for an empty line right before that;
/// the last section reaches to the end of the source.
pub proof fn law_sections_reach_to_the_next(
    s: Seq<u8>,
    l: Seq<LineSpan>,
    t: Seq<Token>,
    at: Seq<int>,
    k: int,
)
    requires
        0 <= k < at.len(),
        forall|j: int| 0 <= j < at.len() ==> 0 <= #[trigger] at[j] < l.len(),
        forall|i: int, j: int| 0 <= i < j < at.len() ==> at[i] < at[j],
    ensures
        ({
            let x = assemble::sections(s, l, t, at);
            &&& x.len() == at.len()
            &&& x[k].span.start == l[at[k]].start
            &&& k + 1 == at.len() ==> x[k].span.end == s.len()
            &&& k + 1 < at.len() ==> {
                let gap = at[k + 1] - 1;
                let empty = gap > at[k] && l[gap].content_end == l[gap].start;
                x[k].span.end == (if empty {
                    l[gap].start
                } else {
                    l[at[k + 1]].start
                })
            }
        }),
{
}

} // verus!
