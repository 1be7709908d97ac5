//! Classifies physical lines for each kind of document.

use crate::bytes;
use crate::bytes::{BACKTICK, TILDE};
use crate::parser::helpers;
use crate::parser::helpers::{
    atx_heading_level, heading_text, is_blank_line, is_exact_content_or_source_heading,
    is_exact_reserved_heading_text, is_exact_reserved_section, is_tags_prefix_line, is_url_line,
    strip_leading_spaces,
};
use crate::parser::types;
use crate::parser::types::{HeadingRole, MarkdownToken, Token};
use crate::text;
use crate::tokenizer;
use crate::tokenizer::{Line, LineSpan};
use vstd::prelude::*;

verus! {

/// The token of a heading line.
pub open spec fn heading_token(line: Seq<u8>, level: u8, role: HeadingRole) -> Token {
    Token::Heading { level, text: text::lossy_text(helpers::heading_text_bytes(line, level)), role }
}

/// How a line of a note is classified.
pub open spec fn note_token(line: Seq<u8>) -> Token {
    if helpers::blank(line) {
        Token::Blank
    } else if helpers::tags_prefix_line(line) {
        Token::TagsPrefix
    } else {
        match helpers::heading_level(line) {
            Some(level) => heading_token(
                line,
                level,
                if level == 1 {
                    HeadingRole::SectionBoundary
                } else {
                    HeadingRole::InternalBody
                },
            ),
            None => Token::Body,
        }
    }
}

/// How a line of a task is classified.
pub open spec fn todo_token(line: Seq<u8>) -> Token {
    if helpers::blank(line) {
        Token::Blank
    } else {
        match helpers::heading_level(line) {
            Some(level) => heading_token(
                line,
                level,
                if level == 2 && line == helpers::reserved_heading("Tags"@) {
                    HeadingRole::SectionBoundary
                } else {
                    HeadingRole::InternalBody
                },
            ),
            None => Token::Body,
        }
    }
}

/// What the lines read so far say about the next line of a bookmark.
pub struct BookmarkScan {
    /// The mark and the length of the code fence that is open.
    pub fence: Option<(u8, int)>,
    /// Whether a content or source heading has been seen.
    pub in_body: bool,
}

/// The code fence mark that a line starts with, and its length.
pub open spec fn fence_mark(line: Seq<u8>) -> Option<(u8, int)> {
    let rest = helpers::without_leading_spaces(line);
    if (seq![BACKTICK, BACKTICK, BACKTICK]).is_prefix_of(rest) {
        Some((BACKTICK, bytes::find_from(rest, not_byte(BACKTICK), 0)))
    } else if (seq![TILDE, TILDE, TILDE]).is_prefix_of(rest) {
        Some((TILDE, bytes::find_from(rest, not_byte(TILDE), 0)))
    } else {
        None
    }
}

/// The test for any byte but one.
pub open spec fn not_byte(mark: u8) -> spec_fn(u8) -> bool {
    |b: u8| b != mark
}

/// The scan state after one more line of a bookmark.
pub open spec fn bookmark_step(scan: BookmarkScan, line: Seq<u8>) -> BookmarkScan {
    match fence_mark(line) {
        Some((mark, run)) => BookmarkScan {
            fence: match scan.fence {
                None => Some((mark, run)),
                Some((open, len)) => if mark == open && run >= len {
                    None
                } else {
                    scan.fence
                },
            },
            ..scan
        },
        None => match scan.fence {
            Some(_) => scan,
            None => if helpers::blank(line) || helpers::url_line(line) {
                scan
            } else {
                match helpers::heading_level(line) {
                    Some(level) => BookmarkScan {
                        in_body: scan.in_body || helpers::content_or_source(line, level),
                        ..scan
                    },
                    None => scan,
                }
            },
        },
    }
}

/// How a line of a bookmark is classified, given what came before it.
pub open spec fn bookmark_token(scan: BookmarkScan, line: Seq<u8>) -> Token {
    if fence_mark(line) is Some || scan.fence is Some {
        Token::Body
    } else if helpers::blank(line) {
        Token::Blank
    } else if helpers::url_line(line) {
        Token::Url
    } else {
        match helpers::heading_level(line) {
            Some(level) => heading_token(
                line,
                level,
                if helpers::reserved_section(line, level) || !scan.in_body {
                    HeadingRole::SectionBoundary
                } else {
                    HeadingRole::InternalBody
                },
            ),
            None => Token::Body,
        }
    }
}

/// The scan state before line `i` of a bookmark.
pub open spec fn bookmark_scan(s: Seq<u8>, lines: Seq<LineSpan>, i: int) -> BookmarkScan
    decreases i,
{
    if i <= 0 {
        BookmarkScan { fence: None, in_body: false }
    } else {
        bookmark_step(bookmark_scan(s, lines, i - 1), lines[i - 1].content(s))
    }
}

/// The tokens of a note.
pub open spec fn note_tokens(s: Seq<u8>, lines: Seq<LineSpan>) -> Seq<Token> {
    Seq::new(lines.len(), |i: int| note_token(lines[i].content(s)))
}

/// The tokens of a task.
pub open spec fn todo_tokens(s: Seq<u8>, lines: Seq<LineSpan>) -> Seq<Token> {
    Seq::new(lines.len(), |i: int| todo_token(lines[i].content(s)))
}

/// The tokens of a bookmark.
pub open spec fn bookmark_tokens(s: Seq<u8>, lines: Seq<LineSpan>) -> Seq<Token> {
    Seq::new(lines.len(), |i: int| bookmark_token(bookmark_scan(s, lines, i), lines[i].content(s)))
}

/// Every line lies inside the source.
pub open spec fn lines_fit(s: Seq<u8>, lines: Seq<Line>) -> bool {
    forall|k: int| 0 <= k < lines.len() ==> tokenizer::line_ok(s, (#[trigger] lines[k])@)
}

/// A heading line is long enough for its indentation and its hashes.
proof fn lemma_heading_fits(line: Seq<u8>)
    requires
        helpers::heading_level(line) is Some,
    ensures
        helpers::indent(line) + helpers::heading_level(line)->0 <= line.len(),
{
    bytes::lemma_find_from(line, helpers::not_space(), 0);
    bytes::lemma_find_from(line, helpers::not_hash(), helpers::indent(line));
}

/// The heading token of `line`, if it is a heading.
fn heading_of(line: &[u8], level: u8, role: HeadingRole) -> (r: MarkdownToken)
    requires
        helpers::heading_level(line@) == Some(level),
    ensures
        r@ == heading_token(line@, level, role),
{
    proof {
        lemma_heading_fits(line@);
    }
    MarkdownToken::Heading { level, text: heading_text(line, level), role }
}

/// The content of a line.
fn content_of<'a>(source: &'a [u8], line: &Line) -> (r: &'a [u8])
    requires
        tokenizer::line_ok(source@, line@),
    ensures
        r@ == line@.content(source@),
{
    vstd::slice::slice_subrange(source, line.range.start, line.content_end)
}

/// Classify the lines of a note.
pub fn classify_note(source: &[u8], lines: &Vec<Line>) -> (r: Vec<MarkdownToken>)
    requires
        lines_fit(source@, lines@),
    ensures
        types::token_views(r@) == note_tokens(source@, tokenizer::line_spans(lines@)),
{
    let mut tokens: Vec<MarkdownToken> = Vec::new();
    let ghost all = note_tokens(source@, tokenizer::line_spans(lines@));
    let mut i: usize = 0;
    while i < lines.len()
        invariant
            i <= lines.len(),
            lines_fit(source@, lines@),
            all == note_tokens(source@, tokenizer::line_spans(lines@)),
            types::token_views(tokens@) == all.take(i as int),
        decreases lines.len() - i,
    {
        let content = content_of(source, &lines[i]);
        let token = if is_blank_line(content) {
            MarkdownToken::BlankLine
        } else if is_tags_prefix_line(content) {
            MarkdownToken::TagsPrefix
        } else {
            match atx_heading_level(content) {
                Some(level) => {
                    let role = if level == 1 {
                        HeadingRole::SectionBoundary
                    } else {
                        HeadingRole::InternalBody
                    };
                    heading_of(content, level, role)
                },
                None => MarkdownToken::Body,
            }
        };
        let ghost before = tokens@;
        tokens.push(token);
        proof {
            assert(token@ == all[i as int]);
            assert(types::token_views(tokens@) =~= types::token_views(before).push(token@));
            assert(all.take(i + 1) =~= all.take(i as int).push(all[i as int]));
        }
        i += 1;
    }
    assert(all.take(all.len() as int) =~= all);
    tokens
}

/// Classify the lines of a task.
pub fn classify_todo(source: &[u8], lines: &Vec<Line>) -> (r: Vec<MarkdownToken>)
    requires
        lines_fit(source@, lines@),
    ensures
        types::token_views(r@) == todo_tokens(source@, tokenizer::line_spans(lines@)),
{
    let mut tokens: Vec<MarkdownToken> = Vec::new();
    let ghost all = todo_tokens(source@, tokenizer::line_spans(lines@));
    let mut i: usize = 0;
    while i < lines.len()
        invariant
            i <= lines.len(),
            lines_fit(source@, lines@),
            all == todo_tokens(source@, tokenizer::line_spans(lines@)),
            types::token_views(tokens@) == all.take(i as int),
        decreases lines.len() - i,
    {
        let content = content_of(source, &lines[i]);
        let token = if is_blank_line(content) {
            MarkdownToken::BlankLine
        } else {
            match atx_heading_level(content) {
                Some(level) => {
                    let role = if level == 2 && is_exact_reserved_heading_text(content, "Tags") {
                        HeadingRole::SectionBoundary
                    } else {
                        HeadingRole::InternalBody
                    };
                    heading_of(content, level, role)
                },
                None => MarkdownToken::Body,
            }
        };
        let ghost before = tokens@;
        tokens.push(token);
        proof {
            assert(token@ == all[i as int]);
            assert(types::token_views(tokens@) =~= types::token_views(before).push(token@));
            assert(all.take(i + 1) =~= all.take(i as int).push(all[i as int]));
        }
        i += 1;
    }
    assert(all.take(all.len() as int) =~= all);
    tokens
}

/// The length of the run of `mark` at the start of `line`.
fn run_of(line: &[u8], mark: u8) -> (r: usize)
    ensures
        r == bytes::find_from(line@, not_byte(mark), 0),
{
    let mut i: usize = 0;
    while i < line.len() && line[i] == mark
        invariant
            i <= line.len(),
            forall|k: int| 0 <= k < i ==> !not_byte(mark)(#[trigger] line@[k]),
        decreases line.len() - i,
    {
        i += 1;
    }
    proof {
        bytes::lemma_find_from_is(line@, not_byte(mark), 0, i as int);
    }
    i
}

/// The code fence mark that a line starts with, and its length.
fn fence_of(line: &[u8]) -> (r: Option<(u8, usize)>)
    ensures
        match r {
            Some((mark, run)) => fence_mark(line@) == Some((mark, run as int)),
            None => fence_mark(line@) is None,
        },
{
    let rest = strip_leading_spaces(line);
    if bytes::starts_with(rest, &[BACKTICK, BACKTICK, BACKTICK]) {
        Some((BACKTICK, run_of(rest, BACKTICK)))
    } else if bytes::starts_with(rest, &[TILDE, TILDE, TILDE]) {
        Some((TILDE, run_of(rest, TILDE)))
    } else {
        None
    }
}

/// Classify the lines of a bookmark. Lines inside a code fence are body text, and the role
/// of a heading depends on whether a content or source heading came before it.
pub fn classify_bookmark(source: &[u8], lines: &Vec<Line>) -> (r: Vec<MarkdownToken>)
    requires
        lines_fit(source@, lines@),
    ensures
        types::token_views(r@) == bookmark_tokens(source@, tokenizer::line_spans(lines@)),
{
    let mut tokens: Vec<MarkdownToken> = Vec::new();
    let ghost spans = tokenizer::line_spans(lines@);
    let ghost all = bookmark_tokens(source@, spans);
    let mut fence: Option<(u8, usize)> = None;
    let mut in_body = false;
    let mut i: usize = 0;
    while i < lines.len()
        invariant
            i <= lines.len(),
            lines_fit(source@, lines@),
            spans == tokenizer::line_spans(lines@),
            all == bookmark_tokens(source@, spans),
            types::token_views(tokens@) == all.take(i as int),
            in_body == bookmark_scan(source@, spans, i as int).in_body,
            match fence {
                Some((mark, run)) => bookmark_scan(source@, spans, i as int).fence == Some(
                    (mark, run as int),
                ),
                None => bookmark_scan(source@, spans, i as int).fence is None,
            },
        decreases lines.len() - i,
    {
        let content = content_of(source, &lines[i]);
        let ghost scan = bookmark_scan(source@, spans, i as int);
        assert(bookmark_scan(source@, spans, i + 1) == bookmark_step(scan, content@));
        let token = match fence_of(content) {
            Some((mark, run)) => {
                match fence {
                    None => {
                        fence = Some((mark, run));
                    },
                    Some((open, len)) => {
                        if mark == open && run >= len {
                            fence = None;
                        }
                    },
                }
                MarkdownToken::Body
            },
            None => {
                if fence.is_some() {
                    MarkdownToken::Body
                } else if is_blank_line(content) {
                    MarkdownToken::BlankLine
                } else if is_url_line(content) {
                    MarkdownToken::Url
                } else {
                    match atx_heading_level(content) {
                        Some(level) => {
                            let role = if is_exact_reserved_section(content, level) || !in_body {
                                HeadingRole::SectionBoundary
                            } else {
                                HeadingRole::InternalBody
                            };
                            if is_exact_content_or_source_heading(content, level) {
                                in_body = true;
                            }
                            heading_of(content, level, role)
                        },
                        None => MarkdownToken::Body,
                    }
                }
            },
        };
        let ghost before = tokens@;
        tokens.push(token);
        proof {
            assert(token@ == all[i as int]);
            assert(types::token_views(tokens@) =~= types::token_views(before).push(token@));
            assert(all.take(i + 1) =~= all.take(i as int).push(all[i as int]));
        }
        i += 1;
    }
    assert(all.take(all.len() as int) =~= all);
    tokens
}

/// A blank line carries no code fence mark.
pub proof fn lemma_blank_opens_no_fence(line: Seq<u8>)
    requires
        helpers::blank(line),
    ensures
        fence_mark(line) is None,
{
    let rest = helpers::without_leading_spaces(line);
    bytes::lemma_find_from(line, helpers::not_space(), 0);
    let at = bytes::find_from(line, helpers::not_space(), 0);
    if rest.len() > 0 {
        assert(rest[0] == line[at]);
        assert(bytes::is_space_or_tab(line[at]));
        if (seq![BACKTICK, BACKTICK, BACKTICK]).is_prefix_of(rest) {
            assert(rest.subrange(0, 3)[0] == BACKTICK);
        }
        if (seq![TILDE, TILDE, TILDE]).is_prefix_of(rest) {
            assert(rest.subrange(0, 3)[0] == TILDE);
        }
    }
}

} // verus!
