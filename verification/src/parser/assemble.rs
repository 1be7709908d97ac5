//! Assembles classified lines into an ownership partition.

use crate::bytes;
use crate::bytes::{ByteRange, Span, CR, LF};
use crate::parser::classify;
use crate::parser::document::DocumentKind;
use crate::parser::helpers;
use crate::parser::helpers::is_exact_reserved_heading_text;
use crate::parser::partition;
use crate::parser::partition::{Partition, PartitionView};
use crate::parser::types;
use crate::parser::types::{HeadingRole, MarkdownToken, Token};
use crate::text;
use crate::tokenizer;
use crate::tokenizer::{Line, LineSpan, Preamble};
use vstd::prelude::*;

verus! {

/// The test for a token other than a blank line.
pub open spec fn has_content() -> spec_fn(Token) -> bool {
    |t: Token| t !is Blank
}

/// The first token at or after `i` that is not a blank line.
pub open spec fn next_content(t: Seq<Token>, i: int) -> int {
    bytes::find_from(t, has_content(), i)
}

/// The spans of the blank lines among the lines `[0, b)`.
pub open spec fn blank_spans(l: Seq<LineSpan>, t: Seq<Token>, b: int) -> Seq<Span>
    decreases b,
{
    if b <= 0 {
        Seq::empty()
    } else if t[b - 1] is Blank {
        blank_spans(l, t, b - 1).push(l[b - 1].span())
    } else {
        blank_spans(l, t, b - 1)
    }
}

/// A level-one heading.
pub open spec fn is_title(t: Token) -> bool {
    t matches Token::Heading { level, .. } && level == 1
}

/// The span of line `i` when `present`.
pub open spec fn span_if(l: Seq<LineSpan>, i: int, present: bool) -> Option<Span> {
    if present {
        Some(l[i].span())
    } else {
        None
    }
}

/// The span from line `b` to the end of a source of `len` bytes, when there is such a line.
pub open spec fn rest_from(l: Seq<LineSpan>, b: int, len: int) -> Seq<Span> {
    if b < l.len() {
        seq![Span { start: l[b].start, end: len }]
    } else {
        Seq::empty()
    }
}

/// The partition of a note: an optional title, an optional tag line, blank lines between
/// them, and everything from the next line on as the body.
pub open spec fn note_partition(s: Seq<u8>, l: Seq<LineSpan>, t: Seq<Token>) -> PartitionView {
    let h = next_content(t, 0);
    let titled = h < t.len() && is_title(t[h]);
    let u = if titled {
        next_content(t, h + 1)
    } else {
        h
    };
    let tagged = u < t.len() && t[u] is TagsPrefix;
    let b = if tagged {
        next_content(t, u + 1)
    } else {
        u
    };
    PartitionView {
        kind: DocumentKind::Note,
        prefix: Span { start: 0, end: tokenizer::preamble_len(s) },
        title: span_if(l, h, titled),
        url: None,
        tags: span_if(l, u, tagged),
        separators: blank_spans(l, t, b),
        bodies: rest_from(l, b, s.len() as int),
    }
}

/// The last heading among the first `n` tokens, or -1.
pub open spec fn last_heading(t: Seq<Token>, n: int) -> int
    decreases n,
{
    if n <= 0 {
        -1
    } else if t[n - 1] is Heading {
        n - 1
    } else {
        last_heading(t, n - 1)
    }
}

/// A heading that opens the tag section of a task.
pub open spec fn is_tag_boundary(t: Token) -> bool {
    t matches Token::Heading { text, role, .. } && text == "Tags"@ && role
        == HeadingRole::SectionBoundary
}

/// Where the line break directly before `end` begins, looking no further back than `floor`.
pub open spec fn break_before(s: Seq<u8>, floor: int, end: int) -> int {
    if end > floor && s[end - 1] == LF {
        if end - 1 > floor && s[end - 2] == CR {
            end - 2
        } else {
            end - 1
        }
    } else if end > floor && s[end - 1] == CR {
        end - 1
    } else {
        end
    }
}

/// Whether the bytes from `floor` to `end` close with an empty line.
pub open spec fn ends_with_empty_line(s: Seq<u8>, floor: int, end: int) -> bool {
    let at = break_before(s, floor, end);
    at < end && (at == floor || (at > 0 && bytes::is_line_break(s[at - 1])))
}

/// The partition of a task, if it has a non-blank line. That line is the title, whatever it
/// looks like. The last heading opens the tag section when it stands behind the title and
/// reads exactly `## Tags`; an empty line before it separates the body from it.
pub open spec fn todo_partition(s: Seq<u8>, l: Seq<LineSpan>, t: Seq<Token>) -> Option<
    PartitionView,
> {
    let h = next_content(t, 0);
    if h >= t.len() {
        None
    } else {
        let b = next_content(t, h + 1);
        let k = last_heading(t, t.len() as int);
        let tagged = k > h && is_tag_boundary(t[k]);
        let tag = Span { start: l[k].start, end: s.len() as int };
        let floor = l[b].start;
        let split = tagged && b < t.len() && floor < tag.start && ends_with_empty_line(
            s,
            floor,
            tag.start,
        );
        let at = break_before(s, floor, tag.start);
        Some(
            PartitionView {
                kind: DocumentKind::Todo,
                prefix: Span { start: 0, end: tokenizer::preamble_len(s) },
                title: Some(l[h].span()),
                url: None,
                tags: if tagged {
                    Some(tag)
                } else {
                    None
                },
                separators: blank_spans(l, t, b) + (if split {
                    seq![Span { start: at, end: tag.start }]
                } else {
                    Seq::empty()
                }),
                bodies: if !tagged {
                    rest_from(l, b, s.len() as int)
                } else if b >= t.len() || floor >= tag.start {
                    Seq::empty()
                } else if !split {
                    seq![Span { start: floor, end: tag.start }]
                } else if floor < at {
                    seq![Span { start: floor, end: at }]
                } else {
                    Seq::empty()
                },
            },
        )
    }
}

/// The lines among the first `n` that are headings of level two or deeper.
pub open spec fn section_lines(t: Seq<Token>, n: int) -> Seq<int>
    decreases n,
{
    if n <= 0 {
        Seq::empty()
    } else if t[n - 1] matches Token::Heading { level, .. } && level >= 2 {
        section_lines(t, n - 1).push(n - 1)
    } else {
        section_lines(t, n - 1)
    }
}

/// The model of a section.
pub struct SectionView {
    pub span: Span,
    pub text: Seq<char>,
    pub role: HeadingRole,
    /// The heading line reads exactly `## Tags`.
    pub exact_tags: bool,
}

/// Where the section that line `a` opens ends, when the next section opens at line `next`:
/// an empty line directly before the next heading stays outside.
pub open spec fn section_end(l: Seq<LineSpan>, a: int, next: int) -> int {
    if next - 1 > a && l[next - 1].content_end == l[next - 1].start {
        l[next - 1].start
    } else {
        l[next].start
    }
}

/// The sections that the given heading lines open.
pub open spec fn sections(
    s: Seq<u8>,
    l: Seq<LineSpan>,
    t: Seq<Token>,
    at: Seq<int>,
) -> Seq<SectionView> {
    Seq::new(
        at.len(),
        |k: int|
            SectionView {
                span: Span {
                    start: l[at[k]].start,
                    end: if k + 1 < at.len() {
                        section_end(l, at[k], at[k + 1])
                    } else {
                        s.len() as int
                    },
                },
                text: t[at[k]]->text,
                role: t[at[k]]->role,
                exact_tags: t[at[k]]->text == "Tags"@ && l[at[k]].content(s)
                    == helpers::reserved_heading("Tags"@),
            },
    )
}

/// A section named for the content or the source of a bookmark.
pub open spec fn is_content_section(x: SectionView) -> bool {
    x.text == "Content"@ || x.text == "Source"@
}

/// Whether a content or source section follows section `i`.
pub open spec fn content_after(x: Seq<SectionView>, i: int) -> bool {
    exists|j: int| i < j < x.len() && is_content_section(#[trigger] x[j])
}

/// The first exact tag section from `i` on that precedes content or source, or the length.
pub open spec fn leading_tags(x: Seq<SectionView>, i: int) -> int
    decreases x.len() - i,
{
    if i < 0 || i >= x.len() {
        x.len() as int
    } else if x[i].exact_tags && content_after(x, i) {
        i
    } else {
        leading_tags(x, i + 1)
    }
}

/// The last exact tag section among the first `n`, or -1.
pub open spec fn trailing_tags(x: Seq<SectionView>, n: int) -> int
    decreases n,
{
    if n <= 0 {
        -1
    } else if x[n - 1].exact_tags {
        n - 1
    } else {
        trailing_tags(x, n - 1)
    }
}

/// The section that holds a bookmark's tags: the first exact one before content or source,
/// else the last exact one; -1 when there is none.
pub open spec fn canonical_tags(x: Seq<SectionView>) -> int {
    if leading_tags(x, 0) < x.len() {
        leading_tags(x, 0)
    } else {
        trailing_tags(x, x.len() as int)
    }
}

/// What the walk over a bookmark's sections has assigned so far.
#[verifier::ext_equal]
pub struct Walk {
    pub separators: Seq<Span>,
    pub bodies: Seq<Span>,
    /// The body fragment that later headings may still extend.
    pub open: Option<Span>,
    pub cursor: int,
}

/// `[from, to)` as a list of spans: none when it is empty.
pub open spec fn gap(from: int, to: int) -> Seq<Span> {
    if from < to {
        seq![Span { start: from, end: to }]
    } else {
        Seq::empty()
    }
}

/// The walk after one more section. The tag section closes the open fragment; a heading
/// inside a body extends it; any other section closes it and opens a fragment of its own,
/// which for the first section takes in the text before it.
pub open spec fn walk_step(w: Walk, x: SectionView, first: bool, is_tags: bool) -> Walk {
    if is_tags {
        Walk {
            separators: w.separators + gap(w.cursor, x.span.start),
            bodies: w.bodies + partition::opt_seq(w.open),
            open: None,
            cursor: x.span.end,
        }
    } else if x.role == HeadingRole::InternalBody && w.open is Some {
        Walk {
            open: Some(Span { start: w.open->0.start, end: x.span.end }),
            cursor: x.span.end,
            ..w
        }
    } else if first {
        Walk {
            separators: w.separators,
            bodies: w.bodies + partition::opt_seq(w.open),
            open: Some(Span { start: w.cursor, end: x.span.end }),
            cursor: x.span.end,
        }
    } else {
        Walk {
            separators: w.separators + gap(w.cursor, x.span.start),
            bodies: w.bodies + partition::opt_seq(w.open),
            open: Some(x.span),
            cursor: x.span.end,
        }
    }
}

/// The walk after the first `n` sections.
pub open spec fn walk(w: Walk, x: Seq<SectionView>, tags: int, n: int) -> Walk
    decreases n,
{
    if n <= 0 {
        w
    } else {
        walk_step(walk(w, x, tags, n - 1), x[n - 1], n == 1, n - 1 == tags)
    }
}

/// The partition of a bookmark, if it has a non-blank line: an optional title, an optional
/// URL line, then sections from which one tag section is set apart.
pub open spec fn bookmark_partition(s: Seq<u8>, l: Seq<LineSpan>, t: Seq<Token>) -> Option<
    PartitionView,
> {
    let h = next_content(t, 0);
    if h >= t.len() {
        None
    } else {
        let titled = is_title(t[h]);
        let u = if titled {
            next_content(t, h + 1)
        } else {
            h
        };
        let linked = u < t.len() && t[u] is Url;
        let b = if linked {
            next_content(t, u + 1)
        } else {
            u
        };
        let cursor = if b < t.len() {
            l[b].start
        } else {
            s.len() as int
        };
        let x = sections(s, l, t, section_lines(t, t.len() as int));
        let tags = canonical_tags(x);
        let start = Walk {
            separators: blank_spans(l, t, b),
            bodies: Seq::empty(),
            open: None,
            cursor,
        };
        let w = walk(start, x, tags, x.len() as int);
        Some(
            PartitionView {
                kind: DocumentKind::Bookmark,
                prefix: Span { start: 0, end: tokenizer::preamble_len(s) },
                title: span_if(l, h, titled),
                url: span_if(l, u, linked),
                tags: if tags >= 0 {
                    Some(x[tags].span)
                } else {
                    None
                },
                separators: w.separators,
                bodies: if x.len() == 0 {
                    gap(cursor, s.len() as int)
                } else {
                    w.bodies + partition::opt_seq(w.open)
                },
            },
        )
    }
}

/// The lines and tokens belong to one source.
pub open spec fn fits(s: Seq<u8>, l: Seq<LineSpan>, t: Seq<Token>) -> bool {
    &&& l == tokenizer::source_lines(s)
    &&& t.len() == l.len()
}

/// Where line `k` starts, or the end of the source.
pub open spec fn line_start(s: Seq<u8>, l: Seq<LineSpan>, k: int) -> int {
    if k < l.len() {
        l[k].start
    } else {
        s.len() as int
    }
}

/// The lines of a source tile what follows its preamble.
pub proof fn lemma_source_lines(s: Seq<u8>)
    ensures
        tokenizer::lines_tile(
            s,
            tokenizer::source_lines(s),
            tokenizer::preamble_len(s),
            s.len() as int,
        ),
        line_start(s, tokenizer::source_lines(s), 0) == tokenizer::preamble_len(s),
        0 <= tokenizer::preamble_len(s) <= s.len(),
{
    tokenizer::lemma_lines_from(s, tokenizer::preamble_len(s));
}

/// Each line ends where the next starts.
pub proof fn lemma_line_ends(s: Seq<u8>, l: Seq<LineSpan>, k: int)
    requires
        l == tokenizer::source_lines(s),
        0 <= k < l.len(),
    ensures
        l[k].end == line_start(s, l, k + 1),
        tokenizer::line_ok(s, l[k]),
{
    lemma_source_lines(s);
    assert(tokenizer::line_ok(s, l[k]));
    if k + 1 < l.len() {
        assert(tokenizer::adjoin(l, k));
    }
}

/// Line starts grow with the line number.
pub proof fn lemma_line_starts(s: Seq<u8>, l: Seq<LineSpan>, a: int, b: int)
    requires
        l == tokenizer::source_lines(s),
        0 <= a < b <= l.len(),
    ensures
        l[a].end <= line_start(s, l, b),
        l[a].start < line_start(s, l, b),
    decreases b - a,
{
    lemma_line_ends(s, l, a);
    lemma_line_ends(s, l, b - 1);
    if a < b - 1 {
        lemma_line_starts(s, l, a, b - 1);
    }
}

/// The head of a document among the first `k` lines: title, second line, blank lines.
pub open spec fn head(
    l: Seq<LineSpan>,
    t: Seq<Token>,
    h: int,
    titled: bool,
    u: int,
    second: bool,
    k: int,
) -> Seq<Span> {
    partition::opt_seq(span_if(l, h, titled && h < k)) + partition::opt_seq(
        span_if(l, u, second && u < k),
    ) + blank_spans(l, t, k)
}

/// When each of the first `k` lines is the title, the second line or blank, the head tiles
/// them.
proof fn lemma_head_tiles(
    s: Seq<u8>,
    l: Seq<LineSpan>,
    t: Seq<Token>,
    h: int,
    titled: bool,
    u: int,
    second: bool,
    k: int,
)
    requires
        fits(s, l, t),
        0 <= k <= t.len(),
        forall|j: int|
            0 <= j < k ==> ((#[trigger] t[j]) is Blank <==> !(titled && j == h) && !(second && j
                == u)),
        titled && second ==> h < u,
        titled ==> 0 <= h,
        second ==> 0 <= u,
    ensures
        partition::tiles(
            head(l, t, h, titled, u, second, k),
            tokenizer::preamble_len(s),
            line_start(s, l, k),
        ),
    decreases k,
{
    let from = tokenizer::preamble_len(s);
    lemma_source_lines(s);
    let now = head(l, t, h, titled, u, second, k);
    if k == 0 {
        assert(now =~= Seq::<Span>::empty());
        partition::lemma_tiles_empty(from);
    } else {
        lemma_head_tiles(s, l, t, h, titled, u, second, k - 1);
        lemma_line_ends(s, l, k - 1);
        let before = head(l, t, h, titled, u, second, k - 1);
        let x = l[k - 1].span();
        let a = partition::opt_seq(span_if(l, h, titled && h < k - 1));
        let b = partition::opt_seq(span_if(l, u, second && u < k - 1));
        assert(from <= l[k - 1].start) by {
            if k - 1 > 0 {
                lemma_line_starts(s, l, 0, k - 1);
            }
        }
        if titled && h == k - 1 {
            assert(!(second && u < k));
            assert(now =~= before.insert(0, x));
            partition::lemma_tiles_insert(before, from, l[k - 1].start, 0, x);
        } else if second && u == k - 1 {
            let at = a.len() as int;
            assert(now =~= before.insert(at, x));
            partition::lemma_tiles_insert(before, from, l[k - 1].start, at, x);
        } else {
            assert(t[k - 1] is Blank);
            let at = before.len() as int;
            assert(now =~= before.insert(at, x));
            partition::lemma_tiles_insert(before, from, l[k - 1].start, at, x);
        }
    }
}

/// `next_content` stops at the first line that is not blank.
pub proof fn lemma_next_content(t: Seq<Token>, i: int)
    requires
        0 <= i <= t.len(),
    ensures
        i <= next_content(t, i) <= t.len(),
        next_content(t, i) < t.len() ==> t[next_content(t, i)] !is Blank,
        forall|k: int| i <= k < next_content(t, i) ==> (#[trigger] t[k]) is Blank,
{
    bytes::lemma_find_from(t, has_content(), i);
    assert forall|k: int| i <= k < next_content(t, i) implies (#[trigger] t[k]) is Blank by {
        assert(!has_content()(t[k]));
    }
    if next_content(t, i) < t.len() {
        assert(has_content()(t[next_content(t, i)]));
    }
}

/// Every byte of a note belongs to exactly one range of its partition.
pub proof fn lemma_note_tiles(s: Seq<u8>, l: Seq<LineSpan>, t: Seq<Token>)
    requires
        fits(s, l, t),
    ensures
        partition::tiles(
            note_partition(s, l, t).pieces(),
            tokenizer::preamble_len(s),
            s.len() as int,
        ),
{
    lemma_source_lines(s);
    let h = next_content(t, 0);
    lemma_next_content(t, 0);
    let titled = h < t.len() && is_title(t[h]);
    let u = if titled {
        next_content(t, h + 1)
    } else {
        h
    };
    if titled {
        lemma_next_content(t, h + 1);
    }
    let tagged = u < t.len() && t[u] is TagsPrefix;
    let b = if tagged {
        next_content(t, u + 1)
    } else {
        u
    };
    if tagged {
        lemma_next_content(t, u + 1);
    }
    lemma_head_tiles(s, l, t, h, titled, u, tagged, b);
    let before = head(l, t, h, titled, u, tagged, b);
    let pieces = note_partition(s, l, t).pieces();
    let from = tokenizer::preamble_len(s);
    if b < t.len() {
        let x = Span { start: l[b].start, end: s.len() as int };
        lemma_line_ends(s, l, b);
        if b > 0 {
            lemma_line_starts(s, l, 0, b);
        }
        assert(pieces =~= before.insert(before.len() as int, x));
        partition::lemma_tiles_insert(before, from, x.start, before.len() as int, x);
    } else {
        assert(pieces =~= before);
    }
}

/// The last heading is a heading, and no heading follows it.
pub proof fn lemma_last_heading(t: Seq<Token>, n: int)
    requires
        0 <= n <= t.len(),
    ensures
        -1 <= last_heading(t, n) < n,
        last_heading(t, n) >= 0 ==> t[last_heading(t, n)] is Heading,
        forall|k: int| last_heading(t, n) < k < n ==> (#[trigger] t[k]) !is Heading,
    decreases n,
{
    if n > 0 && t[n - 1] !is Heading {
        lemma_last_heading(t, n - 1);
    }
}

/// Every byte of a task belongs to exactly one range of its partition.
pub proof fn lemma_todo_tiles(s: Seq<u8>, l: Seq<LineSpan>, t: Seq<Token>)
    requires
        fits(s, l, t),
        todo_partition(s, l, t) is Some,
    ensures
        partition::tiles(
            todo_partition(s, l, t)->0.pieces(),
            tokenizer::preamble_len(s),
            s.len() as int,
        ),
{
    lemma_source_lines(s);
    let from = tokenizer::preamble_len(s);
    let h = next_content(t, 0);
    lemma_next_content(t, 0);
    let b = next_content(t, h + 1);
    lemma_next_content(t, h + 1);
    let k = last_heading(t, t.len() as int);
    lemma_last_heading(t, t.len() as int);
    lemma_head_tiles(s, l, t, h, true, 0, false, b);
    let before = head(l, t, h, true, 0, false, b);
    let n = before.len() as int;
    let p = todo_partition(s, l, t)->0;
    let pieces = p.pieces();
    lemma_line_starts(s, l, 0, b);
    let tagged = k > h && is_tag_boundary(t[k]);
    if !tagged {
        if b < t.len() {
            let x = Span { start: l[b].start, end: s.len() as int };
            lemma_line_ends(s, l, b);
            assert(pieces =~= before.insert(n, x));
            partition::lemma_tiles_insert(before, from, x.start, n, x);
        } else {
            assert(pieces =~= before);
        }
    } else {
        assert(k >= b) by {
            if k < b {
                assert(t[k] is Blank);
            }
        }
        let tag = Span { start: l[k].start, end: s.len() as int };
        lemma_line_ends(s, l, k);
        let floor = l[b].start;
        if b < k {
            lemma_line_starts(s, l, b, k);
            let split = ends_with_empty_line(s, floor, tag.start);
            let at = break_before(s, floor, tag.start);
            if !split {
                let body = Span { start: floor, end: tag.start };
                let one = before.insert(n, body);
                partition::lemma_tiles_insert(before, from, floor, n, body);
                assert(pieces =~= one.insert(n, tag));
                partition::lemma_tiles_insert(one, from, tag.start, n, tag);
            } else {
                let sep = Span { start: at, end: tag.start };
                let body = Span { start: floor, end: at };
                let one = if floor < at {
                    before.insert(n, body)
                } else {
                    before
                };
                if floor < at {
                    partition::lemma_tiles_insert(before, from, floor, n, body);
                }
                let two = one.insert(n, sep);
                partition::lemma_tiles_insert(one, from, at, n, sep);
                assert(pieces =~= two.insert(n + 1, tag));
                partition::lemma_tiles_insert(two, from, tag.start, n + 1, tag);
            }
        } else {
            assert(pieces =~= before.insert(n, tag));
            partition::lemma_tiles_insert(before, from, tag.start, n, tag);
        }
    }
}

/// The section lines are the deeper headings, in order.
proof fn lemma_section_lines(t: Seq<Token>, n: int)
    requires
        0 <= n <= t.len(),
    ensures
        forall|k: int|
            0 <= k < section_lines(t, n).len() ==> 0 <= (#[trigger] section_lines(t, n)[k]) < n
                && (t[section_lines(t, n)[k]] matches Token::Heading { level, .. } && level >= 2),
        forall|i: int, j: int|
            0 <= i < j < section_lines(t, n).len() ==> (#[trigger] section_lines(t, n)[i]) < (
            #[trigger] section_lines(t, n)[j]),
    decreases n,
{
    if n > 0 {
        lemma_section_lines(t, n - 1);
    }
}

/// Section `k` ends no later than section `k + 1` starts.
pub open spec fn precedes(x: Seq<SectionView>, k: int) -> bool {
    x[k].span.end <= x[k + 1].span.start
}

/// Non-empty sections in order, the first at or after `cursor`, the last up to `len`.
pub open spec fn sections_in_order(x: Seq<SectionView>, cursor: int, len: int) -> bool {
    &&& forall|k: int| 0 <= k < x.len() ==> (#[trigger] x[k]).span.start < x[k].span.end
    &&& forall|k: int| 0 <= k < x.len() - 1 ==> #[trigger] precedes(x, k)
    &&& x.len() > 0 ==> cursor <= x[0].span.start && x.last().span.end == len
}

/// One section is not empty and ends before the next.
proof fn lemma_section_ordered(
    s: Seq<u8>,
    l: Seq<LineSpan>,
    t: Seq<Token>,
    at: Seq<int>,
    k: int,
)
    requires
        fits(s, l, t),
        0 <= k < at.len(),
        0 <= at[k] < l.len(),
        k + 1 < at.len() ==> at[k] < at[k + 1] < l.len(),
    ensures
        sections(s, l, t, at)[k].span.start < sections(s, l, t, at)[k].span.end,
        k + 1 < at.len() ==> precedes(sections(s, l, t, at), k),
{
    let a = at[k];
    lemma_line_ends(s, l, a);
    if k + 1 < at.len() {
        let next = at[k + 1];
        lemma_line_starts(s, l, a, next);
        lemma_line_ends(s, l, next - 1);
        if next - 1 > a {
            lemma_line_starts(s, l, a, next - 1);
        }
    }
}

pub proof fn lemma_sections_in_order(s: Seq<u8>, l: Seq<LineSpan>, t: Seq<Token>, b: int)
    requires
        fits(s, l, t),
        0 <= b <= t.len(),
        forall|j: int|
            0 <= j < b ==> !((#[trigger] t[j]) matches Token::Heading { level, .. } && level >= 2),
    ensures
        sections_in_order(
            sections(s, l, t, section_lines(t, t.len() as int)),
            line_start(s, l, b),
            s.len() as int,
        ),
{
    let at = section_lines(t, t.len() as int);
    lemma_section_lines(t, t.len() as int);
    let x = sections(s, l, t, at);
    assert forall|k: int| 0 <= k < x.len() implies (#[trigger] x[k]).span.start
        < x[k].span.end by {
        lemma_section_ordered(s, l, t, at, k);
    }
    assert forall|k: int| 0 <= k < x.len() - 1 implies #[trigger] precedes(x, k) by {
        lemma_section_ordered(s, l, t, at, k);
    }
    if x.len() > 0 {
        let a = at[0];
        assert(a >= b) by {
            if a < b {
                assert(!(t[a] matches Token::Heading { level, .. } && level >= 2));
            }
        }
        if a > b {
            lemma_line_starts(s, l, b, a);
        }
    }
}

/// Everything that a walk has assigned, given the title and URL and the tag section it has
/// passed.
pub open spec fn walk_pieces(tu: Seq<Span>, w: Walk, tag: Seq<Span>) -> Seq<Span> {
    tu + w.separators + (tag + w.bodies + partition::opt_seq(w.open))
}

/// The tag section, once the walk has passed it.
pub open spec fn passed_tag(x: Seq<SectionView>, tags: int, n: int) -> Seq<Span> {
    if 0 <= tags < n {
        seq![x[tags].span]
    } else {
        Seq::empty()
    }
}

/// A tiling grows by a span listed between its two parts.
proof fn lemma_place(a: Seq<Span>, rest: Seq<Span>, from: int, x: Span)
    requires
        partition::tiles(a + rest, from, x.start),
        from <= x.start < x.end,
    ensures
        partition::tiles(a.push(x) + rest, from, x.end),
        partition::tiles(a + seq![x] + rest, from, x.end),
{
    let at = a.len() as int;
    assert(a.push(x) + rest =~= (a + rest).insert(at, x));
    assert(a + seq![x] + rest =~= (a + rest).insert(at, x));
    partition::lemma_tiles_insert(a + rest, from, x.start, at, x);
}

/// A tiling grows by the gap up to `to`, listed between its two parts.
proof fn lemma_place_gap(a: Seq<Span>, rest: Seq<Span>, from: int, cursor: int, to: int)
    requires
        partition::tiles(a + rest, from, cursor),
        from <= cursor <= to,
    ensures
        partition::tiles(a + gap(cursor, to) + rest, from, to),
{
    if cursor < to {
        lemma_place(a, rest, from, Span { start: cursor, end: to });
    } else {
        assert(a + gap(cursor, to) =~= a);
    }
}

/// One step of the walk keeps the tiling.
proof fn lemma_step_tiles(
    tu: Seq<Span>,
    from: int,
    w: Walk,
    y: SectionView,
    first: bool,
    is_tags: bool,
    tag: Seq<Span>,
)
    requires
        partition::tiles(walk_pieces(tu, w, tag), from, w.cursor),
        from <= w.cursor <= y.span.start < y.span.end,
        w.open matches Some(o) ==> o.end == w.cursor,
        is_tags ==> tag.len() == 0,
    ensures
        partition::tiles(
            walk_pieces(
                tu,
                walk_step(w, y, first, is_tags),
                if is_tags {
                    seq![y.span]
                } else {
                    tag
                },
            ),
            from,
            y.span.end,
        ),
{
    let r = walk_step(w, y, first, is_tags);
    let a = tu + w.separators;
    let rest = tag + w.bodies + partition::opt_seq(w.open);
    let g = gap(w.cursor, y.span.start);
    if is_tags {
        lemma_place_gap(a, rest, from, w.cursor, y.span.start);
        lemma_place(a + g, rest, from, y.span);
        assert(a + g + seq![y.span] + rest =~= walk_pieces(tu, r, seq![y.span]));
    } else if y.role == HeadingRole::InternalBody && w.open is Some {
        let all = walk_pieces(tu, w, tag);
        assert(all.last() == w.open->0);
        assert(walk_pieces(tu, r, tag) =~= all.drop_last().push(r.open->0));
        partition::lemma_tiles_extend(all, from, w.cursor, y.span.end);
    } else if first {
        let all = walk_pieces(tu, w, tag);
        assert(all + Seq::<Span>::empty() =~= all);
        lemma_place(all, Seq::empty(), from, r.open->0);
        assert(all.push(r.open->0) + Seq::<Span>::empty() =~= walk_pieces(tu, r, tag));
    } else {
        lemma_place_gap(a, rest, from, w.cursor, y.span.start);
        let all = a + g + rest;
        assert(all + Seq::<Span>::empty() =~= all);
        lemma_place(all, Seq::empty(), from, y.span);
        assert(all.push(y.span) + Seq::<Span>::empty() =~= walk_pieces(tu, r, tag));
    }
}

/// After each section, what the walk has assigned tiles the source up to its cursor.
proof fn lemma_walk_tiles(
    tu: Seq<Span>,
    from: int,
    start: Walk,
    x: Seq<SectionView>,
    tags: int,
    len: int,
    n: int,
)
    requires
        from <= start.cursor,
        start.open is None,
        start.bodies.len() == 0,
        partition::tiles(tu + start.separators, from, start.cursor),
        sections_in_order(x, start.cursor, len),
        tags < x.len(),
        0 <= n <= x.len(),
    ensures
        partition::tiles(
            walk_pieces(tu, walk(start, x, tags, n), passed_tag(x, tags, n)),
            from,
            walk(start, x, tags, n).cursor,
        ),
        from <= walk(start, x, tags, n).cursor,
        walk(start, x, tags, n).open matches Some(o) ==> o.end == walk(start, x, tags, n).cursor,
        n > 0 ==> walk(start, x, tags, n).cursor == x[n - 1].span.end,
        n == 0 ==> walk(start, x, tags, n) == start,
    decreases n,
{
    if n == 0 {
        assert(walk_pieces(tu, start, passed_tag(x, tags, n)) =~= tu + start.separators);
    } else {
        lemma_walk_tiles(tu, from, start, x, tags, len, n - 1);
        let w = walk(start, x, tags, n - 1);
        let y = x[n - 1];
        if n > 1 {
            assert(precedes(x, n - 2));
        }
        lemma_step_tiles(tu, from, w, y, n == 1, n - 1 == tags, passed_tag(x, tags, n - 1));
    }
}

proof fn lemma_canonical_tags(x: Seq<SectionView>)
    ensures
        -1 <= canonical_tags(x) < x.len() || (x.len() == 0 && canonical_tags(x) == -1),
        canonical_tags(x) < x.len(),
{
    lemma_leading_tags(x, 0);
    lemma_trailing_tags(x, x.len() as int);
}

proof fn lemma_leading_tags(x: Seq<SectionView>, i: int)
    requires
        0 <= i <= x.len(),
    ensures
        i <= leading_tags(x, i) <= x.len(),
    decreases x.len() - i,
{
    if i < x.len() && !(x[i].exact_tags && content_after(x, i)) {
        lemma_leading_tags(x, i + 1);
    }
}

proof fn lemma_trailing_tags(x: Seq<SectionView>, n: int)
    requires
        0 <= n <= x.len(),
    ensures
        -1 <= trailing_tags(x, n) < n || n == 0,
        trailing_tags(x, n) >= -1,
        n == 0 ==> trailing_tags(x, n) == -1,
    decreases n,
{
    if n > 0 && !x[n - 1].exact_tags {
        lemma_trailing_tags(x, n - 1);
    }
}

/// Every byte of a bookmark belongs to exactly one range of its partition.
pub proof fn lemma_bookmark_tiles(s: Seq<u8>, l: Seq<LineSpan>, t: Seq<Token>)
    requires
        fits(s, l, t),
        bookmark_partition(s, l, t) is Some,
    ensures
        partition::tiles(
            bookmark_partition(s, l, t)->0.pieces(),
            tokenizer::preamble_len(s),
            s.len() as int,
        ),
{
    lemma_source_lines(s);
    let from = tokenizer::preamble_len(s);
    let h = next_content(t, 0);
    lemma_next_content(t, 0);
    let titled = is_title(t[h]);
    let u = if titled {
        next_content(t, h + 1)
    } else {
        h
    };
    if titled {
        lemma_next_content(t, h + 1);
    }
    let linked = u < t.len() && t[u] is Url;
    let b = if linked {
        next_content(t, u + 1)
    } else {
        u
    };
    if linked {
        lemma_next_content(t, u + 1);
    }
    lemma_head_tiles(s, l, t, h, titled, u, linked, b);
    let tu = partition::opt_seq(span_if(l, h, titled)) + partition::opt_seq(span_if(l, u, linked));
    let cursor = line_start(s, l, b);
    assert(from <= cursor) by {
        if b > 0 {
            lemma_line_starts(s, l, 0, b);
        }
    }
    let start = Walk {
        separators: blank_spans(l, t, b),
        bodies: Seq::empty(),
        open: None,
        cursor,
    };
    assert(head(l, t, h, titled, u, linked, b) =~= tu + start.separators);
    lemma_sections_in_order(s, l, t, b);
    let x = sections(s, l, t, section_lines(t, t.len() as int));
    let tags = canonical_tags(x);
    lemma_canonical_tags(x);
    let n = x.len() as int;
    lemma_walk_tiles(tu, from, start, x, tags, s.len() as int, n);
    let w = walk(start, x, tags, n);
    let pieces = bookmark_partition(s, l, t)->0.pieces();
    let done = walk_pieces(tu, w, passed_tag(x, tags, n));
    if n == 0 {
        if b < t.len() {
            lemma_line_ends(s, l, b);
        }
        assert(done + Seq::<Span>::empty() =~= done);
        lemma_place_gap(done, Seq::empty(), from, cursor, s.len() as int);
        assert(pieces =~= done + gap(cursor, s.len() as int) + Seq::<Span>::empty());
    } else {
        assert(pieces =~= done);
    }
}

/// Why a document cannot be assembled.
#[derive(Debug, Clone, Copy, PartialEq, Eq, Structural)]
pub enum ParseFailure {
    /// There is no non-blank line.
    MissingTitle,
}

/// The lines and tokens of one source, as vectors.
pub open spec fn parts_fit(source: Seq<u8>, lines: Seq<Line>, tokens: Seq<MarkdownToken>) -> bool {
    &&& tokenizer::line_spans(lines) == tokenizer::source_lines(source)
    &&& tokens.len() == lines.len()
}

/// Each line of a source lies inside it.
proof fn lemma_line_inside(source: Seq<u8>, lines: Seq<Line>, k: int)
    requires
        tokenizer::line_spans(lines) == tokenizer::source_lines(source),
        0 <= k < lines.len(),
    ensures
        tokenizer::line_ok(source, lines[k]@),
        lines[k]@ == tokenizer::source_lines(source)[k],
{
    lemma_source_lines(source);
    assert(tokenizer::line_spans(lines)[k] == lines[k]@);
    assert(tokenizer::line_ok(source, tokenizer::source_lines(source)[k]));
}

/// The first token at or after `from` that is not a blank line.
fn next_content_at(tokens: &Vec<MarkdownToken>, from: usize) -> (r: usize)
    requires
        from <= tokens@.len(),
    ensures
        r == next_content(types::token_views(tokens@), from as int),
        from <= r <= tokens@.len(),
{
    let ghost t = types::token_views(tokens@);
    let mut i: usize = from;
    while i < tokens.len() && matches!(tokens[i], MarkdownToken::BlankLine)
        invariant
            from <= i <= tokens.len(),
            t == types::token_views(tokens@),
            forall|k: int| from <= k < i ==> !has_content()(#[trigger] t[k]),
        decreases tokens.len() - i,
    {
        i += 1;
    }
    proof {
        bytes::lemma_find_from_is(t, has_content(), from as int, i as int);
    }
    i
}

/// The ranges of the blank lines among the first `b` lines.
fn blank_ranges(lines: &Vec<Line>, tokens: &Vec<MarkdownToken>, b: usize) -> (r: Vec<ByteRange>)
    requires
        b <= tokens@.len(),
        tokens@.len() == lines@.len(),
    ensures
        bytes::spans(r@) == blank_spans(
            tokenizer::line_spans(lines@),
            types::token_views(tokens@),
            b as int,
        ),
{
    let ghost l = tokenizer::line_spans(lines@);
    let ghost t = types::token_views(tokens@);
    let mut out: Vec<ByteRange> = Vec::new();
    let mut i: usize = 0;
    assert(bytes::spans(out@) =~= Seq::<Span>::empty());
    while i < b
        invariant
            i <= b <= tokens.len(),
            tokens@.len() == lines@.len(),
            l == tokenizer::line_spans(lines@),
            t == types::token_views(tokens@),
            bytes::spans(out@) == blank_spans(l, t, i as int),
        decreases b - i,
    {
        if matches!(tokens[i], MarkdownToken::BlankLine) {
            let ghost before = out@;
            out.push(lines[i].range);
            assert(bytes::spans(out@) =~= bytes::spans(before).push(l[i as int].span()));
        }
        i += 1;
    }
    out
}

/// Assemble the partition of a note.
pub fn assemble_note(
    source: &[u8],
    preamble: &Preamble,
    lines: &Vec<Line>,
    tokens: &Vec<MarkdownToken>,
) -> (r: Partition)
    requires
        parts_fit(source@, lines@, tokens@),
        preamble.range@ == (Span { start: 0, end: tokenizer::preamble_len(source@) }),
    ensures
        r@ == note_partition(
            source@,
            tokenizer::line_spans(lines@),
            types::token_views(tokens@),
        ),
{
    let h = next_content_at(tokens, 0);
    let titled = h < tokens.len() && matches!(tokens[h], MarkdownToken::Heading { level: 1, .. });
    let u = if titled {
        next_content_at(tokens, h + 1)
    } else {
        h
    };
    let tagged = u < tokens.len() && matches!(tokens[u], MarkdownToken::TagsPrefix);
    let b = if tagged {
        next_content_at(tokens, u + 1)
    } else {
        u
    };
    let title_range = if titled {
        Some(lines[h].range)
    } else {
        None
    };
    let tags_range = if tagged {
        Some(lines[u].range)
    } else {
        None
    };
    let separator_ranges = blank_ranges(lines, tokens, b);
    let mut body_ranges: Vec<ByteRange> = Vec::new();
    if b < lines.len() {
        body_ranges.push(ByteRange { start: lines[b].range.start, end: source.len() });
    }
    let r = Partition {
        kind: DocumentKind::Note,
        prefix_range: preamble.range,
        title_range,
        url_range: None,
        tags_range,
        separator_ranges,
        body_ranges,
    };
    assert(r@ =~= note_partition(
        source@,
        tokenizer::line_spans(lines@),
        types::token_views(tokens@),
    ));
    r
}

/// Whether a token opens the tag section of a task.
fn opens_tags(token: &MarkdownToken) -> (r: bool)
    ensures
        r == is_tag_boundary(token@),
{
    match token {
        MarkdownToken::Heading { text, role, .. } => text::equal(text.as_str(), "Tags") && *role
            == HeadingRole::SectionBoundary,
        _ => false,
    }
}

/// Where the line break directly before `end` begins.
fn break_before_at(source: &[u8], floor: usize, end: usize) -> (r: usize)
    requires
        floor <= end <= source@.len(),
    ensures
        r == break_before(source@, floor as int, end as int),
        floor <= r <= end,
{
    if end > floor && source[end - 1] == LF {
        if end - 1 > floor && source[end - 2] == CR {
            end - 2
        } else {
            end - 1
        }
    } else if end > floor && source[end - 1] == CR {
        end - 1
    } else {
        end
    }
}

/// Assemble the partition of a task.
pub fn assemble_todo(
    source: &[u8],
    preamble: &Preamble,
    lines: &Vec<Line>,
    tokens: &Vec<MarkdownToken>,
) -> (r: Result<Partition, ParseFailure>)
    requires
        parts_fit(source@, lines@, tokens@),
        preamble.range@ == (Span { start: 0, end: tokenizer::preamble_len(source@) }),
    ensures
        match r {
            Ok(p) => todo_partition(
                source@,
                tokenizer::line_spans(lines@),
                types::token_views(tokens@),
            ) == Some(p@),
            Err(e) => e == ParseFailure::MissingTitle && todo_partition(
                source@,
                tokenizer::line_spans(lines@),
                types::token_views(tokens@),
            ) is None,
        },
{
    let ghost l = tokenizer::line_spans(lines@);
    let ghost t = types::token_views(tokens@);
    let h = next_content_at(tokens, 0);
    if h >= tokens.len() {
        return Err(ParseFailure::MissingTitle);
    }
    let b = next_content_at(tokens, h + 1);
    let mut k: usize = tokens.len();
    while k > 0 && !matches!(tokens[k - 1], MarkdownToken::Heading { .. })
        invariant
            k <= tokens.len(),
            t == types::token_views(tokens@),
            last_heading(t, t.len() as int) == last_heading(t, k as int),
        decreases k,
    {
        k -= 1;
    }
    let mut separator_ranges = blank_ranges(lines, tokens, b);
    let mut body_ranges: Vec<ByteRange> = Vec::new();
    let mut tags_range: Option<ByteRange> = None;
    let ghost blanks = bytes::spans(separator_ranges@);
    assert(blanks + Seq::<Span>::empty() =~= blanks);
    if k > h + 1 && opens_tags(&tokens[k - 1]) {
        let tag = ByteRange { start: lines[k - 1].range.start, end: source.len() };
        tags_range = Some(tag);
        proof {
            lemma_line_inside(source@, lines@, k - 1);
        }
        if b < lines.len() && lines[b].range.start < tag.start {
            let floor: usize = lines[b].range.start;
            let at = break_before_at(source, floor, tag.start);
            if at < tag.start && (at == floor || (at > 0 && (source[at - 1] == LF || source[at - 1]
                == CR))) {
                let ghost before = separator_ranges@;
                separator_ranges.push(ByteRange { start: at, end: tag.start });
                assert(bytes::spans(separator_ranges@) =~= bytes::spans(before)
                    + seq![Span { start: at as int, end: tag.start as int }]);
                if floor < at {
                    body_ranges.push(ByteRange { start: floor, end: at });
                }
            } else {
                body_ranges.push(ByteRange { start: floor, end: tag.start });
            }
        }
    } else if b < lines.len() {
        body_ranges.push(ByteRange { start: lines[b].range.start, end: source.len() });
    }
    let r = Partition {
        kind: DocumentKind::Todo,
        prefix_range: preamble.range,
        title_range: Some(lines[h].range),
        url_range: None,
        tags_range,
        separator_ranges,
        body_ranges,
    };
    assert(r@ =~= todo_partition(source@, l, t)->0);
    Ok(r)
}

/// A section of a bookmark.
#[derive(Debug, Clone)]
pub struct H2Section {
    pub text: String,
    pub range: ByteRange,
    pub role: HeadingRole,
    pub exact_tags: bool,
}

impl View for H2Section {
    type V = SectionView;

    open spec fn view(&self) -> SectionView {
        SectionView {
            span: self.range@,
            text: self.text@,
            role: self.role,
            exact_tags: self.exact_tags,
        }
    }
}

/// The models of a vector of sections.
pub open spec fn section_views(v: Seq<H2Section>) -> Seq<SectionView> {
    v.map_values(|x: H2Section| x@)
}

/// Indices as integers.
pub open spec fn indices(v: Seq<usize>) -> Seq<int> {
    v.map_values(|k: usize| k as int)
}

/// The lines that open a section.
fn section_lines_of(tokens: &Vec<MarkdownToken>) -> (r: Vec<usize>)
    ensures
        indices(r@) == section_lines(types::token_views(tokens@), tokens@.len() as int),
        forall|k: int| 0 <= k < r@.len() ==> (#[trigger] r@[k]) < tokens@.len(),
        forall|k: int|
            0 <= k < r@.len() ==> types::token_views(tokens@)[(#[trigger] r@[k]) as int] is Heading,
{
    let ghost t = types::token_views(tokens@);
    let mut out: Vec<usize> = Vec::new();
    let mut i: usize = 0;
    assert(indices(out@) =~= Seq::<int>::empty());
    while i < tokens.len()
        invariant
            i <= tokens.len(),
            t == types::token_views(tokens@),
            indices(out@) == section_lines(t, i as int),
            forall|k: int| 0 <= k < out@.len() ==> (#[trigger] out@[k]) < i,
            forall|k: int| 0 <= k < out@.len() ==> t[(#[trigger] out@[k]) as int] is Heading,
        decreases tokens.len() - i,
    {
        let deep = match &tokens[i] {
            MarkdownToken::Heading { level, .. } => *level >= 2,
            _ => false,
        };
        if deep {
            let ghost before = out@;
            out.push(i);
            assert(indices(out@) =~= indices(before).push(i as int));
        }
        i += 1;
    }
    out
}

/// The extents of the sections that the given heading lines open.
pub fn compute_section_extents(
    source: &[u8],
    lines: &Vec<Line>,
    tokens: &Vec<MarkdownToken>,
    at: &Vec<usize>,
) -> (r: Vec<H2Section>)
    requires
        parts_fit(source@, lines@, tokens@),
        forall|k: int| 0 <= k < at@.len() ==> (#[trigger] at@[k]) < tokens@.len(),
        forall|k: int|
            0 <= k < at@.len() ==> types::token_views(tokens@)[(#[trigger] at@[k]) as int]
                is Heading,
    ensures
        section_views(r@) == sections(
            source@,
            tokenizer::line_spans(lines@),
            types::token_views(tokens@),
            indices(at@),
        ),
{
    let ghost l = tokenizer::line_spans(lines@);
    let ghost t = types::token_views(tokens@);
    let ghost all = sections(source@, l, t, indices(at@));
    let mut out: Vec<H2Section> = Vec::new();
    let mut k: usize = 0;
    while k < at.len()
        invariant
            k <= at.len(),
            parts_fit(source@, lines@, tokens@),
            forall|k: int| 0 <= k < at@.len() ==> (#[trigger] at@[k]) < tokens@.len(),
            forall|k: int|
                0 <= k < at@.len() ==> types::token_views(tokens@)[(#[trigger] at@[k]) as int]
                    is Heading,
            l == tokenizer::line_spans(lines@),
            t == types::token_views(tokens@),
            all == sections(source@, l, t, indices(at@)),
            section_views(out@) == all.take(k as int),
        decreases at.len() - k,
    {
        let a: usize = at[k];
        let line = lines[a];
        proof {
            lemma_line_inside(source@, lines@, a as int);
            assert(t[a as int] is Heading);
        }
        let end: usize = if k + 1 < at.len() {
            let next: usize = at[k + 1];
            if next > 0 && next - 1 > a && lines[next - 1].content_end == lines[next
                - 1].range.start {
                lines[next - 1].range.start
            } else {
                lines[next].range.start
            }
        } else {
            source.len()
        };
        let content = vstd::slice::slice_subrange(source, line.range.start, line.content_end);
        if let MarkdownToken::Heading { text, role, .. } = &tokens[a] {
            let exact_tags = text::equal(text.as_str(), "Tags") && is_exact_reserved_heading_text(
                content,
                "Tags",
            );
            let section = H2Section {
                text: text.clone(),
                range: ByteRange { start: line.range.start, end },
                role: *role,
                exact_tags,
            };
            let ghost before = out@;
            out.push(section);
            proof {
                assert(section@ == all[k as int]);
                assert(section_views(out@) =~= section_views(before).push(section@));
                assert(all.take(k + 1) =~= all.take(k as int).push(all[k as int]));
            }
        }
        k += 1;
    }
    assert(all.take(all.len() as int) =~= all);
    out
}

/// Whether a section is named for content or source.
fn names_content(x: &H2Section) -> (r: bool)
    ensures
        r == is_content_section(x@),
{
    text::equal(x.text.as_str(), "Content") || text::equal(x.text.as_str(), "Source")
}

/// Whether a content or source section follows section `i`.
fn content_follows(x: &Vec<H2Section>, i: usize) -> (r: bool)
    requires
        i < x@.len(),
    ensures
        r == content_after(section_views(x@), i as int),
{
    let ghost v = section_views(x@);
    let n: usize = x.len();
    let mut j: usize = i + 1;
    while j < n
        invariant
            i < j <= n == x.len(),
            v == section_views(x@),
            forall|m: int| i < m < j ==> !is_content_section(#[trigger] v[m]),
        decreases n - j,
    {
        if names_content(&x[j]) {
            assert(is_content_section(v[j as int]));
            return true;
        }
        assert(v[j as int] == x@[j as int]@);
        j += 1;
    }
    false
}

/// The section that holds a bookmark's tags.
fn canonical_tags_of(x: &Vec<H2Section>) -> (r: Option<usize>)
    ensures
        match r {
            Some(i) => canonical_tags(section_views(x@)) == i && i < x@.len(),
            None => canonical_tags(section_views(x@)) == -1,
        },
{
    let ghost v = section_views(x@);
    let mut i: usize = 0;
    while i < x.len()
        invariant
            i <= x.len(),
            v == section_views(x@),
            leading_tags(v, 0) == leading_tags(v, i as int),
        decreases x.len() - i,
    {
        if x[i].exact_tags && content_follows(x, i) {
            return Some(i);
        }
        i += 1;
    }
    let mut n: usize = x.len();
    while n > 0
        invariant
            n <= x.len(),
            v == section_views(x@),
            trailing_tags(v, v.len() as int) == trailing_tags(v, n as int),
            leading_tags(v, 0) == v.len(),
        decreases n,
    {
        if x[n - 1].exact_tags {
            return Some(n - 1);
        }
        n -= 1;
    }
    None
}

/// Append the open fragment, if any, to the finished ones.
fn flush(open: &mut Option<ByteRange>, bodies: &mut Vec<ByteRange>)
    ensures
        *final(open) is None,
        bytes::spans(final(bodies)@) == bytes::spans(old(bodies)@) + partition::opt_seq(
            bytes::opt_span(*old(open)),
        ),
{
    let ghost before = bodies@;
    match *open {
        Some(r) => {
            bodies.push(r);
            assert(bytes::spans(bodies@) =~= bytes::spans(before) + seq![r@]);
        },
        None => {
            assert(bytes::spans(bodies@) =~= bytes::spans(before) + Seq::<Span>::empty());
        },
    }
    *open = None;
}

/// Append `[from, to)` to the separators unless it is empty.
fn push_gap(separators: &mut Vec<ByteRange>, from: usize, to: usize)
    ensures
        bytes::spans(final(separators)@) == bytes::spans(old(separators)@) + gap(
            from as int,
            to as int,
        ),
{
    let ghost before = separators@;
    if from < to {
        let g = ByteRange { start: from, end: to };
        separators.push(g);
        assert(bytes::spans(separators@) =~= bytes::spans(before) + seq![g@]);
    } else {
        assert(bytes::spans(separators@) =~= bytes::spans(before) + Seq::<Span>::empty());
    }
}

/// Assemble the partition of a bookmark.
pub fn assemble_bookmark(
    source: &[u8],
    preamble: &Preamble,
    lines: &Vec<Line>,
    tokens: &Vec<MarkdownToken>,
) -> (r: Result<Partition, ParseFailure>)
    requires
        parts_fit(source@, lines@, tokens@),
        preamble.range@ == (Span { start: 0, end: tokenizer::preamble_len(source@) }),
    ensures
        match r {
            Ok(p) => bookmark_partition(
                source@,
                tokenizer::line_spans(lines@),
                types::token_views(tokens@),
            ) == Some(p@),
            Err(e) => e == ParseFailure::MissingTitle && bookmark_partition(
                source@,
                tokenizer::line_spans(lines@),
                types::token_views(tokens@),
            ) is None,
        },
{
    let ghost l = tokenizer::line_spans(lines@);
    let ghost t = types::token_views(tokens@);
    let h = next_content_at(tokens, 0);
    if h >= tokens.len() {
        return Err(ParseFailure::MissingTitle);
    }
    let titled = matches!(tokens[h], MarkdownToken::Heading { level: 1, .. });
    let u = if titled {
        next_content_at(tokens, h + 1)
    } else {
        h
    };
    let linked = u < tokens.len() && matches!(tokens[u], MarkdownToken::Url);
    let b = if linked {
        next_content_at(tokens, u + 1)
    } else {
        u
    };
    let title_range = if titled {
        Some(lines[h].range)
    } else {
        None
    };
    let url_range = if linked {
        Some(lines[u].range)
    } else {
        None
    };
    let metadata_end: usize = if b < lines.len() {
        lines[b].range.start
    } else {
        source.len()
    };
    let mut separator_ranges = blank_ranges(lines, tokens, b);
    let mut body_ranges: Vec<ByteRange> = Vec::new();
    let at = section_lines_of(tokens);
    let sections = compute_section_extents(source, lines, tokens, &at);
    let canonical = canonical_tags_of(&sections);
    let tags_range = match canonical {
        Some(i) => Some(sections[i].range),
        None => None,
    };
    let ghost x = section_views(sections@);
    let ghost tags = canonical_tags(x);
    let ghost start = Walk {
        separators: blank_spans(l, t, b as int),
        bodies: Seq::empty(),
        open: None,
        cursor: metadata_end as int,
    };
    let mut open: Option<ByteRange> = None;
    let mut cursor: usize = metadata_end;
    let mut i: usize = 0;
    assert(bytes::spans(body_ranges@) =~= Seq::<Span>::empty());
    while i < sections.len()
        invariant
            i <= sections.len(),
            x == section_views(sections@),
            tags == canonical_tags(x),
            match canonical {
                Some(k) => tags == k,
                None => tags == -1,
            },
            bytes::spans(separator_ranges@) == walk(start, x, tags, i as int).separators,
            bytes::spans(body_ranges@) == walk(start, x, tags, i as int).bodies,
            bytes::opt_span(open) == walk(start, x, tags, i as int).open,
            cursor == walk(start, x, tags, i as int).cursor,
        decreases sections.len() - i,
    {
        let section = sections[i].range;
        let ghost w = walk(start, x, tags, i as int);
        assert(x[i as int] == sections@[i as int]@);
        assert(walk(start, x, tags, i + 1) == walk_step(w, x[i as int], i == 0, i == tags));
        let is_tags = match canonical {
            Some(k) => k == i,
            None => false,
        };
        let extends = sections[i].role == HeadingRole::InternalBody && open.is_some();
        if is_tags {
            flush(&mut open, &mut body_ranges);
            push_gap(&mut separator_ranges, cursor, section.start);
        } else if extends {
            if let Some(body) = open {
                open = Some(ByteRange { start: body.start, end: section.end });
            }
        } else if i == 0 {
            flush(&mut open, &mut body_ranges);
            open = Some(ByteRange { start: cursor, end: section.end });
        } else {
            flush(&mut open, &mut body_ranges);
            push_gap(&mut separator_ranges, cursor, section.start);
            open = Some(section);
        }
        cursor = section.end;
        i += 1;
    }
    if sections.len() == 0 {
        push_gap(&mut body_ranges, cursor, source.len());
    } else {
        flush(&mut open, &mut body_ranges);
    }
    let r = Partition {
        kind: DocumentKind::Bookmark,
        prefix_range: preamble.range,
        title_range,
        url_range,
        tags_range,
        separator_ranges,
        body_ranges,
    };
    assert(r@ =~= bookmark_partition(source@, l, t)->0);
    Ok(r)
}

/// The lines of a source lie inside it.
pub proof fn lemma_lines_fit(source: Seq<u8>, lines: Seq<Line>)
    requires
        tokenizer::line_spans(lines) == tokenizer::source_lines(source),
    ensures
        classify::lines_fit(source, lines),
        tokenizer::line_spans(lines).len() == lines.len(),
{
    assert forall|k: int| 0 <= k < lines.len() implies tokenizer::line_ok(
        source,
        (#[trigger] lines[k])@,
    ) by {
        lemma_line_inside(source, lines, k);
    }
}

/// Before the first token with content no code fence has been opened.
pub proof fn lemma_no_fence_before(s: Seq<u8>, l: Seq<LineSpan>, t: Seq<Token>, k: int)
    requires
        t == classify::bookmark_tokens(s, l),
        0 <= k <= next_content(t, 0),
        k <= t.len(),
    ensures
        classify::bookmark_scan(s, l, k).fence is None,
        k < l.len() && k == next_content(t, 0) ==> !helpers::blank(l[k].content(s)),
    decreases k,
{
    lemma_next_content(t, 0);
    if k > 0 {
        lemma_no_fence_before(s, l, t, k - 1);
        assert(t[k - 1] is Blank);
        assert(t[k - 1] == classify::bookmark_token(
            classify::bookmark_scan(s, l, k - 1),
            l[k - 1].content(s),
        ));
    }
    if k < l.len() && k == next_content(t, 0) {
        assert(t[k] == classify::bookmark_token(
            classify::bookmark_scan(s, l, k),
            l[k].content(s),
        ));
        if helpers::blank(l[k].content(s)) {
            classify::lemma_blank_opens_no_fence(l[k].content(s));
        }
    }
}

/// Every range of an assembled partition lies inside the source.
#[verifier::spinoff_prover]
pub proof fn lemma_partition_within(s: Seq<u8>, kind: DocumentKind, p: PartitionView)
    requires
        crate::parser::partition_of(s, kind) == Some(p),
    ensures
        p.within(s.len() as int),
{
    let l = tokenizer::source_lines(s);
    let t = crate::parser::tokens_of(s, kind);
    let len = s.len() as int;
    let from = tokenizer::preamble_len(s);
    lemma_source_lines(s);
    match kind {
        DocumentKind::Note => lemma_note_tiles(s, l, t),
        DocumentKind::Todo => lemma_todo_tiles(s, l, t),
        DocumentKind::Bookmark => lemma_bookmark_tiles(s, l, t),
    }
    partition::lemma_tiles_bounds(p.pieces(), from, len);
    assert forall|k: int| 0 <= k < p.pieces().len() implies bytes::span_within(
        #[trigger] p.pieces()[k],
        len,
    ) by {
        assert(from <= p.pieces()[k].start);
    }
    partition::lemma_pieces_within(p, len);
}

/// A byte that makes its line other than blank.
pub open spec fn visible(b: u8) -> bool {
    !bytes::is_space_or_tab(b) && !bytes::is_line_break(b)
}

/// A visible byte stands on a line that is not blank.
pub proof fn lemma_visible_line(s: Seq<u8>, p: int, i: int) -> (k: int)
    requires
        0 <= p <= i < s.len(),
        visible(s[i]),
    ensures
        0 <= k < tokenizer::lines_from(s, p).len(),
        !helpers::blank(tokenizer::lines_from(s, p)[k].content(s)),
    decreases s.len() - p,
{
    tokenizer::lemma_line_at(s, p);
    let line = tokenizer::line_at(s, p);
    let all = tokenizer::lines_from(s, p);
    let more = tokenizer::lines_from(s, line.end);
    assert(all =~= seq![line] + more);
    bytes::lemma_find_from(s, tokenizer::breaks(), p);
    if i < line.end {
        assert(i < line.content_end);
        assert(line.content(s)[i - p] == s[i]);
        0
    } else {
        let k = lemma_visible_line(s, line.end, i);
        assert(all[k + 1] == more[k]);
        k + 1
    }
}

/// The title line of a task holds a visible byte.
pub proof fn lemma_title_visible(s: Seq<u8>) -> (i: int)
    requires
        crate::parser::partition_of(s, DocumentKind::Todo) is Some,
    ensures
        tokenizer::preamble_len(s) <= i < s.len(),
        visible(s[i]),
        crate::parser::partition_of(s, DocumentKind::Todo)->0.tags matches Some(r) ==> i < r.start,
{
    let l = tokenizer::source_lines(s);
    let t = crate::parser::tokens_of(s, DocumentKind::Todo);
    let h = next_content(t, 0);
    lemma_next_content(t, 0);
    lemma_source_lines(s);
    lemma_line_ends(s, l, h);
    if h > 0 {
        lemma_line_starts(s, l, 0, h);
        lemma_line_ends(s, l, 0);
    }
    let content = l[h].content(s);
    assert(!helpers::blank(content));
    let j = choose|j: int|
        0 <= j < content.len() && !bytes::is_space_or_tab(#[trigger] content[j]);
    let i = l[h].start + j;
    assert(s[i] == content[j]);
    let k = last_heading(t, t.len() as int);
    lemma_last_heading(t, t.len() as int);
    if k > h {
        lemma_line_starts(s, l, h, k);
    }
    i
}

} // verus!
