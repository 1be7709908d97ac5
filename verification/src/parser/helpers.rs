//! Line-level recognisers: blank lines, headings, tag lines, URLs and checkboxes.

use crate::bytes;
use crate::bytes::{
    ByteRange, Span, CLOSE_BRACKET, CR, GREATER, HASH, LESS, LF, LOWER_X, OPEN_BRACKET, SPACE, TAB,
    UPPER_X,
};
use crate::parser::document::TodoState;
use crate::text;
use vstd::prelude::*;

verus! {

/// The test for a byte that is not a space.
pub open spec fn not_space() -> spec_fn(u8) -> bool {
    |b: u8| b != SPACE
}

/// The test for a byte that is neither a space nor a tab.
pub open spec fn not_blank() -> spec_fn(u8) -> bool {
    |b: u8| !bytes::is_space_or_tab(b)
}

/// The test for a byte other than `#`.
pub open spec fn not_hash() -> spec_fn(u8) -> bool {
    |b: u8| b != HASH
}

/// The test for a byte that ends a tag on a tag line.
pub open spec fn tag_stop() -> spec_fn(u8) -> bool {
    |b: u8| bytes::is_space_or_tab(b) || b == HASH
}

/// The test for a byte that ends a tag inside a tag section.
pub open spec fn tag_end() -> spec_fn(u8) -> bool {
    |b: u8| bytes::is_space_or_tab(b) || bytes::is_line_break(b) || b == HASH
}

/// The test for `>`.
pub open spec fn closes() -> spec_fn(u8) -> bool {
    |b: u8| b == GREATER
}

/// A line whose content is only spaces and tabs.
pub open spec fn blank(line: Seq<u8>) -> bool {
    forall|k: int| 0 <= k < line.len() ==> bytes::is_space_or_tab(#[trigger] line[k])
}

/// Whether a line's content is only spaces and tabs.
pub fn is_blank_line(line: &[u8]) -> (r: bool)
    ensures
        r == blank(line@),
{
    let mut i: usize = 0;
    while i < line.len()
        invariant
            i <= line.len(),
            forall|k: int| 0 <= k < i ==> bytes::is_space_or_tab(#[trigger] line@[k]),
        decreases line.len() - i,
    {
        if line[i] != SPACE && line[i] != TAB {
            assert(!bytes::is_space_or_tab(line@[i as int]));
            return false;
        }
        i += 1;
    }
    true
}

/// The number of tags from `i` on, when the rest of the line is tags set apart by blanks.
pub open spec fn tags_from(line: Seq<u8>, i: int) -> Option<nat>
    decreases line.len() - i,
{
    if i < 0 || i >= line.len() || line[i] != HASH {
        None
    } else {
        let stop = bytes::find_from(line, tag_stop(), i + 1);
        let next = bytes::find_from(line, not_blank(), stop);
        if stop <= i + 1 {
            None
        } else if stop >= line.len() {
            Some(1)
        } else if line[stop] == HASH || next <= i {
            None
        } else if next >= line.len() {
            Some(1)
        } else {
            match tags_from(line, next) {
                Some(n) => Some((n + 1) as nat),
                None => None,
            }
        }
    }
}

/// A line of at least two `#tag` tokens set apart by spaces or tabs.
pub open spec fn tags_prefix_line(line: Seq<u8>) -> bool {
    tags_from(line, 0) matches Some(n) && n >= 2
}

/// The first index at or after `from` that is neither a space nor a tab.
fn skip_blanks(line: &[u8], from: usize) -> (r: usize)
    requires
        from <= line@.len(),
    ensures
        r == bytes::find_from(line@, not_blank(), from as int),
        from <= r <= line@.len(),
{
    let mut i: usize = from;
    while i < line.len() && (line[i] == SPACE || line[i] == TAB)
        invariant
            from <= i <= line.len(),
            forall|k: int| from <= k < i ==> !not_blank()(#[trigger] line@[k]),
        decreases line.len() - i,
    {
        i += 1;
    }
    proof {
        bytes::lemma_find_from_is(line@, not_blank(), from as int, i as int);
    }
    i
}

/// Whether a line holds at least two `#tag` tokens and nothing else.
pub fn is_tags_prefix_line(line: &[u8]) -> (r: bool)
    ensures
        r == tags_prefix_line(line@),
{
    let mut tokens: usize = 0;
    let mut i: usize = 0;
    let ghost total = tags_from(line@, 0);
    while i < line.len() && line[i] == HASH
        invariant
            i <= line.len(),
            tokens <= i,
            total == tags_from(line@, 0),
            total == (match tags_from(line@, i as int) {
                Some(n) => Some((n + tokens) as nat),
                None => None,
            }),
        decreases line.len() - i,
    {
        let start: usize = i + 1;
        let mut stop: usize = start;
        while stop < line.len() && line[stop] != SPACE && line[stop] != TAB && line[stop] != HASH
            invariant
                start <= stop <= line.len(),
                forall|k: int| start <= k < stop ==> !tag_stop()(#[trigger] line@[k]),
            decreases line.len() - stop,
        {
            stop += 1;
        }
        proof {
            bytes::lemma_find_from_is(line@, tag_stop(), start as int, stop as int);
        }
        if stop == start {
            return false;
        }
        tokens += 1;
        if stop >= line.len() {
            return tokens >= 2;
        }
        if line[stop] == HASH {
            return false;
        }
        let next = skip_blanks(line, stop);
        if next >= line.len() {
            return tokens >= 2;
        }
        i = next;
    }
    false
}

/// A line that is one `<...>` with a non-empty inside, then only spaces and tabs.
pub open spec fn url_line(line: Seq<u8>) -> bool {
    let close = bytes::find_from(line, closes(), 0);
    &&& line.len() >= 3
    &&& line[0] == LESS
    &&& close < line.len()
    &&& close != 1
    &&& blank(line.skip(close + 1))
}

/// Whether a line is a bookmark URL.
pub fn is_url_line(line: &[u8]) -> (r: bool)
    ensures
        r == url_line(line@),
{
    if line.len() < 3 || line[0] != LESS {
        return false;
    }
    let mut close: usize = 0;
    while close < line.len() && line[close] != GREATER
        invariant
            close <= line.len(),
            forall|k: int| 0 <= k < close ==> !closes()(#[trigger] line@[k]),
        decreases line.len() - close,
    {
        close += 1;
    }
    proof {
        bytes::lemma_find_from_is(line@, closes(), 0, close as int);
    }
    if close >= line.len() || close == 1 {
        return false;
    }
    let rest = vstd::slice::slice_subrange(line, close + 1, line.len());
    assert(rest@ =~= line@.skip(close + 1));
    is_blank_line(rest)
}

/// `line` without its leading spaces.
pub open spec fn without_leading_spaces(line: Seq<u8>) -> Seq<u8> {
    line.skip(bytes::find_from(line, not_space(), 0))
}

/// `line` without its leading spaces.
pub fn strip_leading_spaces(line: &[u8]) -> (r: &[u8])
    ensures
        r@ == without_leading_spaces(line@),
{
    let mut i: usize = 0;
    while i < line.len() && line[i] == SPACE
        invariant
            i <= line.len(),
            forall|k: int| 0 <= k < i ==> !not_space()(#[trigger] line@[k]),
        decreases line.len() - i,
    {
        i += 1;
    }
    proof {
        bytes::lemma_find_from_is(line@, not_space(), 0, i as int);
    }
    let r = vstd::slice::slice_subrange(line, i, line.len());
    assert(r@ =~= line@.skip(i as int));
    r
}

/// The prefix of an open task title: `# [ ] `.
pub open spec fn open_title() -> Seq<u8> {
    seq![HASH, SPACE, OPEN_BRACKET, SPACE, CLOSE_BRACKET, SPACE]
}

/// The prefix of a done task title with the given mark.
pub open spec fn done_title(mark: u8) -> Seq<u8> {
    seq![HASH, SPACE, OPEN_BRACKET, mark, CLOSE_BRACKET, SPACE]
}

/// The checkbox state of a title line.
pub open spec fn title_state(line: Seq<u8>) -> Option<TodoState> {
    let rest = without_leading_spaces(line);
    if open_title().is_prefix_of(rest) {
        Some(TodoState::Open)
    } else if done_title(LOWER_X).is_prefix_of(rest) || done_title(UPPER_X).is_prefix_of(rest) {
        Some(TodoState::Done)
    } else {
        None
    }
}

/// Read the checkbox state off a title line.
pub fn parse_todo_state_from_title(line: &[u8]) -> (r: Option<TodoState>)
    ensures
        r == title_state(line@),
{
    let rest = strip_leading_spaces(line);
    if bytes::starts_with(
        rest,
        &[HASH, SPACE, OPEN_BRACKET, SPACE, CLOSE_BRACKET, SPACE],
    ) {
        Some(TodoState::Open)
    } else if bytes::starts_with(
        rest,
        &[HASH, SPACE, OPEN_BRACKET, LOWER_X, CLOSE_BRACKET, SPACE],
    ) || bytes::starts_with(rest, &[HASH, SPACE, OPEN_BRACKET, UPPER_X, CLOSE_BRACKET, SPACE]) {
        Some(TodoState::Done)
    } else {
        None
    }
}

/// The spans of the non-empty `#tag` tokens of `t` from `i` on, without their `#`.
pub open spec fn tag_tokens(t: Seq<u8>, i: int) -> Seq<Span>
    decreases t.len() - i,
{
    if i < 0 || i >= t.len() {
        Seq::empty()
    } else if t[i] != HASH {
        tag_tokens(t, i + 1)
    } else {
        let stop = bytes::find_from(t, tag_end(), i + 1);
        if stop <= i + 1 || stop > t.len() {
            tag_tokens(t, i + 1)
        } else {
            seq![Span { start: i + 1, end: stop }] + tag_tokens(t, stop)
        }
    }
}

/// Spans moved by `by` bytes.
pub open spec fn shifted(v: Seq<Span>, by: int) -> Seq<Span> {
    v.map_values(|r: Span| Span { start: r.start + by, end: r.end + by })
}

/// The tag tokens inside an optional range of `source`, in source offsets.
pub open spec fn tag_tokens_in(source: Seq<u8>, range: Option<Span>) -> Seq<Span> {
    match range {
        None => Seq::empty(),
        Some(r) => shifted(tag_tokens(bytes::slice_of(source, r), 0), r.start),
    }
}

/// Every tag token lies inside its source.
pub proof fn lemma_tag_tokens(t: Seq<u8>, i: int)
    requires
        0 <= i <= t.len(),
    ensures
        forall|k: int|
            0 <= k < tag_tokens(t, i).len() ==> i < (#[trigger] tag_tokens(t, i)[k]).start
                && tag_tokens(t, i)[k].start < tag_tokens(t, i)[k].end <= t.len(),
    decreases t.len() - i,
{
    if i < t.len() {
        if t[i] != HASH {
            lemma_tag_tokens(t, i + 1);
            assert(tag_tokens(t, i) == tag_tokens(t, i + 1));
        } else {
            bytes::lemma_find_from(t, tag_end(), i + 1);
            let stop = bytes::find_from(t, tag_end(), i + 1);
            if stop <= i + 1 {
                lemma_tag_tokens(t, i + 1);
                assert(tag_tokens(t, i) == tag_tokens(t, i + 1));
            } else {
                lemma_tag_tokens(t, stop);
                assert(tag_tokens(t, i) == seq![Span { start: i + 1, end: stop }] + tag_tokens(
                    t,
                    stop,
                ));
                assert forall|k: int| 0 <= k < tag_tokens(t, i).len() implies i < (
                #[trigger] tag_tokens(t, i)[k]).start && tag_tokens(t, i)[k].start < tag_tokens(
                    t,
                    i,
                )[k].end <= t.len() by {
                    if k > 0 {
                        assert(tag_tokens(t, i)[k] == tag_tokens(t, stop)[k - 1]);
                    }
                }
            }
        }
    }
}

/// The tag tokens inside an optional range of `source`.
pub fn tag_token_spans_in(source: &[u8], range: Option<ByteRange>) -> (r: Vec<ByteRange>)
    requires
        range matches Some(x) ==> bytes::span_within(x@, source@.len() as int),
    ensures
        bytes::spans(r@) == tag_tokens_in(source@, bytes::opt_span(range)),
{
    let mut tokens: Vec<ByteRange> = Vec::new();
    let range = match range {
        None => {
            assert(bytes::spans(tokens@) =~= Seq::<Span>::empty());
            return tokens;
        },
        Some(range) => range,
    };
    let slice = vstd::slice::slice_subrange(source, range.start, range.end);
    let ghost all = shifted(tag_tokens(slice@, 0), range.start as int);
    let mut i: usize = 0;
    assert(bytes::spans(tokens@) + all =~= all);
    while i < slice.len()
        invariant
            i <= slice.len(),
            range.start <= range.end <= source@.len(),
            slice@ == source@.subrange(range.start as int, range.end as int),
            bytes::spans(tokens@) + shifted(tag_tokens(slice@, i as int), range.start as int)
                == all,
        decreases slice.len() - i,
    {
        if slice[i] != HASH {
            i += 1;
        } else {
            let start: usize = i + 1;
            let mut stop: usize = start;
            while stop < slice.len() && slice[stop] != SPACE && slice[stop] != TAB && slice[stop]
                != LF && slice[stop] != CR && slice[stop] != HASH
                invariant
                    start <= stop <= slice.len(),
                    forall|k: int| start <= k < stop ==> !tag_end()(#[trigger] slice@[k]),
                decreases slice.len() - stop,
            {
                stop += 1;
            }
            proof {
                bytes::lemma_find_from_is(slice@, tag_end(), start as int, stop as int);
            }
            if stop > start {
                let token = ByteRange { start: range.start + start, end: range.start + stop };
                let ghost before = tokens@;
                tokens.push(token);
                proof {
                    let rest = tag_tokens(slice@, stop as int);
                    assert(bytes::spans(tokens@) =~= bytes::spans(before).push(token@));
                    assert(shifted(tag_tokens(slice@, i as int), range.start as int)
                        =~= seq![token@] + shifted(rest, range.start as int));
                    assert(bytes::spans(before) + (seq![token@] + shifted(
                        rest,
                        range.start as int,
                    )) =~= bytes::spans(tokens@) + shifted(rest, range.start as int));
                }
            }
            i = stop;
        }
    }
    assert(shifted(tag_tokens(slice@, i as int), range.start as int) =~= Seq::<Span>::empty());
    assert(bytes::spans(tokens@) =~= all);
    tokens
}

/// The bytes of the level-two heading line `## ` followed by `expected`.
pub open spec fn reserved_heading(expected: Seq<char>) -> Seq<u8> {
    seq![HASH, HASH, SPACE] + vstd::utf8::encode_utf8(expected)
}

/// Whether a line is exactly `## ` followed by `expected`.
pub fn is_exact_reserved_heading_text(line: &[u8], expected: &str) -> (r: bool)
    ensures
        r == (line@ == reserved_heading(expected@)),
{
    if !bytes::starts_with(line, &[HASH, HASH, SPACE]) {
        assert(reserved_heading(expected@).subrange(0, 3) =~= seq![HASH, HASH, SPACE]);
        return false;
    }
    let rest = vstd::slice::slice_subrange(line, 3, line.len());
    let r = bytes::equal(rest, expected.as_bytes());
    proof {
        assert(line@ =~= seq![HASH, HASH, SPACE] + rest@);
        assert(reserved_heading(expected@).skip(3) =~= vstd::utf8::encode_utf8(expected@));
        assert(line@.skip(3) =~= rest@);
    }
    r
}

/// A section heading with a reserved meaning: tags, content or source.
pub open spec fn reserved_section(line: Seq<u8>, level: u8) -> bool {
    level == 2 && (line == reserved_heading("Tags"@) || content_or_source(line, level))
}

/// A heading that opens the content or the source of a bookmark.
pub open spec fn content_or_source(line: Seq<u8>, level: u8) -> bool {
    level == 2 && (line == reserved_heading("Content"@) || line == reserved_heading("Source"@))
}

/// Whether a heading line is one of the reserved sections.
pub fn is_exact_reserved_section(line: &[u8], level: u8) -> (r: bool)
    ensures
        r == reserved_section(line@, level),
{
    level == 2 && (is_exact_reserved_heading_text(line, "Tags") || is_exact_reserved_heading_text(
        line,
        "Content",
    ) || is_exact_reserved_heading_text(line, "Source"))
}

/// Whether a heading line opens the content or the source of a bookmark.
pub fn is_exact_content_or_source_heading(line: &[u8], level: u8) -> (r: bool)
    ensures
        r == content_or_source(line@, level),
{
    level == 2 && (is_exact_reserved_heading_text(line, "Content")
        || is_exact_reserved_heading_text(line, "Source"))
}

/// The indentation of a heading: its leading spaces, three at most.
pub open spec fn indent(line: Seq<u8>) -> int {
    let n = bytes::find_from(line, not_space(), 0);
    if n > 3 {
        3
    } else {
        n
    }
}

/// The level of an ATX heading: one to six `#` after the indentation, then a blank or the
/// end of the line.
pub open spec fn heading_level(line: Seq<u8>) -> Option<u8> {
    let i = indent(line);
    let j = bytes::find_from(line, not_hash(), i);
    if j - i < 1 || j - i > 6 {
        None
    } else if j < line.len() && !bytes::is_space_or_tab(line[j]) {
        None
    } else {
        Some((j - i) as u8)
    }
}

/// Where indentation ends.
fn indent_of(line: &[u8]) -> (r: usize)
    ensures
        r == indent(line@),
        r <= line@.len(),
{
    let mut i: usize = 0;
    while i < line.len() && line[i] == SPACE && i < 3
        invariant
            i <= line.len(),
            i <= 3,
            forall|k: int| 0 <= k < i ==> !not_space()(#[trigger] line@[k]),
        decreases line.len() - i,
    {
        i += 1;
    }
    proof {
        let n = bytes::find_from(line@, not_space(), 0);
        bytes::lemma_find_from(line@, not_space(), 0);
        if n < i {
            assert(!not_space()(line@[n]));
        }
        if i < 3 && i < n {
            assert(!not_space()(line@[i as int]));
        }
    }
    i
}

/// The level of an ATX heading line.
pub fn atx_heading_level(line: &[u8]) -> (r: Option<u8>)
    ensures
        r == heading_level(line@),
{
    let start = indent_of(line);
    let mut i: usize = start;
    while i < line.len() && line[i] == HASH
        invariant
            start <= i <= line.len(),
            forall|k: int| start <= k < i ==> !not_hash()(#[trigger] line@[k]),
        decreases line.len() - i,
    {
        i += 1;
    }
    proof {
        bytes::lemma_find_from_is(line@, not_hash(), start as int, i as int);
    }
    let hashes: usize = i - start;
    if hashes < 1 || hashes > 6 {
        return None;
    }
    if i < line.len() && line[i] != SPACE && line[i] != TAB {
        return None;
    }
    Some(hashes as u8)
}

/// The end of `s[floor..end]` without the trailing bytes that satisfy `p`.
pub open spec fn back_over(s: Seq<u8>, p: spec_fn(u8) -> bool, floor: int, end: int) -> int
    decreases end - floor,
{
    if end > floor && p(s[end - 1]) {
        back_over(s, p, floor, end - 1)
    } else {
        end
    }
}

/// The test for a space or a tab.
pub open spec fn blanks() -> spec_fn(u8) -> bool {
    |b: u8| bytes::is_space_or_tab(b)
}

/// The test for `#`.
pub open spec fn hashes() -> spec_fn(u8) -> bool {
    |b: u8| b == HASH
}

/// Where the text of a heading of the given level begins: after one blank.
pub open spec fn heading_text_start(line: Seq<u8>, level: u8) -> int {
    let i = indent(line) + level;
    if i < line.len() && bytes::is_space_or_tab(line[i]) {
        i + 1
    } else {
        i
    }
}

/// Where the text of a heading ends: before trailing blanks and a closing run of `#`.
pub open spec fn heading_text_end(line: Seq<u8>, start: int) -> int {
    let end = back_over(line, blanks(), start, line.len() as int);
    let j = back_over(line, hashes(), start, end);
    if start < j < end && bytes::is_space_or_tab(line[j - 1]) {
        back_over(line, blanks(), start, j - 1)
    } else {
        end
    }
}

/// The bytes of a heading's text.
pub open spec fn heading_text_bytes(line: Seq<u8>, level: u8) -> Seq<u8> {
    let start = heading_text_start(line, level);
    line.subrange(start, heading_text_end(line, start))
}

/// Drop trailing blanks.
fn back_over_blanks(line: &[u8], floor: usize, end: usize) -> (r: usize)
    requires
        floor <= end <= line@.len(),
    ensures
        r == back_over(line@, blanks(), floor as int, end as int),
        floor <= r <= end,
{
    let mut e: usize = end;
    while e > floor && (line[e - 1] == SPACE || line[e - 1] == TAB)
        invariant
            floor <= e <= end <= line.len(),
            back_over(line@, blanks(), floor as int, e as int) == back_over(
                line@,
                blanks(),
                floor as int,
                end as int,
            ),
        decreases e,
    {
        e -= 1;
    }
    e
}

/// The text of an ATX heading line of the given level.
pub fn heading_text(line: &[u8], level: u8) -> (r: String)
    requires
        indent(line@) + level <= line@.len(),
    ensures
        r@ == text::lossy_text(heading_text_bytes(line@, level)),
{
    let mut start: usize = indent_of(line) + level as usize;
    if start < line.len() && (line[start] == SPACE || line[start] == TAB) {
        start += 1;
    }
    let mut end: usize = back_over_blanks(line, start, line.len());
    let mut j: usize = end;
    while j > start && line[j - 1] == HASH
        invariant
            start <= j <= end <= line.len(),
            back_over(line@, hashes(), start as int, j as int) == back_over(
                line@,
                hashes(),
                start as int,
                end as int,
            ),
        decreases j,
    {
        j -= 1;
    }
    if j < end && j > start && (line[j - 1] == SPACE || line[j - 1] == TAB) {
        end = back_over_blanks(line, start, j - 1);
    }
    text::from_utf8_lossy(vstd::slice::slice_subrange(line, start, end))
}

} // verus!
