//! What is read back of a task whose title was marked.

use crate::bytes;
use crate::bytes::{Span, CLOSE_BRACKET, CR, HASH, LF, LOWER_X, OPEN_BRACKET, SPACE, UPPER_X};
use crate::parser;
use crate::parser::assemble;
use crate::parser::classify;
use crate::parser::document;
use crate::parser::document::{DocumentKind, TodoState};
use crate::parser::helpers;
use crate::parser::retitled;
use crate::parser::types::Token;
use crate::text;
use crate::tokenizer;
use crate::tokenizer::LineSpan;
use crate::transaction::content;
use vstd::prelude::*;

verus! {

/// What a byte means for the lines: a line feed, a carriage return, or neither.
pub open spec fn break_kind(b: u8) -> int {
    if b == LF {
        1
    } else if b == CR {
        2
    } else {
        0
    }
}

/// Two byte strings break into lines at the same places.
pub open spec fn same_breaks(a: Seq<u8>, b: Seq<u8>) -> bool {
    &&& a.len() == b.len()
    &&& forall|k: int|
        #![trigger a[k]]
        #![trigger b[k]]
        0 <= k < a.len() ==> break_kind(a[k]) == break_kind(b[k])
}

/// Byte strings that break at the same places have the same lines.
proof fn lemma_same_lines(a: Seq<u8>, b: Seq<u8>, i: int)
    requires
        same_breaks(a, b),
        0 <= i <= a.len(),
    ensures
        tokenizer::lines_from(a, i) == tokenizer::lines_from(b, i),
    decreases a.len() - i,
{
    if i < a.len() {
        let p = tokenizer::breaks();
        let e = tokenizer::line_end(a, i);
        bytes::lemma_find_from(a, p, i);
        assert forall|k: int| i <= k < e implies !p(#[trigger] b[k]) by {
            assert(!p(a[k]));
            assert(break_kind(a[k]) == break_kind(b[k]));
        }
        if e < a.len() {
            assert(p(a[e]));
            assert(break_kind(a[e]) == break_kind(b[e]));
            if e + 1 < a.len() {
                assert(break_kind(a[e + 1]) == break_kind(b[e + 1]));
            }
        }
        bytes::lemma_find_from_is(b, p, i, e);
        tokenizer::lemma_line_at(a, i);
        assert(tokenizer::line_at(a, i) == tokenizer::line_at(b, i));
        lemma_same_lines(a, b, tokenizer::line_at(a, i).end);
    }
}

/// Encoded texts that differ only in one ASCII character that breaks no line.
proof fn lemma_replaced_breaks(s: Seq<char>, i: int, w: char)
    requires
        0 <= i < s.len(),
        s[i] == ' ' || s[i] == 'x' || s[i] == 'X',
        w == ' ' || w == 'x',
    ensures
        same_breaks(vstd::utf8::encode_utf8(s), vstd::utf8::encode_utf8(s.update(i, w))),
{
    let head = s.take(i);
    let tail = s.skip(i + 1);
    let p = seq![s[i]];
    let q = seq![w];
    assert(s =~= head + p + tail);
    assert(s.update(i, w) =~= head + q + tail);
    let h = vstd::utf8::encode_utf8(head);
    let t = vstd::utf8::encode_utf8(tail);
    text::lemma_encode_concat(head + p, tail);
    text::lemma_encode_concat(head, p);
    text::lemma_encode_concat(head + q, tail);
    text::lemma_encode_concat(head, q);
    vstd::utf8::is_ascii_chars_encode_utf8(p);
    vstd::utf8::is_ascii_chars_encode_utf8(q);
    let pb = vstd::utf8::encode_utf8(p);
    let qb = vstd::utf8::encode_utf8(q);
    let a = h + pb + t;
    let b = h + qb + t;
    assert forall|k: int|
        #![trigger a[k]]
        #![trigger b[k]]
        0 <= k < a.len() implies break_kind(a[k]) == break_kind(b[k]) by {
        if k == h.len() {
            assert(a[k] == pb[0] && b[k] == qb[0]);
            assert(p[0] as u8 == pb[0] && q[0] as u8 == qb[0]);
        }
    }
}

/// A title with a checkbox has it in the state that was asked for, and breaks as before.
proof fn lemma_checked_title(title: Seq<u8>, j: int, m: char, done: bool)
    requires
        content::boxed(text::lossy_text(title), j, m),
        m == ' ' || m == 'x' || m == 'X',
    ensures
        content::boxed(content::checked_title(title, done), j, content::mark_char(done)),
        same_breaks(
            vstd::utf8::encode_utf8(text::lossy_text(title)),
            vstd::utf8::encode_utf8(content::checked_title(title, done)),
        ),
{
    let s = text::lossy_text(title);
    assert forall|k: int| 0 <= k < j implies !content::no_space()(#[trigger] s[k]) by {
        assert(s[k] == ' ');
    }
    bytes::lemma_find_from_is(s, content::no_space(), 0, j);
    lemma_replaced_breaks(s, j + 3, content::mark_char(done));
    let r = content::checked_title(title, done);
    assert forall|k: int| 0 <= k < j implies #[trigger] r[k] == ' ' by {
        assert(s[k] == ' ');
    }
}

/// A character whose encoding starts with an ASCII byte is encoded as that byte alone.
proof fn lemma_ascii_scalar(c: char)
    ensures
        vstd::utf8::encode_scalar(c as u32).len() > 0,
        vstd::utf8::encode_scalar(c as u32)[0] < 128 ==> vstd::utf8::encode_scalar(c as u32).len()
            == 1 && vstd::utf8::encode_scalar(c as u32)[0] as int == c as int,
{
    let u = c as u32;
    assert(c as int == u as int);
    vstd::utf8::char_is_scalar(c);
    assert(u <= 0x7f ==> (u & 0x7f) as u8 as u32 == u) by (bit_vector);
    assert((0xC0u8 | ((u >> 6) & 0x1F) as u8) >= 128) by (bit_vector);
    assert((0xE0u8 | ((u >> 12) & 0x0F) as u8) >= 128) by (bit_vector);
    assert((0xF0u8 | ((u >> 18) & 0x7) as u8) >= 128) by (bit_vector);
}

/// The characters of a text that starts with ASCII bytes.
proof fn lemma_ascii_start(s: Seq<char>, n: int)
    requires
        0 <= n <= vstd::utf8::encode_utf8(s).len(),
        forall|k: int| 0 <= k < n ==> (#[trigger] vstd::utf8::encode_utf8(s)[k]) < 128,
    ensures
        n <= s.len(),
        forall|k: int| 0 <= k < n ==> (#[trigger] s[k]) as int == vstd::utf8::encode_utf8(s)[k] as int,
    decreases n,
{
    if n > 0 {
        let b = vstd::utf8::encode_utf8(s);
        assert(s.len() > 0);
        let head = vstd::utf8::encode_scalar(s[0] as u32);
        let rest = s.drop_first();
        let tail = vstd::utf8::encode_utf8(rest);
        assert(b == head + tail);
        lemma_ascii_scalar(s[0]);
        assert(b[0] < 128 && b[0] == head[0]);
        assert forall|k: int| 0 <= k < n - 1 implies (#[trigger] tail[k]) < 128 by {
            assert(tail[k] == b[k + 1]);
        }
        lemma_ascii_start(rest, n - 1);
        assert forall|k: int| 0 <= k < n implies (#[trigger] s[k]) as int == b[k] as int by {
            if k > 0 {
                assert(rest[k - 1] == s[k]);
                assert(tail[k - 1] == b[k]);
            }
        }
    }
}

/// The byte of a mark.
pub open spec fn mark_byte(m: char) -> u8 {
    if m == ' ' {
        SPACE
    } else if m == 'x' {
        LOWER_X
    } else {
        UPPER_X
    }
}

/// Bytes that start with `j` spaces and a level-one heading with a checkbox.
pub open spec fn boxed_bytes(b: Seq<u8>, j: int, m: u8) -> bool {
    &&& 0 <= j
    &&& j + 6 <= b.len()
    &&& forall|k: int| 0 <= k < j ==> #[trigger] b[k] == SPACE
    &&& b[j] == HASH && b[j + 1] == SPACE && b[j + 2] == OPEN_BRACKET && b[j + 3] == m && b[j + 4]
        == CLOSE_BRACKET && b[j + 5] == SPACE
}

/// The checkbox of a title as bytes and as characters.
pub proof fn lemma_boxed_text(s: Seq<char>, j: int, m: char)
    requires
        m == ' ' || m == 'x' || m == 'X',
    ensures
        boxed_bytes(vstd::utf8::encode_utf8(s), j, mark_byte(m)) ==> content::boxed(s, j, m),
        content::boxed(s, j, m) ==> boxed_bytes(vstd::utf8::encode_utf8(s), j, mark_byte(m)),
{
    let b = vstd::utf8::encode_utf8(s);
    if boxed_bytes(b, j, mark_byte(m)) {
        lemma_ascii_start(s, j + 6);
        assert forall|k: int| 0 <= k < j implies #[trigger] s[k] == ' ' by {
            assert(b[k] == SPACE);
            assert(s[k] as int == b[k] as int);
        }
        assert(s[j] as int == b[j] as int && s[j + 1] as int == b[j + 1] as int);
        assert(s[j + 2] as int == b[j + 2] as int && s[j + 3] as int == b[j + 3] as int);
        assert(s[j + 4] as int == b[j + 4] as int && s[j + 5] as int == b[j + 5] as int);
    }
    if content::boxed(s, j, m) {
        let head = s.take(j + 6);
        let tail = s.skip(j + 6);
        assert(s =~= head + tail);
        text::lemma_encode_concat(head, tail);
        assert(vstd::utf8::is_ascii_chars(head)) by {
            assert forall|k: int| 0 <= k < head.len() implies '\0' <= #[trigger] head[k] <= '\u{7f}' by {
                if k < j {
                    assert(s[k] == ' ');
                }
            }
        }
        vstd::utf8::is_ascii_chars_encode_utf8(head);
        let hb = vstd::utf8::encode_utf8(head);
        assert forall|k: int| 0 <= k < j + 6 implies b[k] == s[k] as u8 by {
            assert(hb[k] == head[k] as u8);
        }
        assert forall|k: int| 0 <= k < j implies #[trigger] b[k] == SPACE by {
            assert(s[k] == ' ');
        }
    }
}

/// The state of a title is that of its checkbox.
pub proof fn lemma_title_state(b: Seq<u8>, j: int, m: char)
    requires
        boxed_bytes(b, j, mark_byte(m)),
        m == ' ' || m == 'x' || m == 'X',
    ensures
        helpers::title_state(b) == Some(
            if m == ' ' {
                TodoState::Open
            } else {
                TodoState::Done
            },
        ),
{
    assert forall|k: int| 0 <= k < j implies !helpers::not_space()(#[trigger] b[k]) by {
        assert(b[k] == SPACE);
    }
    bytes::lemma_find_from_is(b, helpers::not_space(), 0, j);
    let rest = helpers::without_leading_spaces(b);
    let six = rest.take(6);
    assert(six =~= helpers::done_title(mark_byte(m)));
    assert(six =~= rest.subrange(0, 6));
    if m == ' ' {
        assert(six =~= helpers::open_title());
        assert(helpers::open_title().is_prefix_of(rest));
    } else {
        assert(helpers::done_title(mark_byte(m)).is_prefix_of(rest));
        if helpers::open_title().is_prefix_of(rest) {
            assert(six[3] == helpers::open_title()[3]);
        }
    }
}

/// A title with a state has a checkbox.
proof fn lemma_state_box(b: Seq<u8>) -> (r: (int, char))
    requires
        helpers::title_state(b) is Some,
    ensures
        boxed_bytes(b, r.0, mark_byte(r.1)),
        r.1 == ' ' || r.1 == 'x' || r.1 == 'X',
        helpers::title_state(b) == Some(
            if r.1 == ' ' {
                TodoState::Open
            } else {
                TodoState::Done
            },
        ),
{
    let j = bytes::find_from(b, helpers::not_space(), 0);
    bytes::lemma_find_from(b, helpers::not_space(), 0);
    let rest = helpers::without_leading_spaces(b);
    let m = if helpers::open_title().is_prefix_of(rest) {
        ' '
    } else if helpers::done_title(LOWER_X).is_prefix_of(rest) {
        'x'
    } else {
        'X'
    };
    let six = helpers::done_title(mark_byte(m));
    assert(helpers::open_title() =~= helpers::done_title(SPACE));
    assert(six.is_prefix_of(rest));
    assert forall|k: int| 0 <= k < 6 implies b[j + k] == #[trigger] six[k] by {
        assert(rest.subrange(0, 6)[k] == six[k]);
        assert(rest[k] == b[j + k]);
    }
    assert(six[0] == HASH && six[1] == SPACE && six[2] == OPEN_BRACKET && six[4] == CLOSE_BRACKET
        && six[5] == SPACE && six[3] == mark_byte(m));
    assert forall|k: int| 0 <= k < j implies #[trigger] b[k] == SPACE by {
        assert(!helpers::not_space()(b[k]));
    }
    (j, m)
}

/// How a line with a checkbox is classified: as a heading of level one, or as text where it is
/// indented too far.
pub proof fn lemma_boxed_token(line: Seq<u8>, j: int, m: u8)
    requires
        boxed_bytes(line, j, m),
    ensures
        classify::todo_token(line) !is Blank,
        classify::todo_token(line) is Heading <==> j <= 3,
        !assemble::is_tag_boundary(classify::todo_token(line)),
{
    assert(!helpers::blank(line)) by {
        assert(!bytes::is_space_or_tab(line[j]));
    }
    assert forall|k: int| 0 <= k < j implies !helpers::not_space()(#[trigger] line[k]) by {
        assert(line[k] == SPACE);
    }
    bytes::lemma_find_from_is(line, helpers::not_space(), 0, j);
    if j <= 3 {
        assert(!helpers::not_hash()(line[j]));
        bytes::lemma_find_from_is(line, helpers::not_hash(), j, j + 1);
        assert(helpers::heading_level(line) == Some(1u8));
    } else {
        assert(line[3] == SPACE);
        bytes::lemma_find_from_is(line, helpers::not_hash(), 3, 3);
        assert(helpers::heading_level(line) is None);
    }
}

/// The content of a line that starts with a checkbox starts with it too.
proof fn lemma_boxed_content(s: Seq<u8>, line: LineSpan, j: int, m: u8)
    requires
        0 <= line.start < s.len(),
        line == tokenizer::line_at(s, line.start),
        boxed_bytes(bytes::slice_of(s, line.span()), j, m),
        m == SPACE || m == LOWER_X || m == UPPER_X,
    ensures
        boxed_bytes(line.content(s), j, m),
{
    tokenizer::lemma_line_at(s, line.start);
    let p = tokenizer::breaks();
    bytes::lemma_find_from(s, p, line.start);
    let e = line.content_end;
    let b = bytes::slice_of(s, line.span());
    if e < line.start + j + 6 {
        assert(p(s[e]));
        assert(b[e - line.start] == s[e]);
        assert(e - line.start < j ==> b[e - line.start] == SPACE);
    }
    let c = line.content(s);
    assert forall|k: int| 0 <= k < j + 6 implies c[k] == b[k] by {}
    assert forall|k: int| 0 <= k < j implies #[trigger] c[k] == SPACE by {
        assert(b[k] == SPACE);
    }
}

/// Two sources that differ on one line only, which starts with a checkbox in both, and break
/// at the same places.
pub open spec fn remarked(a: Seq<u8>, b: Seq<u8>, r: Span, j: int, m: u8, n: u8) -> bool {
    &&& same_breaks(a, b)
    &&& bytes::span_within(r, a.len() as int)
    &&& forall|k: int|
        #![trigger a[k]]
        #![trigger b[k]]
        0 <= k < a.len() && !(r.start <= k < r.end) ==> a[k] == b[k]
    &&& boxed_bytes(bytes::slice_of(a, r), j, m)
    &&& boxed_bytes(bytes::slice_of(b, r), j, n)
    &&& m == SPACE || m == LOWER_X || m == UPPER_X
    &&& n == SPACE || n == LOWER_X || n == UPPER_X
}

/// Such sources have the same preamble and the same lines.
proof fn lemma_remarked_lines(a: Seq<u8>, b: Seq<u8>, r: Span, j: int, m: u8, n: u8)
    requires
        remarked(a, b, r, j, m, n),
    ensures
        tokenizer::preamble_len(a) == tokenizer::preamble_len(b),
        tokenizer::source_lines(a) == tokenizer::source_lines(b),
{
    let x = bytes::slice_of(a, r);
    let y = bytes::slice_of(b, r);
    assert(x[0] == SPACE || x[0] == HASH);
    assert(y[0] == SPACE || y[0] == HASH);
    assert(a[r.start] == x[0] && b[r.start] == y[0]);
    assert(r.start >= 3 ==> a[0] == b[0] && a[1] == b[1] && a[2] == b[2]);
    lemma_same_lines(a, b, tokenizer::preamble_len(a));
}

/// Two token sequences that are blank, and headings, at the same places.
pub open spec fn same_outline(t: Seq<Token>, u: Seq<Token>) -> bool {
    &&& t.len() == u.len()
    &&& forall|k: int|
        #![trigger t[k]]
        #![trigger u[k]]
        0 <= k < t.len() ==> (t[k] is Blank <==> u[k] is Blank) && (t[k] is Heading
            <==> u[k] is Heading) && (assemble::is_tag_boundary(t[k])
            <==> assemble::is_tag_boundary(u[k]))
}

/// The tokens of such sources.
#[verifier::rlimit(40)]
#[verifier::spinoff_prover]
proof fn lemma_remarked_tokens(a: Seq<u8>, b: Seq<u8>, h: int, j: int, m: u8, n: u8)
    requires
        0 <= h < tokenizer::source_lines(a).len(),
        remarked(a, b, tokenizer::source_lines(a)[h].span(), j, m, n),
    ensures
        same_outline(
            parser::tokens_of(a, DocumentKind::Todo),
            parser::tokens_of(b, DocumentKind::Todo),
        ),
{
    let l = tokenizer::source_lines(a);
    lemma_remarked_lines(a, b, l[h].span(), j, m, n);
    assemble::lemma_source_lines(a);
    let t = parser::tokens_of(a, DocumentKind::Todo);
    let u = parser::tokens_of(b, DocumentKind::Todo);
    assert forall|k: int| 0 <= k < t.len() && k != h implies t[k] == #[trigger] u[k] by {
        if k < h {
            tokenizer::lemma_tile_order(
                a,
                l,
                tokenizer::preamble_len(a),
                a.len() as int,
                k,
                h,
            );
        } else {
            tokenizer::lemma_tile_order(
                a,
                l,
                tokenizer::preamble_len(a),
                a.len() as int,
                h,
                k,
            );
        }
        assert(tokenizer::line_ok(a, l[k]));
        assert(l[k].content(a) =~= l[k].content(b));
    }
    tokenizer::lemma_line_is(a, tokenizer::preamble_len(a), h);
    tokenizer::lemma_line_is(b, tokenizer::preamble_len(b), h);
    lemma_boxed_content(a, l[h], j, m);
    lemma_boxed_content(b, l[h], j, n);
    lemma_boxed_token(l[h].content(a), j, m);
    lemma_boxed_token(l[h].content(b), j, n);
}

/// Equal outlines have their next content at the same place.
proof fn lemma_outline_next(t: Seq<Token>, u: Seq<Token>, i: int)
    requires
        same_outline(t, u),
        0 <= i <= t.len(),
    ensures
        assemble::next_content(t, i) == assemble::next_content(u, i),
{
    assemble::lemma_next_content(t, i);
    let n = assemble::next_content(t, i);
    let p = assemble::has_content();
    assert forall|k: int| i <= k < n implies !p(#[trigger] u[k]) by {
        assert(t[k] is Blank);
    }
    if n < t.len() {
        assert(t[n] !is Blank);
        assert(p(u[n]));
    }
    bytes::lemma_find_from_is(u, p, i, n);
}

/// Equal outlines have the same blank lines and the same last heading.
proof fn lemma_outline_before(l: Seq<LineSpan>, t: Seq<Token>, u: Seq<Token>, n: int)
    requires
        same_outline(t, u),
        0 <= n <= t.len(),
    ensures
        assemble::blank_spans(l, t, n) == assemble::blank_spans(l, u, n),
        assemble::last_heading(t, n) == assemble::last_heading(u, n),
        assemble::last_heading(t, n) < n,
    decreases n,
{
    if n > 0 {
        assert(t[n - 1] is Blank <==> u[n - 1] is Blank);
        lemma_outline_before(l, t, u, n - 1);
    }
}

/// Where a line break ends the bytes before `end` depends on the breaks alone.
proof fn lemma_same_break_before(a: Seq<u8>, b: Seq<u8>, floor: int, end: int)
    requires
        same_breaks(a, b),
        0 <= floor,
        end <= a.len(),
    ensures
        assemble::break_before(a, floor, end) == assemble::break_before(b, floor, end),
        assemble::ends_with_empty_line(a, floor, end) == assemble::ends_with_empty_line(
            b,
            floor,
            end,
        ),
{
    if end > floor {
        assert(break_kind(a[end - 1]) == break_kind(b[end - 1]));
        if end - 1 > floor {
            assert(break_kind(a[end - 2]) == break_kind(b[end - 2]));
        }
        let at = assemble::break_before(a, floor, end);
        if at > 0 && at < end {
            assert(break_kind(a[at - 1]) == break_kind(b[at - 1]));
        }
    }
}

/// Such sources have the same partition.
#[verifier::rlimit(40)]
#[verifier::spinoff_prover]
proof fn lemma_remarked_partition(a: Seq<u8>, b: Seq<u8>, h: int, j: int, m: u8, n: u8)
    requires
        0 <= h < tokenizer::source_lines(a).len(),
        remarked(a, b, tokenizer::source_lines(a)[h].span(), j, m, n),
    ensures
        parser::partition_of(a, DocumentKind::Todo) == parser::partition_of(b, DocumentKind::Todo),
{
    let l = tokenizer::source_lines(a);
    lemma_remarked_lines(a, b, l[h].span(), j, m, n);
    lemma_remarked_tokens(a, b, h, j, m, n);
    let t = parser::tokens_of(a, DocumentKind::Todo);
    let u = parser::tokens_of(b, DocumentKind::Todo);
    assert(t.len() == l.len());
    lemma_outline_next(t, u, 0);
    assemble::lemma_next_content(t, 0);
    let first = assemble::next_content(t, 0);
    if first < t.len() {
        lemma_outline_next(t, u, first + 1);
        assemble::lemma_next_content(t, first + 1);
        let body = assemble::next_content(t, first + 1);
        lemma_outline_before(l, t, u, body);
        lemma_outline_before(l, t, u, t.len() as int);
        let k = assemble::last_heading(t, t.len() as int);
        if k >= 0 {
            assert(assemble::is_tag_boundary(t[k]) <==> assemble::is_tag_boundary(u[k]));
            assemble::lemma_line_ends(a, l, k);
            if body < t.len() {
                assemble::lemma_line_ends(a, l, body);
                lemma_same_break_before(a, b, l[body].start, l[k].start);
            }
        }
    }
}

/// A document that comes out as a task was parsed as one.
proof fn lemma_parsed_as_task(b: Seq<u8>, path: Seq<char>)
    requires
        parser::parsed_at(b, path) matches Ok(doc) && doc.partition.kind == DocumentKind::Todo,
    ensures
        parser::parsed_at(b, path) == parser::parsed_as(b, DocumentKind::Todo),
        forall|c: Seq<u8>| #[trigger]
            parser::parsed_at(c, path) == parser::parsed_as(c, DocumentKind::Todo),
{
}

/// The title line of a task, set in the state that was asked for.
#[verifier::rlimit(40)]
#[verifier::spinoff_prover]
proof fn lemma_marked_source(b: Seq<u8>, r: Span, done: bool) -> (x: (int, u8))
    requires
        bytes::span_within(r, b.len() as int),
        helpers::title_state(bytes::slice_of(b, r)) is Some,
        vstd::utf8::valid_utf8(bytes::slice_of(b, r)),
    ensures
        ({
            let title = vstd::utf8::encode_utf8(
                content::checked_title(bytes::slice_of(b, r), done),
            );
            let after = bytes::spliced(b, r.start, r.end, title);
            &&& remarked(b, after, r, x.0, x.1, mark_byte(content::mark_char(done)))
            &&& helpers::title_state(bytes::slice_of(after, r)) == Some(
                if done {
                    TodoState::Done
                } else {
                    TodoState::Open
                },
            )
        }),
{
    let old_title = bytes::slice_of(b, r);
    let (j, m) = lemma_state_box(old_title);
    vstd::utf8::decode_utf8_encode_utf8(old_title);
    lemma_boxed_text(text::lossy_text(old_title), j, m);
    lemma_checked_title(old_title, j, m, done);
    let new_text = content::checked_title(old_title, done);
    let title = vstd::utf8::encode_utf8(new_text);
    lemma_boxed_text(new_text, j, content::mark_char(done));
    lemma_title_state(title, j, content::mark_char(done));
    let after = bytes::spliced(b, r.start, r.end, title);
    assert(bytes::slice_of(after, r) =~= title);
    assert forall|k: int|
        #![trigger b[k]]
        #![trigger after[k]]
        0 <= k < b.len() && !(r.start <= k < r.end) implies b[k] == after[k] by {}
    assert forall|k: int|
        #![trigger b[k]]
        #![trigger after[k]]
        0 <= k < b.len() implies break_kind(b[k]) == break_kind(after[k]) by {
        if r.start <= k < r.end {
            assert(old_title[k - r.start] == b[k]);
            assert(title[k - r.start] == after[k]);
        }
    }
    (j, mark_byte(m))
}

/// A task whose title was marked reads back in the state that was asked for, and nothing else
/// in it changes: its ranges stay where they are, and so does every byte outside the title.
/// This leaves out titles without a checkbox, and titles that are not UTF-8.
#[verifier::rlimit(40)]
#[verifier::spinoff_prover]
pub proof fn law_marked_title_reads_back(b: Seq<u8>, path: Seq<char>, done: bool)
    requires
        parser::parsed_at(b, path) matches Ok(doc) && doc.todo_state() is Some
            && vstd::utf8::valid_utf8(bytes::slice_of(b, doc.partition.title->0)),
    ensures
        ({
            let doc = parser::parsed_at(b, path)->Ok_0;
            let r = doc.partition.title->0;
            let source = content::state_set(b, path, done, None)->Ok_0;
            let after = parser::parsed_at(source, path)->Ok_0;
            &&& content::state_set(b, path, done, None) is Ok
            &&& parser::parsed_at(source, path) is Ok
            &&& after.todo_state() == Some(
                if done {
                    TodoState::Done
                } else {
                    TodoState::Open
                },
            )
            &&& after.partition == doc.partition
            &&& source.len() == b.len()
            &&& forall|k: int|
                0 <= k < b.len() && !(r.start <= k < r.end) ==> #[trigger] source[k] == b[k]
        }),
{
    lemma_parsed_as_task(b, path);
    let l = tokenizer::source_lines(b);
    let t = parser::tokens_of(b, DocumentKind::Todo);
    let h = assemble::next_content(t, 0);
    let r = l[h].span();
    assemble::lemma_next_content(t, 0);
    assemble::lemma_line_ends(b, l, h);
    let (j, m) = lemma_marked_source(b, r, done);
    let source = content::state_set(b, path, done, None)->Ok_0;
    lemma_remarked_partition(b, source, h, j, m, mark_byte(content::mark_char(done)));
}

/// A source with the content of one line replaced.
pub open spec fn with_content(b: Seq<u8>, l: LineSpan, line: Seq<u8>) -> Seq<u8> {
    b.take(l.start) + (line + b.subrange(l.content_end, l.end)) + b.skip(l.end)
}

/// That line, afterwards.
pub open spec fn new_line(b: Seq<u8>, l: LineSpan, line: Seq<u8>) -> LineSpan {
    LineSpan {
        start: l.start,
        content_end: l.start + line.len(),
        end: l.start + line.len() + (l.end - l.content_end),
    }
}

/// A line whose content is replaced ends as before.
proof fn lemma_content_replaced(b: Seq<u8>, l: LineSpan, line: Seq<u8>)
    requires
        0 <= l.start < b.len(),
        l == tokenizer::line_at(b, l.start),
        line.len() > 0,
        forall|k: int| 0 <= k < line.len() ==> !bytes::is_line_break(#[trigger] line[k]),
    ensures
        ({
            let source = with_content(b, l, line);
            let made = new_line(b, l, line);
            &&& l.start <= l.content_end <= l.end <= b.len()
            &&& made.end <= source.len()
            &&& tokenizer::line_at(source, l.start) == made
            &&& made.content(source) == line
            &&& bytes::slice_of(source, made.span()) == line + b.subrange(l.content_end, l.end)
        }),
{
    let source = with_content(b, l, line);
    let made = new_line(b, l, line);
    let e = made.content_end;
    let brk = tokenizer::breaks();
    tokenizer::lemma_line_at(b, l.start);
    bytes::lemma_find_from(b, brk, l.start);
    assert forall|k: int| l.start <= k < e implies !brk(#[trigger] source[k]) by {
        assert(source[k] == line[k - l.start]);
    }
    if l.content_end < b.len() {
        assert(source[e] == b[l.content_end]);
        if l.content_end + 1 < b.len() {
            assert(source[e + 1] == b[l.content_end + 1]);
        }
    }
    bytes::lemma_find_from_is(source, brk, l.start, e);
    assert(made.content(source) =~= line);
    assert(bytes::slice_of(source, made.span()) =~= line + b.subrange(l.content_end, l.end));
}

/// The title of a task whose first lines are blank.
proof fn lemma_title_behind(front: Seq<u8>, x: Seq<u8>)
    requires
        x.len() > 0,
        x[0] == HASH,
        ({
            let s = front + x;
            let p = tokenizer::preamble_len(s);
            let first = tokenizer::lines_from(front, p);
            &&& p <= front.len()
            &&& parser::readback::whole_lines(front, p, x)
            &&& forall|k: int|
                0 <= k < first.len() ==> helpers::blank((#[trigger] first[k]).content(front))
        }),
    ensures
        ({
            let s = front + x;
            let part = parser::partition_of(s, DocumentKind::Todo);
            &&& part is Some
            &&& part->0.title == Some(tokenizer::line_at(s, front.len() as int).span())
        }),
{
    let s = front + x;
    let n = front.len() as int;
    let p = tokenizer::preamble_len(s);
    let first = tokenizer::lines_from(front, p);
    let h = first.len() as int;
    let l = tokenizer::source_lines(s);
    let t = parser::tokens_of(s, DocumentKind::Todo);
    parser::readback::lemma_lines_join(front, x, p);
    let made = tokenizer::line_at(s, n);
    tokenizer::lemma_line_at(s, n);
    bytes::lemma_find_from(s, tokenizer::breaks(), n);
    assert(l[h] == made);
    tokenizer::lemma_lines_from(front, p);
    let full = assemble::has_content();
    assert forall|k: int| 0 <= k < h implies !full(#[trigger] t[k]) by {
        assert(l[k] == first[k]);
        assert(tokenizer::line_ok(front, first[k]));
        assert(l[k].content(s) =~= first[k].content(front));
    }
    assert(s[n] == HASH);
    assert(made.content_end > n) by {
        if made.content_end == n {
            assert(tokenizer::breaks()(s[n]));
        }
    }
    assert(!helpers::blank(made.content(s))) by {
        assert(made.content(s)[0] == HASH);
        assert(!bytes::is_space_or_tab(made.content(s)[0]));
    }
    assert(full(t[h]));
    bytes::lemma_find_from_is(t, full, 0, h);
}

/// The lines before the title of a task are blank.
proof fn lemma_blank_front(b: Seq<u8>, h: int)
    requires
        h == assemble::next_content(parser::tokens_of(b, DocumentKind::Todo), 0),
        h < tokenizer::source_lines(b).len(),
    ensures
        ({
            let p = tokenizer::preamble_len(b);
            let l = tokenizer::source_lines(b)[h];
            let front = b.take(l.start);
            let first = tokenizer::lines_from(front, p);
            &&& p <= l.start < b.len()
            &&& l == tokenizer::line_at(b, l.start)
            &&& forall|x: Seq<u8>|
                x.len() > 0 && x[0] == HASH ==> #[trigger] parser::readback::whole_lines(
                    front,
                    p,
                    x,
                )
            &&& forall|k: int|
                0 <= k < first.len() ==> helpers::blank((#[trigger] first[k]).content(front))
        }),
{
    let p = tokenizer::preamble_len(b);
    let all = tokenizer::source_lines(b);
    let t = parser::tokens_of(b, DocumentKind::Todo);
    let l = all[h];
    assemble::lemma_next_content(t, 0);
    tokenizer::lemma_line_is(b, p, h);
    retitled::lemma_lines_up_to(b, l.start, h);
    assert(b.skip(l.start).len() > 0);
    let front = b.take(l.start);
    let first = tokenizer::lines_from(front, p);
    tokenizer::lemma_lines_from(front, p);
    assert forall|k: int| 0 <= k < first.len() implies helpers::blank(
        (#[trigger] first[k]).content(front),
    ) by {
        assert(first[k] == all[k]);
        assert(tokenizer::line_ok(front, first[k]));
        assert(first[k].content(front) =~= all[k].content(b));
        assert(t[k] is Blank);
        assert(t[k] == classify::todo_token(all[k].content(b)));
    }
}

/// The title line of a task gives way to another line with the same ending.
proof fn lemma_title_replaced(b: Seq<u8>, h: int, line: Seq<u8>)
    requires
        h == assemble::next_content(parser::tokens_of(b, DocumentKind::Todo), 0),
        h < tokenizer::source_lines(b).len(),
        line.len() > 0,
        line[0] == HASH,
        forall|k: int| 0 <= k < line.len() ==> !bytes::is_line_break(#[trigger] line[k]),
    ensures
        ({
            let l = tokenizer::source_lines(b)[h];
            let source = with_content(b, l, line);
            let part = parser::partition_of(source, DocumentKind::Todo);
            &&& part is Some
            &&& document::opt_slice(source, part->0.title) == Some(
                line + b.subrange(l.content_end, l.end),
            )
        }),
{
    let l = tokenizer::source_lines(b)[h];
    lemma_blank_front(b, h);
    lemma_content_replaced(b, l, line);
    let front = b.take(l.start);
    let x = line + b.subrange(l.content_end, l.end) + b.skip(l.end);
    let source = with_content(b, l, line);
    assert(source =~= front + x);
    assert(x[0] == HASH);
    assert(source[l.start] == HASH);
    assert(l.start >= 3 ==> source[0] == b[0] && source[1] == b[1] && source[2] == b[2]);
    assert(tokenizer::preamble_len(source) == tokenizer::preamble_len(b));
    assert(parser::readback::whole_lines(front, tokenizer::preamble_len(b), x));
    lemma_title_behind(front, x);
}

/// A title without any checkbox, ready to get one.
pub open spec fn lacks_box(title: Seq<u8>) -> bool {
    let s = text::lossy_text(title);
    &&& vstd::utf8::valid_utf8(title)
    &&& "# "@.is_prefix_of(s)
    &&& text::find_text(s, "[x]"@, 0) is None
    &&& text::find_text(s, "[X]"@, 0) is None
    &&& text::find_text(s, "[ ]"@, 0) is None
}

/// The bytes of a title that gets a checkbox.
proof fn lemma_box_added(title: Seq<u8>, done: bool)
    requires
        lacks_box(title),
    ensures
        title.len() >= 2,
        title[0] == HASH && title[1] == SPACE,
        vstd::utf8::encode_utf8(content::checked_title(title, done)) == seq![
            HASH,
            SPACE,
            OPEN_BRACKET,
            mark_byte(content::mark_char(done)),
            CLOSE_BRACKET,
            SPACE,
        ] + title.skip(2),
{
    let s = text::lossy_text(title);
    vstd::utf8::decode_utf8_encode_utf8(title);
    reveal_strlit("# ");
    reveal_strlit(" ");
    reveal_strlit("[x]");
    reveal_strlit("[X]");
    reveal_strlit("[ ]");
    let rest = s.skip(2);
    assert(s =~= "# "@ + rest) by {
        assert(s.subrange(0, 2) == "# "@);
        assert(s[0] == s.subrange(0, 2)[0] && s[1] == s.subrange(0, 2)[1]);
    }
    text::lemma_encode_concat("# "@, rest);
    vstd::utf8::is_ascii_chars_encode_utf8("# "@);
    assert(vstd::utf8::encode_utf8("# "@) =~= seq![HASH, SPACE]);
    assert(title.skip(2) =~= vstd::utf8::encode_utf8(rest));
    assert(content::own_mark(s) is None) by {
        let j = bytes::find_from(s, content::no_space(), 0);
        assert(content::no_space()(s[0]));
        assert(j == 0);
        if content::own_mark(s) is Some {
            let m = s[3];
            assert(content::boxed(s, 0, m));
            let mark = seq!['[', m, ']'];
            assert(s.subrange(2, 5) =~= mark);
            assert(text::text_at(s, mark, 2));
            assert("[x]"@ =~= seq!['[', 'x', ']']);
            assert("[X]"@ =~= seq!['[', 'X', ']']);
            assert("[ ]"@ =~= seq!['[', ' ', ']']);
            lemma_found(s, mark, 0, 2);
        }
    }
    let head = "# "@ + content::mark_text(done) + " "@;
    assert(content::checked_title(title, done) == head + rest);
    text::lemma_encode_concat(head, rest);
    vstd::utf8::is_ascii_chars_encode_utf8(head);
    let hb = vstd::utf8::encode_utf8(head);
    assert(head.len() == 6);
    assert(head[0] == '#' && head[1] == ' ' && head[2] == '[' && head[3] == content::mark_char(done)
        && head[4] == ']' && head[5] == ' ');
    assert(hb =~= seq![
        HASH,
        SPACE,
        OPEN_BRACKET,
        mark_byte(content::mark_char(done)),
        CLOSE_BRACKET,
        SPACE,
    ]);
}

/// A pattern that stands somewhere is found.
proof fn lemma_found(s: Seq<char>, p: Seq<char>, from: int, at: int)
    requires
        0 <= from <= at,
        text::text_at(s, p, at),
    ensures
        text::find_text(s, p, from) is Some,
    decreases at - from,
{
    if from < at && !text::text_at(s, p, from) {
        lemma_found(s, p, from + 1, at);
    }
}

/// A task whose title has no checkbox gets one when it is marked, and reads back in the state
/// that was asked for. This leaves out titles that are no heading of level one at the start of
/// their line, titles that hold a checkbox elsewhere, and titles that are not UTF-8.
pub proof fn law_unmarked_title_gets_its_box(b: Seq<u8>, path: Seq<char>, done: bool)
    requires
        parser::parsed_at(b, path) matches Ok(doc) && doc.partition.kind == DocumentKind::Todo
            && lacks_box(bytes::slice_of(b, doc.partition.title->0)),
    ensures
        ({
            let source = content::state_set(b, path, done, None)->Ok_0;
            let after = parser::parsed_at(source, path)->Ok_0;
            &&& content::state_set(b, path, done, None) is Ok
            &&& parser::parsed_at(source, path) is Ok
            &&& after.todo_state() == Some(
                if done {
                    TodoState::Done
                } else {
                    TodoState::Open
                },
            )
        }),
{
    lemma_parsed_as_task(b, path);
    let t = parser::tokens_of(b, DocumentKind::Todo);
    let h = assemble::next_content(t, 0);
    assemble::lemma_next_content(t, 0);
    let l = tokenizer::source_lines(b)[h];
    let line = lemma_boxed_line(b, h, done);
    lemma_title_replaced(b, h, line);
    let new = line + b.subrange(l.content_end, l.end);
    lemma_title_state(new, 0, content::mark_char(done));
    let source = content::state_set(b, path, done, None)->Ok_0;
    assert(source == with_content(b, l, line));
}

/// The title line of a task with its new checkbox.
proof fn lemma_boxed_line(b: Seq<u8>, h: int, done: bool) -> (line: Seq<u8>)
    requires
        h == assemble::next_content(parser::tokens_of(b, DocumentKind::Todo), 0),
        h < tokenizer::source_lines(b).len(),
        lacks_box(bytes::slice_of(b, tokenizer::source_lines(b)[h].span())),
    ensures
        line.len() > 0,
        line[0] == HASH,
        forall|k: int| 0 <= k < line.len() ==> !bytes::is_line_break(#[trigger] line[k]),
        ({
            let l = tokenizer::source_lines(b)[h];
            let new = line + b.subrange(l.content_end, l.end);
            &&& new == vstd::utf8::encode_utf8(
                content::checked_title(bytes::slice_of(b, l.span()), done),
            )
            &&& boxed_bytes(new, 0, mark_byte(content::mark_char(done)))
        }),
{
    let l = tokenizer::source_lines(b)[h];
    lemma_blank_front(b, h);
    tokenizer::lemma_line_at(b, l.start);
    bytes::lemma_find_from(b, tokenizer::breaks(), l.start);
    let title = bytes::slice_of(b, l.span());
    let m = content::mark_char(done);
    lemma_box_added(title, done);
    let head = seq![HASH, SPACE, OPEN_BRACKET, mark_byte(m), CLOSE_BRACKET, SPACE];
    assert(l.content_end >= l.start + 2) by {
        if l.content_end < l.start + 2 {
            assert(tokenizer::breaks()(b[l.content_end]));
            assert(b[l.content_end] == title[l.content_end - l.start]);
        }
    }
    let line = head + b.subrange(l.start + 2, l.content_end);
    assert forall|k: int| 0 <= k < line.len() implies !bytes::is_line_break(#[trigger] line[k]) by {
        if k >= 6 {
            assert(line[k] == b[l.start + k - 4]);
            assert(!tokenizer::breaks()(b[l.start + k - 4]));
        }
    }
    assert(line + b.subrange(l.content_end, l.end) =~= head + title.skip(2));
    line
}

} // verus!
