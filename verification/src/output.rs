//! Cleaning the output of `nb` list commands.
//!
//! Below an empty result, `nb` prints a block of usage hints. It is cut off only where it is
//! recognised by its structure; anything else is left as it is, since a text of the user may
//! well start like an empty result.

use crate::bytes;
use crate::text;
use vstd::prelude::*;

verus! {

/// A line that `nb` prints in its block of hints.
pub open spec fn hint_marker(line: Seq<char>) -> bool {
    "Add a "@.is_prefix_of(line) || "Add an "@.is_prefix_of(line) || "Import a "@.is_prefix_of(line)
        || "Help information:"@.is_prefix_of(line)
}

/// The first line of an output, with its line ending.
pub open spec fn first_line(s: Seq<char>) -> Seq<char> {
    let at = bytes::find_from(s, text::is_char('\n'), 0);
    if at < s.len() {
        s.take(at + 1)
    } else {
        s
    }
}

/// An output with a block of hints: an empty-result line, an empty line, and a line of hints
/// somewhere below.
pub open spec fn has_hint_block(s: Seq<char>) -> bool {
    let head = first_line(s);
    let signal = text::without_line_end(head);
    let rest = text::lines(s.skip(head.len() as int));
    &&& "0 "@.is_prefix_of(signal)
    &&& "."@.is_suffix_of(signal)
    &&& rest.len() > 0
    &&& rest[0].len() == 0
    &&& exists|k: int| 0 <= k < rest.len() && hint_marker(#[trigger] rest[k])
}

/// An output without its block of hints.
pub open spec fn without_hints(s: Seq<char>) -> Seq<char> {
    if has_hint_block(s) {
        first_line(s)
    } else {
        s
    }
}

/// Whether a line is one that `nb` prints in its block of hints.
fn is_hint_marker(line: &str) -> (r: bool)
    ensures
        r == hint_marker(line@),
{
    text::starts_with(line, "Add a ") || text::starts_with(line, "Add an ") || text::starts_with(
        line,
        "Import a ",
    ) || text::starts_with(line, "Help information:")
}

/// An output without its block of hints; the line ending of the first line stays.
pub fn strip_empty_result_hint(output: &str) -> (r: String)
    ensures
        r@ == without_hints(output@),
{
    let x = text::chars_of(output);
    let n: usize = x.len();
    let mut at: usize = 0;
    while at < n && x[at] != '\n'
        invariant
            at <= n,
            n == x.len(),
            x@ == output@,
            forall|k: int| 0 <= k < at ==> !text::is_char('\n')(#[trigger] output@[k]),
        decreases n - at,
    {
        at += 1;
    }
    proof {
        bytes::lemma_find_from_is(output@, text::is_char('\n'), 0, at as int);
    }
    let end: usize = if at < n {
        at + 1
    } else {
        n
    };
    let head = text::string_of(vstd::slice::slice_subrange(x.as_slice(), 0, end));
    let tail = text::string_of(vstd::slice::slice_subrange(x.as_slice(), end, n));
    assert(head@ =~= first_line(output@));
    assert(tail@ =~= output@.skip(head@.len() as int));
    let signal = text::strip_line_end(head.as_str());
    if !(text::starts_with(signal.as_str(), "0 ") && text::ends_with(signal.as_str(), ".")) {
        return output.to_string();
    }
    let rest = text::lines_of(tail.as_str());
    let ghost l = text::texts(rest@);
    assert(l.len() == rest@.len());
    if rest.len() == 0 {
        return output.to_string();
    }
    assert(l[0] == rest@[0]@);
    if !rest[0].as_str().is_empty() {
        return output.to_string();
    }
    let mut i: usize = 0;
    while i < rest.len()
        invariant
            i <= rest.len(),
            l == text::texts(rest@),
            l.len() == rest@.len(),
            l == text::lines(output@.skip(head@.len() as int)),
            head@ == first_line(output@),
            "0 "@.is_prefix_of(text::without_line_end(head@)),
            "."@.is_suffix_of(text::without_line_end(head@)),
            l.len() > 0,
            l[0].len() == 0,
            forall|k: int| 0 <= k < i ==> !hint_marker(#[trigger] l[k]),
        decreases rest.len() - i,
    {
        assert(l[i as int] == rest@[i as int]@);
        if is_hint_marker(rest[i].as_str()) {
            assert(has_hint_block(output@));
            return head;
        }
        i += 1;
    }
    output.to_string()
}

/// Cleaning is only ever a cut behind the first line.
pub proof fn law_cleaning_only_cuts(s: Seq<char>)
    ensures
        without_hints(s) == s || without_hints(s) == first_line(s),
        without_hints(s).is_prefix_of(s),
{
    let at = bytes::find_from(s, text::is_char('\n'), 0);
    bytes::lemma_find_from(s, text::is_char('\n'), 0);
    assert(s =~= s.take(s.len() as int));
    assert(first_line(s) =~= s.take(first_line(s).len() as int));
}

} // verus!
