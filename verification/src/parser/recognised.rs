//! Which lines are headings, links, tag lines and checkboxes, stated over their bytes.

use vstd::prelude::*;

use crate::bytes;
use crate::bytes::Span;
use crate::parser::document::TodoState;
use crate::parser::helpers;

verus! {

/// A run of one byte.
pub open spec fn run(b: u8, n: nat) -> Seq<u8> {
    Seq::new(n, |i: int| b)
}

/// A space or a tab.
pub open spec fn gap(b: u8) -> bool {
    b == 32 || b == 9
}

/// Up to three spaces, one to six `#`, a space or a tab, and a text make a heading: its level is
/// the number of `#`s, and its text is the text, without blanks and a closing run of `#`s behind
/// it. More `#`s make no heading.
pub proof fn law_heading_has_its_level_and_text(
    spaces: nat,
    level: nat,
    between: u8,
    title: Seq<u8>,
    trail: nat,
)
    requires
        spaces <= 3,
        gap(between),
        title.len() > 0,
        !gap(title[0]),
        !gap(title.last()),
        title.last() != 35,
    ensures
        ({
            let line = run(32, spaces) + run(35, level) + seq![between] + title;
            &&& 1 <= level <= 6 ==> helpers::heading_level(line) == Some(level as u8)
                && helpers::heading_text_bytes(line, level as u8) == title
            &&& level > 6 ==> helpers::heading_level(line) is None
            &&& 1 <= level <= 6 ==> helpers::heading_level(line + run(32, trail)) == Some(
                level as u8,
            ) && helpers::heading_text_bytes(line + run(32, trail), level as u8) == title
        }),
{
    let line = run(32, spaces) + run(35, level) + seq![between] + title;
    let longer = line + run(32, trail);
    if level > 0 {
        lemma_heading(line, spaces, level, between, title, 0);
        assert(line + run(32, 0) =~= line);
        lemma_heading(longer, spaces, level, between, title, trail);
    }
}

proof fn lemma_heading(
    line: Seq<u8>,
    spaces: nat,
    level: nat,
    between: u8,
    title: Seq<u8>,
    trail: nat,
)
    requires
        line == run(32, spaces) + run(35, level) + seq![between] + title + run(32, trail),
        spaces <= 3,
        level > 0,
        gap(between),
        title.len() > 0,
        !gap(title[0]),
        !gap(title.last()),
        title.last() != 35,
    ensures
        1 <= level <= 6 ==> helpers::heading_level(line) == Some(level as u8)
            && helpers::heading_text_bytes(line, level as u8) == title,
        level > 6 ==> helpers::heading_level(line) is None,
{
    let a = spaces as int;
    let b = (spaces + level) as int;
    let e = b + 1 + title.len();
    assert(line[a] == 35);
    bytes::lemma_find_from_is(line, helpers::not_space(), 0, a);
    assert(helpers::indent(line) == a);
    assert(line[b] == between);
    assert forall|k: int| a <= k < b implies !helpers::not_hash()(#[trigger] line[k]) by {
        assert(line[k] == 35);
    }
    bytes::lemma_find_from_is(line, helpers::not_hash(), a, b);
    if level <= 6 {
        let start = b + 1;
        assert(helpers::heading_text_start(line, level as u8) == start);
        assert(line[e - 1] == title.last());
        lemma_back_over_run(line, start, e);
        assert(helpers::back_over(line, helpers::hashes(), start, e) == e);
        assert(line.subrange(start, e) =~= title);
    }
}

proof fn lemma_back_over_run(line: Seq<u8>, floor: int, end: int)
    requires
        0 <= floor < end <= line.len(),
        !gap(line[end - 1]),
        forall|k: int| end <= k < line.len() ==> #[trigger] line[k] == 32,
    ensures
        helpers::back_over(line, helpers::blanks(), floor, line.len() as int) == end,
    decreases line.len() - end,
{
    lemma_back_over_from(line, floor, end, line.len() as int);
}

proof fn lemma_back_over_from(line: Seq<u8>, floor: int, end: int, at: int)
    requires
        0 <= floor < end <= at <= line.len(),
        !gap(line[end - 1]),
        forall|k: int| end <= k < line.len() ==> #[trigger] line[k] == 32,
    ensures
        helpers::back_over(line, helpers::blanks(), floor, at) == end,
    decreases at - end,
{
    if at > end {
        assert(line[at - 1] == 32);
        lemma_back_over_from(line, floor, end, at - 1);
    }
}

/// A `#` right before a word makes no heading.
pub proof fn law_hash_without_gap_is_no_heading(level: nat, word: Seq<u8>)
    requires
        level > 0,
        word.len() > 0,
        !gap(word[0]),
        word[0] != 35,
    ensures
        helpers::heading_level(run(35, level) + word) is None,
{
    let line = run(35, level) + word;
    let b = level as int;
    assert(line[0] == 35);
    bytes::lemma_find_from_is(line, helpers::not_space(), 0, 0);
    assert(line[b] == word[0]);
    assert forall|k: int| 0 <= k < b implies !helpers::not_hash()(#[trigger] line[k]) by {
        assert(line[k] == 35);
    }
    bytes::lemma_find_from_is(line, helpers::not_hash(), 0, b);
}

/// A line of one link in angle brackets is a URL line, also with blanks behind it; an empty
/// link, or anything else behind it, makes none.
pub proof fn law_link_line(url: Seq<u8>, behind: Seq<u8>)
    requires
        !url.contains(62),
    ensures
        helpers::url_line(seq![60u8] + url + seq![62u8] + behind) <==> url.len() > 0 && forall|
            k: int,
        |
            0 <= k < behind.len() ==> gap(#[trigger] behind[k]),
{
    let line = seq![60u8] + url + seq![62u8] + behind;
    let at = url.len() as int + 1;
    assert(line[at] == 62);
    assert forall|k: int| 0 <= k < at implies !helpers::closes()(#[trigger] line[k]) by {
        if k > 0 {
            assert(line[k] == url[k - 1]);
            if url[k - 1] == 62 {
                assert(url.contains(62));
            }
        }
    }
    bytes::lemma_find_from_is(line, helpers::closes(), 0, at);
    assert(line.skip(at + 1) =~= behind);
    if helpers::blank(behind) {
        assert forall|k: int| 0 <= k < behind.len() implies gap(#[trigger] behind[k]) by {
            assert(bytes::is_space_or_tab(behind[k]));
        }
    }
    if forall|k: int| 0 <= k < behind.len() ==> gap(#[trigger] behind[k]) {
        assert forall|k: int| 0 <= k < behind.len() implies bytes::is_space_or_tab(
            #[trigger] behind[k],
        ) by {
            assert(gap(behind[k]));
        }
    }
}

/// The box of a title tells its state: a space is open, an `x` or an `X` is done, and any other
/// byte, or a title without a box, tells none.
pub proof fn law_box_tells_the_state(spaces: nat, mark: u8, rest: Seq<u8>)
    ensures
        helpers::title_state(run(32, spaces) + seq![35u8, 32, 91, mark, 93, 32] + rest) == (
        if mark == 32 {
            Some(TodoState::Open)
        } else if mark == 120 || mark == 88 {
            Some(TodoState::Done)
        } else {
            None
        }),
{
    let head = seq![35u8, 32, 91, mark, 93, 32];
    let line = run(32, spaces) + head + rest;
    assert(line[spaces as int] == 35);
    bytes::lemma_find_from_is(line, helpers::not_space(), 0, spaces as int);
    let r = helpers::without_leading_spaces(line);
    assert(r =~= head + rest);
    assert(r[3] == mark);
    if mark == 32 {
        assert(helpers::open_title() =~= r.take(6));
    } else {
        assert(!helpers::open_title().is_prefix_of(r)) by {
            if helpers::open_title().is_prefix_of(r) {
                assert(helpers::open_title()[3] == r.take(6)[3]);
            }
        }
        if mark == 120 {
            assert(helpers::done_title(120) =~= r.take(6));
        } else {
            if helpers::done_title(120).is_prefix_of(r) {
                assert(helpers::done_title(120)[3] == r.take(6)[3]);
            }
            if mark == 88 {
                assert(helpers::done_title(88) =~= r.take(6));
            } else {
                if helpers::done_title(88).is_prefix_of(r) {
                    assert(helpers::done_title(88)[3] == r.take(6)[3]);
                }
            }
        }
    }
}

/// A byte that a tag may have.
pub open spec fn tag_byte(b: u8) -> bool {
    !gap(b) && b != 10 && b != 13 && b != 35
}

/// The tags of a section are the runs of other bytes behind each `#`, up to a blank, a line
/// break or the next `#`; what stands in front of the first `#` is no tag.
pub proof fn law_tags_are_read_one_by_one(front: Seq<u8>, tag: Seq<u8>, rest: Seq<u8>)
    requires
        !front.contains(35),
        tag.len() > 0,
        forall|k: int| 0 <= k < tag.len() ==> tag_byte(#[trigger] tag[k]),
        rest.len() > 0 ==> !tag_byte(rest[0]),
    ensures
        ({
            let at = front.len() as int + 1;
            let t = front + seq![35u8] + tag + rest;
            helpers::tag_tokens(t, 0) == seq![Span { start: at, end: at + tag.len() }]
                + helpers::tag_tokens(t, at + tag.len())
        }),
        helpers::tag_tokens(front, 0) == Seq::<Span>::empty(),
{
    let t = front + seq![35u8] + tag + rest;
    let at = front.len() as int + 1;
    lemma_no_tag_in_front(t, 0, front.len() as int);
    assert(t[at - 1] == 35);
    assert forall|k: int| at <= k < at + tag.len() implies !helpers::tag_end()(#[trigger] t[k]) by {
        assert(t[k] == tag[k - at]);
        assert(tag_byte(tag[k - at]));
    }
    if rest.len() > 0 {
        assert(t[at + tag.len()] == rest[0]);
    }
    bytes::lemma_find_from_is(t, helpers::tag_end(), at, at + tag.len());
    lemma_no_tag_in_front(front, 0, front.len() as int);
}

proof fn lemma_no_tag_in_front(t: Seq<u8>, i: int, n: int)
    requires
        0 <= i <= n <= t.len(),
        forall|k: int| i <= k < n ==> #[trigger] t[k] != 35,
    ensures
        helpers::tag_tokens(t, i) == helpers::tag_tokens(t, n),
    decreases n - i,
{
    if i < n {
        assert(t[i] != 35);
        lemma_no_tag_in_front(t, i + 1, n);
    }
}

/// A byte that a tag on a tag line may have: no blank and no `#`.
pub open spec fn line_tag_byte(b: u8) -> bool {
    b != 32 && b != 9 && b != 35
}

/// A line that starts with anything but a `#` is no tag line, nor is a single tag, also with
/// blanks behind it, nor a line with anything but a tag behind a tag.
pub proof fn law_other_lines_are_no_tag_lines(tag: Seq<u8>, behind: Seq<u8>, rest: Seq<u8>)
    requires
        tag.len() > 0,
        forall|k: int| 0 <= k < tag.len() ==> line_tag_byte(#[trigger] tag[k]),
        forall|k: int| 0 <= k < behind.len() ==> gap(#[trigger] behind[k]),
        rest.len() > 0,
        rest[0] != 35,
        !gap(rest[0]),
    ensures
        !helpers::tags_prefix_line(Seq::<u8>::empty()),
        !helpers::tags_prefix_line(rest),
        !helpers::tags_prefix_line(seq![35u8] + tag),
        !helpers::tags_prefix_line(seq![35u8] + tag + behind),
        behind.len() > 0 ==> !helpers::tags_prefix_line(seq![35u8] + tag + behind + rest),
        !helpers::tags_prefix_line(seq![35u8] + tag + seq![35u8] + rest),
{
    let none = Seq::<u8>::empty();
    lemma_one_tag(tag, none, none);
    lemma_one_tag(tag, behind, none);
    if behind.len() > 0 {
        lemma_one_tag(tag, behind, rest);
    }
    assert(seq![35u8] + tag + none + none =~= seq![35u8] + tag);
    assert(seq![35u8] + tag + behind + none =~= seq![35u8] + tag + behind);
    let line = seq![35u8] + tag + seq![35u8] + rest;
    let stop = 1 + tag.len() as int;
    let p = helpers::tag_stop();
    assert forall|k: int| 1 <= k < stop implies !p(#[trigger] line[k]) by {
        assert(line[k] == tag[k - 1]);
    }
    assert(line[stop] == 35);
    bytes::lemma_find_from_is(line, p, 1, stop);
}

proof fn lemma_one_tag(tag: Seq<u8>, behind: Seq<u8>, rest: Seq<u8>)
    requires
        tag.len() > 0,
        forall|k: int| 0 <= k < tag.len() ==> line_tag_byte(#[trigger] tag[k]),
        forall|k: int| 0 <= k < behind.len() ==> gap(#[trigger] behind[k]),
        rest.len() > 0 ==> behind.len() > 0 && rest[0] != 35 && !gap(rest[0]),
    ensures
        !helpers::tags_prefix_line(seq![35u8] + tag + behind + rest),
{
    let line = seq![35u8] + tag + behind + rest;
    let stop = 1 + tag.len() as int;
    let next = stop + behind.len() as int;
    let p = helpers::tag_stop();
    let q = helpers::not_blank();
    assert forall|k: int| 1 <= k < stop implies !p(#[trigger] line[k]) by {
        assert(line[k] == tag[k - 1]);
    }
    if behind.len() > 0 {
        assert(line[stop] == behind[0]);
    }
    bytes::lemma_find_from_is(line, p, 1, stop);
    assert forall|k: int| stop <= k < next implies !q(#[trigger] line[k]) by {
        assert(line[k] == behind[k - stop]);
    }
    if rest.len() > 0 {
        assert(line[next] == rest[0]);
        assert(helpers::tags_from(line, next) is None);
    }
    bytes::lemma_find_from_is(line, q, stop, next);
    assert(line[0] == 35);
    assert(rest.len() == 0 ==> next == line.len());
    assert(helpers::tags_from(line, 0) matches Some(n) ==> n == 1);
}

} // verus!
