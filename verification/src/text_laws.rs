//! What the operations on texts give.

use vstd::prelude::*;

use crate::bytes;
use crate::paths;
use crate::text;

verus! {

/// Only white space.
pub open spec fn blank(s: Seq<char>) -> bool {
    forall|k: int| 0 <= k < s.len() ==> text::whitespace(#[trigger] s[k])
}

/// A text that white space neither starts nor ends.
pub open spec fn bare(s: Seq<char>) -> bool {
    s.len() > 0 ==> !text::whitespace(s[0]) && !text::whitespace(s.last())
}

/// Of the ASCII characters, white space is the space, the tab, and the feeds and returns.
pub proof fn law_ascii_white_space(c: char)
    requires
        (c as u32) < 128,
    ensures
        text::whitespace(c) <==> c == ' ' || c == '\t' || c == '\n' || c == '\r' || c as u32 == 11
            || c as u32 == 12,
{
}

/// Trimming takes away the white space at both ends, and nothing between.
pub proof fn law_trimming_takes_white_space(a: Seq<char>, s: Seq<char>, b: Seq<char>)
    requires
        blank(a),
        blank(b),
        bare(s),
    ensures
        text::trim(a + s + b) == s,
        text::trim_end(a + s + b) == (if s.len() > 0 {
            a + s
        } else {
            Seq::empty()
        }),
        text::trim_start(a + s + b) == (if s.len() > 0 {
            s + b
        } else {
            Seq::empty()
        }),
{
    let all = a + s + b;
    let p = |c: char| !text::whitespace(c);
    if s.len() > 0 {
        let i = a.len() as int;
        assert(all[i] == s[0]);
        assert forall|k: int| 0 <= k < i implies !p(#[trigger] all[k]) by {
            assert(all[k] == a[k]);
        }
        bytes::lemma_find_from_is(all, p, 0, i);
        let t = all.skip(i);
        assert(text::trim_start(all) == t);
        assert(t =~= s + b);
        assert forall|k: int| s.len() <= k < t.len() implies text::whitespace(#[trigger] t[k]) by {
            assert(t[k] == b[k - s.len()]);
        }
        text::lemma_trim_end_at(t, s.len() as int);
        assert(t.take(s.len() as int) =~= s);
        assert forall|k: int| a.len() + s.len() <= k < all.len() implies text::whitespace(
            #[trigger] all[k],
        ) by {
            assert(all[k] == b[k - s.len() - a.len()]);
        }
        text::lemma_trim_end_at(all, a.len() as int + s.len() as int);
        assert(all.take(a.len() as int + s.len() as int) =~= a + s);
    } else {
        assert forall|k: int| 0 <= k < all.len() implies !p(#[trigger] all[k]) by {
            if k < a.len() {
                assert(all[k] == a[k]);
            } else {
                assert(all[k] == b[k - a.len()]);
            }
        }
        bytes::lemma_find_from_is(all, p, 0, all.len() as int);
        let t = all.skip(all.len() as int);
        assert(t =~= Seq::<char>::empty());
        text::lemma_trim_end_at(t, 0);
        assert(t.take(0) =~= s);
        assert forall|k: int| 0 <= k < all.len() implies text::whitespace(#[trigger] all[k]) by {
            assert(!p(all[k]));
        }
        text::lemma_trim_end_at(all, 0);
        assert(all.take(0) =~= Seq::<char>::empty());
        assert(text::trim_start(all) =~= Seq::<char>::empty());
    }
}

/// A text without white space at its ends stays as it is.
pub proof fn law_bare_text_stays(s: Seq<char>)
    requires
        bare(s),
    ensures
        text::trim(s) == s,
        text::trim_end(s) == s,
        text::trim_start(s) == s,
{
    let none = Seq::<char>::empty();
    law_trimming_takes_white_space(none, s, none);
    assert(none + s + none =~= s);
    if s.len() > 0 {
        assert(none + s =~= s);
        assert(s + none =~= s);
    } else {
        assert(s =~= none);
    }
}

/// The decimal form of a number is read as that number, and has no needless zero in front.
pub proof fn law_decimal_form(n: nat)
    ensures
        text::decimal(n).len() > 0,
        text::decimal(n).len() > 1 ==> text::decimal(n)[0] != '0',
        n <= usize::MAX ==> text::unsigned(text::decimal(n)) == Some(n),
        forall|k: int|
            0 <= k < text::decimal(n).len() ==> '0' <= #[trigger] text::decimal(n)[k] <= '9',
{
    text::law_decimal_reads_back(n);
    lemma_no_needless_zero(n);
    let s = text::decimal(n);
    assert(text::ascii_digit(s[0]));
    assert forall|k: int| 0 <= k < s.len() implies '0' <= #[trigger] s[k] <= '9' by {
        assert(text::ascii_digit(s[k]));
    }
}

proof fn lemma_no_needless_zero(n: nat)
    ensures
        text::decimal(n).len() > 0,
        n > 0 ==> text::decimal(n)[0] != '0',
        n < 10 ==> text::decimal(n).len() == 1,
    decreases n,
{
    if n >= 10 {
        lemma_no_needless_zero(n / 10);
    }
}

/// Splitting at a separator undoes joining with it.
pub proof fn law_split_undoes_join(pieces: Seq<Seq<char>>, sep: char)
    requires
        pieces.len() > 0,
        forall|k: int| 0 <= k < pieces.len() ==> !(#[trigger] pieces[k]).contains(sep),
    ensures
        text::split(text::join(pieces, seq![sep]), sep) == pieces,
    decreases pieces.len(),
{
    let first = pieces[0];
    let n = first.len() as int;
    let whole = text::join(pieces, seq![sep]);
    let p = text::is_char(sep);
    if pieces.len() == 1 {
        assert forall|k: int| 0 <= k < whole.len() implies !p(#[trigger] whole[k]) by {
            assert(first[k] == whole[k]);
            if whole[k] == sep {
                assert(first.contains(sep));
            }
        }
        bytes::lemma_find_from_is(whole, p, 0, whole.len() as int);
        assert(seq![whole] =~= pieces);
    } else {
        let rest = pieces.skip(1);
        lemma_join_from_front(pieces, seq![sep]);
        assert(whole == first + seq![sep] + text::join(rest, seq![sep]));
        assert forall|k: int| 0 <= k < n implies !p(#[trigger] whole[k]) by {
            assert(first[k] == whole[k]);
            if whole[k] == sep {
                assert(first.contains(sep));
            }
        }
        bytes::lemma_find_from_is(whole, p, 0, n);
        assert(whole.take(n) =~= first);
        assert(whole.skip(n + 1) =~= text::join(rest, seq![sep]));
        assert forall|k: int| 0 <= k < rest.len() implies !(#[trigger] rest[k]).contains(sep) by {
            assert(rest[k] == pieces[k + 1]);
        }
        law_split_undoes_join(rest, sep);
        assert(seq![first] + rest =~= pieces);
    }
}

proof fn lemma_join_from_front(v: Seq<Seq<char>>, sep: Seq<char>)
    requires
        v.len() >= 2,
    ensures
        text::join(v, sep) == v[0] + sep + text::join(v.skip(1), sep),
    decreases v.len(),
{
    let init = v.drop_last();
    if v.len() == 2 {
        let rest = v.skip(1);
        assert(text::join(init, sep) == v[0]);
        assert(text::join(rest, sep) == v[1]);
        assert(text::join(v, sep) =~= v[0] + sep + v[1]);
    } else {
        lemma_join_from_front(init, sep);
        assert(init.skip(1) =~= v.skip(1).drop_last());
        assert(v.skip(1).last() == v.last());
        assert(text::join(v, sep) =~= v[0] + sep + text::join(v.skip(1), sep));
    }
}

/// A text is its first line, up to the first line feed and without the carriage return before
/// it, and the lines of what follows.
pub proof fn law_lines_are_read_one_by_one(first: Seq<char>, rest: Seq<char>)
    requires
        !first.contains('\n'),
    ensures
        text::lines(first + seq!['\n'] + rest) == seq![
            if first.len() > 0 && first.last() == '\r' {
                first.drop_last()
            } else {
                first
            },
        ] + text::lines(rest),
        first.len() > 0 ==> text::lines(first) == seq![first],
        text::lines(Seq::empty()) == Seq::<Seq<char>>::empty(),
{
    let p = text::is_char('\n');
    let s = first + seq!['\n'] + rest;
    let n = first.len() as int;
    assert forall|k: int| 0 <= k < n implies !p(#[trigger] s[k]) by {
        assert(s[k] == first[k]);
        if first[k] == '\n' {
            assert(first.contains('\n'));
        }
    }
    bytes::lemma_find_from_is(s, p, 0, n);
    assert(s.take(n) =~= first);
    assert(s.skip(n + 1) =~= rest);
    assert forall|k: int| 0 <= k < n implies !p(#[trigger] first[k]) by {
        if first[k] == '\n' {
            assert(first.contains('\n'));
        }
    }
    bytes::lemma_find_from_is(first, p, 0, n);
}

/// A search for a text gives the first place where it stands, and nothing only where it stands
/// nowhere.
pub proof fn law_first_place_is_found(s: Seq<char>, pattern: Seq<char>, i: int)
    requires
        0 <= i,
        i + pattern.len() <= s.len(),
        s.subrange(i, i + pattern.len()) == pattern,
    ensures
        text::find_text(s, pattern, 0) matches Some(k) && 0 <= k <= i && s.subrange(
            k,
            k + pattern.len(),
        ) == pattern,
{
    lemma_found_by(s, pattern, 0, i);
    text::lemma_find_text(s, pattern, 0);
}

proof fn lemma_found_by(s: Seq<char>, pattern: Seq<char>, from: int, i: int)
    requires
        0 <= from <= i,
        text::text_at(s, pattern, i),
    ensures
        text::find_text(s, pattern, from) matches Some(k) && k <= i,
    decreases i - from,
{
    if !text::text_at(s, pattern, from) {
        lemma_found_by(s, pattern, from + 1, i);
    }
}

/// Texts are ordered by the first character in which they differ, and a text stands before its
/// continuations.
pub proof fn law_order_of_texts(
    common: Seq<char>,
    a: char,
    b: char,
    s: Seq<char>,
    t: Seq<char>,
)
    ensures
        a < b ==> text::precedes(common + seq![a] + s, common + seq![b] + t),
        b < a ==> !text::precedes(common + seq![a] + s, common + seq![b] + t),
        text::precedes(common, common + seq![b] + t),
    decreases common.len(),
{
    let x = common + seq![a] + s;
    let y = common + seq![b] + t;
    if common.len() > 0 {
        law_order_of_texts(common.skip(1), a, b, s, t);
        assert(x.skip(1) =~= common.skip(1) + seq![a] + s);
        assert(y.skip(1) =~= common.skip(1) + seq![b] + t);
    }
}

/// A character, over and over.
pub open spec fn run_of(c: char, n: nat) -> Seq<char> {
    Seq::new(n, |i: int| c)
}

proof fn lemma_strip_trailing(x: Seq<char>, c: char, n: nat)
    requires
        x.len() > 0 ==> x.last() != c,
    ensures
        paths::strip_trailing(x + run_of(c, n), c) == x,
    decreases n,
{
    let all = x + run_of(c, n);
    if n > 0 {
        let m = (n - 1) as nat;
        lemma_strip_trailing(x, c, m);
        assert(all.drop_last() =~= x + run_of(c, m));
    } else {
        assert(all =~= x);
    }
}

/// Stripping a character takes away every one of it at the end, at the start, or at both, and
/// nothing between.
pub proof fn law_stripping_takes_the_ends(c: char, a: nat, s: Seq<char>, b: nat)
    requires
        s.len() > 0,
        s[0] != c,
        s.last() != c,
    ensures
        ({
            let all = run_of(c, a) + s + run_of(c, b);
            &&& paths::strip_leading(all, c) == s + run_of(c, b)
            &&& paths::strip_trailing(all, c) == run_of(c, a) + s
            &&& paths::strip_both(all, c) == s
            &&& paths::strip_both(run_of(c, a), c) == Seq::<char>::empty()
        }),
{
    let all = run_of(c, a) + s + run_of(c, b);
    let p = paths::not_char(c);
    assert forall|k: int| 0 <= k < a implies !p(#[trigger] all[k]) by {
        assert(all[k] == run_of(c, a)[k]);
    }
    assert(all[a as int] == s[0]);
    bytes::lemma_find_from_is(all, p, 0, a as int);
    assert(all.skip(a as int) =~= s + run_of(c, b));
    lemma_strip_trailing(run_of(c, a) + s, c, b);
    lemma_strip_trailing(s, c, b);
    let only = run_of(c, a);
    assert forall|k: int| 0 <= k < only.len() implies !p(#[trigger] only[k]) by {}
    bytes::lemma_find_from_is(only, p, 0, a as int);
    assert(only.skip(a as int) =~= Seq::<char>::empty());
}

/// The first place where a pattern stands is replaced, and nothing else; a text without the
/// pattern stays as it is.
pub proof fn law_first_occurrence_is_replaced(
    before: Seq<char>,
    pattern: Seq<char>,
    after: Seq<char>,
    with: Seq<char>,
)
    requires
        forall|i: int|
            0 <= i < before.len() ==> #[trigger] (before + pattern + after).subrange(
                i,
                i + pattern.len(),
            ) != pattern,
    ensures
        text::replace_first(before + pattern + after, pattern, with) == before + with + after,
{
    let s = before + pattern + after;
    let n = before.len() as int;
    assert(s.subrange(n, n + pattern.len()) =~= pattern);
    law_first_place_is_found(s, pattern, n);
    let k = text::find_text(s, pattern, 0)->Some_0;
    if k < n {
        assert(s.subrange(k, k + pattern.len()) != pattern);
    }
    assert(s.take(n) =~= before);
    assert(s.skip(n + pattern.len()) =~= after);
}

/// A text without a pattern stays as it is when the pattern is replaced.
pub proof fn law_missing_pattern_is_not_replaced(
    s: Seq<char>,
    pattern: Seq<char>,
    with: Seq<char>,
)
    requires
        forall|i: int|
            0 <= i && i + pattern.len() <= s.len() ==> #[trigger] s.subrange(i, i + pattern.len())
                != pattern,
    ensures
        text::replace_first(s, pattern, with) == s,
{
    text::lemma_find_text(s, pattern, 0);
}

/// The line feeds and returns at the end of a text are dropped, and nothing else.
pub proof fn law_line_end_is_dropped(s: Seq<char>, end: Seq<char>)
    requires
        s.len() > 0 ==> s.last() != '\n' && s.last() != '\r',
        forall|k: int| 0 <= k < end.len() ==> #[trigger] end[k] == '\n' || end[k] == '\r',
    ensures
        text::without_line_end(s + end) == s,
    decreases end.len(),
{
    let all = s + end;
    if end.len() > 0 {
        assert(end[end.len() - 1] == all.last());
        let less = end.drop_last();
        assert forall|k: int| 0 <= k < less.len() implies #[trigger] less[k] == '\n' || less[k]
            == '\r' by {
            assert(less[k] == end[k]);
        }
        law_line_end_is_dropped(s, less);
        assert(all.drop_last() =~= s + less);
    } else {
        assert(all =~= s);
    }
}

/// A capital letter of ASCII is put in lower case by going as far from `a` as it is from `A`;
/// every other character stays.
pub proof fn law_lower_case(c: char)
    ensures
        'A' <= c && c <= 'Z' ==> text::ascii_lower(c) as u32 - 'a' as u32 == c as u32 - 'A' as u32,
        !('A' <= c && c <= 'Z') ==> text::ascii_lower(c) == c,
{
}

/// Every character of a kind is replaced by the other, and all others stay where they are.
pub proof fn law_replaced_characters(s: Seq<char>, from: char, to: char, k: int)
    requires
        0 <= k < s.len(),
    ensures
        paths::replace_char(s, from, to).len() == s.len(),
        s[k] == from ==> paths::replace_char(s, from, to)[k] == to,
        s[k] != from ==> paths::replace_char(s, from, to)[k] == s[k],
{
}

/// Only decimal digits, behind a plus sign at most, are read as a number. A digit is its own
/// number, and one more digit behind a number makes ten times the number and the digit.
pub proof fn law_numbers_are_read_digit_by_digit(s: Seq<char>, c: char)
    requires
        '0' <= c && c <= '9',
    ensures
        text::unsigned(s) is Some ==> ({
            let d = if s[0] == '+' {
                s.skip(1)
            } else {
                s
            };
            d.len() > 0 && forall|k: int|
                0 <= k < d.len() ==> '0' <= #[trigger] d[k] && d[k] <= '9'
        }),
        text::unsigned(seq![c]) == Some((c as u32 - '0' as u32) as nat),
        text::unsigned(s) matches Some(n) ==> (10 * n + (c as u32 - '0' as u32) <= usize::MAX
            ==> text::unsigned(s.push(c)) == Some((10 * n + (c as u32 - '0' as u32)) as nat)),
{
    let d = if s.len() > 0 && s[0] == '+' {
        s.skip(1)
    } else {
        s
    };
    if text::unsigned(s) is Some {
        assert forall|k: int| 0 <= k < d.len() implies '0' <= #[trigger] d[k] && d[k] <= '9' by {
            assert(text::ascii_digit(d[k]));
        }
        let t = s.push(c);
        let e = d.push(c);
        if s[0] == '+' {
            assert(t.skip(1) =~= e);
        }
        assert(e.drop_last() =~= d);
        assert(e.last() == c);
        assert forall|k: int| 0 <= k < e.len() implies text::ascii_digit(#[trigger] e[k]) by {
            if k < d.len() {
                assert(e[k] == d[k]);
                assert(text::ascii_digit(d[k]));
            }
        }
        assert(text::digits_value(e) == 10 * text::digits_value(d) + (c as u32 - '0' as u32));
    }
    let one = seq![c];
    assert(one.drop_last() =~= Seq::<char>::empty());
    assert(text::digits_value(one.drop_last()) == 0);
    assert(one.last() == c);
    assert(text::digits_value(one) == c as u32 - '0' as u32);
    assert(text::ascii_digit(one[0]));
}

} // verus!
