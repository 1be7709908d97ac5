//! What replacing occurrences of a text in a body gives, stated over its bytes.

use vstd::prelude::*;

use crate::bytes;
use crate::bytes::Span;
use crate::error::NbErrorView;
use crate::line_laws;
use crate::lines;
use crate::types::Occurrence;

verus! {

/// The occurrences of a pattern are read from left to right and do not overlap: each is one,
/// the next starts at or behind the end of the one before it, and none is passed over, for the
/// pattern stands nowhere but at a place that one of them covers.
pub proof fn law_occurrences_are_read_from_the_left(s: Seq<u8>, pattern: Seq<u8>)
    requires
        pattern.len() > 0,
    ensures
        ({
            let v = lines::occurrences(s, pattern, 0);
            &&& forall|k: int|
                0 <= k < v.len() ==> line_laws::is_at(s, pattern, (#[trigger] v[k]).start) && v[k].end
                    == v[k].start + pattern.len()
            &&& forall|j: int, k: int|
                0 <= j < k < v.len() ==> (#[trigger] v[j]).end <= (#[trigger] v[k]).start
            &&& forall|i: int| #[trigger]
                line_laws::is_at(s, pattern, i) ==> exists|k: int|
                    0 <= k < v.len() && (#[trigger] v[k]).start <= i < v[k].end
        }),
{
    lines::lemma_occurrences(s, pattern, 0);
    let v = lines::occurrences(s, pattern, 0);
    assert forall|i: int| #[trigger] line_laws::is_at(s, pattern, i) implies exists|k: int|
        0 <= k < v.len() && (#[trigger] v[k]).start <= i < v[k].end by {
        lemma_none_passed_over(s, pattern, 0, i);
    }
}

proof fn lemma_none_passed_over(s: Seq<u8>, pattern: Seq<u8>, start: int, i: int)
    requires
        pattern.len() > 0,
        0 <= start <= i,
        line_laws::is_at(s, pattern, i),
    ensures
        ({
            let v = lines::occurrences(s, pattern, start);
            exists|k: int| 0 <= k < v.len() && (#[trigger] v[k]).start <= i < v[k].end
        }),
    decreases i - start,
{
    let v = lines::occurrences(s, pattern, start);
    if lines::stands_at(s, pattern, start) {
        if i < start + pattern.len() {
            assert(v[0].start <= i < v[0].end);
        } else {
            let rest = lines::occurrences(s, pattern, start + pattern.len());
            lemma_none_passed_over(s, pattern, start + pattern.len(), i);
            let k = choose|k: int| 0 <= k < rest.len() && (#[trigger] rest[k]).start <= i < rest[k].end;
            assert(v[k + 1] == rest[k]);
        }
    } else {
        lemma_none_passed_over(s, pattern, start + 1, i);
    }
}

/// In front of an occurrence stand those before it, and no others.
proof fn lemma_occurrences_in_front(s: Seq<u8>, pattern: Seq<u8>, start: int, j: int)
    requires
        pattern.len() > 0,
        0 <= start,
        0 <= j < lines::occurrences(s, pattern, start).len(),
    ensures
        ({
            let v = lines::occurrences(s, pattern, start);
            lines::occurrences(s.take(v[j].start), pattern, start) == v.take(j)
        }),
    decreases s.len() - start,
{
    let v = lines::occurrences(s, pattern, start);
    lines::lemma_occurrences(s, pattern, start);
    let cut = v[j].start;
    let t = s.take(cut);
    if lines::stands_at(s, pattern, start) {
        let rest = lines::occurrences(s, pattern, start + pattern.len());
        if j == 0 {
            assert(lines::occurrences(t, pattern, start) =~= v.take(0));
        } else {
            assert(v[j] == rest[j - 1]);
            lemma_occurrences_in_front(s, pattern, start + pattern.len(), j - 1);
            assert(v[0].end <= v[j].start);
            assert(t.subrange(start, start + pattern.len()) =~= s.subrange(
                start,
                start + pattern.len(),
            ));
            assert(lines::stands_at(t, pattern, start));
            assert(v.take(j) =~= seq![v[0]] + rest.take(j - 1));
        }
    } else {
        lemma_occurrences_in_front(s, pattern, start + 1, j);
        if start + pattern.len() <= t.len() {
            assert(t.subrange(start, start + pattern.len()) =~= s.subrange(
                start,
                start + pattern.len(),
            ));
            assert(!lines::stands_at(t, pattern, start));
        } else {
            let w = lines::occurrences(t, pattern, start + 1);
            assert(w =~= Seq::<Span>::empty()) by {
                if w.len() > 0 {
                    lines::lemma_occurrences(t, pattern, start + 1);
                    assert(lines::stands_at(t, pattern, w[0].start));
                }
            }
            assert(lines::occurrences(t, pattern, start) =~= v.take(j));
        }
    }
}

/// Replacing the occurrence with a given number, counted from one and from the left, replaces
/// that one and nothing else: exactly the occurrences with smaller numbers stand in front of
/// the change, and the bytes in front of it and behind it stay.
pub proof fn law_nth_occurrence_is_replaced(
    body: Seq<u8>,
    pattern: Seq<u8>,
    with: Seq<u8>,
    n: u32,
)
    requires
        pattern.len() > 0,
        lines::occurrences(body, pattern, 0).len() <= u32::MAX,
        1 <= n <= lines::occurrences(body, pattern, 0).len(),
    ensures
        ({
            let v = lines::occurrences(body, pattern, 0);
            let p = v[n - 1].start;
            &&& lines::substituted(
                body,
                pattern,
                with,
                Occurrence::Nth { n },
                v.len() as u32,
            ) == Ok::<Seq<u8>, NbErrorView>(
                body.take(p) + with + body.skip(p + pattern.len()),
            )
            &&& line_laws::is_at(body, pattern, p)
            &&& lines::occurrences(body.take(p), pattern, 0).len() == n - 1
        }),
{
    let v = lines::occurrences(body, pattern, 0);
    law_occurrences_are_read_from_the_left(body, pattern);
    lemma_occurrences_in_front(body, pattern, 0, n - 1);
    lemma_one_replaced(body, v[n - 1], with);
}

proof fn lemma_one_replaced(s: Seq<u8>, x: Span, with: Seq<u8>)
    requires
        0 <= x.start <= x.end <= s.len(),
    ensures
        lines::replaced(s, seq![x], with) == s.take(x.start) + with + s.skip(x.end),
{
    reveal_with_fuel(lines::replaced, 2);
    assert(seq![x].drop_last() =~= Seq::<Span>::empty());
    assert(seq![x].last() == x);
    assert(bytes::spliced(s, x.start, x.end, with) =~= s.take(x.start) + with + s.skip(x.end));
}

/// The first occurrence is the one with number one.
pub proof fn law_first_occurrence_is_number_one(
    body: Seq<u8>,
    pattern: Seq<u8>,
    with: Seq<u8>,
    expected: u32,
)
    ensures
        lines::substituted(body, pattern, with, Occurrence::First, expected)
            == lines::substituted(body, pattern, with, Occurrence::Nth { n: 1 }, expected),
{
}

/// An occurrence with a number that is too large is nowhere, and nothing changes.
pub proof fn law_missing_occurrence_changes_nothing(
    body: Seq<u8>,
    pattern: Seq<u8>,
    with: Seq<u8>,
    n: u32,
)
    requires
        pattern.len() > 0,
        lines::occurrences(body, pattern, 0).len() < n,
    ensures
        lines::substituted(
            body,
            pattern,
            with,
            Occurrence::Nth { n },
            lines::occurrences(body, pattern, 0).len() as u32,
        ) == Ok::<Seq<u8>, NbErrorView>(body),
{
}

/// Pieces with the same text between each two of them.
pub open spec fn strung(pieces: Seq<Seq<u8>>, between: Seq<u8>) -> Seq<u8>
    decreases pieces.len(),
{
    if pieces.len() == 0 {
        Seq::empty()
    } else if pieces.len() == 1 {
        pieces[0]
    } else {
        strung(pieces.drop_last(), between) + between + pieces.last()
    }
}

/// The pieces of `s` around spans: in front of the first, between each two, behind the last.
pub open spec fn pieces_around(s: Seq<u8>, v: Seq<Span>) -> Seq<Seq<u8>> {
    Seq::new(
        (v.len() + 1) as nat,
        |k: int|
            s.subrange(
                if k == 0 {
                    0
                } else {
                    v[k - 1].end
                },
                if k == v.len() {
                    s.len() as int
                } else {
                    v[k].start
                },
            ),
    )
}

proof fn lemma_all_replaced(s: Seq<u8>, v: Seq<Span>, with: Seq<u8>)
    requires
        forall|k: int|
            0 <= k < v.len() ==> 0 <= (#[trigger] v[k]).start <= v[k].end <= s.len(),
        forall|j: int, k: int|
            0 <= j < k < v.len() ==> (#[trigger] v[j]).end <= (#[trigger] v[k]).start,
    ensures
        lines::replaced(s, v, with) == strung(pieces_around(s, v), with),
    decreases v.len(),
{
    let g = pieces_around(s, v);
    if v.len() == 0 {
        assert(g[0] =~= s);
    } else {
        let m = v.len() as int;
        let x = v.last();
        assert(v[m - 1] == x);
        let w = v.drop_last();
        let t = bytes::spliced(s, x.start, x.end, with);
        assert(t =~= s.take(x.start) + with + s.skip(x.end));
        assert forall|k: int| 0 <= k < w.len() implies 0 <= (#[trigger] w[k]).start <= w[k].end
            <= x.start by {
            assert(w[k] == v[k]);
            assert(v[k].end <= v[m - 1].start);
        }
        assert forall|j: int, k: int| 0 <= j < k < w.len() implies (#[trigger] w[j]).end <= (
        #[trigger] w[k]).start by {
            assert(w[j] == v[j] && w[k] == v[k]);
        }
        lemma_all_replaced(t, w, with);
        let h = pieces_around(t, w);
        assert(h.last() =~= g[m - 1] + with + g[m]);
        if m == 1 {
            assert(g.drop_last().len() == 1);
            assert(strung(g.drop_last(), with) == g[0]);
            assert(strung(h, with) =~= strung(g, with));
        } else {
            assert forall|k: int| 0 <= k < m - 1 implies h[k] == g[k] by {
                assert(w[k] == v[k]);
                assert(w[k].end <= x.start);
                if k > 0 {
                    assert(w[k - 1] == v[k - 1]);
                    assert(v[k - 1].end <= v[k].start);
                }
                assert(h[k] =~= g[k]);
            }
            assert(h.drop_last() =~= g.drop_last().drop_last());
            assert(g.drop_last().last() == g[m - 1]);
            assert(strung(g.drop_last(), with) == strung(g.drop_last().drop_last(), with) + with
                + g[m - 1]);
            assert(strung(h, with) =~= strung(g, with));
        }
    }
}

/// Replacing all occurrences keeps the pieces between them: where the body is these pieces with
/// the pattern between each two, the result is the same pieces with the replacement between
/// each two.
pub proof fn law_all_occurrences_are_replaced(body: Seq<u8>, pattern: Seq<u8>, with: Seq<u8>)
    requires
        pattern.len() > 0,
        lines::occurrences(body, pattern, 0).len() <= u32::MAX,
    ensures
        ({
            let v = lines::occurrences(body, pattern, 0);
            let pieces = pieces_around(body, v);
            &&& body == strung(pieces, pattern)
            &&& lines::substituted(body, pattern, with, Occurrence::All, v.len() as u32) == Ok::<
                Seq<u8>,
                NbErrorView,
            >(strung(pieces, with))
        }),
{
    let v = lines::occurrences(body, pattern, 0);
    law_occurrences_are_read_from_the_left(body, pattern);
    assert forall|k: int| 0 <= k < v.len() implies 0 <= (#[trigger] v[k]).start <= v[k].end
        <= body.len() by {
        assert(line_laws::is_at(body, pattern, v[k].start));
    }
    lemma_all_replaced(body, v, with);
    lemma_all_replaced(body, v, pattern);
    lines::law_substituting_itself_changes_nothing(
        body,
        pattern,
        Occurrence::All,
        v.len() as u32,
    );
}

/// A substitution is refused exactly when the pattern is empty, when it does not occur as often
/// as expected, or when the occurrence with number zero is meant; a wrong count is reported
/// with the true one.
pub proof fn law_substitution_is_refused(
    body: Seq<u8>,
    pattern: Seq<u8>,
    with: Seq<u8>,
    which: Occurrence,
    expected: u32,
)
    requires
        lines::occurrences(body, pattern, 0).len() <= u32::MAX,
    ensures
        ({
            let made = lines::substituted(body, pattern, with, which, expected);
            let count = lines::occurrences(body, pattern, 0).len();
            &&& made is Err <==> pattern.len() == 0 || count != expected || which == (
            Occurrence::Nth { n: 0 })
            &&& pattern.len() == 0 ==> made == Err::<Seq<u8>, NbErrorView>(
                NbErrorView::EmptySubstringPattern,
            )
            &&& pattern.len() > 0 && count != expected ==> made == Err::<Seq<u8>, NbErrorView>(
                NbErrorView::OccurrenceMismatch { expected, actual: count as u32 },
            )
        }),
{
}

/// A hit of a search stands in the body where it says: in the line with its number, counted in
/// bytes from the start of that line, the pattern begins and ends.
pub proof fn law_hit_is_an_occurrence(body: Seq<u8>, pattern: Seq<u8>, i: int)
    requires
        body.len() <= u32::MAX,
        pattern.len() > 0,
        0 <= i < lines::hits_of(
            body,
            lines::models(body),
            pattern,
            lines::models(body).len() as int,
        ).len(),
    ensures
        ({
            let all = lines::models(body);
            let hit = lines::hits_of(body, all, pattern, all.len() as int)[i];
            let line = all[hit.number - 1];
            &&& 1 <= hit.number <= all.len()
            &&& hit.anchor == line.anchor
            &&& hit.end_byte == hit.start_byte + pattern.len()
            &&& line.text.start + hit.end_byte <= line.text.end
            &&& line_laws::is_at(body, pattern, line.text.start + hit.start_byte)
        }),
{
    let all = lines::models(body);
    let hits = lines::hits_of(body, all, pattern, all.len() as int);
    lines::law_hits_are_the_occurrences(body, pattern);
    let hit = hits[i];
    let k = hit.number - 1;
    assert(lines::hit_in(body, pattern, k, hit));
    lines::lemma_models(body, k);
    let t = bytes::slice_of(body, all[k].text);
    law_occurrences_are_read_from_the_left(t, pattern);
    let a = hit.start_byte as int;
    assert(line_laws::is_at(t, pattern, a));
    assert(body.subrange(all[k].text.start + a, all[k].text.start + a + pattern.len())
        =~= t.subrange(a, a + pattern.len()));
}

} // verus!
