//! The ownership partition of a document: every source byte belongs to exactly one range.

use crate::bytes;
use crate::bytes::{ByteRange, Span};
use crate::parser::document::DocumentKind;
use vstd::prelude::*;

verus! {

/// Which bytes of a source belong to which part of the document.
#[derive(Debug, PartialEq, Eq)]
pub struct Partition {
    pub kind: DocumentKind,
    /// The byte-order mark.
    pub prefix_range: ByteRange,
    pub title_range: Option<ByteRange>,
    /// The URL line; bookmarks only.
    pub url_range: Option<ByteRange>,
    /// The tag line of a note, or the tag section of a task or bookmark.
    pub tags_range: Option<ByteRange>,
    pub separator_ranges: Vec<ByteRange>,
    pub body_ranges: Vec<ByteRange>,
}

/// The model of a [`Partition`].
#[verifier::ext_equal]
pub struct PartitionView {
    pub kind: DocumentKind,
    pub prefix: Span,
    pub title: Option<Span>,
    pub url: Option<Span>,
    pub tags: Option<Span>,
    pub separators: Seq<Span>,
    pub bodies: Seq<Span>,
}

impl View for Partition {
    type V = PartitionView;

    open spec fn view(&self) -> PartitionView {
        PartitionView {
            kind: self.kind,
            prefix: self.prefix_range@,
            title: bytes::opt_span(self.title_range),
            url: bytes::opt_span(self.url_range),
            tags: bytes::opt_span(self.tags_range),
            separators: bytes::spans(self.separator_ranges@),
            bodies: bytes::spans(self.body_ranges@),
        }
    }
}

impl Clone for Partition {
    fn clone(&self) -> (r: Self)
        ensures
            r@ == self@,
    {
        Partition {
            kind: self.kind,
            prefix_range: self.prefix_range,
            title_range: self.title_range,
            url_range: self.url_range,
            tags_range: self.tags_range,
            separator_ranges: vstd::slice::slice_to_vec(self.separator_ranges.as_slice()),
            body_ranges: vstd::slice::slice_to_vec(self.body_ranges.as_slice()),
        }
    }
}

/// An optional span as a sequence of at most one.
pub open spec fn opt_seq(r: Option<Span>) -> Seq<Span> {
    match r {
        Some(r) => seq![r],
        None => Seq::empty(),
    }
}

impl PartitionView {
    /// Every range but the prefix, in the order in which they are listed.
    pub open spec fn pieces(self) -> Seq<Span> {
        if self.kind == DocumentKind::Note {
            opt_seq(self.title) + opt_seq(self.tags) + self.separators + self.bodies
        } else {
            opt_seq(self.title) + opt_seq(self.url) + self.separators + opt_seq(self.tags)
                + self.bodies
        }
    }

    /// Every range, prefix first.
    pub open spec fn covered(self) -> Seq<Span> {
        seq![self.prefix] + self.pieces()
    }

    /// Every range is ordered and inside a source of `len` bytes.
    pub open spec fn within(self, len: int) -> bool {
        &&& bytes::span_within(self.prefix, len)
        &&& self.title matches Some(r) ==> bytes::span_within(r, len)
        &&& self.url matches Some(r) ==> bytes::span_within(r, len)
        &&& self.tags matches Some(r) ==> bytes::span_within(r, len)
        &&& forall|k: int|
            0 <= k < self.separators.len() ==> bytes::span_within(
                #[trigger] self.separators[k],
                len,
            )
        &&& forall|k: int|
            0 <= k < self.bodies.len() ==> bytes::span_within(#[trigger] self.bodies[k], len)
    }
}

/// The first range that is not half-open or reaches past the source.
pub open spec fn range_fault(v: Seq<Span>, len: int, i: int) -> Option<Seq<char>>
    decreases v.len() - i,
{
    if i < 0 || i >= v.len() {
        None
    } else if v[i].start > v[i].end {
        Some("range not half-open (start > end)"@)
    } else if v[i].end > len {
        Some("range extends past source.len()"@)
    } else {
        range_fault(v, len, i + 1)
    }
}

/// `x` placed after every span of `v` that starts no later.
pub open spec fn insert_by_start(v: Seq<Span>, x: Span) -> Seq<Span>
    decreases v.len(),
{
    if v.len() == 0 || v.last().start <= x.start {
        v.push(x)
    } else {
        insert_by_start(v.drop_last(), x).push(v.last())
    }
}

/// `v` sorted by start; spans with one start keep their order.
pub open spec fn sort_by_start(v: Seq<Span>) -> Seq<Span>
    decreases v.len(),
{
    if v.len() == 0 {
        v
    } else {
        insert_by_start(sort_by_start(v.drop_last()), v.last())
    }
}

/// The first place at which consecutive spans overlap or leave a gap.
pub open spec fn seam_fault(v: Seq<Span>, i: int) -> Option<Seq<char>>
    decreases v.len() - i,
{
    if i < 0 || i + 1 >= v.len() {
        None
    } else if v[i].end > v[i + 1].start {
        Some("ranges overlap"@)
    } else if v[i].end < v[i + 1].start {
        Some("partition leaves a gap (internal unassigned bytes)"@)
    } else {
        seam_fault(v, i + 1)
    }
}

/// The first violation of the partition rules by a list of ranges, if any.
pub open spec fn partition_fault(v: Seq<Span>, len: int) -> Option<Seq<char>> {
    let sorted = sort_by_start(v);
    match range_fault(v, len, 0) {
        Some(m) => Some(m),
        None => match seam_fault(sorted, 0) {
            Some(m) => Some(m),
            None => if sorted.len() == 0 || sorted[0].start != 0 {
                Some("partition does not start at byte 0"@)
            } else if sorted.last().end != len {
                Some("partition does not cover to source.len()"@)
            } else {
                None
            },
        },
    }
}

/// The bytes that a list of spans holds, counted with repetition.
pub open spec fn total(v: Seq<Span>) -> int
    decreases v.len(),
{
    if v.len() == 0 {
        0
    } else {
        total(v.drop_last()) + (v.last().end - v.last().start)
    }
}

/// No two spans share a byte.
pub open spec fn disjoint(v: Seq<Span>) -> bool {
    forall|i: int, j: int|
        0 <= i < j < v.len() ==> (#[trigger] v[i]).end <= (#[trigger] v[j]).start || v[j].end
            <= v[i].start
}

/// Non-empty spans that cover every byte of `[from, to)` exactly once, in any order.
#[verifier::opaque]
pub open spec fn tiles(v: Seq<Span>, from: int, to: int) -> bool {
    &&& forall|k: int|
        0 <= k < v.len() ==> from <= (#[trigger] v[k]).start && v[k].start < v[k].end && v[k].end
            <= to
    &&& disjoint(v)
    &&& total(v) == to - from
}

/// Whether a span holds byte `b`.
pub open spec fn owns(r: Span, b: int) -> bool {
    r.start <= b < r.end
}

/// Some span holds byte `b`.
pub open spec fn owned(v: Seq<Span>, b: int) -> bool {
    exists|k: int| 0 <= k < v.len() && #[trigger] owns(v[k], b)
}

/// Every byte of a source of `len` bytes belongs to exactly one of the spans, and the spans
/// hold no other bytes.
pub open spec fn owned_once(v: Seq<Span>, len: int) -> bool {
    &&& forall|k: int| 0 <= k < v.len() ==> bytes::span_within(#[trigger] v[k], len)
    &&& forall|b: int| 0 <= b < len ==> #[trigger] owned(v, b)
    &&& forall|i: int, j: int, b: int|
        0 <= i < v.len() && 0 <= j < v.len() && #[trigger] owns(v[i], b) && #[trigger] owns(v[j], b)
            ==> i == j
}

/// Inserting a span adds its length to the total.
pub proof fn lemma_total_insert(v: Seq<Span>, k: int, x: Span)
    requires
        0 <= k <= v.len(),
    ensures
        total(v.insert(k, x)) == total(v) + (x.end - x.start),
    decreases v.len(),
{
    let w = v.insert(k, x);
    if k == v.len() {
        assert(w.drop_last() =~= v);
    } else {
        lemma_total_insert(v.drop_last(), k, x);
        assert(w.drop_last() =~= v.drop_last().insert(k, x));
        assert(w.last() == v.last());
    }
}

/// Nothing tiles an empty stretch.
pub proof fn lemma_tiles_empty(at: int)
    ensures
        tiles(Seq::empty(), at, at),
{
    reveal(tiles);
}

/// A tiling grows by a span that starts where the tiling ends, wherever it is listed.
pub proof fn lemma_tiles_insert(v: Seq<Span>, from: int, to: int, k: int, x: Span)
    requires
        tiles(v, from, to),
        0 <= k <= v.len(),
        from <= to,
        x.start == to,
        x.start < x.end,
    ensures
        tiles(v.insert(k, x), from, x.end),
{
    reveal(tiles);
    lemma_total_insert(v, k, x);
    let w = v.insert(k, x);
    assert forall|i: int| 0 <= i < w.len() implies from <= (#[trigger] w[i]).start && w[i].start
        < w[i].end && w[i].end <= x.end by {
        if i < k {
            assert(w[i] == v[i]);
        } else if i > k {
            assert(w[i] == v[i - 1]);
        }
    }
    assert forall|i: int, j: int| 0 <= i < j < w.len() implies (#[trigger] w[i]).end <= (
    #[trigger] w[j]).start || w[j].end <= w[i].start by {
        let a = if i < k {
            i
        } else {
            i - 1
        };
        let b = if j < k {
            j
        } else {
            j - 1
        };
        if i != k && j != k {
            assert(w[i] == v[a] && w[j] == v[b]);
        } else if i == k {
            assert(w[j] == v[b]);
        } else {
            assert(w[i] == v[a]);
        }
    }
}

/// A tiling grows when its last listed span, which ends where the tiling ends, is extended.
pub proof fn lemma_tiles_extend(v: Seq<Span>, from: int, to: int, end: int)
    requires
        v.len() > 0,
        tiles(v, from, to),
        v.last().end == to,
        to <= end,
    ensures
        tiles(v.drop_last().push(Span { start: v.last().start, end }), from, end),
{
    reveal(tiles);
    let x = Span { start: v.last().start, end };
    let w = v.drop_last().push(x);
    assert(w.drop_last() =~= v.drop_last());
    assert forall|i: int| 0 <= i < w.len() implies from <= (#[trigger] w[i]).start && w[i].start
        < w[i].end && w[i].end <= end by {
        assert(v[i].start == w[i].start);
    }
    assert forall|i: int, j: int| 0 <= i < j < w.len() implies (#[trigger] w[i]).end <= (
    #[trigger] w[j]).start || w[j].end <= w[i].start by {
        assert(v[i].end <= v[j].start || v[j].end <= v[i].start);
        assert(w[i] == v[i]);
    }
}

/// Spans in order of their starts.
pub open spec fn sorted(v: Seq<Span>) -> bool {
    forall|i: int, j: int|
        0 <= i < j < v.len() ==> (#[trigger] v[i]).start <= (#[trigger] v[j]).start
}

/// Where `insert_by_start` puts a span, and what it keeps.
proof fn lemma_insert_by_start(v: Seq<Span>, x: Span) -> (k: int)
    requires
        sorted(v),
    ensures
        0 <= k <= v.len(),
        insert_by_start(v, x) == v.insert(k, x),
        sorted(insert_by_start(v, x)),
        forall|i: int| 0 <= i < k ==> (#[trigger] v[i]).start <= x.start,
        forall|i: int| k <= i < v.len() ==> (#[trigger] v[i]).start > x.start,
    decreases v.len(),
{
    let r = insert_by_start(v, x);
    if v.len() == 0 || v.last().start <= x.start {
        let k = v.len() as int;
        assert(r =~= v.insert(k, x));
        assert forall|i: int| 0 <= i < k implies (#[trigger] v[i]).start <= x.start by {
            if i < v.len() - 1 {
                assert(v[i].start <= v[v.len() - 1].start);
            }
        }
        k
    } else {
        let init = v.drop_last();
        assert forall|i: int, j: int| 0 <= i < j < init.len() implies (#[trigger] init[i]).start
            <= (#[trigger] init[j]).start by {
            assert(v[i].start <= v[j].start);
        }
        let k = lemma_insert_by_start(init, x);
        assert(r =~= v.insert(k, x));
        assert forall|i: int| k <= i < v.len() implies (#[trigger] v[i]).start > x.start by {
            if i < v.len() - 1 {
                assert(init[i].start > x.start);
            }
        }
        assert forall|i: int| 0 <= i < k implies (#[trigger] v[i]).start <= x.start by {
            assert(init[i].start <= x.start);
        }
        assert forall|i: int, j: int| 0 <= i < j < r.len() implies (#[trigger] r[i]).start <= (
        #[trigger] r[j]).start by {
            let a = if i < k {
                i
            } else {
                i - 1
            };
            let b = if j < k {
                j
            } else {
                j - 1
            };
            if i != k && j != k {
                assert(r[i] == v[a] && r[j] == v[b]);
            } else if i == k {
                assert(r[j] == v[b]);
            } else {
                assert(r[i] == v[a]);
            }
        }
        k
    }
}

/// Placing one more span keeps the bounds, the disjointness and the total.
proof fn lemma_tile_parts_insert(v: Seq<Span>, k: int, x: Span, from: int, to: int)
    requires
        0 <= k <= v.len(),
        disjoint(v.push(x)),
        forall|i: int|
            0 <= i < v.push(x).len() ==> from <= (#[trigger] v.push(x)[i]).start && v.push(
                x,
            )[i].start < v.push(x)[i].end && v.push(x)[i].end <= to,
    ensures
        disjoint(v.insert(k, x)),
        forall|i: int|
            0 <= i < v.insert(k, x).len() ==> from <= (#[trigger] v.insert(k, x)[i]).start
                && v.insert(k, x)[i].start < v.insert(k, x)[i].end && v.insert(k, x)[i].end <= to,
{
    let p = v.push(x);
    let w = v.insert(k, x);
    let n = v.len() as int;
    assert forall|i: int| 0 <= i < w.len() implies from <= (#[trigger] w[i]).start && w[i].start
        < w[i].end && w[i].end <= to by {
        let a = if i < k {
            i
        } else if i == k {
            n
        } else {
            i - 1
        };
        assert(w[i] == p[a]);
    }
    assert forall|i: int, j: int| 0 <= i < j < w.len() implies (#[trigger] w[i]).end <= (
    #[trigger] w[j]).start || w[j].end <= w[i].start by {
        let a = if i < k {
            i
        } else if i == k {
            n
        } else {
            i - 1
        };
        let b = if j < k {
            j
        } else if j == k {
            n
        } else {
            j - 1
        };
        assert(w[i] == p[a] && w[j] == p[b]);
        assert(a < b || b < a);
    }
}

/// Sorting keeps the bounds, the disjointness and the total.
proof fn lemma_sort_keeps(v: Seq<Span>, from: int, to: int)
    requires
        disjoint(v),
        forall|i: int|
            0 <= i < v.len() ==> from <= (#[trigger] v[i]).start && v[i].start < v[i].end
                && v[i].end <= to,
    ensures
        sort_by_start(v).len() == v.len(),
        sorted(sort_by_start(v)),
        disjoint(sort_by_start(v)),
        total(sort_by_start(v)) == total(v),
        forall|i: int|
            0 <= i < v.len() ==> from <= (#[trigger] sort_by_start(v)[i]).start && sort_by_start(
                v,
            )[i].start < sort_by_start(v)[i].end && sort_by_start(v)[i].end <= to,
        forall|x: Span| v.contains(x) <==> sort_by_start(v).contains(x),
    decreases v.len(),
{
    if v.len() > 0 {
        let init = v.drop_last();
        let x = v.last();
        assert(v =~= init.push(x));
        assert forall|i: int| 0 <= i < init.len() implies from <= (#[trigger] init[i]).start
            && init[i].start < init[i].end && init[i].end <= to by {
            assert(init[i] == v[i]);
        }
        assert forall|i: int, j: int| 0 <= i < j < init.len() implies (#[trigger] init[i]).end <= (
        #[trigger] init[j]).start || init[j].end <= init[i].start by {
            assert(init[i] == v[i] && init[j] == v[j]);
        }
        lemma_sort_keeps(init, from, to);
        let s = sort_by_start(init);
        let k = lemma_insert_by_start(s, x);
        lemma_total_insert(s, k, x);
        let p = s.push(x);
        assert forall|i: int| 0 <= i < p.len() implies from <= (#[trigger] p[i]).start && p[i].start
            < p[i].end && p[i].end <= to by {
            if i < s.len() {
                assert(p[i] == s[i]);
            } else {
                assert(p[i] == v[v.len() - 1]);
            }
        }
        assert forall|i: int, j: int| 0 <= i < j < p.len() implies (#[trigger] p[i]).end <= (
        #[trigger] p[j]).start || p[j].end <= p[i].start by {
            if j < s.len() {
                assert(p[i] == s[i] && p[j] == s[j]);
            } else {
                assert(s.contains(s[i]));
                assert(init.contains(s[i]));
                let m = choose|m: int| 0 <= m < init.len() && init[m] == s[i];
                assert(v[m] == p[i] && v[v.len() - 1] == p[j]);
            }
        }
        lemma_tile_parts_insert(s, k, x, from, to);
        let r = s.insert(k, x);
        assert forall|y: Span| v.contains(y) <==> r.contains(y) by {
            if v.contains(y) {
                let m = choose|m: int| 0 <= m < v.len() && v[m] == y;
                if m < init.len() {
                    assert(init[m] == y);
                    assert(init.contains(y));
                    let q = choose|q: int| 0 <= q < s.len() && s[q] == y;
                    assert(r[if q < k {
                        q
                    } else {
                        q + 1
                    }] == y);
                } else {
                    assert(r[k] == y);
                }
            }
            if r.contains(y) {
                let q = choose|q: int| 0 <= q < r.len() && r[q] == y;
                if q == k {
                    assert(v[v.len() - 1] == y);
                } else {
                    let z = if q < k {
                        q
                    } else {
                        q - 1
                    };
                    assert(s[z] == y);
                    assert(s.contains(y));
                    assert(init.contains(y));
                    let m = choose|m: int| 0 <= m < init.len() && init[m] == y;
                    assert(v[m] == y);
                }
            }
        }
    }
}

/// Sorted, disjoint, non-empty spans use no more than the room up to their last end, and what
/// they leave free only grows.
proof fn lemma_slack(s: Seq<Span>, from: int, to: int, j: int, k: int)
    requires
        sorted(s),
        disjoint(s),
        forall|i: int|
            0 <= i < s.len() ==> from <= (#[trigger] s[i]).start && s[i].start < s[i].end
                && s[i].end <= to,
        1 <= j <= k <= s.len(),
    ensures
        0 <= s[j - 1].end - from - total(s.take(j)),
        s[j - 1].end - from - total(s.take(j)) <= s[k - 1].end - from - total(s.take(k)),
    decreases k,
{
    assert(s.take(k).drop_last() =~= s.take(k - 1));
    assert(s.take(k).last() == s[k - 1]);
    assert(total(s.take(k)) == total(s.take(k - 1)) + (s[k - 1].end - s[k - 1].start));
    if k == 1 {
        assert(s.take(0) =~= Seq::<Span>::empty());
    } else {
        assert(s[k - 2].start <= s[k - 1].start);
        assert(s[k - 2].end <= s[k - 1].start || s[k - 1].end <= s[k - 2].start);
        if j < k {
            lemma_slack(s, from, to, j, k - 1);
        } else {
            lemma_slack(s, from, to, k - 1, k - 1);
        }
    }
}

/// No fault from `i` on when every later seam is tight.
pub proof fn lemma_no_seam_fault(v: Seq<Span>, i: int)
    requires
        0 <= i,
        forall|k: int| 0 <= k < v.len() - 1 ==> (#[trigger] v[k]).end == v[k + 1].start,
    ensures
        seam_fault(v, i) is None,
    decreases v.len() - i,
{
    if i + 1 < v.len() {
        assert(v[i].end == v[i + 1].start);
        lemma_no_seam_fault(v, i + 1);
    }
}

proof fn lemma_no_range_fault(v: Seq<Span>, len: int, i: int)
    requires
        0 <= i,
        forall|k: int| 0 <= k < v.len() ==> (#[trigger] v[k]).start <= v[k].end <= len,
    ensures
        range_fault(v, len, i) is None,
    decreases v.len() - i,
{
    if i < v.len() {
        assert(v[i].start <= v[i].end <= len);
        lemma_no_range_fault(v, len, i + 1);
    }
}

/// A span that starts before all others stays in front when the rest is sorted.
proof fn lemma_sort_front(first: Span, v: Seq<Span>)
    requires
        forall|i: int| 0 <= i < v.len() ==> first.start <= (#[trigger] v[i]).start,
    ensures
        sort_by_start(seq![first] + v) == seq![first] + sort_by_start(v),
    decreases v.len(),
{
    let w = seq![first] + v;
    if v.len() == 0 {
        assert(w =~= seq![first]);
        assert(w.drop_last() =~= Seq::<Span>::empty());
        assert(sort_by_start(w.drop_last()) =~= Seq::<Span>::empty());
        assert(sort_by_start(w) =~= seq![first]);
        assert(seq![first] + sort_by_start(v) =~= seq![first]);
    } else {
        let init = v.drop_last();
        assert(w.drop_last() =~= seq![first] + init);
        assert(w.last() == v.last());
        assert forall|i: int| 0 <= i < init.len() implies first.start <= (
        #[trigger] init[i]).start by {
            assert(init[i] == v[i]);
        }
        assert(first.start <= v[v.len() - 1].start);
        lemma_sort_front(first, init);
        lemma_insert_front(first, sort_by_start(init), v.last());
    }
}

proof fn lemma_insert_front(first: Span, s: Seq<Span>, x: Span)
    requires
        first.start <= x.start,
    ensures
        insert_by_start(seq![first] + s, x) == seq![first] + insert_by_start(s, x),
    decreases s.len(),
{
    let w = seq![first] + s;
    if s.len() == 0 {
        assert(w =~= seq![first]);
        assert(insert_by_start(w, x) =~= seq![first].push(x));
        assert(seq![first] + insert_by_start(s, x) =~= seq![first].push(x));
    } else {
        assert(w.last() == s.last());
        assert(w.drop_last() =~= seq![first] + s.drop_last());
        if s.last().start <= x.start {
            assert(insert_by_start(w, x) =~= seq![first] + s.push(x));
        } else {
            lemma_insert_front(first, s.drop_last(), x);
            assert(insert_by_start(w, x) =~= seq![first] + insert_by_start(s.drop_last(), x).push(
                s.last(),
            ));
        }
    }
}

/// A prefix from byte 0, and pieces that tile the rest of the source, make a partition
/// without fault.
pub proof fn lemma_tiles_no_fault(prefix: Span, pieces: Seq<Span>, len: int)
    requires
        prefix.start == 0,
        0 <= prefix.end <= len,
        tiles(pieces, prefix.end, len),
    ensures
        partition_fault(seq![prefix] + pieces, len) is None,
{
    reveal(tiles);
    let v = seq![prefix] + pieces;
    assert forall|k: int| 0 <= k < v.len() implies (#[trigger] v[k]).start <= v[k].end <= len by {
        if k > 0 {
            assert(v[k] == pieces[k - 1]);
        }
    }
    lemma_no_range_fault(v, len, 0);
    lemma_sort_keeps(pieces, prefix.end, len);
    lemma_sort_front(prefix, pieces);
    let s = sort_by_start(pieces);
    let w = seq![prefix] + s;
    let n = s.len() as int;
    if n > 0 {
        assert(s.take(n) =~= s);
        assert forall|k: int| 0 <= k < w.len() - 1 implies (#[trigger] w[k]).end == w[k
            + 1].start by {
            lemma_slack(s, prefix.end, len, k + 1, n);
            assert(s[n - 1].end <= len);
            assert(s.take(k + 1).drop_last() =~= s.take(k));
            assert(s.take(k + 1).last() == s[k]);
            assert(total(s.take(k + 1)) == total(s.take(k)) + (s[k].end - s[k].start));
            assert(w[k + 1] == s[k]);
            if k > 0 {
                lemma_slack(s, prefix.end, len, k, n);
                assert(w[k] == s[k - 1]);
            } else {
                assert(s.take(0) =~= Seq::<Span>::empty());
            }
        }
        lemma_slack(s, prefix.end, len, n, n);
    }
    lemma_no_seam_fault(w, 0);
}

/// Tiles lie between the ends of what they tile.
pub proof fn lemma_tiles_bounds(v: Seq<Span>, from: int, to: int)
    requires
        tiles(v, from, to),
    ensures
        forall|k: int|
            0 <= k < v.len() ==> from <= (#[trigger] v[k]).start && v[k].start < v[k].end
                && v[k].end <= to,
{
    reveal(tiles);
}

/// When every piece lies inside the source, so does every part.
pub proof fn lemma_pieces_within(p: PartitionView, len: int)
    requires
        bytes::span_within(p.prefix, len),
        forall|k: int|
            0 <= k < p.pieces().len() ==> bytes::span_within(#[trigger] p.pieces()[k], len),
        p.kind == DocumentKind::Note ==> p.url is None,
    ensures
        p.within(len),
{
    let v = p.pieces();
    let note = p.kind == DocumentKind::Note;
    let a = opt_seq(p.title).len() as int;
    let u = opt_seq(p.url).len() as int;
    let g = opt_seq(p.tags).len() as int;
    let n = p.separators.len() as int;
    if p.title is Some {
        assert(v[0] == p.title->0);
    }
    if p.url is Some {
        assert(v[a] == p.url->0);
    }
    if p.tags is Some {
        assert(v[if note {
            a
        } else {
            a + u + n
        }] == p.tags->0);
    }
    assert forall|k: int| 0 <= k < n implies bytes::span_within(
        #[trigger] p.separators[k],
        len,
    ) by {
        let at = if note {
            a + g + k
        } else {
            a + u + k
        };
        assert(v[at] == p.separators[k]);
    }
    assert forall|k: int| 0 <= k < p.bodies.len() implies bytes::span_within(
        #[trigger] p.bodies[k],
        len,
    ) by {
        assert(v[a + u + g + n + k] == p.bodies[k]);
    }
}

/// Spans without a seam fault hold every byte from the first start to the last end.
proof fn lemma_seams_hold(v: Seq<Span>, i: int, b: int)
    requires
        0 <= i < v.len(),
        seam_fault(v, i) is None,
        v[i].start <= b < v.last().end,
    ensures
        exists|k: int| i <= k < v.len() && #[trigger] owns(v[k], b),
    decreases v.len() - i,
{
    if b < v[i].end {
        assert(owns(v[i], b));
    } else {
        assert(i + 1 < v.len());
        lemma_seams_hold(v, i + 1, b);
    }
}

/// A prefix from byte 0, and pieces that tile the rest of the source, hold every byte once.
pub proof fn lemma_tiles_owned_once(prefix: Span, pieces: Seq<Span>, len: int)
    requires
        prefix.start == 0,
        0 <= prefix.end <= len,
        tiles(pieces, prefix.end, len),
    ensures
        owned_once(seq![prefix] + pieces, len),
{
    lemma_tiles_no_fault(prefix, pieces, len);
    reveal(tiles);
    let v = seq![prefix] + pieces;
    assert forall|k: int| 0 <= k < v.len() implies bytes::span_within(#[trigger] v[k], len) by {
        if k > 0 {
            assert(v[k] == pieces[k - 1]);
        }
    }
    assert forall|i: int, j: int, b: int|
        0 <= i < v.len() && 0 <= j < v.len() && #[trigger] owns(v[i], b) && #[trigger] owns(v[j], b)
        implies i == j by {
        if i > 0 {
            assert(v[i] == pieces[i - 1]);
        }
        if j > 0 {
            assert(v[j] == pieces[j - 1]);
        }
    }
    lemma_sort_front(prefix, pieces);
    lemma_sort_keeps(pieces, prefix.end, len);
    let w = sort_by_start(v);
    assert forall|b: int| 0 <= b < len implies #[trigger] owned(v, b) by {
        lemma_seams_hold(w, 0, b);
        let k = choose|k: int| 0 <= k < w.len() && #[trigger] owns(w[k], b);
        if k == 0 {
            assert(owns(v[0], b));
        } else {
            let x = sort_by_start(pieces)[k - 1];
            assert(w[k] == x);
            assert(sort_by_start(pieces).contains(x));
            assert(pieces.contains(x));
            let m = choose|m: int| 0 <= m < pieces.len() && pieces[m] == x;
            assert(v[m + 1] == x);
            assert(owns(v[m + 1], b));
        }
    }
}

} // verus!
