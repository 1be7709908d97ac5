//! What ranges without fault amount to.

use vstd::prelude::*;

use crate::bytes::Span;
use crate::parser::partition;

verus! {

proof fn lemma_inserted(v: Seq<Span>, x: Span)
    ensures
        partition::total(partition::insert_by_start(v, x)) == partition::total(v) + (x.end
            - x.start),
        partition::insert_by_start(v, x).len() == v.len() + 1,
        forall|i: int|
            0 <= i <= v.len() ==> v.contains(#[trigger] partition::insert_by_start(v, x)[i])
                || partition::insert_by_start(v, x)[i] == x,
    decreases v.len(),
{
    let r = partition::insert_by_start(v, x);
    if v.len() == 0 || v.last().start <= x.start {
        assert(r.drop_last() =~= v);
        assert forall|i: int| 0 <= i <= v.len() implies v.contains(#[trigger] r[i]) || r[i] == x by {
            if i < v.len() {
                assert(r[i] == v[i]);
            }
        }
    } else {
        let init = v.drop_last();
        lemma_inserted(init, x);
        let q = partition::insert_by_start(init, x);
        assert(r == q.push(v.last()));
        assert(r.drop_last() =~= q);
        assert forall|i: int| 0 <= i <= v.len() implies v.contains(#[trigger] r[i]) || r[i] == x by {
            if i < v.len() {
                assert(r[i] == q[i]);
                if init.contains(q[i]) {
                    let j = choose|j: int| 0 <= j < init.len() && init[j] == q[i];
                    assert(v[j] == q[i]);
                }
            } else {
                assert(v[v.len() - 1] == r[i]);
            }
        }
    }
}

proof fn lemma_sorted_holds(v: Seq<Span>)
    ensures
        partition::total(partition::sort_by_start(v)) == partition::total(v),
        partition::sort_by_start(v).len() == v.len(),
        forall|i: int|
            0 <= i < v.len() ==> v.contains(#[trigger] partition::sort_by_start(v)[i]),
    decreases v.len(),
{
    if v.len() > 0 {
        let init = v.drop_last();
        lemma_sorted_holds(init);
        let q = partition::sort_by_start(init);
        lemma_inserted(q, v.last());
        let r = partition::sort_by_start(v);
        assert forall|i: int| 0 <= i < v.len() implies v.contains(#[trigger] r[i]) by {
            if q.contains(r[i]) {
                let j = choose|j: int| 0 <= j < q.len() && q[j] == r[i];
                assert(init.contains(q[j]));
                let k = choose|k: int| 0 <= k < init.len() && init[k] == q[j];
                assert(v[k] == r[i]);
            } else {
                assert(v[v.len() - 1] == r[i]);
            }
        }
    }
}

proof fn lemma_seams(v: Seq<Span>, i: int)
    requires
        0 <= i,
        partition::seam_fault(v, i) is None,
    ensures
        forall|k: int| i <= k < v.len() - 1 ==> (#[trigger] v[k]).end == v[k + 1].start,
    decreases v.len() - i,
{
    if i + 1 < v.len() {
        lemma_seams(v, i + 1);
    }
}

proof fn lemma_ranges(v: Seq<Span>, len: int, i: int)
    requires
        0 <= i,
        partition::range_fault(v, len, i) is None,
    ensures
        forall|k: int| i <= k < v.len() ==> (#[trigger] v[k]).start <= v[k].end <= len,
    decreases v.len() - i,
{
    if i < v.len() {
        lemma_ranges(v, len, i + 1);
    }
}

/// Where seams hold, the first `n` ranges cover every byte up to the end of the last of them,
/// and are as long together.
proof fn lemma_chain(v: Seq<Span>, n: int, b: int)
    requires
        0 < n <= v.len(),
        forall|k: int| 0 <= k < v.len() - 1 ==> (#[trigger] v[k]).end == v[k + 1].start,
    ensures
        partition::total(v.take(n)) == v[n - 1].end - v[0].start,
        v[0].start <= b < v[n - 1].end ==> exists|k: int|
            0 <= k < n && (#[trigger] v[k]).start <= b < v[k].end,
    decreases n,
{
    let t = v.take(n);
    assert(t.drop_last() =~= v.take(n - 1));
    assert(t.last() == v[n - 1]);
    assert(partition::total(t) == partition::total(t.drop_last()) + (v[n - 1].end - v[n - 1].start));
    if n > 1 {
        lemma_chain(v, n - 1, b);
        assert(v[n - 2].end == v[n - 1].start);
        if v[0].start <= b < v[n - 1].end && b >= v[n - 2].end {
            assert(v[n - 1].start <= b < v[n - 1].end);
        }
    } else {
        assert(partition::total(v.take(0)) == 0);
        if v[0].start <= b < v[n - 1].end {
            assert(v[0].start <= b < v[0].end);
        }
    }
}

/// Ranges without fault cover a source: each lies inside it, every byte is in one of them, and
/// together they are as long as the source, so that no byte is in two.
pub proof fn law_ranges_without_fault_cover(v: Seq<Span>, len: int, b: int)
    requires
        partition::partition_fault(v, len) is None,
    ensures
        forall|k: int| 0 <= k < v.len() ==> (#[trigger] v[k]).start <= v[k].end <= len,
        0 <= b < len ==> exists|k: int| 0 <= k < v.len() && (#[trigger] v[k]).start <= b < v[k].end,
        partition::total(v) == len,
{
    let s = partition::sort_by_start(v);
    lemma_sorted_holds(v);
    lemma_ranges(v, len, 0);
    lemma_seams(s, 0);
    let n = s.len() as int;
    lemma_chain(s, n, b);
    assert(s.take(n) =~= s);
    if 0 <= b < len {
        let k = choose|k: int| 0 <= k < n && (#[trigger] s[k]).start <= b < s[k].end;
        assert(v.contains(s[k]));
        let j = choose|j: int| 0 <= j < v.len() && v[j] == s[k];
        assert(v[j].start <= b < v[j].end);
    }
}

/// Ranges that lie one behind the other from the start of a source to its end have no fault.
pub proof fn law_chained_ranges_have_no_fault(v: Seq<Span>, len: int)
    requires
        v.len() > 0,
        v[0].start == 0,
        v.last().end == len,
        forall|k: int| 0 <= k < v.len() ==> (#[trigger] v[k]).start <= v[k].end <= len,
        forall|k: int| 0 <= k < v.len() - 1 ==> (#[trigger] v[k]).end == v[k + 1].start,
    ensures
        partition::partition_fault(v, len) is None,
{
    lemma_in_order(v, v.len() as int);
    assert(v.take(v.len() as int) =~= v);
    partition::lemma_no_seam_fault(v, 0);
    lemma_no_range_fault(v, len, 0);
}

proof fn lemma_in_order(v: Seq<Span>, n: int)
    requires
        0 <= n <= v.len(),
        forall|k: int| 0 <= k < v.len() ==> (#[trigger] v[k]).start <= v[k].end,
        forall|k: int| 0 <= k < v.len() - 1 ==> (#[trigger] v[k]).end == v[k + 1].start,
    ensures
        partition::sort_by_start(v.take(n)) == v.take(n),
    decreases n,
{
    if n > 0 {
        lemma_in_order(v, n - 1);
        let t = v.take(n);
        assert(t.drop_last() =~= v.take(n - 1));
        if n > 1 {
            assert(v.take(n - 1).last() == v[n - 2]);
            assert(v[n - 2].end == v[n - 1].start);
        }
        assert(v.take(n - 1).push(v[n - 1]) =~= t);
    }
}

proof fn lemma_no_range_fault(v: Seq<Span>, len: int, i: int)
    requires
        0 <= i,
        forall|k: int| 0 <= k < v.len() ==> (#[trigger] v[k]).start <= v[k].end <= len,
    ensures
        partition::range_fault(v, len, i) is None,
    decreases v.len() - i,
{
    if i < v.len() {
        assert(v[i].start <= v[i].end <= len);
        lemma_no_range_fault(v, len, i + 1);
    }
}

} // verus!
