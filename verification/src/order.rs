//! Puts the spans of one pass in the order in which they are spliced.

use vstd::prelude::*;
use crate::span::Span;

verus! {

/// `sorted` with `x` put behind the last span that does not start after it.
pub open spec fn insert_by_lo(sorted: Seq<Span>, x: Span) -> Seq<Span>
    decreases sorted.len(),
{
    if sorted.len() > 0 && sorted.last().lo > x.lo {
        insert_by_lo(sorted.drop_last(), x).push(sorted.last())
    } else {
        sorted.push(x)
    }
}

/// The spans in ascending order of their start; spans that start at the
/// same offset keep the order in which they came.
pub open spec fn sort_by_lo(spans: Seq<Span>) -> Seq<Span>
    decreases spans.len(),
{
    if spans.len() == 0 {
        Seq::empty()
    } else {
        insert_by_lo(sort_by_lo(spans.drop_last()), spans.last())
    }
}

/// True where no span starts before the one in front of it.
pub open spec fn ascending(spans: Seq<Span>) -> bool {
    forall|i: int, j: int| 0 <= i < j < spans.len() ==> spans[i].lo <= spans[j].lo
}

/// True where the spans can be spliced from left to right: each is a range
/// of a buffer of `len` bytes, and none starts before the one in front of it
/// has ended.
pub open spec fn in_sequence(spans: Seq<Span>, len: nat) -> bool {
    &&& forall|i: int| 0 <= i < spans.len() ==> (#[trigger] spans[i]).within(len)
    &&& forall|i: int, j: int| 0 <= i < j < spans.len() ==> spans[i].hi <= spans[j].lo
}

/// Inserting at the place that a search from the back finds is
/// [`insert_by_lo`].
pub proof fn lemma_insert_at(sorted: Seq<Span>, x: Span, j: int)
    requires
        0 <= j <= sorted.len(),
        forall|k: int| j <= k < sorted.len() ==> sorted[k].lo > x.lo,
        j > 0 ==> sorted[j - 1].lo <= x.lo,
    ensures
        insert_by_lo(sorted, x) == sorted.insert(j, x),
    decreases sorted.len(),
{
    if j == sorted.len() {
        assert(sorted.insert(j, x) =~= sorted.push(x));
    } else {
        lemma_insert_at(sorted.drop_last(), x, j);
        assert(sorted.drop_last().insert(j, x).push(sorted.last()) =~= sorted.insert(j, x));
    }
}

/// Inserting keeps the length plus one, the spans, and the ascending order.
pub proof fn lemma_insert_by_lo(sorted: Seq<Span>, x: Span)
    ensures
        insert_by_lo(sorted, x).len() == sorted.len() + 1,
        insert_by_lo(sorted, x).to_multiset() == sorted.to_multiset().insert(x),
        ascending(sorted) ==> ascending(insert_by_lo(sorted, x)),
    decreases sorted.len(),
{
    broadcast use vstd::seq_lib::group_to_multiset_ensures;

    if sorted.len() > 0 && sorted.last().lo > x.lo {
        let front = sorted.drop_last();
        let z = sorted.last();
        lemma_insert_by_lo(front, x);
        assert(sorted =~= front.push(z));
        assert(sorted.to_multiset() =~= front.to_multiset().insert(z));
        assert(insert_by_lo(sorted, x).to_multiset() =~= sorted.to_multiset().insert(x));
        if ascending(sorted) {
            let r = insert_by_lo(sorted, x);
            let inner = insert_by_lo(front, x);
            assert(ascending(front));
            assert forall|i: int, j: int| 0 <= i < j < r.len() implies r[i].lo <= r[j].lo by {
                if j < r.len() - 1 {
                    assert(r[i] == inner[i] && r[j] == inner[j]);
                } else {
                    assert(r[i] == inner[i]);
                    assert(inner.to_multiset().count(inner[i]) > 0);
                    if inner[i] != x {
                        assert(front.to_multiset().count(inner[i]) > 0);
                        assert(front.contains(inner[i]));
                        let k = choose|k: int| 0 <= k < front.len() && front[k] == inner[i];
                        assert(sorted[k] == front[k]);
                    }
                }
            }
        }
    } else {
        if ascending(sorted) {
            let r = sorted.push(x);
            assert forall|i: int, j: int| 0 <= i < j < r.len() implies r[i].lo <= r[j].lo by {
                if j == sorted.len() && sorted.len() > 0 {
                    assert(sorted[i].lo <= sorted.last().lo || i == sorted.len() - 1);
                }
            }
        }
    }
}

/// Sorting neither adds nor drops a span, and the result is in ascending
/// order of start.
pub proof fn lemma_sort_by_lo(spans: Seq<Span>)
    ensures
        sort_by_lo(spans).len() == spans.len(),
        sort_by_lo(spans).to_multiset() == spans.to_multiset(),
        ascending(sort_by_lo(spans)),
    decreases spans.len(),
{
    broadcast use vstd::seq_lib::group_to_multiset_ensures;

    if spans.len() == 0 {
        assert(spans =~= Seq::<Span>::empty());
    } else {
        lemma_sort_by_lo(spans.drop_last());
        lemma_insert_by_lo(sort_by_lo(spans.drop_last()), spans.last());
        assert(spans =~= spans.drop_last().push(spans.last()));
        assert(spans.to_multiset() =~= spans.drop_last().to_multiset().insert(spans.last()));
    }
}

/// Sorts the spans by their start. Spans that start at the same offset keep
/// their order.
pub fn sort_spans(spans: &Vec<Span>) -> (sorted: Vec<Span>)
    ensures
        sorted@ == sort_by_lo(spans@),
        sorted@.len() == spans@.len(),
        sorted@.to_multiset() == spans@.to_multiset(),
        ascending(sorted@),
{
    let mut out: Vec<Span> = Vec::new();
    let mut k: usize = 0;
    assert(spans@.take(0) =~= Seq::<Span>::empty());
    while k < spans.len()
        invariant
            k <= spans@.len(),
            out@ == sort_by_lo(spans@.take(k as int)),
            out@.len() == k,
        decreases spans@.len() - k,
    {
        let x: Span = spans[k];
        let mut j: usize = out.len();
        while j > 0 && out[j - 1].lo > x.lo
            invariant
                j <= out@.len(),
                forall|m: int| j <= m < out@.len() ==> out@[m].lo > x.lo,
            decreases j,
        {
            j = j - 1;
        }
        proof {
            lemma_insert_at(out@, x, j as int);
            assert(spans@.take(k + 1).drop_last() =~= spans@.take(k as int));
            assert(spans@.take(k + 1).last() == x);
        }
        out.insert(j, x);
        k = k + 1;
    }
    proof {
        assert(spans@.take(spans@.len() as int) =~= spans@);
        lemma_sort_by_lo(spans@);
    }
    out
}

/// Whether the spans can be spliced from left to right into a buffer of
/// `len` bytes.
pub fn check_sequence(spans: &Vec<Span>, len: usize) -> (ok: bool)
    ensures
        ok == in_sequence(spans@, len as nat),
{
    let mut i: usize = 0;
    let mut last: usize = 0;
    while i < spans.len()
        invariant
            i <= spans@.len(),
            forall|m: int| 0 <= m < i ==> (#[trigger] spans@[m]).within(len as nat),
            forall|m: int, n: int| 0 <= m < n < i ==> spans@[m].hi <= spans@[n].lo,
            i > 0 ==> last == spans@[i - 1].hi,
        decreases spans@.len() - i,
    {
        let sp: Span = spans[i];
        if !(sp.lo <= sp.hi && sp.hi <= len) || (i > 0 && last > sp.lo) {
            proof {
                if in_sequence(spans@, len as nat) {
                    assert(spans@[i as int].within(len as nat));
                    assert(spans@[i - 1].hi <= spans@[i as int].lo);
                }
            }
            return false;
        }
        assert forall|m: int, n: int| 0 <= m < n < i + 1 implies spans@[m].hi <= spans@[n].lo by {
            if n == i && m < i - 1 {
                assert(spans@[m].hi <= spans@[i - 1].lo);
                assert(spans@[i - 1].within(len as nat));
            }
        }
        last = sp.hi;
        i = i + 1;
    }
    true
}

/// Spans that are in sequence are sorted already.
pub proof fn lemma_sequence_is_sorted(spans: Seq<Span>, len: nat)
    requires
        in_sequence(spans, len),
    ensures
        sort_by_lo(spans) == spans,
    decreases spans.len(),
{
    if spans.len() > 0 {
        let front = spans.drop_last();
        assert forall|i: int| 0 <= i < front.len() implies (#[trigger] front[i]).within(len) by {
            assert(front[i] == spans[i]);
        }
        assert forall|i: int, j: int| 0 <= i < j < front.len() implies front[i].hi
            <= front[j].lo by {
            assert(front[i] == spans[i] && front[j] == spans[j]);
        }
        lemma_sequence_is_sorted(front, len);
        if front.len() > 0 {
            assert(front.last() == spans[spans.len() - 2]);
            assert(spans[spans.len() - 2].within(len));
            assert(spans[spans.len() - 2].hi <= spans[spans.len() - 1].lo);
        }
        assert(insert_by_lo(front, spans.last()) == front.push(spans.last()));
        assert(front.push(spans.last()) =~= spans);
    } else {
        assert(spans =~= Seq::<Span>::empty());
    }
}

} // verus!
