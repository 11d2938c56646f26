//! Gap-free, duplicate-free chunk delivery.
//!
//! A subscription for one (client, shell) pair remembers the next chunk index
//! it owes. Every delivery hands out the log entries from that index to the
//! end of the log and advances the index by as many chunks as were handed
//! out. This module states, over abstract delivery traces, that such a stream
//! covers a contiguous range of indices: no gaps, no duplicates.

use vstd::prelude::*;

verus! {

/// The consecutive indices `start, start + 1, ..., start + n - 1`.
pub open spec fn idx_range(start: int, n: nat) -> Seq<int> {
    Seq::new(n, |i: int| start + i)
}

/// Total number of chunks handed out by a delivery trace; each trace entry is
/// `(start, count)`: the implied index of its first chunk and how many chunks
/// it carried.
pub open spec fn total_count(ds: Seq<(int, nat)>) -> nat
    decreases ds.len(),
{
    if ds.len() == 0 {
        0
    } else {
        total_count(ds.drop_last()) + ds.last().1
    }
}

/// A trace is a well-formed delivery stream from `k`: the first delivery
/// starts at `k`, and each later delivery starts exactly where the previous
/// one ended.
pub open spec fn deliveries_from(k: int, ds: Seq<(int, nat)>) -> bool {
    forall|i: int| 0 <= i < ds.len() ==> (#[trigger] ds[i]).0 == k + total_count(ds.take(i))
}

/// Every chunk index handed out by a trace, in delivery order.
pub open spec fn delivered_indices(ds: Seq<(int, nat)>) -> Seq<int>
    decreases ds.len(),
{
    if ds.len() == 0 {
        Seq::empty()
    } else {
        delivered_indices(ds.drop_last()) + idx_range(ds.last().0, ds.last().1)
    }
}

proof fn lemma_idx_range_concat(k: int, a: nat, b: nat)
    ensures
        idx_range(k, a) + idx_range(k + a, b) =~= idx_range(k, a + b),
{
}

/// Chunk delivery for a given (client, shell) subscription is gap-free and
/// duplicate-free: a well-formed delivery stream from `k` hands out exactly
/// the consecutive indices `k, k + 1, ...`, each once, in order. In
/// particular, across any two consecutive deliveries the second one's first
/// implied index is one past the last index of the first.
pub proof fn lemma_delivery_gap_free(k: int, ds: Seq<(int, nat)>)
    requires
        deliveries_from(k, ds),
    ensures
        delivered_indices(ds) == idx_range(k, total_count(ds)),
    decreases ds.len(),
{
    if ds.len() == 0 {
        assert(delivered_indices(ds) =~= idx_range(k, total_count(ds)));
    } else {
        let pre = ds.drop_last();
        assert(deliveries_from(k, pre)) by {
            assert forall|i: int| 0 <= i < pre.len() implies (#[trigger] pre[i]).0 == k
                + total_count(pre.take(i)) by {
                assert(pre[i] == ds[i]);
                assert(pre.take(i) =~= ds.take(i));
            }
        }
        lemma_delivery_gap_free(k, pre);
        assert(ds.take(ds.len() - 1) =~= pre);
        assert(ds.last().0 == k + total_count(pre));
        lemma_idx_range_concat(k, total_count(pre), ds.last().1);
        assert(delivered_indices(ds) =~= idx_range(k, total_count(ds)));
    }
}

/// The same law, spelled out pointwise: the `i`-th chunk a subscription
/// stream delivers has index `k + i`, so indices are consecutive (gap-free)
/// and pairwise distinct (duplicate-free).
pub proof fn lemma_delivered_consecutive(k: int, ds: Seq<(int, nat)>)
    requires
        deliveries_from(k, ds),
    ensures
        forall|i: int|
            0 <= i < delivered_indices(ds).len() ==> #[trigger] delivered_indices(ds)[i] == k + i,
        forall|i: int, j: int|
            0 <= i < j < delivered_indices(ds).len() ==> delivered_indices(ds)[i]
                != delivered_indices(ds)[j],
{
    lemma_delivery_gap_free(k, ds);
}

} // verus!
