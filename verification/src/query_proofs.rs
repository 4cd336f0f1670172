//! Proofs behind the pull of a batch and the read of the timeline.

use crate::model::{candidates, since};
use crate::ordered_index::IndexEntry;
use crate::types::{HashValue, RecordView};
use vstd::prelude::*;

verus! {

/// The candidates of a front part of the order are a front part of the
/// candidates.
pub proof fn lemma_candidates_prefix(
    table: Seq<RecordView>,
    order: Seq<IndexEntry>,
    exclude: Seq<HashValue>,
    k: int,
)
    requires
        0 <= k <= order.len(),
    ensures
        candidates(table, order.take(k), exclude).len() <= candidates(table, order, exclude).len(),
        candidates(table, order.take(k), exclude) == candidates(table, order, exclude).take(
            candidates(table, order.take(k), exclude).len() as int,
        ),
    decreases order.len() - k,
{
    let all = candidates(table, order, exclude);
    if k == order.len() {
        assert(order.take(k) =~= order);
        assert(all.take(all.len() as int) =~= all);
    } else {
        lemma_candidates_prefix(table, order, exclude, k + 1);
        let more = candidates(table, order.take(k + 1), exclude);
        let less = candidates(table, order.take(k), exclude);
        assert(order.take(k + 1).drop_last() =~= order.take(k));
        assert(less == more.take(less.len() as int)) by {
            if less.len() == more.len() {
                assert(more.take(more.len() as int) =~= more);
            } else {
                assert(more.drop_last() =~= less);
                assert(more.take(less.len() as int) =~= less);
            }
        }
        assert(all.take(more.len() as int).take(less.len() as int) =~= all.take(less.len() as int));
    }
}

/// With increasing positions, the entries at or after `from` are those from
/// the first place whose position is not below `from`.
pub proof fn lemma_since_is_skip(order: Seq<IndexEntry>, from: u64, start: int)
    requires
        0 <= start <= order.len(),
        forall|j: int| 0 <= j < start ==> (#[trigger] order[j]).major < from,
        forall|j: int| start <= j < order.len() ==> (#[trigger] order[j]).major >= from,
    ensures
        since(order, from) == order.skip(start),
    decreases order.len(),
{
    if order.len() == 0 {
        assert(order.skip(start) =~= Seq::<IndexEntry>::empty());
    } else if start == order.len() {
        lemma_since_is_skip(order.drop_last(), from, start - 1);
        assert(order.drop_last().skip(start - 1) =~= Seq::<IndexEntry>::empty());
        assert(order.skip(start) =~= Seq::<IndexEntry>::empty());
    } else {
        lemma_since_is_skip(order.drop_last(), from, start);
        assert(order.drop_last().skip(start).push(order.last()) =~= order.skip(start));
    }
}

} // verus!
