//! Stat reader logic: the store keys the bridge consumes, the backlog
//! sum over all known queues, and the processed-counter delta.

use vstd::prelude::*;
use crate::namespace::{Namespace, wrapped};

verus! {

/// Mathematical sum of per-queue backlog lengths.
pub open spec fn backlog_sum(lengths: Seq<u32>) -> int
    decreases lengths.len(),
{
    if lengths.len() == 0 {
        0
    } else {
        backlog_sum(lengths.drop_last()) + lengths.last()
    }
}

/// The reportable backlog total: the sum, saturated at the largest
/// value the counter type can carry.
pub open spec fn saturated_backlog_total(lengths: Seq<u32>) -> u32 {
    if backlog_sum(lengths) <= u32::MAX {
        backlog_sum(lengths) as u32
    } else {
        u32::MAX
    }
}

/// The key under which the set of known queue names lives.
pub fn queues_key(ns: &Namespace) -> (r: String)
    ensures
        r@ == wrapped(ns@, "queues"@),
{
    ns.wrap("queues")
}

/// The key whose list length is the backlog of one queue:
/// `"queue:{name}"`, namespaced.
pub fn queue_backlog_key(ns: &Namespace, queue: &str) -> (r: String)
    ensures
        r@ == wrapped(ns@, "queue:"@ + queue@),
{
    let mut key = String::from_str("queue:");
    key.append(queue);
    ns.wrap(key.as_str())
}

/// The key holding the cumulative processed-job counter.
pub fn processed_key(ns: &Namespace) -> (r: String)
    ensures
        r@ == wrapped(ns@, "stat:processed"@),
{
    ns.wrap("stat:processed")
}

/// The enqueued total over the per-queue backlog lengths. An empty
/// queue-name set yields `Some(0)`: zero is a legitimate, reportable
/// value, never "no data."
pub fn enqueued_total(lengths: &Vec<u32>) -> (r: Option<u32>)
    ensures
        r == Some(saturated_backlog_total(lengths@)),
{
    let mut total: u32 = 0;
    let mut i: usize = 0;
    while i < lengths.len()
        invariant
            i <= lengths.len(),
            total == saturated_backlog_total(lengths@.take(i as int)),
        decreases lengths.len() - i,
    {
        proof {
            assert(lengths@.take(i + 1).drop_last() =~= lengths@.take(i as int));
            assert(lengths@.take(i + 1).last() == lengths@[i as int]);
            lemma_backlog_sum_nonneg(lengths@.take(i as int));
        }
        let next = lengths[i];
        if u32::MAX - total < next {
            total = u32::MAX;
        } else {
            total = total + next;
        }
        i = i + 1;
    }
    proof {
        assert(lengths@.take(lengths@.len() as int) =~= lengths@);
    }
    Some(total)
}

/// The backlog sum is never negative.
pub proof fn lemma_backlog_sum_nonneg(lengths: Seq<u32>)
    ensures
        backlog_sum(lengths) >= 0,
    decreases lengths.len(),
{
    if lengths.len() > 0 {
        lemma_backlog_sum_nonneg(lengths.drop_last());
    }
}

/// Law: an empty queue-name set still yields a reportable total, and
/// that total is zero. Together with the contract of `enqueued_total`,
/// an empty set of queues reads as `Some(0)`, not as absent data.
pub proof fn lemma_empty_queue_set_total(lengths: Seq<u32>)
    requires
        lengths.len() == 0,
    ensures
        saturated_backlog_total(lengths) == 0,
{
}

/// The per-interval delta of the cumulative processed counter. A delta
/// is produced only when both samples are present; a current sample
/// below the previous one (a counter reset: store restart, key
/// deletion) is deliberately treated as a gap, not wrapped around.
pub open spec fn delta_of(current: Option<u32>, previous: Option<u32>) -> Option<u32> {
    match (current, previous) {
        (Some(c), Some(p)) => if p <= c {
            Some((c - p) as u32)
        } else {
            None
        },
        _ => None,
    }
}

/// Law: a tick that starts with no previous counter sample emits no
/// processed delta, whatever the current reading is — the reading only
/// becomes the baseline for the next tick.
pub proof fn lemma_no_baseline_no_delta(current: Option<u32>)
    ensures
        delta_of(current, None) is None,
{
}

/// Convert the cumulative processed counter into a per-interval delta
/// using the previous sample. No metric value is produced when either
/// sample is absent, or when the counter went backward.
pub fn processed_delta(current: Option<u32>, previous: Option<u32>) -> (r: Option<u32>)
    ensures
        r == delta_of(current, previous),
{
    match (current, previous) {
        (Some(c), Some(p)) => if p <= c {
            Some(c - p)
        } else {
            None
        },
        _ => None,
    }
}

} // verus!
