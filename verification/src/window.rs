//! The sliding window of one coordinate: two queues of timestamps, one for
//! the events that land on the coordinate itself and one for the delayed
//! events of its neighbours.
//!
//! Timestamps are 64-bit and signed, and arithmetic on them saturates at the
//! ends of that range.

use std::collections::VecDeque;
use vstd::prelude::*;

verus! {

/// `a + b`, held to the range of `i64`.
pub open spec fn saturated_sum(a: int, b: int) -> int {
    if a + b > i64::MAX {
        i64::MAX as int
    } else if a + b < i64::MIN {
        i64::MIN as int
    } else {
        a + b
    }
}

/// `a - b`, held to the range of `i64`.
pub open spec fn saturated_difference(a: int, b: int) -> int {
    if a - b > i64::MAX {
        i64::MAX as int
    } else if a - b < i64::MIN {
        i64::MIN as int
    } else {
        a - b
    }
}

/// Adds two timestamps, saturating at the ends of the range.
pub fn add_saturating(a: i64, b: i64) -> (r: i64)
    ensures
        r == saturated_sum(a as int, b as int),
{
    match a.checked_add(b) {
        Some(sum) => sum,
        None => if b > 0 {
            i64::MAX
        } else {
            i64::MIN
        },
    }
}

/// Subtracts one timestamp from another, saturating at the ends of the range.
pub fn sub_saturating(a: i64, b: i64) -> (r: i64)
    ensures
        r == saturated_difference(a as int, b as int),
{
    match a.checked_sub(b) {
        Some(difference) => difference,
        None => if b > 0 {
            i64::MIN
        } else {
            i64::MAX
        },
    }
}

/// The timestamps that are not before `cutoff`.
pub open spec fn at_or_after(cutoff: int) -> spec_fn(i64) -> bool {
    |t: i64| t >= cutoff
}

/// No timestamp of `q` is before an earlier one.
pub open spec fn ascending(q: Seq<i64>) -> bool {
    forall|i: int, j: int| 0 <= i <= j < q.len() ==> q[i] <= q[j]
}

/// A filter that every element passes keeps the sequence.
pub(crate) proof fn lemma_filter_keeps_all(q: Seq<i64>, pred: spec_fn(i64) -> bool)
    requires
        forall|i: int| 0 <= i < q.len() ==> pred(#[trigger] q[i]),
    ensures
        q.filter(pred) == q,
    decreases q.len(),
{
    reveal(Seq::filter);
    if q.len() > 0 {
        lemma_filter_keeps_all(q.drop_last(), pred);
        assert(q.drop_last().push(q.last()) =~= q);
    }
}

/// A filter that no element passes leaves nothing.
pub(crate) proof fn lemma_filter_drops_all(q: Seq<i64>, pred: spec_fn(i64) -> bool)
    requires
        forall|i: int| 0 <= i < q.len() ==> !pred(#[trigger] q[i]),
    ensures
        q.filter(pred) == Seq::<i64>::empty(),
    decreases q.len(),
{
    reveal(Seq::filter);
    if q.len() > 0 {
        lemma_filter_drops_all(q.drop_last(), pred);
    }
}

/// What is left of an ascending queue after its first `k` timestamps, all
/// before `cutoff`, are dropped, when the rest is not before `cutoff`, is what
/// the filter `at_or_after(cutoff)` keeps of it.
proof fn lemma_pruned_is_filtered(q: Seq<i64>, k: int, cutoff: int)
    requires
        0 <= k <= q.len(),
        forall|i: int| 0 <= i < k ==> q[i] < cutoff,
        forall|i: int| k <= i < q.len() ==> q[i] >= cutoff,
    ensures
        q.skip(k) == q.filter(at_or_after(cutoff)),
{
    let pred = at_or_after(cutoff);
    let head = q.take(k);
    let tail = q.skip(k);
    assert(q =~= head + tail);
    Seq::filter_distributes_over_add(head, tail, pred);
    lemma_filter_drops_all(head, pred);
    lemma_filter_keeps_all(tail, pred);
    assert(head.filter(pred) + tail.filter(pred) =~= tail);
}

/// Drops from the front of `queue` the timestamps that are before `cutoff`.
fn drop_before(queue: &mut VecDeque<i64>, cutoff: i64)
    requires
        ascending(old(queue)@),
    ensures
        final(queue)@ == old(queue)@.filter(at_or_after(cutoff as int)),
        ascending(final(queue)@),
{
    let ghost before = queue@;
    let ghost mut k: int = 0;
    loop
        invariant
            before == old(queue)@,
            ascending(before),
            0 <= k <= before.len(),
            queue@ == before.skip(k),
            forall|i: int| 0 <= i < k ==> before[i] < cutoff,
        ensures
            queue@ == before.skip(k),
            0 <= k <= before.len(),
            forall|i: int| 0 <= i < k ==> before[i] < cutoff,
            forall|i: int| k <= i < before.len() ==> before[i] >= cutoff,
        decreases queue@.len(),
    {
        if queue.len() == 0 {
            break;
        }
        let front = queue[0];
        assert(front == before[k]);
        if front >= cutoff {
            assert forall|i: int| k <= i < before.len() implies before[i] >= cutoff by {
                assert(before[k] <= before[i]);
            }
            break;
        }
        let _ = queue.pop_front();
        proof {
            assert(queue@ =~= before.skip(k + 1));
            k = k + 1;
        }
    }
    proof {
        lemma_pruned_is_filtered(before, k, cutoff as int);
        assert forall|i: int, j: int| 0 <= i <= j < queue@.len() implies queue@[i] <= queue@[j] by {
            assert(queue@[i] == before[k + i]);
            assert(queue@[j] == before[k + j]);
        }
    }
}

/// The window of one coordinate: the timestamps of its direct events and the
/// timestamps that its neighbours sent, each in a queue of its own.
///
/// Each queue is kept in ascending order, so that every timestamp in it is at
/// or after the one at its front.
pub struct Window {
    direct: VecDeque<i64>,
    neighbour: VecDeque<i64>,
}

impl Window {
    /// The queue of direct timestamps, front first.
    pub closed spec fn direct(&self) -> Seq<i64> {
        self.direct@
    }

    /// The queue of the neighbours' timestamps, front first.
    pub closed spec fn neighbour(&self) -> Seq<i64> {
        self.neighbour@
    }

    /// Both queues are in ascending order.
    pub open spec fn wf(&self) -> bool {
        ascending(self.direct()) && ascending(self.neighbour())
    }

    /// The queue that a timestamp of the given kind goes to.
    pub open spec fn queue(&self, direct: bool) -> Seq<i64> {
        if direct {
            self.direct()
        } else {
            self.neighbour()
        }
    }

    /// Both queues hold a timestamp, and together they hold at least
    /// `min_count`.
    pub open spec fn is_coincidence(&self, min_count: int) -> bool {
        &&& self.direct().len() > 0
        &&& self.neighbour().len() > 0
        &&& self.direct().len() + self.neighbour().len() >= min_count
    }

    /// An empty window.
    pub fn new() -> (w: Window)
        ensures
            w.direct() == Seq::<i64>::empty(),
            w.neighbour() == Seq::<i64>::empty(),
            w.wf(),
    {
        Window { direct: VecDeque::new(), neighbour: VecDeque::new() }
    }

    /// Appends `t` to the queue of its kind. No timestamp of that queue may
    /// be after `t`.
    pub fn push(&mut self, t: i64, direct: bool)
        requires
            old(self).wf(),
            forall|i: int| 0 <= i < old(self).queue(direct).len() ==> old(self).queue(direct)[i] <= t,
        ensures
            final(self).queue(direct) == old(self).queue(direct).push(t),
            final(self).queue(!direct) == old(self).queue(!direct),
            final(self).wf(),
    {
        if direct {
            self.direct.push_back(t);
        } else {
            self.neighbour.push_back(t);
        }
    }

    /// Drops from both queues the timestamps before `cutoff`.
    pub fn prune(&mut self, cutoff: i64)
        requires
            old(self).wf(),
        ensures
            final(self).direct() == old(self).direct().filter(at_or_after(cutoff as int)),
            final(self).neighbour() == old(self).neighbour().filter(at_or_after(cutoff as int)),
            final(self).wf(),
    {
        drop_before(&mut self.direct, cutoff);
        drop_before(&mut self.neighbour, cutoff);
    }

    /// Whether the window holds a coincidence: a timestamp in each queue, and
    /// at least `min_count` timestamps in all.
    pub fn coincides(&self, min_count: usize) -> (r: bool)
        ensures
            r == self.is_coincidence(min_count as int),
    {
        let a = self.direct.len();
        let b = self.neighbour.len();
        a > 0 && b > 0 && (a >= min_count || b >= min_count - a)
    }
}

} // verus!
