//! Arrivals: the timestamps that reach a coordinate, each with its source, and
//! what can be said of the times that arrive at one coordinate in a range.

use crate::order::sorted;
use crate::order::Ordered;
use crate::window::at_or_after;
use vstd::prelude::*;
use vstd::relations::sorted_by;
use vstd::relations::total_ordering;

verus! {

/// A timestamp that arrives at a coordinate: `(x, y, polarity, time, source)`.
/// Source 0 is the coordinate's own event, any other source a neighbour's.
pub type Arrival = (i64, i64, i64, i64, u8);

/// A coordinate: `(x, y, polarity)`.
pub type Coord = (i64, i64, i64);

/// A coincidence: `(time, x, y, polarity)`.
pub type Firing = (i64, i64, i64, i64);

/// The source tag of a coordinate's own events.
pub const DIRECT: u8 = 0;

/// The source tag of the events that a neighbour sent.
pub const NEIGHBOUR: u8 = 1;

/// The coordinate at which `e` arrives.
pub open spec fn coord_of(e: Arrival) -> Coord {
    (e.0, e.1, e.2)
}

/// Whether `e` is an event of its coordinate itself.
pub open spec fn is_direct(e: Arrival) -> bool {
    e.4 == 0
}

/// The coincidence that is reported when `e` is taken in.
pub open spec fn firing_of(e: Arrival) -> Firing {
    (e.3, e.0, e.1, e.2)
}

/// The order of arrivals: by coordinate, then by time, then by source, the
/// order of the tuples.
pub open spec fn arrival_le(a: Arrival, b: Arrival) -> bool {
    a.0 < b.0 || (a.0 == b.0 && (a.1 < b.1 || (a.1 == b.1 && (a.2 < b.2 || (a.2 == b.2 && (a.3
        < b.3 || (a.3 == b.3 && a.4 <= b.4)))))))
}

/// `arrival_le` as a relation.
pub open spec fn arrival_order() -> spec_fn(Arrival, Arrival) -> bool {
    |a: Arrival, b: Arrival| arrival_le(a, b)
}

/// `e` arrives at `at`, from the given kind of source, at a time from `lo` to
/// `hi`.
pub open spec fn arrives(e: Arrival, at: Coord, direct: bool, lo: int, hi: int) -> bool {
    coord_of(e) == at && is_direct(e) == direct && lo <= e.3 <= hi
}

/// The times of the arrivals of `s` at `at`, from the given kind of source,
/// that lie from `lo` to `hi`, in the order of `s`.
pub open spec fn times_within(s: Seq<Arrival>, at: Coord, direct: bool, lo: int, hi: int) -> Seq<
    i64,
>
    decreases s.len(),
{
    if s.len() == 0 {
        Seq::empty()
    } else {
        let rest = times_within(s.drop_last(), at, direct, lo, hi);
        if arrives(s.last(), at, direct, lo, hi) {
            rest.push(s.last().3)
        } else {
            rest
        }
    }
}

/// The order of arrivals is total.
pub(crate) proof fn lemma_arrival_order_total()
    ensures
        total_ordering(arrival_order()),
{
    let r = arrival_order();
    assert forall|x: Arrival, y: Arrival| #[trigger] r(x, y) && #[trigger] r(y, x) implies x
        == y by {
        assert(x.0 == y.0 && x.1 == y.1 && x.2 == y.2 && x.3 == y.3 && x.4 == y.4);
    }
    assert(vstd::relations::reflexive(r));
    assert(vstd::relations::antisymmetric(r));
    assert(vstd::relations::transitive(r));
    assert(vstd::relations::strongly_connected(r));
}

/// Taking in one more arrival appends its time where it arrives, and changes
/// nothing elsewhere.
pub(crate) proof fn lemma_times_within_push(
    s: Seq<Arrival>,
    e: Arrival,
    at: Coord,
    direct: bool,
    lo: int,
    hi: int,
)
    ensures
        times_within(s.push(e), at, direct, lo, hi) == if arrives(e, at, direct, lo, hi) {
            times_within(s, at, direct, lo, hi).push(e.3)
        } else {
            times_within(s, at, direct, lo, hi)
        },
{
    assert(s.push(e).drop_last() =~= s);
}

/// Every time that arrives is the time of an arrival of `s` at that place and
/// in that range.
pub(crate) proof fn lemma_times_within_members(
    s: Seq<Arrival>,
    at: Coord,
    direct: bool,
    lo: int,
    hi: int,
    k: int,
) -> (j: int)
    requires
        0 <= k < times_within(s, at, direct, lo, hi).len(),
    ensures
        0 <= j < s.len(),
        arrives(s[j], at, direct, lo, hi),
        s[j].3 == times_within(s, at, direct, lo, hi)[k],
    decreases s.len(),
{
    let rest = times_within(s.drop_last(), at, direct, lo, hi);
    if arrives(s.last(), at, direct, lo, hi) && k == rest.len() {
        s.len() - 1
    } else {
        lemma_times_within_members(s.drop_last(), at, direct, lo, hi, k)
    }
}

/// Raising the lower end of the range filters the times.
pub(crate) proof fn lemma_times_within_raise(
    s: Seq<Arrival>,
    at: Coord,
    direct: bool,
    lo: int,
    higher: int,
    hi: int,
)
    requires
        lo <= higher,
    ensures
        times_within(s, at, direct, higher, hi) == times_within(s, at, direct, lo, hi).filter(
            at_or_after(higher),
        ),
    decreases s.len(),
{
    let pred = at_or_after(higher);
    if s.len() == 0 {
        crate::window::lemma_filter_drops_all(Seq::<i64>::empty(), pred);
    } else {
        lemma_times_within_raise(s.drop_last(), at, direct, lo, higher, hi);
        let rest = times_within(s.drop_last(), at, direct, lo, hi);
        if arrives(s.last(), at, direct, lo, hi) {
            rest.lemma_filter_push(s.last().3, pred);
        }
    }
}

/// In sorted arrivals, a change of coordinate from one arrival to the next
/// means that the new coordinate has not been seen before.
pub(crate) proof fn lemma_new_coordinate(s: Seq<Arrival>, i: int)
    requires
        sorted_by(s, arrival_order()),
        0 < i < s.len(),
        coord_of(s[i - 1]) != coord_of(s[i]),
    ensures
        forall|j: int| 0 <= j < i ==> coord_of(#[trigger] s.take(i)[j]) != coord_of(s[i]),
{
    let r = arrival_order();
    assert(r(s[i - 1], s[i]));
    assert forall|j: int| 0 <= j < i implies coord_of(#[trigger] s.take(i)[j]) != coord_of(
        s[i],
    ) by {
        if j < i - 1 {
            assert(r(s[j], s[i - 1]));
        }
    }
}

/// In sorted arrivals, what arrived earlier at the coordinate of `s[i]` is
/// not later than `s[i]`.
pub(crate) proof fn lemma_earlier_times(s: Seq<Arrival>, i: int, direct: bool, lo: int, k: int)
    requires
        sorted_by(s, arrival_order()),
        0 <= i < s.len(),
        0 <= k < times_within(s.take(i), coord_of(s[i]), direct, lo, i64::MAX as int).len(),
    ensures
        times_within(s.take(i), coord_of(s[i]), direct, lo, i64::MAX as int)[k] <= s[i].3,
{
    let j = lemma_times_within_members(s.take(i), coord_of(s[i]), direct, lo, i64::MAX as int, k);
    assert(arrival_order()(s[j], s[i]));
}

/// Where no arrival of `s` arrives, no time is listed.
pub(crate) proof fn lemma_times_within_nothing(s: Seq<Arrival>, at: Coord, direct: bool, lo: int, hi: int)
    requires
        forall|j: int| 0 <= j < s.len() ==> !arrives(#[trigger] s[j], at, direct, lo, hi),
    ensures
        times_within(s, at, direct, lo, hi) == Seq::<i64>::empty(),
    decreases s.len(),
{
    if s.len() > 0 {
        lemma_times_within_nothing(s.drop_last(), at, direct, lo, hi);
    }
}

/// Two ranges that admit the same arrivals of `s` list the same times.
pub(crate) proof fn lemma_times_within_same(
    s: Seq<Arrival>,
    at: Coord,
    direct: bool,
    lo: int,
    hi: int,
    lo2: int,
    hi2: int,
)
    requires
        forall|j: int|
            0 <= j < s.len() ==> arrives(#[trigger] s[j], at, direct, lo, hi) == arrives(
                s[j],
                at,
                direct,
                lo2,
                hi2,
            ),
    ensures
        times_within(s, at, direct, lo, hi) == times_within(s, at, direct, lo2, hi2),
    decreases s.len(),
{
    if s.len() > 0 {
        lemma_times_within_same(s.drop_last(), at, direct, lo, hi, lo2, hi2);
    }
}

/// The times that arrive in one sequence followed by another are those of
/// the first followed by those of the second.
pub(crate) proof fn lemma_times_within_concat(
    a: Seq<Arrival>,
    b: Seq<Arrival>,
    at: Coord,
    direct: bool,
    lo: int,
    hi: int,
)
    ensures
        times_within(a + b, at, direct, lo, hi) == times_within(a, at, direct, lo, hi)
            + times_within(b, at, direct, lo, hi),
    decreases b.len(),
{
    if b.len() == 0 {
        assert(a + b =~= a);
        assert(times_within(a, at, direct, lo, hi) + Seq::<i64>::empty() =~= times_within(
            a,
            at,
            direct,
            lo,
            hi,
        ));
    } else {
        lemma_times_within_concat(a, b.drop_last(), at, direct, lo, hi);
        assert((a + b).drop_last() =~= a + b.drop_last());
        let ta = times_within(a, at, direct, lo, hi);
        let tb = times_within(b.drop_last(), at, direct, lo, hi);
        assert((ta + tb).push(b.last().3) =~= ta + tb.push(b.last().3));
    }
}

/// Taking one arrival out takes its time out where it arrives.
pub(crate) proof fn lemma_times_within_remove(
    s: Seq<Arrival>,
    k: int,
    at: Coord,
    direct: bool,
    lo: int,
    hi: int,
)
    requires
        0 <= k < s.len(),
    ensures
        times_within(s, at, direct, lo, hi).len() == times_within(
            s.remove(k),
            at,
            direct,
            lo,
            hi,
        ).len() + if arrives(s[k], at, direct, lo, hi) {
            1nat
        } else {
            0nat
        },
{
    let head = s.take(k);
    let one = seq![s[k]];
    let tail = s.skip(k + 1);
    assert(s =~= (head + one) + tail);
    assert(s.remove(k) =~= head + tail);
    lemma_times_within_concat(head + one, tail, at, direct, lo, hi);
    lemma_times_within_concat(head, one, at, direct, lo, hi);
    lemma_times_within_concat(head, tail, at, direct, lo, hi);
    assert(one =~= Seq::<Arrival>::empty().push(s[k]));
    lemma_times_within_push(Seq::<Arrival>::empty(), s[k], at, direct, lo, hi);
}

/// As many times arrive in a sequence as in any rearrangement of it.
pub(crate) proof fn lemma_times_within_permuted(
    s1: Seq<Arrival>,
    s2: Seq<Arrival>,
    at: Coord,
    direct: bool,
    lo: int,
    hi: int,
)
    requires
        s1.to_multiset() == s2.to_multiset(),
    ensures
        times_within(s1, at, direct, lo, hi).len() == times_within(s2, at, direct, lo, hi).len(),
    decreases s1.len(),
{
    broadcast use vstd::multiset::group_multiset_axioms;

    s1.to_multiset_ensures();
    s2.to_multiset_ensures();
    if s1.len() == 0 {
        assert(s2.len() == 0);
    } else {
        let e = s1.last();
        let rest = s1.drop_last();
        assert(rest.push(e) =~= s1);
        rest.to_multiset_ensures();
        assert(s1.to_multiset() =~= rest.to_multiset().insert(e));
        assert(s2.to_multiset().count(e) > 0);
        assert(s2.contains(e));
        let k = choose|k: int| 0 <= k < s2.len() && s2[k] == e;
        assert(s2.remove(k).to_multiset() =~= s2.to_multiset().remove(e));
        assert(rest.to_multiset() =~= s2.remove(k).to_multiset());
        lemma_times_within_permuted(rest, s2.remove(k), at, direct, lo, hi);
        lemma_times_within_remove(s2, k, at, direct, lo, hi);
    }
}

/// The times that arrive among the first `m` arrivals are the first of the
/// times that arrive in all.
pub(crate) proof fn lemma_times_within_prefix(
    s: Seq<Arrival>,
    m: int,
    at: Coord,
    direct: bool,
    lo: int,
    hi: int,
)
    requires
        0 <= m <= s.len(),
    ensures
        times_within(s, at, direct, lo, hi) == times_within(s.take(m), at, direct, lo, hi)
            + times_within(s.skip(m), at, direct, lo, hi),
{
    assert(s =~= s.take(m) + s.skip(m));
    lemma_times_within_concat(s.take(m), s.skip(m), at, direct, lo, hi);
}

impl Ordered for Arrival {
    open spec fn precedes(a: Self, b: Self) -> bool {
        arrival_le(a, b)
    }

    proof fn lemma_order() {
    }

    fn comes_before(a: &Self, b: &Self) -> (r: bool) {
        a.0 < b.0 || (a.0 == b.0 && (a.1 < b.1 || (a.1 == b.1 && (a.2 < b.2 || (a.2 == b.2 && (a.3
            < b.3 || (a.3 == b.3 && a.4 <= b.4)))))))
    }
}

/// The arrivals in their order: by coordinate, then by time, then by source.
pub fn sort_arrivals(v: &Vec<Arrival>) -> (out: Vec<Arrival>)
    ensures
        out@.to_multiset() == v@.to_multiset(),
        sorted_by(out@, arrival_order()),
{
    sorted(v)
}

} // verus!
