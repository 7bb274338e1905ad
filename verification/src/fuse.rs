//! The coincidence detector: a sweep over the timestamps that arrive at each
//! coordinate, in order of time, with a sliding window per coordinate.
//!
//! The sweep takes the arrivals of one coordinate in ascending order of time.
//! For each it drops from the window what is older than the arrival's time
//! minus the window width, and reports a coincidence when the window then
//! holds a timestamp of each source and enough timestamps in all.

use crate::arrivals::arrival_order;
use crate::arrivals::arrives;
use crate::arrivals::coord_of;
use crate::arrivals::firing_of;
use crate::arrivals::lemma_arrival_order_total;
use crate::arrivals::lemma_earlier_times;
use crate::arrivals::lemma_new_coordinate;
use crate::arrivals::lemma_times_within_nothing;
use crate::arrivals::lemma_times_within_permuted;
use crate::arrivals::lemma_times_within_prefix;
use crate::arrivals::lemma_times_within_push;
use crate::arrivals::lemma_times_within_raise;
use crate::arrivals::lemma_times_within_same;
use crate::arrivals::sort_arrivals;
use crate::arrivals::times_within;
use crate::arrivals::Arrival;
use crate::arrivals::Coord;
use crate::arrivals::Firing;
use crate::arrivals::DIRECT;
use crate::arrivals::NEIGHBOUR;
use crate::window::saturated_difference;
use crate::window::sub_saturating;
use crate::window::Window;
use vstd::prelude::*;
use vstd::relations::sorted_by;
use vstd::seq_lib::lemma_sorted_unique;
use vstd::string::StringExecFns;

verus! {

/// Why a coincidence detection was refused.
#[derive(Clone, Copy, Debug, PartialEq, Eq, Structural)]
pub enum FuseError {
    /// The window width is zero or negative.
    NonPositiveWindow,
}

impl FuseError {
    /// What went wrong, in words.
    pub open spec fn text(self) -> Seq<char> {
        match self {
            FuseError::NonPositiveWindow => "window_ns must be > 0"@,
        }
    }

    /// What went wrong, in words.
    pub fn message(&self) -> (r: String)
        ensures
            r@ == self.text(),
    {
        match self {
            FuseError::NonPositiveWindow => String::from_str("window_ns must be > 0"),
        }
    }
}

/// What the window of the coordinate of `s[j]` holds from the given kind of
/// source once `s[j]` is taken in: the times among `s[0..=j]` at that
/// coordinate that are not older than the time of `s[j]` minus `window`.
pub open spec fn window_after(s: Seq<Arrival>, j: int, direct: bool, window: int) -> Seq<i64> {
    times_within(
        s.take(j + 1),
        coord_of(s[j]),
        direct,
        saturated_difference(s[j].3 as int, window),
        i64::MAX as int,
    )
}

/// Taking in `s[j]` gives a coincidence: the window then holds a timestamp of
/// each kind, and at least `min_count` timestamps in all.
pub open spec fn fires_at(s: Seq<Arrival>, j: int, window: int, min_count: int) -> bool {
    let a = window_after(s, j, true, window).len();
    let b = window_after(s, j, false, window).len();
    a > 0 && b > 0 && a + b >= min_count
}

/// The coincidences that the first `n` arrivals of `s` give, one for each
/// arrival that fires, in the order of `s`.
pub open spec fn firings(s: Seq<Arrival>, n: int, window: int, min_count: int) -> Seq<Firing>
    decreases n,
{
    if n <= 0 {
        Seq::empty()
    } else {
        let before = firings(s, n - 1, window, min_count);
        if fires_at(s, n - 1, window, min_count) {
            before.push(firing_of(s[n - 1]))
        } else {
            before
        }
    }
}

/// The coordinate of a coincidence.
pub open spec fn place_of(f: Firing) -> Coord {
    (f.1, f.2, f.3)
}

/// The time of `f` is the time of an arrival at the coordinate of `f`.
pub open spec fn is_reference(arrivals: Seq<Arrival>, f: Firing) -> bool {
    exists|j: int| 0 <= j < arrivals.len() && firing_of(#[trigger] arrivals[j]) == f
}

/// At the coordinate of `f`, from the time of `f` minus `window` to the time
/// of `f`, a timestamp of each kind arrives, and at least `min_count`
/// timestamps in all.
pub open spec fn coincides_at(arrivals: Seq<Arrival>, f: Firing, window: int, min_count: int) -> bool {
    let lo = saturated_difference(f.0 as int, window);
    let a = times_within(arrivals, place_of(f), true, lo, f.0 as int).len();
    let b = times_within(arrivals, place_of(f), false, lo, f.0 as int).len();
    a > 0 && b > 0 && a + b >= min_count
}

/// The arrivals give the coincidence `f`: a timestamp arrives at the
/// coordinate of `f` at the time of `f`, and the window that ends there holds
/// a coincidence.
pub open spec fn emits(arrivals: Seq<Arrival>, f: Firing, window: int, min_count: int) -> bool {
    is_reference(arrivals, f) && coincides_at(arrivals, f, window, min_count)
}

/// Some arrival among the first `n` fires and gives `f`.
pub open spec fn fires_among(s: Seq<Arrival>, n: int, f: Firing, window: int, min_count: int) -> bool {
    exists|j: int| 0 <= j < n && fires_at(s, j, window, min_count) && firing_of(#[trigger] s[j]) == f
}

/// The coincidences listed are those of the arrivals that fire.
pub(crate) proof fn lemma_firings_contains(s: Seq<Arrival>, n: int, window: int, min_count: int, f: Firing)
    requires
        0 <= n <= s.len(),
    ensures
        firings(s, n, window, min_count).contains(f) <==> fires_among(s, n, f, window, min_count),
    decreases n,
{
    if n > 0 {
        lemma_firings_contains(s, n - 1, window, min_count, f);
        let before = firings(s, n - 1, window, min_count);
        let all = firings(s, n, window, min_count);
        if fires_at(s, n - 1, window, min_count) {
            assert(all == before.push(firing_of(s[n - 1])));
            if all.contains(f) {
                let k = choose|k: int| 0 <= k < all.len() && all[k] == f;
                if k < before.len() {
                    assert(before[k] == f);
                    assert(before.contains(f));
                } else {
                    assert(firing_of(s[n - 1]) == f);
                }
                assert(fires_among(s, n, f, window, min_count));
            }
            if fires_among(s, n, f, window, min_count) {
                let j = choose|j: int|
                    0 <= j < n && fires_at(s, j, window, min_count) && firing_of(#[trigger] s[j])
                        == f;
                if j < n - 1 {
                    assert(fires_among(s, n - 1, f, window, min_count));
                    let k = choose|k: int| 0 <= k < before.len() && before[k] == f;
                    assert(all[k] == f);
                } else {
                    assert(all[before.len() as int] == f);
                }
            }
        } else {
            if fires_among(s, n, f, window, min_count) {
                let j = choose|j: int|
                    0 <= j < n && fires_at(s, j, window, min_count) && firing_of(#[trigger] s[j])
                        == f;
                assert(j < n - 1);
                assert(fires_among(s, n - 1, f, window, min_count));
            }
        }
    } else {
        assert(firings(s, n, window, min_count) =~= Seq::<Firing>::empty());
    }
}

/// In sorted arrivals, the window after `s[j]` holds no more than arrives at
/// that coordinate from the time of `s[j]` minus `window` to the time of
/// `s[j]`.
pub(crate) proof fn lemma_window_is_partial(s: Seq<Arrival>, j: int, direct: bool, window: int)
    requires
        sorted_by(s, arrival_order()),
        0 <= j < s.len(),
    ensures
        window_after(s, j, direct, window).len() <= times_within(
            s,
            coord_of(s[j]),
            direct,
            saturated_difference(s[j].3 as int, window),
            s[j].3 as int,
        ).len(),
{
    let at = coord_of(s[j]);
    let lo = saturated_difference(s[j].3 as int, window);
    let t = s[j].3 as int;
    let head = s.take(j + 1);
    assert forall|i: int| 0 <= i < head.len() implies arrives(
        #[trigger] head[i],
        at,
        direct,
        lo,
        i64::MAX as int,
    ) == arrives(head[i], at, direct, lo, t) by {
        if i < j {
            assert(arrival_order()(s[i], s[j]));
        }
    }
    lemma_times_within_same(head, at, direct, lo, i64::MAX as int, lo, t);
    lemma_times_within_prefix(s, j + 1, at, direct, lo, t);
}

/// In sorted arrivals, where no later arrival has the coordinate and time of
/// `s[j]`, the window after `s[j]` holds all that arrives at that coordinate
/// from the time of `s[j]` minus `window` to the time of `s[j]`.
pub(crate) proof fn lemma_window_is_full(s: Seq<Arrival>, j: int, direct: bool, window: int)
    requires
        sorted_by(s, arrival_order()),
        0 <= j < s.len(),
        forall|m: int| j < m < s.len() ==> firing_of(#[trigger] s[m]) != firing_of(s[j]),
    ensures
        window_after(s, j, direct, window) == times_within(
            s,
            coord_of(s[j]),
            direct,
            saturated_difference(s[j].3 as int, window),
            s[j].3 as int,
        ),
{
    let at = coord_of(s[j]);
    let lo = saturated_difference(s[j].3 as int, window);
    let t = s[j].3 as int;
    let head = s.take(j + 1);
    let tail = s.skip(j + 1);
    assert forall|i: int| 0 <= i < head.len() implies arrives(
        #[trigger] head[i],
        at,
        direct,
        lo,
        i64::MAX as int,
    ) == arrives(head[i], at, direct, lo, t) by {
        if i < j {
            assert(arrival_order()(s[i], s[j]));
        }
    }
    lemma_times_within_same(head, at, direct, lo, i64::MAX as int, lo, t);
    assert forall|i: int| 0 <= i < tail.len() implies !arrives(
        #[trigger] tail[i],
        at,
        direct,
        lo,
        t,
    ) by {
        let m = j + 1 + i;
        assert(tail[i] == s[m]);
        assert(arrival_order()(s[j], s[m]));
        assert(firing_of(s[m]) != firing_of(s[j]));
    }
    lemma_times_within_nothing(tail, at, direct, lo, t);
    lemma_times_within_prefix(s, j + 1, at, direct, lo, t);
    assert(times_within(head, at, direct, lo, t) + Seq::<i64>::empty() =~= times_within(
        head,
        at,
        direct,
        lo,
        t,
    ));
}

/// The last arrival, from `i` on, that gives `f`.
proof fn lemma_last_from(s: Seq<Arrival>, f: Firing, i: int) -> (j: int)
    requires
        0 <= i < s.len(),
        firing_of(s[i]) == f,
    ensures
        i <= j < s.len(),
        firing_of(s[j]) == f,
        forall|m: int| j < m < s.len() ==> firing_of(#[trigger] s[m]) != f,
    decreases s.len() - i,
{
    if exists|m: int| i < m < s.len() && firing_of(#[trigger] s[m]) == f {
        let m = choose|m: int| i < m < s.len() && firing_of(#[trigger] s[m]) == f;
        lemma_last_from(s, f, m)
    } else {
        i
    }
}

/// In sorted arrivals, a coincidence is given by an arrival that fires
/// exactly when the arrivals give it.
pub proof fn lemma_fires_iff_emits(s: Seq<Arrival>, f: Firing, window: int, min_count: int)
    requires
        sorted_by(s, arrival_order()),
    ensures
        fires_among(s, s.len() as int, f, window, min_count) <==> emits(s, f, window, min_count),
{
    if fires_among(s, s.len() as int, f, window, min_count) {
        let j = choose|j: int|
            0 <= j < s.len() && fires_at(s, j, window, min_count) && firing_of(#[trigger] s[j])
                == f;
        lemma_window_is_partial(s, j, true, window);
        lemma_window_is_partial(s, j, false, window);
        assert(is_reference(s, f));
        assert(coincides_at(s, f, window, min_count));
    }
    if emits(s, f, window, min_count) {
        let i = choose|i: int| 0 <= i < s.len() && firing_of(#[trigger] s[i]) == f;
        let j = lemma_last_from(s, f, i);
        lemma_window_is_full(s, j, true, window);
        lemma_window_is_full(s, j, false, window);
        assert(fires_at(s, j, window, min_count));
        assert(fires_among(s, s.len() as int, f, window, min_count));
    }
}

/// Arrivals give the coincidences that any rearrangement of them gives.
pub proof fn lemma_emits_permuted(
    s1: Seq<Arrival>,
    s2: Seq<Arrival>,
    f: Firing,
    window: int,
    min_count: int,
)
    requires
        s1.to_multiset() == s2.to_multiset(),
    ensures
        emits(s1, f, window, min_count) == emits(s2, f, window, min_count),
{
    let lo = saturated_difference(f.0 as int, window);
    lemma_times_within_permuted(s1, s2, place_of(f), true, lo, f.0 as int);
    lemma_times_within_permuted(s1, s2, place_of(f), false, lo, f.0 as int);
    if is_reference(s1, f) {
        lemma_reference_permuted(s1, s2, f);
    }
    if is_reference(s2, f) {
        lemma_reference_permuted(s2, s1, f);
    }
}

/// A time that is a reference in some arrivals is one in any rearrangement
/// of them.
proof fn lemma_reference_permuted(s1: Seq<Arrival>, s2: Seq<Arrival>, f: Firing)
    requires
        s1.to_multiset() == s2.to_multiset(),
        is_reference(s1, f),
    ensures
        is_reference(s2, f),
{
    s1.to_multiset_ensures();
    s2.to_multiset_ensures();
    let j = choose|j: int| 0 <= j < s1.len() && firing_of(#[trigger] s1[j]) == f;
    assert(s1.contains(s1[j]));
    assert(s2.to_multiset().count(s1[j]) > 0);
    assert(s2.contains(s1[j]));
    let k = choose|k: int| 0 <= k < s2.len() && s2[k] == s1[j];
    assert(firing_of(s2[k]) == f);
}

/// Equal coincidences stand next to each other.
pub open spec fn clustered(fired: Seq<Firing>) -> bool {
    forall|a: int, m: int, b: int|
        0 <= a <= m <= b < fired.len() && #[trigger] fired[a] == #[trigger] fired[b]
            ==> #[trigger] fired[m] == fired[a]
}

/// The order of coincidences by coordinate, then by time.
pub open spec fn coord_major_le(f: Firing, g: Firing) -> bool {
    f.1 < g.1 || (f.1 == g.1 && (f.2 < g.2 || (f.2 == g.2 && (f.3 < g.3 || (f.3 == g.3 && f.0
        <= g.0)))))
}

/// The coincidences of sorted arrivals come in order of coordinate and time.
pub(crate) proof fn lemma_firings_ordered(s: Seq<Arrival>, n: int, window: int, min_count: int)
    requires
        sorted_by(s, arrival_order()),
        0 <= n <= s.len(),
    ensures
        forall|a: int, b: int|
            0 <= a <= b < firings(s, n, window, min_count).len() ==> coord_major_le(
                #[trigger] firings(s, n, window, min_count)[a],
                #[trigger] firings(s, n, window, min_count)[b],
            ),
    decreases n,
{
    if n > 0 {
        lemma_firings_ordered(s, n - 1, window, min_count);
        let before = firings(s, n - 1, window, min_count);
        let all = firings(s, n, window, min_count);
        if fires_at(s, n - 1, window, min_count) {
            assert forall|a: int, b: int| 0 <= a <= b < all.len() implies coord_major_le(
                #[trigger] all[a],
                #[trigger] all[b],
            ) by {
                if b == before.len() && a < b {
                    assert(before.contains(before[a]));
                    lemma_firings_contains(s, n - 1, window, min_count, before[a]);
                    let j = choose|j: int|
                        0 <= j < n - 1 && fires_at(s, j, window, min_count) && firing_of(
                            #[trigger] s[j],
                        ) == before[a];
                    assert(arrival_order()(s[j], s[n - 1]));
                }
            }
        }
    }
}

/// Coincidences in order of coordinate and time are clustered.
pub(crate) proof fn lemma_ordered_is_clustered(fired: Seq<Firing>)
    requires
        forall|a: int, b: int|
            0 <= a <= b < fired.len() ==> coord_major_le(#[trigger] fired[a], #[trigger] fired[b]),
    ensures
        clustered(fired),
{
    assert forall|a: int, m: int, b: int|
        0 <= a <= m <= b < fired.len() && #[trigger] fired[a] == #[trigger] fired[b]
            implies #[trigger] fired[m] == fired[a] by {
        assert(coord_major_le(fired[a], fired[m]));
        assert(coord_major_le(fired[m], fired[b]));
    }
}

/// A sequence with one more element holds what it held, and that element.
pub(crate) proof fn lemma_push_contains(s: Seq<Firing>, x: Firing, g: Firing)
    ensures
        s.push(x).contains(g) <==> s.contains(g) || x == g,
{
    if s.push(x).contains(g) {
        let k = choose|k: int| 0 <= k < s.push(x).len() && s.push(x)[k] == g;
        if k < s.len() {
            assert(s[k] == g);
        }
    }
    if s.contains(g) {
        let k = choose|k: int| 0 <= k < s.len() && s[k] == g;
        assert(s.push(x)[k] == g);
    }
    if x == g {
        assert(s.push(x)[s.len() as int] == g);
    }
}

/// `fired` without the coincidences that repeat the one before them.
pub open spec fn without_repeats(fired: Seq<Firing>) -> Seq<Firing>
    decreases fired.len(),
{
    if fired.len() == 0 {
        fired
    } else {
        let before = without_repeats(fired.drop_last());
        if fired.len() >= 2 && fired[fired.len() - 2] == fired.last() {
            before
        } else {
            before.push(fired.last())
        }
    }
}

/// Where equal coincidences stand next to each other, dropping the repeats
/// leaves each coincidence once.
pub(crate) proof fn lemma_without_repeats(fired: Seq<Firing>)
    requires
        clustered(fired),
    ensures
        without_repeats(fired).no_duplicates(),
        forall|f: Firing| without_repeats(fired).contains(f) <==> fired.contains(f),
    decreases fired.len(),
{
    if fired.len() > 0 {
        let rest = fired.drop_last();
        let last = fired.last();
        let n = fired.len() as int;
        assert forall|a: int, m: int, b: int|
            0 <= a <= m <= b < rest.len() && #[trigger] rest[a] == #[trigger] rest[b]
                implies #[trigger] rest[m] == rest[a] by {
            assert(fired[a] == fired[b]);
            assert(fired[m] == fired[a]);
        }
        lemma_without_repeats(rest);
        let before = without_repeats(rest);
        assert(rest.push(last) =~= fired);
        assert forall|f: Firing| fired.contains(f) <==> rest.contains(f) || last == f by {
            lemma_push_contains(rest, last, f);
        }
        if n >= 2 && fired[n - 2] == last {
            assert(rest[n - 2] == last);
            assert(rest.contains(last));
        } else {
            if rest.contains(last) {
                let a = choose|a: int| 0 <= a < rest.len() && rest[a] == last;
                assert(fired[a] == fired[n - 1]);
                assert(fired[n - 2] == fired[a]);
            }
            assert(!before.contains(last));
            assert forall|f: Firing| before.push(last).contains(f) <==> before.contains(f) || last
                == f by {
                lemma_push_contains(before, last, f);
            }
            assert forall|i: int, j: int|
                0 <= i < before.push(last).len() && 0 <= j < before.push(last).len() && i
                    != j implies before.push(last)[i] != before.push(last)[j] by {
                if i == before.len() {
                    assert(before[j] == before.push(last)[j]);
                    assert(before.contains(before[j]));
                } else if j == before.len() {
                    assert(before[i] == before.push(last)[i]);
                    assert(before.contains(before[i]));
                } else {
                    assert(before[i] != before[j]);
                }
            }
        }
    }
}

/// Drops the coincidences that repeat the one before them.
pub fn distinct(fired: &Vec<Firing>) -> (out: Vec<Firing>)
    ensures
        out@ == without_repeats(fired@),
{
    let mut out: Vec<Firing> = Vec::new();
    let mut i: usize = 0;
    while i < fired.len()
        invariant
            0 <= i <= fired.len(),
            out@ == without_repeats(fired@.take(i as int)),
        decreases fired.len() - i,
    {
        let f = fired[i];
        let repeated = i > 0 && {
            let last = fired[i - 1];
            last.0 == f.0 && last.1 == f.1 && last.2 == f.2 && last.3 == f.3
        };
        proof {
            let seen = fired@.take(i + 1);
            assert(seen.drop_last() =~= fired@.take(i as int));
            assert(seen.last() == f);
            if i > 0 {
                assert(seen[seen.len() - 2] == fired@[i - 1]);
            }
        }
        if !repeated {
            out.push(f);
        }
        i += 1;
    }
    assert(fired@.take(fired@.len() as int) =~= fired@);
    out
}

/// Sweeps over sorted arrivals with a window of width `window` per
/// coordinate, and lists the coincidences in the order in which they occur.
///
/// An arrival that fires is listed once for itself: where several arrivals
/// at one coordinate and one time fire, that coincidence is listed for each.
pub fn sweep(arrivals: &Vec<Arrival>, window: i64, min_count: usize) -> (out: Vec<Firing>)
    requires
        sorted_by(arrivals@, arrival_order()),
        window > 0,
    ensures
        out@ == firings(arrivals@, arrivals@.len() as int, window as int, min_count as int),
{
    let n = arrivals.len();
    let ghost s = arrivals@;
    let ghost w = window as int;
    let mut out: Vec<Firing> = Vec::new();
    let mut win = Window::new();
    let mut i: usize = 0;
    while i < n
        invariant
            n == arrivals.len(),
            s == arrivals@,
            w == window as int,
            window > 0,
            sorted_by(s, arrival_order()),
            0 <= i <= n,
            win.wf(),
            i > 0 ==> win.direct() == window_after(s, i - 1, true, w),
            i > 0 ==> win.neighbour() == window_after(s, i - 1, false, w),
            out@ == firings(s, i as int, w, min_count as int),
        decreases n - i,
    {
        let e = arrivals[i];
        let (x, y, p, t, source) = e;
        let direct = source == 0;
        let cutoff = sub_saturating(t, window);
        let fresh = i == 0 || {
            let prev = arrivals[i - 1];
            prev.0 != x || prev.1 != y || prev.2 != p
        };
        let ghost at = coord_of(e);
        let ghost lo = if fresh {
            cutoff as int
        } else {
            saturated_difference(s[i - 1].3 as int, w)
        };
        if fresh {
            win = Window::new();
        }
        proof {
            // The window holds what arrived before at this coordinate.
            if fresh {
                if i > 0 {
                    lemma_new_coordinate(s, i as int);
                }
                lemma_times_within_nothing(s.take(i as int), at, true, lo, i64::MAX as int);
                lemma_times_within_nothing(s.take(i as int), at, false, lo, i64::MAX as int);
            } else {
                assert(s.take(i - 1 + 1) == s.take(i as int));
                assert(arrival_order()(s[i - 1], s[i as int]));
            }
            assert(win.queue(true) == times_within(s.take(i as int), at, true, lo, i64::MAX as int));
            assert(win.queue(false) == times_within(
                s.take(i as int),
                at,
                false,
                lo,
                i64::MAX as int,
            ));
            assert forall|k: int| 0 <= k < win.queue(direct).len() implies win.queue(direct)[k]
                <= t by {
                lemma_earlier_times(s, i as int, direct, lo, k);
            }
        }
        win.push(t, direct);
        win.prune(cutoff);
        proof {
            assert(s.take(i + 1) =~= s.take(i as int).push(e));
            lemma_times_within_push(s.take(i as int), e, at, true, lo, i64::MAX as int);
            lemma_times_within_push(s.take(i as int), e, at, false, lo, i64::MAX as int);
            lemma_times_within_raise(s.take(i + 1), at, true, lo, cutoff as int, i64::MAX as int);
            lemma_times_within_raise(s.take(i + 1), at, false, lo, cutoff as int, i64::MAX as int);
            assert(win.direct() == window_after(s, i as int, true, w));
            assert(win.neighbour() == window_after(s, i as int, false, w));
        }
        if win.coincides(min_count) {
            out.push((t, x, y, p));
        }
        i += 1;
    }
    out
}

/// The times `times` as arrivals from `source` at the coordinate `(0, 0, 0)`.
pub open spec fn tagged(times: Seq<i64>, source: u8) -> Seq<Arrival> {
    Seq::new(times.len(), |i: int| (0i64, 0i64, 0i64, times[i], source))
}

/// The two streams as one, in ascending order of time, the timestamps of the
/// first stream before those of the second where their times are equal.
pub open spec fn merged(t_a: Seq<i64>, t_b: Seq<i64>) -> Seq<Arrival> {
    (tagged(t_a, DIRECT) + tagged(t_b, NEIGHBOUR)).sort_by(arrival_order())
}

/// The time of a coincidence.
pub open spec fn time_of() -> spec_fn(Firing) -> i64 {
    |f: Firing| f.0
}

/// Detects the coincidences of two streams of timestamps.
///
/// Fails when the window width is not positive. Otherwise the timestamps of
/// both streams are taken in ascending order, those of `t_a` first among
/// equal ones. Each is put into the window of its stream; from both windows
/// what is older than its time minus `window_ns` is dropped; and its time is
/// reported when both windows then hold a timestamp and together at least
/// `min_count`. The subtraction saturates.
pub fn fuse_coincidence_i64(t_a: &Vec<i64>, t_b: &Vec<i64>, window_ns: i64, min_count: usize) -> (res:
    Result<Vec<i64>, FuseError>)
    ensures
        window_ns <= 0 ==> res == Err::<Vec<i64>, FuseError>(FuseError::NonPositiveWindow),
        window_ns > 0 ==> res is Ok,
        res matches Ok(times) ==> times@ == firings(
            merged(t_a@, t_b@),
            merged(t_a@, t_b@).len() as int,
            window_ns as int,
            min_count as int,
        ).map_values(time_of()),
{
    if window_ns <= 0 {
        return Err(FuseError::NonPositiveWindow);
    }
    let mut arrivals: Vec<Arrival> = Vec::new();
    let mut i: usize = 0;
    while i < t_a.len()
        invariant
            0 <= i <= t_a.len(),
            arrivals@ == tagged(t_a@.take(i as int), DIRECT),
        decreases t_a.len() - i,
    {
        arrivals.push((0, 0, 0, t_a[i], DIRECT));
        assert(arrivals@ =~= tagged(t_a@.take(i + 1), DIRECT));
        i += 1;
    }
    assert(t_a@.take(t_a@.len() as int) =~= t_a@);
    let mut j: usize = 0;
    while j < t_b.len()
        invariant
            0 <= j <= t_b.len(),
            arrivals@ == tagged(t_a@, DIRECT) + tagged(t_b@.take(j as int), NEIGHBOUR),
        decreases t_b.len() - j,
    {
        arrivals.push((0, 0, 0, t_b[j], NEIGHBOUR));
        assert(arrivals@ =~= tagged(t_a@, DIRECT) + tagged(t_b@.take(j + 1), NEIGHBOUR));
        j += 1;
    }
    assert(t_b@.take(t_b@.len() as int) =~= t_b@);
    let ghost unsorted = arrivals@;
    let arrivals = sort_arrivals(&arrivals);
    proof {
        lemma_arrival_order_total();
        unsorted.lemma_sort_by_ensures(arrival_order());
        lemma_sorted_unique(arrivals@, unsorted.sort_by(arrival_order()), arrival_order());
        assert(arrivals@ == merged(t_a@, t_b@));
        unsorted.to_multiset_ensures();
        arrivals@.to_multiset_ensures();
    }
    let fired = sweep(&arrivals, window_ns, min_count);
    let mut times: Vec<i64> = Vec::new();
    let mut k: usize = 0;
    while k < fired.len()
        invariant
            0 <= k <= fired.len(),
            times@ == fired@.take(k as int).map_values(time_of()),
        decreases fired.len() - k,
    {
        times.push(fired[k].0);
        assert(times@ =~= fired@.take(k + 1).map_values(time_of()));
        k += 1;
    }
    assert(fired@.take(fired@.len() as int) =~= fired@);
    Ok(times)
}

} // verus!
