//! Optical flow by shift, delay and fuse on the events of a dynamic-vision
//! sensor.
//!
//! Every event lands on its own pixel at its own time (a direct arrival), and
//! is sent on, delayed, to the pixels to its left and right in the same row
//! and of the same polarity (a neighbour's arrival). A flow event is emitted
//! at a pixel and a time when something arrives there then, and the window
//! that ends at that time holds a direct arrival, a neighbour's arrival, and
//! enough arrivals in all.

use crate::arrivals::coord_of;
use crate::arrivals::firing_of;
use crate::arrivals::is_direct;
use crate::arrivals::lemma_times_within_members;
use crate::arrivals::lemma_times_within_nothing;
use crate::arrivals::sort_arrivals;
use crate::arrivals::Arrival;
use crate::arrivals::Coord;
use crate::arrivals::Firing;
use crate::arrivals::DIRECT;
use crate::arrivals::NEIGHBOUR;
use crate::fuse::distinct;
use crate::fuse::emits;
use crate::fuse::is_reference;
use crate::fuse::lemma_emits_permuted;
use crate::fuse::lemma_fires_iff_emits;
use crate::fuse::lemma_firings_contains;
use crate::fuse::lemma_firings_ordered;
use crate::fuse::lemma_ordered_is_clustered;
use crate::fuse::lemma_without_repeats;
use crate::fuse::place_of;
use crate::fuse::sweep;
use crate::order::sorted;
use crate::order::Ordered;
use crate::window::add_saturating;
use crate::window::saturated_difference;
use crate::window::saturated_sum;
use vstd::prelude::*;
use vstd::relations::sorted_by;
use vstd::string::StringExecFns;

verus! {

/// An event at a pixel: its time, and the pixel's column, row and polarity.
/// A flow event has this shape too; its value is always one.
#[derive(Clone, Copy, Debug, PartialEq, Eq, Structural)]
pub struct Event {
    pub ts: i64,
    pub x: i64,
    pub y: i64,
    pub polarity: i64,
}

/// Why a kernel refused its parameters.
#[derive(Clone, Copy, Debug, PartialEq, Eq, Structural)]
pub enum VisionError {
    /// The frame's width or height is zero.
    EmptyFrame,
    /// The window width is zero or negative.
    NonPositiveWindow,
    /// One of the two delays is negative.
    NegativeDelay,
    /// The least number of arrivals is zero.
    ZeroMinCount,
}

impl VisionError {
    /// What went wrong, in words.
    pub open spec fn text(self) -> Seq<char> {
        match self {
            VisionError::EmptyFrame => "width/height must be > 0"@,
            VisionError::NonPositiveWindow => "window_us must be > 0"@,
            VisionError::NegativeDelay => "delay_us and edge_delay_us must be >= 0"@,
            VisionError::ZeroMinCount => "min_count must be >= 1"@,
        }
    }

    /// What went wrong, in words.
    pub fn message(&self) -> (r: String)
        ensures
            r@ == self.text(),
    {
        match self {
            VisionError::EmptyFrame => String::from_str("width/height must be > 0"),
            VisionError::NonPositiveWindow => String::from_str("window_us must be > 0"),
            VisionError::NegativeDelay => String::from_str(
                "delay_us and edge_delay_us must be >= 0",
            ),
            VisionError::ZeroMinCount => String::from_str("min_count must be >= 1"),
        }
    }
}

/// The coordinate lies in the frame, and its polarity is 0 or 1.
pub open spec fn in_frame(at: Coord, width: int, height: int) -> bool {
    0 <= at.0 < width && 0 <= at.1 < height && 0 <= at.2 <= 1
}

/// The event as a tuple: `(time, x, y, polarity)`.
pub open spec fn tuple_of(e: Event) -> Firing {
    (e.ts, e.x, e.y, e.polarity)
}

/// Where the event lands.
pub open spec fn pixel_of(e: Event) -> Coord {
    (e.x, e.y, e.polarity)
}

/// The order of events: by time, then column, row and polarity.
pub open spec fn firing_le(a: Firing, b: Firing) -> bool {
    a.0 < b.0 || (a.0 == b.0 && (a.1 < b.1 || (a.1 == b.1 && (a.2 < b.2 || (a.2 == b.2 && a.3
        <= b.3)))))
}

/// `firing_le` as a relation.
pub open spec fn firing_order() -> spec_fn(Firing, Firing) -> bool {
    |a: Firing, b: Firing| firing_le(a, b)
}

/// Each event is before the next in the order of events, and no event occurs
/// twice.
pub open spec fn strictly_ascending(events: Seq<Event>) -> bool {
    forall|i: int, j: int|
        0 <= i < j < events.len() ==> firing_le(
            tuple_of(#[trigger] events[i]),
            tuple_of(#[trigger] events[j]),
        ) && events[i] != events[j]
}

/// The delay that a neighbour's timestamp gets: the sum of the two delays,
/// saturating.
pub open spec fn effective_delay(delay_us: int, edge_delay_us: int) -> int {
    saturated_sum(delay_us, edge_delay_us)
}

/// The arrivals that one event causes: none if it lies outside the frame;
/// else itself at its pixel, and its time plus `delay`, saturating, at the
/// pixel to the right and at the pixel to the left, where the frame has one.
/// A column is an `i64`: the column `i64::MAX` has none to its right.
pub open spec fn fan_out_of(e: Event, width: int, height: int, delay: int) -> Seq<Arrival> {
    if !in_frame(pixel_of(e), width, height) {
        Seq::empty()
    } else {
        let later = saturated_sum(e.ts as int, delay) as i64;
        let own = seq![(e.x, e.y, e.polarity, e.ts, DIRECT)];
        let east = if e.x + 1 < width && e.x < i64::MAX {
            seq![((e.x + 1) as i64, e.y, e.polarity, later, NEIGHBOUR)]
        } else {
            Seq::empty()
        };
        let west = if e.x > 0 {
            seq![((e.x - 1) as i64, e.y, e.polarity, later, NEIGHBOUR)]
        } else {
            Seq::empty()
        };
        own + east + west
    }
}

/// The arrivals that the events cause, in the order of the events.
pub open spec fn fan_out(events: Seq<Event>, width: int, height: int, delay: int) -> Seq<Arrival>
    decreases events.len(),
{
    if events.len() == 0 {
        Seq::empty()
    } else {
        fan_out(events.drop_last(), width, height, delay) + fan_out_of(
            events.last(),
            width,
            height,
            delay,
        )
    }
}

/// `flow` is the flow of `events`: it lists, in ascending order and each
/// once, the flow events that the arrivals of `events` give, and all of them
/// lie in the frame.
pub open spec fn is_flow_of(
    flow: Seq<Event>,
    events: Seq<Event>,
    width: int,
    height: int,
    window_us: int,
    delay_us: int,
    edge_delay_us: int,
    min_count: int,
) -> bool {
    let arrivals = fan_out(events, width, height, effective_delay(delay_us, edge_delay_us));
    &&& strictly_ascending(flow)
    &&& forall|e: Event| flow.contains(e) <==> emits(arrivals, tuple_of(e), window_us, min_count)
    &&& forall|i: int| 0 <= i < flow.len() ==> in_frame(pixel_of(#[trigger] flow[i]), width, height)
}

/// The first of the parameters' faults, if they have one: an empty frame, a
/// window that is not positive, a negative delay, a least count of zero.
pub open spec fn params_fault(
    width: int,
    height: int,
    window_us: int,
    delay_us: int,
    edge_delay_us: int,
    min_count: int,
) -> Option<VisionError> {
    if width == 0 || height == 0 {
        Some(VisionError::EmptyFrame)
    } else if window_us <= 0 {
        Some(VisionError::NonPositiveWindow)
    } else if delay_us < 0 || edge_delay_us < 0 {
        Some(VisionError::NegativeDelay)
    } else if min_count == 0 {
        Some(VisionError::ZeroMinCount)
    } else {
        None
    }
}

/// Every arrival that events cause lies in the frame.
pub proof fn lemma_fan_out_in_frame(events: Seq<Event>, width: int, height: int, delay: int, j: int)
    requires
        0 <= j < fan_out(events, width, height, delay).len(),
    ensures
        in_frame(coord_of(fan_out(events, width, height, delay)[j]), width, height),
    decreases events.len(),
{
    if events.len() > 0 {
        let before = fan_out(events.drop_last(), width, height, delay);
        if j < before.len() {
            lemma_fan_out_in_frame(events.drop_last(), width, height, delay, j);
        }
    }
}

/// The order of events is total.
pub(crate) proof fn lemma_firing_order_total()
    ensures
        vstd::relations::total_ordering(firing_order()),
{
    let r = firing_order();
    assert forall|x: Firing, y: Firing| #[trigger] r(x, y) && #[trigger] r(y, x) implies x
        == y by {
        assert(x.0 == y.0 && x.1 == y.1 && x.2 == y.2 && x.3 == y.3);
    }
    assert(vstd::relations::reflexive(r));
    assert(vstd::relations::antisymmetric(r));
    assert(vstd::relations::transitive(r));
    assert(vstd::relations::strongly_connected(r));
}

impl Ordered for Firing {
    open spec fn precedes(a: Self, b: Self) -> bool {
        firing_le(a, b)
    }

    proof fn lemma_order() {
    }

    fn comes_before(a: &Self, b: &Self) -> (r: bool) {
        a.0 < b.0 || (a.0 == b.0 && (a.1 < b.1 || (a.1 == b.1 && (a.2 < b.2 || (a.2 == b.2 && a.3
            <= b.3)))))
    }
}

/// The event tuples in their order: by time, then column, row and polarity.
pub fn sort_firings(v: &Vec<Firing>) -> (out: Vec<Firing>)
    ensures
        out@.to_multiset() == v@.to_multiset(),
        sorted_by(out@, firing_order()),
{
    sorted(v)
}

/// Tests the parameters of the flow kernel, in this order: the frame, the
/// window, the delays, the least count.
pub fn check_params(
    width: usize,
    height: usize,
    window_us: i64,
    delay_us: i64,
    edge_delay_us: i64,
    min_count: usize,
) -> (res: Result<(), VisionError>)
    ensures
        res == match params_fault(
            width as int,
            height as int,
            window_us as int,
            delay_us as int,
            edge_delay_us as int,
            min_count as int,
        ) {
            Some(fault) => Err::<(), VisionError>(fault),
            None => Ok::<(), VisionError>(()),
        },
{
    if width == 0 || height == 0 {
        Err(VisionError::EmptyFrame)
    } else if window_us <= 0 {
        Err(VisionError::NonPositiveWindow)
    } else if delay_us < 0 || edge_delay_us < 0 {
        Err(VisionError::NegativeDelay)
    } else if min_count == 0 {
        Err(VisionError::ZeroMinCount)
    } else {
        Ok(())
    }
}

/// Whether the event lies in the frame.
pub fn lies_in_frame(e: &Event, width: usize, height: usize) -> (r: bool)
    ensures
        r == in_frame(pixel_of(*e), width as int, height as int),
{
    e.x >= 0 && (e.x as u64) < (width as u64) && e.y >= 0 && (e.y as u64) < (height as u64)
        && e.polarity >= 0 && e.polarity <= 1
}

/// Lists the arrivals that the events cause.
fn spread(events: &Vec<Event>, width: usize, height: usize, delay: i64) -> (arrivals: Vec<Arrival>)
    ensures
        arrivals@ == fan_out(events@, width as int, height as int, delay as int),
{
    let ghost w = width as int;
    let ghost h = height as int;
    let ghost d = delay as int;
    let mut arrivals: Vec<Arrival> = Vec::new();
    let mut i: usize = 0;
    while i < events.len()
        invariant
            0 <= i <= events.len(),
            w == width as int,
            h == height as int,
            d == delay as int,
            arrivals@ == fan_out(events@.take(i as int), w, h, d),
        decreases events.len() - i,
    {
        let e = events[i];
        let ghost before = arrivals@;
        proof {
            assert(events@.take(i + 1).drop_last() =~= events@.take(i as int));
            assert(events@.take(i + 1).last() == e);
        }
        if lies_in_frame(&e, width, height) {
            let later = add_saturating(e.ts, delay);
            arrivals.push((e.x, e.y, e.polarity, e.ts, DIRECT));
            if e.x < i64::MAX && ((e.x + 1) as u64) < (width as u64) {
                arrivals.push((e.x + 1, e.y, e.polarity, later, NEIGHBOUR));
            }
            if e.x > 0 {
                arrivals.push((e.x - 1, e.y, e.polarity, later, NEIGHBOUR));
            }
        }
        assert(arrivals@ =~= before + fan_out_of(e, w, h, d));
        i += 1;
    }
    assert(events@.take(events@.len() as int) =~= events@);
    arrivals
}

/// Detects flow in the events of a sensor with a frame of `width` by
/// `height` pixels.
///
/// Fails on an empty frame, a window that is not positive, a negative delay
/// or a least count of zero, in this order. Otherwise events outside the
/// frame are dropped, and the result lists, in ascending order and each once,
/// the flow events that the arrivals of the others give: those at a pixel and
/// a time at which something arrives, where from that time minus `window_us`
/// to that time a direct timestamp and a neighbour's timestamp arrive at the
/// pixel, and at least `min_count` timestamps in all.
pub fn shift_delay_fuse(
    events: &Vec<Event>,
    width: usize,
    height: usize,
    window_us: i64,
    delay_us: i64,
    edge_delay_us: i64,
    min_count: usize,
) -> (res: Result<Vec<Event>, VisionError>)
    ensures
        match params_fault(
            width as int,
            height as int,
            window_us as int,
            delay_us as int,
            edge_delay_us as int,
            min_count as int,
        ) {
            Some(fault) => res == Err::<Vec<Event>, VisionError>(fault),
            None => res is Ok,
        },
        res matches Ok(flow) ==> is_flow_of(
            flow@,
            events@,
            width as int,
            height as int,
            window_us as int,
            delay_us as int,
            edge_delay_us as int,
            min_count as int,
        ),
{
    match check_params(width, height, window_us, delay_us, edge_delay_us, min_count) {
        Err(fault) => {
            return Err(fault);
        },
        Ok(_) => {},
    }
    let delay = add_saturating(delay_us, edge_delay_us);
    let ghost w = window_us as int;
    let ghost c = min_count as int;
    let spread_out = spread(events, width, height, delay);
    let ghost caused = spread_out@;
    let arrivals = sort_arrivals(&spread_out);
    let ghost sorted = arrivals@;
    let fired = sweep(&arrivals, window_us, min_count);
    proof {
        lemma_firings_ordered(sorted, sorted.len() as int, w, c);
        lemma_ordered_is_clustered(fired@);
        lemma_without_repeats(fired@);
    }
    let once = distinct(&fired);
    let ghost unique = once@;
    let found = sort_firings(&once);
    proof {
        unique.lemma_multiset_has_no_duplicates();
        found@.lemma_multiset_has_no_duplicates_conv();
        unique.to_multiset_ensures();
        found@.to_multiset_ensures();
        assert forall|f: Firing| found@.contains(f) <==> emits(caused, f, w, c) by {
            assert(found@.to_multiset().count(f) == unique.to_multiset().count(f));
            assert(found@.contains(f) <==> unique.contains(f));
            assert(unique.contains(f) <==> fired@.contains(f));
            lemma_firings_contains(sorted, sorted.len() as int, w, c, f);
            lemma_fires_iff_emits(sorted, f, w, c);
            lemma_emits_permuted(sorted, caused, f, w, c);
        }
    }
    let mut flow: Vec<Event> = Vec::new();
    let mut i: usize = 0;
    while i < found.len()
        invariant
            0 <= i <= found.len(),
            flow@.len() == i,
            forall|k: int| 0 <= k < i ==> tuple_of(#[trigger] flow@[k]) == found@[k],
        decreases found.len() - i,
    {
        let f = found[i];
        flow.push(Event { ts: f.0, x: f.1, y: f.2, polarity: f.3 });
        i += 1;
    }
    proof {
        assert forall|a: int, b: int| 0 <= a < b < flow@.len() implies firing_le(
            tuple_of(#[trigger] flow@[a]),
            tuple_of(#[trigger] flow@[b]),
        ) && flow@[a] != flow@[b] by {
            assert(firing_order()(found@[a], found@[b]));
            assert(found@[a] != found@[b]);
        }
        assert forall|e: Event| flow@.contains(e) <==> emits(caused, tuple_of(e), w, c) by {
            if flow@.contains(e) {
                let k = choose|k: int| 0 <= k < flow@.len() && flow@[k] == e;
                assert(found@[k] == tuple_of(e));
                assert(found@.contains(tuple_of(e)));
            }
            if found@.contains(tuple_of(e)) {
                let k = choose|k: int| 0 <= k < found@.len() && found@[k] == tuple_of(e);
                assert(tuple_of(flow@[k]) == tuple_of(e));
                assert(flow@[k] == e);
            }
        }
        assert forall|k: int| 0 <= k < flow@.len() implies in_frame(
            pixel_of(#[trigger] flow@[k]),
            width as int,
            height as int,
        ) by {
            let e = flow@[k];
            assert(flow@.contains(e));
            assert(is_reference(caused, tuple_of(e)));
            let j = choose|j: int|
                0 <= j < caused.len() && firing_of(#[trigger] caused[j]) == tuple_of(e);
            lemma_fan_out_in_frame(events@, width as int, height as int, delay as int, j);
        }
    }
    Ok(flow)
}

/// The events that lie in the frame.
pub open spec fn frame_filter(width: int, height: int) -> spec_fn(Event) -> bool {
    |e: Event| in_frame(pixel_of(e), width, height)
}

/// The events as tuples.
pub open spec fn tuples(events: Seq<Event>) -> Seq<Firing> {
    events.map_values(|e: Event| tuple_of(e))
}

/// `kept` holds the events of `events` that lie in the frame, each as often,
/// in ascending order.
pub open spec fn is_passed_on(kept: Seq<Event>, events: Seq<Event>, width: int, height: int) -> bool {
    &&& sorted_by(tuples(kept), firing_order())
    &&& tuples(kept).to_multiset() == tuples(events.filter(frame_filter(width, height))).to_multiset()
}

/// What is passed on is determined: two lists that both hold the events of
/// the same input that lie in the frame, in ascending order, are the same
/// list.
pub proof fn lemma_passed_on_is_unique(
    a: Seq<Event>,
    b: Seq<Event>,
    events: Seq<Event>,
    width: int,
    height: int,
)
    requires
        is_passed_on(a, events, width, height),
        is_passed_on(b, events, width, height),
    ensures
        a == b,
{
    lemma_firing_order_total();
    vstd::seq_lib::lemma_sorted_unique(tuples(a), tuples(b), firing_order());
    assert(a.len() == b.len());
    assert forall|i: int| 0 <= i < a.len() implies a[i] == b[i] by {
        assert(tuples(a)[i] == tuples(b)[i]);
    }
    assert(a =~= b);
}

/// Passes on the events that lie in the frame, in ascending order.
///
/// Fails on an empty frame. Otherwise the result holds the events of the
/// input that lie in the frame, each as often as the input holds it, by time
/// and then by column, row and polarity.
pub fn passthrough_events(events: &Vec<Event>, width: usize, height: usize) -> (res: Result<
    Vec<Event>,
    VisionError,
>)
    ensures
        width == 0 || height == 0 ==> res == Err::<Vec<Event>, VisionError>(
            VisionError::EmptyFrame,
        ),
        width > 0 && height > 0 ==> res is Ok,
        res matches Ok(kept) ==> is_passed_on(kept@, events@, width as int, height as int),
{
    if width == 0 || height == 0 {
        return Err(VisionError::EmptyFrame);
    }
    let ghost inside = frame_filter(width as int, height as int);
    let mut found: Vec<Firing> = Vec::new();
    let mut i: usize = 0;
    assert(events@.take(0).filter(inside) =~= Seq::<Event>::empty()) by {
        reveal(Seq::filter);
    }
    while i < events.len()
        invariant
            0 <= i <= events.len(),
            inside == frame_filter(width as int, height as int),
            found@ == tuples(events@.take(i as int).filter(inside)),
        decreases events.len() - i,
    {
        let e = events[i];
        proof {
            assert(events@.take(i + 1) =~= events@.take(i as int).push(e));
            events@.take(i as int).lemma_filter_push(e, inside);
        }
        if lies_in_frame(&e, width, height) {
            found.push((e.ts, e.x, e.y, e.polarity));
            assert(found@ =~= tuples(events@.take(i + 1).filter(inside)));
        }
        i += 1;
    }
    assert(events@.take(events@.len() as int) =~= events@);
    let found = sort_firings(&found);
    let mut kept: Vec<Event> = Vec::new();
    let mut k: usize = 0;
    while k < found.len()
        invariant
            0 <= k <= found.len(),
            kept@.len() == k,
            forall|j: int| 0 <= j < k ==> tuple_of(#[trigger] kept@[j]) == found@[j],
        decreases found.len() - k,
    {
        let f = found[k];
        kept.push(Event { ts: f.0, x: f.1, y: f.2, polarity: f.3 });
        k += 1;
    }
    assert(tuples(kept@) =~= found@);
    Ok(kept)
}

/// Events as columns: one vector for each of time, column, row and polarity.
#[derive(Debug, PartialEq, Eq)]
pub struct Columns {
    pub ts: Vec<i64>,
    pub x: Vec<i64>,
    pub y: Vec<i64>,
    pub polarity: Vec<i64>,
}

/// `columns` holds the events, one row each, in their order.
pub open spec fn are_columns_of(columns: Columns, events: Seq<Event>) -> bool {
    &&& columns.ts@ == events.map_values(|e: Event| e.ts)
    &&& columns.x@ == events.map_values(|e: Event| e.x)
    &&& columns.y@ == events.map_values(|e: Event| e.y)
    &&& columns.polarity@ == events.map_values(|e: Event| e.polarity)
}

/// Lays the events out in columns.
pub fn columns_of(events: &Vec<Event>) -> (columns: Columns)
    ensures
        are_columns_of(columns, events@),
{
    let mut ts: Vec<i64> = Vec::new();
    let mut x: Vec<i64> = Vec::new();
    let mut y: Vec<i64> = Vec::new();
    let mut polarity: Vec<i64> = Vec::new();
    let mut i: usize = 0;
    while i < events.len()
        invariant
            0 <= i <= events.len(),
            ts@ == events@.take(i as int).map_values(|e: Event| e.ts),
            x@ == events@.take(i as int).map_values(|e: Event| e.x),
            y@ == events@.take(i as int).map_values(|e: Event| e.y),
            polarity@ == events@.take(i as int).map_values(|e: Event| e.polarity),
        decreases events.len() - i,
    {
        let e = events[i];
        ts.push(e.ts);
        x.push(e.x);
        y.push(e.y);
        polarity.push(e.polarity);
        assert(ts@ =~= events@.take(i + 1).map_values(|e: Event| e.ts));
        assert(x@ =~= events@.take(i + 1).map_values(|e: Event| e.x));
        assert(y@ =~= events@.take(i + 1).map_values(|e: Event| e.y));
        assert(polarity@ =~= events@.take(i + 1).map_values(|e: Event| e.polarity));
        i += 1;
    }
    assert(events@.take(events@.len() as int) =~= events@);
    Columns { ts, x, y, polarity }
}

/// Two lists of events in strictly ascending order that hold the same
/// events have the same first `n` events.
proof fn lemma_same_events(a: Seq<Event>, b: Seq<Event>, n: int)
    requires
        strictly_ascending(a),
        strictly_ascending(b),
        forall|e: Event| a.contains(e) <==> b.contains(e),
        0 <= n <= a.len(),
        n <= b.len(),
    ensures
        forall|k: int| 0 <= k < n ==> #[trigger] a[k] == b[k],
    decreases n,
{
    if n > 0 {
        lemma_same_events(a, b, n - 1);
        let k = n - 1;
        assert(a.contains(a[k]));
        assert(b.contains(b[k]));
        let m = choose|m: int| 0 <= m < b.len() && b[m] == a[k];
        let w = choose|w: int| 0 <= w < a.len() && a[w] == b[k];
        if m < k {
            assert(a[m] == b[m]);
        }
        if w < k {
            assert(a[w] == b[w]);
        }
        if m > k {
            assert(firing_le(tuple_of(b[k]), tuple_of(b[m])));
        }
        if w > k {
            assert(firing_le(tuple_of(a[k]), tuple_of(a[w])));
        }
        assert(tuple_of(a[k]) == tuple_of(b[k]));
    }
}

/// The flow of events is determined: two lists that both are the flow of
/// the same events under the same parameters are the same list.
pub proof fn lemma_flow_is_unique(
    a: Seq<Event>,
    b: Seq<Event>,
    events: Seq<Event>,
    width: int,
    height: int,
    window_us: int,
    delay_us: int,
    edge_delay_us: int,
    min_count: int,
)
    requires
        is_flow_of(a, events, width, height, window_us, delay_us, edge_delay_us, min_count),
        is_flow_of(b, events, width, height, window_us, delay_us, edge_delay_us, min_count),
    ensures
        a == b,
{
    let n = if a.len() <= b.len() {
        a.len() as int
    } else {
        b.len() as int
    };
    let arrivals = fan_out(events, width, height, effective_delay(delay_us, edge_delay_us));
    assert forall|e: Event| a.contains(e) <==> b.contains(e) by {
        assert(a.contains(e) <==> emits(arrivals, tuple_of(e), window_us, min_count));
        assert(b.contains(e) <==> emits(arrivals, tuple_of(e), window_us, min_count));
    }
    lemma_same_events(a, b, n);
    if a.len() < b.len() {
        assert(b.contains(b[n]));
        assert(a.contains(b[n]));
        let w = choose|w: int| 0 <= w < a.len() && a[w] == b[n];
        assert(a[w] == b[w]);
        assert(b[w] != b[n]);
    }
    if b.len() < a.len() {
        assert(a.contains(a[n]));
        assert(b.contains(a[n]));
        let m = choose|m: int| 0 <= m < b.len() && b[m] == a[n];
        assert(a[m] == b[m]);
        assert(a[m] != a[n]);
    }
    assert(a =~= b);
}

/// Where nothing arrives from a neighbour, nothing is emitted.
pub(crate) proof fn lemma_no_neighbour_no_flow(arrivals: Seq<Arrival>, f: Firing, window: int, min_count: int)
    requires
        forall|j: int| 0 <= j < arrivals.len() ==> is_direct(#[trigger] arrivals[j]),
    ensures
        !emits(arrivals, f, window, min_count),
{
    let lo = saturated_difference(f.0 as int, window);
    lemma_times_within_nothing(arrivals, place_of(f), false, lo, f.0 as int);
}

/// In a frame of one column, every arrival is direct.
pub(crate) proof fn lemma_single_column_is_direct(events: Seq<Event>, height: int, delay: int, j: int)
    requires
        0 <= j < fan_out(events, 1, height, delay).len(),
    ensures
        is_direct(fan_out(events, 1, height, delay)[j]),
    decreases events.len(),
{
    if events.len() > 0 {
        let before = fan_out(events.drop_last(), 1, height, delay);
        if j < before.len() {
            lemma_single_column_is_direct(events.drop_last(), height, delay, j);
        }
    }
}

/// A frame of one column has no flow, whatever the events: no pixel has a
/// neighbour.
pub proof fn lemma_single_column_is_silent(
    flow: Seq<Event>,
    events: Seq<Event>,
    height: int,
    window_us: int,
    delay_us: int,
    edge_delay_us: int,
    min_count: int,
)
    requires
        is_flow_of(flow, events, 1, height, window_us, delay_us, edge_delay_us, min_count),
    ensures
        flow.len() == 0,
{
    let delay = effective_delay(delay_us, edge_delay_us);
    let arrivals = fan_out(events, 1, height, delay);
    if flow.len() > 0 {
        assert(flow.contains(flow[0]));
        assert forall|j: int| 0 <= j < arrivals.len() implies is_direct(#[trigger] arrivals[j]) by {
            lemma_single_column_is_direct(events, height, delay, j);
        }
        lemma_no_neighbour_no_flow(arrivals, tuple_of(flow[0]), window_us, min_count);
    }
}

/// Without events there is no flow.
pub proof fn lemma_no_events_no_flow(
    flow: Seq<Event>,
    width: int,
    height: int,
    window_us: int,
    delay_us: int,
    edge_delay_us: int,
    min_count: int,
)
    requires
        is_flow_of(
            flow,
            Seq::<Event>::empty(),
            width,
            height,
            window_us,
            delay_us,
            edge_delay_us,
            min_count,
        ),
    ensures
        flow.len() == 0,
{
    if flow.len() > 0 {
        assert(flow.contains(flow[0]));
    }
}

/// A single event gives no flow: it arrives directly at its own pixel only,
/// and as a neighbour's at other pixels only.
pub proof fn lemma_single_event_is_silent(
    flow: Seq<Event>,
    event: Event,
    width: int,
    height: int,
    window_us: int,
    delay_us: int,
    edge_delay_us: int,
    min_count: int,
)
    requires
        is_flow_of(flow, seq![event], width, height, window_us, delay_us, edge_delay_us, min_count),
    ensures
        flow.len() == 0,
{
    let delay = effective_delay(delay_us, edge_delay_us);
    let events = seq![event];
    let arrivals = fan_out(events, width, height, delay);
    if flow.len() > 0 {
        let f = tuple_of(flow[0]);
        assert(flow.contains(flow[0]));
        assert(emits(arrivals, f, window_us, min_count));
        assert(events.drop_last() =~= Seq::<Event>::empty());
        assert(fan_out(events.drop_last(), width, height, delay) =~= Seq::<Arrival>::empty());
        assert(arrivals =~= fan_out_of(event, width, height, delay));
        let lo = saturated_difference(f.0 as int, window_us);
        let a = lemma_times_within_members(arrivals, place_of(f), true, lo, f.0 as int, 0);
        let b = lemma_times_within_members(arrivals, place_of(f), false, lo, f.0 as int, 0);
        assert(coord_of(arrivals[a]) == place_of(f));
        assert(coord_of(arrivals[b]) == place_of(f));
        assert(is_direct(arrivals[a]));
        assert(!is_direct(arrivals[b]));
        assert(arrivals[a].0 == event.x);
        assert(arrivals[b].0 != event.x);
    }
}

} // verus!
