use eventflow::flow::check_params;
use eventflow::flow::columns_of;
use eventflow::flow::passthrough_events;
use eventflow::flow::shift_delay_fuse;
use eventflow::flow::Event;
use eventflow::flow::VisionError;

fn ev(ts: i64, x: i64, y: i64, polarity: i64) -> Event {
    Event { ts, x, y, polarity }
}

#[test]
fn sdf_minimal_coincidence() {
    let events = vec![ev(0, 0, 0, 0), ev(7, 1, 0, 0)];
    let flow = shift_delay_fuse(&events, 3, 1, 10, 5, 0, 2).unwrap();
    assert_eq!(flow, vec![ev(7, 1, 0, 0)]);
}

#[test]
fn sdf_out_of_window() {
    let events = vec![ev(0, 0, 0, 0), ev(20, 1, 0, 0)];
    let flow = shift_delay_fuse(&events, 3, 1, 10, 5, 0, 2).unwrap();
    assert_eq!(flow, Vec::<Event>::new());
}

#[test]
fn sdf_dedup() {
    let events = vec![ev(0, 1, 0, 0), ev(10, 0, 0, 0)];
    // At pixel 0 the direct timestamp 10 meets the neighbour's timestamp 5.
    // At pixel 1 the neighbour's timestamp 15 finds the direct timestamp 0
    // too old for a window of 10.
    let flow = shift_delay_fuse(&events, 3, 1, 10, 5, 0, 2).unwrap();
    assert_eq!(flow, vec![ev(10, 0, 0, 0)]);
    // With a window of 20 the two meet at pixel 1 as well, once.
    let flow = shift_delay_fuse(&events, 3, 1, 20, 5, 0, 2).unwrap();
    assert_eq!(flow, vec![ev(10, 0, 0, 0), ev(15, 1, 0, 0)]);
    // The same events twice over give the same flow: no event is listed twice.
    let events = vec![ev(0, 1, 0, 0), ev(10, 0, 0, 0), ev(0, 1, 0, 0), ev(10, 0, 0, 0)];
    let flow = shift_delay_fuse(&events, 3, 1, 20, 5, 0, 2).unwrap();
    assert_eq!(flow, vec![ev(10, 0, 0, 0), ev(15, 1, 0, 0)]);
}

#[test]
fn sdf_same_reference_time_from_both_neighbours_is_emitted_once() {
    // Both neighbours of (1,0,0) send a timestamp for time 15, and a direct
    // event lands there at time 15 too.
    let events = vec![ev(10, 0, 0, 0), ev(10, 2, 0, 0), ev(15, 1, 0, 0)];
    let flow = shift_delay_fuse(&events, 3, 1, 10, 5, 0, 2).unwrap();
    let at_15: Vec<&Event> = flow.iter().filter(|e| **e == ev(15, 1, 0, 0)).collect();
    assert_eq!(at_15.len(), 1);
    // The direct events at the outer pixels meet the timestamp that the
    // middle one sends (20) only if they are still in the window.
    assert_eq!(flow, vec![ev(15, 1, 0, 0), ev(20, 0, 0, 0), ev(20, 2, 0, 0)]);
}

#[test]
fn sdf_output_is_sorted_by_time_then_pixel() {
    let events = vec![
        ev(100, 5, 0, 1),
        ev(102, 4, 0, 1),
        ev(1, 1, 2, 0),
        ev(3, 0, 2, 0),
    ];
    let flow = shift_delay_fuse(&events, 8, 4, 10, 2, 0, 2).unwrap();
    let mut sorted = flow.clone();
    sorted.sort_by_key(|e| (e.ts, e.x, e.y, e.polarity));
    sorted.dedup();
    assert_eq!(flow, sorted);
    for e in &flow {
        assert!(0 <= e.x && e.x < 8 && 0 <= e.y && e.y < 4 && (e.polarity == 0 || e.polarity == 1));
    }
    assert_eq!(flow, vec![ev(3, 0, 2, 0), ev(5, 1, 2, 0), ev(102, 4, 0, 1), ev(104, 5, 0, 1)]);
}

#[test]
fn sdf_min_count_counts_both_streams() {
    // One direct and one neighbour timestamp are in the window: enough for
    // two, not for three.
    let events = vec![ev(0, 0, 0, 0), ev(7, 1, 0, 0)];
    assert_eq!(shift_delay_fuse(&events, 3, 1, 10, 5, 0, 3).unwrap(), Vec::<Event>::new());
    // A second direct event makes three.
    let events = vec![ev(0, 0, 0, 0), ev(6, 1, 0, 0), ev(7, 1, 0, 0)];
    assert_eq!(shift_delay_fuse(&events, 3, 1, 10, 5, 0, 3).unwrap(), vec![ev(7, 1, 0, 0)]);
}

#[test]
fn sdf_drops_events_outside_the_frame() {
    let events = vec![
        ev(0, 0, 0, 0),
        ev(7, 1, 0, 0),
        ev(7, 3, 0, 0),
        ev(7, -1, 0, 0),
        ev(7, 1, 1, 0),
        ev(7, 1, 0, 2),
        ev(7, 1, 0, -1),
    ];
    let flow = shift_delay_fuse(&events, 3, 1, 10, 5, 0, 2).unwrap();
    assert_eq!(flow, vec![ev(7, 1, 0, 0)]);
}

#[test]
fn sdf_polarities_do_not_mix() {
    let events = vec![ev(0, 0, 0, 1), ev(7, 1, 0, 0)];
    let flow = shift_delay_fuse(&events, 3, 1, 10, 5, 0, 2).unwrap();
    assert_eq!(flow, Vec::<Event>::new());
}

#[test]
fn sdf_edge_delay_adds_to_delay() {
    let events = vec![ev(0, 0, 0, 0), ev(7, 1, 0, 0)];
    // The neighbour's timestamp is 0 + 3 + 2 = 5.
    assert_eq!(shift_delay_fuse(&events, 3, 1, 2, 3, 2, 2).unwrap(), vec![ev(7, 1, 0, 0)]);
    // With a window of 1 the timestamp 5 is too old at time 7.
    assert_eq!(shift_delay_fuse(&events, 3, 1, 1, 3, 2, 2).unwrap(), Vec::<Event>::new());
}

#[test]
fn sdf_window_is_closed_at_its_old_end() {
    // The neighbour's timestamp 5 is exactly window (2) before time 7.
    let events = vec![ev(0, 0, 0, 0), ev(7, 1, 0, 0)];
    assert_eq!(shift_delay_fuse(&events, 3, 1, 2, 5, 0, 2).unwrap(), vec![ev(7, 1, 0, 0)]);
}

#[test]
fn sdf_timestamps_saturate() {
    let events = vec![ev(i64::MAX - 1, 0, 0, 0), ev(i64::MAX, 1, 0, 0)];
    // The neighbour's timestamp saturates at the largest value.
    let flow = shift_delay_fuse(&events, 2, 1, 10, 5, 0, 2).unwrap();
    assert_eq!(flow, vec![ev(i64::MAX, 0, 0, 0), ev(i64::MAX, 1, 0, 0)]);
    let events = vec![ev(i64::MIN, 0, 0, 0), ev(i64::MIN + 5, 1, 0, 0)];
    // The window's old end saturates at the smallest value.
    let flow = shift_delay_fuse(&events, 2, 1, 10, 5, 0, 2).unwrap();
    assert_eq!(flow, vec![ev(i64::MIN + 5, 1, 0, 0), ev(i64::MIN + 10, 0, 0, 0)]);
}

#[test]
fn sdf_empty_input_gives_empty_output() {
    let flow = shift_delay_fuse(&Vec::new(), 3, 1, 10, 5, 0, 2).unwrap();
    assert_eq!(flow, Vec::<Event>::new());
}

#[test]
fn sdf_single_event_never_emits() {
    for x in 0..3 {
        let flow = shift_delay_fuse(&vec![ev(5, x, 0, 1)], 3, 1, 10, 0, 0, 1).unwrap();
        assert_eq!(flow, Vec::<Event>::new());
    }
}

#[test]
fn sdf_single_column_emits_nothing() {
    let events = vec![ev(0, 0, 0, 0), ev(1, 0, 1, 0), ev(2, 0, 0, 0), ev(2, 0, 0, 1), ev(3, 0, 2, 1)];
    let flow = shift_delay_fuse(&events, 1, 3, 10, 0, 0, 1).unwrap();
    assert_eq!(flow, Vec::<Event>::new());
}

#[test]
fn sdf_rejects_bad_parameters() {
    let events = vec![ev(0, 0, 0, 0)];
    assert_eq!(shift_delay_fuse(&events, 0, 1, 10, 5, 0, 2), Err(VisionError::EmptyFrame));
    assert_eq!(shift_delay_fuse(&events, 1, 0, 10, 5, 0, 2), Err(VisionError::EmptyFrame));
    assert_eq!(shift_delay_fuse(&events, 1, 1, 0, 5, 0, 2), Err(VisionError::NonPositiveWindow));
    assert_eq!(shift_delay_fuse(&events, 1, 1, -3, 5, 0, 2), Err(VisionError::NonPositiveWindow));
    assert_eq!(shift_delay_fuse(&events, 1, 1, 10, -1, 0, 2), Err(VisionError::NegativeDelay));
    assert_eq!(shift_delay_fuse(&events, 1, 1, 10, 0, -1, 2), Err(VisionError::NegativeDelay));
    assert_eq!(shift_delay_fuse(&events, 1, 1, 10, 0, 0, 0), Err(VisionError::ZeroMinCount));
    // The first fault is the one reported.
    assert_eq!(shift_delay_fuse(&events, 0, 1, 0, -1, 0, 0), Err(VisionError::EmptyFrame));
    assert_eq!(shift_delay_fuse(&events, 1, 1, 0, -1, 0, 0), Err(VisionError::NonPositiveWindow));
    assert_eq!(check_params(1, 1, 10, -1, 0, 0), Err(VisionError::NegativeDelay));
    assert_eq!(check_params(1, 1, 10, 0, 0, 1), Ok(()));
}

#[test]
fn passthrough_keeps_events_in_frame_sorted() {
    let events = vec![ev(9, 1, 0, 1), ev(3, 2, 0, 0), ev(3, 0, 0, 0), ev(3, 5, 0, 0), ev(9, 1, 0, 1), ev(1, 0, 0, 7)];
    let kept = passthrough_events(&events, 3, 1).unwrap();
    assert_eq!(kept, vec![ev(3, 0, 0, 0), ev(3, 2, 0, 0), ev(9, 1, 0, 1), ev(9, 1, 0, 1)]);
    assert_eq!(passthrough_events(&events, 0, 1), Err(VisionError::EmptyFrame));
    assert_eq!(passthrough_events(&events, 1, 0), Err(VisionError::EmptyFrame));
    assert_eq!(passthrough_events(&Vec::new(), 1, 1), Ok(Vec::new()));
}

#[test]
fn columns_hold_one_row_per_event() {
    let events = vec![ev(3, 0, 1, 0), ev(9, 1, 2, 1)];
    let columns = columns_of(&events);
    assert_eq!(columns.ts, vec![3, 9]);
    assert_eq!(columns.x, vec![0, 1]);
    assert_eq!(columns.y, vec![1, 2]);
    assert_eq!(columns.polarity, vec![0, 1]);
}

/// The flow by its definition: for every pixel and time at which something
/// arrives, the arrivals in the window are counted one by one.
fn flow_by_definition(
    events: &[Event],
    width: i64,
    height: i64,
    window: i64,
    delay: i64,
    min_count: usize,
) -> Vec<Event> {
    // (x, y, polarity, time, direct)
    let mut arrivals: Vec<(i64, i64, i64, i64, bool)> = Vec::new();
    for e in events {
        if e.x < 0 || e.x >= width || e.y < 0 || e.y >= height || e.polarity < 0 || e.polarity > 1 {
            continue;
        }
        arrivals.push((e.x, e.y, e.polarity, e.ts, true));
        let later = e.ts.saturating_add(delay);
        if e.x + 1 < width {
            arrivals.push((e.x + 1, e.y, e.polarity, later, false));
        }
        if e.x > 0 {
            arrivals.push((e.x - 1, e.y, e.polarity, later, false));
        }
    }
    let mut flow: Vec<Event> = Vec::new();
    for &(x, y, p, t, _) in &arrivals {
        let lo = t.saturating_sub(window);
        let count = |direct: bool| {
            arrivals
                .iter()
                .filter(|a| (a.0, a.1, a.2) == (x, y, p) && a.4 == direct && lo <= a.3 && a.3 <= t)
                .count()
        };
        let (a, b) = (count(true), count(false));
        if a > 0 && b > 0 && a + b >= min_count && !flow.contains(&ev(t, x, y, p)) {
            flow.push(ev(t, x, y, p));
        }
    }
    flow.sort_by_key(|e| (e.ts, e.x, e.y, e.polarity));
    flow
}

#[test]
fn sdf_agrees_with_its_definition_on_many_inputs() {
    let mut state: u64 = 0x2545F4914F6CDD1D;
    let mut next = |bound: u64| {
        state ^= state << 13;
        state ^= state >> 7;
        state ^= state << 17;
        (state % bound) as i64
    };
    for round in 0..60 {
        let width = 1 + next(5);
        let height = 1 + next(3);
        let window = 1 + next(12);
        let delay = next(6);
        let edge_delay = next(3);
        let min_count = 1 + next(4) as usize;
        let n = next(40) as usize;
        let mut events: Vec<Event> = Vec::new();
        for _ in 0..n {
            events.push(ev(next(30) - 5, next(7) - 1, next(4) - 1, next(4) - 1));
        }
        let flow = shift_delay_fuse(
            &events,
            width as usize,
            height as usize,
            window,
            delay,
            edge_delay,
            min_count,
        )
        .unwrap();
        let wanted = flow_by_definition(&events, width, height, window, delay + edge_delay, min_count);
        assert_eq!(flow, wanted, "round {round}");
    }
}
