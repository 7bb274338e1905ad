use eventflow::flow::Columns;
use eventflow::flow::Event;
use eventflow::flow::VisionError;
use eventflow::fuse::distinct;
use eventflow::fuse::sweep;
use eventflow::fuse::FuseError;
use eventflow::json::Json;
use eventflow::json::Number;
use eventflow::kernels::flow_header;
use eventflow::kernels::optical_flow_coo_arrays;
use eventflow::kernels::optical_flow_coo_from_jsonl;
use eventflow::kernels::optical_flow_shift_delay_fuse_arrays;
use eventflow::kernels::optical_flow_shift_delay_fuse_coo;
use eventflow::kernels::read_sensor_events;
use eventflow::kernels::sensor_event;
use eventflow::kernels::Header;
use eventflow::kernels::Kernel;
use eventflow::text::decimal;
use eventflow::trace::read_trace;

fn ev(ts: i64, x: i64, y: i64, polarity: i64) -> Event {
    Event { ts, x, y, polarity }
}

fn lines(all: &[&str]) -> Vec<String> {
    all.iter().map(|s| s.to_string()).collect()
}

fn text(s: &str) -> Json {
    Json::Text(s.to_string())
}

fn header(kernel: &str, dims: Vec<Json>) -> Header {
    Header {
        schema_version: "0.1.0".to_string(),
        dims,
        time_unit: "us".to_string(),
        value_unit: "dimensionless".to_string(),
        dtype: "f32".to_string(),
        layout: "coo".to_string(),
        backend: "native-rust".to_string(),
        kernel: kernel.to_string(),
    }
}

fn sensor_dims() -> Vec<Json> {
    vec![text("x"), text("y"), text("polarity")]
}

#[test]
fn sdf_minimal_coincidence_from_lines() {
    let all = lines(&[
        "{\"type\":\"event\",\"ts\":0,\"idx\":[0,0,0]}",
        "{\"type\":\"event\",\"ts\":7,\"idx\":[1,0,0]}",
    ]);
    let (made, flow) = optical_flow_shift_delay_fuse_coo(&all, 3, 1, 10, 5, 0, 2).unwrap();
    assert_eq!(flow, vec![ev(7, 1, 0, 0)]);
    assert_eq!(made, header("optical_flow_shift_delay_fuse", sensor_dims()));
}

#[test]
fn sdf_out_of_window_from_lines() {
    let all = lines(&[
        "{\"type\":\"event\",\"ts\":0,\"idx\":[0,0,0]}",
        "{\"type\":\"event\",\"ts\":20,\"idx\":[1,0,0]}",
    ]);
    let (_, flow) = optical_flow_shift_delay_fuse_coo(&all, 3, 1, 10, 5, 0, 2).unwrap();
    assert_eq!(flow, Vec::<Event>::new());
}

#[test]
fn sdf_arrays_hold_the_flow_in_columns() {
    let all = lines(&[
        "{\"type\":\"header\",\"header\":{\"dims\":[\"col\",\"row\",7,1.5]}}",
        "{\"type\":\"event\",\"ts\":0,\"idx\":[0,0,1]}",
        "{\"type\":\"deliver\",\"ts\":7,\"idx\":[1,0,1]}",
        "{\"type\":\"event\",\"ts\":9,\"idx\":[0,0,1]}",
    ]);
    let (made, columns) = optical_flow_shift_delay_fuse_arrays(&all, 3, 1, 10, 5, 0, 2).unwrap();
    assert_eq!(
        columns,
        Columns { ts: vec![7, 12, 14], x: vec![1, 0, 1], y: vec![0, 0, 0], polarity: vec![1, 1, 1] }
    );
    // The axes of the input's header are kept as they stand.
    assert_eq!(
        made,
        header(
            "optical_flow_shift_delay_fuse",
            vec![
                text("col"),
                text("row"),
                Json::Number(Number { integer: Some(7), text: "7".to_string() }),
                Json::Number(Number { integer: None, text: "1.5".to_string() }),
            ]
        )
    );
}

#[test]
fn sdf_from_lines_rejects_bad_parameters() {
    let all = lines(&["{\"type\":\"event\",\"ts\":0,\"idx\":[0,0,0]}"]);
    assert_eq!(
        optical_flow_shift_delay_fuse_coo(&all, 0, 1, 10, 5, 0, 2),
        Err(VisionError::EmptyFrame)
    );
    assert_eq!(
        optical_flow_shift_delay_fuse_coo(&all, 1, 1, 0, 5, 0, 2),
        Err(VisionError::NonPositiveWindow)
    );
    assert_eq!(
        optical_flow_shift_delay_fuse_arrays(&all, 1, 1, 1, -5, 0, 2),
        Err(VisionError::NegativeDelay)
    );
    assert_eq!(
        optical_flow_shift_delay_fuse_arrays(&all, 1, 1, 1, 5, 0, 0),
        Err(VisionError::ZeroMinCount)
    );
}

#[test]
fn sdf_from_empty_lines_is_empty() {
    let (made, flow) = optical_flow_shift_delay_fuse_coo(&Vec::new(), 3, 1, 10, 5, 0, 2).unwrap();
    assert_eq!(flow, Vec::<Event>::new());
    assert_eq!(made, header("optical_flow_shift_delay_fuse", sensor_dims()));
}

#[test]
fn passthrough_from_lines() {
    let all = lines(&[
        "{\"type\":\"event\",\"ts\":9,\"idx\":[1,0,1]}",
        "not json",
        "{\"type\":\"meta\",\"ts\":1,\"idx\":[0,0,0]}",
        "{\"type\":\"event\",\"ts\":3,\"idx\":[2,0,0]}",
        "{\"type\":\"event\",\"ts\":3,\"idx\":[7,0,0]}",
        "{\"type\":\"event\",\"ts\":3,\"idx\":[0,0,0]}",
    ]);
    // The window, the delays and the least count are not looked at.
    let (made, kept) = optical_flow_coo_from_jsonl(&all, 3, 1, 0, -1, -1, 0).unwrap();
    assert_eq!(kept, vec![ev(3, 0, 0, 0), ev(3, 2, 0, 0), ev(9, 1, 0, 1)]);
    assert_eq!(made, header("passthrough_events", sensor_dims()));
    let (made, columns) = optical_flow_coo_arrays(&all, 3, 1).unwrap();
    assert_eq!(
        columns,
        Columns { ts: vec![3, 3, 9], x: vec![0, 2, 1], y: vec![0, 0, 0], polarity: vec![0, 0, 1] }
    );
    assert_eq!(made, header("passthrough_events", sensor_dims()));
    assert_eq!(optical_flow_coo_from_jsonl(&all, 0, 1, 1, 1, 1, 1), Err(VisionError::EmptyFrame));
    assert_eq!(optical_flow_coo_arrays(&all, 1, 0), Err(VisionError::EmptyFrame));
}

#[test]
fn sensor_events_need_an_integer_time_and_three_integer_indices() {
    let trace = read_trace(&lines(&[
        "{\"type\":\"event\",\"ts\":5,\"idx\":[1,2,0]}",
        "{\"type\":\"event\",\"ts\":5.5,\"idx\":[1,2,0]}",
        "{\"type\":\"event\",\"ts\":\"5\",\"idx\":[1,2,0]}",
        "{\"type\":\"event\",\"idx\":[1,2,0]}",
        "{\"type\":\"event\",\"ts\":6}",
        "{\"type\":\"event\",\"ts\":6,\"idx\":[1,2]}",
        "{\"type\":\"event\",\"ts\":6,\"idx\":[1,2,0,0]}",
        "{\"type\":\"event\",\"ts\":6,\"idx\":[1,2.5,0]}",
        "{\"type\":\"event\",\"ts\":6,\"idx\":\"120\"}",
        "{\"type\":\"event\",\"ts\":18446744073709551615,\"idx\":[1,2,0]}",
        "{\"type\":\"deliver\",\"ts\":-7,\"idx\":[-1,2,9],\"val\":1.0}",
    ]));
    assert_eq!(trace.events.len(), 11);
    assert_eq!(sensor_event(&trace.events[0]), Some(ev(5, 1, 2, 0)));
    for record in &trace.events[1..10] {
        assert_eq!(sensor_event(record), None);
    }
    assert_eq!(read_sensor_events(&trace.events), vec![ev(5, 1, 2, 0), ev(-7, -1, 2, 9)]);
}

#[test]
fn flow_header_names_the_kernel_and_the_axes() {
    assert_eq!(
        flow_header(Kernel::ShiftDelayFuse, None),
        header("optical_flow_shift_delay_fuse", sensor_dims())
    );
    assert_eq!(flow_header(Kernel::Passthrough, None), header("passthrough_events", sensor_dims()));
    let source = Json::Object(vec![("dims".to_string(), Json::Array(vec![text("a")]))]);
    assert_eq!(flow_header(Kernel::Passthrough, Some(source)), header("passthrough_events", vec![text("a")]));
    let source = Json::Object(vec![("dims".to_string(), Json::Array(vec![]))]);
    assert_eq!(flow_header(Kernel::Passthrough, Some(source)), header("passthrough_events", vec![]));
    // Axes that are not in an array are not taken over.
    let source = Json::Object(vec![("dims".to_string(), text("xy"))]);
    assert_eq!(flow_header(Kernel::Passthrough, Some(source)), header("passthrough_events", sensor_dims()));
    let source = Json::Object(vec![("axes".to_string(), Json::Array(vec![text("a")]))]);
    assert_eq!(flow_header(Kernel::Passthrough, Some(source)), header("passthrough_events", sensor_dims()));
    assert_eq!(flow_header(Kernel::Passthrough, Some(Json::Null)), header("passthrough_events", sensor_dims()));
}

#[test]
fn errors_have_words() {
    assert_eq!(VisionError::EmptyFrame.message(), "width/height must be > 0");
    assert_eq!(VisionError::NonPositiveWindow.message(), "window_us must be > 0");
    assert_eq!(VisionError::NegativeDelay.message(), "delay_us and edge_delay_us must be >= 0");
    assert_eq!(VisionError::ZeroMinCount.message(), "min_count must be >= 1");
    assert_eq!(FuseError::NonPositiveWindow.message(), "window_ns must be > 0");
}

#[test]
fn decimal_writes_digits() {
    assert_eq!(decimal(0), "0");
    assert_eq!(decimal(7), "7");
    assert_eq!(decimal(10), "10");
    assert_eq!(decimal(405), "405");
    assert_eq!(decimal(1234567890), "1234567890");
    assert_eq!(decimal(usize::MAX), usize::MAX.to_string());
}

#[test]
fn sweep_lists_a_coincidence_for_each_arrival_that_fires() {
    // Arrivals are (x, y, polarity, time, source), sorted.
    let arrivals = vec![
        (0, 0, 0, 5, 0),
        (0, 0, 0, 5, 1),
        (0, 0, 0, 5, 1),
        (0, 0, 0, 30, 1),
        (1, 0, 0, 5, 1),
        (1, 0, 0, 6, 0),
    ];
    let fired = sweep(&arrivals, 10, 2);
    assert_eq!(fired, vec![(5, 0, 0, 0), (5, 0, 0, 0), (6, 1, 0, 0)]);
    assert_eq!(distinct(&fired), vec![(5, 0, 0, 0), (6, 1, 0, 0)]);
    assert_eq!(distinct(&Vec::new()), Vec::new());
    // Only a repeat of the coincidence just before is dropped.
    let mixed = vec![(1, 0, 0, 0), (1, 0, 0, 0), (2, 0, 0, 0), (1, 0, 0, 0), (1, 0, 0, 0)];
    assert_eq!(distinct(&mixed), vec![(1, 0, 0, 0), (2, 0, 0, 0), (1, 0, 0, 0)]);
    assert_eq!(sweep(&Vec::new(), 1, 1), Vec::new());
}

#[test]
fn small_readers_read_what_is_there() {
    let record = eventflow::json::parse_json(
        "{\"type\":\"event\",\"t_s\":\"2.5\",\"n\":3,\"payload\":{\"a\":1,\"b\":\"x\"}}",
    )
    .unwrap();
    assert_eq!(eventflow::trace::text_of(&record, "type"), Some(&"event".to_string()));
    assert_eq!(eventflow::trace::text_of(&record, "n"), None);
    assert_eq!(eventflow::trace::text_of(&record, "none"), None);
    assert_eq!(eventflow::compare::time_text(&record), Some(&"2.5".to_string()));
    assert_eq!(eventflow::kernels::as_integer(record.get("n").unwrap()), Some(3));
    assert_eq!(eventflow::kernels::as_integer(record.get("type").unwrap()), None);
    let entries = eventflow::compare::payload(&record).unwrap();
    assert_eq!(eventflow::json::find_entry(entries, "b"), Some(1));
    assert_eq!(eventflow::json::find_entry(entries, "c"), None);
    assert_eq!(eventflow::compare::number_text(entries, "a"), Some(&"1".to_string()));
    assert_eq!(eventflow::compare::number_text(entries, "b"), None);
    assert_eq!(eventflow::compare::number_text(entries, "c"), None);
    assert!(eventflow::compare::same_kind(&record, &record));
    assert!(!eventflow::compare::same_kind(&record, &Json::Null));
    assert!(eventflow::compare::same_kind(&Json::Null, &Json::Bool(true)));
    let unknown = Json::Object(vec![("type".to_string(), text("?"))]);
    assert!(eventflow::compare::same_kind(&unknown, &Json::Null));
    assert!(eventflow::text::blank(' ') && eventflow::text::blank('\x0C'));
    assert!(!eventflow::text::blank('a') && !eventflow::text::blank('\x0B'));
    let e = ev(0, 2, 0, 1);
    assert!(eventflow::flow::lies_in_frame(&e, 3, 1));
    assert!(!eventflow::flow::lies_in_frame(&e, 2, 1));
    assert!(!eventflow::flow::lies_in_frame(&e, 3, 0));
    assert!(eventflow::flow::lies_in_frame(&ev(i64::MIN, i64::MAX, 0, 0), usize::MAX, 1));
}
