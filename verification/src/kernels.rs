//! The vision kernels on the lines of a trace: the events are read from the
//! lines, the kernel runs on them, and the result comes with the header of
//! the trace that it makes.

use crate::flow::are_columns_of;
use crate::flow::columns_of;
use crate::flow::is_flow_of;
use crate::flow::is_passed_on;
use crate::flow::params_fault;
use crate::flow::passthrough_events;
use crate::flow::shift_delay_fuse;
use crate::flow::Columns;
use crate::flow::Event;
use crate::flow::VisionError;
use crate::json::field;
use crate::json::Json;
use crate::trace::events_of;
use crate::trace::header_of;
use crate::trace::read_trace;
use vstd::prelude::*;
use vstd::string::StringExecFns;

verus! {

/// The kernel that made a trace.
#[derive(Clone, Copy, Debug, PartialEq, Eq, Structural)]
pub enum Kernel {
    /// Optical flow by shift, delay and fuse.
    ShiftDelayFuse,
    /// The events of the input, passed on.
    Passthrough,
}

/// The header of a trace of flow events.
#[derive(Debug, PartialEq, Eq)]
pub struct Header {
    pub schema_version: String,
    /// The names of the index axes: those of the input's header, as they
    /// stand there, where it has any.
    pub dims: Vec<Json>,
    pub time_unit: String,
    pub value_unit: String,
    pub dtype: String,
    pub layout: String,
    pub backend: String,
    pub kernel: String,
}

/// The name under which a kernel signs its traces.
pub open spec fn kernel_name(kernel: Kernel) -> Seq<char> {
    match kernel {
        Kernel::ShiftDelayFuse => "optical_flow_shift_delay_fuse"@,
        Kernel::Passthrough => "passthrough_events"@,
    }
}

/// The axes that the header of the input names, where it names them in an
/// array under `dims`.
pub open spec fn source_dims(source: Option<Json>) -> Option<Seq<Json>> {
    match source {
        Some(header) => match field(header, "dims"@) {
            Some(Json::Array(items)) => Some(items@),
            _ => None,
        },
        None => None,
    }
}

/// The value is the string `text`.
pub open spec fn is_text(json: Json, text: Seq<char>) -> bool {
    json matches Json::Text(s) && s@ == text
}

/// The axes of a sensor's events: `x`, `y`, `polarity`.
pub open spec fn are_sensor_dims(dims: Seq<Json>) -> bool {
    &&& dims.len() == 3
    &&& is_text(dims[0], "x"@)
    &&& is_text(dims[1], "y"@)
    &&& is_text(dims[2], "polarity"@)
}

/// `header` is the header that `kernel` gives to its trace, for an input
/// with the header `source`.
pub open spec fn is_header_for(header: Header, kernel: Kernel, source: Option<Json>) -> bool {
    &&& header.schema_version@ == "0.1.0"@
    &&& match source_dims(source) {
        Some(items) => header.dims@ == items,
        None => are_sensor_dims(header.dims@),
    }
    &&& header.time_unit@ == "us"@
    &&& header.value_unit@ == "dimensionless"@
    &&& header.dtype@ == "f32"@
    &&& header.layout@ == "coo"@
    &&& header.backend@ == "native-rust"@
    &&& header.kernel@ == kernel_name(kernel)
}

/// The integer that the value is, where it is one within `i64`.
pub open spec fn integer_of(json: Json) -> Option<i64> {
    match json {
        Json::Number(n) => n.integer,
        _ => None,
    }
}

/// The integer under `key`.
pub open spec fn integer_field(record: Json, key: Seq<char>) -> Option<i64> {
    match field(record, key) {
        Some(value) => integer_of(value),
        None => None,
    }
}

/// The three integers under `idx`, where that is an array of three integers.
pub open spec fn index_of(record: Json) -> Option<(i64, i64, i64)> {
    match field(record, "idx"@) {
        Some(Json::Array(items)) => if items@.len() == 3 {
            match (integer_of(items@[0]), integer_of(items@[1]), integer_of(items@[2])) {
                (Some(x), Some(y), Some(p)) => Some((x, y, p)),
                _ => None,
            }
        } else {
            None
        },
        _ => None,
    }
}

/// The sensor's event that a record carries: its time under `ts`, and its
/// column, row and polarity under `idx`.
pub open spec fn event_of_record(record: Json) -> Option<Event> {
    match (integer_field(record, "ts"@), index_of(record)) {
        (Some(ts), Some(at)) => Some(Event { ts, x: at.0, y: at.1, polarity: at.2 }),
        _ => None,
    }
}

/// The sensor's events that the records carry, in order.
pub open spec fn sensor_events(records: Seq<Json>) -> Seq<Event>
    decreases records.len(),
{
    if records.len() == 0 {
        Seq::empty()
    } else {
        let before = sensor_events(records.drop_last());
        match event_of_record(records.last()) {
            Some(event) => before.push(event),
            None => before,
        }
    }
}

/// The events as rows of `columns`.
pub open spec fn rows_of(columns: Columns) -> Seq<Event> {
    Seq::new(
        columns.ts@.len(),
        |i: int|
            Event {
                ts: columns.ts@[i],
                x: columns.x@[i],
                y: columns.y@[i],
                polarity: columns.polarity@[i],
            },
    )
}

/// The columns are of one length.
pub open spec fn are_aligned(columns: Columns) -> bool {
    &&& columns.x@.len() == columns.ts@.len()
    &&& columns.y@.len() == columns.ts@.len()
    &&& columns.polarity@.len() == columns.ts@.len()
}

/// Columns of events hold these events as their rows.
pub(crate) proof fn lemma_rows_of_columns(columns: Columns, events: Seq<Event>)
    requires
        are_columns_of(columns, events),
    ensures
        are_aligned(columns),
        rows_of(columns) == events,
{
    assert(rows_of(columns) =~= events);
}

/// The integer that the value is, where it is one within `i64`.
pub fn as_integer(json: &Json) -> (r: Option<i64>)
    ensures
        r == integer_of(*json),
{
    match json {
        Json::Number(n) => n.integer,
        _ => None,
    }
}

/// Reads the sensor's event that a record carries.
pub fn sensor_event(record: &Json) -> (r: Option<Event>)
    ensures
        r == event_of_record(*record),
{
    let ts = match record.get("ts") {
        Some(value) => as_integer(value),
        None => None,
    };
    let at = match record.get("idx") {
        Some(Json::Array(items)) => if items.len() == 3 {
            match (as_integer(&items[0]), as_integer(&items[1]), as_integer(&items[2])) {
                (Some(x), Some(y), Some(p)) => Some((x, y, p)),
                _ => None,
            }
        } else {
            None
        },
        _ => None,
    };
    match (ts, at) {
        (Some(ts), Some(at)) => Some(Event { ts, x: at.0, y: at.1, polarity: at.2 }),
        _ => None,
    }
}

/// Reads the sensor's events that the records carry. A record that carries
/// none is passed over.
pub fn read_sensor_events(records: &Vec<Json>) -> (events: Vec<Event>)
    ensures
        events@ == sensor_events(records@),
{
    let mut events: Vec<Event> = Vec::new();
    let mut i: usize = 0;
    while i < records.len()
        invariant
            0 <= i <= records.len(),
            events@ == sensor_events(records@.take(i as int)),
        decreases records.len() - i,
    {
        proof {
            assert(records@.take(i + 1).drop_last() =~= records@.take(i as int));
            assert(records@.take(i + 1).last() == records@[i as int]);
        }
        match sensor_event(&records[i]) {
            Some(event) => {
                events.push(event);
            },
            None => {},
        }
        i += 1;
    }
    assert(records@.take(records@.len() as int) =~= records@);
    events
}

/// The name under which a kernel signs its traces.
pub fn name_of(kernel: Kernel) -> (name: String)
    ensures
        name@ == kernel_name(kernel),
{
    match kernel {
        Kernel::ShiftDelayFuse => String::from_str("optical_flow_shift_delay_fuse"),
        Kernel::Passthrough => String::from_str("passthrough_events"),
    }
}

/// Makes the header of the trace that `kernel` gives, for an input with the
/// header `source`: the axes are those that `source` names, and else `x`,
/// `y` and `polarity`.
pub fn flow_header(kernel: Kernel, source: Option<Json>) -> (header: Header)
    ensures
        is_header_for(header, kernel, source),
{
    let named = match source {
        Some(found) => match found.take("dims") {
            Some(Json::Array(items)) => Some(items),
            _ => None,
        },
        None => None,
    };
    let dims = match named {
        Some(items) => items,
        None => {
            let mut axes: Vec<Json> = Vec::new();
            axes.push(Json::Text(String::from_str("x")));
            axes.push(Json::Text(String::from_str("y")));
            axes.push(Json::Text(String::from_str("polarity")));
            axes
        },
    };
    Header {
        schema_version: String::from_str("0.1.0"),
        dims,
        time_unit: String::from_str("us"),
        value_unit: String::from_str("dimensionless"),
        dtype: String::from_str("f32"),
        layout: String::from_str("coo"),
        backend: String::from_str("native-rust"),
        kernel: name_of(kernel),
    }
}

/// Optical flow by shift, delay and fuse on the lines of a trace, as a list
/// of flow events.
///
/// Fails on an empty frame, a window that is not positive, a negative delay
/// or a least count of zero, in this order. Otherwise the sensor's events are
/// read from the event records of the lines, and the result is their flow
/// with its header.
pub fn optical_flow_shift_delay_fuse_coo(
    lines: &Vec<String>,
    width: usize,
    height: usize,
    window_us: i64,
    delay_us: i64,
    edge_delay_us: i64,
    min_count: usize,
) -> (res: Result<(Header, Vec<Event>), VisionError>)
    ensures
        match params_fault(
            width as int,
            height as int,
            window_us as int,
            delay_us as int,
            edge_delay_us as int,
            min_count as int,
        ) {
            Some(fault) => res == Err::<(Header, Vec<Event>), VisionError>(fault),
            None => res is Ok,
        },
        res matches Ok(made) ==> {
            &&& is_header_for(made.0, Kernel::ShiftDelayFuse, header_of(lines@))
            &&& is_flow_of(
                made.1@,
                sensor_events(events_of(lines@)),
                width as int,
                height as int,
                window_us as int,
                delay_us as int,
                edge_delay_us as int,
                min_count as int,
            )
        },
{
    let trace = read_trace(lines);
    let events = read_sensor_events(&trace.events);
    match shift_delay_fuse(&events, width, height, window_us, delay_us, edge_delay_us, min_count) {
        Ok(flow) => Ok((flow_header(Kernel::ShiftDelayFuse, trace.header), flow)),
        Err(fault) => Err(fault),
    }
}

/// Optical flow by shift, delay and fuse on the lines of a trace, in
/// columns.
///
/// As `optical_flow_shift_delay_fuse_coo`, with the flow events laid out as
/// the rows of four columns.
pub fn optical_flow_shift_delay_fuse_arrays(
    lines: &Vec<String>,
    width: usize,
    height: usize,
    window_us: i64,
    delay_us: i64,
    edge_delay_us: i64,
    min_count: usize,
) -> (res: Result<(Header, Columns), VisionError>)
    ensures
        match params_fault(
            width as int,
            height as int,
            window_us as int,
            delay_us as int,
            edge_delay_us as int,
            min_count as int,
        ) {
            Some(fault) => res == Err::<(Header, Columns), VisionError>(fault),
            None => res is Ok,
        },
        res matches Ok(made) ==> {
            &&& is_header_for(made.0, Kernel::ShiftDelayFuse, header_of(lines@))
            &&& are_aligned(made.1)
            &&& is_flow_of(
                rows_of(made.1),
                sensor_events(events_of(lines@)),
                width as int,
                height as int,
                window_us as int,
                delay_us as int,
                edge_delay_us as int,
                min_count as int,
            )
        },
{
    match optical_flow_shift_delay_fuse_coo(
        lines,
        width,
        height,
        window_us,
        delay_us,
        edge_delay_us,
        min_count,
    ) {
        Ok((header, flow)) => {
            let columns = columns_of(&flow);
            proof {
                lemma_rows_of_columns(columns, flow@);
            }
            Ok((header, columns))
        },
        Err(fault) => Err(fault),
    }
}

/// The pass-through kernel on the lines of a trace, as a list of events.
///
/// Fails on an empty frame; the other parameters are not looked at.
/// Otherwise the sensor's events are read from the event records of the
/// lines, and the result holds those in the frame, in ascending order, with
/// its header.
pub fn optical_flow_coo_from_jsonl(
    lines: &Vec<String>,
    width: usize,
    height: usize,
    window_us: i64,
    delay_us: i64,
    edge_delay_us: i64,
    min_count: usize,
) -> (res: Result<(Header, Vec<Event>), VisionError>)
    ensures
        width == 0 || height == 0 ==> res == Err::<(Header, Vec<Event>), VisionError>(
            VisionError::EmptyFrame,
        ),
        width > 0 && height > 0 ==> res is Ok,
        res matches Ok(made) ==> {
            &&& is_header_for(made.0, Kernel::Passthrough, header_of(lines@))
            &&& is_passed_on(
                made.1@,
                sensor_events(events_of(lines@)),
                width as int,
                height as int,
            )
        },
{
    let trace = read_trace(lines);
    let events = read_sensor_events(&trace.events);
    match passthrough_events(&events, width, height) {
        Ok(kept) => Ok((flow_header(Kernel::Passthrough, trace.header), kept)),
        Err(fault) => Err(fault),
    }
}

/// The pass-through kernel on the lines of a trace, in columns.
///
/// As `optical_flow_coo_from_jsonl`, with the events laid out as the rows of
/// four columns.
pub fn optical_flow_coo_arrays(lines: &Vec<String>, width: usize, height: usize) -> (res: Result<
    (Header, Columns),
    VisionError,
>)
    ensures
        width == 0 || height == 0 ==> res == Err::<(Header, Columns), VisionError>(
            VisionError::EmptyFrame,
        ),
        width > 0 && height > 0 ==> res is Ok,
        res matches Ok(made) ==> {
            &&& is_header_for(made.0, Kernel::Passthrough, header_of(lines@))
            &&& are_aligned(made.1)
            &&& is_passed_on(
                rows_of(made.1),
                sensor_events(events_of(lines@)),
                width as int,
                height as int,
            )
        },
{
    let trace = read_trace(lines);
    let events = read_sensor_events(&trace.events);
    match passthrough_events(&events, width, height) {
        Ok(kept) => {
            let columns = columns_of(&kept);
            proof {
                lemma_rows_of_columns(columns, kept@);
            }
            Ok((flow_header(Kernel::Passthrough, trace.header), columns))
        },
        Err(fault) => Err(fault),
    }
}

} // verus!
