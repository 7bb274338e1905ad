//! The trace reader: from the lines of a trace, each a JSON object, to its
//! header, its events and its meta records.
//!
//! A line is trimmed and parsed. What does not parse is passed over, and so
//! is a record of a type that the reader does not know. The records keep the
//! order of the lines.

use crate::json::field;
use crate::json::json_of_text;
use crate::json::parse_json;
use crate::json::Json;
use crate::text::same_text;
use crate::text::trim_ascii;
use crate::text::trimmed;
use vstd::prelude::*;

verus! {

/// What one line of a trace holds.
#[derive(Debug, PartialEq, Eq)]
pub enum Record {
    /// A header: what stands under `header` in a record of type `header`.
    Header(Json),
    /// A record of type `meta`.
    Meta(Json),
    /// A record of type `event` or `deliver`.
    Event(Json),
    /// Nothing that the reader keeps.
    Other,
}

/// A trace: its header, if it has one, and its events and meta records in
/// the order of the lines.
#[derive(Debug, PartialEq, Eq)]
pub struct Trace {
    pub header: Option<Json>,
    pub events: Vec<Json>,
    pub metas: Vec<Json>,
}

/// The text under `key`, where the record has a string there.
pub open spec fn text_field(json: Json, key: Seq<char>) -> Option<Seq<char>> {
    match field(json, key) {
        Some(Json::Text(s)) => Some(s@),
        _ => None,
    }
}

/// What a parsed line holds, by its `type`.
pub open spec fn record_of_json(json: Json) -> Record {
    match text_field(json, "type"@) {
        Some(kind) => if kind == "header"@ {
            match field(json, "header"@) {
                Some(header) => Record::Header(header),
                None => Record::Other,
            }
        } else if kind == "meta"@ {
            Record::Meta(json)
        } else if kind == "event"@ || kind == "deliver"@ {
            Record::Event(json)
        } else {
            Record::Other
        },
        None => Record::Other,
    }
}

/// What a line holds: nothing where it is blank or does not parse.
pub open spec fn record_of_line(line: Seq<char>) -> Record {
    let text = trimmed(line);
    if text.len() == 0 {
        Record::Other
    } else {
        match json_of_text(text) {
            Some(json) => record_of_json(json),
            None => Record::Other,
        }
    }
}

/// The events of the lines, in order.
pub open spec fn events_of(lines: Seq<String>) -> Seq<Json>
    decreases lines.len(),
{
    if lines.len() == 0 {
        Seq::empty()
    } else {
        let before = events_of(lines.drop_last());
        match record_of_line(lines.last()@) {
            Record::Event(json) => before.push(json),
            _ => before,
        }
    }
}

/// The meta records of the lines, in order.
pub open spec fn metas_of(lines: Seq<String>) -> Seq<Json>
    decreases lines.len(),
{
    if lines.len() == 0 {
        Seq::empty()
    } else {
        let before = metas_of(lines.drop_last());
        match record_of_line(lines.last()@) {
            Record::Meta(json) => before.push(json),
            _ => before,
        }
    }
}

/// The first header of the lines.
pub open spec fn header_of(lines: Seq<String>) -> Option<Json>
    decreases lines.len(),
{
    if lines.len() == 0 {
        None
    } else {
        match header_of(lines.drop_last()) {
            Some(header) => Some(header),
            None => match record_of_line(lines.last()@) {
                Record::Header(header) => Some(header),
                _ => None,
            },
        }
    }
}

/// The text under `key`, where the record has a string there.
pub fn text_of<'a>(json: &'a Json, key: &str) -> (r: Option<&'a String>)
    ensures
        match r {
            Some(s) => text_field(*json, key@) == Some(s@),
            None => text_field(*json, key@) is None,
        },
{
    match json.get(key) {
        Some(Json::Text(s)) => Some(s),
        _ => None,
    }
}

/// Sorts a parsed line by its `type`.
pub fn read_json(json: Json) -> (r: Record)
    ensures
        r == record_of_json(json),
{
    let mut is_header = false;
    let mut is_meta = false;
    let mut is_event = false;
    match text_of(&json, "type") {
        Some(kind) => {
            is_header = same_text(kind.as_str(), "header");
            is_meta = same_text(kind.as_str(), "meta");
            is_event = same_text(kind.as_str(), "event") || same_text(kind.as_str(), "deliver");
        },
        None => {},
    }
    if is_header {
        match json.take("header") {
            Some(header) => Record::Header(header),
            None => Record::Other,
        }
    } else if is_meta {
        Record::Meta(json)
    } else if is_event {
        Record::Event(json)
    } else {
        Record::Other
    }
}

/// Reads one line of a trace.
pub fn read_line(line: &str) -> (r: Record)
    ensures
        r == record_of_line(line@),
{
    let text = trim_ascii(line);
    if text.unicode_len() == 0 {
        return Record::Other;
    }
    match parse_json(text) {
        Some(json) => read_json(json),
        None => Record::Other,
    }
}

/// Reads a trace from its lines.
///
/// The events and the meta records are kept in the order of the lines; of
/// the headers the first one is kept.
pub fn read_trace(lines: &Vec<String>) -> (trace: Trace)
    ensures
        trace.header == header_of(lines@),
        trace.events@ == events_of(lines@),
        trace.metas@ == metas_of(lines@),
{
    let mut header: Option<Json> = None;
    let mut events: Vec<Json> = Vec::new();
    let mut metas: Vec<Json> = Vec::new();
    let mut i: usize = 0;
    while i < lines.len()
        invariant
            0 <= i <= lines.len(),
            header == header_of(lines@.take(i as int)),
            events@ == events_of(lines@.take(i as int)),
            metas@ == metas_of(lines@.take(i as int)),
        decreases lines.len() - i,
    {
        proof {
            assert(lines@.take(i + 1).drop_last() =~= lines@.take(i as int));
            assert(lines@.take(i + 1).last() == lines@[i as int]);
        }
        match read_line(lines[i].as_str()) {
            Record::Header(found) => {
                if header.is_none() {
                    header = Some(found);
                }
            },
            Record::Meta(json) => {
                metas.push(json);
            },
            Record::Event(json) => {
                events.push(json);
            },
            Record::Other => {},
        }
        i += 1;
    }
    assert(lines@.take(lines@.len() as int) =~= lines@);
    Trace { header, events, metas }
}

} // verus!
