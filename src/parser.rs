use vstd::prelude::*;

use crate::document::{docs_values, field, lemma_docs_values_all, DocValue, Document, Number};
use crate::runs::{sort_entries, sorted_values, values_of};
use crate::types::{
    opt_text, text_equal, LineMetadata, LineState, LineStatus, StationState, StationStatus,
};

verus! {

/// The line state that a feed severity code stands for.
pub open spec fn line_state_of(severity: i32) -> LineState {
    match severity {
        0 => LineState::ReducedService,
        2 => LineState::Suspended,
        3 => LineState::PartSuspended,
        4 => LineState::PlannedClosure,
        5 => LineState::PartClosure,
        6 => LineState::SevereDelays,
        7 => LineState::ReducedService,
        9 => LineState::MinorDelays,
        10 => LineState::GoodService,
        20 => LineState::ServiceClosed,
        _ => LineState::Other,
    }
}

/// The line state that a feed severity code stands for; code 0, a special
/// service, counts as a reduced service.
pub fn from_tfl_line_status(status_severity: i32) -> (r: LineState)
    ensures
        r == line_state_of(status_severity),
{
    match status_severity {
        0 => LineState::ReducedService,
        2 => LineState::Suspended,
        3 => LineState::PartSuspended,
        4 => LineState::PlannedClosure,
        5 => LineState::PartClosure,
        6 => LineState::SevereDelays,
        7 => LineState::ReducedService,
        9 => LineState::MinorDelays,
        10 => LineState::GoodService,
        20 => LineState::ServiceClosed,
        _ => LineState::Other,
    }
}

/// The station state that a feed disruption type stands for.
pub open spec fn station_state_of(t: Seq<char>) -> StationState {
    if t == "Closure"@ {
        StationState::Closure
    } else if t == "Part Closure"@ {
        StationState::PartClosure
    } else if t == "Interchange Message"@ {
        StationState::InterchangeMessage
    } else if t == "Information"@ {
        StationState::Information
    } else {
        StationState::Other
    }
}

/// The station state that a feed disruption type stands for.
pub fn from_tfl_station_status(tfl_type: &str) -> (r: StationState)
    ensures
        r == station_state_of(tfl_type@),
{
    if text_equal(tfl_type, "Closure") {
        StationState::Closure
    } else if text_equal(tfl_type, "Part Closure") {
        StationState::PartClosure
    } else if text_equal(tfl_type, "Interchange Message") {
        StationState::InterchangeMessage
    } else if text_equal(tfl_type, "Information") {
        StationState::Information
    } else {
        StationState::Other
    }
}

/// The value of a number document as a 32-bit integer, if it is an integer that
/// fits.
pub open spec fn as_i32(d: DocValue) -> Option<i32> {
    match d {
        DocValue::Number(Number::PosInt(u)) => if u <= i32::MAX as u64 {
            Some(u as i32)
        } else {
            None
        },
        DocValue::Number(Number::NegInt(n)) => if n >= i32::MIN as i64 {
            Some(n as i32)
        } else {
            None
        },
        _ => None,
    }
}

/// An optional text field: absent or null gives no text, a text gives itself,
/// and anything else does not parse.
pub open spec fn optional_text(d: Option<DocValue>) -> Option<Option<Seq<char>>> {
    match d {
        None => Some(None),
        Some(DocValue::Null) => Some(None),
        Some(DocValue::Text(t)) => Some(Some(t)),
        _ => None,
    }
}

/// A required text field.
pub open spec fn required_text(d: Option<DocValue>) -> Option<Seq<char>> {
    match d {
        Some(DocValue::Text(t)) => Some(t),
        _ => None,
    }
}

/// One entry of a line's `lineStatuses`: an object with an integer
/// `statusSeverity` and an optional text `reason`.
pub open spec fn parse_line_entry(d: DocValue) -> Option<(LineState, Option<Seq<char>>)> {
    if d is Object {
        match (field(d, "statusSeverity"@), optional_text(field(d, "reason"@))) {
            (Some(sv), Some(reason)) => match as_i32(sv) {
                Some(n) => Some((line_state_of(n), reason)),
                None => None,
            },
            _ => None,
        }
    } else {
        None
    }
}

/// One disruption record of a station: an object with text fields `atcoCode`,
/// `type` and `description`.
pub open spec fn parse_station_record(d: DocValue) -> Option<(StationState, Seq<char>)> {
    if d is Object {
        match (
            required_text(field(d, "atcoCode"@)),
            required_text(field(d, "type"@)),
            required_text(field(d, "description"@)),
        ) {
            (Some(_), Some(t), Some(desc)) => Some((station_state_of(t), desc)),
            _ => None,
        }
    } else {
        None
    }
}

/// The line entries of `s`, if each of them parses.
pub open spec fn parse_line_entries(s: Seq<DocValue>) -> Option<Seq<(LineState, Option<Seq<char>>)>>
    decreases s.len(),
{
    if s.len() == 0 {
        Some(Seq::empty())
    } else {
        match (parse_line_entries(s.drop_last()), parse_line_entry(s.last())) {
            (Some(a), Some(x)) => Some(a.push(x)),
            _ => None,
        }
    }
}

/// The station records of `s`, if each of them parses.
pub open spec fn parse_station_records(s: Seq<DocValue>) -> Option<Seq<(StationState, Seq<char>)>>
    decreases s.len(),
{
    if s.len() == 0 {
        Some(Seq::empty())
    } else {
        match (parse_station_records(s.drop_last()), parse_station_record(s.last())) {
            (Some(a), Some(x)) => Some(a.push(x)),
            _ => None,
        }
    }
}

/// A line's status document: its mode and its statuses in sorted order, if it
/// is an object with an array `lineStatuses` whose entries all parse and a text
/// `modeName`.
pub open spec fn parse_line(d: DocValue) -> Option<(Seq<char>, Seq<(LineState, Option<Seq<char>>)>)> {
    if d is Object {
        match (field(d, "lineStatuses"@), required_text(field(d, "modeName"@))) {
            (Some(DocValue::Array(items)), Some(mode)) => match parse_line_entries(items) {
                Some(raw) => Some((mode, sorted_values::<LineStatus>(raw))),
                None => None,
            },
            _ => None,
        }
    } else {
        None
    }
}

/// A station's disruption records, in sorted order, if each of them parses.
pub open spec fn parse_station(records: Seq<DocValue>) -> Option<Seq<(StationState, Seq<char>)>> {
    match parse_station_records(records) {
        Some(raw) => Some(sorted_values::<StationStatus>(raw)),
        None => None,
    }
}

/// Once a prefix fails to parse, every longer prefix fails too.
proof fn lemma_line_entries_fail(s: Seq<DocValue>, j: int, k: int)
    requires
        0 <= j <= k <= s.len(),
        parse_line_entries(s.take(j)) is None,
    ensures
        parse_line_entries(s.take(k)) is None,
    decreases k - j,
{
    if j < k {
        assert(s.take(j + 1).drop_last() =~= s.take(j));
        lemma_line_entries_fail(s, j + 1, k);
    }
}

/// Once a prefix fails to parse, every longer prefix fails too.
proof fn lemma_station_records_fail(s: Seq<DocValue>, j: int, k: int)
    requires
        0 <= j <= k <= s.len(),
        parse_station_records(s.take(j)) is None,
    ensures
        parse_station_records(s.take(k)) is None,
    decreases k - j,
{
    if j < k {
        assert(s.take(j + 1).drop_last() =~= s.take(j));
        lemma_station_records_fail(s, j + 1, k);
    }
}

/// The integer that `d` holds, if it is one that fits in 32 bits.
fn doc_as_i32(d: &Document) -> (r: Option<i32>)
    ensures
        r == as_i32(d@),
{
    match d {
        Document::Number(Number::PosInt(u)) => {
            if *u <= i32::MAX as u64 {
                Some(*u as i32)
            } else {
                None
            }
        },
        Document::Number(Number::NegInt(n)) => {
            if *n >= i32::MIN as i64 {
                Some(*n as i32)
            } else {
                None
            }
        },
        _ => None,
    }
}

/// The text under `key` of `d`, if `d` holds one there.
fn required_text_field(d: &Document, key: &str) -> (r: Option<String>)
    ensures
        opt_text(r) == required_text(field(d@, key@)),
{
    match d.get(key) {
        Some(v) => match v.as_text() {
            Some(t) => Some(t.clone()),
            None => None,
        },
        None => None,
    }
}

/// One entry of a line's `lineStatuses`.
fn parse_line_entry_doc(d: &Document) -> (r: Option<LineStatus>)
    ensures
        match r {
            Some(s) => parse_line_entry(d@) == Some(s@),
            None => parse_line_entry(d@) is None,
        },
{
    match d {
        Document::Object(_) => {},
        _ => {
            return None;
        },
    }
    let reason = match d.get("reason") {
        None => None,
        Some(Document::Null) => None,
        Some(Document::Text(t)) => Some(t.clone()),
        Some(_) => {
            return None;
        },
    };
    let severity = match d.get("statusSeverity") {
        Some(v) => match doc_as_i32(v) {
            Some(n) => n,
            None => {
                return None;
            },
        },
        None => {
            return None;
        },
    };
    Some(LineStatus { status: from_tfl_line_status(severity), reason })
}

/// One disruption record of a station.
fn parse_station_record_doc(d: &Document) -> (r: Option<StationStatus>)
    ensures
        match r {
            Some(s) => parse_station_record(d@) == Some(s@),
            None => parse_station_record(d@) is None,
        },
{
    match d {
        Document::Object(_) => {},
        _ => {
            return None;
        },
    }
    let atco = required_text_field(d, "atcoCode");
    let kind = required_text_field(d, "type");
    let description = required_text_field(d, "description");
    match (atco, kind, description) {
        (Some(_), Some(kind), Some(description)) => Some(
            StationStatus { status: from_tfl_station_status(kind.as_str()), description },
        ),
        _ => None,
    }
}

/// Reads a line's status document: its metadata and its statuses, sorted.
/// A document of another shape gives nothing.
pub fn try_parse_line_status(_line_id: &str, value: &Document) -> (r: Option<(LineMetadata, Vec<LineStatus>)>)
    ensures
        match r {
            Some((meta, statuses)) => parse_line(value@) == Some((meta.mode@, values_of(statuses@))),
            None => parse_line(value@) is None,
        },
{
    match value {
        Document::Object(_) => {},
        _ => {
            return None;
        },
    }
    let items = match value.get("lineStatuses") {
        Some(Document::Array(items)) => items,
        _ => {
            return None;
        },
    };
    let mode = match required_text_field(value, "modeName") {
        Some(m) => m,
        None => {
            return None;
        },
    };
    let ghost vals = docs_values(items@);
    proof {
        lemma_docs_values_all(items@);
    }
    assert(field(value@, "lineStatuses"@) == Some(DocValue::Array(vals)));
    let mut raw: Vec<LineStatus> = Vec::new();
    let mut i: usize = 0;
    while i < items.len()
        invariant
            i <= items@.len(),
            vals == docs_values(items@),
            vals.len() == items@.len(),
            forall|m: int| 0 <= m < items@.len() ==> #[trigger] vals[m] == items@[m]@,
            parse_line_entries(vals.take(i as int)) == Some(values_of(raw@)),
            value@ is Object,
            field(value@, "lineStatuses"@) == Some(DocValue::Array(vals)),
            required_text(field(value@, "modeName"@)) == Some(mode@),
        decreases items@.len() - i,
    {
        let entry = parse_line_entry_doc(&items[i]);
        proof {
            assert(vals.take(i as int + 1).drop_last() =~= vals.take(i as int));
            assert(vals.take(i as int + 1).last() == items@[i as int]@);
        }
        match entry {
            Some(s) => {
                let ghost before = raw@;
                raw.push(s);
                assert(values_of(raw@) =~= values_of(before).push(s@));
            },
            None => {
                proof {
                    lemma_line_entries_fail(vals, i as int + 1, vals.len() as int);
                    assert(vals.take(vals.len() as int) =~= vals);
                }
                return None;
            },
        }
        i += 1;
    }
    assert(vals.take(vals.len() as int) =~= vals);
    let statuses = sort_entries(raw);
    Some((LineMetadata { mode }, statuses))
}

/// Reads a station's disruption records, sorted; if one of them does not parse,
/// gives nothing.
pub fn try_parse_station_status(_station_id: &str, values: &Vec<Document>) -> (r: Option<Vec<StationStatus>>)
    ensures
        match r {
            Some(v) => parse_station(docs_values(values@)) == Some(values_of(v@)),
            None => parse_station(docs_values(values@)) is None,
        },
{
    let ghost vals = docs_values(values@);
    proof {
        lemma_docs_values_all(values@);
    }
    let mut raw: Vec<StationStatus> = Vec::new();
    let mut i: usize = 0;
    while i < values.len()
        invariant
            i <= values@.len(),
            vals == docs_values(values@),
            vals.len() == values@.len(),
            forall|m: int| 0 <= m < values@.len() ==> #[trigger] vals[m] == values@[m]@,
            parse_station_records(vals.take(i as int)) == Some(values_of(raw@)),
        decreases values@.len() - i,
    {
        let record = parse_station_record_doc(&values[i]);
        proof {
            assert(vals.take(i as int + 1).drop_last() =~= vals.take(i as int));
            assert(vals.take(i as int + 1).last() == values@[i as int]@);
        }
        match record {
            Some(s) => {
                let ghost before = raw@;
                raw.push(s);
                assert(values_of(raw@) =~= values_of(before).push(s@));
            },
            None => {
                proof {
                    lemma_station_records_fail(vals, i as int + 1, vals.len() as int);
                    assert(vals.take(vals.len() as int) =~= vals);
                }
                return None;
            },
        }
        i += 1;
    }
    assert(vals.take(vals.len() as int) =~= vals);
    Some(sort_entries(raw))
}

} // verus!
