use vstd::prelude::*;

use crate::document::DocValue;
use crate::parser::{parse_line, parse_station, try_parse_line_status, try_parse_station_status};
use crate::query::{entity_pred, grouped, overlaps_pred, EntityHistory};
use crate::runs::{merge_runs, merged, values_of, Span, SpanValue};
use crate::store::{intervals_view, IntervalValue, MemoryStore};
use crate::types::{opt_text, LineState, LineStatus, StationState, StationStatus};

verus! {

/// The widest window that a history query may ask for, in seconds: 32 days.
pub const MAX_WINDOW_SECONDS: i64 = 32 * 86400;

/// Why a history query was refused.
#[derive(Clone, Copy, Debug, PartialEq, Eq, Structural)]
pub enum QueryError {
    /// The window is wider than `MAX_WINDOW_SECONDS`.
    RangeTooLarge,
}

/// Accepts a query window unless it is wider than `MAX_WINDOW_SECONDS`.
pub fn check_time_range(from: i64, to: i64) -> (r: Result<(), QueryError>)
    ensures
        r is Err <==> to - from > MAX_WINDOW_SECONDS,
        r matches Err(e) ==> e == QueryError::RangeTooLarge,
{
    if (to as i128) - (from as i128) > MAX_WINDOW_SECONDS as i128 {
        Err(QueryError::RangeTooLarge)
    } else {
        Ok(())
    }
}

/// The display span of one stored interval of a line, if its document parses.
pub open spec fn line_span(iv: IntervalValue) -> Option<SpanValue<(LineState, Option<Seq<char>>)>> {
    match parse_line(iv.data) {
        Some((_, entries)) => Some(SpanValue { entries, from: iv.start_time, to: iv.end_time }),
        None => None,
    }
}

/// The display spans of a line's intervals, leaving out those that do not parse.
pub open spec fn line_spans(s: Seq<IntervalValue>) -> Seq<SpanValue<(LineState, Option<Seq<char>>)>>
    decreases s.len(),
{
    if s.len() == 0 {
        Seq::empty()
    } else {
        match line_span(s.last()) {
            Some(x) => line_spans(s.drop_last()).push(x),
            None => line_spans(s.drop_last()),
        }
    }
}

/// The mode of the last of a line's intervals that parses.
pub open spec fn last_mode(s: Seq<IntervalValue>) -> Option<Seq<char>>
    decreases s.len(),
{
    if s.len() == 0 {
        None
    } else {
        match parse_line(s.last().data) {
            Some((mode, _)) => Some(mode),
            None => last_mode(s.drop_last()),
        }
    }
}

/// The display span of one stored interval of a station, if its records parse.
pub open spec fn station_span(iv: IntervalValue) -> Option<SpanValue<(StationState, Seq<char>)>> {
    if iv.data is Array {
        match parse_station(iv.data->Array_0) {
            Some(entries) => Some(SpanValue { entries, from: iv.start_time, to: iv.end_time }),
            None => None,
        }
    } else {
        None
    }
}

/// The display spans of a station's intervals, leaving out those that do not
/// parse.
pub open spec fn station_spans(s: Seq<IntervalValue>) -> Seq<SpanValue<(StationState, Seq<char>)>>
    decreases s.len(),
{
    if s.len() == 0 {
        Seq::empty()
    } else {
        match station_span(s.last()) {
            Some(x) => station_spans(s.drop_last()).push(x),
            None => station_spans(s.drop_last()),
        }
    }
}

/// A line's history as shown: spans of equal statuses, and its latest mode.
#[derive(Debug)]
pub struct LineHistory {
    pub line_id: String,
    pub history: Vec<Span<LineStatus>>,
    pub mode: Option<String>,
}

/// A station's history as shown: spans of equal disruptions.
#[derive(Debug)]
pub struct StationHistory {
    pub station_id: String,
    pub history: Vec<Span<StationStatus>>,
}

/// Builds a line's history from its intervals: each interval whose document
/// parses gives a span of its statuses, and adjacent spans with equal statuses
/// merge.
pub fn build_line_history(group: &EntityHistory) -> (r: LineHistory)
    ensures
        r.line_id@ == group.entity_id@,
        values_of(r.history@) == merged(line_spans(intervals_view(group.intervals@))),
        opt_text(r.mode) == last_mode(intervals_view(group.intervals@)),
{
    let ivs = &group.intervals;
    let ghost iv = intervals_view(ivs@);
    let mut spans: Vec<Span<LineStatus>> = Vec::new();
    let mut mode: Option<String> = None;
    let mut i: usize = 0;
    while i < ivs.len()
        invariant
            i <= ivs@.len(),
            iv == intervals_view(ivs@),
            values_of(spans@) == line_spans(iv.take(i as int)),
            opt_text(mode) == last_mode(iv.take(i as int)),
        decreases ivs@.len() - i,
    {
        let row = &ivs[i];
        proof {
            assert(iv.take(i as int + 1).drop_last() =~= iv.take(i as int));
            assert(iv.take(i as int + 1).last() == row@);
        }
        match try_parse_line_status(group.entity_id.as_str(), &row.data) {
            Some((meta, statuses)) => {
                let ghost before = spans@;
                spans.push(Span { entries: statuses, from: row.start_time, to: row.end_time });
                assert(values_of(spans@) =~= values_of(before).push(spans@.last()@));
                mode = Some(meta.mode);
            },
            None => {},
        }
        i += 1;
    }
    assert(iv.take(ivs@.len() as int) =~= iv);
    LineHistory { line_id: group.entity_id.clone(), history: merge_runs(spans), mode }
}

/// Builds a station's history from its intervals: each interval whose records
/// parse gives a span of its disruptions, and adjacent spans with equal
/// disruptions merge.
pub fn build_station_history(group: &EntityHistory) -> (r: StationHistory)
    ensures
        r.station_id@ == group.entity_id@,
        values_of(r.history@) == merged(station_spans(intervals_view(group.intervals@))),
{
    let ivs = &group.intervals;
    let ghost iv = intervals_view(ivs@);
    let mut spans: Vec<Span<StationStatus>> = Vec::new();
    let mut i: usize = 0;
    while i < ivs.len()
        invariant
            i <= ivs@.len(),
            iv == intervals_view(ivs@),
            values_of(spans@) == station_spans(iv.take(i as int)),
        decreases ivs@.len() - i,
    {
        let row = &ivs[i];
        proof {
            assert(iv.take(i as int + 1).drop_last() =~= iv.take(i as int));
            assert(iv.take(i as int + 1).last() == row@);
        }
        match &row.data {
            crate::document::Document::Array(records) => {
                assert(row.data@ == DocValue::Array(crate::document::docs_values(records@)));
                match try_parse_station_status(group.entity_id.as_str(), records) {
                    Some(statuses) => {
                        let ghost before = spans@;
                        spans.push(Span { entries: statuses, from: row.start_time, to: row.end_time });
                        assert(values_of(spans@) =~= values_of(before).push(spans@.last()@));
                    },
                    None => {},
                }
            },
            _ => {},
        }
        i += 1;
    }
    assert(iv.take(ivs@.len() as int) =~= iv);
    StationHistory { station_id: group.entity_id.clone(), history: merge_runs(spans) }
}

/// Whether `v` holds, once for each entity that has an interval in `rows`, the
/// line history built from that entity's intervals.
pub open spec fn line_histories_of(rows: Seq<IntervalValue>, v: Seq<LineHistory>) -> bool {
    &&& forall|i: int|
        0 <= i < v.len() ==> values_of(#[trigger] v[i].history@) == merged(
            line_spans(rows.filter(entity_pred(v[i].line_id@))),
        ) && opt_text(v[i].mode) == last_mode(rows.filter(entity_pred(v[i].line_id@)))
    &&& forall|i: int, j: int|
        0 <= i < v.len() && 0 <= j < v.len() && i != j ==> #[trigger] v[i].line_id@
            != #[trigger] v[j].line_id@
    &&& forall|m: int| 0 <= m < rows.len() ==> #[trigger] lists_line(v, rows[m].entity_id)
    &&& forall|i: int| 0 <= i < v.len() ==> #[trigger] has_interval(rows, v[i].line_id@)
}

/// Whether `rows` holds an interval of entity `e`.
pub open spec fn has_interval(rows: Seq<IntervalValue>, e: Seq<char>) -> bool {
    exists|m: int| 0 <= m < rows.len() && #[trigger] rows[m].entity_id == e
}

/// A nonempty group of `rows` belongs to an entity that has an interval there.
proof fn lemma_group_has_interval(rows: Seq<IntervalValue>, e: Seq<char>)
    requires
        rows.filter(entity_pred(e)).len() > 0,
    ensures
        has_interval(rows, e),
{
    let f = rows.filter(entity_pred(e));
    rows.lemma_filter_pred(entity_pred(e), 0);
    assert(f.contains(f[0]));
    rows.lemma_filter_contains_rev(entity_pred(e), f[0]);
    let m = choose|m: int| 0 <= m < rows.len() && rows[m] == f[0];
    assert(rows[m].entity_id == e);
}

/// Whether one of `v` is the history of line `e`.
pub open spec fn lists_line(v: Seq<LineHistory>, e: Seq<char>) -> bool {
    exists|i: int| 0 <= i < v.len() && #[trigger] v[i].line_id@ == e
}

/// Whether `v` holds, once for each entity that has an interval in `rows`, the
/// station history built from that entity's intervals.
pub open spec fn station_histories_of(rows: Seq<IntervalValue>, v: Seq<StationHistory>) -> bool {
    &&& forall|i: int|
        0 <= i < v.len() ==> values_of(#[trigger] v[i].history@) == merged(
            station_spans(rows.filter(entity_pred(v[i].station_id@))),
        )
    &&& forall|i: int, j: int|
        0 <= i < v.len() && 0 <= j < v.len() && i != j ==> #[trigger] v[i].station_id@
            != #[trigger] v[j].station_id@
    &&& forall|m: int| 0 <= m < rows.len() ==> #[trigger] lists_station(v, rows[m].entity_id)
    &&& forall|i: int| 0 <= i < v.len() ==> #[trigger] has_interval(rows, v[i].station_id@)
}

/// Whether one of `v` is the history of station `e`.
pub open spec fn lists_station(v: Seq<StationHistory>, e: Seq<char>) -> bool {
    exists|i: int| 0 <= i < v.len() && #[trigger] v[i].station_id@ == e
}

impl MemoryStore {
    /// The history of each line with an interval that overlaps the window from
    /// `from` to `to`; a window wider than `MAX_WINDOW_SECONDS` is refused before
    /// the store is read.
    pub fn get_line_history(&self, from: i64, to: i64) -> (r: Result<Vec<LineHistory>, QueryError>)
        ensures
            r is Err <==> to - from > MAX_WINDOW_SECONDS,
            r matches Ok(v) ==> line_histories_of(
                intervals_view(self@).filter(overlaps_pred(from, to)),
                v@,
            ),
    {
        if let Err(e) = check_time_range(from, to) {
            return Err(e);
        }
        let groups = self.get_status_history(from, to);
        let ghost rows = intervals_view(self@).filter(overlaps_pred(from, to));
        let mut out: Vec<LineHistory> = Vec::new();
        let mut i: usize = 0;
        while i < groups.len()
            invariant
                i <= groups@.len(),
                out@.len() == i,
                grouped(rows, groups@),
                forall|j: int|
                    0 <= j < i ==> (#[trigger] out@[j]).line_id@ == groups@[j].entity_id@ && values_of(
                        out@[j].history@,
                    ) == merged(line_spans(intervals_view(groups@[j].intervals@))) && opt_text(
                        out@[j].mode,
                    ) == last_mode(intervals_view(groups@[j].intervals@)),
            decreases groups@.len() - i,
        {
            let h = build_line_history(&groups[i]);
            out.push(h);
            i += 1;
        }
        assert forall|m: int| 0 <= m < rows.len() implies #[trigger] lists_line(out@, rows[m].entity_id) by {
            assert(crate::query::has_group(groups@, rows[m].entity_id));
            let g = choose|g: int| 0 <= g < groups@.len() && #[trigger] groups@[g].entity_id@ == rows[m].entity_id;
            assert(out@[g].line_id@ == rows[m].entity_id);
        }
        assert forall|a: int, b: int| 0 <= a < out@.len() && 0 <= b < out@.len() && a != b implies #[trigger] out@[a].line_id@
            != #[trigger] out@[b].line_id@ by {
            assert(out@[a].line_id@ == groups@[a].entity_id@);
            assert(out@[b].line_id@ == groups@[b].entity_id@);
        }
        assert forall|j: int| 0 <= j < out@.len() implies values_of(#[trigger] out@[j].history@) == merged(
            line_spans(rows.filter(entity_pred(out@[j].line_id@))),
        ) && opt_text(out@[j].mode) == last_mode(rows.filter(entity_pred(out@[j].line_id@))) by {
            assert(intervals_view(groups@[j].intervals@) == rows.filter(entity_pred(groups@[j].entity_id@)));
        }
        assert forall|j: int| 0 <= j < out@.len() implies #[trigger] has_interval(rows, out@[j].line_id@) by {
            assert(intervals_view(groups@[j].intervals@) == rows.filter(entity_pred(groups@[j].entity_id@)));
            assert(groups@[j].intervals@.len() > 0);
            lemma_group_has_interval(rows, groups@[j].entity_id@);
        }
        Ok(out)
    }

    /// The history of each station with an interval that overlaps the window
    /// from `from` to `to`; a window wider than `MAX_WINDOW_SECONDS` is refused
    /// before the store is read.
    pub fn get_station_history(&self, from: i64, to: i64) -> (r: Result<Vec<StationHistory>, QueryError>)
        ensures
            r is Err <==> to - from > MAX_WINDOW_SECONDS,
            r matches Ok(v) ==> station_histories_of(
                intervals_view(self@).filter(overlaps_pred(from, to)),
                v@,
            ),
    {
        if let Err(e) = check_time_range(from, to) {
            return Err(e);
        }
        let groups = self.get_status_history(from, to);
        let ghost rows = intervals_view(self@).filter(overlaps_pred(from, to));
        let mut out: Vec<StationHistory> = Vec::new();
        let mut i: usize = 0;
        while i < groups.len()
            invariant
                i <= groups@.len(),
                out@.len() == i,
                grouped(rows, groups@),
                forall|j: int|
                    0 <= j < i ==> (#[trigger] out@[j]).station_id@ == groups@[j].entity_id@ && values_of(
                        out@[j].history@,
                    ) == merged(station_spans(intervals_view(groups@[j].intervals@))),
            decreases groups@.len() - i,
        {
            let h = build_station_history(&groups[i]);
            out.push(h);
            i += 1;
        }
        assert forall|m: int| 0 <= m < rows.len() implies #[trigger] lists_station(out@, rows[m].entity_id) by {
            assert(crate::query::has_group(groups@, rows[m].entity_id));
            let g = choose|g: int| 0 <= g < groups@.len() && #[trigger] groups@[g].entity_id@ == rows[m].entity_id;
            assert(out@[g].station_id@ == rows[m].entity_id);
        }
        assert forall|a: int, b: int| 0 <= a < out@.len() && 0 <= b < out@.len() && a != b implies #[trigger] out@[a].station_id@
            != #[trigger] out@[b].station_id@ by {
            assert(out@[a].station_id@ == groups@[a].entity_id@);
            assert(out@[b].station_id@ == groups@[b].entity_id@);
        }
        assert forall|j: int| 0 <= j < out@.len() implies values_of(#[trigger] out@[j].history@) == merged(
            station_spans(rows.filter(entity_pred(out@[j].station_id@))),
        ) by {
            assert(intervals_view(groups@[j].intervals@) == rows.filter(entity_pred(groups@[j].entity_id@)));
        }
        assert forall|j: int| 0 <= j < out@.len() implies #[trigger] has_interval(rows, out@[j].station_id@) by {
            assert(intervals_view(groups@[j].intervals@) == rows.filter(entity_pred(groups@[j].entity_id@)));
            assert(groups@[j].intervals@.len() > 0);
            lemma_group_has_interval(rows, groups@[j].entity_id@);
        }
        Ok(out)
    }
}

} // verus!
