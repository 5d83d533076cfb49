use tfl_status_history::change::{ignored_fields, materially_changed, should_update_line, should_update_station};
use tfl_status_history::document::{Document, Number};
use tfl_status_history::history::{check_time_range, QueryError};
use tfl_status_history::query::{group_by_entity, group_stored_rows, GetStatusError};
use tfl_status_history::store::{transition_time, Family, HistoryInterval, MemoryStore};

fn text(s: &str) -> Document {
    Document::Text(s.to_string())
}

fn num(n: u64) -> Document {
    Document::Number(Number::PosInt(n))
}

fn obj(entries: Vec<(&str, Document)>) -> Document {
    Document::Object(entries.into_iter().map(|(k, v)| (k.to_string(), v)).collect())
}

fn severity(n: u64) -> Document {
    obj(vec![("severity", num(n))])
}

fn snapshot(entries: Vec<(&str, Document)>) -> Vec<(String, Document)> {
    entries.into_iter().map(|(k, v)| (k.to_string(), v)).collect()
}

fn rows_of<'a>(store: &'a MemoryStore, entity: &str) -> Vec<&'a HistoryInterval> {
    store.rows().iter().filter(|r| r.entity_id == entity).collect()
}

#[test]
fn ignored_field_added_keeps_single_row() {
    let mut store = MemoryStore::new();
    store.set_status_at(snapshot(vec![("A", severity(10))]), Family::Lines, 100);
    store.set_status_at(
        snapshot(vec![("A", obj(vec![("severity", num(10)), ("created", text("X"))]))]),
        Family::Lines,
        160,
    );
    let rows = rows_of(&store, "A");
    assert_eq!(rows.len(), 1);
    assert_eq!(rows[0].start_time, 100);
    assert_eq!(rows[0].end_time, None);
}

#[test]
fn changed_severity_closes_and_opens() {
    let mut store = MemoryStore::new();
    store.set_status_at(snapshot(vec![("A", severity(10))]), Family::Lines, 100);
    store.set_status_at(snapshot(vec![("A", severity(2))]), Family::Lines, 160);
    let rows = rows_of(&store, "A");
    assert_eq!(rows.len(), 2);
    assert_eq!((rows[0].start_time, rows[0].end_time), (100, Some(160)));
    assert_eq!((rows[1].start_time, rows[1].end_time), (160, None));
}

#[test]
fn range_query_returns_only_first_row() {
    let mut store = MemoryStore::new();
    store.set_status_at(snapshot(vec![("A", severity(10))]), Family::Lines, 100);
    store.set_status_at(snapshot(vec![("A", severity(2))]), Family::Lines, 160);
    let groups = store.get_status_history(50, 120);
    assert_eq!(groups.len(), 1);
    assert_eq!(groups[0].entity_id, "A");
    assert_eq!(groups[0].intervals.len(), 1);
    assert_eq!(groups[0].intervals[0].start_time, 100);
    assert_eq!(groups[0].intervals[0].end_time, Some(160));
}

#[test]
fn range_query_bounds_are_inclusive() {
    let mut store = MemoryStore::new();
    store.set_status_at(snapshot(vec![("A", severity(10))]), Family::Lines, 100);
    store.set_status_at(snapshot(vec![("A", severity(2))]), Family::Lines, 160);
    let at_end = store.get_status_history(160, 170);
    assert_eq!(at_end[0].intervals.len(), 2);
    let at_start = store.get_status_history(0, 100);
    assert_eq!(at_start[0].intervals.len(), 1);
    let before = store.get_status_history(0, 99);
    assert!(before.is_empty());
}

#[test]
fn station_disappearance_closes_without_replacement() {
    let mut store = MemoryStore::new();
    store.set_status_at(
        snapshot(vec![("S", Document::Array(vec![severity(1)]))]),
        Family::Stations,
        100,
    );
    store.set_status_at(snapshot(vec![]), Family::Stations, 160);
    let rows = rows_of(&store, "S");
    assert_eq!(rows.len(), 1);
    assert_eq!((rows[0].start_time, rows[0].end_time), (100, Some(160)));
    let later = store.get_status_history(200, 300);
    assert!(later.is_empty());
}

#[test]
fn line_absence_keeps_interval_open() {
    let mut store = MemoryStore::new();
    store.set_status_at(snapshot(vec![("A", severity(10))]), Family::Lines, 100);
    store.set_status_at(snapshot(vec![]), Family::Lines, 160);
    let rows = rows_of(&store, "A");
    assert_eq!(rows.len(), 1);
    assert_eq!(rows[0].end_time, None);
}

#[test]
fn same_document_twice_adds_no_row() {
    let mut store = MemoryStore::new();
    store.set_status_at(snapshot(vec![("A", severity(10)), ("B", severity(9))]), Family::Lines, 100);
    store.set_status_at(snapshot(vec![("A", severity(2)), ("B", severity(9))]), Family::Lines, 160);
    store.set_status_at(snapshot(vec![("A", severity(2)), ("B", severity(9))]), Family::Lines, 220);
    let a = rows_of(&store, "A");
    assert_eq!(a.len(), 2);
    assert_eq!(a[1].start_time, 160);
    assert_eq!(a[1].end_time, None);
    let b = rows_of(&store, "B");
    assert_eq!(b.len(), 1);
    assert_eq!(b[0].start_time, 100);
}

#[test]
fn at_most_one_open_interval_per_entity() {
    let mut store = MemoryStore::new();
    for (t, sev) in [(100, 10), (160, 2), (220, 10), (280, 10), (340, 6)] {
        store.set_status_at(snapshot(vec![("A", severity(sev)), ("B", severity(sev))]), Family::Stations, t);
    }
    for entity in ["A", "B"] {
        let open = rows_of(&store, entity).iter().filter(|r| r.end_time.is_none()).count();
        assert_eq!(open, 1);
    }
    assert_eq!(rows_of(&store, "A").len(), 4);
}

#[test]
fn new_entity_opens_interval() {
    let mut store = MemoryStore::new();
    store.set_status_at(snapshot(vec![("A", severity(10))]), Family::Lines, 100);
    store.set_status_at(snapshot(vec![("A", severity(10)), ("C", severity(7))]), Family::Lines, 160);
    let c = rows_of(&store, "C");
    assert_eq!(c.len(), 1);
    assert_eq!((c[0].start_time, c[0].end_time), (160, None));
}

#[test]
fn set_status_stamps_current_time() {
    let mut store = MemoryStore::new();
    store.set_status(snapshot(vec![("A", severity(10))]), Family::Lines);
    let rows = rows_of(&store, "A");
    assert_eq!(rows.len(), 1);
    assert!(rows[0].start_time > 1_600_000_000);
}

#[test]
fn from_rows_refuses_two_open_intervals() {
    let row = |t: i64, end: Option<i64>| HistoryInterval {
        entity_id: "A".to_string(),
        start_time: t,
        end_time: end,
        data: severity(1),
    };
    assert!(MemoryStore::from_rows(vec![row(1, None), row(2, None)]).is_none());
    let store = MemoryStore::from_rows(vec![row(1, Some(2)), row(2, None)]).unwrap();
    assert_eq!(store.rows().len(), 2);
}

#[test]
fn ignored_keys_are_the_volatile_ones() {
    let keys = ignored_fields();
    assert_eq!(keys, vec!["validityPeriods".to_string(), "created".to_string()]);
}

#[test]
fn documents_differing_in_ignored_keys_are_unchanged() {
    let old = obj(vec![("severity", num(10)), ("validityPeriods", Document::Array(vec![num(1)]))]);
    let new = obj(vec![("created", text("now")), ("severity", num(10))]);
    assert!(!should_update_line(&old, &new));
}

#[test]
fn nested_change_is_detected() {
    let old = obj(vec![("statuses", Document::Array(vec![obj(vec![("s", num(10)), ("created", text("a"))])]))]);
    let same = obj(vec![("statuses", Document::Array(vec![obj(vec![("created", text("b")), ("s", num(10))])]))]);
    let new = obj(vec![("statuses", Document::Array(vec![obj(vec![("s", num(9))])]))]);
    assert!(!should_update_line(&old, &same));
    assert!(should_update_line(&old, &new));
}

#[test]
fn key_set_and_array_length_changes_are_detected() {
    let ignored = ignored_fields();
    let a = obj(vec![("x", num(1))]);
    let b = obj(vec![("x", num(1)), ("y", Document::Null)]);
    assert!(materially_changed(&a, &b, &ignored));
    assert!(materially_changed(&b, &a, &ignored));
    let c = Document::Array(vec![num(1)]);
    let d = Document::Array(vec![num(1), num(1)]);
    assert!(materially_changed(&c, &d, &ignored));
    assert!(!materially_changed(&c, &c.duplicate(), &ignored));
}

#[test]
fn scalar_kinds_differ() {
    let ignored = ignored_fields();
    assert!(materially_changed(&num(1), &Document::Number(Number::NegInt(-1)), &ignored));
    assert!(materially_changed(&text("1"), &num(1), &ignored));
    assert!(materially_changed(&Document::Bool(true), &Document::Bool(false), &ignored));
    assert!(!materially_changed(&Document::Null, &Document::Null, &ignored));
    assert!(materially_changed(&Document::Array(vec![]), &obj(vec![]), &ignored));
}

#[test]
fn station_records_compare_by_position() {
    let a = vec![obj(vec![("d", text("x"))]), obj(vec![("d", text("y"))])];
    let b = vec![obj(vec![("d", text("y"))]), obj(vec![("d", text("x"))])];
    let c = vec![obj(vec![("d", text("x")), ("created", num(5))]), obj(vec![("d", text("y"))])];
    assert!(should_update_station(&a, &b));
    assert!(!should_update_station(&a, &c));
    assert!(should_update_station(&a, &vec![]));
}

#[test]
fn forty_day_window_is_rejected() {
    let day = 86_400;
    assert_eq!(check_time_range(0, 40 * day), Err(QueryError::RangeTooLarge));
    assert_eq!(check_time_range(0, 32 * day), Ok(()));
    assert_eq!(check_time_range(0, 32 * day + 1), Err(QueryError::RangeTooLarge));
    assert_eq!(check_time_range(i64::MIN, i64::MAX), Err(QueryError::RangeTooLarge));
    let store = MemoryStore::new();
    assert!(matches!(store.get_line_history(0, 40 * day), Err(QueryError::RangeTooLarge)));
    assert!(matches!(store.get_station_history(0, 40 * day), Err(QueryError::RangeTooLarge)));
}

#[test]
fn grouping_keeps_entity_order_of_rows() {
    let row = |e: &str, t: i64| HistoryInterval {
        entity_id: e.to_string(),
        start_time: t,
        end_time: None,
        data: Document::Null,
    };
    let groups = group_by_entity(vec![row("A", 1), row("B", 2), row("A", 3)]);
    assert_eq!(groups.len(), 2);
    let a = groups.iter().find(|g| g.entity_id == "A").unwrap();
    assert_eq!(a.intervals.iter().map(|r| r.start_time).collect::<Vec<_>>(), vec![1, 3]);
    let b = groups.iter().find(|g| g.entity_id == "B").unwrap();
    assert_eq!(b.intervals.len(), 1);
}

#[test]
fn stored_rows_with_unrepresentable_times_are_rejected() {
    let row = |e: &str, start: i64, end: Option<i64>| HistoryInterval {
        entity_id: e.to_string(),
        start_time: start,
        end_time: end,
        data: Document::Null,
    };
    let ok = group_stored_rows(vec![row("A", 100, Some(200)), row("A", 200, None)], 0, 1000).unwrap();
    assert_eq!(ok.len(), 1);
    match group_stored_rows(vec![row("A", 100, None), row("B", i64::MAX, None)], 0, 1000) {
        Err(GetStatusError::InvalidData { entity_id, timestamp }) => {
            assert_eq!(entity_id, "B");
            assert_eq!(timestamp, i64::MAX);
        },
        other => panic!("unexpected: {:?}", other),
    }
    match group_stored_rows(vec![row("C", 0, Some(i64::MIN))], 0, 1000) {
        Err(GetStatusError::InvalidData { entity_id, timestamp }) => {
            assert_eq!(entity_id, "C");
            assert_eq!(timestamp, i64::MIN);
        },
        other => panic!("unexpected: {:?}", other),
    }
}

fn stored(e: &str, start: i64, end: Option<i64>) -> HistoryInterval {
    HistoryInterval { entity_id: e.to_string(), start_time: start, end_time: end, data: Document::Null }
}

#[test]
fn stored_rows_out_of_time_order_come_back_sorted() {
    let groups = group_stored_rows(vec![stored("A", 150, None), stored("A", 100, Some(150))], 0, 1000).unwrap();
    assert_eq!(groups.len(), 1);
    let starts: Vec<i64> = groups[0].intervals.iter().map(|r| r.start_time).collect();
    assert_eq!(starts, vec![100, 150]);
    let two_open = group_stored_rows(vec![stored("B", 300, None), stored("B", 200, None)], 0, 1000).unwrap();
    assert_eq!(two_open[0].intervals.iter().map(|r| r.start_time).collect::<Vec<_>>(), vec![200, 300]);
    let improper = group_stored_rows(vec![stored("C", 200, Some(100))], 0, 1000).unwrap();
    assert_eq!(improper[0].intervals.len(), 1);
}

#[test]
fn transition_time_never_goes_back() {
    assert_eq!(transition_time(100, 50), 100);
    assert_eq!(transition_time(50, 100), 100);
    assert_eq!(transition_time(i64::MIN, i64::MIN), i64::MIN);
}

#[test]
fn stored_rows_are_filtered_to_the_window_in_time_order() {
    let rows = vec![
        stored("A", 100, Some(150)),
        stored("B", 120, None),
        stored("A", 150, Some(300)),
        stored("A", 300, None),
    ];
    let groups = group_stored_rows(rows, 140, 200).unwrap();
    let a = groups.iter().find(|g| g.entity_id == "A").unwrap();
    assert_eq!(a.intervals.iter().map(|r| r.start_time).collect::<Vec<_>>(), vec![100, 150]);
    assert!(groups.iter().any(|g| g.entity_id == "B"));
}

#[test]
fn from_rows_refuses_out_of_order_history() {
    assert!(MemoryStore::from_rows(vec![stored("A", 150, None), stored("A", 100, Some(150))]).is_none());
    assert!(MemoryStore::from_rows(vec![stored("A", 100, Some(160)), stored("A", 150, None)]).is_none());
    assert!(MemoryStore::from_rows(vec![stored("A", 100, Some(90))]).is_none());
    let store = MemoryStore::from_rows(vec![stored("A", 100, Some(150)), stored("A", 150, None)]).unwrap();
    assert_eq!(store.latest_time(), 150);
}

#[test]
fn latest_time_of_history() {
    assert_eq!(MemoryStore::new().latest_time(), i64::MIN);
    let mut store = MemoryStore::new();
    store.set_status_at(snapshot(vec![("A", severity(10))]), Family::Lines, 100);
    store.set_status_at(snapshot(vec![("A", severity(2))]), Family::Lines, 160);
    assert_eq!(store.latest_time(), 160);
}

#[test]
fn range_query_lists_each_entity_in_time_order() {
    let mut store = MemoryStore::new();
    for (t, sev) in [(100, 10), (160, 2), (220, 10)] {
        store.set_status_at(snapshot(vec![("A", severity(sev))]), Family::Lines, t);
    }
    let groups = store.get_status_history(0, 1000);
    let starts: Vec<i64> = groups[0].intervals.iter().map(|r| r.start_time).collect();
    assert_eq!(starts, vec![100, 160, 220]);
    let ends: Vec<Option<i64>> = groups[0].intervals.iter().map(|r| r.end_time).collect();
    assert_eq!(ends, vec![Some(160), Some(220), None]);
}

#[test]
fn clock_behind_latest_time_counts_as_latest() {
    let far_future = 4_000_000_000;
    let mut store = MemoryStore::from_rows(vec![stored("A", far_future, None)]).unwrap();
    store.set_status(snapshot(vec![("A", severity(2))]), Family::Lines);
    let rows = rows_of(&store, "A");
    assert_eq!(rows.len(), 2);
    assert_eq!(rows[0].end_time, Some(far_future));
    assert_eq!(rows[1].start_time, far_future);
}
