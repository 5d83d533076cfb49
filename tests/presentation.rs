use tfl_status_history::config::Config;
use tfl_status_history::document::{Document, Number};
use tfl_status_history::history::{build_line_history, build_station_history};
use tfl_status_history::lifecycle::{DetailsRequest, LoadedStationDetails, StoreFairing, StoreState, TflFairing};
use tfl_status_history::parser::{
    from_tfl_line_status, from_tfl_station_status, try_parse_line_status, try_parse_station_status,
};
use tfl_status_history::query::EntityHistory;
use tfl_status_history::runs::{merge_runs, sort_entries, Span};
use tfl_status_history::stations::{select_stations, station_names, StopPointDetails, StopPointModeResponse};
use tfl_status_history::store::{Family, HistoryInterval, MemoryStore};
use tfl_status_history::types::{text_less, LineState, LineStatus, StationState};

fn text(s: &str) -> Document {
    Document::Text(s.to_string())
}

fn num(n: u64) -> Document {
    Document::Number(Number::PosInt(n))
}

fn obj(entries: Vec<(&str, Document)>) -> Document {
    Document::Object(entries.into_iter().map(|(k, v)| (k.to_string(), v)).collect())
}

fn line_doc(mode: &str, statuses: Vec<(u64, Option<&str>)>) -> Document {
    let entries = statuses
        .into_iter()
        .map(|(sev, reason)| match reason {
            Some(r) => obj(vec![("statusSeverity", num(sev)), ("reason", text(r))]),
            None => obj(vec![("statusSeverity", num(sev))]),
        })
        .collect();
    obj(vec![("id", text("central")), ("modeName", text(mode)), ("lineStatuses", Document::Array(entries))])
}

fn station_record(kind: &str, description: &str) -> Document {
    obj(vec![
        ("atcoCode", text("940GZZLUOXC")),
        ("type", text(kind)),
        ("description", text(description)),
        ("created", text("2024-01-01")),
    ])
}

fn interval(entity: &str, start: i64, end: Option<i64>, data: Document) -> HistoryInterval {
    HistoryInterval { entity_id: entity.to_string(), start_time: start, end_time: end, data }
}

fn line_status(status: LineState, reason: Option<&str>) -> LineStatus {
    LineStatus { status, reason: reason.map(|r| r.to_string()) }
}

fn span(entries: Vec<LineStatus>, from: i64, to: Option<i64>) -> Span<LineStatus> {
    Span { entries, from, to }
}

#[test]
fn severity_codes_map_to_states() {
    assert_eq!(from_tfl_line_status(0), LineState::ReducedService);
    assert_eq!(from_tfl_line_status(1), LineState::Other);
    assert_eq!(from_tfl_line_status(2), LineState::Suspended);
    assert_eq!(from_tfl_line_status(3), LineState::PartSuspended);
    assert_eq!(from_tfl_line_status(4), LineState::PlannedClosure);
    assert_eq!(from_tfl_line_status(5), LineState::PartClosure);
    assert_eq!(from_tfl_line_status(6), LineState::SevereDelays);
    assert_eq!(from_tfl_line_status(7), LineState::ReducedService);
    assert_eq!(from_tfl_line_status(9), LineState::MinorDelays);
    assert_eq!(from_tfl_line_status(10), LineState::GoodService);
    assert_eq!(from_tfl_line_status(20), LineState::ServiceClosed);
    assert_eq!(from_tfl_line_status(-3), LineState::Other);
}

#[test]
fn disruption_types_map_to_states() {
    assert_eq!(from_tfl_station_status("Closure"), StationState::Closure);
    assert_eq!(from_tfl_station_status("Part Closure"), StationState::PartClosure);
    assert_eq!(from_tfl_station_status("Interchange Message"), StationState::InterchangeMessage);
    assert_eq!(from_tfl_station_status("Information"), StationState::Information);
    assert_eq!(from_tfl_station_status("closure"), StationState::Other);
    assert_eq!(from_tfl_station_status(""), StationState::Other);
}

#[test]
fn line_document_parses_sorted() {
    let doc = line_doc("tube", vec![(10, None), (6, Some("signal failure")), (6, None), (9, Some("a"))]);
    let (meta, statuses) = try_parse_line_status("central", &doc).unwrap();
    assert_eq!(meta.mode, "tube");
    let got: Vec<(LineState, Option<String>)> = statuses.into_iter().map(|s| (s.status, s.reason)).collect();
    assert_eq!(
        got,
        vec![
            (LineState::SevereDelays, None),
            (LineState::SevereDelays, Some("signal failure".to_string())),
            (LineState::MinorDelays, Some("a".to_string())),
            (LineState::GoodService, None),
        ]
    );
}

#[test]
fn line_document_null_reason_is_absent() {
    let doc = obj(vec![
        ("modeName", text("dlr")),
        ("lineStatuses", Document::Array(vec![obj(vec![("statusSeverity", num(10)), ("reason", Document::Null)])])),
    ]);
    let (_, statuses) = try_parse_line_status("dlr", &doc).unwrap();
    assert_eq!(statuses.len(), 1);
    assert_eq!(statuses[0].reason, None);
}

#[test]
fn malformed_line_documents_do_not_parse() {
    let no_mode = obj(vec![("lineStatuses", Document::Array(vec![]))]);
    assert!(try_parse_line_status("x", &no_mode).is_none());
    let float_severity = obj(vec![
        ("modeName", text("tube")),
        ("lineStatuses", Document::Array(vec![obj(vec![("statusSeverity", Document::Number(Number::FloatBits(0)))])])),
    ]);
    assert!(try_parse_line_status("x", &float_severity).is_none());
    let huge_severity = line_doc("tube", vec![(1 << 40, None)]);
    assert!(try_parse_line_status("x", &huge_severity).is_none());
    let bad_reason = obj(vec![
        ("modeName", text("tube")),
        ("lineStatuses", Document::Array(vec![obj(vec![("statusSeverity", num(10)), ("reason", num(3))])])),
    ]);
    assert!(try_parse_line_status("x", &bad_reason).is_none());
    assert!(try_parse_line_status("x", &Document::Array(vec![])).is_none());
}

#[test]
fn negative_severity_parses_as_other() {
    let doc = obj(vec![
        ("modeName", text("tube")),
        ("lineStatuses", Document::Array(vec![obj(vec![("statusSeverity", Document::Number(Number::NegInt(-1)))])])),
    ]);
    let (_, statuses) = try_parse_line_status("x", &doc).unwrap();
    assert_eq!(statuses[0].status, LineState::Other);
}

#[test]
fn station_records_parse_sorted() {
    let records = vec![station_record("Information", "b"), station_record("Closure", "z"), station_record("Information", "a")];
    let statuses = try_parse_station_status("940GZZLUOXC", &records).unwrap();
    let got: Vec<(StationState, String)> = statuses.into_iter().map(|s| (s.status, s.description)).collect();
    assert_eq!(
        got,
        vec![
            (StationState::Closure, "z".to_string()),
            (StationState::Information, "a".to_string()),
            (StationState::Information, "b".to_string()),
        ]
    );
    let broken = vec![station_record("Closure", "z"), obj(vec![("type", text("Closure"))])];
    assert!(try_parse_station_status("x", &broken).is_none());
    assert_eq!(try_parse_station_status("x", &vec![]).unwrap().len(), 0);
}

#[test]
fn text_order_is_by_characters() {
    assert!(text_less(&"a".to_string(), &"b".to_string()));
    assert!(text_less(&"ab".to_string(), &"abc".to_string()));
    assert!(!text_less(&"abc".to_string(), &"ab".to_string()));
    assert!(!text_less(&"same".to_string(), &"same".to_string()));
    assert!(text_less(&"Z".to_string(), &"a".to_string()));
    assert!(text_less(&"".to_string(), &"a".to_string()));
}

#[test]
fn sorting_orders_by_state_then_reason() {
    let sorted = sort_entries(vec![
        line_status(LineState::GoodService, None),
        line_status(LineState::Suspended, Some("b")),
        line_status(LineState::Suspended, Some("a")),
        line_status(LineState::Suspended, None),
    ]);
    let reasons: Vec<Option<String>> = sorted.iter().map(|s| s.reason.clone()).collect();
    assert_eq!(reasons, vec![None, Some("a".to_string()), Some("b".to_string()), None]);
    assert_eq!(sorted[3].status, LineState::GoodService);
}

#[test]
fn equal_run_merges_into_one_span() {
    let good = || vec![line_status(LineState::GoodService, None)];
    let merged = merge_runs(vec![span(good(), 100, Some(160)), span(good(), 160, Some(220)), span(good(), 220, None)]);
    assert_eq!(merged.len(), 1);
    assert_eq!(merged[0].from, 100);
    assert_eq!(merged[0].to, None);
}

#[test]
fn different_spans_stay_apart() {
    let good = || vec![line_status(LineState::GoodService, None)];
    let bad = || vec![line_status(LineState::SevereDelays, Some("x"))];
    let merged = merge_runs(vec![
        span(good(), 100, Some(160)),
        span(bad(), 160, Some(220)),
        span(bad(), 220, Some(280)),
        span(good(), 280, None),
    ]);
    let bounds: Vec<(i64, Option<i64>)> = merged.iter().map(|s| (s.from, s.to)).collect();
    assert_eq!(bounds, vec![(100, Some(160)), (160, Some(280)), (280, None)]);
    assert!(merge_runs(Vec::<Span<LineStatus>>::new()).is_empty());
}

#[test]
fn line_history_merges_parsed_statuses_and_drops_unparseable() {
    let group = EntityHistory {
        entity_id: "central".to_string(),
        intervals: vec![
            interval("central", 100, Some(160), line_doc("tube", vec![(10, None)])),
            interval("central", 160, Some(220), obj(vec![("junk", num(1))])),
            interval("central", 220, Some(280), obj(vec![
                ("created", text("later")),
                ("modeName", text("tube")),
                ("lineStatuses", Document::Array(vec![obj(vec![("statusSeverity", num(10)), ("created", text("t"))])])),
            ])),
            interval("central", 280, None, line_doc("elizabeth-line", vec![(6, Some("delays"))])),
        ],
    };
    let history = build_line_history(&group);
    assert_eq!(history.line_id, "central");
    assert_eq!(history.mode, Some("elizabeth-line".to_string()));
    let bounds: Vec<(i64, Option<i64>)> = history.history.iter().map(|s| (s.from, s.to)).collect();
    assert_eq!(bounds, vec![(100, Some(280)), (280, None)]);
    assert_eq!(history.history[1].entries[0].status, LineState::SevereDelays);
}

#[test]
fn station_history_merges_parsed_records() {
    let group = EntityHistory {
        entity_id: "S".to_string(),
        intervals: vec![
            interval("S", 100, Some(160), Document::Array(vec![station_record("Closure", "lift")])),
            interval("S", 160, Some(220), Document::Array(vec![station_record("Closure", "lift")])),
            interval("S", 220, Some(230), text("not records")),
            interval("S", 230, Some(300), Document::Array(vec![station_record("Information", "works")])),
        ],
    };
    let history = build_station_history(&group);
    assert_eq!(history.station_id, "S");
    let bounds: Vec<(i64, Option<i64>)> = history.history.iter().map(|s| (s.from, s.to)).collect();
    assert_eq!(bounds, vec![(100, Some(220)), (230, Some(300))]);
}

#[test]
fn store_history_query_builds_each_line() {
    let mut store = MemoryStore::new();
    store.set_status_at(
        vec![("central".to_string(), line_doc("tube", vec![(10, None)])), ("dlr".to_string(), line_doc("dlr", vec![(9, Some("x"))]))],
        Family::Lines,
        100,
    );
    store.set_status_at(
        vec![("central".to_string(), line_doc("tube", vec![(6, None)])), ("dlr".to_string(), line_doc("dlr", vec![(9, Some("x"))]))],
        Family::Lines,
        160,
    );
    let histories = store.get_line_history(0, 1000).unwrap();
    assert_eq!(histories.len(), 2);
    let central = histories.iter().find(|h| h.line_id == "central").unwrap();
    assert_eq!(central.history.len(), 2);
    assert_eq!(central.mode, Some("tube".to_string()));
    let dlr = histories.iter().find(|h| h.line_id == "dlr").unwrap();
    assert_eq!(dlr.history.len(), 1);
    assert_eq!((dlr.history[0].from, dlr.history[0].to), (100, None));
}

#[test]
fn store_station_history_query() {
    let mut store = MemoryStore::new();
    store.set_status_at(
        vec![("S".to_string(), Document::Array(vec![station_record("Closure", "lift")]))],
        Family::Stations,
        100,
    );
    store.set_status_at(vec![], Family::Stations, 160);
    let histories = store.get_station_history(0, 1000).unwrap();
    assert_eq!(histories.len(), 1);
    assert_eq!((histories[0].history[0].from, histories[0].history[0].to), (100, Some(160)));
    assert!(store.get_station_history(161, 1000).unwrap().is_empty());
}

#[test]
fn only_stations_in_their_own_right_are_kept() {
    let point = |id: &str, name: &str, naptan: Option<&str>| StopPointDetails {
        id: id.to_string(),
        common_name: name.to_string(),
        station_naptan: naptan.map(|n| n.to_string()),
    };
    let tube = StopPointModeResponse { stop_points: vec![point("A", "Alpha", Some("A")), point("B1", "Beta entrance", Some("B"))] };
    let rail = StopPointModeResponse { stop_points: vec![point("C", "Gamma", None), point("D", "Delta", Some("D"))] };
    let stations = select_stations(tube, rail);
    let ids: Vec<String> = stations.iter().map(|p| p.id.clone()).collect();
    assert_eq!(ids, vec!["A".to_string(), "D".to_string()]);
    let names = station_names(&stations);
    assert_eq!(names, vec![("A".to_string(), "Alpha".to_string()), ("D".to_string(), "Delta".to_string())]);
}

#[test]
fn configured_origins_are_allowed() {
    let config = Config { cors_origins: vec!["https://a.example".to_string()], tfl_api_key: None };
    assert!(config.allows_origin(&"https://a.example".to_string()));
    assert!(!config.allows_origin(&"https://b.example".to_string()));
    let empty = Config { cors_origins: vec![], tfl_api_key: Some("k".to_string()) };
    assert!(!empty.allows_origin(&"https://a.example".to_string()));
}

#[test]
fn store_fairing_lifecycle() {
    let mut fairing = StoreFairing::new();
    assert_eq!(fairing.state(), StoreState::Unopened);
    assert!(fairing.on_ignite(true));
    assert_eq!(fairing.state(), StoreState::Open);
    assert!(!fairing.on_ignite(true));
    assert!(fairing.on_shutdown());
    assert_eq!(fairing.state(), StoreState::Closed);
    assert!(!fairing.on_shutdown());
    let mut failed = StoreFairing::new();
    assert!(!failed.on_ignite(false));
    assert_eq!(failed.state(), StoreState::Failed);
    assert!(!failed.on_shutdown());
}

#[test]
fn tfl_fairing_starts_once() {
    let mut fairing = TflFairing::new();
    assert!(fairing.on_liftoff());
    assert!(!fairing.on_liftoff());
}

#[test]
fn station_details_load_once() {
    let mut details = LoadedStationDetails::new();
    assert!(matches!(details.get_details(), DetailsRequest::Load));
    assert!(matches!(details.get_details(), DetailsRequest::Busy));
    details.finish_load(Err("down".to_string()));
    assert!(matches!(details.get_details(), DetailsRequest::Load));
    let point = StopPointDetails { id: "A".to_string(), common_name: "Alpha".to_string(), station_naptan: Some("A".to_string()) };
    details.finish_load(Ok(vec![point]));
    match details.get_details() {
        DetailsRequest::Ready(v) => assert_eq!(v[0].common_name, "Alpha"),
        other => panic!("unexpected: {:?}", other),
    }
    assert!(matches!(details.get_details(), DetailsRequest::Ready(_)));
}
