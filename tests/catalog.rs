use brawlfast::cache::{
    bootstrap_snapshot, brawler_detail_key, detail_from_cache, elapsed_ms, extract_id, json_text_response,
    map_detail_key, map_detail_path, origin_status_ok, should_cache_detail, DetailStep,
};
use brawlfast::catalog::{
    catalog_age_ms, catalog_from_store, mode_name, parse_active_events, parse_catalog_maps,
    resolve_active_map_ids, warm_concurrency, warm_due, warm_interval_secs, ActiveEvent,
};
use brawlfast::json::{list_items, to_i64, Json};
use brawlfast::text::decimal_text;

fn text(s: &str) -> Json {
    Json::Text(s.to_string())
}

fn num(s: &str) -> Json {
    Json::Number(s.to_string())
}

fn obj(fields: Vec<(&str, Json)>) -> Json {
    Json::Object(fields.into_iter().map(|(k, v)| (k.to_string(), v)).collect())
}

fn event(id: i64, start: Option<i64>, end: Option<i64>) -> ActiveEvent {
    ActiveEvent { map_id: Some(id), start_ms: start, end_ms: end }
}

#[test]
fn active_window_filtering() {
    let now = 1_000;
    let events = vec![event(5, Some(500), Some(2_000)), event(3, Some(100), Some(900)), event(5, Some(0), Some(1_000))];
    assert_eq!(resolve_active_map_ids(&events, now), vec![5]);
}

#[test]
fn all_windows_passed_falls_back_to_every_map() {
    let events = vec![event(9, Some(1), Some(2)), event(3, Some(1), Some(2)), event(9, Some(1), Some(2))];
    assert_eq!(resolve_active_map_ids(&events, 1_000), vec![3, 9]);
}

#[test]
fn missing_bounds_count_as_current() {
    let events = vec![event(4, None, Some(2)), event(2, Some(5_000), None), ActiveEvent { map_id: None, start_ms: None, end_ms: None }];
    assert_eq!(resolve_active_map_ids(&events, 1_000), vec![2, 4]);
    assert_eq!(resolve_active_map_ids(&vec![], 1_000), Vec::<i64>::new());
}

#[test]
fn events_payload_is_read() {
    let payload = obj(vec![(
        "active",
        Json::Array(vec![obj(vec![
            ("map", obj(vec![("id", num("15000005"))])),
            ("startTime", text("2024-01-01T00:00:00.000Z")),
        ])]),
    )]);
    let ev = parse_active_events(&payload);
    assert_eq!(ev.len(), 1);
    assert_eq!(ev[0].map_id, Some(15000005));
    assert_eq!(ev[0].start_time.as_deref(), Some("2024-01-01T00:00:00.000Z"));
    assert_eq!(ev[0].end_time, None);
}

#[test]
fn list_payload_shapes() {
    let a = obj(vec![("items", Json::Array(vec![num("1")]))]);
    assert_eq!(list_items(&a).map(|v| v.len()), Some(1));
    let b = Json::Array(vec![num("1"), num("2")]);
    assert_eq!(list_items(&b).map(|v| v.len()), Some(2));
    assert!(list_items(&obj(vec![("list", text("x"))])).is_none());
}

#[test]
fn maps_payload_drops_malformed_items() {
    let payload = obj(vec![(
        "list",
        Json::Array(vec![
            obj(vec![("id", num("1")), ("name", text("Gem Fort")), ("mode", text("Gem Grab")), ("stats", Json::Array(vec![]))]),
            obj(vec![("name", text("No Id"))]),
            obj(vec![("id", text("3")), ("name", text(""))]),
            obj(vec![("id", text("4")), ("name", text("Snake Prairie"))]),
        ]),
    )]);
    let maps = parse_catalog_maps(payload);
    assert_eq!(maps.len(), 2);
    assert_eq!(maps[0].norm, "gemfort");
    assert_eq!(maps[0].mode, "Gem Grab");
    assert!(maps[0].stats.is_some());
    assert_eq!(maps[1].id, 4);
    assert_eq!(maps[1].mode, "Unknown");
}

#[test]
fn mode_from_game_mode_or_mode() {
    assert_eq!(mode_name(&obj(vec![("gameMode", text("Heist"))])), "Heist");
    assert_eq!(mode_name(&obj(vec![("mode", obj(vec![("name", text("Bounty"))]))])), "Bounty");
    assert_eq!(mode_name(&obj(vec![])), "Unknown");
}

#[test]
fn staleness_and_age() {
    let state = catalog_from_store(None, None, None, Some("1000"));
    assert_eq!(state.loaded_at, 1000);
    assert!(state.is_stale(61_000, 60_000));
    assert!(!state.is_stale(60_999, 60_000));
    let never = catalog_from_store(None, None, None, Some("junk"));
    assert_eq!(never.loaded_at, 0);
    assert!(never.is_stale(0, 60_000));
    assert_eq!(catalog_age_ms(0, 5_000), 0);
    assert_eq!(catalog_age_ms(1_000, 5_000), 4_000);
    assert_eq!(catalog_age_ms(6_000, 5_000), 0);
}

#[test]
fn stored_catalog_reads_back() {
    let maps = Json::Array(vec![obj(vec![("id", num("2")), ("name", text("Gem Fort")), ("mode", text("Gem Grab")), ("_norm", text("gemfort"))])]);
    let ids = Json::Array(vec![num("9"), num("3"), text("x"), num("9")]);
    let state = catalog_from_store(Some(maps), None, Some(ids), None);
    assert_eq!(state.maps.len(), 1);
    assert!(state.brawlers.is_empty());
    assert_eq!(state.active_map_ids, vec![3, 9]);
    assert!(state.is_active(9));
    assert!(!state.is_active(4));
}

#[test]
fn warm_trigger_and_config() {
    assert_eq!(warm_interval_secs(None), 60);
    assert_eq!(warm_interval_secs(Some("10")), 30);
    assert_eq!(warm_interval_secs(Some("120")), 120);
    assert_eq!(warm_concurrency(None), 8);
    assert_eq!(warm_concurrency(Some("0")), 1);
    assert_eq!(warm_concurrency(Some("50")), 20);
    assert_eq!(warm_concurrency(Some("-4")), 8);
    assert_eq!(warm_concurrency(Some("10000000000000000000")), 20);
    assert_eq!(warm_concurrency(Some("+3")), 3);
    assert_eq!(warm_concurrency(Some("-0")), 8);
    assert_eq!(warm_concurrency(Some("99999999999999999999")), 8);
    assert!(warm_due(0, 5, 60));
    assert!(!warm_due(1_000, 60_999, 60));
    assert!(warm_due(1_000, 61_000, 60));
}

#[test]
fn bootstrap_persists_six_keys() {
    let maps = obj(vec![(
        "items",
        Json::Array(vec![obj(vec![("id", num("7")), ("name", text("Gem Fort")), ("stats", Json::Array(vec![num("1")]))])]),
    )]);
    let brawlers = Json::Array(vec![obj(vec![("id", num("16000000")), ("name", text("Shelly"))])]);
    let (state, mut writes) = bootstrap_snapshot(maps, brawlers, vec![7], 123);
    let keys: Vec<&str> = writes.iter().map(|w| w.key.as_str()).collect();
    assert_eq!(
        keys,
        vec!["catalog:maps", "catalog:mapsLite", "catalog:brawlers", "catalog:brawlersLite", "catalog:activeMapIds", "catalog:loadedAt"]
    );
    assert!(state.maps[0].stats.is_none());
    assert_eq!(state.brawlers[0].norm, "shelly");
    assert_eq!(state.loaded_at, 123);
    assert!(matches!(&writes[5].value, Json::Number(t) if t == "123"));
    match &writes[0].value {
        Json::Array(a) => match &a[0] {
            Json::Object(fs) => {
                assert_eq!(fs[3].0, "stats");
                assert_eq!(fs.len(), 5);
            }
            _ => panic!("object expected"),
        },
        _ => panic!("array expected"),
    }
    // the stored lite maps read back as the snapshot
    let lite = writes.remove(1).value;
    let back = catalog_from_store(Some(lite), None, None, None);
    assert_eq!(back.maps[0].name, "Gem Fort");
    assert_eq!(back.maps[0].id, 7);
    assert_eq!(back.maps[0].mode, "Unknown");
    assert_eq!(back.maps[0].norm, "gemfort");
}

#[test]
fn route_ids() {
    assert_eq!(extract_id("/api/map/15000010", "/api/map/"), Some(15000010));
    assert_eq!(extract_id("/api/map/x", "/api/map/"), None);
    assert_eq!(extract_id("/api/brawler/3", "/api/map/"), None);
    assert_eq!(extract_id("/api/map/", "/api/map/"), None);
}

#[test]
fn keys_paths_and_replies() {
    assert_eq!(map_detail_key(15), "mapraw:15");
    assert_eq!(brawler_detail_key(-2), "brawlerraw:-2");
    assert_eq!(map_detail_path(0), "/maps/0");
    assert_eq!(decimal_text(i64::MIN), "-9223372036854775808");
    assert!(origin_status_ok(399));
    assert!(!origin_status_ok(400));
    assert!(should_cache_detail(200));
    assert!(!should_cache_detail(404));
    let r = json_text_response("{}", 404);
    assert_eq!(r.status, 404);
    assert_eq!(r.body, "{}");
    assert_eq!(r.headers[1], ("cache-control".to_string(), "no-store".to_string()));
    match detail_from_cache(Some("{\"a\":1}".to_string())) {
        DetailStep::Reply(h) => assert_eq!((h.status, h.body.as_str()), (200, "{\"a\":1}")),
        DetailStep::Fetch => panic!("cached"),
    }
    assert!(matches!(detail_from_cache(None), DetailStep::Fetch));
    assert_eq!(elapsed_ms(10, 4), 0);
    assert_eq!(elapsed_ms(4, 10), 6);
}

#[test]
fn integers_from_numbers_and_strings() {
    assert_eq!(to_i64(Some(&num("-42"))), Some(-42));
    assert_eq!(to_i64(Some(&text("+7"))), Some(7));
    assert_eq!(to_i64(Some(&num("4.5"))), None);
    assert_eq!(to_i64(Some(&text("9223372036854775808"))), None);
    assert_eq!(to_i64(Some(&text("-9223372036854775808"))), Some(i64::MIN));
}
