use brawlfast::catalog::{CatalogBrawler, CatalogMap, CatalogState};
use brawlfast::json::Json;
use brawlfast::search::{
    best_suggestions, levenshtein, origin_search, score_match, search_catalog, search_next,
    top_scored_maps, SearchAction, SearchPhase,
};
use brawlfast::text::normalize_text;

fn text(s: &str) -> Json {
    Json::Text(s.to_string())
}

fn num(s: &str) -> Json {
    Json::Number(s.to_string())
}

fn obj(fields: Vec<(&str, Json)>) -> Json {
    Json::Object(fields.into_iter().map(|(k, v)| (k.to_string(), v)).collect())
}

fn map(id: i64, name: &str, mode: &str) -> CatalogMap {
    CatalogMap {
        id,
        name: name.to_string(),
        mode: mode.to_string(),
        stats: None,
        team_stats: None,
        norm: normalize_text(name),
    }
}

fn brawler(id: i64, name: &str) -> CatalogBrawler {
    CatalogBrawler { id, name: name.to_string(), norm: normalize_text(name) }
}

fn empty_state() -> CatalogState {
    CatalogState { maps: vec![], brawlers: vec![], active_map_ids: vec![], loaded_at: 0 }
}

#[test]
fn normalize_strips_separators_and_case() {
    assert_eq!(normalize_text("Gem Grab"), "gemgrab");
    assert_eq!(normalize_text("gemgrab"), "gemgrab");
    assert_eq!(normalize_text("Gem-Grab"), "gemgrab");
    assert_eq!(normalize_text("Gem_Grab's\u{2019}"), "gemgrabs");
}

#[test]
fn normalize_lowercases_beyond_ascii() {
    assert_eq!(normalize_text("ÉLPRIMO"), "élprimo");
    assert_eq!(normalize_text(""), "");
}

#[test]
fn score_tiers() {
    assert_eq!(score_match("gem", "gemgrab"), Some(100));
    assert_eq!(score_match("rab", "gemgrab"), Some(80));
    assert_eq!(score_match("gemgrub", "gemgrab"), Some(50));
    assert_eq!(score_match("gxmgrub", "gemgrab"), Some(40));
    assert_eq!(score_match("gxmxrub", "gemgrab"), None);
}

#[test]
fn score_empty_is_no_match() {
    assert_eq!(score_match("", "gemgrab"), None);
    assert_eq!(score_match("gem", ""), None);
}

#[test]
fn levenshtein_kitten_sitting() {
    assert_eq!(levenshtein("kitten", "sitting"), 3);
    assert_eq!(levenshtein("", "abc"), 3);
    assert_eq!(levenshtein("abc", ""), 3);
    assert_eq!(levenshtein("same", "same"), 0);
}

#[test]
fn ranking_by_score_then_name() {
    let items = vec![
        map(1, "Zeta Gem", "Gem Grab"),
        map(2, "Gem Fort", "Gem Grab"),
        map(3, "Hard Rock Mine", "Gem Grab"),
        map(4, "Gem Keeper", "Gem Grab"),
    ];
    let r = top_scored_maps(&items, "gem", 8);
    assert_eq!(r, vec![1, 3, 0]);
    let r = top_scored_maps(&items, "gem", 2);
    assert_eq!(r, vec![1, 3]);
}

#[test]
fn stored_norm_empty_falls_back_to_name() {
    let mut m = map(7, "Snake Prairie", "Bounty");
    m.norm = String::new();
    let r = top_scored_maps(&vec![m], "snake", 8);
    assert_eq!(r, vec![0]);
}

#[test]
fn search_catalog_flags_active_maps() {
    let state = CatalogState {
        maps: vec![map(10, "Backyard Bowl", "Brawl Ball"), map(11, "Center Stage", "Brawl Ball")],
        brawlers: vec![brawler(1, "Bull"), brawler(2, "Bo")],
        active_map_ids: vec![11],
        loaded_at: 5,
    };
    let r = search_catalog(&state, "center");
    assert_eq!(r.maps.len(), 1);
    assert_eq!(r.maps[0].id, 11);
    assert!(r.maps[0].active_today);
    let r = search_catalog(&state, "b");
    assert_eq!(r.maps.len(), 1);
    assert!(!r.maps[0].active_today);
    assert_eq!(r.brawlers.iter().map(|b| b.name.as_str()).collect::<Vec<_>>(), vec!["Bo", "Bull"]);
}

#[test]
fn empty_catalog_goes_to_origin() {
    let state = empty_state();
    assert!(matches!(search_next(SearchPhase::Loaded, "brawlball", &state), SearchAction::Bootstrap));
    assert!(matches!(search_next(SearchPhase::Bootstrapped, "brawlball", &state), SearchAction::Refresh));
    assert!(matches!(search_next(SearchPhase::Refreshed, "brawlball", &state), SearchAction::Origin));
    let maps_payload = obj(vec![(
        "list",
        Json::Array(vec![
            obj(vec![("id", num("15000001")), ("name", text("Brawl Ball")), ("gameMode", obj(vec![("name", text("Brawl Ball"))]))]),
            obj(vec![("id", num("15000002")), ("name", text("Gem Fort"))]),
        ]),
    )]);
    let brawlers_payload = Json::Array(vec![obj(vec![("id", num("16000000")), ("name", text("Shelly"))])]);
    let r = origin_search("brawlball", maps_payload, brawlers_payload, vec![15000001]);
    assert_eq!(r.maps.len(), 1);
    assert_eq!(r.maps[0].name, "Brawl Ball");
    assert_eq!(r.maps[0].mode, "Brawl Ball");
    assert!(r.maps[0].active_today);
    assert!(r.brawlers.is_empty());
}

#[test]
fn search_with_hits_responds() {
    let state = CatalogState {
        maps: vec![map(10, "Backyard Bowl", "Brawl Ball")],
        brawlers: vec![brawler(1, "Bull")],
        active_map_ids: vec![],
        loaded_at: 5,
    };
    match search_next(SearchPhase::Loaded, "backyard", &state) {
        SearchAction::Respond(h) => assert_eq!(h.maps[0].id, 10),
        _ => panic!("expected hits"),
    }
    match search_next(SearchPhase::Loaded, "", &state) {
        SearchAction::Respond(h) => assert!(h.maps.is_empty() && h.brawlers.is_empty()),
        _ => panic!("expected an empty answer"),
    }
}

#[test]
fn suggestions_for_maps_and_brawlers() {
    let state = CatalogState {
        maps: vec![map(1, "A1", "m"), map(2, "A2", "m"), map(3, "A3", "m"), map(4, "A4", "m"), map(5, "A5", "m"), map(6, "A6", "m")],
        brawlers: vec![brawler(1, "Colt"), brawler(2, "Crow")],
        active_map_ids: vec![],
        loaded_at: 0,
    };
    assert_eq!(best_suggestions("map", "", &state), vec!["A1", "A2", "A3", "A4", "A5"]);
    assert_eq!(best_suggestions("brawler", "cr", &state), vec!["Crow"]);
    assert_eq!(best_suggestions("brawler", "  ", &state), vec!["Colt", "Crow"]);
}
