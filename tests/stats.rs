use brawlfast::catalog::{CatalogBrawler, CatalogMap};
use brawlfast::detail::{build_best_maps_from_catalog, build_fallback_teams_from_brawlers, strip_brawler_response, strip_map_response};
use brawlfast::json::{to_scaled, Json};
use brawlfast::stats::{compute_adjusted_win_rate, compute_prior_generic, resolve_brawler_name, sort_ranked, MapBrawlerEntry};
use brawlfast::text::normalize_text;

fn text(s: &str) -> Json {
    Json::Text(s.to_string())
}

fn num(s: &str) -> Json {
    Json::Number(s.to_string())
}

fn obj(fields: Vec<(&str, Json)>) -> Json {
    Json::Object(fields.into_iter().map(|(k, v)| (k.to_string(), v)).collect())
}

fn entry(name: &str, win_rate: i64, count: i64, adjusted: i64) -> MapBrawlerEntry {
    MapBrawlerEntry { name: name.to_string(), win_rate, count, use_rate: None, adjusted_win_rate: adjusted }
}

fn brawler(id: i64, name: &str) -> CatalogBrawler {
    CatalogBrawler { id, name: name.to_string(), norm: normalize_text(name) }
}

#[test]
fn zero_count_collapses_to_prior() {
    assert_eq!(compute_adjusted_win_rate(700, 0, 500), 500);
}

#[test]
fn full_weight_is_midpoint() {
    assert_eq!(compute_adjusted_win_rate(1000, 1500, 500), 750);
}

#[test]
fn adjusted_rounds_half_away_from_zero() {
    // (600 * 500 + 500 * 1500) / 2000 = 525
    assert_eq!(compute_adjusted_win_rate(600, 500, 500), 525);
    // (601 * 1 + 500 * 1500) / 1501 = 500.067..
    assert_eq!(compute_adjusted_win_rate(601, 1, 500), 500);
    assert_eq!(compute_adjusted_win_rate(-100, 1500, -100), -100);
    assert_eq!(compute_adjusted_win_rate(700, -5, 500), 500);
}

#[test]
fn prior_is_count_weighted_mean() {
    assert_eq!(compute_prior_generic(&vec![]), 500);
    assert_eq!(compute_prior_generic(&vec![(600, 100), (400, 300)]), 450);
    // counts below one weigh one
    assert_eq!(compute_prior_generic(&vec![(600, 0), (400, 1)]), 500);
}

#[test]
fn sort_ties_by_count() {
    let sorted = sort_ranked(vec![entry("a", 550, 10, 520), entry("b", 550, 50, 520), entry("c", 600, 1, 530)]);
    let names: Vec<&str> = sorted.iter().map(|e| e.name.as_str()).collect();
    assert_eq!(names, vec!["c", "b", "a"]);
}

#[test]
fn sort_by_raw_rate_before_count() {
    let sorted = sort_ranked(vec![entry("a", 540, 90, 520), entry("b", 560, 10, 520)]);
    assert_eq!(sorted[0].name, "b");
}

#[test]
fn decimals_read_in_tenths_and_hundredths() {
    assert_eq!(to_scaled(Some(&num("52.35")), 1), Some(524));
    assert_eq!(to_scaled(Some(&num("52.34")), 1), Some(523));
    assert_eq!(to_scaled(Some(&text("-1.25")), 1), Some(-13));
    assert_eq!(to_scaled(Some(&text("7")), 2), Some(700));
    assert_eq!(to_scaled(Some(&num("3.14159")), 2), Some(314));
    assert_eq!(to_scaled(Some(&text("abc")), 1), None);
    assert_eq!(to_scaled(Some(&text("")), 1), None);
    assert_eq!(to_scaled(None, 1), None);
}

#[test]
fn brawler_references_resolve() {
    let names = vec![brawler(16000000, "Shelly"), brawler(16000001, "Colt")];
    assert_eq!(resolve_brawler_name(Some(&text("Bull")), &names), Some("Bull".to_string()));
    assert_eq!(resolve_brawler_name(Some(&num("16000001")), &names), Some("Colt".to_string()));
    assert_eq!(resolve_brawler_name(Some(&obj(vec![("id", num("16000000"))])), &names), Some("Shelly".to_string()));
    assert_eq!(resolve_brawler_name(Some(&obj(vec![("name", text("Bo"))])), &names), Some("Bo".to_string()));
    assert_eq!(resolve_brawler_name(Some(&num("5")), &names), None);
    assert_eq!(resolve_brawler_name(None, &names), None);
}

#[test]
fn fallback_teams_slide_over_top_brawlers() {
    let b = vec![entry("a", 0, 10, 550), entry("b", 0, 20, 540), entry("c", 0, 31, 530), entry("d", 0, 40, 520)];
    let teams = build_fallback_teams_from_brawlers(&b);
    assert_eq!(teams.len(), 2);
    assert_eq!(teams[0].brawlers, vec!["a", "b", "c"]);
    // (550 + 540 + 530) / 3 + 15 = 555
    assert_eq!(teams[0].win_rate, 555);
    assert_eq!(teams[0].adjusted_win_rate, 555);
    // (10 + 20 + 31) / 3 = 20.33
    assert_eq!(teams[0].count, 20);
    assert_eq!(teams[1].brawlers, vec!["b", "c", "d"]);
    assert!(build_fallback_teams_from_brawlers(&b[..2].iter().map(|e| entry(&e.name, 0, 0, 0)).collect()).is_empty());
}

#[test]
fn fallback_teams_at_most_six() {
    let b: Vec<MapBrawlerEntry> = (0..10).map(|i| entry(&format!("n{}", i), 0, 1, 500)).collect();
    assert_eq!(build_fallback_teams_from_brawlers(&b).len(), 6);
}

#[test]
fn strip_map_ranks_smooths_and_synthesizes_teams() {
    let names = vec![brawler(1, "Shelly"), brawler(2, "Colt"), brawler(3, "Bull")];
    let raw = obj(vec![
        ("id", num("15000010")),
        ("name", text("Hard Rock Mine")),
        ("gameMode", obj(vec![("name", text("Gem Grab"))])),
        (
            "stats",
            Json::Array(vec![
                obj(vec![("brawler", num("1")), ("winRate", num("60")), ("count", num("1500"))]),
                obj(vec![("brawler", num("2")), ("winRate", num("40")), ("count", num("1500"))]),
                obj(vec![("brawler", num("3")), ("winRate", text("50")), ("matches", num("1500")), ("useRate", num("1.234"))]),
                obj(vec![("brawler", num("9")), ("winRate", num("70"))]),
                obj(vec![("brawler", num("1"))]),
            ]),
        ),
    ]);
    let m = strip_map_response(&raw, &names).expect("usable map");
    assert_eq!(m.map, "Hard Rock Mine");
    assert_eq!(m.mode, "Gem Grab");
    let got: Vec<(&str, i64)> = m.brawlers.iter().map(|b| (b.name.as_str(), b.adjusted_win_rate)).collect();
    assert_eq!(got, vec![("Shelly", 550), ("Bull", 500), ("Colt", 450)]);
    assert_eq!(m.brawlers[1].use_rate, Some(123));
    assert_eq!(m.teams.len(), 1);
    assert_eq!(m.teams[0].brawlers, vec!["Shelly", "Bull", "Colt"]);
    assert_eq!(m.teams[0].win_rate, 515);
}

#[test]
fn strip_map_rejects_missing_id_or_name() {
    let names = vec![];
    assert!(strip_map_response(&obj(vec![("name", text("X"))]), &names).is_none());
    assert!(strip_map_response(&obj(vec![("id", num("0")), ("name", text("X"))]), &names).is_none());
    assert!(strip_map_response(&obj(vec![("id", num("3")), ("name", text(""))]), &names).is_none());
}

#[test]
fn strip_map_keeps_team_data() {
    let names = vec![brawler(1, "Shelly")];
    let raw = obj(vec![
        ("id", num("5")),
        ("name", text("M")),
        (
            "teamStats",
            Json::Array(vec![obj(vec![
                ("brawlers", Json::Array(vec![num("1"), obj(vec![("name", text("Colt"))])])),
                ("winRate", num("55.55")),
                ("count", num("10")),
            ])]),
        ),
    ]);
    let m = strip_map_response(&raw, &names).expect("usable map");
    assert_eq!(m.mode, "Unknown");
    assert_eq!(m.teams.len(), 1);
    assert_eq!(m.teams[0].brawlers, vec!["Shelly", "Colt"]);
    assert_eq!(m.teams[0].win_rate, 556);
    // (556 * 10 + 556 * 1500) / 1510
    assert_eq!(m.teams[0].adjusted_win_rate, 556);
}

#[test]
fn strip_brawler_uses_own_best_maps() {
    let raw = obj(vec![
        ("id", num("16000000")),
        ("name", text("Shelly")),
        (
            "bestMaps",
            Json::Array(vec![
                obj(vec![
                    ("map", obj(vec![("name", text("A")), ("gameMode", obj(vec![("name", text("Bounty"))]))])),
                    ("winRate", num("61")),
                    ("count", num("3000")),
                ]),
                obj(vec![("name", text("B")), ("mode", text("Heist")), ("winRate", num("66")), ("matches", num("100"))]),
            ]),
        ),
    ]);
    let b = strip_brawler_response(&raw, 16000000, &vec![], &vec![]).expect("usable brawler");
    assert_eq!(b.name, "Shelly");
    let got: Vec<(&str, &str, i64, i64, i64)> =
        b.best_maps.iter().map(|e| (e.map.as_str(), e.mode.as_str(), e.win_rate, e.count, e.adjusted_win_rate)).collect();
    // prior: (610 * 3000 + 660 * 100) / 3100 = 611.6 -> 612
    // A: (610 * 3000 + 612 * 1500) / 4500 = 610.7 -> 611; B: (660 * 100 + 612 * 1500) / 1600 = 615
    assert_eq!(got, vec![("B", "Heist", 660, 100, 615), ("A", "Bounty", 610, 3000, 611)]);
}

#[test]
fn best_maps_from_catalog_by_id_and_name() {
    let stats_a = vec![
        obj(vec![("brawler", obj(vec![("id", num("7"))])), ("winRate", num("60")), ("count", num("1500"))]),
        obj(vec![("brawler", num("8")), ("winRate", num("40")), ("count", num("1500"))]),
    ];
    let stats_b = vec![obj(vec![("brawler", text("EL PRIMO")), ("winRate", num("70")), ("count", num("0"))])];
    let maps = vec![
        CatalogMap { id: 1, name: "A".to_string(), mode: "Gem Grab".to_string(), stats: Some(stats_a), team_stats: None, norm: "a".to_string() },
        CatalogMap { id: 2, name: "B".to_string(), mode: "Heist".to_string(), stats: Some(stats_b), team_stats: None, norm: "b".to_string() },
        CatalogMap { id: 3, name: "C".to_string(), mode: "Heist".to_string(), stats: None, team_stats: None, norm: "c".to_string() },
    ];
    let r = build_best_maps_from_catalog(7, "El Primo", &maps, &vec![]);
    let got: Vec<(&str, i64, i64, i64)> = r.iter().map(|e| (e.map.as_str(), e.win_rate, e.count, e.adjusted_win_rate)).collect();
    // map A: prior 50.0, (600 * 1500 + 500 * 1500) / 3000 = 550; map B: prior 70.0, count 0
    assert_eq!(got, vec![("B", 700, 0, 700), ("A", 600, 1500, 550)]);
}

#[test]
fn decimals_with_exponents() {
    assert_eq!(to_scaled(Some(&text("1e2")), 1), Some(1000));
    assert_eq!(to_scaled(Some(&num("5.5e1")), 1), Some(550));
    assert_eq!(to_scaled(Some(&num("1E-6")), 1), Some(0));
    assert_eq!(to_scaled(Some(&text("1.25e-1")), 2), Some(13));
    assert_eq!(to_scaled(Some(&text("-2.5e-2")), 2), Some(-3));
    assert_eq!(to_scaled(Some(&text("4.5e+0")), 0), Some(5));
    assert_eq!(to_scaled(Some(&text("0e400")), 1), Some(0));
    assert_eq!(to_scaled(Some(&text("1e400")), 1), None);
    assert_eq!(to_scaled(Some(&text("1e")), 1), None);
    assert_eq!(to_scaled(Some(&text("e5")), 1), None);
}

#[test]
fn exponent_win_rate_keeps_entry() {
    let names = vec![brawler(1, "Shelly")];
    let raw = obj(vec![
        ("id", num("5")),
        ("name", text("M")),
        ("stats", Json::Array(vec![obj(vec![("brawler", num("1")), ("winRate", text("5.5e1")), ("count", num("0"))])])),
    ]);
    let m = strip_map_response(&raw, &names).expect("usable map");
    assert_eq!(m.brawlers.len(), 1);
    assert_eq!(m.brawlers[0].win_rate, 550);
}

#[test]
fn catalog_fallback_rounds_once() {
    let stats = vec![
        obj(vec![("brawler", num("7")), ("winRate", num("55.25")), ("count", num("1500"))]),
        obj(vec![("brawler", num("8")), ("winRate", num("50")), ("count", num("1500"))]),
    ];
    let maps = vec![CatalogMap { id: 1, name: "A".to_string(), mode: "Heist".to_string(), stats: Some(stats), team_stats: None, norm: "a".to_string() }];
    let r = build_best_maps_from_catalog(7, "", &maps, &vec![]);
    assert_eq!(r.len(), 1);
    assert_eq!(r[0].win_rate, 553);
    // prior 52.625 -> 52.6; (55.25 * 1500 + 52.6 * 1500) / 3000 = 53.925 -> 53.9
    assert_eq!(r[0].adjusted_win_rate, 539);
}
