//! The catalog snapshot: maps, brawlers, active-rotation map ids and the
//! time of the last load, and how it is read from upstream payloads.
use vstd::prelude::*;
use crate::json::{
    Json, array_member, get_spec, int_of, list_items_spec, take_list_items, take_two_arrays,
    to_i64,
};
use crate::text::{
    all_digits, chars_of, decimal_integer, digits_value, is_digit, lemma_digits_prefix_grows, normalize_text, normalized,
    parse_i64,
};

verus! {

/// A map of the catalog. `stats` and `team_stats` are the raw per-brawler
/// and per-team statistics arrays; the lite projection has neither.
pub struct CatalogMap {
    pub id: i64,
    pub name: String,
    pub mode: String,
    pub stats: Option<Vec<Json>>,
    pub team_stats: Option<Vec<Json>>,
    pub norm: String,
}

/// A brawler of the catalog.
pub struct CatalogBrawler {
    pub id: i64,
    pub name: String,
    pub norm: String,
}

impl CatalogMap {
    /// `norm` is the normalised form of `name`.
    pub open spec fn wf(&self) -> bool {
        self.norm@ == normalized(self.name@)
    }
}

impl CatalogBrawler {
    /// `norm` is the normalised form of `name`.
    pub open spec fn wf(&self) -> bool {
        self.norm@ == normalized(self.name@)
    }
}

/// The text of a string member.
pub open spec fn text_member(j: Json, key: Seq<char>) -> Option<Seq<char>> {
    match get_spec(j, key) {
        Some(Json::Text(s)) => Some(s@),
        _ => None,
    }
}

/// The text of a string value.
pub open spec fn text_value(j: Json) -> Option<Seq<char>> {
    match j {
        Json::Text(s) => Some(s@),
        _ => None,
    }
}

/// A mode given either as an object with a string `name` or as a string.
pub open spec fn mode_text(v: Option<Json>) -> Option<Seq<char>> {
    match v {
        Some(j) => match text_member(j, "name"@) {
            Some(s) => Some(s),
            None => text_value(j),
        },
        None => None,
    }
}

/// The mode of a map document: from `gameMode`, else from `mode`, else
/// `Unknown`.
pub open spec fn mode_name_spec(raw: Json) -> Seq<char> {
    match mode_text(get_spec(raw, "gameMode"@)) {
        Some(s) => s,
        None => match mode_text(get_spec(raw, "mode"@)) {
            Some(s) => s,
            None => "Unknown"@,
        },
    }
}

fn mode_of(v: Option<&Json>) -> (r: Option<&String>)
    ensures
        r matches Some(s) ==> crate::json::opt_val(v) is Some && mode_text(crate::json::opt_val(v)) == Some(s@),
        r is None ==> mode_text(crate::json::opt_val(v)) is None,
{
    match v {
        Some(j) => {
            proof {
                reveal_strlit("name");
            }
            match j.get("name") {
                Some(Json::Text(s)) => Some(s),
                _ => j.as_text(),
            }
        },
        None => None,
    }
}

/// The mode of a map document (see `mode_name_spec`).
pub fn mode_name(raw: &Json) -> (r: String)
    ensures
        r@ == mode_name_spec(*raw),
{
    match mode_of(raw.get("gameMode")) {
        Some(s) => s.clone(),
        None => match mode_of(raw.get("mode")) {
            Some(s) => s.clone(),
            None => "Unknown".to_owned(),
        },
    }
}

/// An upstream map item is kept when it has an integer id and a non-empty
/// string name.
pub open spec fn item_kept(item: Json) -> bool {
    &&& int_of(get_spec(item, "id"@)) is Some
    &&& text_member(item, "name"@) matches Some(n) && n.len() > 0
}

/// The items that `item_kept` keeps, in order.
pub open spec fn kept_items(items: Seq<Json>) -> Seq<Json>
    decreases items.len(),
{
    if items.len() == 0 {
        Seq::empty()
    } else {
        let rest = kept_items(items.drop_last());
        if item_kept(items.last()) {
            rest.push(items.last())
        } else {
            rest
        }
    }
}

/// The items of a list payload, empty when it has none.
pub open spec fn payload_items(payload: Json) -> Seq<Json> {
    match list_items_spec(payload) {
        Some(a) => a,
        None => Seq::empty(),
    }
}

pub open spec fn opt_seq(v: Option<Vec<Json>>) -> Option<Seq<Json>> {
    match v {
        Some(a) => Some(a@),
        None => None,
    }
}

/// `m` is the catalog map that upstream item `item` describes.
pub open spec fn map_from_item(m: CatalogMap, item: Json) -> bool {
    &&& int_of(get_spec(item, "id"@)) == Some(m.id as int)
    &&& text_member(item, "name"@) == Some(m.name@)
    &&& m.mode@ == mode_name_spec(item)
    &&& opt_seq(m.stats) == array_member(item, "stats"@)
    &&& opt_seq(m.team_stats) == array_member(item, "teamStats"@)
    &&& m.wf()
}

/// `b` is the catalog brawler that upstream item `item` describes.
pub open spec fn brawler_from_item(b: CatalogBrawler, item: Json) -> bool {
    &&& int_of(get_spec(item, "id"@)) == Some(b.id as int)
    &&& text_member(item, "name"@) == Some(b.name@)
    &&& b.wf()
}

/// The id and name of an upstream item, when it is kept.
fn id_and_name(item: &Json) -> (r: Option<(i64, String)>)
    ensures
        r is Some == item_kept(*item),
        r matches Some(p) ==> int_of(get_spec(*item, "id"@)) == Some(p.0 as int) && text_member(
            *item,
            "name"@,
        ) == Some(p.1@),
{
    let id = match to_i64(item.get("id")) {
        Some(v) => v,
        None => {
            return None;
        },
    };
    match item.get("name") {
        Some(Json::Text(s)) => {
            if s.as_str().is_empty() {
                proof {
                    assert(s@.len() == 0);
                }
                None
            } else {
                proof {
                    assert(s@.len() > 0);
                }
                Some((id, s.clone()))
            }
        },
        _ => None,
    }
}

/// The catalog map that an upstream map item describes, when it is kept.
pub fn catalog_map_from_item(item: Json) -> (r: Option<CatalogMap>)
    ensures
        r is Some == item_kept(item),
        r matches Some(m) ==> map_from_item(m, item),
{
    let (id, name) = match id_and_name(&item) {
        Some(p) => p,
        None => {
            return None;
        },
    };
    let mode = mode_name(&item);
    let norm = normalize_text(name.as_str());
    proof {
        reveal_strlit("stats");
        reveal_strlit("teamStats");
        assert("stats"@.len() != "teamStats"@.len());
    }
    let (stats, team_stats) = take_two_arrays(item, "stats", "teamStats");
    Some(CatalogMap { id, name, mode, stats, team_stats, norm })
}

/// The maps of an upstream map-list payload: every kept item, in order.
pub fn parse_catalog_maps(payload: Json) -> (r: Vec<CatalogMap>)
    ensures
        r@.len() == kept_items(payload_items(payload)).len(),
        forall|k: int|
            0 <= k < r@.len() ==> map_from_item(#[trigger] r@[k], kept_items(payload_items(payload))[k]),
{
    let ghost all = payload_items(payload);
    let mut items = take_list_items(payload);
    assert(items@ == all);
    let mut out: Vec<CatalogMap> = Vec::new();
    let ghost mut i: int = 0;
    while items.len() > 0
        invariant
            0 <= i <= all.len(),
            items@ == all.skip(i),
            out@.len() == kept_items(all.take(i)).len(),
            forall|k: int| 0 <= k < out@.len() ==> map_from_item(#[trigger] out@[k], kept_items(all.take(i))[k]),
        decreases items@.len(),
    {
        let item = items.remove(0);
        proof {
            assert(item == all[i]);
            assert(all.take(i + 1).drop_last() =~= all.take(i));
            assert(all.take(i + 1).last() == all[i]);
            i = i + 1;
            assert(items@ =~= all.skip(i));
        }
        if let Some(m) = catalog_map_from_item(item) {
            out.push(m);
        }
    }
    assert(all.take(i) =~= all);
    out
}

/// The brawlers of an upstream brawler-list payload: every kept item, in order.
pub fn parse_catalog_brawlers(payload: Json) -> (r: Vec<CatalogBrawler>)
    ensures
        r@.len() == kept_items(payload_items(payload)).len(),
        forall|k: int|
            0 <= k < r@.len() ==> brawler_from_item(#[trigger] r@[k], kept_items(payload_items(payload))[k]),
{
    let ghost all = payload_items(payload);
    let mut items = take_list_items(payload);
    let mut out: Vec<CatalogBrawler> = Vec::new();
    let ghost mut i: int = 0;
    while items.len() > 0
        invariant
            0 <= i <= all.len(),
            items@ == all.skip(i),
            out@.len() == kept_items(all.take(i)).len(),
            forall|k: int| 0 <= k < out@.len() ==> brawler_from_item(#[trigger] out@[k], kept_items(all.take(i))[k]),
        decreases items@.len(),
    {
        let item = items.remove(0);
        proof {
            assert(item == all[i]);
            assert(all.take(i + 1).drop_last() =~= all.take(i));
            assert(all.take(i + 1).last() == all[i]);
            i = i + 1;
            assert(items@ =~= all.skip(i));
        }
        if let Some((id, name)) = id_and_name(&item) {
            let norm = normalize_text(name.as_str());
            out.push(CatalogBrawler { id, name, norm });
        }
    }
    assert(all.take(i) =~= all);
    out
}

/// An active event as the events feed lists it: the id of its map and the
/// texts of its start and end times.
pub struct EventWindow {
    pub map_id: Option<i64>,
    pub start_time: Option<String>,
    pub end_time: Option<String>,
}

/// An active event with its time window read as milliseconds since the epoch
/// (none where a bound is missing or does not parse).
pub struct ActiveEvent {
    pub map_id: Option<i64>,
    pub start_ms: Option<i64>,
    pub end_ms: Option<i64>,
}

/// The text of an optional string value.
pub open spec fn opt_text(v: Option<Json>) -> Option<Seq<char>> {
    match v {
        Some(Json::Text(s)) => Some(s@),
        _ => None,
    }
}

pub open spec fn opt_string(v: Option<String>) -> Option<Seq<char>> {
    match v {
        Some(s) => Some(s@),
        None => None,
    }
}

/// The elements of the `active` array of an events payload.
pub open spec fn active_items(payload: Json) -> Seq<Json> {
    match get_spec(payload, "active"@) {
        Some(Json::Array(a)) => a@,
        _ => Seq::empty(),
    }
}

/// `w` is what event item `e` says.
pub open spec fn window_of(w: EventWindow, e: Json) -> bool {
    &&& (match w.map_id {
        Some(v) => int_of(crate::json::get_opt(get_spec(e, "map"@), "id"@)) == Some(v as int),
        None => int_of(crate::json::get_opt(get_spec(e, "map"@), "id"@)) is None,
    })
    &&& opt_string(w.start_time) == opt_text(get_spec(e, "startTime"@))
    &&& opt_string(w.end_time) == opt_text(get_spec(e, "endTime"@))
}

fn opt_text_clone(v: Option<&Json>) -> (r: Option<String>)
    ensures
        opt_string(r) == opt_text(crate::json::opt_val(v)),
{
    match v {
        Some(Json::Text(s)) => Some(s.clone()),
        _ => None,
    }
}

/// The active events of an events payload, one per element of `active`.
pub fn parse_active_events(payload: &Json) -> (r: Vec<EventWindow>)
    ensures
        r@.len() == active_items(*payload).len(),
        forall|k: int| 0 <= k < r@.len() ==> window_of(#[trigger] r@[k], active_items(*payload)[k]),
{
    let mut out: Vec<EventWindow> = Vec::new();
    let items = match payload.get("active") {
        Some(Json::Array(a)) => a,
        _ => {
            return out;
        },
    };
    let mut i: usize = 0;
    while i < items.len()
        invariant
            items@ == active_items(*payload),
            i <= items@.len(),
            out@.len() == i,
            forall|k: int| 0 <= k < i ==> window_of(#[trigger] out@[k], active_items(*payload)[k]),
        decreases items@.len() - i,
    {
        let e = &items[i];
        let map_id = to_i64(crate::json::get_in(e.get("map"), "id"));
        let start_time = opt_text_clone(e.get("startTime"));
        let end_time = opt_text_clone(e.get("endTime"));
        out.push(EventWindow { map_id, start_time, end_time });
        i = i + 1;
    }
    out
}

/// An event is current at `now` when it names a map and `now` lies in its
/// window, or when either bound of its window is missing.
pub open spec fn is_current(e: ActiveEvent, now: int) -> bool {
    &&& e.map_id is Some
    &&& match (e.start_ms, e.end_ms) {
        (Some(s), Some(t)) => s <= now && now <= t,
        _ => true,
    }
}

/// The map ids of the current events.
pub open spec fn current_ids(events: Seq<ActiveEvent>, now: int) -> Set<i64> {
    Set::new(|x: i64| exists|k: int| 0 <= k < events.len() && is_current(#[trigger] events[k], now) && events[k].map_id == Some(x))
}

/// The map ids of all events.
pub open spec fn all_ids(events: Seq<ActiveEvent>) -> Set<i64> {
    Set::new(|x: i64| exists|k: int| 0 <= k < events.len() && #[trigger] events[k].map_id == Some(x))
}

/// The active map ids: those of the current events, or, when no event is
/// current, those of all events.
pub open spec fn resolved_ids(events: Seq<ActiveEvent>, now: int) -> Set<i64> {
    if exists|k: int| 0 <= k < events.len() && #[trigger] is_current(events[k], now) {
        current_ids(events, now)
    } else {
        all_ids(events)
    }
}

pub open spec fn strictly_increasing(s: Seq<i64>) -> bool {
    forall|a: int, b: int| 0 <= a < b < s.len() ==> s[a] < s[b]
}

proof fn lemma_insert_contains(before: Seq<i64>, pos: int, x: i64)
    requires
        0 <= pos <= before.len(),
    ensures
        forall|y: i64| before.insert(pos, x).contains(y) <==> (before.contains(y) || y == x),
{
    let after = before.insert(pos, x);
    assert forall|y: i64| after.contains(y) <==> (before.contains(y) || y == x) by {
        if after.contains(y) {
            let k = choose|k: int| 0 <= k < after.len() && after[k] == y;
            if k < pos {
                assert(before[k] == y);
            } else if k > pos {
                assert(before[k - 1] == y);
            }
        }
        if before.contains(y) {
            let k = choose|k: int| 0 <= k < before.len() && before[k] == y;
            if k < pos {
                assert(after[k] == y);
            } else {
                assert(after[k + 1] == y);
            }
        }
        if y == x {
            assert(after[pos] == x);
        }
    }
}

/// Inserts `x` into a strictly increasing vector unless it is there already.
pub fn insert_sorted_unique(v: &mut Vec<i64>, x: i64)
    requires
        strictly_increasing(old(v)@),
    ensures
        strictly_increasing(final(v)@),
        forall|y: i64| final(v)@.contains(y) <==> (old(v)@.contains(y) || y == x),
{
    let mut pos: usize = 0;
    while pos < v.len() && v[pos] < x
        invariant
            v@ == old(v)@,
            pos <= v@.len(),
            forall|k: int| 0 <= k < pos ==> v@[k] < x,
        decreases v@.len() - pos,
    {
        pos = pos + 1;
    }
    if pos < v.len() && v[pos] == x {
        assert(v@[pos as int] == x);
        assert(v@ == old(v)@);
        assert(forall|y: i64| v@.contains(y) <==> (old(v)@.contains(y) || y == x));
        return;
    }
    assert(v@ == old(v)@);
    let ghost before = v@;
    v.insert(pos, x);
    assert(v@ == before.insert(pos as int, x));
    proof {
        lemma_insert_contains(before, pos as int, x);
    }
    assert(forall|y: i64| v@.contains(y) <==> (old(v)@.contains(y) || y == x));
    assert(pos < before.len() ==> x < before[pos as int]);
    assert forall|a: int, b: int| 0 <= a < b < v@.len() implies v@[a] < v@[b] by {
        if b < pos {
            assert(v@[a] == before[a] && v@[b] == before[b]);
        } else if b == pos {
            assert(v@[a] == before[a]);
        } else if a < pos {
            assert(v@[a] == before[a] && v@[b] == before[b - 1]);
        } else if a == pos {
            assert(v@[b] == before[b - 1]);
        } else {
            assert(v@[a] == before[a - 1] && v@[b] == before[b - 1]);
        }
    }
}

/// The active map ids at `now` (see `resolved_ids`), deduplicated and in
/// ascending order.
pub fn resolve_active_map_ids(events: &Vec<ActiveEvent>, now: i64) -> (r: Vec<i64>)
    ensures
        strictly_increasing(r@),
        forall|x: i64| r@.contains(x) <==> resolved_ids(events@, now as int).contains(x),
{
    let mut current: Vec<i64> = Vec::new();
    let mut i: usize = 0;
    while i < events.len()
        invariant
            i <= events@.len(),
            strictly_increasing(current@),
            forall|x: i64| current@.contains(x) <==> exists|k: int| 0 <= k < i && is_current(#[trigger] events@[k], now as int) && events@[k].map_id == Some(x),
        decreases events@.len() - i,
    {
        let e = &events[i];
        if let Some(id) = e.map_id {
            let cur = match (e.start_ms, e.end_ms) {
                (Some(s), Some(t)) => s <= now && now <= t,
                _ => true,
            };
            if cur {
                insert_sorted_unique(&mut current, id);
            }
        }
        proof {
            assert forall|x: i64| current@.contains(x) <==> exists|k: int| 0 <= k < i + 1 && is_current(#[trigger] events@[k], now as int) && events@[k].map_id == Some(x) by {
                if current@.contains(x) && !(exists|k: int| 0 <= k < i && is_current(#[trigger] events@[k], now as int) && events@[k].map_id == Some(x)) {
                    assert(is_current(events@[i as int], now as int));
                }
            }
        }
        i = i + 1;
    }
    if current.len() > 0 {
        proof {
            let x = current@[0];
            assert(current@.contains(x));
            let k = choose|k: int| 0 <= k < events@.len() && is_current(#[trigger] events@[k], now as int) && events@[k].map_id == Some(x);
            assert(is_current(events@[k], now as int));
        }
        return current;
    }
    proof {
        assert forall|k: int| 0 <= k < events@.len() implies !is_current(#[trigger] events@[k], now as int) by {
            if is_current(events@[k], now as int) {
                let x = events@[k].map_id->0;
                assert(current@.contains(x));
            }
        }
    }
    let mut all: Vec<i64> = Vec::new();
    let mut i: usize = 0;
    while i < events.len()
        invariant
            i <= events@.len(),
            strictly_increasing(all@),
            forall|x: i64| all@.contains(x) <==> exists|k: int| 0 <= k < i && #[trigger] events@[k].map_id == Some(x),
        decreases events@.len() - i,
    {
        if let Some(id) = events[i].map_id {
            insert_sorted_unique(&mut all, id);
        }
        proof {
            assert forall|x: i64| all@.contains(x) <==> exists|k: int| 0 <= k < i + 1 && #[trigger] events@[k].map_id == Some(x) by {
                if all@.contains(x) && !(exists|k: int| 0 <= k < i && #[trigger] events@[k].map_id == Some(x)) {
                    assert(events@[i as int].map_id == Some(x));
                }
            }
        }
        i = i + 1;
    }
    all
}

/// Of the events around `now`: a map whose event window holds `now` is
/// active; when some event is current, every active map has a current event
/// (so a map whose only windows have passed is not active); and when no
/// event is current, every event's map is active.
pub proof fn lemma_active_window(events: Seq<ActiveEvent>, now: int)
    ensures
        forall|k: int| 0 <= k < events.len() && #[trigger] events[k].map_id is Some
            && events[k].start_ms is Some && events[k].end_ms is Some
            && events[k].start_ms->0 <= now <= events[k].end_ms->0 ==> resolved_ids(events, now).contains(events[k].map_id->0),
        (exists|k: int| 0 <= k < events.len() && #[trigger] is_current(events[k], now)) ==> forall|x: i64|
            resolved_ids(events, now).contains(x) ==> exists|k: int| 0 <= k < events.len()
                && is_current(#[trigger] events[k], now) && events[k].map_id == Some(x),
        (forall|k: int| 0 <= k < events.len() ==> !#[trigger] is_current(events[k], now)) ==> resolved_ids(events, now) == all_ids(events),
{
    assert forall|k: int| 0 <= k < events.len() && #[trigger] events[k].map_id is Some
        && events[k].start_ms is Some && events[k].end_ms is Some
        && events[k].start_ms->0 <= now <= events[k].end_ms->0 implies resolved_ids(events, now).contains(events[k].map_id->0) by {
        assert(is_current(events[k], now));
    }
}

/// The catalog snapshot: lite maps, brawlers, active-rotation map ids in
/// ascending order, and the load time in milliseconds (0: never loaded).
pub struct CatalogState {
    pub maps: Vec<CatalogMap>,
    pub brawlers: Vec<CatalogBrawler>,
    pub active_map_ids: Vec<i64>,
    pub loaded_at: i64,
}

impl CatalogState {
    /// Whether the snapshot is older than `max_age_ms` at `now`, or was
    /// never loaded.
    pub fn is_stale(&self, now: i64, max_age_ms: i64) -> (r: bool)
        ensures
            r == (self.loaded_at == 0 || now as int - self.loaded_at as int >= max_age_ms as int),
    {
        self.loaded_at == 0 || (now as i128) - (self.loaded_at as i128) >= max_age_ms as i128
    }

    /// Whether map `id` is in the active rotation.
    pub fn is_active(&self, id: i64) -> (r: bool)
        ensures
            r == self.active_map_ids@.contains(id),
    {
        let mut i: usize = 0;
        while i < self.active_map_ids.len()
            invariant
                i <= self.active_map_ids@.len(),
                forall|k: int| 0 <= k < i ==> self.active_map_ids@[k] != id,
            decreases self.active_map_ids@.len() - i,
        {
            if self.active_map_ids[i] == id {
                return true;
            }
            i = i + 1;
        }
        false
    }
}

/// The age of a snapshot loaded at `loaded_at`, at `now`: 0 when never
/// loaded, else `now - loaded_at` kept within `0..=i64::MAX`.
pub open spec fn catalog_age_spec(loaded_at: int, now: int) -> int {
    if loaded_at > 0 {
        let d = now - loaded_at;
        if d < 0 { 0 } else if d > i64::MAX { i64::MAX as int } else { d }
    } else {
        0
    }
}

/// The catalog age that a health probe reports (see `catalog_age_spec`).
pub fn catalog_age_ms(loaded_at: i64, now: i64) -> (r: i64)
    ensures
        r as int == catalog_age_spec(loaded_at as int, now as int),
{
    if loaded_at <= 0 {
        return 0;
    }
    let d = now as i128 - loaded_at as i128;
    if d < 0 {
        0
    } else if d > i64::MAX as i128 {
        i64::MAX
    } else {
        d as i64
    }
}

/// The configured integer, when `text` writes one.
pub open spec fn config_int(text: Option<Seq<char>>) -> Option<int> {
    match text {
        Some(t) => decimal_integer(t),
        None => None,
    }
}

fn parse_config(text: Option<&str>) -> (r: Option<i64>)
    ensures
        r matches Some(v) ==> config_int(crate::catalog::opt_str(text)) == Some(v as int),
        r is None ==> config_int(crate::catalog::opt_str(text)) is None,
{
    match text {
        Some(t) => parse_i64(&chars_of(t)),
        None => None,
    }
}

pub open spec fn opt_str(text: Option<&str>) -> Option<Seq<char>> {
    match text {
        Some(t) => Some(t@),
        None => None,
    }
}

/// The warm interval in seconds: the configured value, 60 when unset or
/// unreadable, and never below 30.
pub open spec fn warm_interval_spec(text: Option<Seq<char>>) -> int {
    let v = match config_int(text) {
        Some(v) => v,
        None => 60,
    };
    if v < 30 { 30 } else { v }
}

/// The warm interval in seconds (see `warm_interval_spec`).
pub fn warm_interval_secs(text: Option<&str>) -> (r: i64)
    ensures
        r as int == warm_interval_spec(opt_str(text)),
{
    let v = match parse_config(text) {
        Some(v) => v,
        None => 60,
    };
    if v < 30 { 30 } else { v }
}

/// The count that a text writes as a `usize` parse reads it: an optional
/// `+`, then at least one digit and nothing else, the value at most
/// `usize::MAX`.
pub open spec fn usize_text(t: Seq<char>) -> Option<int> {
    let ds = if t.len() > 0 && t[0] == '+' { t.drop_first() } else { t };
    if ds.len() > 0 && all_digits(ds) && digits_value(ds) <= usize::MAX {
        Some(digits_value(ds))
    } else {
        None
    }
}

/// Reads a count (see `usize_text`).
pub fn parse_usize(t: &str) -> (r: Option<usize>)
    ensures
        r matches Some(v) ==> usize_text(t@) == Some(v as int),
        r is None ==> usize_text(t@) is None,
{
    let cs = chars_of(t);
    let n = cs.len();
    let start: usize = if n > 0 && cs[0] == '+' { 1 } else { 0 };
    let ghost ds = if t@.len() > 0 && t@[0] == '+' { t@.drop_first() } else { t@ };
    assert(ds =~= cs@.subrange(start as int, n as int));
    if start == n {
        return None;
    }
    let mut acc: u128 = 0;
    let mut i: usize = start;
    while i < n
        invariant
            cs@ == t@,
            n == cs@.len(),
            start <= i <= n,
            ds == cs@.subrange(start as int, n as int),
            ds == (if t@.len() > 0 && t@[0] == '+' { t@.drop_first() } else { t@ }),
            all_digits(cs@.subrange(start as int, i as int)),
            acc == digits_value(cs@.subrange(start as int, i as int)),
            acc <= usize::MAX,
        decreases n - i,
    {
        let c = cs[i];
        let ghost pre = cs@.subrange(start as int, i as int);
        let ghost nxt = cs@.subrange(start as int, i + 1);
        assert(nxt.drop_last() =~= pre);
        if !('0' <= c && c <= '9') {
            assert(ds[i - start] == c);
            assert(!is_digit(ds[i - start]));
            return None;
        }
        assert(nxt.last() == c);
        assert(all_digits(nxt)) by {
            assert forall|k: int| 0 <= k < nxt.len() implies is_digit(#[trigger] nxt[k]) by {
                if k < pre.len() {
                    assert(nxt[k] == pre[k]);
                }
            }
        }
        let next = acc * 10 + (c as u32 - '0' as u32) as u128;
        if next > usize::MAX as u128 {
            proof {
                assert(ds.take((i + 1 - start) as int) =~= nxt);
                assert(digits_value(nxt) == 10 * digits_value(pre) + crate::text::digit_value(c));
                if all_digits(ds) {
                    lemma_digits_prefix_grows(ds, (i + 1 - start) as int);
                }
            }
            return None;
        }
        acc = next;
        i = i + 1;
    }
    Some(acc as usize)
}

/// The prefetch concurrency: the configured count, 8 when unset or
/// unreadable as a count, and clamped to `1..=20`.
pub open spec fn warm_concurrency_spec(text: Option<Seq<char>>) -> int {
    let v = match text {
        Some(t) => match usize_text(t) {
            Some(v) => v,
            None => 8,
        },
        None => 8,
    };
    if v < 1 { 1 } else if v > 20 { 20 } else { v }
}

/// The prefetch concurrency (see `warm_concurrency_spec`).
pub fn warm_concurrency(text: Option<&str>) -> (r: usize)
    ensures
        r as int == warm_concurrency_spec(opt_str(text)),
        1 <= r <= 20,
{
    let v: usize = match text {
        Some(t) => match parse_usize(t) {
            Some(v) => v,
            None => 8,
        },
        None => 8,
    };
    if v < 1 { 1 } else if v > 20 { 20 } else { v }
}

/// Whether a periodic trigger at `now` should start a warm cycle: the last
/// load is at least `interval_secs` seconds old, or there was none.
pub open spec fn warm_due_spec(loaded_at: int, now: int, interval_secs: int) -> bool {
    loaded_at <= 0 || now - loaded_at >= interval_secs * 1000
}

/// Whether a warm cycle is due (see `warm_due_spec`).
pub fn warm_due(loaded_at: i64, now: i64, interval_secs: i64) -> (r: bool)
    ensures
        r == warm_due_spec(loaded_at as int, now as int, interval_secs as int),
{
    if loaded_at <= 0 {
        return true;
    }
    (now as i128) - (loaded_at as i128) >= (interval_secs as i128) * 1000
}

/// The lite projection of a map: everything but the raw statistics arrays.
pub open spec fn is_lite_of(l: CatalogMap, m: CatalogMap) -> bool {
    &&& l.id == m.id
    &&& l.name@ == m.name@
    &&& l.mode@ == m.mode@
    &&& l.norm@ == m.norm@
    &&& l.stats is None
    &&& l.team_stats is None
}

/// The lite projection of each map, in order.
pub fn lite_projection(maps: &Vec<CatalogMap>) -> (r: Vec<CatalogMap>)
    ensures
        r@.len() == maps@.len(),
        forall|k: int| 0 <= k < r@.len() ==> is_lite_of(#[trigger] r@[k], maps@[k]),
{
    let mut out: Vec<CatalogMap> = Vec::new();
    let mut i: usize = 0;
    while i < maps.len()
        invariant
            i <= maps@.len(),
            out@.len() == i,
            forall|k: int| 0 <= k < i ==> is_lite_of(#[trigger] out@[k], maps@[k]),
        decreases maps@.len() - i,
    {
        let m = &maps[i];
        out.push(CatalogMap {
            id: m.id,
            name: m.name.clone(),
            mode: m.mode.clone(),
            stats: None,
            team_stats: None,
            norm: m.norm.clone(),
        });
        i = i + 1;
    }
    out
}

/// The integers of a stored id list, in order; elements that are not
/// integers are skipped.
pub open spec fn stored_ids(items: Seq<Json>) -> Seq<i64>
    decreases items.len(),
{
    if items.len() == 0 {
        Seq::empty()
    } else {
        let rest = stored_ids(items.drop_last());
        match int_of(Some(items.last())) {
            Some(v) => rest.push(v as i64),
            None => rest,
        }
    }
}

/// Reads a stored snapshot. Each part that is missing or unreadable reads as
/// empty: maps and brawlers as the kept items of their stored lists, active
/// ids as the integers of their list, the load time as 0.
pub fn catalog_from_store(
    maps: Option<Json>,
    brawlers: Option<Json>,
    active_ids: Option<Json>,
    loaded_at: Option<&str>,
) -> (r: CatalogState)
    ensures
        maps matches Some(j) ==> r.maps@.len() == kept_items(payload_items(j)).len() && forall|k: int|
            0 <= k < r.maps@.len() ==> map_from_item(#[trigger] r.maps@[k], kept_items(payload_items(j))[k]),
        maps is None ==> r.maps@.len() == 0,
        brawlers matches Some(j) ==> r.brawlers@.len() == kept_items(payload_items(j)).len() && forall|k: int|
            0 <= k < r.brawlers@.len() ==> brawler_from_item(#[trigger] r.brawlers@[k], kept_items(payload_items(j))[k]),
        brawlers is None ==> r.brawlers@.len() == 0,
        strictly_increasing(r.active_map_ids@),
        active_ids matches Some(j) ==> forall|x: i64| r.active_map_ids@.contains(x) <==> stored_ids(payload_items(j)).contains(x),
        active_ids is None ==> r.active_map_ids@.len() == 0,
        r.loaded_at as int == match config_int(opt_str(loaded_at)) {
            Some(v) => v,
            None => 0,
        },
{
    let maps = match maps {
        Some(j) => parse_catalog_maps(j),
        None => Vec::new(),
    };
    let brawlers = match brawlers {
        Some(j) => parse_catalog_brawlers(j),
        None => Vec::new(),
    };
    let mut ids: Vec<i64> = Vec::new();
    match active_ids {
        Some(j) => {
            let ghost all = payload_items(j);
            let items = take_list_items(j);
            let mut i: usize = 0;
            while i < items.len()
                invariant
                    items@ == all,
                    i <= items@.len(),
                    strictly_increasing(ids@),
                    forall|x: i64| ids@.contains(x) <==> stored_ids(all.take(i as int)).contains(x),
                decreases items@.len() - i,
            {
                let ghost pre = stored_ids(all.take(i as int));
                assert(all.take(i + 1).drop_last() =~= all.take(i as int));
                if let Some(v) = to_i64(Some(&items[i])) {
                    insert_sorted_unique(&mut ids, v);
                    assert forall|x: i64| ids@.contains(x) <==> stored_ids(all.take(i + 1)).contains(x) by {
                        assert(stored_ids(all.take(i + 1)) == pre.push(v));
                        if x == v {
                            assert(pre.push(v)[pre.len() as int] == v);
                        }
                        if pre.push(v).contains(x) && x != v {
                            let k = choose|k: int| 0 <= k < pre.push(v).len() && pre.push(v)[k] == x;
                            assert(pre[k] == x);
                        }
                        if pre.contains(x) {
                            let k = choose|k: int| 0 <= k < pre.len() && pre[k] == x;
                            assert(pre.push(v)[k] == x);
                        }
                    }
                } else {
                    assert(stored_ids(all.take(i + 1)) == pre);
                }
                i = i + 1;
            }
            assert(all.take(i as int) =~= all);
        },
        None => {},
    }
    let loaded_at = match parse_config(loaded_at) {
        Some(v) => v,
        None => 0,
    };
    CatalogState { maps, brawlers, active_map_ids: ids, loaded_at }
}

} // verus!
