//! The store layout of the catalog and of per-id detail documents, the
//! bootstrap snapshot, and the shape of detail responses.
use vstd::prelude::*;
use vstd::string::*;
use crate::catalog::{
    CatalogBrawler, CatalogMap, CatalogState, strictly_increasing, brawler_from_item, is_lite_of, item_kept, kept_items, mode_name_spec,
    lite_projection, map_from_item, opt_seq, parse_catalog_brawlers, parse_catalog_maps,
    payload_items,
};
use crate::json::{Json, array_member, get_spec, int_of, member};
use crate::text::{chars_of, decimal_integer, decimal_text, decimal_text_spec, is_prefix_of, lemma_decimal_round_trip, normalized, parse_i64, starts_with};

verus! {

/// A value to write under a key of the store.
pub struct StoreWrite {
    pub key: String,
    pub value: Json,
}

/// The text of a JSON number.
pub open spec fn number_text(j: Json) -> Option<Seq<char>> {
    match j {
        Json::Number(t) => Some(t@),
        _ => None,
    }
}

pub open spec fn text_of(j: Json) -> Option<Seq<char>> {
    match j {
        Json::Text(t) => Some(t@),
        _ => None,
    }
}

pub open spec fn array_of(j: Json) -> Option<Seq<Json>> {
    match j {
        Json::Array(a) => Some(a@),
        _ => None,
    }
}

/// `j` is the stored form of map `m`: an object with `id`, `name`, `mode`,
/// `stats` and `teamStats` when present, and `_norm`, in that order.
pub open spec fn encodes_map(j: Json, m: CatalogMap) -> bool {
    match j {
        Json::Object(fs) => {
            let s: int = if m.stats is Some { 1 } else { 0 };
            let t: int = if m.team_stats is Some { 1 } else { 0 };
            &&& fs@.len() == 4 + s + t
            &&& fs@[0].0@ == "id"@ && number_text(fs@[0].1) == Some(decimal_text_spec(m.id as int))
            &&& fs@[1].0@ == "name"@ && text_of(fs@[1].1) == Some(m.name@)
            &&& fs@[2].0@ == "mode"@ && text_of(fs@[2].1) == Some(m.mode@)
            &&& (s == 1 ==> fs@[3].0@ == "stats"@ && array_of(fs@[3].1) == opt_seq(m.stats))
            &&& (t == 1 ==> fs@[3 + s].0@ == "teamStats"@ && array_of(fs@[3 + s].1) == opt_seq(m.team_stats))
            &&& fs@[3 + s + t].0@ == "_norm"@ && text_of(fs@[3 + s + t].1) == Some(m.norm@)
        },
        _ => false,
    }
}

/// `j` is the stored form of brawler `b`: an object with `id`, `name` and
/// `_norm`, in that order.
pub open spec fn encodes_brawler(j: Json, b: CatalogBrawler) -> bool {
    match j {
        Json::Object(fs) => {
            &&& fs@.len() == 3
            &&& fs@[0].0@ == "id"@ && number_text(fs@[0].1) == Some(decimal_text_spec(b.id as int))
            &&& fs@[1].0@ == "name"@ && text_of(fs@[1].1) == Some(b.name@)
            &&& fs@[2].0@ == "_norm"@ && text_of(fs@[2].1) == Some(b.norm@)
        },
        _ => false,
    }
}

fn text_json(s: &str) -> (r: Json)
    ensures
        text_of(r) == Some(s@),
{
    Json::Text(String::from_str(s))
}

fn field(key: &str, value: Json) -> (r: (String, Json))
    ensures
        r.0@ == key@,
        r.1 == value,
{
    (String::from_str(key), value)
}

/// The stored form of a map (see `encodes_map`).
pub fn map_to_json(m: CatalogMap) -> (r: Json)
    ensures
        encodes_map(r, m),
{
    let ghost g = m;
    let CatalogMap { id, name, mode, stats, team_stats, norm } = m;
    let mut fs: Vec<(String, Json)> = Vec::new();
    fs.push(field("id", Json::Number(decimal_text(id))));
    fs.push(field("name", Json::Text(name)));
    fs.push(field("mode", Json::Text(mode)));
    if let Some(a) = stats {
        fs.push(field("stats", Json::Array(a)));
    }
    if let Some(a) = team_stats {
        fs.push(field("teamStats", Json::Array(a)));
    }
    fs.push(field("_norm", Json::Text(norm)));
    Json::Object(fs)
}

/// The stored form of a brawler (see `encodes_brawler`).
pub fn brawler_to_json(b: &CatalogBrawler) -> (r: Json)
    ensures
        encodes_brawler(r, *b),
{
    let mut fs: Vec<(String, Json)> = Vec::new();
    fs.push(field("id", Json::Number(decimal_text(b.id))));
    fs.push(field("name", text_json(b.name.as_str())));
    fs.push(field("_norm", text_json(b.norm.as_str())));
    Json::Object(fs)
}

/// The stored list of maps, in order.
pub fn maps_to_json(maps: Vec<CatalogMap>) -> (r: Json)
    ensures
        array_of(r) matches Some(a) && a.len() == maps@.len() && forall|k: int| 0 <= k < a.len() ==> encodes_map(#[trigger] a[k], maps@[k]),
{
    let ghost orig = maps@;
    let mut rest = maps;
    let mut out: Vec<Json> = Vec::new();
    let ghost mut i: int = 0;
    while rest.len() > 0
        invariant
            0 <= i <= orig.len(),
            rest@ == orig.skip(i),
            out@.len() == i,
            forall|k: int| 0 <= k < i ==> encodes_map(#[trigger] out@[k], orig[k]),
        decreases rest@.len(),
    {
        let m = rest.remove(0);
        proof {
            assert(m == orig[i]);
        }
        out.push(map_to_json(m));
        proof {
            i = i + 1;
            assert(rest@ =~= orig.skip(i));
        }
    }
    Json::Array(out)
}

/// The stored list of brawlers, in order.
pub fn brawlers_to_json(brawlers: &Vec<CatalogBrawler>) -> (r: Json)
    ensures
        array_of(r) matches Some(a) && a.len() == brawlers@.len() && forall|k: int| 0 <= k < a.len() ==> encodes_brawler(#[trigger] a[k], brawlers@[k]),
{
    let mut out: Vec<Json> = Vec::new();
    let mut i: usize = 0;
    while i < brawlers.len()
        invariant
            i <= brawlers@.len(),
            out@.len() == i,
            forall|k: int| 0 <= k < i ==> encodes_brawler(#[trigger] out@[k], brawlers@[k]),
        decreases brawlers@.len() - i,
    {
        out.push(brawler_to_json(&brawlers[i]));
        i = i + 1;
    }
    Json::Array(out)
}

/// The stored list of ids, as JSON numbers in order.
pub fn ids_to_json(ids: &Vec<i64>) -> (r: Json)
    ensures
        array_of(r) matches Some(a) && a.len() == ids@.len() && forall|k: int| 0 <= k < a.len() ==> number_text(#[trigger] a[k]) == Some(decimal_text_spec(ids@[k] as int)),
{
    let mut out: Vec<Json> = Vec::new();
    let mut i: usize = 0;
    while i < ids.len()
        invariant
            i <= ids@.len(),
            out@.len() == i,
            forall|k: int| 0 <= k < i ==> number_text(#[trigger] out@[k]) == Some(decimal_text_spec(ids@[k] as int)),
        decreases ids@.len() - i,
    {
        out.push(Json::Number(decimal_text(ids[i])));
        i = i + 1;
    }
    Json::Array(out)
}

/// `writes` persists a snapshot under the six catalog keys, in order: full
/// maps, lite maps, full brawlers, lite brawlers, active ids, load time.
pub open spec fn catalog_writes_spec(
    writes: Seq<StoreWrite>,
    full: Seq<CatalogMap>,
    lite: Seq<CatalogMap>,
    brawlers: Seq<CatalogBrawler>,
    active: Seq<i64>,
    loaded_at: i64,
) -> bool {
    &&& writes.len() == 6
    &&& writes[0].key@ == "catalog:maps"@
    &&& writes[1].key@ == "catalog:mapsLite"@
    &&& writes[2].key@ == "catalog:brawlers"@
    &&& writes[3].key@ == "catalog:brawlersLite"@
    &&& writes[4].key@ == "catalog:activeMapIds"@
    &&& writes[5].key@ == "catalog:loadedAt"@
    &&& array_of(writes[0].value) matches Some(a) && a.len() == full.len() && forall|k: int| 0 <= k < a.len() ==> encodes_map(#[trigger] a[k], full[k])
    &&& array_of(writes[1].value) matches Some(a) && a.len() == lite.len() && forall|k: int| 0 <= k < a.len() ==> encodes_map(#[trigger] a[k], lite[k])
    &&& array_of(writes[2].value) matches Some(a) && a.len() == brawlers.len() && forall|k: int| 0 <= k < a.len() ==> encodes_brawler(#[trigger] a[k], brawlers[k])
    &&& array_of(writes[3].value) matches Some(a) && a.len() == brawlers.len() && forall|k: int| 0 <= k < a.len() ==> encodes_brawler(#[trigger] a[k], brawlers[k])
    &&& array_of(writes[4].value) matches Some(a) && a.len() == active.len() && forall|k: int| 0 <= k < a.len() ==> number_text(#[trigger] a[k]) == Some(decimal_text_spec(active[k] as int))
    &&& number_text(writes[5].value) == Some(decimal_text_spec(loaded_at as int))
}

fn write(key: &str, value: Json) -> (r: StoreWrite)
    ensures
        r.key@ == key@,
        r.value == value,
{
    StoreWrite { key: String::from_str(key), value }
}

/// A bootstrap from the origin's map and brawler list payloads and the
/// resolved active map ids (ascending, as `resolve_active_map_ids` gives
/// them), at `now`: the new snapshot (lite maps) and the
/// writes that persist it.
pub fn bootstrap_snapshot(
    maps_payload: Json,
    brawlers_payload: Json,
    active_ids: Vec<i64>,
    now: i64,
) -> (r: (CatalogState, Vec<StoreWrite>))
    requires
        strictly_increasing(active_ids@),
    ensures
        exists|full: Seq<CatalogMap>| #[trigger] catalog_writes_spec(r.1@, full, r.0.maps@, r.0.brawlers@, active_ids@, now)
            && full.len() == kept_items(payload_items(maps_payload)).len()
            && (forall|k: int| 0 <= k < full.len() ==> map_from_item(#[trigger] full[k], kept_items(payload_items(maps_payload))[k]))
            && r.0.maps@.len() == full.len()
            && (forall|k: int| 0 <= k < full.len() ==> is_lite_of(#[trigger] r.0.maps@[k], full[k])),
        r.0.brawlers@.len() == kept_items(payload_items(brawlers_payload)).len(),
        forall|k: int| 0 <= k < r.0.brawlers@.len() ==> brawler_from_item(#[trigger] r.0.brawlers@[k], kept_items(payload_items(brawlers_payload))[k]),
        r.0.active_map_ids@ == active_ids@,
        r.0.loaded_at == now,
{
    let ghost active_ids_s = active_ids@;
    let full = parse_catalog_maps(maps_payload);
    let ghost full_s = full@;
    let lite = lite_projection(&full);
    let brawlers = parse_catalog_brawlers(brawlers_payload);
    let mut writes: Vec<StoreWrite> = Vec::new();
    writes.push(write("catalog:maps", maps_to_json(full)));
    let lite2 = lite_projection(&lite);
    let ghost lite2_s = lite2@;
    let lite_json = maps_to_json(lite2);
    proof {
        let a = array_of(lite_json)->0;
        assert forall|k: int| 0 <= k < a.len() implies encodes_map(#[trigger] a[k], lite@[k]) by {
            assert(encodes_map(a[k], lite2_s[k]));
            assert(is_lite_of(lite2_s[k], lite@[k]));
            assert(is_lite_of(lite@[k], full_s[k]));
        }
    }
    writes.push(write("catalog:mapsLite", lite_json));
    writes.push(write("catalog:brawlers", brawlers_to_json(&brawlers)));
    writes.push(write("catalog:brawlersLite", brawlers_to_json(&brawlers)));
    writes.push(write("catalog:activeMapIds", ids_to_json(&active_ids)));
    writes.push(write("catalog:loadedAt", Json::Number(decimal_text(now))));
    let state = CatalogState { maps: lite, brawlers, active_map_ids: active_ids, loaded_at: now };
    assert(catalog_writes_spec(writes@, full_s, state.maps@, state.brawlers@, state.active_map_ids@, now));
    assert(full_s.len() == kept_items(payload_items(maps_payload)).len());
    assert(forall|k: int| 0 <= k < full_s.len() ==> map_from_item(#[trigger] full_s[k], kept_items(payload_items(maps_payload))[k]));
    assert(state.maps@.len() == full_s.len());
    assert(forall|k: int| 0 <= k < full_s.len() ==> is_lite_of(#[trigger] state.maps@[k], full_s[k]));
    let r = (state, writes);
    assert(catalog_writes_spec(r.1@, full_s, r.0.maps@, r.0.brawlers@, active_ids_s, now));
    r
}

/// The id at the end of a route: the rest of `path` after `prefix`, when it
/// writes a decimal integer.
pub open spec fn extract_id_spec(path: Seq<char>, prefix: Seq<char>) -> Option<int> {
    if is_prefix_of(prefix, path) {
        decimal_integer(path.skip(prefix.len() as int))
    } else {
        None
    }
}

/// The id of a route such as `/api/map/15000010` (see `extract_id_spec`).
pub fn extract_id(path: &str, prefix: &str) -> (r: Option<i64>)
    ensures
        r matches Some(v) ==> extract_id_spec(path@, prefix@) == Some(v as int),
        r is None ==> extract_id_spec(path@, prefix@) is None,
{
    let p = chars_of(path);
    let q = chars_of(prefix);
    if !starts_with(&q, &p) {
        return None;
    }
    let mut rest: Vec<char> = Vec::new();
    let mut i: usize = q.len();
    while i < p.len()
        invariant
            q@.len() <= i <= p@.len(),
            rest@ == p@.subrange(q@.len() as int, i as int),
        decreases p@.len() - i,
    {
        rest.push(p[i]);
        i = i + 1;
        assert(rest@ =~= p@.subrange(q@.len() as int, i as int));
    }
    assert(rest@ =~= p@.skip(q@.len() as int));
    parse_i64(&rest)
}

/// The store key of a map's raw detail document.
pub fn map_detail_key(id: i64) -> (r: String)
    ensures
        r@ == "mapraw:"@ + decimal_text_spec(id as int),
{
    String::from_str("mapraw:").concat(decimal_text(id).as_str())
}

/// The store key of a brawler's raw detail document.
pub fn brawler_detail_key(id: i64) -> (r: String)
    ensures
        r@ == "brawlerraw:"@ + decimal_text_spec(id as int),
{
    String::from_str("brawlerraw:").concat(decimal_text(id).as_str())
}

/// The origin path of a map's detail document.
pub fn map_detail_path(id: i64) -> (r: String)
    ensures
        r@ == "/maps/"@ + decimal_text_spec(id as int),
{
    String::from_str("/maps/").concat(decimal_text(id).as_str())
}

/// The origin path of a brawler's detail document.
pub fn brawler_detail_path(id: i64) -> (r: String)
    ensures
        r@ == "/brawlers/"@ + decimal_text_spec(id as int),
{
    String::from_str("/brawlers/").concat(decimal_text(id).as_str())
}

/// Whether an origin list request with `status` succeeded (below 400).
pub fn origin_status_ok(status: u16) -> (r: bool)
    ensures
        r == (status < 400),
{
    status < 400
}

/// Whether a detail document fetched with `status` is written to the store.
pub fn should_cache_detail(status: u16) -> (r: bool)
    ensures
        r == (status == 200),
{
    status == 200
}

/// An HTTP reply: status, headers and body.
pub struct HttpReply {
    pub status: u16,
    pub headers: Vec<(String, String)>,
    pub body: String,
}

/// A reply carrying `body` as JSON text with `status`, marked as not to be
/// stored by caches.
pub fn json_text_response(body: &str, status: u16) -> (r: HttpReply)
    ensures
        r.status == status,
        r.body@ == body@,
        r.headers@.len() == 2,
        r.headers@[0].0@ == "content-type"@,
        r.headers@[0].1@ == "application/json; charset=utf-8"@,
        r.headers@[1].0@ == "cache-control"@,
        r.headers@[1].1@ == "no-store"@,
{
    let mut headers: Vec<(String, String)> = Vec::new();
    headers.push((String::from_str("content-type"), String::from_str("application/json; charset=utf-8")));
    headers.push((String::from_str("cache-control"), String::from_str("no-store")));
    HttpReply { status, headers, body: String::from_str(body) }
}

/// A detail request answered from the store when the document is cached,
/// else to be fetched from the origin.
pub enum DetailStep {
    Reply(HttpReply),
    Fetch,
}

/// The first step of a detail request, given what the store holds.
pub fn detail_from_cache(cached: Option<String>) -> (r: DetailStep)
    ensures
        cached matches Some(c) ==> (r matches DetailStep::Reply(h) && h.status == 200 && h.body@ == c@),
        cached is None ==> r is Fetch,
{
    match cached {
        Some(c) => DetailStep::Reply(json_text_response(c.as_str(), 200)),
        None => DetailStep::Fetch,
    }
}

/// The counts and timing of one warm cycle.
pub struct WarmReport {
    pub maps_total: usize,
    pub maps_success: usize,
    pub maps_failed: usize,
    pub brawlers_total: usize,
    pub brawlers_success: usize,
    pub brawlers_failed: usize,
    pub active_map_count: usize,
    pub elapsed_ms: i64,
    pub concurrency: usize,
}

/// The time a cycle took: `finished - started`, kept within `0..=i64::MAX`.
pub fn elapsed_ms(started: i64, finished: i64) -> (r: i64)
    ensures
        r as int == (if finished - started < 0 { 0 } else if finished - started > i64::MAX { i64::MAX as int } else { finished - started }),
{
    let d = finished as i128 - started as i128;
    if d < 0 {
        0
    } else if d > i64::MAX as i128 {
        i64::MAX
    } else {
        d as i64
    }
}

/// The ids of the catalog's maps, in order.
pub fn map_ids(maps: &Vec<CatalogMap>) -> (r: Vec<i64>)
    ensures
        r@.len() == maps@.len(),
        forall|k: int| 0 <= k < r@.len() ==> #[trigger] r@[k] == maps@[k].id,
{
    let mut out: Vec<i64> = Vec::new();
    let mut i: usize = 0;
    while i < maps.len()
        invariant
            i <= maps@.len(),
            out@.len() == i,
            forall|k: int| 0 <= k < i ==> #[trigger] out@[k] == maps@[k].id,
        decreases maps@.len() - i,
    {
        out.push(maps[i].id);
        i = i + 1;
    }
    out
}

/// The ids of the catalog's brawlers, in order.
pub fn brawler_ids(brawlers: &Vec<CatalogBrawler>) -> (r: Vec<i64>)
    ensures
        r@.len() == brawlers@.len(),
        forall|k: int| 0 <= k < r@.len() ==> #[trigger] r@[k] == brawlers@[k].id,
{
    let mut out: Vec<i64> = Vec::new();
    let mut i: usize = 0;
    while i < brawlers.len()
        invariant
            i <= brawlers@.len(),
            out@.len() == i,
            forall|k: int| 0 <= k < i ==> #[trigger] out@[k] == brawlers@[k].id,
        decreases brawlers@.len() - i,
    {
        out.push(brawlers[i].id);
        i = i + 1;
    }
    out
}

proof fn lemma_member_at(fs: Seq<(String, Json)>, key: Seq<char>, n: int)
    requires
        0 <= n < fs.len(),
        fs[n].0@ == key,
        forall|i: int| 0 <= i < n ==> (#[trigger] fs[i]).0@ != key,
    ensures
        member(fs, key) == Some(fs[n].1),
    decreases n,
{
    if n > 0 {
        assert forall|i: int| 0 <= i < n - 1 implies (#[trigger] fs.drop_first()[i]).0@ != key by {
            assert(fs.drop_first()[i] == fs[i + 1]);
        }
        lemma_member_at(fs.drop_first(), key, n - 1);
    }
}

proof fn lemma_member_absent(fs: Seq<(String, Json)>, key: Seq<char>)
    requires
        forall|i: int| 0 <= i < fs.len() ==> (#[trigger] fs[i]).0@ != key,
    ensures
        member(fs, key) is None,
    decreases fs.len(),
{
    if fs.len() > 0 {
        assert forall|i: int| 0 <= i < fs.len() - 1 implies (#[trigger] fs.drop_first()[i]).0@ != key by {
            assert(fs.drop_first()[i] == fs[i + 1]);
        }
        lemma_member_absent(fs.drop_first(), key);
    }
}

/// A map in its stored form reads back as the same map: the reader keeps it
/// and finds its id, name, mode, raw statistics arrays and normalised name.
pub proof fn lemma_stored_map_reads_back(j: Json, m: CatalogMap, back: CatalogMap)
    requires
        encodes_map(j, m),
        m.wf(),
        m.name@.len() > 0,
        map_from_item(back, j),
    ensures
        item_kept(j),
        back.id == m.id,
        back.name@ == m.name@,
        back.mode@ == m.mode@,
        opt_seq(back.stats) == opt_seq(m.stats),
        opt_seq(back.team_stats) == opt_seq(m.team_stats),
        back.norm@ == m.norm@,
{
    reveal_strlit("id");
    reveal_strlit("name");
    reveal_strlit("mode");
    reveal_strlit("stats");
    reveal_strlit("teamStats");
    reveal_strlit("_norm");
    reveal_strlit("gameMode");
    let fs = match j {
        Json::Object(fs) => fs@,
        _ => Seq::empty(),
    };
    let s: int = if m.stats is Some { 1 } else { 0 };
    let t: int = if m.team_stats is Some { 1 } else { 0 };
    let last = 3 + s + t;
    assert("id"@.len() == 2 && "name"@.len() == 4 && "mode"@.len() == 4);
    assert("name"@[0] != "mode"@[0]);
    assert("stats"@.len() == 5 && "_norm"@.len() == 5 && "teamStats"@.len() == 9);
    assert("stats"@[0] != "_norm"@[0]);
    assert("id"@ != "name"@ && "id"@ != "mode"@ && "name"@ != "mode"@);
    assert("stats"@ != "_norm"@ && "stats"@ != "teamStats"@);
    assert("teamStats"@ != "_norm"@);
    assert(forall|i: int| 0 <= i < fs.len() ==> (#[trigger] fs[i]).0@ != "gameMode"@);
    lemma_member_at(fs, "id"@, 0);
    lemma_member_at(fs, "name"@, 1);
    lemma_member_at(fs, "mode"@, 2);
    lemma_member_absent(fs, "gameMode"@);
    lemma_decimal_round_trip(m.id);
    if s == 1 {
        lemma_member_at(fs, "stats"@, 3);
    } else {
        lemma_member_absent(fs, "stats"@);
    }
    if t == 1 {
        lemma_member_at(fs, "teamStats"@, 3 + s);
    } else {
        lemma_member_absent(fs, "teamStats"@);
    }
    assert(get_spec(j, "id"@) == Some(fs[0].1));
    assert(int_of(get_spec(j, "id"@)) == Some(m.id as int));
    assert(mode_name_spec(j) == m.mode@);
    assert(array_member(j, "stats"@) == opt_seq(m.stats));
    assert(array_member(j, "teamStats"@) == opt_seq(m.team_stats));
}

} // verus!
