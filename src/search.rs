//! Fuzzy ranking of catalog names against a normalised query.
use vstd::prelude::*;
use crate::catalog::{CatalogBrawler, CatalogMap, CatalogState, parse_catalog_brawlers, parse_catalog_maps};
use crate::json::Json;
use crate::rank::{is_ranking, is_top_ranked, rank_candidates};
use crate::text::{chars_of, contains, is_prefix_of, normalize_text, normalized, occurs_in, same_text, starts_with};

verus! {

pub open spec fn min3(x: int, y: int, z: int) -> int {
    if x <= y && x <= z {
        x
    } else if y <= z {
        y
    } else {
        z
    }
}

/// Edit distance between the first `i` characters of `a` and the first `j`
/// characters of `b` (single-character insertions, deletions and substitutions).
pub open spec fn edit_distance(a: Seq<char>, b: Seq<char>, i: nat, j: nat) -> nat
    decreases i + j,
{
    if i == 0 {
        j
    } else if j == 0 {
        i
    } else {
        let cost: int = if a[i - 1] == b[j - 1] { 0 } else { 1 };
        min3(
            edit_distance(a, b, (i - 1) as nat, j) + 1int,
            edit_distance(a, b, i, (j - 1) as nat) + 1int,
            edit_distance(a, b, (i - 1) as nat, (j - 1) as nat) + cost,
        ) as nat
    }
}

/// Levenshtein distance between two character sequences.
pub open spec fn levenshtein_spec(a: Seq<char>, b: Seq<char>) -> nat {
    edit_distance(a, b, a.len(), b.len())
}

proof fn lemma_edit_distance_bound(a: Seq<char>, b: Seq<char>, i: nat, j: nat)
    ensures
        edit_distance(a, b, i, j) <= if i >= j { i } else { j },
    decreases i + j,
{
    if i > 0 && j > 0 {
        lemma_edit_distance_bound(a, b, (i - 1) as nat, (j - 1) as nat);
    }
}

/// Levenshtein distance between the characters of `a` and of `b`, computed
/// with two rolling rows of length `b.len() + 1`.
pub fn levenshtein(a: &str, b: &str) -> (r: usize)
    ensures
        r == levenshtein_spec(a@, b@),
{
    let ac = chars_of(a);
    let bc = chars_of(b);
    let n = ac.len();
    let m = bc.len();
    if n == 0 {
        return m;
    }
    if m == 0 {
        return n;
    }
    let mut prev: Vec<usize> = Vec::new();
    let mut j: usize = 0;
    while j < m
        invariant
            j <= m,
            prev@.len() == j,
            forall|k: int| 0 <= k < j ==> prev@[k] == k,
        decreases m - j,
    {
        prev.push(j);
        j = j + 1;
    }
    prev.push(m);
    assert forall|k: int| 0 <= k <= m implies prev@[k] == edit_distance(ac@, bc@, 0, k as nat) by {}
    let mut i: usize = 0;
    while i < n
        invariant
            n == ac@.len(),
            m == bc@.len(),
            ac@ == a@,
            bc@ == b@,
            i <= n,
            prev@.len() == m + 1,
            forall|k: int| 0 <= k <= m ==> prev@[k] == edit_distance(ac@, bc@, i as nat, k as nat),
        decreases n - i,
    {
        let mut curr: Vec<usize> = Vec::new();
        curr.push(i + 1);
        let ca = ac[i];
        let mut j: usize = 0;
        while j < m
            invariant
                n == ac@.len(),
                m == bc@.len(),
                i < n,
                j <= m,
                ca == ac@[i as int],
                prev@.len() == m + 1,
                forall|k: int| 0 <= k <= m ==> prev@[k] == edit_distance(ac@, bc@, i as nat, k as nat),
                curr@.len() == j + 1,
                forall|k: int| 0 <= k <= j ==> curr@[k] == edit_distance(ac@, bc@, (i + 1) as nat, k as nat),
            decreases m - j,
        {
            proof {
                lemma_edit_distance_bound(ac@, bc@, i as nat, (j + 1) as nat);
                lemma_edit_distance_bound(ac@, bc@, (i + 1) as nat, j as nat);
                lemma_edit_distance_bound(ac@, bc@, i as nat, j as nat);
            }
            let cost: usize = if ca == bc[j] { 0 } else { 1 };
            let del = prev[j + 1].saturating_add(1);
            let ins = curr[j].saturating_add(1);
            let sub = prev[j] + cost;
            let mut best = del;
            if ins < best {
                best = ins;
            }
            if sub < best {
                best = sub;
            }
            curr.push(best);
            j = j + 1;
        }
        prev = curr;
        i = i + 1;
    }
    prev[m]
}

/// Score of a normalised target name against a normalised query: 100 when the
/// target starts with the query, 80 when it contains it, `60 - 10 * d` when
/// the edit distance `d` is at most 2, and no match otherwise or when either
/// is empty.
pub open spec fn score_spec(q: Seq<char>, t: Seq<char>) -> Option<int> {
    if q.len() == 0 || t.len() == 0 {
        None
    } else if is_prefix_of(q, t) {
        Some(100)
    } else if occurs_in(q, t) {
        Some(80)
    } else if levenshtein_spec(q, t) <= 2 {
        Some(60 - 10 * levenshtein_spec(q, t))
    } else {
        None
    }
}

/// Scores `target_norm` against `query_norm` (see `score_spec`).
pub fn score_match(query_norm: &str, target_norm: &str) -> (r: Option<i32>)
    ensures
        r matches Some(v) ==> score_spec(query_norm@, target_norm@) == Some(v as int),
        r is None ==> score_spec(query_norm@, target_norm@) is None,
{
    let q = chars_of(query_norm);
    let t = chars_of(target_norm);
    if q.len() == 0 || t.len() == 0 {
        return None;
    }
    if starts_with(&q, &t) {
        return Some(100);
    }
    if contains(&q, &t) {
        return Some(80);
    }
    let distance = levenshtein(query_norm, target_norm);
    if distance <= 2 {
        return Some(60 - distance as i32 * 10);
    }
    None
}

/// `score_spec` as the 32-bit score that ranking compares.
pub open spec fn score_i32(q: Seq<char>, t: Seq<char>) -> Option<i32> {
    match score_spec(q, t) {
        Some(v) => Some(v as i32),
        None => None,
    }
}

/// The normalised name an entry is matched on: its stored `norm`, or the
/// normalised name when none is stored.
pub open spec fn match_norm(name: Seq<char>, norm: Seq<char>) -> Seq<char> {
    if norm.len() == 0 { normalized(name) } else { norm }
}

pub open spec fn map_names(items: Seq<CatalogMap>) -> Seq<String> {
    Seq::new(items.len(), |k: int| items[k].name)
}

pub open spec fn map_scores(items: Seq<CatalogMap>, q: Seq<char>) -> Seq<Option<i32>> {
    Seq::new(items.len(), |k: int| score_i32(q, match_norm(items[k].name@, items[k].norm@)))
}

pub open spec fn brawler_names(items: Seq<CatalogBrawler>) -> Seq<String> {
    Seq::new(items.len(), |k: int| items[k].name)
}

pub open spec fn brawler_scores(items: Seq<CatalogBrawler>, q: Seq<char>) -> Seq<Option<i32>> {
    Seq::new(items.len(), |k: int| score_i32(q, match_norm(items[k].name@, items[k].norm@)))
}

fn score_of(qn: &str, name: &String, norm: &String) -> (r: Option<i32>)
    ensures
        r == score_i32(qn@, match_norm(name@, norm@)),
{
    let s = if norm.as_str().is_empty() {
        score_match(qn, normalize_text(name.as_str()).as_str())
    } else {
        score_match(qn, norm.as_str())
    };
    s
}

/// Positions of the maps that match `qn`, ranked by score descending, then
/// name ascending, and cut to `limit`.
pub fn top_scored_maps(items: &Vec<CatalogMap>, qn: &str, limit: usize) -> (r: Vec<usize>)
    ensures
        is_top_ranked(map_names(items@), map_scores(items@, qn@), limit as nat, r@),
{
    let mut names: Vec<String> = Vec::new();
    let mut scores: Vec<Option<i32>> = Vec::new();
    let mut i: usize = 0;
    while i < items.len()
        invariant
            i <= items@.len(),
            names@ == map_names(items@).take(i as int),
            scores@ == map_scores(items@, qn@).take(i as int),
        decreases items@.len() - i,
    {
        names.push(items[i].name.clone());
        scores.push(score_of(qn, &items[i].name, &items[i].norm));
        i = i + 1;
        assert(names@ =~= map_names(items@).take(i as int));
        assert(scores@ =~= map_scores(items@, qn@).take(i as int));
    }
    assert(names@ =~= map_names(items@));
    assert(scores@ =~= map_scores(items@, qn@));
    rank_candidates(&names, &scores, limit)
}

/// Positions of the brawlers that match `qn`, ranked by score descending,
/// then name ascending, and cut to `limit`.
pub fn top_scored_brawlers(items: &Vec<CatalogBrawler>, qn: &str, limit: usize) -> (r: Vec<usize>)
    ensures
        is_top_ranked(brawler_names(items@), brawler_scores(items@, qn@), limit as nat, r@),
{
    let mut names: Vec<String> = Vec::new();
    let mut scores: Vec<Option<i32>> = Vec::new();
    let mut i: usize = 0;
    while i < items.len()
        invariant
            i <= items@.len(),
            names@ == brawler_names(items@).take(i as int),
            scores@ == brawler_scores(items@, qn@).take(i as int),
        decreases items@.len() - i,
    {
        names.push(items[i].name.clone());
        scores.push(score_of(qn, &items[i].name, &items[i].norm));
        i = i + 1;
        assert(names@ =~= brawler_names(items@).take(i as int));
        assert(scores@ =~= brawler_scores(items@, qn@).take(i as int));
    }
    assert(names@ =~= brawler_names(items@));
    assert(scores@ =~= brawler_scores(items@, qn@));
    rank_candidates(&names, &scores, limit)
}

/// A ranking cut to `limit > 0` is empty only when nothing matched.
pub proof fn lemma_top_ranked_nonempty(names: Seq<String>, scores: Seq<Option<i32>>, limit: nat, r: Seq<usize>, p: usize)
    requires
        is_top_ranked(names, scores, limit, r),
        limit > 0,
        (p as int) < scores.len(),
        scores[p as int] is Some,
    ensures
        r.len() > 0,
{
    let order = choose|order: Seq<usize>| #[trigger] is_ranking(names, scores, order) && r == order.take(
        if limit <= order.len() { limit as int } else { order.len() as int },
    );
    assert(order.contains(p));
}

/// The names of the entries at `idx`.
fn names_at_maps(items: &Vec<CatalogMap>, idx: &Vec<usize>) -> (r: Vec<String>)
    requires
        forall|k: int| 0 <= k < idx@.len() ==> (#[trigger] idx@[k] as int) < items@.len(),
    ensures
        r@.len() == idx@.len(),
        forall|k: int| 0 <= k < r@.len() ==> #[trigger] r@[k] == items@[idx@[k] as int].name,
{
    let mut out: Vec<String> = Vec::new();
    let mut i: usize = 0;
    while i < idx.len()
        invariant
            i <= idx@.len(),
            forall|k: int| 0 <= k < idx@.len() ==> (#[trigger] idx@[k] as int) < items@.len(),
            out@.len() == i,
            forall|k: int| 0 <= k < i ==> #[trigger] out@[k] == items@[idx@[k] as int].name,
        decreases idx@.len() - i,
    {
        out.push(items[idx[i]].name.clone());
        i = i + 1;
    }
    out
}

fn names_at_brawlers(items: &Vec<CatalogBrawler>, idx: &Vec<usize>) -> (r: Vec<String>)
    requires
        forall|k: int| 0 <= k < idx@.len() ==> (#[trigger] idx@[k] as int) < items@.len(),
    ensures
        r@.len() == idx@.len(),
        forall|k: int| 0 <= k < r@.len() ==> #[trigger] r@[k] == items@[idx@[k] as int].name,
{
    let mut out: Vec<String> = Vec::new();
    let mut i: usize = 0;
    while i < idx.len()
        invariant
            i <= idx@.len(),
            forall|k: int| 0 <= k < idx@.len() ==> (#[trigger] idx@[k] as int) < items@.len(),
            out@.len() == i,
            forall|k: int| 0 <= k < i ==> #[trigger] out@[k] == items@[idx@[k] as int].name,
        decreases idx@.len() - i,
    {
        out.push(items[idx[i]].name.clone());
        i = i + 1;
    }
    out
}

proof fn lemma_ranked_in_range(names: Seq<String>, scores: Seq<Option<i32>>, limit: nat, r: Seq<usize>)
    requires
        is_top_ranked(names, scores, limit, r),
    ensures
        forall|k: int| 0 <= k < r.len() ==> (#[trigger] r[k] as int) < scores.len(),
{
    let order = choose|order: Seq<usize>| #[trigger] is_ranking(names, scores, order) && r == order.take(
        if limit <= order.len() { limit as int } else { order.len() as int },
    );
    assert forall|k: int| 0 <= k < r.len() implies (#[trigger] r[k] as int) < scores.len() by {
        assert(r[k] == order[k]);
    }
}

/// Suggested names for a query: for `kind` "map" the maps, else the
/// brawlers; the best five matches, or the first five entries when the
/// normalised query is empty.
pub fn best_suggestions(kind: &str, query: &str, state: &CatalogState) -> (r: Vec<String>)
    ensures
        kind@ == "map"@ && normalized(query@).len() == 0 ==> r@.len() == (if state.maps@.len() < 5 { state.maps@.len() } else { 5 })
            && forall|k: int| 0 <= k < r@.len() ==> #[trigger] r@[k] == state.maps@[k].name,
        kind@ != "map"@ && normalized(query@).len() == 0 ==> r@.len() == (if state.brawlers@.len() < 5 { state.brawlers@.len() } else { 5 })
            && forall|k: int| 0 <= k < r@.len() ==> #[trigger] r@[k] == state.brawlers@[k].name,
        kind@ == "map"@ && normalized(query@).len() > 0 ==> exists|idx: Seq<usize>|
            #[trigger] is_top_ranked(map_names(state.maps@), map_scores(state.maps@, normalized(query@)), 5, idx)
            && r@.len() == idx.len() && forall|k: int| 0 <= k < r@.len() ==> #[trigger] r@[k] == state.maps@[idx[k] as int].name,
        kind@ != "map"@ && normalized(query@).len() > 0 ==> exists|idx: Seq<usize>|
            #[trigger] is_top_ranked(brawler_names(state.brawlers@), brawler_scores(state.brawlers@, normalized(query@)), 5, idx)
            && r@.len() == idx.len() && forall|k: int| 0 <= k < r@.len() ==> #[trigger] r@[k] == state.brawlers@[idx[k] as int].name,
{
    let qn = normalize_text(query);
    if same_text(kind, "map") {
        if qn.as_str().is_empty() {
            let n: usize = if state.maps.len() < 5 { state.maps.len() } else { 5 };
            let mut idx: Vec<usize> = Vec::new();
            let mut i: usize = 0;
            while i < n
                invariant
                    i <= n,
                    n <= state.maps@.len(),
                    idx@.len() == i,
                    forall|k: int| 0 <= k < i ==> #[trigger] idx@[k] == k,
                decreases n - i,
            {
                idx.push(i);
                i = i + 1;
            }
            return names_at_maps(&state.maps, &idx);
        }
        let idx = top_scored_maps(&state.maps, qn.as_str(), 5);
        proof {
            lemma_ranked_in_range(map_names(state.maps@), map_scores(state.maps@, qn@), 5, idx@);
        }
        return names_at_maps(&state.maps, &idx);
    }
    if qn.as_str().is_empty() {
        let n: usize = if state.brawlers.len() < 5 { state.brawlers.len() } else { 5 };
        let mut idx: Vec<usize> = Vec::new();
        let mut i: usize = 0;
        while i < n
            invariant
                i <= n,
                n <= state.brawlers@.len(),
                idx@.len() == i,
                forall|k: int| 0 <= k < i ==> #[trigger] idx@[k] == k,
            decreases n - i,
        {
            idx.push(i);
            i = i + 1;
        }
        return names_at_brawlers(&state.brawlers, &idx);
    }
    let idx = top_scored_brawlers(&state.brawlers, qn.as_str(), 5);
    proof {
        lemma_ranked_in_range(brawler_names(state.brawlers@), brawler_scores(state.brawlers@, qn@), 5, idx@);
    }
    names_at_brawlers(&state.brawlers, &idx)
}

/// A map search hit.
pub struct MapHit {
    pub id: i64,
    pub name: String,
    pub mode: String,
    pub active_today: bool,
}

/// A brawler search hit.
pub struct BrawlerHit {
    pub id: i64,
    pub name: String,
}

/// The hits of a search.
pub struct SearchResult {
    pub maps: Vec<MapHit>,
    pub brawlers: Vec<BrawlerHit>,
}

/// The number of hits per entity type that a search returns.
pub const SEARCH_LIMIT: usize = 8;

/// `hits` are the maps at `idx`, flagged when in the active rotation.
pub open spec fn map_hits(hits: Seq<MapHit>, items: Seq<CatalogMap>, idx: Seq<usize>, active: Seq<i64>) -> bool {
    &&& hits.len() == idx.len()
    &&& forall|k: int| 0 <= k < hits.len() ==> {
        &&& (#[trigger] hits[k]).id == items[idx[k] as int].id
        &&& hits[k].name == items[idx[k] as int].name
        &&& hits[k].mode == items[idx[k] as int].mode
        &&& hits[k].active_today == active.contains(items[idx[k] as int].id)
    }
}

/// `hits` are the brawlers at `idx`.
pub open spec fn brawler_hits(hits: Seq<BrawlerHit>, items: Seq<CatalogBrawler>, idx: Seq<usize>) -> bool {
    &&& hits.len() == idx.len()
    &&& forall|k: int| 0 <= k < hits.len() ==> {
        &&& (#[trigger] hits[k]).id == items[idx[k] as int].id
        &&& hits[k].name == items[idx[k] as int].name
    }
}

/// `r` holds the best `SEARCH_LIMIT` maps and brawlers of `state` for `q`.
pub open spec fn search_hits(r: SearchResult, state: CatalogState, q: Seq<char>) -> bool {
    &&& exists|idx: Seq<usize>| #[trigger] is_top_ranked(map_names(state.maps@), map_scores(state.maps@, q), 8, idx)
        && map_hits(r.maps@, state.maps@, idx, state.active_map_ids@)
    &&& exists|idx: Seq<usize>| #[trigger] is_top_ranked(brawler_names(state.brawlers@), brawler_scores(state.brawlers@, q), 8, idx)
        && brawler_hits(r.brawlers@, state.brawlers@, idx)
}

/// Nothing in the catalog matches `q`.
pub open spec fn no_match(state: CatalogState, q: Seq<char>) -> bool {
    &&& forall|k: int| 0 <= k < state.maps@.len() ==> (#[trigger] map_scores(state.maps@, q)[k]) is None
    &&& forall|k: int| 0 <= k < state.brawlers@.len() ==> (#[trigger] brawler_scores(state.brawlers@, q)[k]) is None
}

/// Searches the catalog for the normalised query `qn` (see `search_hits`).
pub fn search_catalog(state: &CatalogState, qn: &str) -> (r: SearchResult)
    ensures
        search_hits(r, *state, qn@),
        (r.maps@.len() == 0 && r.brawlers@.len() == 0) <==> no_match(*state, qn@),
{
    let n_maps = state.maps.len();
    let n_brawlers = state.brawlers.len();
    let midx = top_scored_maps(&state.maps, qn, SEARCH_LIMIT);
    let bidx = top_scored_brawlers(&state.brawlers, qn, SEARCH_LIMIT);
    proof {
        lemma_ranked_in_range(map_names(state.maps@), map_scores(state.maps@, qn@), 8, midx@);
        lemma_ranked_in_range(brawler_names(state.brawlers@), brawler_scores(state.brawlers@, qn@), 8, bidx@);
    }
    let mut maps: Vec<MapHit> = Vec::new();
    let mut i: usize = 0;
    while i < midx.len()
        invariant
            i <= midx@.len(),
            forall|k: int| 0 <= k < midx@.len() ==> (#[trigger] midx@[k] as int) < state.maps@.len(),
            maps@.len() == i,
            map_hits(maps@, state.maps@, midx@.take(i as int), state.active_map_ids@),
        decreases midx@.len() - i,
    {
        let m = &state.maps[midx[i]];
        maps.push(MapHit { id: m.id, name: m.name.clone(), mode: m.mode.clone(), active_today: state.is_active(m.id) });
        i = i + 1;
        assert forall|k: int| 0 <= k < i implies #[trigger] midx@.take(i as int)[k] == midx@[k] by {}
    }
    assert(midx@.take(i as int) =~= midx@);
    let mut brawlers: Vec<BrawlerHit> = Vec::new();
    let mut i: usize = 0;
    while i < bidx.len()
        invariant
            i <= bidx@.len(),
            forall|k: int| 0 <= k < bidx@.len() ==> (#[trigger] bidx@[k] as int) < state.brawlers@.len(),
            brawlers@.len() == i,
            brawler_hits(brawlers@, state.brawlers@, bidx@.take(i as int)),
        decreases bidx@.len() - i,
    {
        let b = &state.brawlers[bidx[i]];
        brawlers.push(BrawlerHit { id: b.id, name: b.name.clone() });
        i = i + 1;
        assert forall|k: int| 0 <= k < i implies #[trigger] bidx@.take(i as int)[k] == bidx@[k] by {}
    }
    assert(bidx@.take(i as int) =~= bidx@);
    proof {
        if !no_match(*state, qn@) {
            if exists|k: int| 0 <= k < state.maps@.len() && (#[trigger] map_scores(state.maps@, qn@)[k]) is Some {
                let k = choose|k: int| 0 <= k < state.maps@.len() && (#[trigger] map_scores(state.maps@, qn@)[k]) is Some;
                assert(k < n_maps);
                lemma_top_ranked_nonempty(map_names(state.maps@), map_scores(state.maps@, qn@), 8, midx@, k as usize);
            } else {
                let k = choose|k: int| 0 <= k < state.brawlers@.len() && (#[trigger] brawler_scores(state.brawlers@, qn@)[k]) is Some;
                assert(k < n_brawlers);
                lemma_top_ranked_nonempty(brawler_names(state.brawlers@), brawler_scores(state.brawlers@, qn@), 8, bidx@, k as usize);
            }
        } else {
            lemma_no_match_empty(map_names(state.maps@), map_scores(state.maps@, qn@), 8, midx@);
            lemma_no_match_empty(brawler_names(state.brawlers@), brawler_scores(state.brawlers@, qn@), 8, bidx@);
        }
    }
    SearchResult { maps, brawlers }
}

proof fn lemma_no_match_empty(names: Seq<String>, scores: Seq<Option<i32>>, limit: nat, r: Seq<usize>)
    requires
        is_top_ranked(names, scores, limit, r),
        forall|k: int| 0 <= k < scores.len() ==> (#[trigger] scores[k]) is None,
    ensures
        r.len() == 0,
{
    let order = choose|order: Seq<usize>| #[trigger] is_ranking(names, scores, order) && r == order.take(
        if limit <= order.len() { limit as int } else { order.len() as int },
    );
    if order.len() > 0 {
        assert(scores[order[0] as int] is Some);
    }
}

/// An empty catalog matches nothing.
pub proof fn lemma_empty_catalog_no_match(state: CatalogState, q: Seq<char>)
    requires
        state.maps@.len() == 0,
        state.brawlers@.len() == 0,
    ensures
        no_match(state, q),
{
}

/// The live search over the origin's own map and brawler lists: the same
/// scoring and ranking over the kept items of the two payloads, with
/// `active_ids` (ascending) marking the maps in rotation.
pub fn origin_search(qn: &str, maps_payload: Json, brawlers_payload: Json, active_ids: Vec<i64>) -> (r: SearchResult)
    requires
        crate::catalog::strictly_increasing(active_ids@),
    ensures
        exists|state: CatalogState| {
            &&& state.maps@.len() == crate::catalog::kept_items(crate::catalog::payload_items(maps_payload)).len()
            &&& forall|k: int| 0 <= k < state.maps@.len() ==> crate::catalog::map_from_item(#[trigger] state.maps@[k], crate::catalog::kept_items(crate::catalog::payload_items(maps_payload))[k])
            &&& state.brawlers@.len() == crate::catalog::kept_items(crate::catalog::payload_items(brawlers_payload)).len()
            &&& forall|k: int| 0 <= k < state.brawlers@.len() ==> crate::catalog::brawler_from_item(#[trigger] state.brawlers@[k], crate::catalog::kept_items(crate::catalog::payload_items(brawlers_payload))[k])
            &&& state.active_map_ids@ == active_ids@
            &&& #[trigger] search_hits(r, state, qn@)
            &&& ((r.maps@.len() == 0 && r.brawlers@.len() == 0) <==> no_match(state, qn@))
        },
{
    let maps = parse_catalog_maps(maps_payload);
    let brawlers = parse_catalog_brawlers(brawlers_payload);
    let state = CatalogState { maps, brawlers, active_map_ids: active_ids, loaded_at: 0 };
    let r = search_catalog(&state, qn);
    assert(search_hits(r, state, qn@));
    r
}

/// Where a search stands: on the stored catalog, on a catalog that had to
/// be bootstrapped because it was empty, or on a refreshed catalog.
pub enum SearchPhase {
    Loaded,
    Bootstrapped,
    Refreshed,
}

/// What a search does next.
pub enum SearchAction {
    /// Answer with these hits.
    Respond(SearchResult),
    /// Bootstrap the catalog (its failure fails the search) and continue in
    /// `Bootstrapped`.
    Bootstrap,
    /// Bootstrap the catalog again and continue in `Refreshed`; on failure,
    /// search the origin.
    Refresh,
    /// Search the origin live (`origin_search`).
    Origin,
}

/// The kind of step a search takes.
pub enum SearchMove {
    Respond,
    Bootstrap,
    Refresh,
    Origin,
}

/// The kind of step that `search_next` takes.
pub open spec fn search_move(phase: SearchPhase, q: Seq<char>, state: CatalogState) -> SearchMove {
    if q.len() == 0 {
        SearchMove::Respond
    } else if phase is Loaded && (state.maps@.len() == 0 || state.brawlers@.len() == 0) {
        SearchMove::Bootstrap
    } else if !no_match(state, q) {
        SearchMove::Respond
    } else if phase is Refreshed {
        SearchMove::Origin
    } else {
        SearchMove::Refresh
    }
}

/// The kind of a search action.
pub open spec fn move_of(a: SearchAction) -> SearchMove {
    match a {
        SearchAction::Respond(_) => SearchMove::Respond,
        SearchAction::Bootstrap => SearchMove::Bootstrap,
        SearchAction::Refresh => SearchMove::Refresh,
        SearchAction::Origin => SearchMove::Origin,
    }
}

/// The decision of a search for the normalised query `qn` on `state`: an
/// empty query gets no hits; an empty stored catalog is bootstrapped first;
/// hits are answered; no hits lead to one refresh and then to the origin.
pub fn search_next(phase: SearchPhase, qn: &str, state: &CatalogState) -> (r: SearchAction)
    ensures
        move_of(r) == search_move(phase, qn@, *state),
        qn@.len() == 0 ==> (r matches SearchAction::Respond(h) && h.maps@.len() == 0 && h.brawlers@.len() == 0),
        qn@.len() > 0 && phase is Loaded && (state.maps@.len() == 0 || state.brawlers@.len() == 0) ==> r is Bootstrap,
        qn@.len() > 0 && !(phase is Loaded && (state.maps@.len() == 0 || state.brawlers@.len() == 0)) ==> {
            if no_match(*state, qn@) {
                if phase is Refreshed { r is Origin } else { r is Refresh }
            } else {
                (r matches SearchAction::Respond(h) && search_hits(h, *state, qn@))
            }
        },
{
    if qn.is_empty() {
        return SearchAction::Respond(SearchResult { maps: Vec::new(), brawlers: Vec::new() });
    }
    let is_loaded = match phase {
        SearchPhase::Loaded => true,
        _ => false,
    };
    if is_loaded && (state.maps.len() == 0 || state.brawlers.len() == 0) {
        return SearchAction::Bootstrap;
    }
    let hits = search_catalog(state, qn);
    if hits.maps.len() > 0 || hits.brawlers.len() > 0 {
        return SearchAction::Respond(hits);
    }
    match phase {
        SearchPhase::Refreshed => SearchAction::Origin,
        _ => SearchAction::Refresh,
    }
}

/// A search for a non-empty query on an empty stored catalog first
/// bootstraps; a bootstrapped catalog answers when it has a match and is
/// otherwise refreshed; a refreshed catalog answers when it has a match and
/// otherwise hands over to the live origin search (as does a failed
/// refresh).
pub proof fn lemma_empty_catalog_search(
    q: Seq<char>,
    stored: CatalogState,
    boot: CatalogState,
    refreshed: CatalogState,
)
    requires
        q.len() > 0,
        stored.maps@.len() == 0 || stored.brawlers@.len() == 0,
    ensures
        search_move(SearchPhase::Loaded, q, stored) is Bootstrap,
        no_match(boot, q) ==> search_move(SearchPhase::Bootstrapped, q, boot) is Refresh,
        !no_match(boot, q) ==> search_move(SearchPhase::Bootstrapped, q, boot) is Respond,
        no_match(refreshed, q) ==> search_move(SearchPhase::Refreshed, q, refreshed) is Origin,
        !no_match(refreshed, q) ==> search_move(SearchPhase::Refreshed, q, refreshed) is Respond,
{
}

/// The live origin search matches every origin map item whose normalised
/// name scores against the query: a catalog read from the payload (as
/// `origin_search` reads it) then has a match, so the search answers with
/// hits.
pub proof fn lemma_origin_map_match(state: CatalogState, maps_payload: Json, q: Seq<char>, k: int)
    requires
        state.maps@.len() == crate::catalog::kept_items(crate::catalog::payload_items(maps_payload)).len(),
        forall|i: int| 0 <= i < state.maps@.len() ==> crate::catalog::map_from_item(#[trigger] state.maps@[i], crate::catalog::kept_items(crate::catalog::payload_items(maps_payload))[i]),
        0 <= k < state.maps@.len(),
        score_spec(q, normalized(crate::catalog::text_member(crate::catalog::kept_items(crate::catalog::payload_items(maps_payload))[k], "name"@)->0)) is Some,
    ensures
        !no_match(state, q),
{
    let m = state.maps@[k];
    assert(crate::catalog::map_from_item(m, crate::catalog::kept_items(crate::catalog::payload_items(maps_payload))[k]));
    assert(match_norm(m.name@, m.norm@) == normalized(m.name@));
    assert(map_scores(state.maps@, q)[k] is Some);
}

/// The same for origin brawler items.
pub proof fn lemma_origin_brawler_match(state: CatalogState, brawlers_payload: Json, q: Seq<char>, k: int)
    requires
        state.brawlers@.len() == crate::catalog::kept_items(crate::catalog::payload_items(brawlers_payload)).len(),
        forall|i: int| 0 <= i < state.brawlers@.len() ==> crate::catalog::brawler_from_item(#[trigger] state.brawlers@[i], crate::catalog::kept_items(crate::catalog::payload_items(brawlers_payload))[i]),
        0 <= k < state.brawlers@.len(),
        score_spec(q, normalized(crate::catalog::text_member(crate::catalog::kept_items(crate::catalog::payload_items(brawlers_payload))[k], "name"@)->0)) is Some,
    ensures
        !no_match(state, q),
{
    let b = state.brawlers@[k];
    assert(crate::catalog::brawler_from_item(b, crate::catalog::kept_items(crate::catalog::payload_items(brawlers_payload))[k]));
    assert(match_norm(b.name@, b.norm@) == normalized(b.name@));
    assert(brawler_scores(state.brawlers@, q)[k] is Some);
}

} // verus!
