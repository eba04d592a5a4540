//! Normalised map and brawler detail views built from raw upstream detail
//! documents.
use vstd::multiset::Multiset;
use vstd::prelude::*;
use crate::catalog::{CatalogBrawler, CatalogMap, text_member, mode_name, mode_name_spec};
use crate::text::{normalize_text, normalized, same_text};
use crate::json::{Json, get_in, get_opt, get_spec, int_of, or_first, or_spec};
use crate::stats::{
    BestMapEntry, MapBrawlerEntry, Ranked, TeamEntry, best_map_from, best_map_name,
    count_of, parse_best_map_entry, resolve_brawler_name, resolved_name, MAX_COUNT, MAX_RATE, adjusted_spec, compute_adjusted_win_rate,
    compute_prior_generic, in_bounds, map_stat_from, number_int, parse_map_stat_entry,
    parse_team_entry, prior_spec, round_div, sort_ranked, sorted_desc, stat_name_of, team_from,
    member_names, team_list, win_rate_of, compute_fine_adjusted, compute_fine_prior, fine_adjusted_spec,
    fine_prior_spec, fine_rate_of, read_fine_rate,
};

verus! {

/// The elements of an optional array value; none for anything else.
pub open spec fn arr(v: Option<Json>) -> Seq<Json> {
    match v {
        Some(Json::Array(a)) => a@,
        _ => Seq::empty(),
    }
}

/// The items of `items` that `keep` holds of, in order.
pub open spec fn filter_json(items: Seq<Json>, keep: spec_fn(Json) -> bool) -> Seq<Json>
    decreases items.len(),
{
    if items.len() == 0 {
        Seq::empty()
    } else {
        let rest = filter_json(items.drop_last(), keep);
        if keep(items.last()) {
            rest.push(items.last())
        } else {
            rest
        }
    }
}

pub proof fn lemma_filter_append(a: Seq<Json>, b: Seq<Json>, keep: spec_fn(Json) -> bool)
    ensures
        filter_json(a + b, keep) == filter_json(a, keep) + filter_json(b, keep),
    decreases b.len(),
{
    if b.len() == 0 {
        assert(a + b =~= a);
        assert(filter_json(a, keep) + filter_json(b, keep) =~= filter_json(a, keep));
    } else {
        lemma_filter_append(a, b.drop_last(), keep);
        assert((a + b).drop_last() =~= a + b.drop_last());
        assert((a + b).last() == b.last());
        if keep(b.last()) {
            assert(filter_json(a, keep) + filter_json(b, keep) =~= (filter_json(a, keep) + filter_json(b.drop_last(), keep)).push(b.last()));
        } else {
            assert(filter_json(a, keep) + filter_json(b, keep) =~= filter_json(a, keep) + filter_json(b.drop_last(), keep));
        }
    }
}

/// Which per-map brawler statistics are kept: those with a name and a win rate.
pub open spec fn stat_kept(names: Seq<CatalogBrawler>) -> spec_fn(Json) -> bool {
    |e: Json| stat_name_of(e, names) is Some && win_rate_of(e) is Some
}

/// Which team entries are kept: those with a win rate and a named member.
pub open spec fn team_kept(names: Seq<CatalogBrawler>) -> spec_fn(Json) -> bool {
    |e: Json| member_names(team_list(e), names).len() > 0 && win_rate_of(e) is Some
}

/// `out` holds, in order, the entries that the kept statistics describe.
pub open spec fn stats_read(out: Seq<MapBrawlerEntry>, kept: Seq<Json>, names: Seq<CatalogBrawler>) -> bool {
    &&& out.len() == kept.len()
    &&& forall|k: int| 0 <= k < out.len() ==> map_stat_from(#[trigger] out[k], kept[k], names)
}

/// `out` holds, in order, the team entries that the kept items describe.
pub open spec fn teams_read(out: Seq<TeamEntry>, kept: Seq<Json>, names: Seq<CatalogBrawler>) -> bool {
    &&& out.len() == kept.len()
    &&& forall|k: int| 0 <= k < out.len() ==> team_from(#[trigger] out[k], kept[k], names)
}

/// Appends the entries that the statistics in the array `list` describe.
fn collect_stats(list: Option<&Json>, names: &Vec<CatalogBrawler>, out: &mut Vec<MapBrawlerEntry>)
    requires
        forall|k: int| 0 <= k < old(out)@.len() ==> in_bounds(#[trigger] old(out)@[k].win_rate, old(out)@[k].count),
    ensures
        final(out)@.len() >= old(out)@.len(),
        final(out)@.subrange(0, old(out)@.len() as int) == old(out)@,
        stats_read(final(out)@.skip(old(out)@.len() as int), filter_json(arr(crate::json::opt_val(list)), stat_kept(names@)), names@),
        forall|k: int| 0 <= k < final(out)@.len() ==> in_bounds(#[trigger] final(out)@[k].win_rate, final(out)@[k].count),
{
    let ghost start = out@.len();
    let ghost items = arr(crate::json::opt_val(list));
    assert(out@.skip(start as int) =~= Seq::<MapBrawlerEntry>::empty());
    if let Some(Json::Array(a)) = list {
        let mut i: usize = 0;
        while i < a.len()
            invariant
                a@ == items,
                i <= a@.len(),
                start <= out@.len(),
                out@.subrange(0, start as int) == old(out)@,
                start == old(out)@.len(),
                stats_read(out@.skip(start as int), filter_json(a@.take(i as int), stat_kept(names@)), names@),
                forall|k: int| 0 <= k < out@.len() ==> in_bounds(#[trigger] out@[k].win_rate, out@[k].count),
            decreases a@.len() - i,
        {
            assert(a@.take(i + 1).drop_last() =~= a@.take(i as int));
            let ghost pre = out@;
            if let Some(b) = parse_map_stat_entry(&a[i], names) {
                out.push(b);
                assert(out@.subrange(0, start as int) =~= pre.subrange(0, start as int));
                assert(out@.skip(start as int) =~= pre.skip(start as int).push(b));
            }
            i = i + 1;
        }
        assert(a@.take(i as int) =~= a@);
    }
}

/// Appends the team entries that the items in the array `list` describe.
fn collect_teams(list: Option<&Json>, names: &Vec<CatalogBrawler>, out: &mut Vec<TeamEntry>)
    requires
        forall|k: int| 0 <= k < old(out)@.len() ==> in_bounds(#[trigger] old(out)@[k].win_rate, old(out)@[k].count),
    ensures
        final(out)@.len() >= old(out)@.len(),
        final(out)@.subrange(0, old(out)@.len() as int) == old(out)@,
        teams_read(final(out)@.skip(old(out)@.len() as int), filter_json(arr(crate::json::opt_val(list)), team_kept(names@)), names@),
        forall|k: int| 0 <= k < final(out)@.len() ==> in_bounds(#[trigger] final(out)@[k].win_rate, final(out)@[k].count),
{
    let ghost start = out@.len();
    let ghost items = arr(crate::json::opt_val(list));
    assert(out@.skip(start as int) =~= Seq::<TeamEntry>::empty());
    if let Some(Json::Array(a)) = list {
        let mut i: usize = 0;
        while i < a.len()
            invariant
                a@ == items,
                i <= a@.len(),
                start <= out@.len(),
                out@.subrange(0, start as int) == old(out)@,
                start == old(out)@.len(),
                teams_read(out@.skip(start as int), filter_json(a@.take(i as int), team_kept(names@)), names@),
                forall|k: int| 0 <= k < out@.len() ==> in_bounds(#[trigger] out@[k].win_rate, out@[k].count),
            decreases a@.len() - i,
        {
            assert(a@.take(i + 1).drop_last() =~= a@.take(i as int));
            let ghost pre = out@;
            if let Some(t) = parse_team_entry(&a[i], names) {
                out.push(t);
                assert(out@.subrange(0, start as int) =~= pre.subrange(0, start as int));
                assert(out@.skip(start as int) =~= pre.skip(start as int).push(t));
            }
            i = i + 1;
        }
        assert(a@.take(i as int) =~= a@);
    }
}

proof fn lemma_stats_read_concat(
    x: Seq<MapBrawlerEntry>,
    kx: Seq<Json>,
    y: Seq<MapBrawlerEntry>,
    ky: Seq<Json>,
    names: Seq<CatalogBrawler>,
)
    requires
        stats_read(x, kx, names),
        stats_read(y, ky, names),
    ensures
        stats_read(x + y, kx + ky, names),
{
    assert forall|k: int| 0 <= k < (x + y).len() implies map_stat_from(#[trigger] (x + y)[k], (kx + ky)[k], names) by {
        if k < x.len() {
            assert((x + y)[k] == x[k] && (kx + ky)[k] == kx[k]);
        } else {
            assert((x + y)[k] == y[k - x.len()] && (kx + ky)[k] == ky[k - x.len()]);
        }
    }
}

proof fn lemma_teams_read_concat(
    x: Seq<TeamEntry>,
    kx: Seq<Json>,
    y: Seq<TeamEntry>,
    ky: Seq<Json>,
    names: Seq<CatalogBrawler>,
)
    requires
        teams_read(x, kx, names),
        teams_read(y, ky, names),
    ensures
        teams_read(x + y, kx + ky, names),
{
    assert forall|k: int| 0 <= k < (x + y).len() implies team_from(#[trigger] (x + y)[k], (kx + ky)[k], names) by {
        if k < x.len() {
            assert((x + y)[k] == x[k] && (kx + ky)[k] == kx[k]);
        } else {
            assert((x + y)[k] == y[k - x.len()] && (kx + ky)[k] == ky[k - x.len()]);
        }
    }
}

/// The per-brawler statistics of a map document that are kept, from
/// `stats`, `stats.brawlers`, `brawlers` and `meta.brawlers` in turn.
pub open spec fn stat_candidates(raw: Json, names: Seq<CatalogBrawler>) -> Seq<Json> {
    filter_json(arr(get_spec(raw, "stats"@)), stat_kept(names))
        + filter_json(arr(get_opt(get_spec(raw, "stats"@), "brawlers"@)), stat_kept(names))
        + filter_json(arr(get_spec(raw, "brawlers"@)), stat_kept(names))
        + filter_json(arr(get_opt(get_spec(raw, "meta"@), "brawlers"@)), stat_kept(names))
}

/// The team entries of a map document that are kept, from `teamStats`,
/// `stats.teams`, `teams` and `meta.teams` in turn.
pub open spec fn team_candidates(raw: Json, names: Seq<CatalogBrawler>) -> Seq<Json> {
    filter_json(arr(get_spec(raw, "teamStats"@)), team_kept(names))
        + filter_json(arr(get_opt(get_spec(raw, "stats"@), "teams"@)), team_kept(names))
        + filter_json(arr(get_spec(raw, "teams"@)), team_kept(names))
        + filter_json(arr(get_opt(get_spec(raw, "meta"@), "teams"@)), team_kept(names))
}

/// The (win rate, count) pairs of entries.
pub open spec fn brawler_pairs(s: Seq<MapBrawlerEntry>) -> Seq<(i64, i64)> {
    Seq::new(s.len(), |k: int| (s[k].win_rate, s[k].count))
}

pub open spec fn team_pairs(s: Seq<TeamEntry>) -> Seq<(i64, i64)> {
    Seq::new(s.len(), |k: int| (s[k].win_rate, s[k].count))
}

/// `out` is `read` with each smoothed win rate set against the prior of
/// the whole group.
pub open spec fn smoothed_brawlers(out: Seq<MapBrawlerEntry>, read: Seq<MapBrawlerEntry>) -> bool {
    &&& out.len() == read.len()
    &&& forall|k: int| 0 <= k < out.len() ==> {
        &&& #[trigger] out[k].name == read[k].name
        &&& out[k].win_rate == read[k].win_rate
        &&& out[k].count == read[k].count
        &&& out[k].use_rate == read[k].use_rate
        &&& out[k].adjusted_win_rate == adjusted_spec(read[k].win_rate as int, read[k].count as int, prior_spec(brawler_pairs(read)))
    }
}

pub open spec fn smoothed_teams(out: Seq<TeamEntry>, read: Seq<TeamEntry>) -> bool {
    &&& out.len() == read.len()
    &&& forall|k: int| 0 <= k < out.len() ==> {
        &&& #[trigger] out[k].brawlers == read[k].brawlers
        &&& out[k].win_rate == read[k].win_rate
        &&& out[k].count == read[k].count
        &&& out[k].adjusted_win_rate == adjusted_spec(read[k].win_rate as int, read[k].count as int, prior_spec(team_pairs(read)))
    }
}

/// `r` is the first `cap` entries of `all` sorted by rank.
pub open spec fn top_of<T: Ranked>(r: Seq<T>, all: Seq<T>, cap: nat) -> bool {
    exists|sorted: Seq<T>| #[trigger] sorted_desc(sorted) && sorted.to_multiset() == all.to_multiset()
        && r == sorted.take(if cap <= sorted.len() { cap as int } else { sorted.len() as int })
}

/// Bounds that every smoothed entry keeps.
pub open spec fn brawler_bounded(e: MapBrawlerEntry) -> bool {
    in_bounds(e.win_rate, e.count) && -MAX_RATE <= e.adjusted_win_rate <= MAX_RATE
}

pub open spec fn team_bounded(e: TeamEntry) -> bool {
    in_bounds(e.win_rate, e.count) && -MAX_RATE <= e.adjusted_win_rate <= MAX_RATE
}

fn smooth_brawlers(read: Vec<MapBrawlerEntry>) -> (r: Vec<MapBrawlerEntry>)
    requires
        forall|k: int| 0 <= k < read@.len() ==> in_bounds(#[trigger] read@[k].win_rate, read@[k].count),
    ensures
        smoothed_brawlers(r@, read@),
        forall|k: int| 0 <= k < r@.len() ==> brawler_bounded(#[trigger] r@[k]),
{
    let mut pairs: Vec<(i64, i64)> = Vec::new();
    let mut i: usize = 0;
    while i < read.len()
        invariant
            i <= read@.len(),
            pairs@ == brawler_pairs(read@).take(i as int),
        decreases read@.len() - i,
    {
        pairs.push((read[i].win_rate, read[i].count));
        i = i + 1;
        assert(pairs@ =~= brawler_pairs(read@).take(i as int));
    }
    assert(pairs@ =~= brawler_pairs(read@));
    let prior = compute_prior_generic(&pairs);
    let ghost orig = read@;
    let mut rest = read;
    let mut out: Vec<MapBrawlerEntry> = Vec::new();
    let ghost mut i: int = 0;
    while rest.len() > 0
        invariant
            0 <= i <= orig.len(),
            rest@ == orig.skip(i),
            out@.len() == i,
            prior == prior_spec(brawler_pairs(orig)),
            -MAX_RATE <= prior <= MAX_RATE,
            forall|k: int| 0 <= k < orig.len() ==> in_bounds(#[trigger] orig[k].win_rate, orig[k].count),
            forall|k: int| 0 <= k < i ==> {
                &&& #[trigger] out@[k].name == orig[k].name
                &&& out@[k].win_rate == orig[k].win_rate
                &&& out@[k].count == orig[k].count
                &&& out@[k].use_rate == orig[k].use_rate
                &&& out@[k].adjusted_win_rate == adjusted_spec(orig[k].win_rate as int, orig[k].count as int, prior as int)
                &&& brawler_bounded(out@[k])
            },
        decreases rest@.len(),
    {
        let e = rest.remove(0);
        proof {
            assert(e == orig[i]);
            assert(in_bounds(orig[i].win_rate, orig[i].count));
        }
        let adjusted = compute_adjusted_win_rate(e.win_rate, e.count, prior);
        out.push(MapBrawlerEntry {
            name: e.name,
            win_rate: e.win_rate,
            count: e.count,
            use_rate: e.use_rate,
            adjusted_win_rate: adjusted,
        });
        proof {
            i = i + 1;
            assert(rest@ =~= orig.skip(i));
        }
    }
    assert forall|k: int| 0 <= k < out@.len() implies brawler_bounded(#[trigger] out@[k]) by {
        assert(out@[k].name == orig[k].name);
    }
    out
}

fn smooth_teams(read: Vec<TeamEntry>) -> (r: Vec<TeamEntry>)
    requires
        forall|k: int| 0 <= k < read@.len() ==> in_bounds(#[trigger] read@[k].win_rate, read@[k].count),
    ensures
        smoothed_teams(r@, read@),
        forall|k: int| 0 <= k < r@.len() ==> team_bounded(#[trigger] r@[k]),
{
    let mut pairs: Vec<(i64, i64)> = Vec::new();
    let mut i: usize = 0;
    while i < read.len()
        invariant
            i <= read@.len(),
            pairs@ == team_pairs(read@).take(i as int),
        decreases read@.len() - i,
    {
        pairs.push((read[i].win_rate, read[i].count));
        i = i + 1;
        assert(pairs@ =~= team_pairs(read@).take(i as int));
    }
    assert(pairs@ =~= team_pairs(read@));
    let prior = compute_prior_generic(&pairs);
    let ghost orig = read@;
    let mut rest = read;
    let mut out: Vec<TeamEntry> = Vec::new();
    let ghost mut i: int = 0;
    while rest.len() > 0
        invariant
            0 <= i <= orig.len(),
            rest@ == orig.skip(i),
            out@.len() == i,
            prior == prior_spec(team_pairs(orig)),
            -MAX_RATE <= prior <= MAX_RATE,
            forall|k: int| 0 <= k < orig.len() ==> in_bounds(#[trigger] orig[k].win_rate, orig[k].count),
            forall|k: int| 0 <= k < i ==> {
                &&& #[trigger] out@[k].brawlers == orig[k].brawlers
                &&& out@[k].win_rate == orig[k].win_rate
                &&& out@[k].count == orig[k].count
                &&& out@[k].adjusted_win_rate == adjusted_spec(orig[k].win_rate as int, orig[k].count as int, prior as int)
                &&& team_bounded(out@[k])
            },
        decreases rest@.len(),
    {
        let e = rest.remove(0);
        proof {
            assert(e == orig[i]);
            assert(in_bounds(orig[i].win_rate, orig[i].count));
        }
        let adjusted = compute_adjusted_win_rate(e.win_rate, e.count, prior);
        out.push(TeamEntry {
            brawlers: e.brawlers,
            win_rate: e.win_rate,
            count: e.count,
            adjusted_win_rate: adjusted,
        });
        proof {
            i = i + 1;
            assert(rest@ =~= orig.skip(i));
        }
    }
    assert forall|k: int| 0 <= k < out@.len() implies team_bounded(#[trigger] out@[k]) by {
        assert(out@[k].brawlers == orig[k].brawlers);
    }
    out
}

proof fn lemma_prefix_split<T>(s: Seq<T>, p: Seq<T>)
    requires
        p.len() <= s.len(),
        s.subrange(0, p.len() as int) == p,
    ensures
        s == p + s.skip(p.len() as int),
{
    assert forall|k: int| 0 <= k < p.len() implies s[k] == p[k] by {
        assert(s.subrange(0, p.len() as int)[k] == s[k]);
    }
    assert(s =~= p + s.skip(p.len() as int));
}

/// The entries sorted by rank and cut to `cap`.
pub fn rank_cut<T: Ranked>(all: Vec<T>, cap: usize) -> (r: Vec<T>)
    ensures
        top_of(r@, all@, cap as nat),
        r@.len() <= cap,
        forall|x: T| r@.contains(x) ==> all@.contains(x),
{
    broadcast use vstd::seq_lib::to_multiset_contains;
    let ghost a = all@;
    let mut sorted = sort_ranked(all);
    let ghost full = sorted@;
    if cap < sorted.len() {
        sorted.truncate(cap);
    }
    assert(sorted@ == full.take(if (cap as nat) <= full.len() { cap as int } else { full.len() as int }));
    assert(sorted_desc(full));
    assert forall|x: T| sorted@.contains(x) implies a.contains(x) by {
        let k = choose|k: int| 0 <= k < sorted@.len() && sorted@[k] == x;
        assert(full[k] == x);
        assert(full.contains(x));
        assert(full.to_multiset().count(x) > 0);
        assert(a.to_multiset().count(x) > 0);
    }
    sorted
}

/// How many teams the fallback builds from `n` ranked brawlers: none below
/// three, else one per window of three among the first eight, at most six.
pub open spec fn fallback_count(n: int) -> int {
    if n < 3 {
        0
    } else {
        let top = if n < 8 { n } else { 8 };
        if top - 2 < 6 { top - 2 } else { 6 }
    }
}

/// `t` holds the pseudo-teams made of each window of three consecutive
/// ranked brawlers: rate `round((a + b + c) / 3 + 1.5)` in tenths and count
/// `round((x + y + z) / 3)`.
pub open spec fn fallback_teams_spec(t: Seq<TeamEntry>, b: Seq<MapBrawlerEntry>) -> bool {
    &&& t.len() == fallback_count(b.len() as int)
    &&& forall|i: int| 0 <= i < t.len() ==> {
        &&& (#[trigger] t[i]).brawlers@.len() == 3
        &&& t[i].brawlers@[0]@ == b[i].name@
        &&& t[i].brawlers@[1]@ == b[i + 1].name@
        &&& t[i].brawlers@[2]@ == b[i + 2].name@
        &&& t[i].win_rate == round_div(
            b[i].adjusted_win_rate + b[i + 1].adjusted_win_rate + b[i + 2].adjusted_win_rate + 45,
            3,
        )
        &&& t[i].adjusted_win_rate == t[i].win_rate
        &&& t[i].count == round_div(b[i].count + b[i + 1].count + b[i + 2].count, 3)
    }
}

/// Pseudo-teams for a map without team data (see `fallback_teams_spec`).
pub fn build_fallback_teams_from_brawlers(b: &Vec<MapBrawlerEntry>) -> (r: Vec<TeamEntry>)
    requires
        forall|k: int| 0 <= k < b@.len() ==> brawler_bounded(#[trigger] b@[k]),
    ensures
        fallback_teams_spec(r@, b@),
{
    let mut teams: Vec<TeamEntry> = Vec::new();
    let n = b.len();
    if n < 3 {
        return teams;
    }
    let top: usize = if n < 8 { n } else { 8 };
    let mut i: usize = 0;
    while i + 2 < top && teams.len() < 6
        invariant
            n == b@.len(),
            3 <= n,
            top == if n < 8 { n } else { 8 },
            i <= 6,
            teams@.len() == i,
            i + 2 <= top,
            forall|k: int| 0 <= k < b@.len() ==> brawler_bounded(#[trigger] b@[k]),
            forall|j: int| 0 <= j < i ==> {
                &&& (#[trigger] teams@[j]).brawlers@.len() == 3
                &&& teams@[j].brawlers@[0]@ == b@[j].name@
                &&& teams@[j].brawlers@[1]@ == b@[j + 1].name@
                &&& teams@[j].brawlers@[2]@ == b@[j + 2].name@
                &&& teams@[j].win_rate == round_div(
                    b@[j].adjusted_win_rate + b@[j + 1].adjusted_win_rate + b@[j + 2].adjusted_win_rate + 45,
                    3,
                )
                &&& teams@[j].adjusted_win_rate == teams@[j].win_rate
                &&& teams@[j].count == round_div(b@[j].count + b@[j + 1].count + b@[j + 2].count, 3)
            },
        decreases top - i,
    {
        let x = &b[i];
        let y = &b[i + 1];
        let z = &b[i + 2];
        proof {
            assert(brawler_bounded(b@[i as int]));
            assert(brawler_bounded(b@[i + 1]));
            assert(brawler_bounded(b@[i + 2]));
        }
        let sum = x.adjusted_win_rate as i128 + y.adjusted_win_rate as i128 + z.adjusted_win_rate as i128 + 45;
        let rate = crate::stats::round_div_exec(sum, 3) as i64;
        let counts = x.count as i128 + y.count as i128 + z.count as i128;
        let count = crate::stats::round_div_exec(counts, 3) as i64;
        proof {
            crate::stats::lemma_round_div_between(sum as int, 3, -MAX_RATE as int, MAX_RATE + 15);
            crate::stats::lemma_round_div_between(counts as int, 3, 0, MAX_COUNT as int);
        }
        let mut members: Vec<String> = Vec::new();
        members.push(x.name.clone());
        members.push(y.name.clone());
        members.push(z.name.clone());
        teams.push(TeamEntry { brawlers: members, win_rate: rate, count, adjusted_win_rate: rate });
        i = i + 1;
    }
    teams
}

/// A normalised map detail view.
pub struct MapResponse {
    pub map: String,
    pub mode: String,
    pub brawlers: Vec<MapBrawlerEntry>,
    pub teams: Vec<TeamEntry>,
}

/// A map document is usable when it has a non-zero integer `id` and a
/// non-empty string `name`.
pub open spec fn map_doc_ok(raw: Json) -> bool {
    &&& get_spec(raw, "id"@) matches Some(v) && number_int(v) matches Some(id) && id != 0
    &&& text_member(raw, "name"@) matches Some(n) && n.len() > 0
}

fn doc_id_and_name(raw: &Json) -> (r: Option<String>)
    ensures
        r is Some <==> map_doc_ok(*raw),
        r matches Some(n) ==> text_member(*raw, "name"@) == Some(n@),
{
    let id = match raw.get("id") {
        Some(v) => match crate::stats::read_number_int(v) {
            Some(id) => id,
            None => 0,
        },
        None => 0,
    };
    if id == 0 {
        return None;
    }
    match raw.get("name") {
        Some(Json::Text(n)) => if n.as_str().is_empty() { None } else { Some(n.clone()) },
        _ => None,
    }
}

/// The normalised view of a raw map document: its name and mode; the
/// per-brawler statistics (from `stats`, `stats.brawlers`, `brawlers`,
/// `meta.brawlers`) smoothed against their group prior, ranked and cut to
/// 20; the team entries (from `teamStats`, `stats.teams`, `teams`,
/// `meta.teams`) treated the same way, or, when there are none, the
/// pseudo-teams built from the ranked brawlers.
pub fn strip_map_response(raw: &Json, names: &Vec<CatalogBrawler>) -> (r: Option<MapResponse>)
    ensures
        r is Some <==> map_doc_ok(*raw),
        r matches Some(m) ==> {
            &&& text_member(*raw, "name"@) == Some(m.map@)
            &&& m.mode@ == mode_name_spec(*raw)
            &&& exists|read: Seq<MapBrawlerEntry>, sm: Seq<MapBrawlerEntry>|
                stats_read(read, stat_candidates(*raw, names@), names@) && #[trigger] smoothed_brawlers(sm, read)
                    && top_of(m.brawlers@, sm, 20)
            &&& exists|read: Seq<TeamEntry>, sm: Seq<TeamEntry>|
                teams_read(read, team_candidates(*raw, names@), names@) && #[trigger] smoothed_teams(sm, read)
                    && if sm.len() > 0 {
                    top_of(m.teams@, sm, 20)
                } else {
                    fallback_teams_spec(m.teams@, m.brawlers@)
                }
        },
{
    let map = match doc_id_and_name(raw) {
        Some(n) => n,
        None => {
            return None;
        },
    };
    let stats = raw.get("stats");
    let meta = raw.get("meta");
    let mut read: Vec<MapBrawlerEntry> = Vec::new();
    let ghost k0 = read@;
    collect_stats(stats, names, &mut read);
    let ghost r1 = read@;
    collect_stats(get_in(stats, "brawlers"), names, &mut read);
    let ghost r2 = read@;
    collect_stats(raw.get("brawlers"), names, &mut read);
    let ghost r3 = read@;
    collect_stats(get_in(meta, "brawlers"), names, &mut read);
    proof {
        let c1 = filter_json(arr(get_spec(*raw, "stats"@)), stat_kept(names@));
        let c2 = filter_json(arr(get_opt(get_spec(*raw, "stats"@), "brawlers"@)), stat_kept(names@));
        let c3 = filter_json(arr(get_spec(*raw, "brawlers"@)), stat_kept(names@));
        let c4 = filter_json(arr(get_opt(get_spec(*raw, "meta"@), "brawlers"@)), stat_kept(names@));
        assert(r1 =~= r1.skip(0));
        lemma_prefix_split(r2, r1);
        lemma_prefix_split(r3, r2);
        lemma_prefix_split(read@, r3);
        lemma_stats_read_concat(r1, c1, r2.skip(r1.len() as int), c2, names@);
        lemma_stats_read_concat(r2, c1 + c2, r3.skip(r2.len() as int), c3, names@);
        lemma_stats_read_concat(r3, c1 + c2 + c3, read@.skip(r3.len() as int), c4, names@);
    }
    let ghost read_s = read@;
    let smoothed = smooth_brawlers(read);
    let ghost sm_s = smoothed@;
    let brawlers = rank_cut(smoothed, 20);
    let team_stats = raw.get("teamStats");
    let mut tread: Vec<TeamEntry> = Vec::new();
    collect_teams(team_stats, names, &mut tread);
    let ghost t1 = tread@;
    collect_teams(get_in(stats, "teams"), names, &mut tread);
    let ghost t2 = tread@;
    collect_teams(raw.get("teams"), names, &mut tread);
    let ghost t3 = tread@;
    collect_teams(get_in(meta, "teams"), names, &mut tread);
    proof {
        let c1 = filter_json(arr(get_spec(*raw, "teamStats"@)), team_kept(names@));
        let c2 = filter_json(arr(get_opt(get_spec(*raw, "stats"@), "teams"@)), team_kept(names@));
        let c3 = filter_json(arr(get_spec(*raw, "teams"@)), team_kept(names@));
        let c4 = filter_json(arr(get_opt(get_spec(*raw, "meta"@), "teams"@)), team_kept(names@));
        assert(t1 =~= t1.skip(0));
        lemma_prefix_split(t2, t1);
        lemma_prefix_split(t3, t2);
        lemma_prefix_split(tread@, t3);
        lemma_teams_read_concat(t1, c1, t2.skip(t1.len() as int), c2, names@);
        lemma_teams_read_concat(t2, c1 + c2, t3.skip(t2.len() as int), c3, names@);
        lemma_teams_read_concat(t3, c1 + c2 + c3, tread@.skip(t3.len() as int), c4, names@);
    }
    let ghost tread_s = tread@;
    let tsmoothed = smooth_teams(tread);
    let ghost tsm_s = tsmoothed@;
    let teams = if tsmoothed.len() > 0 {
        rank_cut(tsmoothed, 20)
    } else {
        proof {
            assert forall|k: int| 0 <= k < brawlers@.len() implies brawler_bounded(#[trigger] brawlers@[k]) by {
                assert(brawlers@.contains(brawlers@[k]));
                assert(sm_s.contains(brawlers@[k]));
            }
        }
        build_fallback_teams_from_brawlers(&brawlers)
    };
    let mode = mode_name(raw);
    assert(smoothed_brawlers(sm_s, read_s));
    assert(smoothed_teams(tsm_s, tread_s));
    Some(MapResponse { map, mode, brawlers, teams })
}

/// Which best-map entries are kept: those with a map name and a win rate.
pub open spec fn best_kept() -> spec_fn(Json) -> bool {
    |e: Json| best_map_name(e) is Some && win_rate_of(e) is Some
}

/// `out` holds, in order, the best-map entries that the kept items describe.
pub open spec fn best_read(out: Seq<BestMapEntry>, kept: Seq<Json>) -> bool {
    &&& out.len() == kept.len()
    &&& forall|k: int| 0 <= k < out.len() ==> best_map_from(#[trigger] out[k], kept[k])
}

fn collect_best(list: Option<&Json>, out: &mut Vec<BestMapEntry>)
    requires
        forall|k: int| 0 <= k < old(out)@.len() ==> in_bounds(#[trigger] old(out)@[k].win_rate, old(out)@[k].count),
    ensures
        final(out)@.len() >= old(out)@.len(),
        final(out)@.subrange(0, old(out)@.len() as int) == old(out)@,
        best_read(final(out)@.skip(old(out)@.len() as int), filter_json(arr(crate::json::opt_val(list)), best_kept())),
        forall|k: int| 0 <= k < final(out)@.len() ==> in_bounds(#[trigger] final(out)@[k].win_rate, final(out)@[k].count),
{
    let ghost start = out@.len();
    let ghost items = arr(crate::json::opt_val(list));
    assert(out@.skip(start as int) =~= Seq::<BestMapEntry>::empty());
    if let Some(Json::Array(a)) = list {
        let mut i: usize = 0;
        while i < a.len()
            invariant
                a@ == items,
                i <= a@.len(),
                start <= out@.len(),
                out@.subrange(0, start as int) == old(out)@,
                start == old(out)@.len(),
                best_read(out@.skip(start as int), filter_json(a@.take(i as int), best_kept())),
                forall|k: int| 0 <= k < out@.len() ==> in_bounds(#[trigger] out@[k].win_rate, out@[k].count),
            decreases a@.len() - i,
        {
            assert(a@.take(i + 1).drop_last() =~= a@.take(i as int));
            let ghost pre = out@;
            if let Some(b) = parse_best_map_entry(&a[i]) {
                out.push(b);
                assert(out@.subrange(0, start as int) =~= pre.subrange(0, start as int));
                assert(out@.skip(start as int) =~= pre.skip(start as int).push(b));
            }
            i = i + 1;
        }
        assert(a@.take(i as int) =~= a@);
    }
}

proof fn lemma_best_read_concat(x: Seq<BestMapEntry>, kx: Seq<Json>, y: Seq<BestMapEntry>, ky: Seq<Json>)
    requires
        best_read(x, kx),
        best_read(y, ky),
    ensures
        best_read(x + y, kx + ky),
{
    assert forall|k: int| 0 <= k < (x + y).len() implies best_map_from(#[trigger] (x + y)[k], (kx + ky)[k]) by {
        if k < x.len() {
            assert((x + y)[k] == x[k] && (kx + ky)[k] == kx[k]);
        } else {
            assert((x + y)[k] == y[k - x.len()] && (kx + ky)[k] == ky[k - x.len()]);
        }
    }
}

/// The best-map entries of a brawler document that are kept, from
/// `stats.bestMaps`, `bestMaps` and `meta.maps` in turn.
pub open spec fn best_candidates(raw: Json) -> Seq<Json> {
    filter_json(arr(get_opt(get_spec(raw, "stats"@), "bestMaps"@)), best_kept())
        + filter_json(arr(get_spec(raw, "bestMaps"@)), best_kept())
        + filter_json(arr(get_opt(get_spec(raw, "meta"@), "maps"@)), best_kept())
}

/// The (win rate, count) pairs of best-map entries.
pub open spec fn best_pairs(s: Seq<BestMapEntry>) -> Seq<(i64, i64)> {
    Seq::new(s.len(), |k: int| (s[k].win_rate, s[k].count))
}

/// `out` is `read` with each smoothed win rate set against the prior of
/// the whole group.
pub open spec fn smoothed_best(out: Seq<BestMapEntry>, read: Seq<BestMapEntry>) -> bool {
    &&& out.len() == read.len()
    &&& forall|k: int| 0 <= k < out.len() ==> {
        &&& #[trigger] out[k].map == read[k].map
        &&& out[k].mode == read[k].mode
        &&& out[k].win_rate == read[k].win_rate
        &&& out[k].count == read[k].count
        &&& out[k].adjusted_win_rate == adjusted_spec(read[k].win_rate as int, read[k].count as int, prior_spec(best_pairs(read)))
    }
}

fn smooth_best(read: Vec<BestMapEntry>) -> (r: Vec<BestMapEntry>)
    requires
        forall|k: int| 0 <= k < read@.len() ==> in_bounds(#[trigger] read@[k].win_rate, read@[k].count),
    ensures
        smoothed_best(r@, read@),
{
    let mut pairs: Vec<(i64, i64)> = Vec::new();
    let mut i: usize = 0;
    while i < read.len()
        invariant
            i <= read@.len(),
            pairs@ == best_pairs(read@).take(i as int),
        decreases read@.len() - i,
    {
        pairs.push((read[i].win_rate, read[i].count));
        i = i + 1;
        assert(pairs@ =~= best_pairs(read@).take(i as int));
    }
    assert(pairs@ =~= best_pairs(read@));
    let ghost read_s = read@;
    let prior = compute_prior_generic(&pairs);
    let ghost orig = read@;
    let mut rest = read;
    let mut out: Vec<BestMapEntry> = Vec::new();
    let ghost mut i: int = 0;
    while rest.len() > 0
        invariant
            0 <= i <= orig.len(),
            rest@ == orig.skip(i),
            out@.len() == i,
            prior == prior_spec(best_pairs(orig)),
            -MAX_RATE <= prior <= MAX_RATE,
            forall|k: int| 0 <= k < orig.len() ==> in_bounds(#[trigger] orig[k].win_rate, orig[k].count),
            forall|k: int| 0 <= k < i ==> {
                &&& #[trigger] out@[k].map == orig[k].map
                &&& out@[k].mode == orig[k].mode
                &&& out@[k].win_rate == orig[k].win_rate
                &&& out@[k].count == orig[k].count
                &&& out@[k].adjusted_win_rate == adjusted_spec(orig[k].win_rate as int, orig[k].count as int, prior as int)
            },
        decreases rest@.len(),
    {
        let e = rest.remove(0);
        proof {
            assert(e == orig[i]);
            assert(in_bounds(orig[i].win_rate, orig[i].count));
        }
        let adjusted = compute_adjusted_win_rate(e.win_rate, e.count, prior);
        out.push(BestMapEntry { map: e.map, mode: e.mode, win_rate: e.win_rate, count: e.count, adjusted_win_rate: adjusted });
        proof {
            i = i + 1;
            assert(rest@ =~= orig.skip(i));
        }
    }
    assert(orig == read_s);
    assert(smoothed_best(out@, orig));
    out
}

/// The id that a per-map statistic gives its brawler: `brawler.id`, else
/// `brawler` itself.
pub open spec fn stat_brawler_id(st: Json) -> Option<int> {
    int_of(or_spec(get_opt(get_spec(st, "brawler"@), "id"@), get_spec(st, "brawler"@)))
}

/// A per-map statistic is about the brawler with `id`, or, by normalised
/// name, about the brawler named `name` (when `name` is not empty).
pub open spec fn stat_matches(st: Json, id: int, name: Seq<char>, names: Seq<CatalogBrawler>) -> bool {
    ||| stat_brawler_id(st) == Some(id)
    ||| (name.len() > 0 && resolved_name(get_spec(st, "brawler"@), names) is Some
        && normalized(resolved_name(get_spec(st, "brawler"@), names)->0) == normalized(name))
}

/// A statistic whose win rate reads, both in tenths and in thousandths.
pub open spec fn usable_rate(st: Json) -> bool {
    win_rate_of(st) is Some && fine_rate_of(st) is Some
}

/// The first statistic of `stats` that matches and has a win rate.
pub open spec fn first_usable(stats: Seq<Json>, id: int, name: Seq<char>, names: Seq<CatalogBrawler>) -> Option<Json>
    decreases stats.len(),
{
    if stats.len() == 0 {
        None
    } else if stat_matches(stats[0], id, name, names) && usable_rate(stats[0]) {
        Some(stats[0])
    } else {
        first_usable(stats.drop_first(), id, name, names)
    }
}

/// The (win rate in thousandths, count) pairs of the statistics that have one.
pub open spec fn stat_pairs(stats: Seq<Json>) -> Seq<(i64, i64)>
    decreases stats.len(),
{
    if stats.len() == 0 {
        Seq::empty()
    } else {
        let rest = stat_pairs(stats.drop_last());
        match fine_rate_of(stats.last()) {
            Some(w) => rest.push((w as i64, count_of(stats.last()) as i64)),
            None => rest,
        }
    }
}

pub open spec fn stats_of(m: CatalogMap) -> Seq<Json> {
    match m.stats {
        Some(v) => v@,
        None => Seq::empty(),
    }
}

/// The positions of the maps that hold a usable statistic for the brawler.
pub open spec fn catalog_hits(maps: Seq<CatalogMap>, id: int, name: Seq<char>, names: Seq<CatalogBrawler>) -> Seq<int>
    decreases maps.len(),
{
    if maps.len() == 0 {
        Seq::empty()
    } else {
        let rest = catalog_hits(maps.drop_last(), id, name, names);
        if first_usable(stats_of(maps.last()), id, name, names) is Some {
            rest.push(maps.len() - 1)
        } else {
            rest
        }
    }
}

/// `e` is the best-map entry that map `m` gives through its first usable
/// statistic: its win rate in tenths, and its rate in thousandths smoothed
/// against the prior of all of the map's statistics, rounded to tenths only
/// at the end.
pub open spec fn entry_from_map(e: BestMapEntry, m: CatalogMap, id: int, name: Seq<char>, names: Seq<CatalogBrawler>) -> bool {
    let st = first_usable(stats_of(m), id, name, names)->0;
    &&& e.map@ == m.name@
    &&& e.mode@ == m.mode@
    &&& win_rate_of(st) == Some(e.win_rate as int)
    &&& e.count == count_of(st)
    &&& e.adjusted_win_rate == fine_adjusted_spec(fine_rate_of(st)->0, e.count as int, fine_prior_spec(stat_pairs(stats_of(m))))
}

fn map_prior(stats: &Vec<Json>) -> (r: i64)
    ensures
        r == fine_prior_spec(stat_pairs(stats@)),
        -MAX_RATE <= r <= MAX_RATE,
{
    let mut pairs: Vec<(i64, i64)> = Vec::new();
    let mut i: usize = 0;
    while i < stats.len()
        invariant
            i <= stats@.len(),
            pairs@ == stat_pairs(stats@.take(i as int)),
            forall|k: int| 0 <= k < pairs@.len() ==> crate::stats::pair_in_bounds(#[trigger] pairs@[k]),
        decreases stats@.len() - i,
    {
        assert(stats@.take(i + 1).drop_last() =~= stats@.take(i as int));
        if let Some(w) = read_fine_rate(&stats[i]) {
            pairs.push((w, crate::stats::read_count(&stats[i])));
        }
        i = i + 1;
    }
    assert(stats@.take(i as int) =~= stats@);
    compute_fine_prior(&pairs)
}

proof fn lemma_first_usable_has_rate(stats: Seq<Json>, id: int, name: Seq<char>, names: Seq<CatalogBrawler>)
    requires
        first_usable(stats, id, name, names) is Some,
    ensures
        usable_rate(first_usable(stats, id, name, names)->0),
    decreases stats.len(),
{
    if stats.len() > 0 && !(stat_matches(stats[0], id, name, names) && usable_rate(stats[0])) {
        lemma_first_usable_has_rate(stats.drop_first(), id, name, names);
    }
}

/// The first usable statistic of a map for the brawler (see `first_usable`).
fn find_usable(stats: &Vec<Json>, id: i64, name: &str, name_norm: &str, names: &Vec<CatalogBrawler>) -> (r: Option<usize>)
    requires
        name_norm@ == normalized(name@),
    ensures
        r matches Some(k) ==> k < stats@.len() && first_usable(stats@, id as int, name@, names@) == Some(stats@[k as int]),
        r is None ==> first_usable(stats@, id as int, name@, names@) is None,
{
    let mut i: usize = 0;
    assert(stats@.skip(0) =~= stats@);
    while i < stats.len()
        invariant
            i <= stats@.len(),
            name_norm@ == normalized(name@),
            first_usable(stats@, id as int, name@, names@) == first_usable(stats@.skip(i as int), id as int, name@, names@),
        decreases stats@.len() - i,
    {
        let st = &stats[i];
        assert(stats@.skip(i as int).drop_first() =~= stats@.skip(i + 1));
        assert(stats@.skip(i as int)[0] == stats@[i as int]);
        let sid = crate::json::to_i64(or_first(get_in(st.get("brawler"), "id"), st.get("brawler")));
        let by_id = match sid {
            Some(v) => v == id,
            None => false,
        };
        let by_name = if name.is_empty() {
            false
        } else {
            match resolve_brawler_name(st.get("brawler"), names) {
                Some(n) => same_text(normalize_text(n.as_str()).as_str(), name_norm),
                None => false,
            }
        };
        if (by_id || by_name) && crate::stats::read_win_rate(st).is_some() && read_fine_rate(st).is_some() {
            return Some(i);
        }
        i = i + 1;
    }
    None
}

/// `r` is the first 25, by rank, of the entries that the catalog's maps give
/// for the brawler (see `entry_from_map`), in map order before ranking.
pub open spec fn catalog_best(r: Seq<BestMapEntry>, maps: Seq<CatalogMap>, id: int, name: Seq<char>, names: Seq<CatalogBrawler>) -> bool {
    exists|all: Seq<BestMapEntry>| {
        &&& all.len() == catalog_hits(maps, id, name, names).len()
        &&& forall|k: int| 0 <= k < all.len() ==> entry_from_map(#[trigger] all[k], maps[catalog_hits(maps, id, name, names)[k]], id, name, names)
        &&& #[trigger] top_of(r, all, 25)
    }
}

/// Best maps of a brawler gathered from the cached per-map statistics of
/// the catalog: per map, the first statistic that matches the brawler by id
/// or by normalised name and has a win rate, smoothed at the finer scale
/// against that map's prior and rounded to tenths once; ranked and cut to 25.
pub fn build_best_maps_from_catalog(
    brawler_id: i64,
    fallback_name: &str,
    maps: &Vec<CatalogMap>,
    names: &Vec<CatalogBrawler>,
) -> (r: Vec<BestMapEntry>)
    ensures
        catalog_best(r@, maps@, brawler_id as int, fallback_name@, names@),
{
    let name_norm = normalize_text(fallback_name);
    let mut all: Vec<BestMapEntry> = Vec::new();
    let mut i: usize = 0;
    while i < maps.len()
        invariant
            i <= maps@.len(),
            name_norm@ == normalized(fallback_name@),
            all@.len() == catalog_hits(maps@.take(i as int), brawler_id as int, fallback_name@, names@).len(),
            forall|k: int| 0 <= k < all@.len() ==> entry_from_map(#[trigger] all@[k], maps@[catalog_hits(maps@.take(i as int), brawler_id as int, fallback_name@, names@)[k]], brawler_id as int, fallback_name@, names@),
            forall|k: int| 0 <= k < catalog_hits(maps@.take(i as int), brawler_id as int, fallback_name@, names@).len() ==> 0 <= #[trigger] catalog_hits(maps@.take(i as int), brawler_id as int, fallback_name@, names@)[k] < i,
        decreases maps@.len() - i,
    {
        let m = &maps[i];
        let ghost pre = catalog_hits(maps@.take(i as int), brawler_id as int, fallback_name@, names@);
        assert(maps@.take(i + 1).drop_last() =~= maps@.take(i as int));
        assert(maps@.take(i + 1).last() == maps@[i as int]);
        if let Some(stats) = &m.stats {
            if let Some(k) = find_usable(stats, brawler_id, fallback_name, name_norm.as_str(), names) {
                let st = &stats[k];
                proof {
                    assert(stats_of(maps@[i as int]) == stats@);
                    lemma_first_usable_has_rate(stats@, brawler_id as int, fallback_name@, names@);
                }
                let w = match crate::stats::read_win_rate(st) {
                    Some(w) => w,
                    None => 0,
                };
                let f = match read_fine_rate(st) {
                    Some(f) => f,
                    None => 0,
                };
                let c = crate::stats::read_count(st);
                let prior = map_prior(stats);
                let adjusted = compute_fine_adjusted(f, c, prior);
                all.push(BestMapEntry { map: m.name.clone(), mode: m.mode.clone(), win_rate: w, count: c, adjusted_win_rate: adjusted });
                proof {
                    let post = catalog_hits(maps@.take(i + 1), brawler_id as int, fallback_name@, names@);
                    assert(post == pre.push(i as int));
                    assert forall|q: int| 0 <= q < all@.len() implies entry_from_map(#[trigger] all@[q], maps@[post[q]], brawler_id as int, fallback_name@, names@) by {
                        if q < pre.len() {
                            assert(post[q] == pre[q]);
                        }
                    }
                }
            }
        }
        i = i + 1;
    }
    assert(maps@.take(i as int) =~= maps@);
    let ghost a = all@;
    let r = rank_cut(all, 25);
    assert(top_of(r@, a, 25));
    assert(catalog_best(r@, maps@, brawler_id as int, fallback_name@, names@));
    r
}

/// A normalised brawler detail view.
pub struct BrawlerResponse {
    pub name: String,
    pub best_maps: Vec<BestMapEntry>,
}

/// The normalised view of a raw brawler document: its name, and its best
/// maps (from `stats.bestMaps`, `bestMaps`, `meta.maps`) smoothed against
/// their group prior, ranked and cut to 25; when there are none, the best maps
/// gathered from the catalog for `requested_id` and the document's name.
pub fn strip_brawler_response(
    raw: &Json,
    requested_id: i64,
    maps: &Vec<CatalogMap>,
    names: &Vec<CatalogBrawler>,
) -> (r: Option<BrawlerResponse>)
    ensures
        r is Some <==> map_doc_ok(*raw),
        r matches Some(b) ==> {
            &&& text_member(*raw, "name"@) == Some(b.name@)
            &&& exists|read: Seq<BestMapEntry>, sm: Seq<BestMapEntry>|
                best_read(read, best_candidates(*raw)) && #[trigger] smoothed_best(sm, read) && if sm.len() > 0 {
                    top_of(b.best_maps@, sm, 25)
                } else {
                    catalog_best(b.best_maps@, maps@, requested_id as int, b.name@, names@)
                }
        },
{
    let name = match doc_id_and_name(raw) {
        Some(n) => n,
        None => {
            return None;
        },
    };
    let stats = raw.get("stats");
    let mut read: Vec<BestMapEntry> = Vec::new();
    collect_best(get_in(stats, "bestMaps"), &mut read);
    let ghost r1 = read@;
    collect_best(raw.get("bestMaps"), &mut read);
    let ghost r2 = read@;
    collect_best(get_in(raw.get("meta"), "maps"), &mut read);
    proof {
        let c1 = filter_json(arr(get_opt(get_spec(*raw, "stats"@), "bestMaps"@)), best_kept());
        let c2 = filter_json(arr(get_spec(*raw, "bestMaps"@)), best_kept());
        let c3 = filter_json(arr(get_opt(get_spec(*raw, "meta"@), "maps"@)), best_kept());
        assert(r1 =~= r1.skip(0));
        lemma_prefix_split(r2, r1);
        lemma_prefix_split(read@, r2);
        lemma_best_read_concat(r1, c1, r2.skip(r1.len() as int), c2);
        lemma_best_read_concat(r2, c1 + c2, read@.skip(r2.len() as int), c3);
    }
    let ghost read_s = read@;
    let smoothed = smooth_best(read);
    let ghost sm_s = smoothed@;
    let best_maps = if smoothed.len() > 0 {
        rank_cut(smoothed, 25)
    } else {
        build_best_maps_from_catalog(requested_id, name.as_str(), maps, names)
    };
    assert(smoothed_best(sm_s, read_s));
    assert(best_read(read_s, best_candidates(*raw)));
    Some(BrawlerResponse { name, best_maps })
}

} // verus!
