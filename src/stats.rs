//! Statistics normalisation: canonical entries, empirical-Bayes smoothing of
//! win rates, and their ordering. Win rates are held in tenths of a percent
//! and use rates in hundredths of a percent.
use vstd::multiset::Multiset;
use vstd::prelude::*;
use crate::catalog::{CatalogBrawler, text_member};
use crate::json::{Json, get_in, get_opt, get_spec, int_of, opt_val, or_first, or_spec, scaled_of, to_i64, to_scaled};
use crate::text::{decimal_integer, chars_of, parse_i64};

verus! {

/// The pseudo-count that anchors low-sample entries to the prior.
pub const PRIOR_WEIGHT: i64 = 1500;

/// The prior win rate of an empty group: 50.0%, in tenths.
pub const DEFAULT_PRIOR: i64 = 500;

/// The largest win-rate magnitude, in tenths, that an entry may hold
/// (1,000,000.0%). A win rate is a percentage; a value beyond this is no
/// win rate, and an entry that gives one is dropped as unreadable. The
/// bound keeps every count-weighted sum of a group within `i128`.
pub const MAX_RATE: i64 = 10000000;

/// The largest sample count that an entry may hold (10^11 matches); larger
/// counts are read as this one. Together with `MAX_RATE` it keeps the
/// count-weighted sum of any group, of up to `usize::MAX` entries, within
/// `i128`, which a full `i64` range would not.
pub const MAX_COUNT: i64 = 100000000000;

/// `n / d` rounded to the nearest integer, halves away from zero.
pub open spec fn round_div(n: int, d: int) -> int
    recommends
        d > 0,
{
    if n >= 0 {
        (2 * n + d) / (2 * d)
    } else {
        -((2 * (-n) + d) / (2 * d))
    }
}

/// `n / d` rounded half away from zero (see `round_div`).
pub fn round_div_exec(n: i128, d: i128) -> (r: i128)
    requires
        d > 0,
        -0x1000_0000_0000_0000_0000_0000_0000_0000 < n < 0x1000_0000_0000_0000_0000_0000_0000_0000,
        d < 0x1000_0000_0000_0000_0000_0000_0000_0000,
    ensures
        r == round_div(n as int, d as int),
{
    if n >= 0 {
        (2 * n + d) / (2 * d)
    } else {
        -((2 * (-n) + d) / (2 * d))
    }
}

/// A sample count as smoothing weighs it: negative counts weigh nothing.
pub open spec fn weight_of(count: int) -> int {
    if count < 0 { 0 } else { count }
}

/// The smoothed win rate, in tenths:
/// `round((win_rate * c + prior * W) / (c + W))` with `c` the count (at
/// least 0) and `W` the prior weight.
pub open spec fn adjusted_spec(win_rate: int, count: int, prior: int) -> int {
    round_div(
        win_rate * weight_of(count) + prior * PRIOR_WEIGHT,
        weight_of(count) + PRIOR_WEIGHT,
    )
}

pub proof fn lemma_round_div_between(n: int, d: int, lo: int, hi: int)
    requires
        d > 0,
        lo <= hi,
        lo * d <= n <= hi * d,
    ensures
        lo <= round_div(n, d) <= hi,
{
    if n >= 0 {
        assert(lo * d <= n);
        assert((2 * n + d) / (2 * d) <= hi) by (nonlinear_arith)
            requires n <= hi * d, d > 0, n >= 0;
        assert((2 * n + d) / (2 * d) >= lo) by (nonlinear_arith)
            requires lo * d <= n, d > 0, n >= 0;
    } else {
        assert((2 * (-n) + d) / (2 * d) <= -lo) by (nonlinear_arith)
            requires lo * d <= n, d > 0, n < 0;
        assert((2 * (-n) + d) / (2 * d) >= -hi) by (nonlinear_arith)
            requires n <= hi * d, d > 0, n < 0;
    }
}

/// The smoothed win rate of an entry (see `adjusted_spec`); it lies between
/// the entry's own rate and the prior.
pub fn compute_adjusted_win_rate(win_rate: i64, count: i64, prior: i64) -> (r: i64)
    requires
        -MAX_RATE <= win_rate <= MAX_RATE,
        -MAX_RATE <= prior <= MAX_RATE,
        count <= MAX_COUNT,
    ensures
        r == adjusted_spec(win_rate as int, count as int, prior as int),
        (win_rate <= prior ==> win_rate <= r <= prior),
        (prior <= win_rate ==> prior <= r <= win_rate),
{
    let c: i128 = if count < 0 { 0 } else { count as i128 };
    assert(-1000000000000000000 <= win_rate * c <= 1000000000000000000) by (nonlinear_arith)
        requires -10000000 <= win_rate <= 10000000, 0 <= c <= 100000000000;
    assert(-1000000000000000000 <= prior * 1500 <= 1000000000000000000) by (nonlinear_arith)
        requires -10000000 <= prior <= 10000000;
    let n = (win_rate as i128) * c + (prior as i128) * (PRIOR_WEIGHT as i128);
    let d = c + PRIOR_WEIGHT as i128;
    assert(-MAX_RATE * c <= win_rate * c <= MAX_RATE * c) by (nonlinear_arith)
        requires -MAX_RATE <= win_rate <= MAX_RATE, c >= 0;
    let ghost lo = if win_rate <= prior { win_rate as int } else { prior as int };
    let ghost hi = if win_rate <= prior { prior as int } else { win_rate as int };
    assert(lo * d <= n <= hi * d) by (nonlinear_arith)
        requires
            lo <= win_rate <= hi,
            lo <= prior <= hi,
            c >= 0,
            n == win_rate * c + prior * 1500,
            d == c + 1500;
    proof {
        lemma_round_div_between(n as int, d as int, lo, hi);
    }
    round_div_exec(n, d) as i64
}

/// With no samples the smoothed rate is the prior.
pub proof fn lemma_zero_count_is_prior(win_rate: int, prior: int)
    ensures
        adjusted_spec(win_rate, 0, prior) == prior,
{
    assert(win_rate * 0 == 0);
    assert(adjusted_spec(win_rate, 0, prior) == round_div(prior * 1500, 1500));
    if prior >= 0 {
        assert((2 * (prior * 1500) + 1500) / 3000int == prior);
    } else {
        assert((2 * (-(prior * 1500)) + 1500) / 3000int == -prior);
    }
}

/// With as many samples as the prior weight, sample and prior weigh equally.
pub proof fn lemma_full_weight_is_midpoint(win_rate: int, prior: int)
    ensures
        adjusted_spec(win_rate, PRIOR_WEIGHT as int, prior) == round_div(win_rate + prior, 2),
{
    let s = win_rate + prior;
    assert(win_rate * 1500 + prior * 1500 == s * 1500) by (nonlinear_arith)
        requires s == win_rate + prior;
    if s >= 0 {
        assert((2 * (s * 1500) + 3000) / 6000int == (2 * s + 2) / 4);
    } else {
        assert((2 * (-(s * 1500)) + 3000) / 6000int == (2 * (-s) + 2) / 4);
    }
}

/// The count-weighted sum of win rates and the sum of weights, each count
/// weighing at least 1.
pub open spec fn weighted_sums(pairs: Seq<(i64, i64)>) -> (int, int)
    decreases pairs.len(),
{
    if pairs.len() == 0 {
        (0, 0)
    } else {
        let rest = weighted_sums(pairs.drop_last());
        let w: int = if pairs.last().1 < 1 { 1 } else { pairs.last().1 as int };
        (rest.0 + pairs.last().0 * w, rest.1 + w)
    }
}

/// The prior of a group: the count-weighted mean of its win rates, rounded
/// to a tenth, or 50.0% for an empty group.
pub open spec fn prior_spec(pairs: Seq<(i64, i64)>) -> int {
    if pairs.len() == 0 {
        DEFAULT_PRIOR as int
    } else {
        round_div(weighted_sums(pairs).0, weighted_sums(pairs).1)
    }
}

/// A (win rate, count) pair within the entry bounds.
pub open spec fn pair_in_bounds(p: (i64, i64)) -> bool {
    -MAX_RATE <= p.0 <= MAX_RATE && p.1 <= MAX_COUNT
}

/// The prior of a group of (win rate, count) pairs (see `prior_spec`).
pub fn compute_prior_generic(pairs: &Vec<(i64, i64)>) -> (r: i64)
    requires
        forall|k: int| 0 <= k < pairs@.len() ==> pair_in_bounds(#[trigger] pairs@[k]),
    ensures
        r == prior_spec(pairs@),
        -MAX_RATE <= r <= MAX_RATE,
{
    if pairs.len() == 0 {
        return DEFAULT_PRIOR;
    }
    let mut wins: i128 = 0;
    let mut total: i128 = 0;
    let mut i: usize = 0;
    while i < pairs.len()
        invariant
            i <= pairs@.len(),
            forall|k: int| 0 <= k < pairs@.len() ==> pair_in_bounds(#[trigger] pairs@[k]),
            (wins as int, total as int) == weighted_sums(pairs@.take(i as int)),
            -10000000 * total <= wins <= 10000000 * total,
            i <= total <= i * 100000000000,
        decreases pairs@.len() - i,
    {
        let (wr, c) = pairs[i];
        assert(pair_in_bounds(pairs@[i as int]));
        let w: i128 = if c < 1 { 1 } else { c as i128 };
        assert(pairs@.take(i + 1).drop_last() =~= pairs@.take(i as int));
        assert(-10000000 * w <= wr * w <= 10000000 * w) by (nonlinear_arith)
            requires -10000000 <= wr <= 10000000, w >= 1;
        assert(i * 100000000000 <= 0x1_0000_0000_0000_0000 * 100000000000) by (nonlinear_arith)
            requires i <= 0x1_0000_0000_0000_0000;
        assert(total <= 0x1_0000_0000_0000_0000 * 100000000000);
        wins = wins + (wr as i128) * w;
        total = total + w;
        i = i + 1;
    }
    assert(pairs@.take(i as int) =~= pairs@);
    proof {
        lemma_round_div_between(wins as int, total as int, -MAX_RATE as int, MAX_RATE as int);
    }
    round_div_exec(wins, total) as i64
}

/// A brawler's statistics on one map.
pub struct MapBrawlerEntry {
    pub name: String,
    pub win_rate: i64,
    pub count: i64,
    pub use_rate: Option<i64>,
    pub adjusted_win_rate: i64,
}

/// A team composition's statistics on one map.
pub struct TeamEntry {
    pub brawlers: Vec<String>,
    pub win_rate: i64,
    pub count: i64,
    pub adjusted_win_rate: i64,
}

/// One of a brawler's best maps.
pub struct BestMapEntry {
    pub map: String,
    pub mode: String,
    pub win_rate: i64,
    pub count: i64,
    pub adjusted_win_rate: i64,
}

/// An entry ranked by (smoothed win rate, win rate, count), each descending.
pub trait Ranked {
    spec fn rank_key(&self) -> (i64, i64, i64);

    fn key(&self) -> (r: (i64, i64, i64))
        ensures
            r == self.rank_key(),
    ;
}

impl Ranked for MapBrawlerEntry {
    open spec fn rank_key(&self) -> (i64, i64, i64) {
        (self.adjusted_win_rate, self.win_rate, self.count)
    }

    fn key(&self) -> (r: (i64, i64, i64)) {
        (self.adjusted_win_rate, self.win_rate, self.count)
    }
}

impl Ranked for TeamEntry {
    open spec fn rank_key(&self) -> (i64, i64, i64) {
        (self.adjusted_win_rate, self.win_rate, self.count)
    }

    fn key(&self) -> (r: (i64, i64, i64)) {
        (self.adjusted_win_rate, self.win_rate, self.count)
    }
}

impl Ranked for BestMapEntry {
    open spec fn rank_key(&self) -> (i64, i64, i64) {
        (self.adjusted_win_rate, self.win_rate, self.count)
    }

    fn key(&self) -> (r: (i64, i64, i64)) {
        (self.adjusted_win_rate, self.win_rate, self.count)
    }
}

/// Key `a` ranks at or above key `b`.
pub open spec fn key_at_least(a: (i64, i64, i64), b: (i64, i64, i64)) -> bool {
    a.0 > b.0 || (a.0 == b.0 && (a.1 > b.1 || (a.1 == b.1 && a.2 >= b.2)))
}

fn key_at_least_exec(a: (i64, i64, i64), b: (i64, i64, i64)) -> (r: bool)
    ensures
        r == key_at_least(a, b),
{
    a.0 > b.0 || (a.0 == b.0 && (a.1 > b.1 || (a.1 == b.1 && a.2 >= b.2)))
}

/// Every entry ranks at or above every later one.
pub open spec fn sorted_desc<T: Ranked>(s: Seq<T>) -> bool {
    forall|i: int, j: int| 0 <= i < j < s.len() ==> key_at_least(#[trigger] s[i].rank_key(), #[trigger] s[j].rank_key())
}

/// The entries ordered by smoothed win rate, then win rate, then count, all
/// descending.
pub fn sort_ranked<T: Ranked>(items: Vec<T>) -> (r: Vec<T>)
    ensures
        sorted_desc(r@),
        r@.to_multiset() == items@.to_multiset(),
{
    broadcast use vstd::seq_lib::to_multiset_remove, vstd::seq_lib::to_multiset_insert,
        vstd::seq_lib::to_multiset_len, vstd::multiset::lemma_multiset_empty_len,
        vstd::multiset::group_multiset_axioms, vstd::seq_lib::to_multiset_contains;
    let ghost orig = items@;
    let mut items = items;
    let mut out: Vec<T> = Vec::new();
    assert(out@.to_multiset().len() == 0);
    assert(out@.to_multiset() =~= Multiset::empty());
    while items.len() > 0
        invariant
            sorted_desc(out@),
            out@.to_multiset().add(items@.to_multiset()) == orig.to_multiset(),
        decreases items@.len(),
    {
        let ghost before_items = items@;
        let x = items.remove(0);
        assert(before_items.remove(0) == items@);
        let kx = x.key();
        let mut pos: usize = 0;
        while pos < out.len() && key_at_least_exec(out[pos].key(), kx)
            invariant
                pos <= out@.len(),
                forall|k: int| 0 <= k < pos ==> key_at_least(#[trigger] out@[k].rank_key(), kx),
            decreases out@.len() - pos,
        {
            pos = pos + 1;
        }
        let ghost before = out@;
        out.insert(pos, x);
        assert(out@ == before.insert(pos as int, x));
        assert forall|i: int, j: int| 0 <= i < j < out@.len() implies key_at_least(
            #[trigger] out@[i].rank_key(),
            #[trigger] out@[j].rank_key(),
        ) by {
            if j < pos {
                assert(key_at_least(before[i].rank_key(), before[j].rank_key()));
            } else if j == pos {
                assert(key_at_least(before[i].rank_key(), kx));
            } else if i < pos {
                assert(key_at_least(before[i].rank_key(), before[j - 1].rank_key()));
            } else if i == pos {
                assert(!key_at_least(before[pos as int].rank_key(), kx));
                assert(key_at_least(before[pos as int].rank_key(), before[j - 1].rank_key())
                    || pos == j - 1);
            } else {
                assert(key_at_least(before[i - 1].rank_key(), before[j - 1].rank_key()));
            }
        }
        assert(x == before_items[0]);
        assert(before_items.contains(x)) by {
            assert(before_items[0] == x);
        }
        proof {
            vstd::seq_lib::to_multiset_remove(before_items, 0);
            vstd::seq_lib::to_multiset_insert(before, pos as int, x);
            vstd::seq_lib::to_multiset_contains(before_items, x);
        }
        assert(items@.to_multiset() == before_items.to_multiset().remove(x));
        assert(out@.to_multiset() == before.to_multiset().insert(x));
        assert(before_items.to_multiset().count(x) > 0);
        assert(before.to_multiset().add(before_items.to_multiset()) == orig.to_multiset());
        assert(out@.to_multiset().add(items@.to_multiset()) =~= orig.to_multiset());
    }
    assert(items@.to_multiset().len() == 0);
    assert(items@.to_multiset() =~= Multiset::empty());
    assert(out@.to_multiset().add(items@.to_multiset()) =~= out@.to_multiset());
    out
}

/// In a sorted list, of two entries with equal smoothed and equal raw win
/// rates the earlier has at least the count of the later.
pub proof fn lemma_sorted_ties_by_count<T: Ranked>(s: Seq<T>, i: int, j: int)
    requires
        sorted_desc(s),
        0 <= i < j < s.len(),
        s[i].rank_key().0 == s[j].rank_key().0,
        s[i].rank_key().1 == s[j].rank_key().1,
    ensures
        s[i].rank_key().2 >= s[j].rank_key().2,
{
    assert(key_at_least(s[i].rank_key(), s[j].rank_key()));
}

/// The integer of a JSON number (not of a numeric string).
pub open spec fn number_int(j: Json) -> Option<int> {
    match j {
        Json::Number(t) => decimal_integer(t@),
        _ => None,
    }
}

/// Reads the integer of a JSON number (see `number_int`).
pub fn read_number_int(j: &Json) -> (r: Option<i64>)
    ensures
        r matches Some(v) ==> number_int(*j) == Some(v as int),
        r is None ==> number_int(*j) is None,
{
    match j {
        Json::Number(t) => parse_i64(&chars_of(t.as_str())),
        _ => None,
    }
}

/// The name of the brawler with `id` (the last one, should ids repeat).
pub open spec fn name_by_id(names: Seq<CatalogBrawler>, id: int) -> Option<Seq<char>>
    decreases names.len(),
{
    if names.len() == 0 {
        None
    } else if names.last().id == id {
        Some(names.last().name@)
    } else {
        name_by_id(names.drop_last(), id)
    }
}

/// Looks up a brawler's name by id (see `name_by_id`).
pub fn lookup_name(names: &Vec<CatalogBrawler>, id: i64) -> (r: Option<String>)
    ensures
        r matches Some(n) ==> name_by_id(names@, id as int) == Some(n@),
        r is None ==> name_by_id(names@, id as int) is None,
{
    let mut i: usize = names.len();
    assert(names@.take(i as int) =~= names@);
    while i > 0
        invariant
            i <= names@.len(),
            name_by_id(names@, id as int) == name_by_id(names@.take(i as int), id as int),
        decreases i,
    {
        assert(names@.take(i as int).drop_last() =~= names@.take(i - 1));
        if names[i - 1].id == id {
            return Some(names[i - 1].name.clone());
        }
        i = i - 1;
    }
    None
}

/// A brawler reference: a name, a bare id, or an object with a `name` or
/// an `id`; ids are looked up among `names`.
pub open spec fn resolved_name(raw: Option<Json>, names: Seq<CatalogBrawler>) -> Option<Seq<char>> {
    match raw {
        None => None,
        Some(j) => match j {
            Json::Text(s) => Some(s@),
            Json::Number(_) => match number_int(j) {
                Some(id) => name_by_id(names, id),
                None => None,
            },
            Json::Object(_) => match text_member(j, "name"@) {
                Some(n) => Some(n),
                None => match get_spec(j, "id"@) {
                    Some(v) => match number_int(v) {
                        Some(id) => name_by_id(names, id),
                        None => None,
                    },
                    None => None,
                },
            },
            _ => None,
        },
    }
}

/// Resolves a brawler reference to a name (see `resolved_name`).
pub fn resolve_brawler_name(raw: Option<&Json>, names: &Vec<CatalogBrawler>) -> (r: Option<String>)
    ensures
        r matches Some(n) ==> resolved_name(opt_val(raw), names@) == Some(n@),
        r is None ==> resolved_name(opt_val(raw), names@) is None,
{
    let j = match raw {
        Some(j) => j,
        None => {
            return None;
        },
    };
    match j {
        Json::Text(s) => Some(s.clone()),
        Json::Number(_) => match read_number_int(j) {
            Some(id) => lookup_name(names, id),
            None => None,
        },
        Json::Object(_) => match j.get("name") {
            Some(Json::Text(n)) => Some(n.clone()),
            _ => match j.get("id") {
                Some(v) => match read_number_int(v) {
                    Some(id) => lookup_name(names, id),
                    None => None,
                },
                None => None,
            },
        },
        _ => None,
    }
}

/// Where an entry keeps its win rate: `winRate`, `stats.winRate`, `winrate`.
pub open spec fn win_rate_field(e: Json) -> Option<Json> {
    or_spec(get_spec(e, "winRate"@), or_spec(get_opt(get_spec(e, "stats"@), "winRate"@), get_spec(e, "winrate"@)))
}

/// Where an entry keeps its sample count: `count`, `matches`, `samples`.
pub open spec fn count_field(e: Json) -> Option<Json> {
    or_spec(get_spec(e, "count"@), or_spec(get_spec(e, "matches"@), get_spec(e, "samples"@)))
}

/// Where an entry keeps its use rate: `useRate`, `usageRate`, `pickRate`, `use`.
pub open spec fn use_rate_field(e: Json) -> Option<Json> {
    or_spec(get_spec(e, "useRate"@), or_spec(get_spec(e, "usageRate"@), or_spec(get_spec(e, "pickRate"@), get_spec(e, "use"@))))
}

/// The win rate of an entry in tenths, when it reads and lies within bounds.
pub open spec fn win_rate_of(e: Json) -> Option<int> {
    match scaled_of(win_rate_field(e), 1) {
        Some(v) => if -MAX_RATE <= v <= MAX_RATE { Some(v) } else { None },
        None => None,
    }
}

/// The sample count of an entry: 0 when absent, else kept within `0..=MAX_COUNT`.
pub open spec fn count_of(e: Json) -> int {
    match int_of(count_field(e)) {
        Some(c) => if c < 0 { 0 } else if c > MAX_COUNT { MAX_COUNT as int } else { c },
        None => 0,
    }
}

/// Reads the win rate of an entry (see `win_rate_of`).
pub fn read_win_rate(e: &Json) -> (r: Option<i64>)
    ensures
        r matches Some(v) ==> win_rate_of(*e) == Some(v as int) && -MAX_RATE <= v <= MAX_RATE,
        r is None ==> win_rate_of(*e) is None,
{
    let f = or_first(e.get("winRate"), or_first(get_in(e.get("stats"), "winRate"), e.get("winrate")));
    match to_scaled(f, 1) {
        Some(v) => if -MAX_RATE <= v && v <= MAX_RATE { Some(v) } else { None },
        None => None,
    }
}

/// Reads the sample count of an entry (see `count_of`).
pub fn read_count(e: &Json) -> (r: i64)
    ensures
        r == count_of(*e),
        0 <= r <= MAX_COUNT,
{
    let f = or_first(e.get("count"), or_first(e.get("matches"), e.get("samples")));
    match to_i64(f) {
        Some(c) => if c < 0 { 0 } else if c > MAX_COUNT { MAX_COUNT } else { c },
        None => 0,
    }
}

/// An entry whose fields lie within the bounds that smoothing assumes.
pub open spec fn in_bounds(win_rate: i64, count: i64) -> bool {
    -MAX_RATE <= win_rate <= MAX_RATE && 0 <= count <= MAX_COUNT
}

/// The name of a per-map brawler statistic: its reference under `brawler`,
/// `id` or `name`, else its `name` text.
pub open spec fn stat_name_of(e: Json, names: Seq<CatalogBrawler>) -> Option<Seq<char>> {
    match resolved_name(or_spec(get_spec(e, "brawler"@), or_spec(get_spec(e, "id"@), get_spec(e, "name"@))), names) {
        Some(n) => Some(n),
        None => text_member(e, "name"@),
    }
}

/// `b` is the entry that statistic `e` describes, before smoothing: the
/// entry needs a name and a win rate.
pub open spec fn map_stat_from(b: MapBrawlerEntry, e: Json, names: Seq<CatalogBrawler>) -> bool {
    &&& stat_name_of(e, names) == Some(b.name@)
    &&& win_rate_of(e) == Some(b.win_rate as int)
    &&& b.count == count_of(e)
    &&& (match b.use_rate {
        Some(u) => scaled_of(use_rate_field(e), 2) == Some(u as int),
        None => scaled_of(use_rate_field(e), 2) is None,
    })
    &&& b.adjusted_win_rate == 0
}

/// Reads one per-map brawler statistic (see `map_stat_from`).
pub fn parse_map_stat_entry(e: &Json, names: &Vec<CatalogBrawler>) -> (r: Option<MapBrawlerEntry>)
    ensures
        r is Some <==> (stat_name_of(*e, names@) is Some && win_rate_of(*e) is Some),
        r matches Some(b) ==> map_stat_from(b, *e, names@) && in_bounds(b.win_rate, b.count),
{
    let name = match resolve_brawler_name(or_first(e.get("brawler"), or_first(e.get("id"), e.get("name"))), names) {
        Some(n) => n,
        None => match e.get("name") {
            Some(Json::Text(n)) => n.clone(),
            _ => {
                return None;
            },
        },
    };
    let win_rate = match read_win_rate(e) {
        Some(v) => v,
        None => {
            return None;
        },
    };
    let count = read_count(e);
    let use_rate = to_scaled(
        or_first(e.get("useRate"), or_first(e.get("usageRate"), or_first(e.get("pickRate"), e.get("use")))),
        2,
    );
    Some(MapBrawlerEntry { name, win_rate, count, use_rate, adjusted_win_rate: 0 })
}

/// The members of a team entry: the array under `brawlers`, `team` or
/// `composition` (the first present), else none.
pub open spec fn team_list(e: Json) -> Seq<Json> {
    match or_spec(get_spec(e, "brawlers"@), or_spec(get_spec(e, "team"@), get_spec(e, "composition"@))) {
        Some(Json::Array(a)) => a@,
        _ => Seq::empty(),
    }
}

/// The name of a team member: its reference (under `brawler`, else itself),
/// else its `name` text.
pub open spec fn member_name(item: Json, names: Seq<CatalogBrawler>) -> Option<Seq<char>> {
    match resolved_name(or_spec(get_spec(item, "brawler"@), Some(item)), names) {
        Some(n) => Some(n),
        None => text_member(item, "name"@),
    }
}

/// The names of the members that have one, in order.
pub open spec fn member_names(items: Seq<Json>, names: Seq<CatalogBrawler>) -> Seq<Seq<char>>
    decreases items.len(),
{
    if items.len() == 0 {
        Seq::empty()
    } else {
        let rest = member_names(items.drop_last(), names);
        match member_name(items.last(), names) {
            Some(n) => rest.push(n),
            None => rest,
        }
    }
}

/// `t` is the team entry that `e` describes, before smoothing: it needs a
/// win rate and at least one named member.
pub open spec fn team_from(t: TeamEntry, e: Json, names: Seq<CatalogBrawler>) -> bool {
    &&& t.brawlers@.len() == member_names(team_list(e), names).len()
    &&& forall|k: int| 0 <= k < t.brawlers@.len() ==> #[trigger] t.brawlers@[k]@ == member_names(team_list(e), names)[k]
    &&& win_rate_of(e) == Some(t.win_rate as int)
    &&& t.count == count_of(e)
    &&& t.adjusted_win_rate == 0
}

/// Reads one team composition entry (see `team_from`).
pub fn parse_team_entry(e: &Json, names: &Vec<CatalogBrawler>) -> (r: Option<TeamEntry>)
    ensures
        r is Some <==> (member_names(team_list(*e), names@).len() > 0 && win_rate_of(*e) is Some),
        r matches Some(t) ==> team_from(t, *e, names@) && in_bounds(t.win_rate, t.count),
{
    let list = or_first(e.get("brawlers"), or_first(e.get("team"), e.get("composition")));
    let mut members: Vec<String> = Vec::new();
    if let Some(Json::Array(items)) = list {
        let mut i: usize = 0;
        while i < items.len()
            invariant
                items@ == team_list(*e),
                i <= items@.len(),
                members@.len() == member_names(items@.take(i as int), names@).len(),
                forall|k: int| 0 <= k < members@.len() ==> #[trigger] members@[k]@ == member_names(items@.take(i as int), names@)[k],
            decreases items@.len() - i,
        {
            let item = &items[i];
            assert(items@.take(i + 1).drop_last() =~= items@.take(i as int));
            let ghost pre = member_names(items@.take(i as int), names@);
            let n = match resolve_brawler_name(or_first(item.get("brawler"), Some(item)), names) {
                Some(n) => Some(n),
                None => match item.get("name") {
                    Some(Json::Text(n)) => Some(n.clone()),
                    _ => None,
                },
            };
            if let Some(n) = n {
                members.push(n);
            }
            proof {
                let post = member_names(items@.take(i + 1), names@);
                assert(forall|k: int| 0 <= k < pre.len() ==> post[k] == pre[k]);
            }
            i = i + 1;
        }
        assert(items@.take(i as int) =~= items@);
    }
    let win_rate = match read_win_rate(e) {
        Some(v) => v,
        None => {
            return None;
        },
    };
    let count = read_count(e);
    if members.len() == 0 {
        return None;
    }
    Some(TeamEntry { brawlers: members, win_rate, count, adjusted_win_rate: 0 })
}

/// The text under `a.b` of an optional value.
pub open spec fn text_at(v: Option<Json>, a: Seq<char>, b: Seq<char>) -> Option<Seq<char>> {
    match get_opt(get_opt(v, a), b) {
        Some(Json::Text(s)) => Some(s@),
        _ => None,
    }
}

/// The map name of a best-map entry: `map.name`, else `name`.
pub open spec fn best_map_name(e: Json) -> Option<Seq<char>> {
    match get_opt(get_spec(e, "map"@), "name"@) {
        Some(Json::Text(s)) => Some(s@),
        _ => text_member(e, "name"@),
    }
}

/// The mode of a best-map entry: `map.gameMode.name`, `map.mode.name`,
/// `mode.name`, `mode` (text), else `Unknown`.
pub open spec fn best_map_mode(e: Json) -> Seq<char> {
    match text_at(get_spec(e, "map"@), "gameMode"@, "name"@) {
        Some(s) => s,
        None => match text_at(get_spec(e, "map"@), "mode"@, "name"@) {
            Some(s) => s,
            None => match get_opt(get_spec(e, "mode"@), "name"@) {
                Some(Json::Text(s)) => s@,
                _ => match text_member(e, "mode"@) {
                    Some(s) => s,
                    None => "Unknown"@,
                },
            },
        },
    }
}

/// `b` is the best-map entry that `e` describes, before smoothing.
pub open spec fn best_map_from(b: BestMapEntry, e: Json) -> bool {
    &&& best_map_name(e) == Some(b.map@)
    &&& b.mode@ == best_map_mode(e)
    &&& win_rate_of(e) == Some(b.win_rate as int)
    &&& b.count == count_of(e)
    &&& b.adjusted_win_rate == 0
}

fn text_clone(v: Option<&Json>) -> (r: Option<String>)
    ensures
        r matches Some(s) ==> opt_val(v) == Some(Json::Text(s)),
        r is None ==> !(opt_val(v) matches Some(Json::Text(_))),
{
    match v {
        Some(Json::Text(s)) => Some(s.clone()),
        _ => None,
    }
}

/// Reads one best-map entry (see `best_map_from`).
pub fn parse_best_map_entry(e: &Json) -> (r: Option<BestMapEntry>)
    ensures
        r is Some <==> (best_map_name(*e) is Some && win_rate_of(*e) is Some),
        r matches Some(b) ==> best_map_from(b, *e) && in_bounds(b.win_rate, b.count),
{
    let map_obj = e.get("map");
    let map = match text_clone(get_in(map_obj, "name")) {
        Some(s) => s,
        None => match text_clone(e.get("name")) {
            Some(s) => s,
            None => {
                return None;
            },
        },
    };
    let mode = match text_clone(get_in(get_in(map_obj, "gameMode"), "name")) {
        Some(s) => s,
        None => match text_clone(get_in(get_in(map_obj, "mode"), "name")) {
            Some(s) => s,
            None => match text_clone(get_in(e.get("mode"), "name")) {
                Some(s) => s,
                None => match text_clone(e.get("mode")) {
                    Some(s) => s,
                    None => "Unknown".to_owned(),
                },
            },
        },
    };
    let win_rate = match read_win_rate(e) {
        Some(v) => v,
        None => {
            return None;
        },
    };
    let count = read_count(e);
    Some(BestMapEntry { map, mode, win_rate, count, adjusted_win_rate: 0 })
}

/// The win rate of an entry in thousandths of a percent, when it reads and
/// lies within `MAX_RATE` thousandths; used where the rate is smoothed before
/// it is rounded to tenths.
pub open spec fn fine_rate_of(e: Json) -> Option<int> {
    match scaled_of(win_rate_field(e), 3) {
        Some(v) => if -MAX_RATE <= v <= MAX_RATE { Some(v) } else { None },
        None => None,
    }
}

/// Reads the win rate of an entry in thousandths (see `fine_rate_of`).
pub fn read_fine_rate(e: &Json) -> (r: Option<i64>)
    ensures
        r matches Some(v) ==> fine_rate_of(*e) == Some(v as int) && -MAX_RATE <= v <= MAX_RATE,
        r is None ==> fine_rate_of(*e) is None,
{
    let f = or_first(e.get("winRate"), or_first(get_in(e.get("stats"), "winRate"), e.get("winrate")));
    match to_scaled(f, 3) {
        Some(v) => if -MAX_RATE <= v && v <= MAX_RATE { Some(v) } else { None },
        None => None,
    }
}

/// The prior, in tenths, of a group of (win rate in thousandths, count)
/// pairs: the count-weighted mean rounded once to a tenth, or 50.0% for an
/// empty group.
pub open spec fn fine_prior_spec(pairs: Seq<(i64, i64)>) -> int {
    if pairs.len() == 0 {
        DEFAULT_PRIOR as int
    } else {
        round_div(weighted_sums(pairs).0, weighted_sums(pairs).1 * 100)
    }
}

/// The prior of a group of fine-scale pairs (see `fine_prior_spec`).
pub fn compute_fine_prior(pairs: &Vec<(i64, i64)>) -> (r: i64)
    requires
        forall|k: int| 0 <= k < pairs@.len() ==> pair_in_bounds(#[trigger] pairs@[k]),
    ensures
        r == fine_prior_spec(pairs@),
        -MAX_RATE <= r <= MAX_RATE,
{
    if pairs.len() == 0 {
        return DEFAULT_PRIOR;
    }
    let mut wins: i128 = 0;
    let mut total: i128 = 0;
    let mut i: usize = 0;
    while i < pairs.len()
        invariant
            i <= pairs@.len(),
            forall|k: int| 0 <= k < pairs@.len() ==> pair_in_bounds(#[trigger] pairs@[k]),
            (wins as int, total as int) == weighted_sums(pairs@.take(i as int)),
            -10000000 * total <= wins <= 10000000 * total,
            i <= total <= i * 100000000000,
        decreases pairs@.len() - i,
    {
        let (wr, c) = pairs[i];
        assert(pair_in_bounds(pairs@[i as int]));
        let w: i128 = if c < 1 { 1 } else { c as i128 };
        assert(pairs@.take(i + 1).drop_last() =~= pairs@.take(i as int));
        assert(-10000000 * w <= wr * w <= 10000000 * w) by (nonlinear_arith)
            requires -10000000 <= wr <= 10000000, w >= 1;
        assert(i * 100000000000 <= 0x1_0000_0000_0000_0000 * 100000000000) by (nonlinear_arith)
            requires i <= 0x1_0000_0000_0000_0000;
        assert(total <= 0x1_0000_0000_0000_0000 * 100000000000);
        wins = wins + (wr as i128) * w;
        total = total + w;
        i = i + 1;
    }
    assert(pairs@.take(i as int) =~= pairs@);
    proof {
        lemma_round_div_between(wins as int, total * 100, -MAX_RATE as int, MAX_RATE as int);
    }
    round_div_exec(wins, total * 100) as i64
}

/// The smoothed win rate, in tenths, of a rate given in thousandths, against
/// a prior in tenths: `round((rate / 100 * c + prior * W) / (c + W))`.
pub open spec fn fine_adjusted_spec(fine: int, count: int, prior: int) -> int {
    round_div(
        fine * weight_of(count) + prior * 100 * PRIOR_WEIGHT,
        (weight_of(count) + PRIOR_WEIGHT) * 100,
    )
}

/// The smoothed win rate of a fine-scale rate (see `fine_adjusted_spec`).
pub fn compute_fine_adjusted(fine: i64, count: i64, prior: i64) -> (r: i64)
    requires
        -MAX_RATE <= fine <= MAX_RATE,
        -MAX_RATE <= prior <= MAX_RATE,
        count <= MAX_COUNT,
    ensures
        r == fine_adjusted_spec(fine as int, count as int, prior as int),
{
    let c: i128 = if count < 0 { 0 } else { count as i128 };
    assert(-1000000000000000000 <= fine * c <= 1000000000000000000) by (nonlinear_arith)
        requires -10000000 <= fine <= 10000000, 0 <= c <= 100000000000;
    assert(-2000000000000 <= prior * 150000 <= 2000000000000) by (nonlinear_arith)
        requires -10000000 <= prior <= 10000000;
    let n = (fine as i128) * c + (prior as i128) * 150000;
    let d = (c + PRIOR_WEIGHT as i128) * 100;
    assert(-MAX_RATE * d <= n <= MAX_RATE * d) by (nonlinear_arith)
        requires
            -10000000 <= fine <= 10000000,
            -10000000 <= prior <= 10000000,
            c >= 0,
            n == fine * c + prior * 150000,
            d == (c + 1500) * 100;
    proof {
        lemma_round_div_between(n as int, d as int, -MAX_RATE as int, MAX_RATE as int);
    }
    round_div_exec(n, d) as i64
}

} // verus!
