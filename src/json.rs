//! A JSON tree as upstream documents hold it, and ordered-fallback field
//! resolution over it.
use vstd::prelude::*;
use crate::text::{
    all_digits, chars_of, decimal_integer, digit_value, digits_value, is_digit, is_negative, lemma_digits_nonneg,
    parse_i64,
    same_text, unsigned_part,
};

verus! {

/// A JSON value. Numbers keep their decimal text, so that no precision is
/// lost between the document and the fixed-point values read from it.
pub enum Json {
    Null,
    Bool(bool),
    Number(String),
    Text(String),
    Array(Vec<Json>),
    Object(Vec<(String, Json)>),
}

/// The value of the first member named `key`.
pub open spec fn member(fields: Seq<(String, Json)>, key: Seq<char>) -> Option<Json>
    decreases fields.len(),
{
    if fields.len() == 0 {
        None
    } else if fields[0].0@ == key {
        Some(fields[0].1)
    } else {
        member(fields.drop_first(), key)
    }
}

/// The member `key` of an object; nothing for any other value.
pub open spec fn get_spec(j: Json, key: Seq<char>) -> Option<Json> {
    match j {
        Json::Object(fs) => member(fs@, key),
        _ => None,
    }
}

/// `get_spec` through an optional value.
pub open spec fn get_opt(j: Option<Json>, key: Seq<char>) -> Option<Json> {
    match j {
        Some(v) => get_spec(v, key),
        None => None,
    }
}

/// The first of two optional values that is present.
pub open spec fn or_spec(a: Option<Json>, b: Option<Json>) -> Option<Json> {
    if a is Some { a } else { b }
}

impl Json {
    /// The member `key`, when this is an object that has one.
    pub fn get(&self, key: &str) -> (r: Option<&Json>)
        ensures
            r matches Some(v) ==> get_spec(*self, key@) == Some(*v),
            r is None ==> get_spec(*self, key@) is None,
    {
        match self {
            Json::Object(fs) => {
                let mut i: usize = 0;
                assert(fs@.skip(0) =~= fs@);
                while i < fs.len()
                    invariant
                        i <= fs@.len(),
                        get_spec(*self, key@) == member(fs@.skip(i as int), key@),
                    decreases fs@.len() - i,
                {
                    assert(fs@.skip(i as int).drop_first() =~= fs@.skip(i + 1));
                    assert(fs@.skip(i as int)[0] == fs@[i as int]);
                    if same_text(fs[i].0.as_str(), key) {
                        assert(fs@[i as int].0@ == key@);
                        assert(member(fs@.skip(i as int), key@) == Some(fs@[i as int].1));
                        return Some(&fs[i].1);
                    }
                    i = i + 1;
                }
                None
            },
            _ => None,
        }
    }

    /// The text, when this is a string.
    pub fn as_text(&self) -> (r: Option<&String>)
        ensures
            r matches Some(s) ==> *self == Json::Text(*s),
            r is None ==> !(*self is Text),
    {
        match self {
            Json::Text(s) => Some(s),
            _ => None,
        }
    }

    /// The elements, when this is an array.
    pub fn as_array(&self) -> (r: Option<&Vec<Json>>)
        ensures
            r matches Some(a) ==> *self == Json::Array(*a),
            r is None ==> !(*self is Array),
    {
        match self {
            Json::Array(a) => Some(a),
            _ => None,
        }
    }
}

/// `get` through an optional value.
pub fn get_in<'a>(j: Option<&'a Json>, key: &str) -> (r: Option<&'a Json>)
    ensures
        r matches Some(v) ==> get_opt(opt_val(j), key@) == Some(*v),
        r is None ==> get_opt(opt_val(j), key@) is None,
{
    match j {
        Some(v) => v.get(key),
        None => None,
    }
}

/// The value behind an optional reference.
pub open spec fn opt_val(j: Option<&Json>) -> Option<Json> {
    match j {
        Some(v) => Some(*v),
        None => None,
    }
}

/// The first of two optional references that is present.
pub fn or_first<'a>(a: Option<&'a Json>, b: Option<&'a Json>) -> (r: Option<&'a Json>)
    ensures
        opt_val(r) == or_spec(opt_val(a), opt_val(b)),
{
    match a {
        Some(v) => Some(v),
        None => b,
    }
}

/// The array of a list payload: under `list`, else under `items`, else the
/// payload itself when it is an array; none when none of these is an array.
pub open spec fn list_items_spec(payload: Json) -> Option<Seq<Json>> {
    match get_spec(payload, "list"@) {
        Some(Json::Array(a)) => Some(a@),
        _ => match get_spec(payload, "items"@) {
            Some(Json::Array(a)) => Some(a@),
            _ => match payload {
                Json::Array(a) => Some(a@),
                _ => None,
            },
        },
    }
}

/// The elements of a list payload (see `list_items_spec`); none stands for
/// an empty list.
pub fn list_items(payload: &Json) -> (r: Option<&Vec<Json>>)
    ensures
        r matches Some(a) ==> list_items_spec(*payload) == Some(a@),
        r is None ==> list_items_spec(*payload) is None,
{
    proof {
        reveal_strlit("list");
        reveal_strlit("items");
    }
    if let Some(Json::Array(a)) = payload.get("list") {
        return Some(a);
    }
    if let Some(Json::Array(a)) = payload.get("items") {
        return Some(a);
    }
    if let Json::Array(a) = payload {
        return Some(a);
    }
    None
}

/// The integer that a value holds: a JSON number or a string that writes an
/// integer in decimal and fits in `i64`.
pub open spec fn int_of(v: Option<Json>) -> Option<int> {
    match v {
        Some(Json::Number(t)) => decimal_integer(t@),
        Some(Json::Text(t)) => decimal_integer(t@),
        _ => None,
    }
}

/// Reads an integer from an optional value (see `int_of`).
pub fn to_i64(v: Option<&Json>) -> (r: Option<i64>)
    ensures
        r matches Some(x) ==> int_of(opt_val(v)) == Some(x as int),
        r is None ==> int_of(opt_val(v)) is None,
{
    match v {
        Some(Json::Number(t)) => parse_i64(&chars_of(t.as_str())),
        Some(Json::Text(t)) => parse_i64(&chars_of(t.as_str())),
        _ => None,
    }
}

/// Position of the first `.` in `s` at or after `k`, or the length of `s`.
pub open spec fn dot_from(s: Seq<char>, k: nat) -> nat
    decreases s.len() - k,
{
    if k >= s.len() {
        s.len()
    } else if s[k as int] == '.' {
        k
    } else {
        dot_from(s, k + 1)
    }
}

/// Position of the first `e` or `E` in `s` at or after `k`, or the length of `s`.
pub open spec fn exp_from(s: Seq<char>, k: nat) -> nat
    decreases s.len() - k,
{
    if k >= s.len() {
        s.len()
    } else if s[k as int] == 'e' || s[k as int] == 'E' {
        k
    } else {
        exp_from(s, k + 1)
    }
}

pub open spec fn pow10(p: nat) -> int
    decreases p,
{
    if p == 0 { 1 } else { 10 * pow10((p - 1) as nat) }
}

/// `d * 10^q`, rounded half away from zero to an integer when `q` is negative.
pub open spec fn shifted(d: nat, q: int) -> int {
    if q >= 0 {
        d * pow10(q as nat)
    } else {
        (2 * d + pow10((-q) as nat)) / (2 * pow10((-q) as nat))
    }
}

/// The value of a decimal `s` in units of `10^-p`, rounded half away from
/// zero: an optional sign, digits with an optional `.` (at least one digit in
/// all), and an optional exponent (`e` or `E`, an optional sign, digits).
/// None when the text is not such a decimal or the magnitude does not fit
/// in `i64`.
pub open spec fn decimal_scaled(s: Seq<char>, p: nat) -> Option<int> {
    let u = unsigned_part(s);
    let x = exp_from(u, 0);
    let mant = u.take(x as int);
    let e = if x < u.len() { decimal_integer(u.skip(x + 1int)) } else { Some(0int) };
    let d = dot_from(mant, 0);
    let ip = mant.take(d as int);
    let fp = if d < mant.len() { mant.skip(d + 1int) } else { Seq::empty() };
    if e is None || ip.len() + fp.len() == 0 || !all_digits(ip) || !all_digits(fp) {
        None
    } else {
        let m = shifted(digits_value(ip + fp) as nat, e->0 + p - fp.len());
        if m <= i64::MAX {
            Some(if is_negative(s) { -m } else { m })
        } else {
            None
        }
    }
}

proof fn lemma_pow10_pos(n: nat)
    ensures
        pow10(n) >= 1,
    decreases n,
{
    if n > 0 {
        lemma_pow10_pos((n - 1) as nat);
    }
}

proof fn lemma_pow10_mono(a: nat, b: nat)
    requires
        a <= b,
    ensures
        pow10(a) <= pow10(b),
    decreases b,
{
    if a < b {
        lemma_pow10_mono(a, (b - 1) as nat);
        lemma_pow10_pos((b - 1) as nat);
    }
}

proof fn lemma_digits_append(a: Seq<char>, b: Seq<char>)
    ensures
        digits_value(a + b) == digits_value(a) * pow10(b.len()) + digits_value(b),
    decreases b.len(),
{
    if b.len() == 0 {
        assert(a + b =~= a);
    } else {
        lemma_digits_append(a, b.drop_last());
        assert((a + b).drop_last() =~= a + b.drop_last());
        assert((a + b).last() == b.last());
        let x = digits_value(a);
        let y = pow10((b.len() - 1) as nat);
        assert(10 * (x * y) == x * (10 * y)) by (nonlinear_arith);
    }
}

proof fn lemma_digits_below(b: Seq<char>)
    requires
        all_digits(b),
    ensures
        0 <= digits_value(b) < pow10(b.len()),
    decreases b.len(),
{
    if b.len() > 0 {
        assert(all_digits(b.drop_last())) by {
            assert forall|k: int| 0 <= k < b.len() - 1 implies is_digit(#[trigger] b.drop_last()[k]) by {
                assert(b.drop_last()[k] == b[k]);
            }
        }
        lemma_digits_below(b.drop_last());
        assert(is_digit(b[b.len() - 1]));
    }
}

/// Whether every character of `s` in `from..to` is a decimal digit.
fn digits_between(s: &Vec<char>, from: usize, to: usize) -> (r: bool)
    requires
        from <= to <= s@.len(),
    ensures
        r == all_digits(s@.subrange(from as int, to as int)),
{
    let ghost t = s@.subrange(from as int, to as int);
    let mut k: usize = from;
    while k < to
        invariant
            from <= k <= to <= s@.len(),
            t == s@.subrange(from as int, to as int),
            forall|j: int| 0 <= j < k - from ==> is_digit(#[trigger] t[j]),
        decreases to - k,
    {
        if !('0' <= s[k] && s[k] <= '9') {
            assert(t[k - from] == s@[k as int]);
            return false;
        }
        assert(t[k - from] == s@[k as int]);
        k = k + 1;
    }
    true
}

proof fn lemma_concat_digits(a: Seq<char>, b: Seq<char>)
    requires
        all_digits(a),
        all_digits(b),
    ensures
        all_digits(a + b),
{
    assert forall|q: int| 0 <= q < (a + b).len() implies is_digit(#[trigger] (a + b)[q]) by {
        if q < a.len() {
            assert((a + b)[q] == a[q]);
        } else {
            assert((a + b)[q] == b[q - a.len()]);
        }
    }
}

/// The characters of `s` in `a..b` followed by those in `c..d`.
fn two_ranges(s: &Vec<char>, a: usize, b: usize, c: usize, d: usize) -> (r: Vec<char>)
    requires
        a <= b <= s@.len(),
        c <= d <= s@.len(),
    ensures
        r@ == s@.subrange(a as int, b as int) + s@.subrange(c as int, d as int),
{
    let mut out: Vec<char> = Vec::new();
    let mut k: usize = a;
    while k < b
        invariant
            a <= k <= b <= s@.len(),
            out@ == s@.subrange(a as int, k as int),
        decreases b - k,
    {
        out.push(s[k]);
        k = k + 1;
        assert(out@ =~= s@.subrange(a as int, k as int));
    }
    let ghost first = out@;
    let mut k: usize = c;
    while k < d
        invariant
            c <= k <= d <= s@.len(),
            out@ == first + s@.subrange(c as int, k as int),
        decreases d - k,
    {
        out.push(s[k]);
        k = k + 1;
        assert(out@ =~= first + s@.subrange(c as int, k as int));
    }
    out
}

/// The value of a run of digits, when it fits in `i64`.
fn digits_i64(ds: &Vec<char>) -> (r: Option<i64>)
    requires
        all_digits(ds@),
    ensures
        r matches Some(v) ==> v == digits_value(ds@),
        r is None ==> digits_value(ds@) > i64::MAX,
{
    if ds.len() == 0 {
        return Some(0);
    }
    proof {
        assert(is_digit(ds@[0]));
        assert(unsigned_part(ds@) == ds@);
        lemma_digits_nonneg(ds@);
    }
    parse_i64(ds)
}

/// `digits_value(ds) * 10^q` when it fits in `i64`.
fn shift_up(ds: &Vec<char>, q: i128) -> (r: Option<i64>)
    requires
        all_digits(ds@),
        0 <= q < 0x1_0000_0000_0000_0000_0000,
    ensures
        r matches Some(v) ==> v as int == shifted(digits_value(ds@) as nat, q as int),
        r is None ==> shifted(digits_value(ds@) as nat, q as int) > i64::MAX,
{
    proof {
        lemma_digits_below(ds@);
    }
    let ghost dv = digits_value(ds@) as nat;
    let v0 = match digits_i64(ds) {
        Some(v) => v,
        None => {
            proof {
                lemma_pow10_pos(q as nat);
                assert(dv * pow10(q as nat) >= dv) by (nonlinear_arith)
                    requires pow10(q as nat) >= 1, dv >= 0;
                assert(shifted(dv, q as int) == dv * pow10(q as nat));
            }
            return None;
        },
    };
    let mut v: i64 = v0;
    let mut rest: i128 = q;
    while rest > 0 && v != 0
        invariant
            dv == digits_value(ds@) as nat,
            0 <= rest <= q,
            0 <= v,
            v * pow10(rest as nat) == dv * pow10(q as nat),
        decreases rest,
    {
        assert(pow10(rest as nat) == 10 * pow10((rest - 1) as nat));
        if v > i64::MAX / 10 {
            proof {
                assert(v * 10 > i64::MAX);
                assert(shifted(dv, q as int) == dv * pow10(q as nat));
                lemma_pow10_pos((rest - 1) as nat);
                assert(v * pow10(rest as nat) >= v * 10) by (nonlinear_arith)
                    requires pow10(rest as nat) == 10 * pow10((rest - 1) as nat), pow10((rest - 1) as nat) >= 1, v >= 0;
                assert(dv * pow10(q as nat) > i64::MAX);
                assert(shifted(dv, q as int) > i64::MAX);
            }
            return None;
        }
        assert(v * pow10(rest as nat) == (v * 10) * pow10((rest - 1) as nat)) by (nonlinear_arith)
            requires pow10(rest as nat) == 10 * pow10((rest - 1) as nat);
        v = v * 10;
        rest = rest - 1;
    }
    proof {
        if v == 0 {
            assert(0 * pow10(rest as nat) == 0);
        } else {
            assert(pow10(0) == 1);
        }
    }
    return Some(v);
}

/// `digits_value(ds) / 10^-q`, rounded half away from zero, when it fits in `i64`.
fn shift_down(ds: &Vec<char>, q: i128) -> (r: Option<i64>)
    requires
        all_digits(ds@),
        -0x1_0000_0000_0000_0000_0000 < q < 0,
    ensures
        r matches Some(v) ==> v as int == shifted(digits_value(ds@) as nat, q as int),
        r is None ==> shifted(digits_value(ds@) as nat, q as int) > i64::MAX,
{
    proof {
        lemma_digits_below(ds@);
    }
    let ghost dv = digits_value(ds@) as nat;
    let k: i128 = -q;
    let len = ds.len();
    proof {
        lemma_pow10_pos((k - 1) as nat);
        assert(pow10(k as nat) == 10 * pow10((k - 1) as nat));
    }
    let ghost pk = pow10(k as nat);
    if k > len as i128 {
        proof {
            lemma_pow10_mono(ds@.len(), (k - 1) as nat);
            assert((2 * dv + pk) / (2 * pk) == 0) by (nonlinear_arith)
                requires dv < pow10((k - 1) as nat), pk == 10 * pow10((k - 1) as nat), dv >= 0;
        }
        return Some(0);
    }
    let j: usize = len - (k as usize);
    let head = two_ranges(ds, 0, j, 0, 0);
    let tail = two_ranges(ds, j, len, 0, 0);
    assert(head@ =~= ds@.subrange(0, j as int));
    assert(tail@ =~= ds@.subrange(j as int, len as int));
    assert(ds@ =~= head@ + tail@);
    assert(all_digits(head@)) by {
        assert forall|i: int| 0 <= i < head@.len() implies is_digit(#[trigger] head@[i]) by {
            assert(head@[i] == ds@[i]);
        }
    }
    assert(all_digits(tail@)) by {
        assert forall|i: int| 0 <= i < tail@.len() implies is_digit(#[trigger] tail@[i]) by {
            assert(tail@[i] == ds@[j + i]);
        }
    }
    let ghost t0 = seq![tail@[0]];
    let ghost trest = tail@.drop_first();
    proof {
        lemma_digits_append(head@, tail@);
        assert(tail@ =~= t0 + trest);
        lemma_digits_append(t0, trest);
        assert(t0.drop_last() =~= Seq::<char>::empty());
        assert(all_digits(trest)) by {
            assert forall|i: int| 0 <= i < trest.len() implies is_digit(#[trigger] trest[i]) by {
                assert(trest[i] == tail@[i + 1]);
            }
        }
        lemma_digits_below(trest);
        lemma_digits_below(head@);
        lemma_digits_below(tail@);
        assert(is_digit(tail@[0]));
        assert(trest.len() == k - 1);
        assert(t0.last() == tail@[0]);
        assert(digits_value(t0.drop_last()) == 0);
        assert(digits_value(t0) == digit_value(tail@[0]));
        assert(0 <= digit_value(tail@[0]) <= 9);
    }
    let up = ds[j] >= '5';
    let a = match digits_i64(&head) {
        Some(v) => v,
        None => {
            proof {
                let hv = digits_value(head@);
                let tv = digits_value(tail@);
                assert((2 * (hv * pk + tv) + pk) / (2 * pk) >= hv) by (nonlinear_arith)
                    requires pk >= 10, tv >= 0, hv >= 0;
            }
            return None;
        },
    };
    proof {
        let hv = digits_value(head@);
        let tv = digits_value(tail@);
        let lead = pow10((k - 1) as nat);
        let d0 = digit_value(tail@[0]);
        assert(tv == d0 * lead + digits_value(trest));
        assert(up == (d0 >= 5));
        if up {
            assert(2 * tv >= pk) by (nonlinear_arith)
                requires tv == d0 * lead + digits_value(trest), d0 >= 5, digits_value(trest) >= 0, pk == 10 * lead, lead >= 1;
            assert((2 * (hv * pk + tv) + pk) / (2 * pk) == hv + 1) by (nonlinear_arith)
                requires 2 * tv >= pk, tv < pk, tv >= 0, pk >= 10;
        } else {
            assert(2 * tv < pk) by (nonlinear_arith)
                requires tv == d0 * lead + digits_value(trest), d0 <= 4, d0 >= 0, digits_value(trest) < lead, pk == 10 * lead, lead >= 1;
            assert((2 * (hv * pk + tv) + pk) / (2 * pk) == hv) by (nonlinear_arith)
                requires 2 * tv < pk, tv >= 0, pk >= 10;
        }
        assert(tv < pk) by (nonlinear_arith)
            requires tv == d0 * lead + digits_value(trest), 0 <= d0 <= 9, digits_value(trest) < lead, pk == 10 * lead, lead >= 1;
    }
    if up {
        if a == i64::MAX {
            return None;
        }
        Some(a + 1)
    } else {
        Some(a)
    }
}

/// `shifted(digits_value(ds), q)` when it fits in `i64`.
fn shift_digits(ds: &Vec<char>, q: i128) -> (r: Option<i64>)
    requires
        all_digits(ds@),
        -0x1_0000_0000_0000_0000_0000 < q < 0x1_0000_0000_0000_0000_0000,
    ensures
        r matches Some(v) ==> v as int == shifted(digits_value(ds@) as nat, q as int),
        r is None ==> shifted(digits_value(ds@) as nat, q as int) > i64::MAX,
{
    if q >= 0 {
        shift_up(ds, q)
    } else {
        shift_down(ds, q)
    }
}

/// Position of the first `c1` or `c2` in `from..to`, or `to`.
fn find_either(s: &Vec<char>, from: usize, to: usize, c1: char, c2: char) -> (r: usize)
    requires
        from <= to <= s@.len(),
    ensures
        from <= r <= to,
        forall|i: int| from <= i < r ==> s@[i] != c1 && s@[i] != c2,
        r < to ==> (s@[r as int] == c1 || s@[r as int] == c2),
{
    let mut i: usize = from;
    while i < to && s[i] != c1 && s[i] != c2
        invariant
            from <= i <= to <= s@.len(),
            forall|j: int| from <= j < i ==> s@[j] != c1 && s@[j] != c2,
        decreases to - i,
    {
        i = i + 1;
    }
    i
}

proof fn lemma_exp_from(u: Seq<char>, k: nat, x: nat)
    requires
        k <= x <= u.len(),
        forall|i: int| k <= i < x ==> u[i] != 'e' && u[i] != 'E',
        x < u.len() ==> (u[x as int] == 'e' || u[x as int] == 'E'),
    ensures
        exp_from(u, k) == x,
    decreases x - k,
{
    if k < x {
        lemma_exp_from(u, k + 1, x);
    }
}

proof fn lemma_dot_from(u: Seq<char>, k: nat, x: nat)
    requires
        k <= x <= u.len(),
        forall|i: int| k <= i < x ==> u[i] != '.',
        x < u.len() ==> u[x as int] == '.',
    ensures
        dot_from(u, k) == x,
    decreases x - k,
{
    if k < x {
        lemma_dot_from(u, k + 1, x);
    }
}

proof fn lemma_shifted_nonneg(d: nat, q: int)
    ensures
        shifted(d, q) >= 0,
{
    if q >= 0 {
        lemma_pow10_pos(q as nat);
        assert(d * pow10(q as nat) >= 0) by (nonlinear_arith)
            requires pow10(q as nat) >= 1;
    } else {
        lemma_pow10_pos((-q) as nat);
        let pk = pow10((-q) as nat);
        assert((2 * d + pk) / (2 * pk) >= 0) by (nonlinear_arith)
            requires pk >= 1;
    }
}

/// Reads a decimal in units of `10^-p` (see `decimal_scaled`).
#[verifier::rlimit(100)]
pub fn parse_scaled(s: &Vec<char>, p: usize) -> (r: Option<i64>)
    requires
        p <= 4,
    ensures
        r matches Some(x) ==> decimal_scaled(s@, p as nat) == Some(x as int),
        r is None ==> decimal_scaled(s@, p as nat) is None,
{
    let n = s.len();
    let start: usize = if n > 0 && (s[0] == '-' || s[0] == '+') { 1 } else { 0 };
    let neg = n > 0 && s[0] == '-';
    let ghost u = unsigned_part(s@);
    assert(u =~= s@.skip(start as int));
    let x = find_either(s, start, n, 'e', 'E');
    proof {
        lemma_exp_from(u, 0, (x - start) as nat);
    }
    let ghost mant = u.take((x - start) as int);
    assert(mant =~= s@.subrange(start as int, x as int));
    let e: i64 = if x < n {
        let et = two_ranges(s, x + 1, n, 0, 0);
        assert(et@ =~= u.skip((x - start) + 1int));
        match parse_i64(&et) {
            Some(v) => v,
            None => {
                return None;
            },
        }
    } else {
        0
    };
    let d = find_either(s, start, x, '.', '.');
    proof {
        lemma_dot_from(mant, 0, (d - start) as nat);
    }
    let frac: usize = if d < x { d + 1 } else { x };
    let ghost ip = mant.take((d - start) as int);
    let ghost fp = if d < x { mant.skip((d - start) + 1int) } else { Seq::<char>::empty() };
    assert(ip =~= s@.subrange(start as int, d as int));
    assert(fp =~= s@.subrange(frac as int, x as int));
    if (d - start) + (x - frac) == 0 {
        return None;
    }
    if !digits_between(s, start, d) || !digits_between(s, frac, x) {
        return None;
    }
    let ds = two_ranges(s, start, d, frac, x);
    proof {
        lemma_concat_digits(ip, fp);
    }
    let q: i128 = e as i128 + p as i128 - (x - frac) as i128;
    let m = match shift_digits(&ds, q) {
        Some(v) => v,
        None => {
            return None;
        },
    };
    proof {
        lemma_digits_nonneg(ds@);
        lemma_shifted_nonneg(digits_value(ds@) as nat, q as int);
    }
    if neg {
        Some(-m)
    } else {
        Some(m)
    }
}

/// The value of an optional number or numeric string in units of `10^-p`.
pub open spec fn scaled_of(v: Option<Json>, p: nat) -> Option<int> {
    match v {
        Some(Json::Number(t)) => decimal_scaled(t@, p),
        Some(Json::Text(t)) => decimal_scaled(t@, p),
        _ => None,
    }
}

/// Reads an optional number or numeric string in units of `10^-p`.
pub fn to_scaled(v: Option<&Json>, p: usize) -> (r: Option<i64>)
    requires
        p <= 4,
    ensures
        r matches Some(x) ==> scaled_of(opt_val(v), p as nat) == Some(x as int),
        r is None ==> scaled_of(opt_val(v), p as nat) is None,
{
    match v {
        Some(Json::Number(t)) => parse_scaled(&chars_of(t.as_str()), p),
        Some(Json::Text(t)) => parse_scaled(&chars_of(t.as_str()), p),
        _ => None,
    }
}

/// Index of the first member named `key`.
pub fn member_index(fs: &Vec<(String, Json)>, key: &str) -> (r: Option<usize>)
    ensures
        r matches Some(i) ==> i < fs@.len() && member(fs@, key@) == Some(fs@[i as int].1)
            && fs@[i as int].0@ == key@ && forall|k: int| 0 <= k < i ==> fs@[k].0@ != key@,
        r is None ==> member(fs@, key@) is None,
{
    let mut i: usize = 0;
    assert(fs@.skip(0) =~= fs@);
    while i < fs.len()
        invariant
            i <= fs@.len(),
            member(fs@, key@) == member(fs@.skip(i as int), key@),
            forall|k: int| 0 <= k < i ==> fs@[k].0@ != key@,
        decreases fs@.len() - i,
    {
        assert(fs@.skip(i as int).drop_first() =~= fs@.skip(i + 1));
        assert(fs@.skip(i as int)[0] == fs@[i as int]);
        if same_text(fs[i].0.as_str(), key) {
            return Some(i);
        }
        i = i + 1;
    }
    None
}

/// The array under `key` of an object, moved out of it; none when the
/// member is absent or not an array.
pub open spec fn array_member(j: Json, key: Seq<char>) -> Option<Seq<Json>> {
    match get_spec(j, key) {
        Some(Json::Array(a)) => Some(a@),
        _ => None,
    }
}

/// The arrays under `key1` and `key2` of an object, moved out of it (see
/// `array_member`).
pub fn take_two_arrays(j: Json, key1: &str, key2: &str) -> (r: (Option<Vec<Json>>, Option<Vec<Json>>))
    requires
        key1@ != key2@,
    ensures
        (r.0 matches Some(a) ==> array_member(j, key1@) == Some(a@)),
        (r.0 is None ==> array_member(j, key1@) is None),
        (r.1 matches Some(a) ==> array_member(j, key2@) == Some(a@)),
        (r.1 is None ==> array_member(j, key2@) is None),
{
    match j {
        Json::Object(mut fs) => {
            let ghost f0 = fs@;
            assert(j == Json::Object(fs));
            let i1 = member_index(&fs, key1);
            let i2 = member_index(&fs, key2);
            let i1 = match i1 {
                Some(i) => if fs[i].1.as_array().is_some() { Some(i) } else { None },
                None => None,
            };
            let i2 = match i2 {
                Some(i) => if fs[i].1.as_array().is_some() { Some(i) } else { None },
                None => None,
            };
            // Remove the later member first, so that the earlier keeps its index.
            let (first, second) = match (i1, i2) {
                (Some(a), Some(b)) => {
                    if a > b {
                        let x = fs.remove(a).1;
                        let y = fs.remove(b).1;
                        (Some(x), Some(y))
                    } else {
                        let y = fs.remove(b).1;
                        let x = fs.remove(a).1;
                        (Some(x), Some(y))
                    }
                },
                (Some(a), None) => (Some(fs.remove(a).1), None),
                (None, Some(b)) => (None, Some(fs.remove(b).1)),
                (None, None) => (None, None),
            };
            assert(i1 matches Some(a) ==> first == Some(f0[a as int].1));
            assert(i2 matches Some(b) ==> second == Some(f0[b as int].1));
            let r1 = match first {
                Some(Json::Array(a)) => Some(a),
                _ => None,
            };
            let r2 = match second {
                Some(Json::Array(a)) => Some(a),
                _ => None,
            };
            (r1, r2)
        },
        _ => (None, None),
    }
}

/// The array of a list payload (see `list_items_spec`), moved out of it;
/// empty when there is none.
pub fn take_list_items(payload: Json) -> (r: Vec<Json>)
    ensures
        list_items_spec(payload) matches Some(a) ==> r@ == a,
        list_items_spec(payload) is None ==> r@.len() == 0,
{
    proof {
        reveal_strlit("list");
        reveal_strlit("items");
        assert("list"@.len() != "items"@.len());
    }
    match payload {
        Json::Array(a) => a,
        Json::Object(fs) => {
            let ghost j = Json::Object(fs);
            let (l, i) = take_two_arrays(Json::Object(fs), "list", "items");
            match l {
                Some(a) => a,
                None => match i {
                    Some(a) => a,
                    None => Vec::new(),
                },
            }
        },
        _ => Vec::new(),
    }
}

} // verus!
