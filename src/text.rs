//! Character-level helpers: name normalisation, substring tests and
//! decimal integers.
use vstd::prelude::*;
use vstd::string::*;

verus! {

/// What `char::to_lowercase` yields for one character: the Unicode lowercase
/// mapping, which depends on the character alone.
pub uninterp spec fn lowercase_of(c: char) -> Seq<char>;

/// The lowercase of an ASCII character: `A` to `Z` become `a` to `z`,
/// every other character stays.
pub open spec fn ascii_lower(c: char) -> char {
    if 'A' <= c && c <= 'Z' {
        ((c as u32 + 32) as u8) as char
    } else {
        c
    }
}

/// Relies on `char::to_lowercase`: the characters of the lowercase mapping of
/// `c`; an ASCII character maps to its ASCII lowercase (a character without a
/// lowercase mapping yields itself).
#[verifier::external_body]
fn lower_char(c: char) -> (r: Vec<char>)
    ensures
        r@ == lowercase_of(c),
        (c as u32) < 128 ==> r@ == seq![ascii_lower(c)],
{
    c.to_lowercase().collect()
}

/// Relies on `FromIterator<char> for String`: the string holds exactly these characters.
#[verifier::external_body]
pub(crate) fn string_from_chars(v: &Vec<char>) -> (r: String)
    ensures
        r@ == v@,
{
    v.iter().collect()
}

/// The characters of `s`, in order.
pub fn chars_of(s: &str) -> (r: Vec<char>)
    ensures
        r@ == s@,
{
    let n = s.unicode_len();
    let mut out: Vec<char> = Vec::new();
    let mut i: usize = 0;
    while i < n
        invariant
            n == s@.len(),
            i <= n,
            out@ == s@.take(i as int),
        decreases n - i,
    {
        out.push(s.get_char(i));
        i = i + 1;
        assert(out@ =~= s@.take(i as int));
    }
    assert(out@ =~= s@);
    out
}

/// Whether two texts hold the same characters.
pub fn same_text(a: &str, b: &str) -> (r: bool)
    ensures
        r == (a@ == b@),
{
    let x = chars_of(a);
    let y = chars_of(b);
    seq_equal(&x, &y)
}

/// Whether two character vectors are equal.
pub fn seq_equal(x: &Vec<char>, y: &Vec<char>) -> (r: bool)
    ensures
        r == (x@ == y@),
{
    if x.len() != y.len() {
        return false;
    }
    let mut i: usize = 0;
    while i < x.len()
        invariant
            x@.len() == y@.len(),
            i <= x@.len(),
            forall|k: int| 0 <= k < i ==> x@[k] == y@[k],
        decreases x@.len() - i,
    {
        if x[i] != y[i] {
            return false;
        }
        i = i + 1;
    }
    assert(x@ =~= y@);
    true
}

/// The separator characters that normalisation removes: space, hyphen,
/// underscore, apostrophe and the right single quotation mark.
pub open spec fn is_separator(c: char) -> bool {
    c == ' ' || c == '-' || c == '_' || c == '\'' || c == '\u{2019}'
}

/// The normalised form of a character sequence: separators dropped, every
/// other character replaced by its lowercase mapping.
pub open spec fn normalized(s: Seq<char>) -> Seq<char>
    decreases s.len(),
{
    if s.len() == 0 {
        Seq::empty()
    } else {
        let rest = normalized(s.drop_last());
        let c = s.last();
        if is_separator(c) {
            rest
        } else {
            rest + lowercase_of(c)
        }
    }
}

/// `normalized` on ASCII text: separators dropped, letters lowercased.
pub open spec fn ascii_normalized(s: Seq<char>) -> Seq<char>
    decreases s.len(),
{
    if s.len() == 0 {
        Seq::empty()
    } else {
        let rest = ascii_normalized(s.drop_last());
        let c = s.last();
        if is_separator(c) {
            rest
        } else {
            rest.push(ascii_lower(c))
        }
    }
}

pub open spec fn is_ascii_text(s: Seq<char>) -> bool {
    forall|k: int| 0 <= k < s.len() ==> (#[trigger] s[k] as u32) < 128
}

/// The normalised form of `value` (see `normalized`); on ASCII text, the
/// text without separators and with its letters lowercased.
pub fn normalize_text(value: &str) -> (r: String)
    ensures
        r@ == normalized(value@),
        is_ascii_text(value@) ==> r@ == ascii_normalized(value@),
{
    let cs = chars_of(value);
    let mut out: Vec<char> = Vec::new();
    let mut i: usize = 0;
    while i < cs.len()
        invariant
            cs@ == value@,
            i <= cs@.len(),
            out@ == normalized(cs@.take(i as int)),
            is_ascii_text(cs@) ==> out@ == ascii_normalized(cs@.take(i as int)),
        decreases cs@.len() - i,
    {
        let c = cs[i];
        proof {
            if is_ascii_text(cs@) {
                assert((cs@[i as int] as u32) < 128);
            }
        }
        assert(cs@.take(i + 1).drop_last() =~= cs@.take(i as int));
        if !(c == ' ' || c == '-' || c == '_' || c == '\'' || c == '\u{2019}') {
            let lc = lower_char(c);
            let mut j: usize = 0;
            let ghost before = out@;
            while j < lc.len()
                invariant
                    j <= lc@.len(),
                    out@ == before + lc@.take(j as int),
                decreases lc@.len() - j,
            {
                out.push(lc[j]);
                j = j + 1;
                assert(out@ =~= before + lc@.take(j as int));
            }
            assert(lc@.take(j as int) =~= lc@);
            proof {
                if is_ascii_text(cs@) {
                    assert(before + seq![ascii_lower(c)] =~= before.push(ascii_lower(c)));
                }
            }
        }
        i = i + 1;
    }
    assert(cs@.take(i as int) =~= cs@);
    string_from_chars(&out)
}

/// Whether `p` is a prefix of `s`.
pub open spec fn is_prefix_of(p: Seq<char>, s: Seq<char>) -> bool {
    p.len() <= s.len() && s.take(p.len() as int) == p
}

/// Whether `p` occurs in `s` starting at `at`.
pub open spec fn occurs_at(p: Seq<char>, s: Seq<char>, at: int) -> bool {
    0 <= at && at + p.len() <= s.len() && s.subrange(at, at + p.len()) == p
}

/// Whether `p` occurs anywhere in `s`.
pub open spec fn occurs_in(p: Seq<char>, s: Seq<char>) -> bool {
    exists|at: int| occurs_at(p, s, at)
}

/// Whether `p` occurs in `s` at position `at`.
pub fn matches_at(p: &Vec<char>, s: &Vec<char>, at: usize) -> (r: bool)
    ensures
        r == occurs_at(p@, s@, at as int),
{
    if at > s.len() || p.len() > s.len() - at {
        return false;
    }
    let mut k: usize = 0;
    while k < p.len()
        invariant
            at + p@.len() <= s@.len(),
            s@.len() <= usize::MAX,
            k <= p@.len(),
            forall|m: int| 0 <= m < k ==> s@[at + m] == p@[m],
        decreases p@.len() - k,
    {
        if s[at + k] != p[k] {
            assert(s@.subrange(at as int, at + p@.len())[k as int] != p@[k as int]);
            return false;
        }
        k = k + 1;
    }
    assert(s@.subrange(at as int, at + p@.len()) =~= p@);
    true
}

/// Whether `p` is a prefix of `s`.
pub fn starts_with(p: &Vec<char>, s: &Vec<char>) -> (r: bool)
    ensures
        r == is_prefix_of(p@, s@),
{
    let r = matches_at(p, s, 0);
    assert(s@.subrange(0, p@.len() as int) =~= s@.take(p@.len() as int));
    r
}

/// Whether `p` occurs anywhere in `s`.
pub fn contains(p: &Vec<char>, s: &Vec<char>) -> (r: bool)
    ensures
        r == occurs_in(p@, s@),
{
    if p.len() > s.len() {
        assert forall|at: int| !occurs_at(p@, s@, at) by {}
        return false;
    }
    let last = s.len() - p.len();
    let mut at: usize = 0;
    while at <= last
        invariant
            last == s@.len() - p@.len(),
            forall|k: int| 0 <= k < at ==> !occurs_at(p@, s@, k),
        decreases last + 1 - at,
    {
        if matches_at(p, s, at) {
            return true;
        }
        if at == last {
            assert forall|k: int| !occurs_at(p@, s@, k) by {
                if 0 <= k && k < at {
                } else if k == at {
                } else {
                }
            }
            return false;
        }
        at = at + 1;
    }
    false
}

/// The value of a decimal digit character.
pub open spec fn digit_value(c: char) -> int {
    c as int - '0' as int
}

pub open spec fn is_digit(c: char) -> bool {
    '0' <= c && c <= '9'
}

/// The value of a sequence of decimal digits.
pub open spec fn digits_value(s: Seq<char>) -> int
    decreases s.len(),
{
    if s.len() == 0 {
        0
    } else {
        10 * digits_value(s.drop_last()) + digit_value(s.last())
    }
}

pub open spec fn all_digits(s: Seq<char>) -> bool {
    forall|k: int| 0 <= k < s.len() ==> is_digit(#[trigger] s[k])
}

/// The integer that `s` writes in decimal: an optional `-` or `+` sign and at
/// least one digit, nothing else, and the value in the range of `i64`.
pub open spec fn decimal_integer(s: Seq<char>) -> Option<int> {
    let ds = unsigned_part(s);
    if ds.len() == 0 || !all_digits(ds) {
        None
    } else {
        let v = if is_negative(s) { -digits_value(ds) } else { digits_value(ds) };
        if i64::MIN <= v <= i64::MAX { Some(v) } else { None }
    }
}

pub open spec fn is_negative(s: Seq<char>) -> bool {
    s.len() > 0 && s[0] == '-'
}

/// `s` without its leading sign, if it has one.
pub open spec fn unsigned_part(s: Seq<char>) -> Seq<char> {
    if s.len() > 0 && (s[0] == '-' || s[0] == '+') { s.drop_first() } else { s }
}

pub proof fn lemma_digits_nonneg(s: Seq<char>)
    requires
        all_digits(s),
    ensures
        digits_value(s) >= 0,
    decreases s.len(),
{
    if s.len() > 0 {
        assert(is_digit(s[s.len() - 1]));
        lemma_digits_nonneg(s.drop_last());
    }
}

/// Reads a decimal integer (see `decimal_integer`).
pub fn parse_i64(s: &Vec<char>) -> (r: Option<i64>)
    ensures
        r matches Some(v) ==> decimal_integer(s@) == Some(v as int),
        r is None ==> decimal_integer(s@) is None,
{
    let n = s.len();
    if n == 0 {
        return None;
    }
    let neg = s[0] == '-';
    let start: usize = if s[0] == '-' || s[0] == '+' { 1 } else { 0 };
    let ghost ds = unsigned_part(s@);
    assert(ds =~= s@.subrange(start as int, n as int));
    assert((s@[0] == '-' || s@[0] == '+') == (start == 1));
    if start == n {
        assert(ds.len() == 0);
        return None;
    }
    // The magnitude is accumulated as a negative number so that i64::MIN fits.
    let mut acc: i64 = 0;
    let mut i: usize = start;
    while i < n
        invariant
            n == s@.len(),
            start <= i <= n,
            ds == s@.subrange(start as int, n as int),
            ds == unsigned_part(s@),
            all_digits(s@.subrange(start as int, i as int)),
            acc == -digits_value(s@.subrange(start as int, i as int)),
        decreases n - i,
    {
        let c = s[i];
        let ghost pre = s@.subrange(start as int, i as int);
        let ghost nxt = s@.subrange(start as int, i + 1);
        assert(nxt.drop_last() =~= pre);
        if !('0' <= c && c <= '9') {
            assert(ds[i - start] == c);
            assert(!is_digit(ds[i - start]));
            return None;
        }
        let d = (c as u32 - '0' as u32) as i64;
        assert(nxt.last() == c);
        assert(all_digits(nxt)) by {
            assert forall|k: int| 0 <= k < nxt.len() implies is_digit(#[trigger] nxt[k]) by {
                if k < pre.len() {
                    assert(nxt[k] == pre[k]);
                }
            }
        }
        if acc < -922337203685477580 || (acc == -922337203685477580 && d > 8) {
            // The magnitude already exceeds what fits.
            proof {
                assert(ds.take((i + 1 - start) as int) =~= nxt);
                assert(digits_value(nxt) == 10 * digits_value(pre) + digit_value(c));
                if all_digits(ds) {
                    lemma_digits_prefix_grows(ds, (i + 1 - start) as int);
                }
            }
            return None;
        }
        proof {
            lemma_digits_nonneg(pre);
        }
        acc = acc * 10 - d;
        i = i + 1;
    }
    assert(s@.subrange(start as int, n as int) == ds);
    if neg {
        Some(acc)
    } else {
        if acc == i64::MIN {
            return None;
        }
        Some(-acc)
    }
}

/// A longer run of digits is worth at least as much as a prefix of it.
pub proof fn lemma_digits_prefix_grows(ds: Seq<char>, k: int)
    requires
        all_digits(ds),
        0 <= k <= ds.len(),
    ensures
        digits_value(ds) >= digits_value(ds.take(k)),
    decreases ds.len() - k,
{
    if k < ds.len() {
        lemma_digits_prefix_grows(ds, k + 1);
        assert(ds.take(k + 1).drop_last() =~= ds.take(k));
        lemma_digits_nonneg(ds.take(k));
        assert(is_digit(ds[k]));
    } else {
        assert(ds.take(k) =~= ds);
    }
}

/// The digit character for a value below ten.
pub open spec fn digit_char(d: nat) -> char {
    if d == 0 { '0' } else if d == 1 { '1' } else if d == 2 { '2' } else if d == 3 { '3' }
    else if d == 4 { '4' } else if d == 5 { '5' } else if d == 6 { '6' } else if d == 7 { '7' }
    else if d == 8 { '8' } else { '9' }
}

/// The decimal digits of `n`, without leading zeros.
pub open spec fn digits_of(n: nat) -> Seq<char>
    decreases n,
{
    if n < 10 {
        seq![digit_char(n)]
    } else {
        digits_of(n / 10).push(digit_char(n % 10))
    }
}

/// The decimal text of `v`: a `-` for negative values, then its digits.
pub open spec fn decimal_text_spec(v: int) -> Seq<char> {
    if v < 0 {
        seq!['-'] + digits_of((-v) as nat)
    } else {
        digits_of(v as nat)
    }
}

fn digit_to_char(d: u64) -> (r: char)
    requires
        d < 10,
    ensures
        r == digit_char(d as nat),
{
    if d == 0 { '0' } else if d == 1 { '1' } else if d == 2 { '2' } else if d == 3 { '3' }
    else if d == 4 { '4' } else if d == 5 { '5' } else if d == 6 { '6' } else if d == 7 { '7' }
    else if d == 8 { '8' } else { '9' }
}

/// The decimal text of `v` (see `decimal_text_spec`).
pub fn decimal_text(v: i64) -> (r: String)
    ensures
        r@ == decimal_text_spec(v as int),
{
    let m: u64 = if v < 0 { (0i128 - v as i128) as u64 } else { v as u64 };
    let mut q: u64 = m;
    let mut out: Vec<char> = Vec::new();
    assert(digits_of(m as nat) =~= digits_of(q as nat) + out@);
    while q >= 10
        invariant
            digits_of(m as nat) == digits_of(q as nat) + out@,
        decreases q,
    {
        let c = digit_to_char(q % 10);
        let ghost before = out@;
        out.insert(0, c);
        assert(digits_of(q as nat) == digits_of((q / 10) as nat).push(digit_char((q % 10) as nat)));
        assert(digits_of((q / 10) as nat) + out@ =~= digits_of((q / 10) as nat).push(
            digit_char((q % 10) as nat),
        ) + before);
        q = q / 10;
    }
    let ghost before = out@;
    out.insert(0, digit_to_char(q));
    assert(digits_of(q as nat) =~= seq![digit_char(q as nat)]);
    assert(out@ =~= digits_of(q as nat) + before);
    if v < 0 {
        out.insert(0, '-');
        assert(out@ =~= seq!['-'] + digits_of(m as nat));
    }
    string_from_chars(&out)
}

proof fn lemma_digits_of(n: nat)
    ensures
        digits_of(n).len() > 0,
        all_digits(digits_of(n)),
        digits_value(digits_of(n)) == n,
    decreases n,
{
    if n < 10 {
        assert(digits_of(n) =~= seq![digit_char(n)]);
        assert(seq![digit_char(n)].drop_last() =~= Seq::<char>::empty());
        assert(digit_value(digit_char(n)) == n);
        assert(digits_value(seq![digit_char(n)]) == 10 * digits_value(Seq::<char>::empty()) + digit_value(digit_char(n)));
    } else {
        lemma_digits_of(n / 10);
        let s = digits_of(n);
        assert(s.drop_last() =~= digits_of(n / 10));
        assert(s.last() == digit_char(n % 10));
        assert(digit_value(digit_char(n % 10)) == n % 10);
        assert(digits_value(s) == 10 * digits_value(s.drop_last()) + digit_value(s.last()));
        assert forall|k: int| 0 <= k < s.len() implies is_digit(#[trigger] s[k]) by {
            if k < s.len() - 1 {
                assert(s[k] == digits_of(n / 10)[k]);
            }
        }
    }
}

/// Reading the decimal text of a value gives the value back.
pub proof fn lemma_decimal_round_trip(v: i64)
    ensures
        decimal_integer(decimal_text_spec(v as int)) == Some(v as int),
{
    let t = decimal_text_spec(v as int);
    if v < 0 {
        let n = (-(v as int)) as nat;
        lemma_digits_of(n);
        assert(t.drop_first() =~= digits_of(n));
        assert(unsigned_part(t) == digits_of(n));
        assert(is_negative(t));
    } else {
        let n = v as nat;
        lemma_digits_of(n);
        assert(is_digit(digits_of(n)[0]));
        assert(unsigned_part(t) == digits_of(n));
        assert(!is_negative(t));
    }
}

} // verus!
