//! Exact decimal numbers for region statistics.
//!
//! Attribute values in annotation documents are short decimal literals
//! (pixel counts and positivity ratios).  They are kept exactly as a
//! sign, an integer mantissa and a decimal scale, so that parsing,
//! summation and rendering can be specified and proved without any
//! floating-point rounding.

use vstd::prelude::*;
use vstd::arithmetic::mul::{
    lemma_mul_is_associative, lemma_mul_is_commutative, lemma_mul_is_distributive_add_other_way,
    lemma_mul_is_distributive_sub_other_way, lemma_mul_inequality,
};

verus! {

/// Largest scale (number of fraction digits) a parsed value may carry.
pub const MAX_SCALE: u32 = 18;

/// Largest mantissa a parsed value may carry: eighteen nines.
pub const MAX_PARSE_MANTISSA: u128 = 999999999999999999;

/// A signed fixed-point decimal: `mantissa / 10^scale`, negated when
/// `neg` is set.
#[derive(Clone, Copy, Debug, PartialEq, Eq, Structural)]
pub struct Decimal {
    pub neg: bool,
    pub mantissa: u128,
    pub scale: u32,
}

/// Ten to the power `n`.
pub open spec fn pow10(n: nat) -> nat
    decreases n,
{
    if n == 0 {
        1
    } else {
        10 * pow10((n - 1) as nat)
    }
}

pub proof fn lemma_pow10_pos(n: nat)
    ensures
        pow10(n) >= 1,
    decreases n,
{
    if n > 0 {
        lemma_pow10_pos((n - 1) as nat);
    }
}

pub proof fn lemma_pow10_mono(i: nat, j: nat)
    requires
        i <= j,
    ensures
        pow10(i) <= pow10(j),
    decreases j,
{
    if i < j {
        lemma_pow10_mono(i, (j - 1) as nat);
        lemma_pow10_pos((j - 1) as nat);
    }
}

pub proof fn lemma_pow10_adds(i: nat, j: nat)
    ensures
        pow10(i + j) == pow10(i) * pow10(j),
    decreases i,
{
    if i == 0 {
        assert(pow10(j) == 1 * pow10(j));
    } else {
        lemma_pow10_adds((i - 1) as nat, j);
        assert(pow10(i + j) == 10 * pow10((i + j - 1) as nat));
        assert((i - 1) as nat + j == (i + j - 1) as nat);
        lemma_mul_is_associative(10, pow10((i - 1) as nat) as int, pow10(j) as int);
    }
}

pub proof fn lemma_pow10_18()
    ensures
        pow10(18) == 1000000000000000000,
{
    reveal_with_fuel(pow10, 19);
}

pub proof fn lemma_pow10_37()
    ensures
        pow10(37) == 10000000000000000000000000000000000000,
{
    reveal_with_fuel(pow10, 38);
}

/// Well-formed: the scale stays within the supported range.
pub open spec fn dec_wf(d: Decimal) -> bool {
    d.scale <= MAX_SCALE
}

/// The magnitude of the value, scaled to a common denominator of
/// `10^MAX_SCALE`.
pub open spec fn dec_mag(d: Decimal) -> nat {
    (d.mantissa * pow10((MAX_SCALE - d.scale) as nat)) as nat
}

/// The signed value, scaled to a common denominator of `10^MAX_SCALE`.
pub open spec fn scaled_val(d: Decimal) -> int {
    if d.neg {
        -(dec_mag(d) as int)
    } else {
        dec_mag(d) as int
    }
}

/// Parse-sized: the bounds that every freshly parsed value satisfies.
pub open spec fn dec_small(d: Decimal) -> bool {
    dec_wf(d) && d.mantissa <= MAX_PARSE_MANTISSA
}

/// Magnitude bound below which two values can be added without
/// overflow concerns: `10^37`.
pub open spec fn dec_add_limit() -> nat {
    10000000000000000000000000000000000000
}

/// Summable: well-formed with a comfortably bounded magnitude.
pub open spec fn dec_bounded(d: Decimal) -> bool {
    dec_wf(d) && dec_mag(d) <= dec_add_limit()
}

pub proof fn lemma_small_is_bounded(d: Decimal)
    requires
        dec_small(d),
    ensures
        dec_bounded(d),
        dec_mag(d) < 1000000000000000000000000000000000000,
{
    lemma_pow10_18();
    lemma_pow10_37();
    lemma_pow10_mono((MAX_SCALE - d.scale) as nat, 18);
    lemma_mul_inequality(d.mantissa as int, MAX_PARSE_MANTISSA as int, pow10(
        (MAX_SCALE - d.scale) as nat) as int);
    assert(MAX_PARSE_MANTISSA * pow10((MAX_SCALE - d.scale) as nat) <= MAX_PARSE_MANTISSA * pow10(
        18,
    )) by {
        lemma_mul_inequality(pow10((MAX_SCALE - d.scale) as nat) as int, pow10(18) as int,
            MAX_PARSE_MANTISSA as int);
        lemma_mul_is_commutative(MAX_PARSE_MANTISSA as int, pow10(18) as int);
        lemma_mul_is_commutative(MAX_PARSE_MANTISSA as int, pow10(
            (MAX_SCALE - d.scale) as nat) as int);
    }
}

/// The zero value.
pub fn dec_zero() -> (r: Decimal)
    ensures
        r == (Decimal { neg: false, mantissa: 0, scale: 0 }),
        scaled_val(r) == 0,
        dec_small(r),
{
    proof {
        lemma_pow10_18();
    }
    Decimal { neg: false, mantissa: 0, scale: 0 }
}

/// Ten to the power `k`, computed.
fn pow10_u128(k: u32) -> (r: u128)
    requires
        k <= 37,
    ensures
        r == pow10(k as nat),
{
    proof {
        lemma_pow10_37();
    }
    let mut j: u32 = 0;
    let mut r: u128 = 1;
    while j < k
        invariant
            0 <= j <= k <= 37,
            r == pow10(j as nat),
            pow10(37) == 10000000000000000000000000000000000000,
        decreases k - j,
    {
        proof {
            lemma_pow10_mono((j + 1) as nat, 37);
        }
        r = r * 10;
        j = j + 1;
        proof {
            lemma_mul_is_commutative(pow10((j - 1) as nat) as int, 10);
        }
    }
    r
}

/// The exact sum of two decimals: scales are aligned to the larger one
/// and the mantissas combined by sign and magnitude.
pub open spec fn dec_add_spec(a: Decimal, b: Decimal) -> Decimal {
    let hs = if a.scale >= b.scale {
        a.scale
    } else {
        b.scale
    };
    let am = (a.mantissa as nat) * pow10((hs - a.scale) as nat);
    let bm = (b.mantissa as nat) * pow10((hs - b.scale) as nat);
    if a.neg == b.neg {
        Decimal { neg: a.neg, mantissa: (am + bm) as u128, scale: hs }
    } else if am >= bm {
        Decimal { neg: a.neg, mantissa: (am - bm) as u128, scale: hs }
    } else {
        Decimal { neg: b.neg, mantissa: (bm - am) as u128, scale: hs }
    }
}

proof fn lemma_realign(d: Decimal, hs: u32)
    requires
        dec_wf(d),
        d.scale <= hs <= MAX_SCALE,
    ensures
        d.mantissa * pow10((hs - d.scale) as nat) * pow10((MAX_SCALE - hs) as nat) == dec_mag(d),
        d.mantissa * pow10((hs - d.scale) as nat) <= dec_mag(d),
{
    let p1 = pow10((hs - d.scale) as nat);
    let p2 = pow10((MAX_SCALE - hs) as nat);
    lemma_pow10_adds((hs - d.scale) as nat, (MAX_SCALE - hs) as nat);
    assert((hs - d.scale) as nat + (MAX_SCALE - hs) as nat == (MAX_SCALE - d.scale) as nat);
    lemma_mul_is_associative(d.mantissa as int, p1 as int, p2 as int);
    lemma_pow10_pos((MAX_SCALE - hs) as nat);
    lemma_mul_inequality(1, p2 as int, (d.mantissa * p1) as int);
    lemma_mul_is_commutative((d.mantissa * p1) as int, p2 as int);
}

/// Sum of the values, with overflow ruled out by the magnitude bounds.
pub fn dec_add(a: &Decimal, b: &Decimal) -> (r: Decimal)
    requires
        dec_bounded(*a),
        dec_bounded(*b),
    ensures
        r == dec_add_spec(*a, *b),
        dec_wf(r),
        scaled_val(r) == scaled_val(*a) + scaled_val(*b),
        dec_mag(r) <= dec_mag(*a) + dec_mag(*b),
{
    let hs = if a.scale >= b.scale {
        a.scale
    } else {
        b.scale
    };
    proof {
        lemma_realign(*a, hs);
        lemma_realign(*b, hs);
    }
    let am = a.mantissa * pow10_u128(hs - a.scale);
    let bm = b.mantissa * pow10_u128(hs - b.scale);
    let r = if a.neg == b.neg {
        Decimal { neg: a.neg, mantissa: am + bm, scale: hs }
    } else if am >= bm {
        Decimal { neg: a.neg, mantissa: am - bm, scale: hs }
    } else {
        Decimal { neg: b.neg, mantissa: bm - am, scale: hs }
    };
    proof {
        let p2 = pow10((MAX_SCALE - hs) as nat) as int;
        assert(am * p2 == dec_mag(*a));
        assert(bm * p2 == dec_mag(*b));
        assert(dec_mag(r) == r.mantissa * p2);
        if a.neg == b.neg {
            lemma_mul_is_distributive_add_other_way(p2, am as int, bm as int);
        } else if am >= bm {
            lemma_mul_is_distributive_sub_other_way(p2, am as int, bm as int);
        } else {
            lemma_mul_is_distributive_sub_other_way(p2, bm as int, am as int);
        }
    }
    r
}

/// A digit as its character.
pub open spec fn digit_char_of(n: nat) -> char {
    if n == 0 {
        '0'
    } else if n == 1 {
        '1'
    } else if n == 2 {
        '2'
    } else if n == 3 {
        '3'
    } else if n == 4 {
        '4'
    } else if n == 5 {
        '5'
    } else if n == 6 {
        '6'
    } else if n == 7 {
        '7'
    } else if n == 8 {
        '8'
    } else {
        '9'
    }
}

/// The decimal digits of `n`, most significant first.
pub open spec fn udigits(n: nat) -> Seq<char>
    decreases n,
{
    if n < 10 {
        seq![digit_char_of(n)]
    } else {
        udigits(n / 10).push(digit_char_of(n % 10))
    }
}

/// The lowest `k` decimal digits of `m`, zero-padded to width `k`.
pub open spec fn fracdigits(m: nat, k: nat) -> Seq<char>
    decreases k,
{
    if k == 0 {
        Seq::empty()
    } else {
        fracdigits(m / 10, (k - 1) as nat).push(digit_char_of(m % 10))
    }
}

fn digit_to_str(d: u128) -> (r: &'static str)
    requires
        d < 10,
    ensures
        r@ =~= seq![digit_char_of(d as nat)],
{
    proof {
        reveal_strlit("0");
        reveal_strlit("1");
        reveal_strlit("2");
        reveal_strlit("3");
        reveal_strlit("4");
        reveal_strlit("5");
        reveal_strlit("6");
        reveal_strlit("7");
        reveal_strlit("8");
        reveal_strlit("9");
    }
    if d == 0 {
        "0"
    } else if d == 1 {
        "1"
    } else if d == 2 {
        "2"
    } else if d == 3 {
        "3"
    } else if d == 4 {
        "4"
    } else if d == 5 {
        "5"
    } else if d == 6 {
        "6"
    } else if d == 7 {
        "7"
    } else if d == 8 {
        "8"
    } else {
        "9"
    }
}

fn u128_digits_string(n: u128) -> (r: String)
    ensures
        r@ == udigits(n as nat),
    decreases n,
{
    if n < 10 {
        let s = digit_to_str(n);
        String::from_str(s)
    } else {
        assert(n / 10 < n) by {
            assert(10 * (n / 10) <= n) by (nonlinear_arith);
        }
        let mut s = u128_digits_string(n / 10);
        let d = digit_to_str(n % 10);
        s.append(d);
        proof {
            assert(udigits((n as nat) / 10).push(digit_char_of((n as nat) % 10)) =~= udigits(
                (n as nat) / 10) + seq![digit_char_of((n as nat) % 10)]);
        }
        s
    }
}

fn frac_digits_string(m: u128, k: u32) -> (r: String)
    ensures
        r@ == fracdigits(m as nat, k as nat),
    decreases k,
{
    if k == 0 {
        String::new()
    } else {
        let mut s = frac_digits_string(m / 10, k - 1);
        let d = digit_to_str(m % 10);
        s.append(d);
        proof {
            assert(fracdigits((m as nat) / 10, (k - 1) as nat).push(digit_char_of(
                (m as nat) % 10)) =~= fracdigits((m as nat) / 10, (k - 1) as nat) + seq![
                digit_char_of((m as nat) % 10)]);
        }
        s
    }
}

/// The fully reduced form: trailing zero fraction digits removed.
pub open spec fn dec_norm(d: Decimal) -> Decimal
    decreases d.scale,
{
    if d.scale > 0 && d.mantissa % 10 == 0 {
        dec_norm(Decimal { neg: d.neg, mantissa: d.mantissa / 10, scale: (d.scale - 1) as u32 })
    } else {
        d
    }
}

/// The canonical text of a decimal: optional minus sign, integer part,
/// and the reduced fraction part after a dot when one remains.
pub open spec fn dec_str_spec(d: Decimal) -> Seq<char> {
    let nd = dec_norm(d);
    let sign: Seq<char> = if d.neg && d.mantissa != 0 {
        seq!['-']
    } else {
        Seq::empty()
    };
    if nd.scale == 0 {
        sign + udigits(nd.mantissa as nat)
    } else {
        sign + udigits((nd.mantissa as nat) / pow10(nd.scale as nat)) + seq!['.'] + fracdigits(
            nd.mantissa as nat, nd.scale as nat)
    }
}

proof fn lemma_norm_keeps_zeroness(d: Decimal)
    ensures
        dec_norm(d).mantissa == 0 <==> d.mantissa == 0,
        dec_norm(d).neg == d.neg,
        dec_norm(d).scale <= d.scale,
    decreases d.scale,
{
    if d.scale > 0 && d.mantissa % 10 == 0 {
        lemma_norm_keeps_zeroness(
            Decimal { neg: d.neg, mantissa: d.mantissa / 10, scale: (d.scale - 1) as u32 },
        );
    }
}

/// Render the value as text.
pub fn dec_to_string(d: &Decimal) -> (r: String)
    requires
        dec_wf(*d),
    ensures
        r@ == dec_str_spec(*d),
{
    let mut m: u128 = d.mantissa;
    let mut sc: u32 = d.scale;
    while sc > 0 && m % 10 == 0
        invariant
            sc <= MAX_SCALE,
            dec_norm(*d) == dec_norm(Decimal { neg: d.neg, mantissa: m, scale: sc }),
        decreases sc,
    {
        m = m / 10;
        sc = sc - 1;
    }
    proof {
        assert(dec_norm(Decimal { neg: d.neg, mantissa: m, scale: sc }) == (Decimal {
            neg: d.neg,
            mantissa: m,
            scale: sc,
        }));
        lemma_norm_keeps_zeroness(*d);
    }
    let mut out = String::new();
    if d.neg && d.mantissa != 0 {
        out.append("-");
        proof {
            reveal_strlit("-");
            assert(out@ =~= seq!['-']);
        }
    }
    if sc == 0 {
        let digits = u128_digits_string(m);
        out.append(digits.as_str());
    } else {
        let p = pow10_u128(sc);
        proof {
            lemma_pow10_pos(sc as nat);
        }
        let ip = m / p;
        let digits = u128_digits_string(ip);
        out.append(digits.as_str());
        out.append(".");
        proof {
            reveal_strlit(".");
            assert("."@ =~= seq!['.']);
        }
        let fd = frac_digits_string(m, sc);
        out.append(fd.as_str());
        proof {
            assert(ip == (m as nat) / (pow10(sc as nat) as nat)) by {
                lemma_pow10_pos(sc as nat);
            }
        }
    }
    out
}

/// A decimal digit character.
pub open spec fn is_digit_char(c: char) -> bool {
    48 <= (c as u32) && (c as u32) <= 57
}

/// The numeric value of a digit character.
pub open spec fn digit_val(c: char) -> nat {
    ((c as u32) - 48) as nat
}

/// Every character of the sequence is a digit.
pub open spec fn all_digits(s: Seq<char>) -> bool {
    forall|i: int| 0 <= i < s.len() ==> is_digit_char(s[i])
}

/// The number denoted by a digit sequence, most significant first.
pub open spec fn digits_val(s: Seq<char>) -> nat
    decreases s.len(),
{
    if s.len() == 0 {
        0
    } else {
        10 * digits_val(s.drop_last()) + digit_val(s.last())
    }
}

/// The index of the first `.` in the sequence, or its length when
/// there is none.
pub open spec fn first_dot(s: Seq<char>) -> int
    decreases s.len(),
{
    if s.len() == 0 {
        0
    } else if s[0] == '.' {
        0
    } else {
        1 + first_dot(s.drop_first())
    }
}

/// Split an optional leading sign off a numeric literal.
pub open spec fn parse_sign(s: Seq<char>) -> (bool, Seq<char>) {
    if s.len() > 0 && s[0] == '-' {
        (true, s.drop_first())
    } else if s.len() > 0 && s[0] == '+' {
        (false, s.drop_first())
    } else {
        (false, s)
    }
}

/// The decimal denoted by a trimmed literal: an optional sign, integer
/// digits, and optionally a dot followed by fraction digits, with at
/// least one digit in all; `None` when the text has another shape or
/// the number is too wide for the supported range.
pub open spec fn parse_dec_spec(s: Seq<char>) -> Option<Decimal> {
    let neg = parse_sign(s).0;
    let body = parse_sign(s).1;
    let d = first_dot(body);
    let ip = body.take(d);
    let fp = if d < body.len() {
        body.skip(d + 1)
    } else {
        Seq::empty()
    };
    if all_digits(ip) && all_digits(fp) && ip.len() + fp.len() >= 1 && fp.len() <= MAX_SCALE
        && digits_val(ip + fp) <= MAX_PARSE_MANTISSA {
        Some(
            Decimal {
                neg,
                mantissa: digits_val(ip + fp) as u128,
                scale: fp.len() as u32,
            },
        )
    } else {
        None
    }
}

proof fn lemma_first_dot_le(s: Seq<char>)
    ensures
        0 <= first_dot(s) <= s.len(),
    decreases s.len(),
{
    if s.len() > 0 && s[0] != '.' {
        lemma_first_dot_le(s.drop_first());
    }
}

proof fn lemma_digit_char_ne_dot(c: char)
    requires
        is_digit_char(c),
    ensures
        c != '.',
{
    if c == '.' {
        assert((c as u32) == ('.' as u32));
    }
}

proof fn lemma_first_dot_ge(s: Seq<char>, i: int)
    requires
        0 <= i <= s.len(),
        forall|k: int| 0 <= k < i ==> s[k] != '.',
    ensures
        first_dot(s) >= i,
    decreases i,
{
    lemma_first_dot_le(s);
    if i > 0 {
        assert(s[0] != '.');
        let t = s.drop_first();
        assert(forall|k: int| 0 <= k < i - 1 ==> t[k] == s[k + 1] && s[k + 1] != '.');
        lemma_first_dot_ge(t, i - 1);
    }
}

proof fn lemma_first_dot_at(s: Seq<char>, i: int)
    requires
        0 <= i < s.len(),
        forall|k: int| 0 <= k < i ==> s[k] != '.',
        s[i] == '.',
    ensures
        first_dot(s) == i,
    decreases i,
{
    if i == 0 {
    } else {
        assert(s[0] != '.');
        let t = s.drop_first();
        assert(forall|k: int| 0 <= k < t.len() ==> t[k] == s[k + 1]);
        lemma_first_dot_at(t, i - 1);
    }
}

proof fn lemma_first_dot_none(s: Seq<char>)
    requires
        forall|k: int| 0 <= k < s.len() ==> s[k] != '.',
    ensures
        first_dot(s) == s.len(),
    decreases s.len(),
{
    if s.len() > 0 {
        let t = s.drop_first();
        assert(forall|k: int| 0 <= k < t.len() ==> t[k] == s[k + 1]);
        lemma_first_dot_none(t);
    }
}

proof fn lemma_digits_val_push(t: Seq<char>, c: char)
    ensures
        digits_val(t.push(c)) == 10 * digits_val(t) + digit_val(c),
{
    assert(t.push(c).len() == t.len() + 1);
    assert(t.push(c).drop_last() =~= t);
    assert(t.push(c).last() == c);
}

proof fn lemma_digits_val_take_le(s: Seq<char>, j: int)
    requires
        0 <= j <= s.len(),
    ensures
        digits_val(s.take(j)) <= digits_val(s),
    decreases s.len(),
{
    if j < s.len() {
        assert(s.drop_last().take(j) =~= s.take(j));
        lemma_digits_val_take_le(s.drop_last(), j);
        assert(digits_val(s) == 10 * digits_val(s.drop_last()) + digit_val(s.last()));
    } else {
        assert(s.take(j) =~= s);
    }
}

fn is_digit(c: char) -> (r: bool)
    ensures
        r == is_digit_char(c),
{
    let u = c as u32;
    48 <= u && u <= 57
}

fn char_digit(c: char) -> (r: u128)
    requires
        is_digit_char(c),
    ensures
        r == digit_val(c),
        r < 10,
{
    (c as u32 - 48) as u128
}

/// Parse a trimmed numeric literal into a decimal.
#[verifier::rlimit(100)]
pub fn parse_decimal(s: &str) -> (r: Option<Decimal>)
    ensures
        r == parse_dec_spec(s@),
        r matches Some(d) ==> dec_small(d),
{
    let n = s.unicode_len();
    let mut start: usize = 0;
    let mut neg = false;
    if n > 0 {
        let c0 = s.get_char(0);
        if c0 == '-' {
            neg = true;
            start = 1;
        } else if c0 == '+' {
            start = 1;
        }
    }
    proof {
        if start == 0 {
            assert(s@.skip(0) =~= s@);
        } else {
            assert(s@.drop_first() =~= s@.skip(1));
        }
        assert(parse_sign(s@).0 == neg);
        assert(parse_sign(s@).1 == s@.skip(start as int));
    }
    let ghost body = s@.skip(start as int);
    let mut pos = start;
    let mut m: u128 = 0;
    loop
        invariant
            start <= pos <= n,
            n == s@.len(),
            start <= 1,
            body == s@.skip(start as int),
            parse_sign(s@).1 == body,
            parse_sign(s@).0 == neg,
            forall|k: int| start <= k < pos ==> is_digit_char(s@[k]),
            m == digits_val(s@.subrange(start as int, pos as int)),
            m <= MAX_PARSE_MANTISSA,
        ensures
            pos == n || !is_digit_char(s@[pos as int]),
        decreases n - pos,
    {
        if pos >= n {
            break;
        }
        let c = s.get_char(pos);
        if !is_digit(c) {
            break;
        }
        let d = char_digit(c);
        proof {
            assert(s@.subrange(start as int, pos as int + 1) =~= s@.subrange(
                start as int, pos as int).push(c));
            lemma_digits_val_push(s@.subrange(start as int, pos as int), c);
        }
        if m > (MAX_PARSE_MANTISSA - d) / 10 {
            proof {
                let w = (MAX_PARSE_MANTISSA - d) as int;
                assert(10 * (w / 10) + w % 10 == w);
                assert(10 * m + d > MAX_PARSE_MANTISSA);
                lemma_overflow_means_none(s@, start as int, pos as int, c);
            }
            return None;
        }
        m = m * 10 + d;
        pos = pos + 1;
    }
    // the integer digits end at `pos`
    if pos == n {
        proof {
            assert(forall|k: int| 0 <= k < body.len() ==> body[k] == s@[k + start]);
            assert forall|k: int| 0 <= k < body.len() implies body[k] != '.' by {
                assert(is_digit_char(s@[k + start]));
                lemma_digit_char_ne_dot(body[k]);
            }
            lemma_first_dot_none(body);
            assert(body.take(body.len() as int) =~= body);
            assert(body + Seq::<char>::empty() =~= body);
            assert(body =~= s@.subrange(start as int, n as int));
        }
        if pos == start {
            return None;
        }
        return Some(Decimal { neg, mantissa: m, scale: 0 });
    }
    let c = s.get_char(pos);
    if c != '.' {
        proof {
            assert(!is_digit_char(c));
            assert(forall|k: int| 0 <= k < (pos - start) ==> body[k] == s@[k + start]);
            assert forall|k: int| 0 <= k < (pos - start) implies body[k] != '.' by {
                assert(is_digit_char(s@[k + start]));
                lemma_digit_char_ne_dot(body[k]);
            }
            assert(body[pos - start] == c);
            assert(forall|k: int| 0 <= k < (pos - start + 1) ==> body[k] != '.');
            lemma_first_dot_ge(body, pos - start + 1);
            lemma_first_dot_le(body);
            let d = first_dot(body);
            assert(body.take(d)[pos - start] == c);
            assert(!all_digits(body.take(d)));
        }
        return None;
    }
    proof {
        assert(forall|k: int| 0 <= k < (pos - start) ==> body[k] == s@[k + start]);
        assert forall|k: int| 0 <= k < (pos - start) implies body[k] != '.' by {
            assert(is_digit_char(s@[k + start]));
            lemma_digit_char_ne_dot(body[k]);
        }
        assert(body[pos - start] == c);
        lemma_first_dot_at(body, pos - start);
        assert(body.take(pos - start) =~= s@.subrange(start as int, pos as int));
    }
    let ghost ip = body.take(pos - start);
    let ghost fp = body.skip(pos - start + 1);
    proof {
        assert(fp =~= s@.subrange(pos as int + 1, n as int));
        assert(fp.len() == n - pos - 1);
    }
    let mut pos2 = pos + 1;
    let mut sc: u32 = 0;
    loop
        invariant
            pos + 1 <= pos2 <= n,
            pos < n,
            n == s@.len(),
            sc == pos2 - pos - 1,
            sc <= MAX_SCALE,
            ip == body.take(pos - start),
            fp == s@.subrange(pos as int + 1, n as int),
            fp == body.skip(pos - start + 1),
            first_dot(body) == pos - start,
            parse_sign(s@).1 == body,
            parse_sign(s@).0 == neg,
            body == s@.skip(start as int),
            start <= pos,
            all_digits(ip),
            ip.len() == pos - start,
            digits_val(ip) <= MAX_PARSE_MANTISSA,
            forall|k: int| pos + 1 <= k < pos2 ==> is_digit_char(s@[k]),
            m == digits_val(ip + s@.subrange(pos as int + 1, pos2 as int)),
            m <= MAX_PARSE_MANTISSA,
        decreases n - pos2,
    {
        if pos2 >= n {
            proof {
                assert(s@.subrange(pos as int + 1, pos2 as int) =~= fp);
            }
            if pos == start && sc == 0 {
                proof {
                    assert(ip.len() + fp.len() == 0);
                }
                return None;
            }
            return Some(Decimal { neg, mantissa: m, scale: sc });
        }
        let c2 = s.get_char(pos2);
        if !is_digit(c2) {
            proof {
                assert(fp[pos2 - pos - 1] == c2);
                assert(!all_digits(fp));
            }
            return None;
        }
        if sc >= MAX_SCALE {
            proof {
                assert(fp.len() > MAX_SCALE);
            }
            return None;
        }
        let d = char_digit(c2);
        proof {
            assert((ip + s@.subrange(pos as int + 1, pos2 as int + 1)) =~= (ip + s@.subrange(
                pos as int + 1, pos2 as int)).push(c2));
            lemma_digits_val_push(ip + s@.subrange(pos as int + 1, pos2 as int), c2);
        }
        if m > (MAX_PARSE_MANTISSA - d) / 10 {
            proof {
                let w = (MAX_PARSE_MANTISSA - d) as int;
                assert(10 * (w / 10) + w % 10 == w);
                assert(10 * m + d > MAX_PARSE_MANTISSA);
                let whole = ip + fp;
                assert(whole.take(ip.len() + (pos2 - pos - 1) + 1) =~= (ip + s@.subrange(
                    pos as int + 1, pos2 as int)).push(c2)) by {
                    assert(forall|k: int| pos + 1 <= k < n ==> fp[k - pos - 1] == s@[k]);
                }
                lemma_digits_val_take_le(whole, ip.len() + (pos2 - pos - 1) + 1);
                assert(digits_val(ip + fp) > MAX_PARSE_MANTISSA);
            }
            return None;
        }
        m = m * 10 + d;
        sc = sc + 1;
        pos2 = pos2 + 1;
    }
}

proof fn lemma_overflow_means_none(s: Seq<char>, start: int, pos: int, c: char)
    requires
        0 <= start <= pos < s.len(),
        start <= 1,
        forall|k: int| start <= k < pos ==> is_digit_char(s[k]),
        is_digit_char(c),
        s[pos] == c,
        parse_sign(s).1 == s.skip(start),
        digits_val(s.subrange(start, pos + 1)) > MAX_PARSE_MANTISSA,
    ensures
        parse_dec_spec(s) is None,
{
    let body = s.skip(start);
    assert(forall|k: int| 0 <= k < body.len() ==> body[k] == s[k + start]);
    assert(forall|k: int| 0 <= k < pos + 1 - start ==> is_digit_char(body[k]));
    assert forall|k: int| 0 <= k < pos + 1 - start implies body[k] != '.' by {
        lemma_digit_char_ne_dot(body[k]);
    }
    lemma_first_dot_ge(body, pos + 1 - start);
    lemma_first_dot_le(body);
    let d = first_dot(body);
    let ip = body.take(d);
    let fp = if d < body.len() {
        body.skip(d + 1)
    } else {
        Seq::<char>::empty()
    };
    let whole = ip + fp;
    assert(whole.take(pos + 1 - start) =~= body.take(pos + 1 - start));
    assert(body.take(pos + 1 - start) =~= s.subrange(start, pos + 1));
    lemma_digits_val_take_le(whole, pos + 1 - start);
    assert(digits_val(ip + fp) > MAX_PARSE_MANTISSA);
}

} // verus!
