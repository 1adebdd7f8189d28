//! Decimal text of binary32 numbers.

use crate::decimal::{
    decimal_bits, decimal_magnitude, lemma_pow10_pos, pow10, times_pow10, times_unit,
};
use crate::natural::Natural;
use crate::numerals::{digit, digit_char, digits};
use crate::rounding::{
    half_even, lemma_half_even_exact, lemma_half_even_scale, lemma_pow2_le, pow2_u128,
};
use crate::single::{magnitude_units, parts, Single};
use crate::text::{chars_of, concat_text, text_of};
use vstd::arithmetic::div_mod::lemma_fundamental_div_mod_converse;
use vstd::arithmetic::power2::{lemma2_to64, lemma_pow2_adds, lemma_pow2_pos, pow2};
use vstd::prelude::*;

verus! {

/// The numerator of `u` units over `10^k`.
pub open spec fn ten_num(u: nat, k: int) -> nat {
    if k >= 0 {
        u
    } else {
        u * pow10((-k) as nat)
    }
}

/// The denominator of `u` units over `10^k`.
pub open spec fn ten_den(k: int) -> nat {
    if k >= 0 {
        pow10(k as nat) * pow2(149)
    } else {
        pow2(149)
    }
}

/// The largest `e <= from` with `u` units at least `10^e`.
pub open spec fn ten_exponent(u: nat, from: int) -> int
    decreases from + 46,
{
    if from <= -46 || ten_num(u, from) >= ten_den(from) {
        from
    } else {
        ten_exponent(u, from - 1)
    }
}

/// The shortest row of at least `n` decimal digits that reads back as the given
/// magnitude, as a whole number and the power of ten to multiply it by. Of two
/// rows of one length the nearer one, the upper one of two that are equally near.
pub open spec fn shortest(mag: nat, n: int) -> (nat, int)
    decreases 9 - n,
{
    let u = magnitude_units(mag);
    let k = ten_exponent(u, 38) - n + 1;
    let low = ten_num(u, k) / ten_den(k);
    let rest = ten_num(u, k) % ten_den(k);
    let low_reads = decimal_bits(low, k) == mag;
    let high_reads = decimal_bits(low + 1, k) == mag;
    if high_reads && (!low_reads || 2 * rest >= ten_den(k)) {
        (low + 1, k)
    } else if low_reads || n >= 9 {
        (low, k)
    } else {
        shortest(mag, n + 1)
    }
}

/// The digits without zeros at the end.
pub open spec fn without_zeros(d: nat, k: int) -> (nat, int)
    decreases d,
{
    if d > 0 && d % 10 == 0 {
        without_zeros(d / 10, k + 1)
    } else {
        (d, k)
    }
}

pub open spec fn zeros(n: nat) -> Seq<char> {
    Seq::new(n, |i: int| '0')
}

/// `d * 10^k` written out without an exponent.
pub open spec fn written_out(d: nat, k: int) -> Seq<char> {
    let s = digits(d, 10);
    if k >= 0 {
        s + zeros(k as nat)
    } else if s.len() + k > 0 {
        s.take(s.len() + k) + seq!['.'] + s.skip(s.len() + k)
    } else {
        seq!['0', '.'] + zeros((-k - s.len()) as nat) + s
    }
}

/// The shortest decimal text of a number.
#[verifier::opaque]
pub open spec fn number_text(x: Single) -> Seq<char> {
    let sign = if x.is_negative() {
        seq!['-']
    } else {
        Seq::empty()
    };
    if x.is_nan() {
        "NaN"@
    } else if x.is_infinite() {
        sign + "inf"@
    } else if x.magnitude() == 0 {
        sign + "0"@
    } else {
        let raw = shortest(x.magnitude() as nat, 1);
        let (d, k) = without_zeros(raw.0, raw.1);
        sign + written_out(d, k)
    }
}

/// The text with three digits behind the point, ties to even.
pub open spec fn thousandths_text(x: Single) -> Seq<char> {
    let sign = if x.is_negative() {
        seq!['-']
    } else {
        Seq::empty()
    };
    if x.is_nan() {
        "NaN"@
    } else if x.is_infinite() {
        sign + "inf"@
    } else {
        sign + written_out_thousandths(half_even(x.units() * 1000, pow2(149)))
    }
}

/// A count of thousandths, with its point.
pub open spec fn written_out_thousandths(n: nat) -> Seq<char> {
    digits(n / 1000, 10) + seq!['.', digit_char(n / 100 % 10), digit_char(n / 10 % 10), digit_char(
        n % 10,
    )]
}

/// The quotient and the remainder of two naturals, where the quotient is small.
fn small_quotient(p: &Natural, q: &Natural) -> (r: (u32, Natural))
    requires
        q@ > 0,
        p@ < q@ * 0x8000_0000,
    ensures
        r.0 == p@ / q@,
        r.1@ == p@ % q@,
        r.0 < 0x8000_0000,
{
    let mut rest: Natural = p.duplicate();
    let mut whole: u32 = 0;
    let mut b: u32 = 31;
    proof {
        lemma2_to64();
    }
    while b > 0
        invariant
            b <= 31,
            q@ > 0,
            rest@ + whole * q@ == p@,
            rest@ < q@ * pow2(b as nat),
            whole + pow2(b as nat) <= 0x8000_0000,
        decreases b,
    {
        proof {
            lemma2_to64();
            lemma_pow2_adds(1, (b - 1) as nat);
            lemma_pow2_le((b - 1) as nat, 30);
        }
        let place: u32 = pow2_u128(b - 1) as u32;
        let part: Natural = q.times_plus(place, 0);
        proof {
            assert(q@ * pow2(b as nat) == 2 * (q@ * place)) by (nonlinear_arith)
                requires
                    pow2(b as nat) == 2 * place,
            ;
        }
        if !rest.less(&part) {
            proof {
                assert((whole + place) * q@ == whole * q@ + q@ * place) by (nonlinear_arith);
            }
            rest = rest.minus(&part);
            whole = whole + place;
        }
        b = b - 1;
    }
    proof {
        lemma2_to64();
        assert(q@ * pow2(0) == q@) by (nonlinear_arith)
            requires
                pow2(0) == 1,
        ;
        lemma_fundamental_div_mod_converse(p@ as int, q@ as int, whole as int, rest@ as int);
    }
    (whole, rest)
}

/// `u` units over `10^k` as a ratio of naturals.
fn ten_ratio(u: &Natural, k: i32) -> (r: (Natural, Natural))
    requires
        -100 <= k <= 100,
    ensures
        r.0@ == ten_num(u@, k as int),
        r.1@ == ten_den(k as int),
        r.1@ > 0,
{
    proof {
        lemma_pow2_pos(149);
        assert(1 * pow2(149) == pow2(149));
    }
    let one = Natural::from_u32(1);
    if k >= 0 {
        let ten = times_pow10(one, k as u128);
        let q = times_unit(&ten);
        proof {
            lemma_pow10_pos(k as nat);
            assert(1 * pow10(k as nat) == pow10(k as nat));
            assert(pow10(k as nat) * pow2(149) > 0) by (nonlinear_arith)
                requires
                    pow10(k as nat) > 0,
                    pow2(149) > 0,
            ;
        }
        (u.duplicate(), q)
    } else {
        let p = times_pow10(u.duplicate(), (-k) as u128);
        let q = times_unit(&one);
        (p, q)
    }
}

/// `m * 2^e`.
fn scaled_natural(m: u32, e: u32) -> (r: Natural)
    ensures
        r@ == m * pow2(e as nat),
{
    let mut r = Natural::from_u32(m);
    let mut i: u32 = 0;
    proof {
        lemma2_to64();
        assert(m * pow2(0) == m) by (nonlinear_arith)
            requires
                pow2(0) == 1,
        ;
    }
    while i < e
        invariant
            i <= e,
            r@ == m * pow2(i as nat),
        decreases e - i,
    {
        proof {
            lemma2_to64();
            lemma_pow2_adds(i as nat, 1);
            assert((m * pow2(i as nat)) * 2 == m * pow2((i + 1) as nat)) by (nonlinear_arith)
                requires
                    pow2((i + 1) as nat) == pow2(i as nat) * 2,
            ;
        }
        r = r.times_plus(2, 0);
        i = i + 1;
    }
    r
}

fn find_ten_exponent(u: &Natural) -> (r: i32)
    ensures
        r == ten_exponent(u@, 38),
        -46 <= r <= 38,
        r < 38 ==> ten_num(u@, r + 1) < ten_den(r + 1),
{
    let mut e: i32 = 38;
    while e > -46
        invariant
            -46 <= e <= 38,
            ten_exponent(u@, 38) == ten_exponent(u@, e as int),
            e < 38 ==> ten_num(u@, e + 1) < ten_den(e + 1),
        decreases e + 46,
    {
        let (p, q) = ten_ratio(u, e);
        if !p.less(&q) {
            return e;
        }
        e = e - 1;
    }
    e
}

/// One more digit multiplies the quotient by ten.
proof fn lemma_ten_step(u: nat, k: int, bound: nat)
    requires
        ten_num(u, k) < ten_den(k) * bound,
    ensures
        ten_num(u, k - 1) < ten_den(k - 1) * (10 * bound),
{
    lemma_pow2_pos(149);
    if k >= 1 {
        assert(pow10(k as nat) == 10 * pow10((k - 1) as nat));
        assert(u < pow10((k - 1) as nat) * pow2(149) * (10 * bound)) by (nonlinear_arith)
            requires
                u < pow10(k as nat) * pow2(149) * bound,
                pow10(k as nat) == 10 * pow10((k - 1) as nat),
        ;
    } else if k == 0 {
        assert(pow10(1) == 10 * pow10(0));
        assert(u * pow10(1) < pow2(149) * (10 * bound)) by (nonlinear_arith)
            requires
                u < pow10(0) * pow2(149) * bound,
                pow10(0) == 1,
                pow10(1) == 10,
        ;
    } else {
        let j = (-k) as nat;
        assert(pow10(j + 1) == 10 * pow10(j));
        assert(u * pow10(j + 1) < pow2(149) * (10 * bound)) by (nonlinear_arith)
            requires
                u * pow10(j) < pow2(149) * bound,
                pow10(j + 1) == 10 * pow10(j),
        ;
    }
}

/// The shortest digits of a finite magnitude above zero.
pub(crate) fn find_shortest(mag: u32) -> (r: (u32, i32))
    requires
        0 < mag < 0x7f80_0000,
    ensures
        (r.0 as nat, r.1 as int) == shortest(mag as nat, 1),
        r.0 <= 0x8000_0000,
        -100 <= r.1 <= 100,
{
    let (m, e) = parts(mag);
    let u = scaled_natural(m, e);
    let top: i32 = find_ten_exponent(&u);
    let mut n: i32 = 1;
    let ghost mut bound: nat = 10;
    proof {
        lemma_below_top(u@, top as int, m as nat, e as nat);
        lemma_ten_step(u@, top + 1, 1);
        reveal_with_fuel(pow10, 2);
    }
    while n < 9
        invariant
            1 <= n <= 9,
            mag < 0x7f80_0000,
            u@ == magnitude_units(mag as nat),
            top == ten_exponent(u@, 38),
            -46 <= top <= 38,
            shortest(mag as nat, 1) == shortest(mag as nat, n as int),
            bound == pow10(n as nat),
            bound <= 1_000_000_000,
            ten_num(u@, top - n + 1) < ten_den(top - n + 1) * bound,
        decreases 9 - n,
    {
        match try_digits(&u, mag, top - n + 1, Ghost(bound)) {
            (Some(d), _low) => {
                return (d, top - n + 1);
            },
            (None, _low) => {},
        }
        proof {
            lemma_ten_step(u@, top - n + 1, bound);
            assert(pow10((n + 1) as nat) == 10 * pow10(n as nat));
            lemma_pow10_small(n);
            bound = 10 * bound;
        }
        n = n + 1;
    }
    match try_digits(&u, mag, top - n + 1, Ghost(bound)) {
        (Some(d), _low) => (d, top - n + 1),
        (None, low) => (low, top - n + 1),
    }
}

/// Powers of ten up to the ninth.
proof fn lemma_pow10_small(n: i32)
    requires
        1 <= n < 9,
    ensures
        10 * pow10(n as nat) <= 1_000_000_000,
{
    reveal_with_fuel(pow10, 10);
}

/// A finite number lies below the next power of ten.
proof fn lemma_below_top(u: nat, top: int, m: nat, e: nat)
    requires
        u == m * pow2(e),
        m < 0x100_0000,
        e <= 253,
        top <= 38,
        top < 38 ==> ten_num(u, top + 1) < ten_den(top + 1),
    ensures
        ten_num(u, top + 1) < ten_den(top + 1) * 1,
{
    if top == 38 {
        lemma2_to64();
        lemma_pow2_pos(e);
        lemma_pow2_le(e, 253);
        lemma_pow2_adds(104, 149);
        lemma_pow2_adds(40, 64);
        lemma_pow2_adds(8, 32);
        let one = pow2(149);
        assert(u < 0x100_0000 * (pow2(104) * one)) by (nonlinear_arith)
            requires
                u == m * pow2(e),
                m < 0x100_0000,
                pow2(e) <= pow2(104) * one,
                pow2(e) > 0,
        ;
        assert(pow10(39) > 0x100_0000 * pow2(104)) by {
            reveal_with_fuel(pow10, 40);
        }
        lemma_pow2_pos(149);
        assert(u < pow10(39) * one) by (nonlinear_arith)
            requires
                u < 0x100_0000 * (pow2(104) * one),
                pow10(39) > 0x100_0000 * pow2(104),
                one > 0,
        ;
    }
}

/// The row of digits of one length, if one reads back, and the lower row.
fn try_digits(u: &Natural, mag: u32, k: i32, Ghost(bound): Ghost<nat>) -> (r: (Option<u32>, u32))
    requires
        u@ == magnitude_units(mag as nat),
        mag < 0x7f80_0000,
        -60 <= k <= 60,
        ten_num(u@, k as int) < ten_den(k as int) * bound,
        bound <= 1_000_000_000,
    ensures
        r.1 == ten_num(u@, k as int) / ten_den(k as int),
        r.1 < 0x7fff_ffff,
        ({
            let low = ten_num(u@, k as int) / ten_den(k as int);
            let rest = ten_num(u@, k as int) % ten_den(k as int);
            let low_reads = decimal_bits(low, k as int) == mag;
            let high_reads = decimal_bits(low + 1, k as int) == mag;
            if high_reads && (!low_reads || 2 * rest >= ten_den(k as int)) {
                r.0 == Some((low + 1) as u32)
            } else if low_reads {
                r.0 == Some(low as u32)
            } else {
                r.0 is None
            }
        }),
{
    let (p, q) = ten_ratio(u, k);
    proof {
        assert(q@ * bound <= q@ * 1_000_000_000) by (nonlinear_arith)
            requires
                bound <= 1_000_000_000,
                q@ > 0,
        ;
        assert(q@ * 1_000_000_000 <= q@ * 0x8000_0000);
    }
    let (low, rest) = small_quotient(&p, &q);
    proof {
        vstd::arithmetic::div_mod::lemma_fundamental_div_mod(p@ as int, q@ as int);
        assert(low * q@ + rest@ == p@) by (nonlinear_arith)
            requires
                p@ == q@ * low + rest@,
        ;
        assert(low < 1_000_000_000) by (nonlinear_arith)
            requires
                low * q@ + rest@ == p@,
                p@ < q@ * bound,
                bound <= 1_000_000_000,
                q@ > 0,
                rest@ >= 0,
        ;
        reveal_with_fuel(pow10, 11);
    }
    let low_bits: u32 = decimal_magnitude(&Natural::from_u32(low), 10, k as i128);
    let high_bits: u32 = decimal_magnitude(&Natural::from_u32(low + 1), 10, k as i128);
    let twice = rest.times_plus(2, 0);
    if high_bits == mag && (low_bits != mag || !twice.less(&q)) {
        (Some(low + 1), low)
    } else if low_bits == mag {
        (Some(low), low)
    } else {
        (None, low)
    }
}

pub(crate) fn strip_zeros(d: u64, k: i32) -> (r: (u64, i32))
    requires
        -500 <= k <= 500,
    ensures
        (r.0 as nat, r.1 as int) == without_zeros(d as nat, k as int),
        r.0 <= d,
        -500 <= r.1 <= 520,
{
    let mut a: u64 = d;
    let mut b: i32 = k;
    let mut steps: u32 = 0;
    proof {
        assert(a * pow10(0) == d) by (nonlinear_arith)
            requires
                a == d,
                pow10(0) == 1,
        ;
    }
    while a > 0 && a % 10 == 0
        invariant
            a <= d,
            -500 <= k <= 500,
            k <= b,
            b - k == steps,
            steps <= 20,
            a * pow10(steps as nat) == d,
            without_zeros(d as nat, k as int) == without_zeros(a as nat, b as int),
        decreases a,
    {
        proof {
            reveal_with_fuel(pow10, 21);
            if steps == 20 {
                assert(a * pow10(20) >= pow10(20)) by (nonlinear_arith)
                    requires
                        a >= 1,
                        pow10(20) >= 0,
                ;
            }
            assert((a / 10) * pow10((steps + 1) as nat) == a * pow10(steps as nat))
                by (nonlinear_arith)
                requires
                    a == (a / 10) * 10,
                    pow10((steps + 1) as nat) == 10 * pow10(steps as nat),
            ;
        }
        a = a / 10;
        b = b + 1;
        steps = steps + 1;
    }
    (a, b)
}

fn push_zeros(s: &mut String, n: u32)
    ensures
        final(s)@ == old(s)@ + zeros(n as nat),
{
    let mut i: u32 = 0;
    let ghost start = s@;
    assert(start + zeros(0) =~= start);
    while i < n
        invariant
            i <= n,
            s@ == start + zeros(i as nat),
        decreases n - i,
    {
        s.push('0');
        i = i + 1;
        assert(s@ =~= start + zeros(i as nat));
    }
}

/// The decimal digits of a natural number.
fn natural_digits(n: &Natural) -> (r: String)
    ensures
        r@ == digits(n@, 10),
    decreases n@,
{
    let (high, low) = n.divided(10);
    let zero = Natural::from_u32(0);
    if !zero.less(&high) {
        let mut r = String::new();
        r.push(digit(low as u64));
        proof {
            vstd::arithmetic::div_mod::lemma_fundamental_div_mod(n@ as int, 10);
        }
        assert(r@ =~= seq![digit_char(n@)]);
        r
    } else {
        proof {
            if n@ < 10 {
                vstd::arithmetic::div_mod::lemma_small_div_converse(n@ as int, 10);
            }
        }
        let mut r = natural_digits(&high);
        r.push(digit(low as u64));
        r
    }
}

/// `d * 10^k` written out without an exponent.
pub(crate) fn write_out(d: u64, k: i32) -> (r: String)
    requires
        -500 <= k <= 520,
    ensures
        r@ == written_out(d as nat, k as int),
{
    let s = crate::numerals::decimal_u64(d);
    let a = chars_of(s.as_str());
    proof {
        lemma_digits_short(d as nat);
    }
    let n: i32 = a.len() as i32;
    if k >= 0 {
        let mut r = s;
        push_zeros(&mut r, k as u32);
        r
    } else if n + k > 0 {
        let at: usize = (n + k) as usize;
        let mut r = text_of(&a, 0, at);
        r.push('.');
        let rest = text_of(&a, at, a.len());
        r.append(rest.as_str());
        assert(r@ =~= written_out(d as nat, k as int));
        r
    } else {
        let mut r = String::new();
        r.push('0');
        r.push('.');
        assert(r@ =~= seq!['0', '.']);
        push_zeros(&mut r, (-k - n) as u32);
        r.append(s.as_str());
        r
    }
}

/// A machine number has few digits.
pub(crate) proof fn lemma_digits_short(n: nat)
    requires
        n <= u64::MAX,
    ensures
        0 < digits(n, 10).len() <= 20,
{
    reveal_with_fuel(pow10, 21);
    lemma_digits_at_most(n, 20);
}

proof fn lemma_digits_at_most(n: nat, count: nat)
    requires
        count > 0,
        n < pow10(count),
    ensures
        0 < digits(n, 10).len() <= count,
    decreases count,
{
    if n >= 10 {
        assert(pow10(1) == 10) by {
            reveal_with_fuel(pow10, 2);
        }
        lemma_digits_at_most(n / 10, (count - 1) as nat);
    }
}

pub(crate) fn sign_text(negative: bool) -> (r: String)
    ensures
        r@ == (if negative {
            seq!['-']
        } else {
            Seq::empty()
        }),
{
    let mut r = String::new();
    if negative {
        r.push('-');
        assert(r@ =~= seq!['-']);
    }
    r
}

/// The text with three digits behind the point, ties to even.
pub fn show_thousandths(x: Single) -> (r: String)
    ensures
        r@ == thousandths_text(x),
{
    if x.is_nan() {
        return "NaN".to_owned();
    }
    let sign = sign_text(x.is_negative());
    if x.is_infinite() {
        return concat_text(sign.as_str(), "inf");
    }
    let (m, e) = parts(x.magnitude());
    let n = thousandths(m, e);
    let (a, last) = n.divided(10);
    let (b, middle) = a.divided(10);
    let (c, first) = b.divided(10);
    proof {
        vstd::arithmetic::div_mod::lemma_div_denominator(n@ as int, 10, 10);
        vstd::arithmetic::div_mod::lemma_div_denominator(n@ as int, 100, 10);
    }
    let mut r = concat_text(sign.as_str(), natural_digits(&c).as_str());
    r.push('.');
    r.push(digit(first as u64));
    r.push(digit(middle as u64));
    r.push(digit(last as u64));
    assert(r@ =~= thousandths_text(x));
    r
}

/// The count of thousandths nearest to `m * 2^e` units, ties to even.
fn thousandths(m: u32, e: u32) -> (r: Natural)
    requires
        m < 0x100_0000,
        e <= 253,
    ensures
        r@ == half_even((m * pow2(e as nat)) as nat * 1000, pow2(149)),
{
    proof {
        lemma2_to64();
        lemma_pow2_pos(149);
        lemma_pow2_pos(e as nat);
        assert(m * 1000 < 0x100_0000 * 1000);
    }
    let t: u64 = m as u64 * 1000;
    let ghost value = (m * pow2(e as nat)) as nat * 1000;
    assert(value == t as nat * pow2(e as nat)) by (nonlinear_arith)
        requires
            value == (m * pow2(e as nat)) as nat * 1000,
            t == m * 1000,
    ;
    if e >= 149 {
        let n = scaled_natural(m, e - 149).times_plus(1000, 0);
        proof {
            lemma_pow2_adds((e - 149) as nat, 149);
            assert(value == n@ * pow2(149)) by (nonlinear_arith)
                requires
                    value == (m * pow2(e as nat)) as nat * 1000,
                    n@ == (m * pow2((e - 149) as nat)) * 1000,
                    pow2(e as nat) == pow2((e - 149) as nat) * pow2(149),
            ;
            lemma_half_even_exact(n@, pow2(149));
        }
        n
    } else {
        let s: u32 = 149 - e;
        proof {
            lemma_pow2_adds(s as nat, e as nat);
            lemma_pow2_pos(s as nat);
            lemma_half_even_scale(t as nat, pow2(s as nat), pow2(e as nat));
        }
        if s > 40 {
            proof {
                lemma_pow2_le(40, s as nat);
                lemma_pow2_adds(8, 32);
                lemma_fundamental_div_mod_converse(t as int, pow2(s as nat) as int, 0, t as int);
            }
            Natural::from_u32(0)
        } else {
            let place: u128 = pow2_u128(s);
            proof {
                lemma_pow2_le(s as nat, 40);
                lemma_pow2_adds(8, 32);
                lemma_pow2_le(1, s as nat);
                vstd::arithmetic::div_mod::lemma_div_is_ordered_by_denominator(
                    t as int,
                    2,
                    place as int,
                );
                vstd::arithmetic::div_mod::lemma_mod_bound(t as int, place as int);
            }
            let whole: u128 = t as u128 / place;
            let rest: u128 = t as u128 % place;
            let n: u128 = if 2 * rest < place || (2 * rest == place && whole % 2 == 0) {
                whole
            } else {
                whole + 1
            };
            let high: u32 = (n / 0x1_0000_0000) as u32;
            let low: u32 = (n % 0x1_0000_0000) as u32;
            // high * 2^32 + low, in two steps of 2^16.
            let shifted = Natural::from_u32(high).times_plus(0x1_0000, 0).times_plus(0x1_0000, low);
            shifted
        }
    }
}

/// The shortest decimal text of a number.
pub fn show_single(x: Single) -> (r: String)
    ensures
        r@ == number_text(x),
{
    proof {
        reveal(number_text);
    }
    if x.is_nan() {
        return "NaN".to_owned();
    }
    let sign = sign_text(x.is_negative());
    if x.is_infinite() {
        return concat_text(sign.as_str(), "inf");
    }
    let mag: u32 = x.magnitude();
    if mag == 0 {
        return concat_text(sign.as_str(), "0");
    }
    let (raw, at) = find_shortest(mag);
    let (d, k) = strip_zeros(raw as u64, at);
    let body = write_out(d, k);
    concat_text(sign.as_str(), body.as_str())
}

} // verus!
