//! Texts of numbers with a fraction: written out near one, with an exponent far from it.

use crate::decimal::{lemma_pow10_adds, lemma_pow10_pos, pow10, times_pow10};
use crate::natural::Natural;
use crate::numerals::{decimal, decimal_i64, decimal_u64, digits};
use crate::rounding::{lemma_pow2_le, pow2_u128};
use crate::show::{
    find_shortest, lemma_digits_short, shortest, sign_text, strip_zeros, without_zeros, write_out,
    written_out,
};
use crate::single::{double_units, Single};
use crate::text::{chars_of, concat_text, text_of};
use vstd::arithmetic::div_mod::{
    lemma_fundamental_div_mod, lemma_fundamental_div_mod_converse,
};
use vstd::arithmetic::power2::{lemma2_to64, lemma_pow2_adds, lemma_pow2_pos, pow2};
use vstd::prelude::*;

verus! {

/// `d * 10^k` with one digit before the point and an exponent.
pub open spec fn with_exponent(d: nat, k: int) -> Seq<char> {
    let s = digits(d, 10);
    let rest = if s.len() > 1 {
        seq!['.'] + s.skip(1)
    } else {
        Seq::empty()
    };
    s.take(1) + rest + seq!['e'] + decimal(k + s.len() - 1)
}

/// `d * 10^k` written out, with at least one digit behind the point.
pub open spec fn with_point(d: nat, k: int) -> Seq<char> {
    if k >= 0 {
        written_out(d, k) + seq!['.', '0']
    } else {
        written_out(d, k)
    }
}

/// `d * 10^k` in the notation for its size.
pub open spec fn in_notation(d: nat, k: int, far: bool) -> Seq<char> {
    let (a, b) = without_zeros(d, k);
    if far {
        with_exponent(a, b)
    } else {
        with_point(a, b)
    }
}

fn write_exponent(d: u64, k: i32) -> (r: String)
    requires
        -500 <= k <= 520,
    ensures
        r@ == with_exponent(d as nat, k as int),
{
    let s = decimal_u64(d);
    let a = chars_of(s.as_str());
    proof {
        lemma_digits_short(d as nat);
    }
    let mut r = text_of(&a, 0, 1);
    assert(r@ =~= s@.take(1));
    if a.len() > 1 {
        r.push('.');
        let rest = text_of(&a, 1, a.len());
        assert(rest@ =~= s@.skip(1));
        r.append(rest.as_str());
    }
    r.push('e');
    let exponent: i64 = k as i64 + a.len() as i64 - 1;
    r.append(decimal_i64(exponent).as_str());
    assert(r@ =~= with_exponent(d as nat, k as int));
    r
}

fn write_notation(d: u64, k: i32, far: bool) -> (r: String)
    requires
        -500 <= k <= 500,
    ensures
        r@ == in_notation(d as nat, k as int, far),
{
    let (a, b) = strip_zeros(d, k);
    if far {
        write_exponent(a, b)
    } else {
        let mut r = write_out(a, b);
        if b >= 0 {
            r.push('.');
            r.push('0');
        }
        assert(r@ =~= with_point(a as nat, b as int));
        r
    }
}

/// The text of a number by its sign and what stands behind it.
pub open spec fn with_minus(negative: bool, body: Seq<char>) -> Seq<char> {
    if negative {
        seq!['-'] + body
    } else {
        body
    }
}

/// Whether a finite magnitude of a binary32 number is written with an exponent: below a
/// ten-thousandth, and from ten to the sixteenth on.
pub open spec fn is_far(mag: nat) -> bool {
    0 < mag < 0x38d1_b717 || mag >= 0x5a0e_1bca
}

/// The shortest text of a binary32 number that tells it from whole numbers.
pub open spec fn general_text(x: Single) -> Seq<char> {
    let mag = x.magnitude() as nat;
    if x.is_nan() {
        "NaN"@
    } else if x.is_infinite() {
        with_minus(x.is_negative(), "inf"@)
    } else if mag == 0 {
        with_minus(x.is_negative(), "0.0"@)
    } else {
        let (d, k) = shortest(mag, 1);
        with_minus(x.is_negative(), in_notation(d, k, is_far(mag)))
    }
}

fn put_minus(negative: bool, body: &str) -> (r: String)
    ensures
        r@ == with_minus(negative, body@),
{
    let r = concat_text(sign_text(negative).as_str(), body);
    assert(r@ =~= with_minus(negative, body@));
    r
}

pub fn show_general(x: Single) -> (r: String)
    ensures
        r@ == general_text(x),
{
    let negative = x.is_negative();
    let mag: u32 = x.magnitude();
    if x.is_nan() {
        "NaN".to_owned()
    } else if x.is_infinite() {
        put_minus(negative, "inf")
    } else if mag == 0 {
        put_minus(negative, "0.0")
    } else {
        let (d, k) = find_shortest(mag);
        let far = mag < 0x38d1_b717 || mag >= 0x5a0e_1bca;
        let body = write_notation(d as u64, k, far);
        put_minus(negative, body.as_str())
    }
}

/// How often a ratio can be divided by ten before it lies below ten.
pub open spec fn tens(p: nat, q: nat) -> nat
    decreases p - q,
{
    if q == 0 || p < 10 * q {
        0
    } else {
        1 + tens(p, 10 * q)
    }
}

/// Whether one count lies below another, or at it where that is allowed.
pub open spec fn at_most(a: nat, b: nat, even: bool) -> bool {
    a < b || (even && a == b)
}

/// The shortest row of at least `n` decimal digits, and their count, that tells a ratio
/// from its neighbours. The ratio lies between one and ten; `low` and `high` are the
/// doubled midpoints to the neighbours, over the same denominator, and count as the ratio
/// itself where `even`. Of two rows of one length the nearer one, the upper one of two
/// that are equally near.
pub open spec fn shortest_row(
    p: nat,
    q: nat,
    low: nat,
    high: nat,
    even: bool,
    n: nat,
) -> (nat, nat)
    decreases 17 - n,
{
    let t = pow10((n - 1) as nat);
    let d = (p * t) / q;
    let rest = (p * t) % q;
    let down = at_most(low * t, 2 * (d * q), even);
    let up = at_most(2 * (d * q) + 2 * q, high * t, even);
    if up && (!down || 2 * rest >= q) {
        (d + 1, n)
    } else if down || n >= 17 {
        (d, n)
    } else {
        shortest_row(p, q, low, high, even, n + 1)
    }
}

/// The exponent of ten of a finite binary64 magnitude above zero, from its count of units.
pub open spec fn double_exponent(u: nat) -> int {
    tens(u * pow10(400), pow2(1074)) - 400
}

/// What a count of units is multiplied by to be held against a power of ten.
pub open spec fn upscale(e: int) -> nat {
    if e >= 0 {
        1
    } else {
        pow10((-e) as nat)
    }
}

/// The power of ten in units, after the same multiplication.
pub open spec fn ten_units(e: int) -> nat {
    if e >= 0 {
        pow10(e as nat) * pow2(1074)
    } else {
        pow2(1074)
    }
}

/// The shortest digits of a finite binary64 magnitude above zero, as a whole number and
/// the power of ten to multiply it by.
pub open spec fn shortest_double(mag: nat) -> (nat, int) {
    let u = double_units(mag);
    let e = double_exponent(u);
    let (d, n) = shortest_row(
        u * upscale(e),
        ten_units(e),
        (double_units((mag - 1) as nat) + u) * upscale(e),
        (u + double_units(mag + 1)) * upscale(e),
        mag % 2 == 0,
        1,
    );
    (d, e - n + 1)
}

/// The magnitude bits of a binary64 number.
pub open spec fn double_magnitude(bits: u64) -> nat {
    if bits >= 0x8000_0000_0000_0000 {
        (bits - 0x8000_0000_0000_0000) as nat
    } else {
        bits as nat
    }
}

/// Whether a finite magnitude of a binary64 number is written with an exponent.
pub open spec fn is_far_double(mag: nat) -> bool {
    0 < mag < 0x3f1a_36e2_eb1c_432d || mag >= 0x4341_c379_37e0_8000
}

/// The shortest text of a binary64 number that tells it from whole numbers.
pub open spec fn double_text(bits: u64) -> Seq<char> {
    let negative = bits >= 0x8000_0000_0000_0000;
    let mag = double_magnitude(bits);
    if mag > 0x7ff0_0000_0000_0000 {
        "NaN"@
    } else if mag == 0x7ff0_0000_0000_0000 {
        with_minus(negative, "inf"@)
    } else if mag == 0 {
        with_minus(negative, "0.0"@)
    } else {
        let (d, k) = shortest_double(mag);
        with_minus(negative, in_notation(d, k, is_far_double(mag)))
    }
}

/// `n * 2^e`.
fn times_pow2(n: Natural, e: u32) -> (r: Natural)
    ensures
        r@ == n@ * pow2(e as nat),
{
    let mut r = n;
    let mut done: u32 = 0;
    let ghost start = r@;
    proof {
        lemma2_to64();
        assert(start * pow2(0) == start) by (nonlinear_arith)
            requires
                pow2(0) == 1,
        ;
    }
    while e - done >= 16
        invariant
            done <= e,
            r@ == start * pow2(done as nat),
        decreases e - done,
    {
        proof {
            lemma2_to64();
            lemma_pow2_adds(done as nat, 16);
            assert((start * pow2(done as nat)) * 0x1_0000 == start * pow2((done + 16) as nat))
                by (nonlinear_arith)
                requires
                    pow2((done + 16) as nat) == pow2(done as nat) * 0x1_0000,
            ;
        }
        r = r.times_plus(0x1_0000, 0);
        done = done + 16;
    }
    let left: u32 = e - done;
    proof {
        lemma2_to64();
        lemma_pow2_le(left as nat, 16);
        lemma_pow2_adds(done as nat, left as nat);
        let w = pow2(left as nat);
        assert((start * pow2(done as nat)) * w == start * pow2(e as nat)) by (nonlinear_arith)
            requires
                pow2(e as nat) == pow2(done as nat) * w,
        ;
    }
    let place: u32 = pow2_u128(left) as u32;
    r.times_plus(place, 0)
}

fn natural_of(n: u64) -> (r: Natural)
    ensures
        r@ == n,
{
    let high: u32 = (n / 0x1_0000_0000) as u32;
    let low: u32 = (n % 0x1_0000_0000) as u32;
    // high * 2^32 + low, in two steps of 2^16.
    Natural::from_u32(high).times_plus(0x1_0000, 0).times_plus(0x1_0000, low)
}

fn find_double_units(mag: u64) -> (r: Natural)
    requires
        mag <= 0x7ff0_0000_0000_0000,
    ensures
        r@ == double_units(mag as nat),
{
    let exponent: u64 = mag / 0x10_0000_0000_0000;
    let fraction: u64 = mag % 0x10_0000_0000_0000;
    if exponent == 0 {
        natural_of(fraction)
    } else {
        times_pow2(natural_of(0x10_0000_0000_0000 + fraction), (exponent - 1) as u32)
    }
}

/// `a + b`.
fn sum(a: &Natural, b: &Natural) -> (r: Natural)
    ensures
        r@ == a@ + b@,
{
    // Twice the larger one, less the difference.
    if a.less(b) {
        b.times_plus(2, 0).minus(&b.minus(a))
    } else {
        a.times_plus(2, 0).minus(&a.minus(b))
    }
}

/// Ten to a power is at least two to three times that power.
proof fn lemma_tens_and_twos(j: nat)
    ensures
        pow2(3 * j) <= pow10(j),
    decreases j,
{
    lemma2_to64();
    if j > 0 {
        lemma_tens_and_twos((j - 1) as nat);
        lemma_pow2_adds(3 * (j - 1) as nat, 3);
    }
}

proof fn lemma_tens(p: nat, q: nat)
    requires
        0 < q <= p,
    ensures
        q * pow10(tens(p, q)) <= p < 10 * (q * pow10(tens(p, q))),
    decreases p - q,
{
    if p >= 10 * q {
        lemma_tens(p, 10 * q);
        let t = tens(p, 10 * q);
        assert((10 * q) * pow10(t) == q * pow10(t + 1)) by (nonlinear_arith)
            requires
                pow10(t + 1) == 10 * pow10(t),
        ;
    } else {
        assert(q * pow10(0) == q) by (nonlinear_arith)
            requires
                pow10(0) == 1,
        ;
    }
}

/// The powers of ten grow.
proof fn lemma_pow10_grows(a: nat, b: nat)
    requires
        a <= b,
    ensures
        pow10(a) <= pow10(b),
{
    lemma_pow10_adds(a, (b - a) as nat);
    lemma_pow10_pos(a);
    lemma_pow10_pos((b - a) as nat);
    assert(pow10(a) * pow10((b - a) as nat) >= pow10(a)) by (nonlinear_arith)
        requires
            pow10((b - a) as nat) >= 1,
            pow10(a) >= 0,
    ;
}

/// A finite magnitude lies between one and ten times its power of ten.
proof fn lemma_exponent(u: nat)
    requires
        0 < u < pow2(2100),
    ensures
        u * pow10(400) >= pow2(1074),
        -400 <= double_exponent(u) <= 350,
        ({
            let e = double_exponent(u);
            ten_units(e) <= u * upscale(e) < 10 * ten_units(e)
        }),
{
    let big = pow10(400);
    let unit = pow2(1074);
    lemma_pow2_pos(1074);
    lemma_tens_and_twos(400);
    lemma_pow2_le(1074, 1200);
    assert(u * big >= big) by (nonlinear_arith)
        requires
            u > 0,
            big >= 0,
    ;
    lemma_tens(u * big, unit);
    let t = tens(u * big, unit);
    let w = pow10(t);
    lemma_pow10_pos(t);
    if t > 750 {
        // Above, the power of ten alone would exceed the number.
        lemma_pow10_grows(751, t);
        lemma_pow10_adds(351, 400);
        lemma_tens_and_twos(351);
        lemma_pow2_le(1026, 1053);
        lemma_pow2_adds(1074, 1026);
        lemma_pow10_pos(400);
        assert(unit * w > u * big) by (nonlinear_arith)
            requires
                w >= pow10(351) * big,
                pow10(351) >= pow2(1026),
                unit * pow2(1026) > u,
                big > 0,
                unit > 0,
        ;
    }
    let e = t - 400;
    if e >= 0 {
        let x = pow10(e as nat);
        lemma_pow10_adds(e as nat, 400);
        lemma_pow10_pos(400);
        assert(x * unit <= u && u < 10 * (x * unit)) by (nonlinear_arith)
            requires
                unit * (x * big) <= u * big,
                u * big < 10 * (unit * (x * big)),
                big > 0,
        ;
        assert(u * 1 == u);
    } else {
        let x = pow10((-e) as nat);
        lemma_pow10_adds((-e) as nat, t);
        assert(unit <= u * x && u * x < 10 * unit) by (nonlinear_arith)
            requires
                unit * w <= u * (x * w),
                u * (x * w) < 10 * (unit * w),
                w > 0,
        ;
    }
}

fn find_tens(p: &Natural, start: Natural) -> (r: u32)
    requires
        0 < start@ <= p@,
        tens(p@, start@) <= 1000,
    ensures
        r == tens(p@, start@),
{
    let mut q = start;
    let mut n: u32 = 0;
    loop
        invariant
            0 < q@ <= p@,
            n + tens(p@, q@) == tens(p@, start@),
            tens(p@, start@) <= 1000,
        decreases p@ - q@,
    {
        let next = q.times_plus(10, 0);
        if p.less(&next) {
            return n;
        }
        q = next;
        n = n + 1;
    }
}

/// One digit of a quotient, and what is left.
fn one_digit(p: Natural, q: &Natural) -> (r: (u64, Natural))
    requires
        p@ < 10 * q@,
    ensures
        r.0 == p@ / q@,
        r.1@ == p@ % q@,
        r.0 < 10,
{
    let mut rest = p;
    let mut d: u64 = 0;
    let ghost all = rest@;
    while !rest.less(q)
        invariant
            all < 10 * q@,
            rest@ + d * q@ == all,
            d < 10,
        decreases rest@,
    {
        proof {
            assert((d + 1) * q@ == d * q@ + q@) by (nonlinear_arith);
            assert(d + 1 < 10) by (nonlinear_arith)
                requires
                    d * q@ + q@ <= all,
                    all < 10 * q@,
                    d < 10,
            ;
        }
        rest = rest.minus(q);
        d = d + 1;
    }
    proof {
        lemma_fundamental_div_mod_converse(all as int, q@ as int, d as int, rest@ as int);
    }
    (d, rest)
}

fn is_at_most(a: &Natural, b: &Natural, even: bool) -> (r: bool)
    ensures
        r == at_most(a@, b@, even),
{
    a.less(b) || (even && !b.less(a))
}

/// The next digit of a quotient.
proof fn lemma_next_digit(p: nat, q: nat, t: nat, d: nat, rest: nat, digit: nat, left: nat)
    requires
        q > 0,
        p * t == d * q + rest,
        10 * rest == digit * q + left,
        left < q,
    ensures
        p * (10 * t) == (10 * d + digit) * q + left,
        (p * (10 * t)) / q == 10 * d + digit,
        (p * (10 * t)) % q == left,
{
    assert(p * (10 * t) == (10 * d + digit) * q + left) by (nonlinear_arith)
        requires
            p * t == d * q + rest,
            10 * rest == digit * q + left,
    ;
    lemma_fundamental_div_mod_converse(
        (p * (10 * t)) as int,
        q as int,
        (10 * d + digit) as int,
        left as int,
    );
}

fn find_shortest_row(
    p: &Natural,
    q: &Natural,
    low: Natural,
    high: Natural,
    even: bool,
) -> (r: (u64, i32))
    requires
        p@ < 10 * q@,
    ensures
        (r.0 as nat, r.1 as nat) == shortest_row(p@, q@, low@, high@, even, 1),
        1 <= r.1 <= 17,
{
    let ghost bottom = low@;
    let ghost top = high@;
    let twice = q.times_plus(2, 0);
    let (first, left) = one_digit(p.duplicate(), q);
    let mut n: i32 = 1;
    let mut d: u64 = first;
    let mut rest = left;
    let mut whole = p.duplicate();
    let mut below = low;
    let mut above = high;
    let ghost mut t: nat = 1;
    proof {
        assert(p@ * 1 == p@ && bottom * 1 == bottom && top * 1 == top);
        lemma_fundamental_div_mod(p@ as int, q@ as int);
        assert(q@ * d == d * q@) by (nonlinear_arith);
        reveal_with_fuel(pow10, 2);
    }
    loop
        invariant
            q@ > 0,
            bottom == low@,
            top == high@,
            twice@ == 2 * q@,
            1 <= n <= 17,
            t == pow10((n - 1) as nat),
            whole@ == p@ * t,
            below@ == bottom * t,
            above@ == top * t,
            whole@ == d * q@ + rest@,
            rest@ < q@,
            d == (p@ * t) / q@,
            rest@ == (p@ * t) % q@,
            d < pow10(n as nat),
            shortest_row(p@, q@, bottom, top, even, 1) == shortest_row(
                p@,
                q@,
                bottom,
                top,
                even,
                n as nat,
            ),
        decreases 17 - n,
    {
        proof {
            lemma_pow10_grows(n as nat, 17);
            reveal_with_fuel(pow10, 18);
        }
        let doubled = whole.minus(&rest).times_plus(2, 0);
        assert(doubled@ == 2 * (d as nat * q@));
        let down = is_at_most(&below, &doubled, even);
        let up = !above.less(&twice) && is_at_most(&doubled, &above.minus(&twice), even);
        if up && (!down || !rest.times_plus(2, 0).less(q)) {
            return (d + 1, n);
        }
        if down || n >= 17 {
            return (d, n);
        }
        let wider = rest.times_plus(10, 0);
        let ghost before = rest@;
        let (digit, left) = one_digit(wider, q);
        proof {
            lemma_fundamental_div_mod((10 * before) as int, q@ as int);
            assert(q@ * digit == digit * q@) by (nonlinear_arith);
            lemma_next_digit(p@, q@, t, d as nat, before, digit as nat, left@);
            assert((p@ * t) * 10 == p@ * (10 * t)) by (nonlinear_arith);
            assert((bottom * t) * 10 == bottom * (10 * t)) by (nonlinear_arith);
            assert((top * t) * 10 == top * (10 * t)) by (nonlinear_arith);
            t = 10 * t;
        }
        d = 10 * d + digit;
        rest = left;
        whole = whole.times_plus(10, 0);
        below = below.times_plus(10, 0);
        above = above.times_plus(10, 0);
        n = n + 1;
    }
}

/// A finite magnitude above zero has some units, and not too many.
proof fn lemma_double_units(mag: nat)
    requires
        0 < mag < 0x7ff0_0000_0000_0000,
    ensures
        0 < double_units(mag) < pow2(2100),
{
    lemma2_to64();
    let exponent = mag / 0x10_0000_0000_0000;
    let fraction = mag % 0x10_0000_0000_0000;
    lemma_pow2_le(64, 2100);
    if exponent > 0 {
        let w = pow2((exponent - 1) as nat);
        lemma_pow2_pos((exponent - 1) as nat);
        lemma_pow2_le((exponent - 1) as nat, 2045);
        lemma_pow2_adds(32, 23);
        lemma_pow2_adds(55, 2045);
        assert(0 < (0x10_0000_0000_0000 + fraction) * w < pow2(55) * pow2(2045))
            by (nonlinear_arith)
            requires
                0 < w <= pow2(2045),
                0x10_0000_0000_0000 + fraction < pow2(55),
                fraction >= 0,
        ;
    }
}

fn find_shortest_double(mag: u64) -> (r: (u64, i32))
    requires
        0 < mag < 0x7ff0_0000_0000_0000,
    ensures
        (r.0 as nat, r.1 as int) == shortest_double(mag as nat),
        -500 <= r.1 <= 500,
{
    let u = find_double_units(mag);
    let unit = times_pow2(Natural::from_u32(1), 1074);
    proof {
        lemma_double_units(mag as nat);
        lemma_exponent(u@);
        lemma_pow2_pos(1074);
        assert(1 * pow2(1074) == pow2(1074));
    }
    let wide = times_pow10(u.duplicate(), 400);
    let count: u32 = find_tens(&wide, unit.duplicate());
    let e: i32 = count as i32 - 400;
    let low = sum(&find_double_units(mag - 1), &u);
    let high = sum(&u, &find_double_units(mag + 1));
    let (d, n) = if e >= 0 {
        assert(u@ * 1 == u@ && low@ * 1 == low@ && high@ * 1 == high@);
        assert(pow10(e as nat) * pow2(1074) == pow2(1074) * pow10(e as nat)) by (nonlinear_arith);
        find_shortest_row(&u, &times_pow10(unit, e as u128), low, high, mag % 2 == 0)
    } else {
        let up: u128 = (-e) as u128;
        find_shortest_row(
            &times_pow10(u, up),
            &unit,
            times_pow10(low, up),
            times_pow10(high, up),
            mag % 2 == 0,
        )
    };
    (d, e - n + 1)
}

/// The shortest text of a binary64 number, given by its bits, that tells it from whole
/// numbers.
pub fn show_double(bits: u64) -> (r: String)
    ensures
        r@ == double_text(bits),
{
    let negative = bits >= 0x8000_0000_0000_0000;
    let mag: u64 = if negative {
        bits - 0x8000_0000_0000_0000
    } else {
        bits
    };
    if mag > 0x7ff0_0000_0000_0000 {
        "NaN".to_owned()
    } else if mag == 0x7ff0_0000_0000_0000 {
        put_minus(negative, "inf")
    } else if mag == 0 {
        put_minus(negative, "0.0")
    } else {
        let (d, k) = find_shortest_double(mag);
        let far = mag < 0x3f1a_36e2_eb1c_432d || mag >= 0x4341_c379_37e0_8000;
        let body = write_notation(d, k, far);
        put_minus(negative, body.as_str())
    }
}

} // verus!
