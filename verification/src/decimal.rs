//! Binary32 numbers read from decimal text.

use crate::natural::Natural;
use crate::numerals::{digits_value, value_of_digit};
use crate::rounding::{
    lemma_pow2_le, lemma_round_zero, pow2_u128, round_units, ulp_shift, INFINITY_BITS,
};
use crate::single::{lemma_ulp_shift_bounds, signed, with_sign, Single};
use crate::text::{chars_of, same_text, text_of};
use vstd::arithmetic::div_mod::{
    lemma_fundamental_div_mod, lemma_fundamental_div_mod_converse, lemma_mod_bound,
};
use vstd::arithmetic::power2::{lemma2_to64, lemma_pow2_adds, lemma_pow2_pos, pow2};
use vstd::prelude::*;

verus! {

/// `10^k`.
pub open spec fn pow10(k: nat) -> nat
    decreases k,
{
    if k == 0 {
        1
    } else {
        10 * pow10((k - 1) as nat)
    }
}

/// The magnitude bits of the number nearest to `d * 10^e`.
pub open spec fn decimal_bits(d: nat, e: int) -> nat {
    if e >= 0 {
        round_units(d * pow10(e as nat) * pow2(149), 1)
    } else {
        round_units(d * pow2(149), pow10((-e) as nat))
    }
}

/// One letter in lower case, where it is an ASCII one.
pub open spec fn spec_lower(c: char) -> char {
    if 'A' <= c <= 'Z' {
        (c as u32 + 32) as char
    } else {
        c
    }
}

/// The text in lower case, as far as its letters are ASCII ones.
pub open spec fn lowered(s: Seq<char>) -> Seq<char> {
    s.map_values(|c: char| spec_lower(c))
}

/// Where a character first stands, the length where it does not.
pub open spec fn first_of(s: Seq<char>, c: char) -> nat
    decreases s.len(),
{
    if s.len() == 0 {
        0
    } else if s[0] == c {
        0
    } else {
        1 + first_of(s.drop_first(), c)
    }
}

/// Whether a text starts with a sign, and whether that is a minus.
pub open spec fn sign_of(s: Seq<char>) -> (bool, bool) {
    if s.len() > 0 && s[0] == '-' {
        (true, true)
    } else if s.len() > 0 && s[0] == '+' {
        (true, false)
    } else {
        (false, false)
    }
}

/// The text behind its sign.
pub open spec fn unsigned_part(s: Seq<char>) -> Seq<char> {
    if sign_of(s).0 {
        s.drop_first()
    } else {
        s
    }
}

/// An exponent: an optional sign, then one or more digits.
pub open spec fn exponent_value(s: Seq<char>) -> Option<int> {
    let body = unsigned_part(s);
    match digits_value(body, 10) {
        Some(v) => if body.len() == 0 {
            None
        } else if sign_of(s).1 {
            Some(-(v as int))
        } else {
            Some(v as int)
        },
        None => None,
    }
}

/// A decimal number without sign: digits with an optional point among them and
/// an optional exponent behind `e`. Gives the digits as one whole number, and the
/// power of ten to multiply it by.
pub open spec fn decimal_parts(s: Seq<char>) -> Option<(nat, int)> {
    let at = first_of(s, 'e');
    let mantissa = s.take(at as int);
    let exponent = if at < s.len() {
        exponent_value(s.skip(at as int + 1))
    } else {
        Some(0)
    };
    let point = first_of(mantissa, '.');
    let whole = mantissa.take(point as int);
    let fraction = if point < mantissa.len() {
        mantissa.skip(point as int + 1)
    } else {
        Seq::empty()
    };
    match (digits_value(whole + fraction, 10), exponent) {
        (Some(d), Some(e)) => if whole.len() + fraction.len() > 0 {
            Some((d, e - fraction.len()))
        } else {
            None
        },
        _ => None,
    }
}

/// The number that a decimal text stands for.
pub open spec fn decimal_number(s: Seq<char>) -> Option<Single> {
    let t = lowered(s);
    let negative = sign_of(t).1;
    let body = unsigned_part(t);
    if body == "inf"@ || body == "infinity"@ {
        Some(signed(negative, INFINITY_BITS as nat))
    } else if body == "nan"@ {
        Some(Single::not_a_number())
    } else {
        match decimal_parts(body) {
            Some((d, e)) => Some(signed(negative, decimal_bits(d, e))),
            None => None,
        }
    }
}

pub proof fn lemma_pow10_pos(k: nat)
    ensures
        pow10(k) > 0,
    decreases k,
{
    if k > 0 {
        lemma_pow10_pos((k - 1) as nat);
    }
}

pub proof fn lemma_pow10_adds(a: nat, b: nat)
    ensures
        pow10(a + b) == pow10(a) * pow10(b),
    decreases a,
{
    if a > 0 {
        lemma_pow10_adds((a - 1) as nat, b);
        assert((a + b - 1) as nat == (a - 1) as nat + b);
        assert(10 * (pow10((a - 1) as nat) * pow10(b)) == (10 * pow10((a - 1) as nat)) * pow10(b))
            by (nonlinear_arith);
    } else {
        assert(pow10(0) * pow10(b) == pow10(b)) by (nonlinear_arith)
            requires
                pow10(0) == 1,
        ;
    }
}

/// Powers of ten lie above powers of eight.
proof fn lemma_pow10_large(k: nat)
    ensures
        pow10(k) >= pow2(3 * k),
    decreases k,
{
    lemma2_to64();
    if k > 0 {
        lemma_pow10_large((k - 1) as nat);
        lemma_pow2_adds(3, 3 * (k - 1) as nat);
        assert(3 * k == 3 + 3 * (k - 1) as nat);
    }
}

/// A ratio far above all finite numbers rounds to infinity.
proof fn lemma_round_infinite(p: nat, q: nat)
    requires
        q > 0,
        ulp_shift(p, q) >= 254,
    ensures
        round_units(p, q) == INFINITY_BITS,
{
    let k = ulp_shift(p, q);
    lemma_ulp_shift_bounds(p, q);
    lemma2_to64();
    lemma_pow2_adds(23, k);
    lemma_pow2_pos(k);
    let place = q * pow2(k);
    assert(place > 0) by (nonlinear_arith)
        requires
            place == q * pow2(k),
            q > 0,
            pow2(k) > 0,
    ;
    assert(p >= 0x80_0000 * place) by (nonlinear_arith)
        requires
            p >= q * pow2((23 + k) as nat),
            pow2((23 + k) as nat) == 0x80_0000 * pow2(k),
            place == q * pow2(k),
    ;
    lemma_fundamental_div_mod(p as int, place as int);
    lemma_mod_bound(p as int, place as int);
    assert(p / place >= 0x80_0000) by (nonlinear_arith)
        requires
            p >= 0x80_0000 * place,
            p == place * (p / place) + p % place,
            p % place < place,
            place > 0,
    ;
    assert(k * 0x80_0000 >= 254 * 0x80_0000);
}

/// A ratio of at least `2^278` units rounds to infinity.
proof fn lemma_round_huge(p: nat, q: nat)
    requires
        q > 0,
        p >= q * pow2(278),
    ensures
        round_units(p, q) == INFINITY_BITS,
{
    lemma_ulp_shift_bounds(p, q);
    let k = ulp_shift(p, q);
    if k < 254 {
        lemma_pow2_le(24 + k, 278);
        assert(q * pow2(24 + k) <= q * pow2(278)) by (nonlinear_arith)
            requires
                pow2(24 + k) <= pow2(278),
                q > 0,
        ;
    }
    lemma_round_infinite(p, q);
}

/// A ratio below one half of a unit rounds to zero.
proof fn lemma_round_tiny(p: nat, q: nat)
    requires
        q > 0,
        2 * p < q,
    ensures
        round_units(p, q) == 0,
{
    lemma2_to64();
    assert(p < q * pow2(24)) by (nonlinear_arith)
        requires
            2 * p < q,
            pow2(24) >= 1,
            p >= 0,
    ;
    crate::rounding::lemma_ulp_shift_is(p, q, 0);
    assert(q * pow2(0) == q) by (nonlinear_arith)
        requires
            pow2(0) == 1,
    ;
    lemma_fundamental_div_mod_converse(p as int, q as int, 0, p as int);
}

/// The magnitude bits of the number nearest to `p / q` units.
fn round_ratio(p: &Natural, q: &Natural) -> (r: u32)
    requires
        q@ > 0,
    ensures
        r == round_units(p@, q@),
        r <= INFINITY_BITS,
{
    let mut scaled: Natural = q.duplicate();
    let mut bound: Natural = q.times_plus(0x100_0000, 0);
    let mut k: u32 = 0;
    proof {
        lemma2_to64();
        assert(q@ * pow2(0) == q@) by (nonlinear_arith)
            requires
                pow2(0) == 1,
        ;
    }
    while !p.less(&bound)
        invariant
            k <= 254,
            q@ > 0,
            scaled@ == q@ * pow2(k as nat),
            scaled@ > 0,
            bound@ == scaled@ * 0x100_0000,
            ulp_shift(p@, q@) == k + ulp_shift(p@, scaled@),
        decreases 254 - k,
    {
        if k == 254 {
            proof {
                lemma_round_infinite(p@, q@);
            }
            return INFINITY_BITS;
        }
        proof {
            lemma2_to64();
            lemma_pow2_adds(1, k as nat);
            assert(scaled@ * 2 == q@ * pow2((k + 1) as nat)) by (nonlinear_arith)
                requires
                    scaled@ == q@ * pow2(k as nat),
                    pow2((k + 1) as nat) == 2 * pow2(k as nat),
            ;
        }
        bound = bound.times_plus(2, 0);
        scaled = scaled.times_plus(2, 0);
        k = k + 1;
    }
    // Long division, one binary digit at a time.
    let mut rest: Natural = p.duplicate();
    let mut whole: u32 = 0;
    let mut b: u32 = 24;
    proof {
        lemma2_to64();
    }
    while b > 0
        invariant
            b <= 24,
            scaled@ > 0,
            rest@ + whole * scaled@ == p@,
            rest@ < scaled@ * pow2(b as nat),
            whole + pow2(b as nat) <= 0x100_0000,
        decreases b,
    {
        proof {
            lemma2_to64();
            lemma_pow2_adds(1, (b - 1) as nat);
            lemma_pow2_le((b - 1) as nat, 23);
        }
        let place: u32 = pow2_u128(b - 1) as u32;
        let part: Natural = scaled.times_plus(place, 0);
        proof {
            assert(scaled@ * pow2(b as nat) == 2 * (scaled@ * place)) by (nonlinear_arith)
                requires
                    pow2(b as nat) == 2 * place,
            ;
        }
        if !rest.less(&part) {
            proof {
                assert((whole + place) * scaled@ == whole * scaled@ + scaled@ * place)
                    by (nonlinear_arith);
            }
            rest = rest.minus(&part);
            whole = whole + place;
        }
        b = b - 1;
    }
    let twice: Natural = rest.times_plus(2, 0);
    proof {
        lemma2_to64();
        assert(scaled@ * pow2(0) == scaled@) by (nonlinear_arith)
            requires
                pow2(0) == 1,
        ;
        lemma_fundamental_div_mod_converse(p@ as int, scaled@ as int, whole as int, rest@ as int);
    }
    let mantissa: u32 = if twice.less(&scaled) || (!scaled.less(&twice) && whole % 2 == 0) {
        whole
    } else {
        whole + 1
    };
    let bits: u64 = k as u64 * 0x80_0000 + mantissa as u64;
    if bits >= 0x7f80_0000 {
        INFINITY_BITS
    } else {
        bits as u32
    }
}

/// `n * 10^k`.
pub fn times_pow10(n: Natural, k: u128) -> (r: Natural)
    ensures
        r@ == n@ * pow10(k as nat),
{
    let mut r = n;
    let mut i: u128 = 0;
    let ghost start = r@;
    proof {
        assert(start * pow10(0) == start) by (nonlinear_arith)
            requires
                pow10(0) == 1,
        ;
    }
    while i < k
        invariant
            i <= k,
            r@ == start * pow10(i as nat),
        decreases k - i,
    {
        proof {
            assert((start * pow10(i as nat)) * 10 == start * pow10((i + 1) as nat))
                by (nonlinear_arith)
                requires
                    pow10((i + 1) as nat) == 10 * pow10(i as nat),
            ;
        }
        r = r.times_plus(10, 0);
        i = i + 1;
    }
    r
}

/// `n * 2^149`.
pub fn times_unit(n: &Natural) -> (r: Natural)
    ensures
        r@ == n@ * pow2(149),
{
    proof {
        lemma2_to64();
        lemma_pow2_adds(30, 30);
        lemma_pow2_adds(60, 30);
        lemma_pow2_adds(90, 30);
        lemma_pow2_adds(120, 29);
    }
    let a = n.times_plus(0x4000_0000, 0);
    let b = a.times_plus(0x4000_0000, 0);
    let c = b.times_plus(0x4000_0000, 0);
    let d = c.times_plus(0x4000_0000, 0);
    let r = d.times_plus(0x2000_0000, 0);
    proof {
        let u = pow2(30);
        assert(r@ == n@ * (u * u * u * u * 0x2000_0000)) by (nonlinear_arith)
            requires
                a@ == n@ * u,
                b@ == a@ * u,
                c@ == b@ * u,
                d@ == c@ * u,
                r@ == d@ * 0x2000_0000,
        ;
    }
    r
}

/// The magnitude bits nearest to `d * 10^e`, where `d` has at most `count` digits.
pub fn decimal_magnitude(d: &Natural, count: u128, e: i128) -> (r: u32)
    requires
        d@ < pow10(count as nat),
        count <= 0x1_0000_0000_0000_0000_0000,
        -0x1_0000_0000_0000_0000_0000_0000 < e < 0x1_0000_0000_0000_0000_0000_0000,
    ensures
        r == decimal_bits(d@, e as int),
        r <= INFINITY_BITS,
{
    let zero = Natural::from_u32(0);
    if !zero.less(d) {
        proof {
            lemma_decimal_zero(e as int);
        }
        return 0;
    }
    if e >= 0 {
        if e > 60 {
            proof {
                lemma_decimal_huge(d@, e as int);
            }
            return INFINITY_BITS;
        }
        let p = times_pow10(d.duplicate(), e as u128);
        let p = times_unit(&p);
        let one = Natural::from_u32(1);
        round_ratio(&p, &one)
    } else {
        if -e > count as i128 + 60 {
            proof {
                lemma_decimal_tiny(d@, count as nat, e as int);
            }
            return 0;
        }
        let p = times_unit(d);
        let q = times_pow10(Natural::from_u32(1), (-e) as u128);
        proof {
            lemma_pow10_pos((-e) as nat);
            assert(1 * pow10((-e) as nat) == pow10((-e) as nat));
        }
        round_ratio(&p, &q)
    }
}

fn lower(c: char) -> (r: char)
    ensures
        r == spec_lower(c),
{
    if 'A' <= c && c <= 'Z' {
        (c as u8 + 32) as char
    } else {
        c
    }
}

/// The characters in lower case.
pub fn lower_chars(s: &str) -> (r: Vec<char>)
    ensures
        r@ == lowered(s@),
{
    let a = chars_of(s);
    let mut r: Vec<char> = Vec::new();
    let mut i: usize = 0;
    while i < a.len()
        invariant
            i <= a.len(),
            r@ == lowered(a@.take(i as int)),
        decreases a.len() - i,
    {
        let ghost before = r@;
        r.push(lower(a[i]));
        assert(lowered(a@.take(i + 1)) =~= before.push(spec_lower(a@[i as int])));
        i = i + 1;
    }
    assert(a@.take(i as int) =~= a@);
    r
}

/// Where a character first stands in `[from, to)`, `to` where it does not.
fn find_char(a: &Vec<char>, from: usize, to: usize, c: char) -> (r: usize)
    requires
        from <= to <= a@.len(),
    ensures
        from <= r <= to,
        r - from == first_of(a@.subrange(from as int, to as int), c),
{
    let mut i: usize = from;
    let ghost s = a@.subrange(from as int, to as int);
    assert(s.skip(0) =~= s);
    while i < to && a[i] != c
        invariant
            from <= i <= to <= a@.len(),
            s == a@.subrange(from as int, to as int),
            first_of(s, c) == (i - from) + first_of(s.skip(i - from), c),
        decreases to - i,
    {
        assert(s.skip(i - from)[0] == a@[i as int]);
        assert(s.skip(i - from).drop_first() =~= s.skip(i + 1 - from));
        i = i + 1;
    }
    if i < to {
        assert(s.skip(i - from)[0] == a@[i as int]);
    } else {
        assert(s.skip(i - from).len() == 0);
    }
    i
}

/// The whole number that the digits in `[from, to)` go on with, after `start`.
fn more_digits(start: Natural, a: &Vec<char>, from: usize, to: usize, Ghost(done): Ghost<
    Seq<char>,
>) -> (r: Option<Natural>)
    requires
        from <= to <= a@.len(),
        digits_value(done, 10) == Some(start@),
    ensures
        match r {
            Some(n) => digits_value(done + a@.subrange(from as int, to as int), 10) == Some(n@),
            None => digits_value(done + a@.subrange(from as int, to as int), 10) is None,
        },
{
    let mut n = start;
    let mut i: usize = from;
    let ghost all = done + a@.subrange(from as int, to as int);
    assert(all.take(done.len() as int) =~= done);
    while i < to
        invariant
            from <= i <= to <= a@.len(),
            all == done + a@.subrange(from as int, to as int),
            digits_value(all.take(done.len() + i - from), 10) == Some(n@),
        decreases to - i,
    {
        let ghost next = all.take(done.len() + i + 1 - from);
        assert(next.drop_last() =~= all.take(done.len() + i - from));
        assert(next.last() == a@[i as int]);
        match value_of_digit(a[i], 10) {
            Some(v) => {
                n = n.times_plus(10, v as u32);
            },
            None => {
                proof {
                    lemma_digits_none(all, done.len() + i + 1 - from);
                }
                return None;
            },
        }
        i = i + 1;
    }
    assert(all.take(done.len() + i - from) =~= all);
    Some(n)
}

/// A row that holds something else than digits has no value.
proof fn lemma_digits_none(s: Seq<char>, n: int)
    requires
        0 <= n <= s.len(),
        digits_value(s.take(n), 10) is None,
    ensures
        digits_value(s, 10) is None,
    decreases s.len(),
{
    if n == s.len() {
        assert(s.take(n) =~= s);
    } else {
        assert(s.drop_last().take(n) =~= s.take(n));
        lemma_digits_none(s.drop_last(), n);
    }
}

/// A row of digits stays below the power of ten of its length.
proof fn lemma_digits_bound(s: Seq<char>)
    requires
        digits_value(s, 10) is Some,
    ensures
        digits_value(s, 10)->0 < pow10(s.len()),
    decreases s.len(),
{
    if s.len() > 0 {
        lemma_digits_bound(s.drop_last());
    }
}

/// The exponent in `[from, to)`, where it stays between the given bounds; the
/// nearer bound where it does not.
fn read_exponent(a: &Vec<char>, from: usize, to: usize) -> (r: Option<i128>)
    requires
        from <= to <= a@.len(),
    ensures
        match (r, exponent_value(a@.subrange(from as int, to as int))) {
            (Some(v), Some(e)) => v == held(e),
            (None, None) => true,
            _ => false,
        },
{
    let ghost s = a@.subrange(from as int, to as int);
    let signed_text = from < to && (a[from] == '-' || a[from] == '+');
    let negative = from < to && a[from] == '-';
    let start: usize = if signed_text {
        from + 1
    } else {
        from
    };
    let ghost body = a@.subrange(start as int, to as int);
    proof {
        if signed_text {
            assert(s.drop_first() =~= body);
        } else {
            assert(s =~= body);
        }
        assert(unsigned_part(s) == body);
    }
    if start == to {
        return None;
    }
    let mut v: i128 = 0;
    let mut i: usize = start;
    assert(body.take(0) =~= Seq::<char>::empty());
    while i < to
        invariant
            start <= i <= to <= a@.len(),
            s == a@.subrange(from as int, to as int),
            body == a@.subrange(start as int, to as int),
            unsigned_part(s) == body,
            body.len() > 0,
            0 <= v <= 0x1_0000_0000_0000_0000_0000,
            digits_value(body.take(i - start), 10) is Some,
            v == held(digits_value(body.take(i - start), 10)->0 as int),
        decreases to - i,
    {
        let ghost next = body.take(i + 1 - start);
        assert(next.drop_last() =~= body.take(i - start));
        assert(next.last() == a@[i as int]);
        match value_of_digit(a[i], 10) {
            Some(d) => {
                v = v * 10 + d as i128;
                if v > 0x1_0000_0000_0000_0000_0000 {
                    v = 0x1_0000_0000_0000_0000_0000;
                }
            },
            None => {
                proof {
                    lemma_digits_none(body, i + 1 - start);
                }
                return None;
            },
        }
        i = i + 1;
    }
    assert(body.take(i - start) =~= body);
    if negative {
        Some(-v)
    } else {
        Some(v)
    }
}

/// An exponent held between `-2^80` and `2^80`.
pub open spec fn held(e: int) -> int {
    if e > 0x1_0000_0000_0000_0000_0000 {
        0x1_0000_0000_0000_0000_0000
    } else if e < -0x1_0000_0000_0000_0000_0000 {
        -0x1_0000_0000_0000_0000_0000
    } else {
        e
    }
}

/// Exponents beyond the bounds give what the bounds give.
proof fn lemma_held(d: nat, count: nat, e: int, less: nat)
    requires
        d < pow10(count),
        count <= usize::MAX,
        less <= usize::MAX,
    ensures
        decimal_bits(d, held(e) - less) == decimal_bits(d, e - less),
{
    if held(e) != e {
        let big = 0x1_0000_0000_0000_0000_0000int;
        if d == 0 {
            lemma_decimal_zero(held(e) - less);
            lemma_decimal_zero(e - less);
        } else if e > big {
            lemma_decimal_huge(d, big - less);
            lemma_decimal_huge(d, e - less);
        } else {
            lemma_decimal_tiny(d, count, -big - less);
            lemma_decimal_tiny(d, count, e - less);
        }
    }
}

pub proof fn lemma_decimal_zero(e: int)
    ensures
        decimal_bits(0, e) == 0,
{
    assert(0 * pow2(149) == 0) by (nonlinear_arith);
    if e >= 0 {
        assert(0 * pow10(e as nat) == 0) by (nonlinear_arith);
        lemma_round_zero(1);
    } else {
        lemma_pow10_pos((-e) as nat);
        lemma_round_zero(pow10((-e) as nat));
    }
}

proof fn lemma_decimal_huge(d: nat, e: int)
    requires
        d > 0,
        e > 60,
    ensures
        decimal_bits(d, e) == INFINITY_BITS,
{
    let p = d * pow10(e as nat) * pow2(149);
    lemma_pow10_large(e as nat);
    lemma_pow2_le(129, 3 * e as nat);
    lemma_pow2_adds(129, 149);
    lemma_pow2_pos(149);
    assert(p >= 1 * pow2(278)) by (nonlinear_arith)
        requires
            p == d * pow10(e as nat) * pow2(149),
            d >= 1,
            pow10(e as nat) >= pow2(129),
            pow2(278) == pow2(129) * pow2(149),
            pow2(149) > 0,
            pow2(129) >= 0,
    ;
    lemma_round_huge(p, 1);
}

proof fn lemma_decimal_tiny(d: nat, count: nat, e: int)
    requires
        0 < d < pow10(count),
        e < -(count + 60),
    ensures
        decimal_bits(d, e) == 0,
{
    let p = d * pow2(149);
    let spare = ((-e) - count) as nat;
    lemma_pow10_adds(count, spare);
    lemma_pow10_large(spare);
    lemma_pow2_le(150, 3 * spare);
    lemma_pow2_adds(1, 149);
    lemma_pow2_pos(149);
    lemma2_to64();
    lemma_pow10_pos(count);
    let q = pow10((-e) as nat);
    assert(2 * p < q) by (nonlinear_arith)
        requires
            p == d * pow2(149),
            d < pow10(count),
            q == pow10(count) * pow10(spare),
            pow10(spare) >= 2 * pow2(149),
            pow2(149) >= 1,
            d >= 1,
    ;
    lemma_round_tiny(p, q);
}

/// The magnitude bits of the unsigned decimal number behind `from`.
fn read_decimal(a: &Vec<char>, from: usize) -> (r: Option<u32>)
    requires
        from <= a@.len(),
    ensures
        match (r, decimal_parts(a@.skip(from as int))) {
            (Some(bits), Some(parts)) => bits <= INFINITY_BITS && bits == decimal_bits(
                parts.0,
                parts.1,
            ),
            (None, None) => true,
            _ => false,
        },
{
    let n: usize = a.len();
    let ghost body = a@.skip(from as int);
    assert(body =~= a@.subrange(from as int, n as int));
    let at: usize = find_char(a, from, n, 'e');
    let ghost mantissa = body.take(at - from);
    assert(mantissa =~= a@.subrange(from as int, at as int));
    let ghost e: Option<int> = if at < n {
        exponent_value(body.skip(at - from + 1))
    } else {
        Some(0)
    };
    let exponent: i128 = if at < n {
        assert(body.skip(at - from + 1) =~= a@.subrange(at + 1, n as int));
        match read_exponent(a, at + 1, n) {
            Some(v) => v,
            None => {
                return None;
            },
        }
    } else {
        0
    };
    assert(e is Some && exponent == held(e->0));
    let point: usize = find_char(a, from, at, '.');
    let fraction_from: usize = if point < at {
        point + 1
    } else {
        at
    };
    let ghost whole = mantissa.take(point - from);
    let ghost fraction = if point - from < mantissa.len() {
        mantissa.skip(point - from + 1)
    } else {
        Seq::empty()
    };
    assert(whole =~= a@.subrange(from as int, point as int));
    assert(fraction =~= a@.subrange(fraction_from as int, at as int));
    if point == from && fraction_from == at {
        return None;
    }
    match read_digits(a, from, point, fraction_from, at) {
        None => None,
        Some(all) => {
            let less: usize = at - fraction_from;
            let count: u128 = (point - from) as u128 + less as u128;
            proof {
                lemma_digits_bound(whole + fraction);
                lemma_held(all@, count as nat, e->0, less as nat);
            }
            Some(decimal_magnitude(&all, count, exponent - less as i128))
        },
    }
}

/// The digits in `[from, point)` and `[fraction_from, at)` as one whole number.
fn read_digits(a: &Vec<char>, from: usize, point: usize, fraction_from: usize, at: usize) -> (r:
    Option<Natural>)
    requires
        from <= point <= fraction_from <= at <= a@.len(),
    ensures
        match r {
            Some(n) => digits_value(
                a@.subrange(from as int, point as int) + a@.subrange(
                    fraction_from as int,
                    at as int,
                ),
                10,
            ) == Some(n@),
            None => digits_value(
                a@.subrange(from as int, point as int) + a@.subrange(
                    fraction_from as int,
                    at as int,
                ),
                10,
            ) is None,
        },
{
    let ghost whole = a@.subrange(from as int, point as int);
    let ghost fraction = a@.subrange(fraction_from as int, at as int);
    assert(Seq::<char>::empty() + whole =~= whole);
    let zero = Natural::from_u32(0);
    match more_digits(zero, a, from, point, Ghost(Seq::empty())) {
        Some(high) => more_digits(high, a, fraction_from, at, Ghost(whole)),
        None => {
            proof {
                assert((whole + fraction).take(whole.len() as int) =~= whole);
                lemma_digits_none(whole + fraction, whole.len() as int);
            }
            None
        },
    }
}

/// Reads a decimal number.
pub fn parse_single(s: &str) -> (r: Option<Single>)
    ensures
        r == decimal_number(s@),
{
    let a = lower_chars(s);
    let n: usize = a.len();
    let signed_text = n > 0 && (a[0] == '-' || a[0] == '+');
    let negative = n > 0 && a[0] == '-';
    let from: usize = if signed_text {
        1
    } else {
        0
    };
    let ghost body = unsigned_part(lowered(s@));
    proof {
        assert(body =~= a@.skip(from as int));
        assert(body =~= a@.subrange(from as int, n as int));
    }
    let word = text_of(&a, from, n);
    if same_text(word.as_str(), "inf") || same_text(word.as_str(), "infinity") {
        return Some(with_sign(negative, INFINITY_BITS));
    }
    if same_text(word.as_str(), "nan") {
        return Some(Single::not_a_number());
    }
    match read_decimal(&a, from) {
        Some(bits) => Some(with_sign(negative, bits)),
        None => None,
    }
}

} // verus!
