//! Numbers read back from the text that was written for them.

use crate::decimal::{
    decimal_bits, decimal_number, decimal_parts, first_of, lemma_decimal_zero, lemma_pow10_adds,
    lemma_pow10_pos, lowered, pow10, sign_of, spec_lower, unsigned_part,
};
use crate::numerals::{digit_value, digits, digits_value, lemma_digits_round_trip};
use crate::rounding::{half_even, lemma_ulp_shift_is, round_units, INFINITY_BITS};
use crate::show::{
    number_text, shortest, ten_den, ten_exponent, ten_num, without_zeros, written_out, zeros,
};
use crate::single::{lemma_round_units_scale, magnitude_units, signed, Single};
use vstd::arithmetic::div_mod::{
    lemma_fundamental_div_mod, lemma_fundamental_div_mod_converse, lemma_mod_bound,
};
use vstd::arithmetic::power2::{lemma2_to64, lemma_pow2_adds, lemma_pow2_pos, pow2};
use vstd::prelude::*;

verus! {

/// What lies nearer than half a place to a whole number of places rounds to it.
proof fn lemma_half_even_near(p: nat, place: nat, n: nat)
    requires
        place > 0,
        2 * (p - n * place) < place,
        2 * (n * place - p) < place,
    ensures
        half_even(p, place) == n,
{
    if p >= n * place {
        lemma_fundamental_div_mod_converse(
            p as int,
            place as int,
            n as int,
            p - n * place,
        );
    } else {
        assert(n > 0) by (nonlinear_arith)
            requires
                p < n * place,
                p >= 0,
                n >= 0,
        ;
        assert((n - 1) * place == n * place - place) by (nonlinear_arith);
        lemma_fundamental_div_mod_converse(
            p as int,
            place as int,
            n - 1,
            p - (n - 1) * place,
        );
    }
}

/// The significand and exponent of a magnitude.
proof fn lemma_magnitude_parts(mag: nat) -> (r: (nat, nat))
    requires
        mag < INFINITY_BITS,
    ensures
        magnitude_units(mag) == r.0 * pow2(r.1),
        r.0 < 0x100_0000,
        r.1 > 0 ==> r.0 >= 0x80_0000,
        mag == r.1 * 0x80_0000 + r.0,
        mag > 0 ==> r.0 > 0,
{
    lemma2_to64();
    let exponent = mag / 0x80_0000;
    let fraction = mag % 0x80_0000;
    if exponent == 0 {
        assert(fraction * pow2(0) == fraction) by (nonlinear_arith)
            requires
                pow2(0) == 1,
        ;
        (fraction, 0)
    } else {
        (0x80_0000 + fraction, (exponent - 1) as nat)
    }
}

/// A ratio that differs from a number by less than a part in `2^25` rounds to it.
proof fn lemma_near_rounds(p: nat, q: nat, mag: nat)
    requires
        q > 0,
        0 < mag < INFINITY_BITS,
        (p - magnitude_units(mag) * q) * 0x200_0000 < magnitude_units(mag) * q,
        (magnitude_units(mag) * q - p) * 0x200_0000 < magnitude_units(mag) * q,
    ensures
        round_units(p, q) == mag,
{
    let (m, e) = lemma_magnitude_parts(mag);
    let u = magnitude_units(mag);
    let place = q * pow2(e);
    lemma2_to64();
    lemma_pow2_pos(e);
    assert(place > 0) by (nonlinear_arith)
        requires
            place == q * pow2(e),
            q > 0,
            pow2(e) > 0,
    ;
    assert(u * q == m * place) by (nonlinear_arith)
        requires
            u == m * pow2(e),
            place == q * pow2(e),
    ;
    let gap = p - m * place;
    assert(m * place <= 0xff_ffff * place) by (nonlinear_arith)
        requires
            m <= 0xff_ffff,
            place > 0,
    ;
    assert(2 * gap < place && 2 * -gap < place);
    lemma_half_even_near(p, place, m);
    lemma_pow2_adds(24, e);
    assert(q * pow2(24 + e) == 0x100_0000 * place) by (nonlinear_arith)
        requires
            pow2(24 + e) == 0x100_0000 * pow2(e),
            place == q * pow2(e),
    ;
    if e == 0 {
        lemma_ulp_shift_is(p, q, 0);
    } else {
        lemma_pow2_adds(23, e);
        assert(q * pow2((23 + e) as nat) == 0x80_0000 * place) by (nonlinear_arith)
            requires
                pow2((23 + e) as nat) == 0x80_0000 * pow2(e),
                place == q * pow2(e),
        ;
        if p >= 0x80_0000 * place {
            lemma_ulp_shift_is(p, q, e);
        } else {
            // Just below a power of two the places are half as wide.
            let f = (e - 1) as nat;
            let half = q * pow2(f);
            lemma_pow2_adds(1, f);
            assert(place == 2 * half) by (nonlinear_arith)
                requires
                    place == q * pow2(e),
                    half == q * pow2(f),
                    pow2(e) == 2 * pow2(f),
            ;
            if m > 0x80_0000 {
                assert(m * place >= 0x80_0001 * place) by (nonlinear_arith)
                    requires
                        m >= 0x80_0001,
                        place > 0,
                ;
                assert(false);
            }
            assert(m * place == 0x80_0000 * place) by (nonlinear_arith)
                requires
                    m == 0x80_0000,
            ;
            lemma_half_even_near(p, half, 0x100_0000);
            lemma_pow2_adds(23, f);
            assert(q * pow2((23 + f) as nat) == 0x80_0000 * half) by (nonlinear_arith)
                requires
                    pow2((23 + f) as nat) == 0x80_0000 * pow2(f),
                    half == q * pow2(f),
            ;
            assert((23 + e) as nat == 24 + f);
            lemma_ulp_shift_is(p, q, f);
        }
    }
}

/// The first decimal digit of a number stands where the search finds it.
proof fn lemma_ten_exponent(u: nat, from: int)
    requires
        u > 0,
        -45 <= from,
    ensures
        -45 <= ten_exponent(u, from) <= from,
        ten_num(u, ten_exponent(u, from)) >= ten_den(ten_exponent(u, from)),
    decreases from + 46,
{
    if ten_num(u, from) < ten_den(from) {
        if from == -45 {
            lemma2_to64();
            lemma_pow2_adds(64, 64);
            lemma_pow2_adds(21, 128);
            assert(pow10(45) >= pow2(149)) by {
                reveal_with_fuel(pow10, 46);
            }
            assert(u * pow10(45) >= pow10(45)) by (nonlinear_arith)
                requires
                    u >= 1,
            ;
        }
        lemma_ten_exponent(u, from - 1);
    }
}

/// Nine digits of a number read back as the number.
proof fn lemma_nine_digits(mag: nat)
    requires
        0 < mag < INFINITY_BITS,
    ensures
        ({
            let u = magnitude_units(mag);
            let k = ten_exponent(u, 38) - 8;
            decimal_bits(ten_num(u, k) / ten_den(k), k) == mag
        }),
{
    let u = magnitude_units(mag);
    let (m, e) = lemma_magnitude_parts(mag);
    lemma_pow2_pos(e);
    assert(u > 0) by (nonlinear_arith)
        requires
            u == m * pow2(e),
            m > 0,
            pow2(e) > 0,
    ;
    let top = ten_exponent(u, 38);
    lemma_ten_exponent(u, 38);
    let k = top - 8;
    let low = ten_num(u, k) / ten_den(k);
    let unit = pow2(149);
    lemma_pow2_pos(149);
    assert(pow10(8) == 1_0000_0000) by {
        reveal_with_fuel(pow10, 9);
    }
    if k >= 0 {
        let ten = pow10(k as nat);
        lemma_pow10_pos(k as nat);
        lemma_pow10_adds(8, k as nat);
        let step = ten * unit;
        assert(step > 0) by (nonlinear_arith)
            requires
                step == ten * unit,
                ten > 0,
                unit > 0,
        ;
        assert(u >= 1_0000_0000 * step) by (nonlinear_arith)
            requires
                u >= pow10(top as nat) * unit,
                pow10(top as nat) == 1_0000_0000 * ten,
                step == ten * unit,
        ;
        lemma_fundamental_div_mod(u as int, step as int);
        lemma_mod_bound(u as int, step as int);
        let p = low * ten * unit;
        assert(p == step * low) by (nonlinear_arith)
            requires
                p == low * ten * unit,
                step == ten * unit,
        ;
        assert(u * 1 == u);
        lemma_near_rounds(p, 1, mag);
    } else {
        let j = (-k) as nat;
        let ten = pow10(j);
        lemma_pow10_pos(j);
        assert(u * ten >= 1_0000_0000 * unit) by {
            if top >= 0 {
                lemma_pow10_adds(top as nat, j);
                assert(top as nat + j == 8);
                lemma_pow10_pos(top as nat);
                assert(u * ten >= 1_0000_0000 * unit) by (nonlinear_arith)
                    requires
                        u >= pow10(top as nat) * unit,
                        pow10(top as nat) * ten == 1_0000_0000,
                        ten > 0,
                        unit > 0,
                ;
            } else {
                let i = (-top) as nat;
                lemma_pow10_adds(8, i);
                assert(u * ten >= 1_0000_0000 * unit) by (nonlinear_arith)
                    requires
                        u * pow10(i) >= unit,
                        ten == 1_0000_0000 * pow10(i),
                ;
            }
        }
        lemma_fundamental_div_mod((u * ten) as int, unit as int);
        lemma_mod_bound((u * ten) as int, unit as int);
        let p = low * unit;
        assert(p == unit * low) by (nonlinear_arith)
            requires
                p == low * unit,
        ;
        lemma_near_rounds(p, ten, mag);
    }
}

/// The shortest digits of a number read back as the number.
pub proof fn lemma_shortest_reads(mag: nat, n: int)
    requires
        0 < mag < INFINITY_BITS,
        1 <= n <= 9,
    ensures
        decimal_bits(shortest(mag, n).0, shortest(mag, n).1) == mag,
    decreases 9 - n,
{
    if n == 9 {
        lemma_nine_digits(mag);
    } else {
        lemma_shortest_reads(mag, n + 1);
    }
}

/// A zero at the end can be taken into the power of ten.
proof fn lemma_shift_zero(d: nat, k: int)
    ensures
        decimal_bits(10 * d, k) == decimal_bits(d, k + 1),
{
    let unit = pow2(149);
    if k >= 0 {
        assert(pow10((k + 1) as nat) == 10 * pow10(k as nat));
        assert((10 * d) * pow10(k as nat) == d * pow10((k + 1) as nat)) by (nonlinear_arith)
            requires
                pow10((k + 1) as nat) == 10 * pow10(k as nat),
        ;
    } else {
        let j = (-k - 1) as nat;
        lemma_pow10_pos(j);
        assert(pow10(j + 1) == 10 * pow10(j));
        assert((10 * d) * unit == (d * unit) * 10) by (nonlinear_arith);
        assert(10 * pow10(j) == pow10(j) * 10);
        lemma_round_units_scale(d * unit, pow10(j), 10);
        if j == 0 {
            assert(pow10(0) == 1);
            assert(d * 1 * unit == d * unit) by (nonlinear_arith);
        }
    }
}

/// Zeros at the end do not change what digits stand for.
proof fn lemma_without_zeros(d: nat, k: int)
    ensures
        decimal_bits(without_zeros(d, k).0, without_zeros(d, k).1) == decimal_bits(d, k),
        d > 0 ==> without_zeros(d, k).0 > 0,
    decreases d,
{
    if d > 0 && d % 10 == 0 {
        lemma_shift_zero(d / 10, k);
        lemma_without_zeros(d / 10, k + 1);
    }
}

/// More zeros behind the digits, without a power of ten.
proof fn lemma_power_in_digits(d: nat, k: nat)
    ensures
        decimal_bits(d * pow10(k), 0) == decimal_bits(d, k as int),
{
    assert(pow10(0) == 1);
    assert(d * pow10(k) * 1 == d * pow10(k)) by (nonlinear_arith);
}

pub open spec fn all_digits(s: Seq<char>) -> bool {
    forall|i: int| 0 <= i < s.len() ==> '0' <= #[trigger] s[i] <= '9'
}

/// The writing of a number holds digits alone.
pub proof fn lemma_digits_are_digits(n: nat)
    ensures
        all_digits(digits(n, 10)),
    decreases n,
{
    if n >= 10 {
        lemma_digits_are_digits(n / 10);
    }
}

/// Zeros behind digits multiply their value.
proof fn lemma_zeros_behind(s: Seq<char>, d: nat, k: nat)
    requires
        digits_value(s, 10) == Some(d),
    ensures
        digits_value(s + zeros(k), 10) == Some(d * pow10(k)),
    decreases k,
{
    if k == 0 {
        assert(s + zeros(0) =~= s);
        assert(d * pow10(0) == d) by (nonlinear_arith)
            requires
                pow10(0) == 1,
        ;
    } else {
        let less = (k - 1) as nat;
        lemma_zeros_behind(s, d, less);
        let all = s + zeros(k);
        assert(all.drop_last() =~= s + zeros(less));
        assert(all.last() == '0');
        assert(digit_value('0', 10) == Some(0nat));
        assert((d * pow10(less)) * 10 + 0 == d * pow10(k)) by (nonlinear_arith)
            requires
                pow10(k) == 10 * pow10(less),
        ;
    }
}

/// Zeros before digits do not change their value.
proof fn lemma_zeros_before(s: Seq<char>, k: nat)
    ensures
        digits_value(zeros(k) + s, 10) == digits_value(s, 10),
    decreases s.len(), k,
{
    if s.len() > 0 {
        let all = zeros(k) + s;
        assert(all.drop_last() =~= zeros(k) + s.drop_last());
        assert(all.last() == s.last());
        lemma_zeros_before(s.drop_last(), k);
    } else if k > 0 {
        let less = (k - 1) as nat;
        let all = zeros(k) + s;
        assert(all.drop_last() =~= zeros(less) + s);
        assert(all.last() == '0');
        assert(digit_value('0', 10) == Some(0nat));
        lemma_zeros_before(s, less);
    } else {
        assert(zeros(0) + s =~= s);
    }
}

/// A character that does not occur first stands behind the end.
proof fn lemma_first_of_none(s: Seq<char>, c: char)
    requires
        !s.contains(c),
    ensures
        first_of(s, c) == s.len(),
    decreases s.len(),
{
    if s.len() > 0 {
        assert(s.contains(s[0]));
        assert forall|i: int| 0 <= i < s.drop_first().len() implies s.drop_first()[i] != c by {
            assert(s.contains(s[i + 1]));
        }
        lemma_first_of_none(s.drop_first(), c);
    }
}

/// A character first stands behind a text without it.
proof fn lemma_first_of_at(a: Seq<char>, c: char, b: Seq<char>)
    requires
        !a.contains(c),
    ensures
        first_of(a + seq![c] + b, c) == a.len(),
    decreases a.len(),
{
    let all = a + seq![c] + b;
    if a.len() == 0 {
        assert(all[0] == c);
    } else {
        assert(a.contains(a[0]));
        assert(all[0] == a[0]);
        assert forall|i: int| 0 <= i < a.drop_first().len() implies a.drop_first()[i] != c by {
            assert(a.contains(a[i + 1]));
        }
        lemma_first_of_at(a.drop_first(), c, b);
        assert(all.drop_first() =~= a.drop_first() + seq![c] + b);
    }
}

/// The parts of digits without a point.
proof fn lemma_parts_whole(s: Seq<char>, d: nat)
    requires
        all_digits(s),
        s.len() > 0,
        digits_value(s, 10) == Some(d),
    ensures
        decimal_parts(s) == Some((d, 0int)),
{
    lemma_first_of_none(s, 'e');
    assert(s.take(s.len() as int) =~= s);
    lemma_first_of_none(s, '.');
    assert(s + Seq::<char>::empty() =~= s);
}

/// The parts of digits with a point among them.
proof fn lemma_parts_point(whole: Seq<char>, fraction: Seq<char>, d: nat)
    requires
        all_digits(whole),
        all_digits(fraction),
        whole.len() > 0,
        digits_value(whole + fraction, 10) == Some(d),
    ensures
        decimal_parts(whole + seq!['.'] + fraction) == Some((d, -(fraction.len() as int))),
{
    let s = whole + seq!['.'] + fraction;
    assert forall|i: int| 0 <= i < s.len() implies s[i] != 'e' by {
        if i < whole.len() {
            assert(s[i] == whole[i]);
        } else if i > whole.len() {
            assert(s[i] == fraction[i - whole.len() - 1]);
        }
    }
    lemma_first_of_none(s, 'e');
    assert(s.take(s.len() as int) =~= s);
    lemma_first_of_at(whole, '.', fraction);
    assert(s.take(whole.len() as int) =~= whole);
    assert(s.skip(whole.len() as int + 1) =~= fraction);
}

/// Whether a text holds only digits and points.
pub open spec fn plain_decimal(s: Seq<char>) -> bool {
    &&& s.len() > 0
    &&& '0' <= s[0] <= '9'
    &&& forall|i: int| 0 <= i < s.len() ==> ('0' <= #[trigger] s[i] <= '9' || s[i] == '.')
}

/// A number written out reads back.
#[verifier::spinoff_prover]
#[verifier::rlimit(60)]
pub proof fn lemma_written_out_reads(d: nat, k: int)
    ensures
        plain_decimal(written_out(d, k)),
        decimal_parts(written_out(d, k)) is Some,
        ({
            let (a, b) = decimal_parts(written_out(d, k))->0;
            decimal_bits(a, b) == decimal_bits(d, k)
        }),
{
    let s = digits(d, 10);
    lemma_digits_are_digits(d);
    lemma_digits_round_trip(d, 10);
    let text = written_out(d, k);
    if k >= 0 {
        lemma_zeros_behind(s, d, k as nat);
        lemma_parts_whole(text, d * pow10(k as nat));
        lemma_power_in_digits(d, k as nat);
        assert(plain_decimal(text));
    } else if s.len() + k > 0 {
        let at = s.len() + k;
        let whole = s.take(at);
        let fraction = s.skip(at);
        assert(whole + fraction =~= s);
        lemma_parts_point(whole, fraction, d);
        assert(text[0] == s[0]);
        assert(plain_decimal(text));
    } else {
        let gap = (-k - s.len()) as nat;
        let whole = seq!['0'];
        let fraction = zeros(gap) + s;
        lemma_zeros_before(s, gap + 1);
        assert(whole + fraction =~= zeros(gap + 1) + s);
        assert(text =~= whole + seq!['.'] + fraction);
        lemma_parts_point(whole, fraction, d);
        assert(plain_decimal(text));
    }
}

/// Digits and points have no other case.
proof fn lemma_lowered_plain(sign: Seq<char>, s: Seq<char>)
    requires
        plain_decimal(s),
        sign.len() == 0 || sign == seq!['-'],
    ensures
        lowered(sign + s) == sign + s,
        sign_of(sign + s).1 == (sign.len() > 0),
        unsigned_part(sign + s) == s,
{
    let t = sign + s;
    assert forall|i: int| 0 <= i < t.len() implies spec_lower(#[trigger] t[i]) == t[i] by {
        if i >= sign.len() {
            assert(t[i] == s[i - sign.len()]);
        }
    }
    assert(lowered(t) =~= t);
    if sign.len() > 0 {
        assert(t[0] == '-');
        assert(t.drop_first() =~= s);
    } else {
        assert(t =~= s);
        assert(t[0] == s[0]);
    }
}

/// A plain decimal is no word.
proof fn lemma_plain_is_no_word(s: Seq<char>)
    requires
        plain_decimal(s),
    ensures
        s != "inf"@,
        s != "infinity"@,
        s != "nan"@,
{
    reveal_strlit("inf");
    reveal_strlit("infinity");
    reveal_strlit("nan");
    assert("inf"@[0] == 'i');
    assert("infinity"@[0] == 'i');
    assert("nan"@[0] == 'n');
}

/// The text of a number reads back as the same number, sign and all. What is not a
/// number reads back as such.
pub proof fn lemma_number_round_trip(x: Single)
    ensures
        !x.is_nan() ==> decimal_number(number_text(x)) == Some(x),
        x.is_nan() ==> decimal_number(number_text(x)) == Some(Single::not_a_number()),
{
    reveal(number_text);
    let sign = if x.is_negative() {
        seq!['-']
    } else {
        Seq::<char>::empty()
    };
    reveal_strlit("NaN");
    reveal_strlit("nan");
    reveal_strlit("inf");
    reveal_strlit("infinity");
    reveal_strlit("0");
    let mag = x.magnitude() as nat;
    if x.is_nan() {
        let t = lowered("NaN"@);
        assert(t =~= "nan"@);
        assert(t[0] == 'n');
        assert("inf"@[0] == 'i');
        assert("infinity"@[0] == 'i');
        assert(unsigned_part(t) == "nan"@);
    } else if x.is_infinite() {
        let t = sign + "inf"@;
        assert(lowered(t) =~= t);
        if sign.len() > 0 {
            assert(t[0] == '-');
            assert(t.drop_first() =~= "inf"@);
        } else {
            assert(t[0] == 'i');
            assert(t =~= "inf"@);
        }
        assert(signed(x.is_negative(), mag) == x);
    } else if mag == 0 {
        assert("0"@ =~= seq!['0']);
        lemma_lowered_plain(sign, "0"@);
        lemma_plain_is_no_word("0"@);
        assert("0"@.drop_last() =~= Seq::<char>::empty());
        assert(digit_value('0', 10) == Some(0nat));
        assert(digits_value(Seq::<char>::empty(), 10) == Some(0nat));
        lemma_parts_whole("0"@, 0);
        lemma_decimal_zero(0);
        assert(signed(x.is_negative(), mag) == x);
    } else {
        lemma_shortest_reads(mag, 1);
        let raw = shortest(mag, 1);
        lemma_without_zeros(raw.0, raw.1);
        let (d, k) = without_zeros(raw.0, raw.1);
        lemma_written_out_reads(d, k);
        let text = written_out(d, k);
        lemma_lowered_plain(sign, text);
        lemma_plain_is_no_word(text);
        assert(signed(x.is_negative(), mag) == x);
    }
}

} // verus!
