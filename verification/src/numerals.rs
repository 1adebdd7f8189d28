//! Whole numbers in decimal and hexadecimal writing.

use crate::text::{chars_of, stripped, strip_prefix, trim, trimmed};
use vstd::prelude::*;

verus! {

/// The character of one digit.
pub open spec fn digit_char(d: nat) -> char {
    if d < 10 {
        (48 + d) as char
    } else {
        (87 + d) as char
    }
}

/// The digits of `n`, most significant first.
pub open spec fn digits(n: nat, radix: nat) -> Seq<char>
    decreases n,
{
    if radix < 2 || n < radix {
        seq![digit_char(n)]
    } else {
        proof {
            vstd::arithmetic::div_mod::lemma_div_decreases(n as int, radix as int);
        }
        digits(n / radix, radix).push(digit_char(n % radix))
    }
}

/// Decimal writing of an integer.
pub open spec fn decimal(n: int) -> Seq<char> {
    if n < 0 {
        seq!['-'] + digits((-n) as nat, 10)
    } else {
        digits(n as nat, 10)
    }
}

/// The text with zeros put in front up to the given width.
pub open spec fn zero_padded(s: Seq<char>, width: nat) -> Seq<char> {
    if s.len() < width {
        Seq::new((width - s.len()) as nat, |i: int| '0') + s
    } else {
        s
    }
}

pub fn digit(d: u64) -> (c: char)
    requires
        d < 16,
    ensures
        c == digit_char(d as nat),
{
    if d < 10 {
        (48 + d as u8) as char
    } else {
        (87 + d as u8) as char
    }
}

fn digits_of(n: u64, radix: u64) -> (r: String)
    requires
        2 <= radix <= 16,
    ensures
        r@ == digits(n as nat, radix as nat),
    decreases n,
{
    if n < radix {
        let mut r = String::new();
        r.push(digit(n));
        assert(r@ =~= seq![digit_char(n as nat)]);
        r
    } else {
        proof {
            vstd::arithmetic::div_mod::lemma_div_decreases(n as int, radix as int);
        }
        let mut r = digits_of(n / radix, radix);
        r.push(digit(n % radix));
        r
    }
}

/// `n.to_string()`.
pub fn decimal_u64(n: u64) -> (r: String)
    ensures
        r@ == decimal(n as int),
{
    digits_of(n, 10)
}

/// `n.to_string()`.
pub fn decimal_i64(n: i64) -> (r: String)
    ensures
        r@ == decimal(n as int),
{
    if n < 0 {
        let magnitude: u64 = (-(n as i128)) as u64;
        let mut r = String::new();
        r.push('-');
        assert(r@ =~= seq!['-']);
        r.append(digits_of(magnitude, 10).as_str());
        r
    } else {
        digits_of(n as u64, 10)
    }
}

/// Lower-case hexadecimal writing.
pub fn hexadecimal(n: u64) -> (r: String)
    ensures
        r@ == digits(n as nat, 16),
{
    digits_of(n, 16)
}

/// The text with zeros put in front up to the given width.
pub fn pad_zeros(s: &str, width: usize) -> (r: String)
    ensures
        r@ == zero_padded(s@, width as nat),
{
    let length: usize = chars_of(s).len();
    let mut r = String::new();
    let mut i: usize = length;
    while i < width
        invariant
            length == s@.len(),
            length <= i,
            i <= width || i == length,
            r@ == Seq::new((i - length) as nat, |j: int| '0'),
        decreases width - i,
    {
        r.push('0');
        i = i + 1;
        assert(r@ =~= Seq::new((i - length) as nat, |j: int| '0'));
    }
    r.append(s);
    assert(r@ =~= zero_padded(s@, width as nat));
    r
}

/// The value of one digit in the given radix.
pub open spec fn digit_value(c: char, radix: nat) -> Option<nat> {
    let d: int = if '0' <= c <= '9' {
        c as int - 48
    } else if 'a' <= c <= 'z' {
        c as int - 87
    } else if 'A' <= c <= 'Z' {
        c as int - 55
    } else {
        99
    };
    if d < radix {
        Some(d as nat)
    } else {
        None
    }
}

/// The value of a row of digits, if all are digits.
pub open spec fn digits_value(s: Seq<char>, radix: nat) -> Option<nat>
    decreases s.len(),
{
    if s.len() == 0 {
        Some(0)
    } else {
        match (digits_value(s.drop_last(), radix), digit_value(s.last(), radix)) {
            (Some(high), Some(low)) => Some(high * radix + low),
            _ => None,
        }
    }
}

/// A whole number of at most `max`: an optional plus sign, then one or more digits.
pub open spec fn whole_number(s: Seq<char>, radix: nat, max: nat) -> Option<nat> {
    let body = if s.len() > 0 && s[0] == '+' {
        s.drop_first()
    } else {
        s
    };
    match digits_value(body, radix) {
        Some(v) => if body.len() > 0 && v <= max {
            Some(v)
        } else {
            None
        },
        None => None,
    }
}

/// A number as users write it: hexadecimal behind `0x` or `0X`, else decimal.
pub open spec fn user_number(s: Seq<char>, max: nat) -> Option<nat> {
    let t = trimmed(s);
    match stripped(t, "0x"@) {
        Some(hex) => whole_number(hex, 16, max),
        None => match stripped(t, "0X"@) {
            Some(hex) => whole_number(hex, 16, max),
            None => whole_number(t, 10, max),
        },
    }
}

pub open spec fn opt_nat(v: Option<u64>) -> Option<nat> {
    match v {
        Some(n) => Some(n as nat),
        None => None,
    }
}

pub fn value_of_digit(c: char, radix: u64) -> (r: Option<u64>)
    requires
        radix <= 36,
    ensures
        opt_nat(r) == digit_value(c, radix as nat),
{
    let d: u64 = if '0' <= c && c <= '9' {
        c as u64 - 48
    } else if 'a' <= c && c <= 'z' {
        c as u64 - 87
    } else if 'A' <= c && c <= 'Z' {
        c as u64 - 55
    } else {
        99
    };
    if d < radix {
        Some(d)
    } else {
        None
    }
}

/// More digits never make a number smaller.
proof fn lemma_digits_value_grows(s: Seq<char>, n: int, radix: nat)
    requires
        0 <= n <= s.len(),
        radix >= 1,
        digits_value(s, radix) is Some,
    ensures
        digits_value(s.take(n), radix) is Some,
        digits_value(s.take(n), radix)->0 <= digits_value(s, radix)->0,
    decreases s.len(),
{
    if n == s.len() {
        assert(s.take(n) =~= s);
    } else {
        lemma_digits_value_grows(s.drop_last(), n, radix);
        assert(s.drop_last().take(n) =~= s.take(n));
        let high = digits_value(s.drop_last(), radix)->0;
        assert(high * radix >= high) by (nonlinear_arith)
            requires
                radix >= 1,
                high >= 0,
        ;
    }
}

/// Reads a whole number of at most `max`.
pub fn parse_whole(s: &str, radix: u64, max: u64) -> (r: Option<u64>)
    requires
        2 <= radix <= 36,
    ensures
        opt_nat(r) == whole_number(s@, radix as nat, max as nat),
{
    let a = chars_of(s);
    let from: usize = if a.len() > 0 && a[0] == '+' {
        1
    } else {
        0
    };
    let ghost body = a@.skip(from as int);
    proof {
        if from == 1 {
            assert(body =~= s@.drop_first());
        } else {
            assert(body =~= s@);
        }
    }
    if from == a.len() {
        return None;
    }
    let mut i: usize = from;
    let mut value: u64 = 0;
    while i < a.len()
        invariant
            from <= i <= a.len(),
            from < a.len(),
            2 <= radix <= 36,
            value <= max,
            body == a@.skip(from as int),
            digits_value(body.take(i - from), radix as nat) == Some(value as nat),
            whole_number(s@, radix as nat, max as nat) == (match digits_value(
                body,
                radix as nat,
            ) {
                Some(v) => if body.len() > 0 && v <= max as nat {
                    Some(v)
                } else {
                    None
                },
                None => None,
            }),
        decreases a.len() - i,
    {
        let ghost next = body.take(i + 1 - from);
        proof {
            assert(next.drop_last() =~= body.take(i - from));
            assert(next.last() == a@[i as int]);
            if digits_value(body, radix as nat) is Some {
                lemma_digits_value_grows(body, i + 1 - from, radix as nat);
            }
        }
        match value_of_digit(a[i], radix) {
            None => {
                return None;
            },
            Some(d) => {
                proof {
                    assert(value * radix <= 0xffff_ffff_ffff_ffff * 36) by (nonlinear_arith)
                        requires
                            0 <= value <= 0xffff_ffff_ffff_ffff,
                            0 <= radix <= 36,
                    ;
                }
                let wide: u128 = value as u128 * radix as u128 + d as u128;
                if wide > max as u128 {
                    return None;
                }
                value = wide as u64;
            },
        }
        i = i + 1;
    }
    assert(body.take(i - from) =~= body);
    Some(value)
}

/// Reads a number as users write it.
pub fn parse_user_number(s: &str, max: u64) -> (r: Option<u64>)
    ensures
        opt_nat(r) == user_number(s@, max as nat),
{
    let t = trim(s);
    match strip_prefix(t.as_str(), "0x") {
        Some(hex) => parse_whole(hex.as_str(), 16, max),
        None => match strip_prefix(t.as_str(), "0X") {
            Some(hex) => parse_whole(hex.as_str(), 16, max),
            None => parse_whole(t.as_str(), 10, max),
        },
    }
}

/// Why a text is no whole number that fits.
#[derive(Clone, Copy, Debug, PartialEq, Eq, Structural)]
pub enum NumberFault {
    /// There is no character.
    Empty,
    /// A character is no digit.
    BadDigit,
    /// The digits come to more than the type can hold.
    TooLarge,
}

impl NumberFault {
    /// The message for users.
    pub open spec fn spec_message(self) -> Seq<char> {
        match self {
            NumberFault::Empty => "cannot parse integer from empty string"@,
            NumberFault::BadDigit => "invalid digit found in string"@,
            NumberFault::TooLarge => "number too large to fit in target type"@,
        }
    }

    pub fn message(self) -> (r: String)
        ensures
            r@ == self.spec_message(),
    {
        match self {
            NumberFault::Empty => "cannot parse integer from empty string".to_owned(),
            NumberFault::BadDigit => "invalid digit found in string".to_owned(),
            NumberFault::TooLarge => "number too large to fit in target type".to_owned(),
        }
    }
}

/// How many digits stand at the front.
pub open spec fn leading_digits(s: Seq<char>, radix: nat) -> nat
    decreases s.len(),
{
    if s.len() == 0 || digit_value(s[0], radix) is None {
        0
    } else {
        1 + leading_digits(s.drop_first(), radix)
    }
}

/// Why a text is no whole number of at most `max`. The text is read from the front, so
/// digits that come to too much are found before a later character that is no digit.
/// A plus sign alone is no digit.
pub open spec fn whole_fault(s: Seq<char>, radix: nat, max: nat) -> NumberFault {
    let body = if s.len() > 1 && s[0] == '+' {
        s.drop_first()
    } else {
        s
    };
    let n = leading_digits(body, radix);
    if s.len() == 0 {
        NumberFault::Empty
    } else if n < body.len() && digits_value(body.take(n as int), radix)->0 <= max {
        NumberFault::BadDigit
    } else {
        NumberFault::TooLarge
    }
}

/// Why a text is no number as users write it.
pub open spec fn user_fault(s: Seq<char>, max: nat) -> NumberFault {
    let t = trimmed(s);
    match stripped(t, "0x"@) {
        Some(hex) => whole_fault(hex, 16, max),
        None => match stripped(t, "0X"@) {
            Some(hex) => whole_fault(hex, 16, max),
            None => whole_fault(t, 10, max),
        },
    }
}

proof fn lemma_leading_digits(s: Seq<char>, radix: nat)
    ensures
        leading_digits(s, radix) <= s.len(),
        forall|j: int|
            0 <= j < leading_digits(s, radix) ==> digit_value(#[trigger] s[j], radix) is Some,
    decreases s.len(),
{
    if s.len() > 0 && digit_value(s[0], radix) is Some {
        let rest = s.drop_first();
        lemma_leading_digits(rest, radix);
        assert forall|j: int| 0 <= j < leading_digits(s, radix) implies digit_value(
            #[trigger] s[j],
            radix,
        ) is Some by {
            if j > 0 {
                assert(s[j] == rest[j - 1]);
            }
        }
    }
}

proof fn lemma_all_digits(s: Seq<char>, radix: nat)
    requires
        forall|j: int| 0 <= j < s.len() ==> digit_value(#[trigger] s[j], radix) is Some,
    ensures
        digits_value(s, radix) is Some,
    decreases s.len(),
{
    if s.len() > 0 {
        lemma_all_digits(s.drop_last(), radix);
    }
}

/// Finds why a text is no whole number of at most `max`.
pub fn find_whole_fault(s: &str, radix: u64, max: u64) -> (r: NumberFault)
    requires
        2 <= radix <= 36,
    ensures
        r == whole_fault(s@, radix as nat, max as nat),
{
    let a = chars_of(s);
    if a.len() == 0 {
        return NumberFault::Empty;
    }
    let from: usize = if a.len() > 1 && a[0] == '+' {
        1
    } else {
        0
    };
    let ghost body = a@.skip(from as int);
    let ghost n = leading_digits(body, radix as nat);
    proof {
        if from == 1 {
            assert(body =~= s@.drop_first());
        } else {
            assert(body =~= s@);
        }
        lemma_leading_digits(body, radix as nat);
        assert(body.skip(0) =~= body);
    }
    let mut i: usize = from;
    let mut value: u64 = 0;
    while i < a.len()
        invariant
            from <= i <= a.len(),
            2 <= radix <= 36,
            value <= max,
            body == a@.skip(from as int),
            n == leading_digits(body, radix as nat),
            n == (i - from) + leading_digits(body.skip(i - from), radix as nat),
            n <= body.len(),
            forall|j: int| 0 <= j < n ==> digit_value(#[trigger] body[j], radix as nat) is Some,
            digits_value(body.take(i - from), radix as nat) == Some(value as nat),
            whole_fault(s@, radix as nat, max as nat) == (if n < body.len() && digits_value(
                body.take(n as int),
                radix as nat,
            )->0 <= max as nat {
                NumberFault::BadDigit
            } else {
                NumberFault::TooLarge
            }),
        decreases a.len() - i,
    {
        let ghost next = body.take(i + 1 - from);
        proof {
            assert(next.drop_last() =~= body.take(i - from));
            assert(next.last() == a@[i as int]);
            let rest = body.skip(i - from);
            assert(rest[0] == a@[i as int]);
            assert(rest.drop_first() =~= body.skip(i + 1 - from));
        }
        match value_of_digit(a[i], radix) {
            None => {
                return NumberFault::BadDigit;
            },
            Some(d) => {
                proof {
                    assert(value * radix <= 0xffff_ffff_ffff_ffff * 36) by (nonlinear_arith)
                        requires
                            0 <= value <= 0xffff_ffff_ffff_ffff,
                            0 <= radix <= 36,
                    ;
                }
                let wide: u128 = value as u128 * radix as u128 + d as u128;
                if wide > max as u128 {
                    proof {
                        let all = body.take(n as int);
                        lemma_all_digits(all, radix as nat);
                        lemma_digits_value_grows(all, i + 1 - from, radix as nat);
                        assert(all.take(i + 1 - from) =~= next);
                    }
                    return NumberFault::TooLarge;
                }
                value = wide as u64;
            },
        }
        i = i + 1;
    }
    NumberFault::TooLarge
}

/// Finds why a text is no number as users write it.
pub fn find_user_fault(s: &str, max: u64) -> (r: NumberFault)
    ensures
        r == user_fault(s@, max as nat),
{
    let t = trim(s);
    match strip_prefix(t.as_str(), "0x") {
        Some(hex) => find_whole_fault(hex.as_str(), 16, max),
        None => match strip_prefix(t.as_str(), "0X") {
            Some(hex) => find_whole_fault(hex.as_str(), 16, max),
            None => find_whole_fault(t.as_str(), 10, max),
        },
    }
}

/// Reading the decimal writing of a number gives the number back.
pub proof fn lemma_decimal_round_trip(n: nat, max: nat)
    requires
        n <= max,
    ensures
        whole_number(decimal(n as int), 10, max) == Some(n),
{
    lemma_digits_round_trip(n, 10);
    lemma_digits_first(n, 10);
}

/// Reading a row of digits gives the number that it was written for.
pub proof fn lemma_digits_round_trip(n: nat, radix: nat)
    requires
        2 <= radix <= 16,
    ensures
        digits_value(digits(n, radix), radix) == Some(n),
        digits(n, radix).len() > 0,
    decreases n,
{
    if n < radix {
        let s = digits(n, radix);
        assert(s.drop_last() =~= Seq::empty());
        assert(digits_value(s.drop_last(), radix) == Some(0nat));
        assert(digit_value(s.last(), radix) == Some(n));
        assert(0 * radix + n == n);
    } else {
        vstd::arithmetic::div_mod::lemma_div_decreases(n as int, radix as int);
        lemma_digits_round_trip(n / radix, radix);
        let s = digits(n, radix);
        assert(s.drop_last() =~= digits(n / radix, radix));
        vstd::arithmetic::div_mod::lemma_mod_bound(n as int, radix as int);
        assert(digit_value(s.last(), radix) == Some(n % radix));
        vstd::arithmetic::div_mod::lemma_fundamental_div_mod(n as int, radix as int);
        assert((n / radix) * radix + n % radix == n) by (nonlinear_arith)
            requires
                n == radix * (n / radix) + n % radix,
        ;
    }
}

/// No digit is a plus sign.
proof fn lemma_digits_first(n: nat, radix: nat)
    requires
        2 <= radix <= 16,
    ensures
        digits(n, radix).len() > 0,
        digits(n, radix)[0] != '+',
    decreases n,
{
    if n >= radix {
        vstd::arithmetic::div_mod::lemma_div_decreases(n as int, radix as int);
        lemma_digits_first(n / radix, radix);
    }
}

} // verus!
