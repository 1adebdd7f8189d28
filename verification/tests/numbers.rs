//! The numbers against those of the machine.

use eluna::api::{emote_ticks_to_milliseconds, milliseconds_to_emote_ticks};
use eluna::curve::{eased, lerp, unit_clamp};
use eluna::decimal::parse_single;
use eluna::numerals::{decimal_i64, hexadecimal, pad_zeros, parse_user_number, parse_whole};
use eluna::place::radians;
use eluna::general::{show_double, show_general};
use eluna::show::{show_single, show_thousandths};
use eluna::single::Single;

fn s(x: f32) -> Single {
    Single { bits: x.to_bits() }
}

fn f(x: Single) -> f32 {
    f32::from_bits(x.bits)
}

fn agrees(got: Single, want: f32) -> bool {
    (f(got).is_nan() && want.is_nan()) || got.bits == want.to_bits()
}

fn samples() -> Vec<f32> {
    let mut row: Vec<f32> = vec![
        0.0,
        -0.0,
        1.0,
        -1.0,
        0.1,
        -0.1,
        0.5,
        2.0,
        3.0,
        10.0,
        1.0e-3,
        1.5e10,
        -7.25,
        16777216.0,
        16777217.0,
        8388607.5,
        3.4028235e38,
        -3.4028235e38,
        1.1754944e-38,
        1.0e-45,
        -1.0e-45,
        2.3e-41,
        f32::INFINITY,
        f32::NEG_INFINITY,
        f32::NAN,
    ];
    let mut seed: u32 = 12345;
    let mut i = 0;
    while i < 40 {
        seed = seed.wrapping_mul(1664525).wrapping_add(1013904223);
        row.push(f32::from_bits(seed));
        i += 1;
    }
    row
}

#[test]
fn sums_are_those_of_the_machine() {
    for a in samples() {
        for b in samples() {
            assert!(agrees(s(a).plus(s(b)), a + b), "{a} + {b}");
            assert!(agrees(s(a).minus(s(b)), a - b), "{a} - {b}");
        }
    }
}

#[test]
fn products_are_those_of_the_machine() {
    for a in samples() {
        for b in samples() {
            assert!(agrees(s(a).times(s(b)), a * b), "{a} * {b}");
        }
    }
}

#[test]
fn quotients_are_those_of_the_machine() {
    for a in samples() {
        for b in samples() {
            assert!(agrees(s(a).over(s(b)), a / b), "{a} / {b}");
        }
    }
}

#[test]
fn remainders_are_those_of_the_machine() {
    for a in samples() {
        for b in samples() {
            assert!(agrees(s(a).rem(s(b)), a % b), "{a} % {b}");
            assert!(agrees(s(a).rem_euclid(s(b)), a.rem_euclid(b)), "{a} rem {b}");
        }
    }
}

#[test]
fn comparisons_are_those_of_the_machine() {
    for a in samples() {
        for b in samples() {
            assert_eq!(s(a).lt(s(b)), a < b);
            assert_eq!(s(a).le(s(b)), a <= b);
            assert_eq!(s(a).same(s(b)), a == b);
            let most = f(s(a).max(s(b)));
            assert!(most == a.max(b) || (a.is_nan() && b.is_nan()));
            let least = f(s(a).min(s(b)));
            assert!(least == a.min(b) || (a.is_nan() && b.is_nan()));
        }
    }
}

#[test]
fn roots_are_those_of_the_machine() {
    for a in samples() {
        assert!(agrees(s(a).sqrt(), a.sqrt()), "sqrt {a}");
    }
    assert_eq!(f(s(3.0).hypot(s(4.0))), 5.0);
    assert_eq!(f(s(-5.0).hypot(s(12.0))), 13.0);
    assert_eq!(f(s(0.0).hypot(s(0.0))), 0.0);
    assert!(f(s(f32::INFINITY).hypot(s(f32::NAN))).is_infinite());
}

#[test]
fn signs_and_kinds() {
    for a in samples() {
        assert_eq!(s(a).is_nan(), a.is_nan());
        assert_eq!(s(a).is_finite(), a.is_finite());
        assert_eq!(s(a).is_infinite(), a.is_infinite());
        assert_eq!(s(a).is_negative(), a.is_sign_negative());
        assert_eq!(s(a).abs().bits, a.abs().to_bits());
        if !a.is_nan() {
            assert_eq!(s(a).neg().bits, (-a).to_bits());
        }
    }
    assert_eq!(f(s(7.0).clamp(s(0.0), s(1.0))), 1.0);
    assert_eq!(f(s(-7.0).clamp(s(0.0), s(1.0))), 0.0);
    assert_eq!(f(s(0.25).clamp(s(0.0), s(1.0))), 0.25);
    assert_eq!(f(s(f32::NAN).finite_or(s(4.0))), 4.0);
    assert_eq!(f(s(3.0).finite_or(s(4.0))), 3.0);
}

#[test]
fn conversions_are_those_of_the_machine() {
    for n in [0i64, 1, -1, 16777217, -16777219, i64::MAX, i64::MIN, 123456789012] {
        assert_eq!(f(Single::from_i64(n)), n as f32);
    }
    for n in [0usize, 1, 16777217, 4294967295] {
        assert_eq!(f(Single::from_count(n)), n as f32);
    }
    for x in [0.0f64, 0.1, -2.5, 1.0e300, 1.0e-300, 3.4028235677973366e38, 16777217.0, f64::INFINITY]
    {
        assert_eq!(f(Single::from_double(x.to_bits())), x as f32);
    }
    assert!(f(Single::from_double(f64::NAN.to_bits())).is_nan());
    for x in [0.0f32, 0.9, 1.5, 255.0, 300.0, -4.0, f32::NAN, f32::INFINITY] {
        assert_eq!(s(x).whole(255), x as u8 as u64);
    }
    for x in [0.0f32, 0.5, 1.5, 2.5, -0.5, -1.5, 2.4999998, -7.6, 1.0e12, f32::NAN] {
        assert_eq!(s(x).rounded(-1000, 1000), (x.round() as i64).clamp(-1000, 1000));
    }
    assert!(s(5.0).is_whole());
    assert!(!s(5.5).is_whole());
}

#[test]
fn shortest_text_is_that_of_the_machine() {
    for a in samples() {
        assert_eq!(show_single(s(a)), format!("{a}"));
    }
    let mut seed: u32 = 99;
    let mut i = 0;
    while i < 300 {
        seed = seed.wrapping_mul(1664525).wrapping_add(1013904223);
        let x = f32::from_bits(seed);
        assert_eq!(show_single(s(x)), format!("{x}"));
        i += 1;
    }
    assert_eq!(show_single(s(0.1)), "0.1");
    assert_eq!(show_single(s(-300.0)), "-300");
}

#[test]
fn general_text_is_that_of_the_machine() {
    for a in samples() {
        assert_eq!(show_general(s(a)), format!("{a:?}"));
    }
    for a in [
        1e-4f32, 9.9999e-5, 1e16, 9.999999e15, 1e15, 0.1, 1.5e-5, -2e20, 3.4028235e38, 1e-45, 1e-44, -0.0, 100.0,
        123456.0, 16777216.0, f32::INFINITY, f32::NEG_INFINITY, f32::NAN,
    ] {
        for bits in [a.to_bits().saturating_sub(1), a.to_bits(), a.to_bits() + 1] {
            let x = f32::from_bits(bits);
            assert_eq!(show_general(s(x)), format!("{x:?}"));
        }
    }
    let mut seed: u32 = 5;
    for _ in 0..300 {
        seed = seed.wrapping_mul(1664525).wrapping_add(1013904223);
        let x = f32::from_bits(seed);
        assert_eq!(show_general(s(x)), format!("{x:?}"));
    }
    assert_eq!(show_general(s(-0.0)), "-0.0");
    assert_eq!(show_general(s(1.0e20)), "1e20");
    assert_eq!(show_general(s(1.25e-7)), "1.25e-7");
}

#[test]
fn double_text_is_that_of_the_machine() {
    for a in [
        0.0f64, 1.0, 0.1, 0.3, 1.0 / 3.0, 1e-4, 9.999999999999999e-5, 1e16, 9007199254740993.0, 1e15, 1e22, 1e23, 5e-324,
        1e-323, 1.5e-323, 2e-323, 1e-322, 2.2250738585072014e-308, 2.225073858507201e-308, 1.7976931348623157e308, 123456789.125,
        9.5367431640625e-7, 4.35, 0.000035, 2.0f64.powi(60), 2.0f64.powi(-1022), 8.41e21, 5e125, f64::INFINITY, f64::NAN,
    ] {
        for bits in [a.to_bits().saturating_sub(1), a.to_bits(), a.to_bits() + 1] {
            for x in [f64::from_bits(bits), -f64::from_bits(bits)] {
                assert_eq!(show_double(x.to_bits()), format!("{x:?}"));
            }
        }
    }
    for n in 1..200u64 {
        let x = f64::from_bits(n);
        assert_eq!(show_double(n), format!("{x:?}"));
    }
    let mut seed: u64 = 3;
    for _ in 0..300 {
        seed = seed.wrapping_mul(6364136223846793005).wrapping_add(1442695040888963407);
        let x = f64::from_bits(seed);
        assert_eq!(show_double(seed), format!("{x:?}"));
        let y = (seed >> 40) as f64 / 1000.0;
        assert_eq!(show_double(y.to_bits()), format!("{y:?}"));
    }
}

#[test]
fn numbers_read_back_from_their_text() {
    let mut seed: u32 = 7;
    let mut i = 0;
    while i < 300 {
        seed = seed.wrapping_mul(1664525).wrapping_add(1013904223);
        let x = Single { bits: seed };
        let back = parse_single(show_single(x).as_str()).unwrap();
        assert!(x.is_nan() || back.bits == x.bits);
        i += 1;
    }
    assert_eq!(parse_single("-0").unwrap().bits, (-0.0f32).to_bits());
    assert_eq!(parse_single("-inf").unwrap().bits, f32::NEG_INFINITY.to_bits());
}

#[test]
fn thousandths_are_those_of_the_machine() {
    for a in samples() {
        assert_eq!(show_thousandths(s(a)), format!("{a:.3}"));
    }
    for x in [0.0005f32, 0.0015, 0.0625, 1.0005, 12.3456, -0.0004, 99999.999] {
        assert_eq!(show_thousandths(s(x)), format!("{x:.3}"));
    }
}

#[test]
fn decimal_text_reads_as_on_the_machine() {
    for text in [
        "0", "-0", "1", "+1", "1.", ".5", "0.1", "-0.1", "3.4028236e38", "3.5e38", "1e-45", "1e-46",
        "7e-46", "1e400", "-1e400", "1E3", "1e+3", "1.5e-3", "16777217", "16777219", "inf", "-inf",
        "Infinity", "00012.500", "123456789012345678901234567890",
        "0.000000000000000000000000000000000000011754942",
    ] {
        let want: f32 = text.parse().unwrap();
        assert_eq!(parse_single(text).unwrap().bits, want.to_bits(), "{text}");
    }
    assert!(parse_single("nan").unwrap().is_nan());
    assert!(parse_single("NaN").unwrap().is_nan());
    for text in ["", ".", "e5", "1e", "1e+", "abc", " 1", "1 ", "0x10", "1_0", "--1", "+-1", "1.2.3"]
    {
        assert!(text.parse::<f32>().is_err());
        assert!(parse_single(text).is_none(), "{text}");
    }
}

#[test]
fn radians_are_those_of_the_machine() {
    for d in [0.0f32, 1.0, 45.0, 90.0, 180.0, -360.0, 33.3] {
        assert_eq!(f(radians(s(d))), d.to_radians());
    }
}

#[test]
fn times_come_back_from_the_other_unit() {
    for x in [0.0f32, 1.0, -16.6, 1e-30, -3.3e-30, 1e30, -7.77e29, 0.1] {
        let ms = f(emote_ticks_to_milliseconds(milliseconds_to_emote_ticks(s(x))));
        assert!((ms as f64 - x as f64).abs() <= 1e-6 * (x as f64).abs());
        let ticks = f(milliseconds_to_emote_ticks(emote_ticks_to_milliseconds(s(x))));
        assert!((ticks as f64 - x as f64).abs() <= 1e-6 * (x as f64).abs());
    }
}

#[test]
fn ticks_and_milliseconds() {
    assert_eq!(f(milliseconds_to_emote_ticks(s(1000.0))), 60.0);
    assert_eq!(f(emote_ticks_to_milliseconds(s(60.0))), 1000.0);
    assert_eq!(f(milliseconds_to_emote_ticks(s(16.5))), 16.5 * 60.0 / 1000.0);
}

#[test]
fn curves() {
    assert_eq!(f(lerp(s(2.0), s(4.0), s(0.5))), 3.0);
    assert_eq!(f(unit_clamp(s(1.5))), 1.0);
    assert_eq!(f(unit_clamp(s(-1.5))), 0.0);
    assert_eq!(f(eased(s(0.0), s(0.0))), 0.0);
    assert_eq!(f(eased(s(1.0), s(0.0))), 1.0);
    assert_eq!(f(eased(s(0.25), s(0.0))), 0.25);
}

#[test]
fn whole_numbers() {
    assert_eq!(decimal_i64(-42), "-42");
    assert_eq!(decimal_i64(i64::MIN), i64::MIN.to_string());
    assert_eq!(hexadecimal(0xbeef), "beef");
    assert_eq!(pad_zeros("7", 3), "007");
    assert_eq!(parse_whole("4294967295", 10, u32::MAX as u64), Some(4294967295));
    assert_eq!(parse_whole("4294967296", 10, u32::MAX as u64), None);
    assert_eq!(parse_whole("", 10, 9), None);
    assert_eq!(parse_whole("+", 10, 9), None);
    assert_eq!(parse_user_number(" 0x12345678 ", u32::MAX as u64), Some(0x12345678));
    assert_eq!(parse_user_number("0X1f", u32::MAX as u64), Some(31));
    assert_eq!(parse_user_number("12", u32::MAX as u64), Some(12));
    assert_eq!(parse_user_number("1f", u32::MAX as u64), None);
}
