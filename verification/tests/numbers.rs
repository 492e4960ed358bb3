//! Numbers, texts and times against those of the machine.

use ubereditor::decimal::{fixed, shortest};
use ubereditor::float::{single_from_int, Real};
use ubereditor::reading::{parse_i64, parse_u32, split, split_lines};
use ubereditor::text::{int_to_text, join, lower, nat_to_text, replace_all, split_words, trim};
use ubereditor::time::{frame_duration_us, frame_to_time, quantize_to_frame};

fn num(x: f64) -> Real {
    Real { bits: x.to_bits() }
}

fn float(x: Real) -> f64 {
    f64::from_bits(x.bits)
}

const SAMPLES: [f64; 22] = [
    0.0,
    -0.0,
    1.0,
    -1.0,
    0.1,
    -0.3,
    0.5,
    1.5,
    2.5,
    1.0 / 3.0,
    1e-6,
    123456.789,
    9007199254740993.0,
    1e300,
    -1e300,
    5e-324,
    2.2250738585072014e-308,
    1.7976931348623157e308,
    f64::INFINITY,
    f64::NEG_INFINITY,
    f64::NAN,
    -20.000001,
];

fn same(a: f64, b: f64) -> bool {
    a.to_bits() == b.to_bits() || (a.is_nan() && b.is_nan())
}

#[test]
fn arithmetic_is_that_of_the_machine() {
    for x in SAMPLES {
        for y in SAMPLES {
            let (a, b) = (num(x), num(y));
            assert!(same(float(a.add(b)), x + y), "{x} + {y}");
            assert!(same(float(a.sub(b)), x - y), "{x} - {y}");
            assert!(same(float(a.mul(b)), x * y), "{x} * {y}");
            assert!(same(float(a.div(b)), x / y), "{x} / {y}");
            assert_eq!(a.lt(b), x < y, "{x} < {y}");
            assert_eq!(a.le(b), x <= y, "{x} <= {y}");
            assert_eq!(a.equals(b), x == y, "{x} == {y}");
        }
    }
}

#[test]
fn rounding_is_that_of_the_machine() {
    for x in SAMPLES {
        assert!(same(float(num(x).round()), x.round()), "{x}");
        assert!(same(float(num(x).abs()), x.abs()), "{x}");
        assert_eq!(num(x).to_int(), x as i64, "{x}");
        assert_eq!(num(x).round_to_int(), x.round() as i64, "{x}");
        assert!(same(float(num(x).to_single()), x as f32 as f64), "{x}");
        assert!(same(float(num(x).clamp(num(-1.0), num(1.0))), x.clamp(-1.0, 1.0)), "{x}");
    }
    for n in [0i64, 1, -1, 16_777_217, -16_777_219, i64::MAX, i64::MIN, 9_007_199_254_740_993] {
        assert_eq!(float(Real::from_int(n)), n as f64);
        assert_eq!(float(single_from_int(n)), n as f32 as f64);
    }
}

#[test]
fn decimals_are_those_of_the_machine() {
    for x in SAMPLES {
        assert_eq!(fixed(num(x), 4), format!("{x:.4}"));
        assert_eq!(fixed(num(x), 6), format!("{x:.6}"));
        assert_eq!(shortest(num(x)), format!("{x}"));
    }
    assert_eq!(fixed(num(0.125), 2), "0.12");
    assert_eq!(fixed(num(2.5), 0), "2");
}

#[test]
fn whole_numbers_are_read() {
    for s in ["0", "7", "-7", "+7", "00012", "9223372036854775807", "-9223372036854775808"] {
        assert_eq!(parse_i64(s), s.parse::<i64>().ok(), "{s}");
    }
    for s in ["", "+", "-", "--1", "+-1", " 1", "1 ", "a", "9223372036854775808", "1_0"] {
        assert_eq!(parse_i64(s), s.parse::<i64>().ok(), "{s}");
        assert_eq!(parse_u32(s), s.parse::<u32>().ok(), "{s}");
    }
    for s in ["0", "+5", "-0", "4294967295", "4294967296"] {
        assert_eq!(parse_u32(s), s.parse::<u32>().ok(), "{s}");
    }
    assert_eq!(parse_i64("99999999999999999999999999999999999999999999"), None);
}

#[test]
fn texts_are_taken_apart() {
    for s in ["", "a", "a,b", ",", "a,,b,", "año,ñ"] {
        assert_eq!(split(s, ','), s.split(',').collect::<Vec<_>>(), "{s:?}");
    }
    for s in ["", "\n", "a", "a\n", "a\r\nb", "a\r", "\r\n\r\n", "a\n\nb\n"] {
        assert_eq!(split_lines(s), s.lines().collect::<Vec<_>>(), "{s:?}");
    }
    for s in ["", "  ", " a  b\tc\n", "uno"] {
        assert_eq!(split_words(s), s.split_whitespace().collect::<Vec<_>>(), "{s:?}");
        assert_eq!(trim(s), s.trim(), "{s:?}");
    }
    assert_eq!(replace_all("aXbXX", "X", "--"), "a--b----");
    assert_eq!(replace_all("aaa", "aa", "b"), "ba");
    assert_eq!(lower("AbÑ"), "abÑ");
    assert_eq!(join(&vec!["a".to_string(), "b".to_string()], ", "), "a, b");
    assert_eq!(nat_to_text(u128::MAX), u128::MAX.to_string());
    assert_eq!(int_to_text(i64::MIN), i64::MIN.to_string());
}

#[test]
fn times_fall_on_frames() {
    assert_eq!(frame_to_time(31, (30, 1)), 1_033_333);
    assert_eq!(quantize_to_frame(1_017_000, (30, 1)), frame_to_time(31, (30, 1)));
    assert_eq!(frame_duration_us((25, 1)), 40_000);
    for t in [0, 1, 16_683, 1_000_000, 123_456_789] {
        let q = quantize_to_frame(t, (30000, 1001));
        assert_eq!(quantize_to_frame(q, (30000, 1001)), q, "idempotent at {t}");
    }
}

#[test]
fn random_numbers_agree_with_the_machine() {
    let mut seed = 0x9E37_79B9_7F4A_7C15u64;
    let mut draw = || {
        seed ^= seed << 13;
        seed ^= seed >> 7;
        seed ^= seed << 17;
        seed
    };
    for i in 0..20_000u64 {
        // all patterns of bits, then numbers of a common size
        let (x, y) = if i % 2 == 0 {
            (f64::from_bits(draw()), f64::from_bits(draw()))
        } else {
            let a = (draw() >> 20) as i64 - (1 << 43);
            let b = (draw() >> 40) as i64 + 1;
            (a as f64 / 1024.0, b as f64 / 4096.0)
        };
        let (a, b) = (num(x), num(y));
        assert!(same(float(a.add(b)), x + y), "{x} + {y}");
        assert!(same(float(a.sub(b)), x - y), "{x} - {y}");
        assert!(same(float(a.mul(b)), x * y), "{x} * {y}");
        assert!(same(float(a.div(b)), x / y), "{x} / {y}");
        assert!(same(float(a.round()), x.round()), "{x}");
        assert!(same(float(a.to_single()), x as f32 as f64), "{x}");
        assert_eq!(a.to_int(), x as i64, "{x}");
        assert_eq!(a.lt(b), x < y, "{x} < {y}");
        if i % 50 == 1 {
            assert_eq!(fixed(a, 4), format!("{x:.4}"));
            assert_eq!(shortest(b), format!("{y}"));
        }
    }
}
