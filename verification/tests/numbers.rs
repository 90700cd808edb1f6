use copierr::decimal::{read_double, write_double};
use copierr::double::Double;
use copierr::text::{is_blank, parse_u16, read_i64, to_lower, write_i64, write_u64};

fn double(x: f64) -> Double {
    Double { bits: x.to_bits() }
}

fn native(x: Double) -> f64 {
    f64::from_bits(x.bits)
}

fn same_number(ours: Double, theirs: f64) -> bool {
    if theirs.is_nan() {
        native(ours).is_nan()
    } else {
        ours.bits == theirs.to_bits()
    }
}

struct Rng(u64);

impl Rng {
    fn next(&mut self) -> u64 {
        self.0 ^= self.0 << 13;
        self.0 ^= self.0 >> 7;
        self.0 ^= self.0 << 17;
        self.0
    }
}

fn samples() -> Vec<f64> {
    let mut out = vec![
        0.0,
        -0.0,
        1.0,
        -1.0,
        0.5,
        1.5,
        2.5,
        -2.5,
        0.1,
        0.01,
        0.25,
        1e-10,
        1e8,
        1e22,
        1e23,
        9007199254740993.0,
        4503599627370495.5,
        f64::EPSILON,
        f64::MIN_POSITIVE,
        f64::from_bits(1),
        f64::from_bits(0x000f_ffff_ffff_ffff),
        f64::MAX,
        f64::MIN,
        f64::INFINITY,
        f64::NEG_INFINITY,
        f64::NAN,
        123456.789,
        -0.0001,
        100_000.0,
        5e-324,
        2.2250738585072011e-308,
    ];
    let mut rng = Rng(0x9e37_79b9_7f4a_7c15);
    for _ in 0..60 {
        out.push(f64::from_bits(rng.next()));
    }
    for _ in 0..60 {
        let n = (rng.next() % 1_000_000) as f64;
        out.push(n / 100.0);
    }
    out
}

#[test]
fn arithmetic_is_that_of_the_hardware() {
    let all = samples();
    for &a in &all {
        for &b in &all {
            assert!(same_number(double(a).times(double(b)), a * b), "{a} * {b}");
            assert!(same_number(double(a).over(double(b)), a / b), "{a} / {b}");
            assert!(same_number(double(a).plus(double(b)), a + b), "{a} + {b}");
            assert!(same_number(double(a).minus(double(b)), a - b), "{a} - {b}");
            assert_eq!(double(a).at_most(double(b)), a <= b, "{a} <= {b}");
            assert_eq!(double(a).below(double(b)), a < b, "{a} < {b}");
        }
    }
}

#[test]
fn rounding_is_that_of_the_hardware() {
    for a in samples() {
        assert!(same_number(double(a).rounded(), a.round()), "{a}");
        assert_eq!(double(a).truncated(), a as i64, "{a}");
        assert!(same_number(double(a).absolute(), a.abs()), "{a}");
        assert!(same_number(double(a).negated(), -a), "{a}");
    }
    assert_eq!(native(double(2.5).rounded()), 3.0);
    assert_eq!(native(double(-2.5).rounded()), -3.0);
    assert_eq!(native(double(0.49999999999999994).rounded()), 0.0);
}

#[test]
fn bounds_are_those_of_the_hardware() {
    let all = samples();
    for &a in &all {
        for &b in &all {
            if a != 0.0 || b != 0.0 {
                assert!(same_number(double(a).at_least(double(b)), a.max(b)), "max {a} {b}");
                assert!(same_number(double(a).capped(double(b)), a.min(b)), "min {a} {b}");
            }
        }
        assert!(same_number(double(a).clamped(double(-3.0), double(7.5)), a.clamp(-3.0, 7.5)), "{a}");
    }
}

#[test]
fn whole_numbers_become_the_nearest_number() {
    let mut rng = Rng(77);
    for _ in 0..200 {
        let n = rng.next();
        assert_eq!(Double::from_u64(n).bits, (n as f64).to_bits());
        assert_eq!(Double::from_i64(n as i64).bits, (n as i64 as f64).to_bits());
    }
    assert_eq!(Double::from_i64(i64::MIN).bits, (i64::MIN as f64).to_bits());
    assert_eq!(Double::from_u64(u64::MAX).bits, (u64::MAX as f64).to_bits());
    assert_eq!(Double::from_u64(0).bits, 0);
}

#[test]
fn numbers_are_written_with_the_fewest_digits() {
    for a in samples() {
        assert_eq!(write_double(double(a)), a.to_string(), "{a:?}");
    }
    assert_eq!(write_double(double(0.1)), "0.1");
    assert_eq!(write_double(double(-0.0)), "-0");
    assert_eq!(write_double(double(1e21)), "1000000000000000000000");
    assert_eq!(write_double(double(1e-7)), "0.0000001");
    assert_eq!(write_double(double(f64::NAN)), "NaN");
    assert_eq!(write_double(double(f64::NEG_INFINITY)), "-inf");
}

#[test]
fn what_is_written_reads_back() {
    for a in samples() {
        let back = read_double(&write_double(double(a))).expect("a number");
        assert!(same_number(back, a), "{a:?}");
    }
}

#[test]
fn numerals_are_read_as_the_standard_library_reads_them() {
    let texts = [
        "1", "1.", ".5", "1.5", "+2", "-3", "1e3", "1E3", "1e+3", "1e-3", "inf", "-inf", "Infinity",
        "+infinity", "nan", "NaN", "-NaN", "", "+", "-", ".", "e5", "1e", "1e+", " 1", "1 ", "1_0",
        "0x10", "1.2.3", "--1", "infinit", "1e400", "-1e400", "1e-400", "0e999999999999999999999",
        "123456789012345678901234567890", "0.000000000000000000000000000001234567",
        "2.2250738585072012e-308", "1.7976931348623159e308", "9007199254740993", "1e99999999999999999999",
        "00012.500", "5e-324", "2e-324", "\u{661}", "1,5",
    ];
    for t in texts {
        let theirs = t.parse::<f64>().ok();
        let ours = read_double(t);
        match (ours, theirs) {
            (Some(a), Some(b)) => assert!(same_number(a, b), "{t:?}"),
            (None, None) => {}
            (a, b) => panic!("{t:?}: {a:?} {b:?}"),
        }
    }
}

#[test]
fn integers_are_read_as_the_standard_library_reads_them() {
    let texts = [
        "0", "1", "-1", "+7", "007", "", "+", "-", "9223372036854775807", "9223372036854775808",
        "-9223372036854775808", "-9223372036854775809", "1 ", "a", "65535", "65536", "-0", "1.0",
        "99999999999999999999999999",
    ];
    for t in texts {
        assert_eq!(read_i64(t), t.parse::<i64>().ok(), "{t:?}");
        assert_eq!(parse_u16(t), t.parse::<u16>().ok(), "{t:?}");
    }
}

#[test]
fn integers_are_written_in_decimal() {
    for n in [0, 7, 10, 99, 100, -1, -10, i64::MIN, i64::MAX] {
        assert_eq!(write_i64(n), n.to_string());
        assert_eq!(read_i64(&write_i64(n)), Some(n));
    }
    assert_eq!(write_u64(u64::MAX), u64::MAX.to_string());
}

#[test]
fn white_space_is_that_of_the_standard_library() {
    for code in 0..0x11_0000u32 {
        if let Some(c) = char::from_u32(code) {
            let t = c.to_string();
            assert_eq!(is_blank(&t), t.trim().is_empty(), "{code:x}");
        }
    }
    assert!(is_blank(""));
    assert!(!is_blank(" a "));
}

#[test]
fn lower_case_is_ascii_only() {
    for t in ["MT5", "cTrader", "\u{c4}\u{d6}Z", "a1_B"] {
        assert_eq!(to_lower(t), t.to_ascii_lowercase());
    }
}

#[test]
fn adding_what_is_not_negative_lowers_nothing() {
    for x in samples() {
        for y in samples() {
            if y >= 0.0 {
                assert!(!double(x).plus(double(y)).below(double(x)), "{x} {y}");
            }
        }
    }
}

#[test]
fn a_number_differs_from_itself_by_nothing() {
    for x in samples() {
        assert!(!double(1e-10).below(double(x).minus(double(x)).absolute()), "{x}");
    }
}

#[test]
fn what_is_brought_within_bounds_lies_there() {
    for x in samples() {
        if !x.is_nan() {
            let within = double(x).clamped(double(0.01), double(10.0));
            assert!(double(0.01).at_most(within) && within.at_most(double(10.0)), "{x}");
        }
    }
}

#[test]
fn equality_is_that_of_the_hardware() {
    let samples = samples();
    for x in &samples {
        for y in &samples {
            assert_eq!(double(*x) == double(*y), x == y, "{x} {y}");
        }
    }
    assert!(double(0.0) == double(-0.0));
    assert!(double(f64::NAN) != double(f64::NAN));
}
