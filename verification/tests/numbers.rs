//! Double-precision numbers, read and written like the machine's own.

use sortyard::double::Double;
use sortyard::value::parse_num;

fn read(text: &str) -> Option<u64> {
    let chars: Vec<char> = text.chars().collect();
    Double::read(&chars).map(|d| d.bits)
}

fn agree(text: &str) {
    let expected = text.parse::<f64>().ok();
    match (read(text), expected) {
        (Some(bits), Some(f)) if f.is_nan() => assert!(f64::from_bits(bits).is_nan(), "{text}"),
        (got, want) => assert_eq!(got, want.map(f64::to_bits), "{text}"),
    }
}

fn written(f: f64) -> String {
    Double { bits: f.to_bits() }.to_text()
}

fn next(state: &mut u64) -> u64 {
    *state ^= *state << 13;
    *state ^= *state >> 7;
    *state ^= *state << 17;
    *state
}

#[test]
fn decimal_texts_read_as_the_nearest_number() {
    for text in [
        "0", "-0", "+0.0", "1", "-1.5", "0.1", "0.3", "1e3", "1E-3", "1.e2", ".5", "-.5e1", "5.",
        "123456789012345678901234567890", "1e22", "1e23", "9007199254740993", "9007199254740992.5",
        "1.7976931348623157e308", "1.7976931348623159e308", "1e309", "-1e400", "2e-324", "3e-324",
        "4.9e-324", "2.2250738585072011e-308", "2.2250738585072014e-308", "1e-400",
        "0.000000000000000000000000000000000000000000001e50",
        "2.47032822920623272088284396434110686182e-324",
        "1e99999999999999999999", "1e-99999999999999999999", "0e99999999999999999999",
    ] {
        agree(text);
    }
}

#[test]
fn words_for_infinity_and_nan_read_in_any_case() {
    for text in ["inf", "-Inf", "+INFINITY", "infinity", "nan", "NaN", "-nan", "+NAN"] {
        agree(text);
    }
}

#[test]
fn texts_that_are_no_numbers_are_refused() {
    for text in [
        "", "+", "-", ".", "e5", ".e5", "1e", "1e+", "1 ", " 1", "0x10", "1_000", "1,5", "infinit",
        "nano", "--1", "+-1", "1e5.5", "1.2.3", "٣", "１",
    ] {
        agree(text);
        assert_eq!(read(text), None, "{text}");
    }
}

#[test]
fn random_decimal_texts_read_as_the_nearest_number() {
    let mut state: u64 = 0x9e3779b97f4a7c15;
    for _ in 0..400 {
        let digits = next(&mut state);
        let exponent = (next(&mut state) % 660) as i64 - 345;
        agree(&format!("{digits}e{exponent}"));
        agree(&format!("-{}.{digits}e{exponent}", digits % 1000));
    }
}

#[test]
fn halfway_texts_round_to_even() {
    // 2^53 + 1 and its neighbours lie halfway between two doubles.
    for n in 9007199254740990u64..9007199254741010 {
        agree(&format!("{n}"));
        agree(&format!("{n}.5"));
        agree(&format!("{n}.50000000000000000000000000000001"));
    }
}

#[test]
fn numbers_are_written_with_the_fewest_digits() {
    for f in [
        0.0, -0.0, 1.0, -2.5, 0.1, 1e15, 1e16, 1e21, 1.5e300, 1e-7, 5e-324, f64::MAX,
        f64::MIN_POSITIVE, 123456.789, f64::INFINITY, f64::NEG_INFINITY, f64::NAN, 9007199254740993.0,
    ] {
        assert_eq!(written(f), format!("{f}"));
    }
}

#[test]
fn random_numbers_are_written_and_read_back() {
    let mut state: u64 = 42;
    for _ in 0..150 {
        let f = f64::from_bits(next(&mut state));
        let text = written(f);
        assert_eq!(text, format!("{f}"));
        if !f.is_nan() {
            assert_eq!(read(&text), Some(f.to_bits()));
        }
    }
}

#[test]
fn json_texts_drop_the_fraction_of_whole_numbers() {
    for (f, text) in [
        (7.0, "7"),
        (-0.0, "0"),
        (999999999999999.0, "999999999999999"),
        (-123.0, "-123"),
        (1e15, "1000000000000000"),
        (0.5, "0.5"),
        (1e21, "1000000000000000000000"),
    ] {
        assert_eq!(Double { bits: f64::to_bits(f) }.to_json_text(), text);
    }
}

#[test]
fn seconds_become_whole_milliseconds() {
    let mut state: u64 = 7;
    let mut samples = vec![0.0, 1.5, -1.5, 0.0005, -0.0005, 1e12, 8.9e12, 9.0e12, -9.1e12, 1e300, 0.1];
    samples.push(f64::INFINITY);
    for _ in 0..300 {
        samples.push((next(&mut state) >> 20) as f64 / 4096.0);
        samples.push(f64::from_bits(next(&mut state)));
    }
    for s in samples {
        if s.is_nan() {
            continue;
        }
        let ms = s * 1000.0;
        let expected = if ms.is_finite() && ms.abs() < 9.0e15 {
            Some(ms as i64)
        } else {
            None
        };
        assert_eq!(Double { bits: s.to_bits() }.to_milliseconds(), expected, "{s}");
    }
}

#[test]
fn parsed_numbers_are_trimmed_first() {
    assert_eq!(parse_num("\u{a0}\t1.5\u{3000}").unwrap().bits, 1.5f64.to_bits());
    assert_eq!(
        parse_num("  a\tb ").unwrap_err(),
        "cannot parse \"a\\tb\" as a number"
    );
    assert!(Double { bits: f64::NAN.to_bits() }.not_a_number());
    assert!(!Double { bits: f64::INFINITY.to_bits() }.not_a_number());
}

#[test]
fn values_that_cannot_be_read_are_shown_as_they_stand() {
    assert_eq!(
        parse_num("12 apples (ripe), ~3/day").unwrap_err(),
        "cannot parse \"12 apples (ripe), ~3/day\" as a number"
    );
    assert_eq!(
        parse_num("say \"12\"").unwrap_err(),
        "cannot parse \"say \\\"12\\\"\" as a number"
    );
}
