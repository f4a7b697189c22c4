//! Typed key values and their encoding.

use sortyard::double::Double;
use sortyard::value::{encode_into, parse_num, KeyType, KeyValue, MissingOrder};

fn num(n: f64) -> KeyValue {
    KeyValue::Num(Double { bits: n.to_bits() })
}

fn read_num(text: &str) -> Result<f64, String> {
    parse_num(text).map(|n| f64::from_bits(n.bits))
}

fn enc(v: &KeyValue, desc: bool, missing: MissingOrder) -> Vec<u8> {
    let mut out = Vec::new();
    encode_into(&mut out, v, desc, missing);
    out
}

fn enc_asc(v: &KeyValue) -> Vec<u8> {
    enc(v, false, MissingOrder::Last)
}

#[test]
fn num_encoding_orders_the_whole_float_line() {
    let values = [
        f64::NEG_INFINITY,
        -1e300,
        -2.5,
        -0.5,
        0.0,
        0.25,
        3.0,
        1e300,
        f64::INFINITY,
    ];
    for pair in values.windows(2) {
        let a = enc_asc(&num(pair[0]));
        let b = enc_asc(&num(pair[1]));
        assert!(a < b, "{} should encode below {}", pair[0], pair[1]);
    }
    assert_eq!(
        enc_asc(&num(42.0)),
        enc_asc(&num(42.0)),
        "equal numbers must encode byte-identically"
    );
}

#[test]
fn date_encoding_orders_across_epoch() {
    let before = enc_asc(&KeyValue::Date(-86_400_000));
    let epoch = enc_asc(&KeyValue::Date(0));
    let after = enc_asc(&KeyValue::Date(86_400_000));
    assert!(before < epoch && epoch < after);
}

#[test]
fn str_encoding_is_lexicographic_prefix_safe_and_nul_safe() {
    let a = enc_asc(&KeyValue::Str("a".into()));
    let ab = enc_asc(&KeyValue::Str("ab".into()));
    let b = enc_asc(&KeyValue::Str("b".into()));
    assert!(a < ab, "prefix must sort before its extension");
    assert!(ab < b);
    // "a" < "a\0" < "a\x01": the 0x00-escape must not reorder around the
    // terminator or around small real bytes.
    let a_nul = enc_asc(&KeyValue::Str("a\0".into()));
    let a_one = enc_asc(&KeyValue::Str("a\x01".into()));
    assert!(a < a_nul && a_nul < a_one);
}

#[test]
fn desc_flag_reverses_numbers_and_string_prefix_pairs() {
    let two = enc(&num(2.0), true, MissingOrder::Last);
    let ten = enc(&num(10.0), true, MissingOrder::Last);
    assert!(ten < two, "descending: 10 must sort before 2");
    let a = enc(&KeyValue::Str("a".into()), true, MissingOrder::Last);
    let ab = enc(&KeyValue::Str("ab".into()), true, MissingOrder::Last);
    assert!(ab < a, "descending: the longer extension must come first");
}

#[test]
fn missing_placement_is_absolute() {
    // First: below -inf. Last: above +inf. And desc inverts value bytes
    // only, so a missing part stays pinned wherever it was placed.
    let missing_first = enc(&KeyValue::Missing, false, MissingOrder::First);
    let lowest = enc(&num(f64::NEG_INFINITY), false, MissingOrder::First);
    assert!(missing_first < lowest);
    let missing_last = enc(&KeyValue::Missing, false, MissingOrder::Last);
    let highest = enc(&num(f64::INFINITY), false, MissingOrder::Last);
    assert!(missing_last > highest);
    let missing_desc = enc(&KeyValue::Missing, true, MissingOrder::Last);
    let present_desc = enc(&num(-1e300), true, MissingOrder::Last);
    assert!(missing_desc > present_desc);
}

#[test]
fn multi_part_keys_compare_part_by_part() {
    // ("a", 2) vs ("ab", 1): the first part must decide even though the
    // second part of the shorter key holds a larger number.
    let mut short = Vec::new();
    encode_into(&mut short, &KeyValue::Str("a".into()), false, MissingOrder::Last);
    encode_into(&mut short, &num(2.0), false, MissingOrder::Last);
    let mut long = Vec::new();
    encode_into(&mut long, &KeyValue::Str("ab".into()), false, MissingOrder::Last);
    encode_into(&mut long, &num(1.0), false, MissingOrder::Last);
    assert!(short < long);
}

#[test]
fn parse_num_accepts_export_shapes_and_rejects_junk() {
    assert_eq!(read_num(" 42 ").unwrap(), 42.0);
    assert_eq!(read_num("-0.5").unwrap(), -0.5);
    assert_eq!(read_num("1e3").unwrap(), 1000.0);
    assert!(read_num("12,50").is_err(), "locale commas are not numbers");
    assert!(read_num("abc").is_err());
    assert!(
        read_num("NaN").is_err(),
        "NaN has no place in a total order"
    );
    assert!(read_num("").is_err());
}

#[test]
fn key_type_parses_aliases() {
    assert_eq!("string".parse::<KeyType>().unwrap(), KeyType::Str);
    assert_eq!("number".parse::<KeyType>().unwrap(), KeyType::Num);
    assert_eq!("datetime".parse::<KeyType>().unwrap(), KeyType::Date);
    assert!("float".parse::<KeyType>().is_err());
}

#[test]
fn key_type_names_and_errors_are_exact() {
    assert_eq!(KeyType::Str.name(), "str");
    assert_eq!(KeyType::Num.name(), "num");
    assert_eq!(KeyType::Date.name(), "date");
    assert_eq!("time".parse::<KeyType>().unwrap(), KeyType::Date);
    assert_eq!(
        KeyType::from_name("float").unwrap_err(),
        "unknown key type 'float' (expected str, num or date)"
    );
}

#[test]
fn encodings_have_the_documented_bytes() {
    assert_eq!(enc_asc(&KeyValue::Missing), vec![0xfe]);
    assert_eq!(enc(&KeyValue::Missing, true, MissingOrder::First), vec![0x01]);
    assert_eq!(
        enc_asc(&KeyValue::Str("a\0b".into())),
        vec![0x40, b'a', 0x00, 0x01, b'b', 0x00, 0x00]
    );
    assert_eq!(
        enc(&KeyValue::Str("a".into()), true, MissingOrder::Last),
        vec![0x40, !b'a', 0xff, 0xff]
    );
    assert_eq!(
        enc_asc(&KeyValue::Date(1)),
        vec![0x40, 0x80, 0, 0, 0, 0, 0, 0, 1]
    );
    assert_eq!(
        enc_asc(&KeyValue::Date(-1)),
        vec![0x40, 0x7f, 0xff, 0xff, 0xff, 0xff, 0xff, 0xff, 0xff]
    );
    assert_eq!(
        enc_asc(&num(1.0)),
        vec![0x40, 0xbf, 0xf0, 0, 0, 0, 0, 0, 0]
    );
    assert_eq!(
        enc_asc(&num(-1.0)),
        vec![0x40, 0x40, 0x0f, 0xff, 0xff, 0xff, 0xff, 0xff, 0xff]
    );
    // The two zeros are one number.
    assert_eq!(enc_asc(&num(-0.0)), vec![0x40, 0x80, 0, 0, 0, 0, 0, 0, 0]);
    assert_eq!(enc_asc(&num(-0.0)), enc_asc(&num(0.0)));
    assert_eq!(
        enc(&num(-0.0), true, MissingOrder::First),
        enc(&num(0.0), true, MissingOrder::First)
    );
    assert!(enc_asc(&num(-5e-324)) < enc_asc(&num(0.0)));
    assert!(enc_asc(&num(-0.0)) < enc_asc(&num(5e-324)));
    assert_eq!(num(-0.0), num(0.0));
    assert_ne!(num(f64::NAN), num(f64::NAN));
}

#[test]
fn typed_parsing_covers_each_type_and_error() {
    assert_eq!(
        KeyValue::parse_typed(" x ", KeyType::Str).unwrap(),
        KeyValue::Str(" x ".into())
    );
    assert_eq!(KeyValue::parse_typed(" -inf", KeyType::Num).unwrap(), num(f64::NEG_INFINITY));
    assert_eq!(
        KeyValue::parse_typed(" 1970-01-02 ", KeyType::Date).unwrap(),
        KeyValue::Date(86_400_000)
    );
    assert_eq!(
        KeyValue::parse_typed(" 1\"x ", KeyType::Num).unwrap_err(),
        "cannot parse \"1\\\"x\" as a number"
    );
    assert_eq!(parse_num("-NAN").unwrap_err(), "NaN is not sortable");
    assert_eq!(
        KeyValue::parse_typed("soon", KeyType::Date).unwrap_err(),
        "cannot parse \"soon\" as a date"
    );
    let v = KeyValue::Str("copy".into());
    assert_eq!(v.clone(), v);
}
