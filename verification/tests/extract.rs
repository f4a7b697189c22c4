//! Key extraction from CSV and JSONL records.

use sortyard::extract::{Extractor, Format};
use sortyard::keyspec::parse_keyspec;
use sortyard::value::MissingOrder;

fn csv_extractor(specs: &[&str], header: &str) -> Extractor {
    let specs = specs.iter().map(|s| parse_keyspec(s).unwrap()).collect();
    let mut ex = Extractor::new(Format::Csv, specs, b',', MissingOrder::Last, false, false);
    ex.resolve_csv_header(header.as_bytes()).unwrap();
    ex
}

fn jsonl_extractor(specs: &[&str], lenient: bool) -> Extractor {
    let specs = specs.iter().map(|s| parse_keyspec(s).unwrap()).collect();
    Extractor::new(
        Format::Jsonl,
        specs,
        b',',
        MissingOrder::Last,
        lenient,
        false,
    )
}

#[test]
fn csv_numeric_keys_order_by_magnitude_quoted_or_not() {
    let ex = csv_extractor(&["price:num"], "id,price");
    let cheap = ex.key_for(b"1,9.5").unwrap();
    let pricey = ex.key_for(b"2,80").unwrap();
    assert!(
        cheap < pricey,
        "9.5 must sort below 80 (bytewise it would not)"
    );
    let quoted = ex.key_for(b"1,\"42\"").unwrap();
    let bare = ex.key_for(b"2,42").unwrap();
    assert_eq!(quoted, bare, "quoting must not change the key");
}

#[test]
fn csv_empty_and_absent_fields_are_missing() {
    let ex = csv_extractor(&["price:num"], "id,price");
    let empty = ex.key_for(b"1,").unwrap();
    let absent = ex.key_for(b"1").unwrap();
    assert_eq!(empty, absent);
    let present = ex.key_for(b"1,0").unwrap();
    assert!(present < empty, "missing-last: values sort before missing");
}

#[test]
fn parse_errors_name_the_field_unless_lenient() {
    let ex = csv_extractor(&["price:num"], "id,price");
    let e = ex.key_for(b"1,twelve").unwrap_err();
    assert!(e.contains("field 'price'"), "got: {e}");
    assert!(e.contains("twelve"), "got: {e}");
    // --lenient downgrades the same failure to a missing key.
    let specs = vec![parse_keyspec("price:num").unwrap()];
    let mut lenient = Extractor::new(Format::Csv, specs, b',', MissingOrder::Last, true, false);
    lenient.resolve_csv_header(b"id,price").unwrap();
    let bad = lenient.key_for(b"1,twelve").unwrap();
    let missing = lenient.key_for(b"1,").unwrap();
    assert_eq!(bad, missing);
}

#[test]
fn ci_flag_folds_ascii_case() {
    let ex = csv_extractor(&["city:ci"], "id,city");
    assert_eq!(
        ex.key_for(b"1,Tokyo").unwrap(),
        ex.key_for(b"2,tokyo").unwrap()
    );
}

#[test]
fn multi_column_keys_break_ties_in_spec_order() {
    let ex = csv_extractor(&["qty:num", "id"], "id,qty");
    let a = ex.key_for(b"b,5").unwrap();
    let b = ex.key_for(b"a,7").unwrap();
    let c = ex.key_for(b"z,7").unwrap();
    assert!(a < b, "qty decides first");
    assert!(b < c, "id breaks the tie");
}

#[test]
fn no_key_specs_compare_the_whole_record() {
    let ex = Extractor::new(
        Format::Csv,
        Vec::new(),
        b',',
        MissingOrder::Last,
        false,
        false,
    );
    assert!(ex.key_for(b"apple,1").unwrap() < ex.key_for(b"pear,0").unwrap());
}

#[test]
fn reverse_inverts_the_whole_ordering() {
    let specs = vec![parse_keyspec("price:num").unwrap()];
    let mut ex = Extractor::new(Format::Csv, specs, b',', MissingOrder::Last, false, true);
    ex.resolve_csv_header(b"id,price").unwrap();
    let low = ex.key_for(b"1,1").unwrap();
    let high = ex.key_for(b"2,2").unwrap();
    assert!(high < low, "reverse: larger values sort first");
}

#[test]
fn jsonl_nested_paths_and_array_indices_resolve() {
    let ex = jsonl_extractor(&["user.scores.1:num"], false);
    let lo = ex.key_for(br#"{"user": {"scores": [9, 1]}}"#).unwrap();
    let hi = ex.key_for(br#"{"user": {"scores": [0, 2]}}"#).unwrap();
    assert!(lo < hi, "the second array element is the key");
}

#[test]
fn jsonl_null_and_absent_both_mean_missing() {
    let ex = jsonl_extractor(&["score:num"], false);
    let null = ex.key_for(br#"{"score": null}"#).unwrap();
    let absent = ex.key_for(br#"{"other": 1}"#).unwrap();
    assert_eq!(null, absent);
}

#[test]
fn jsonl_date_keys_accept_iso_strings_and_epoch_seconds() {
    let ex = jsonl_extractor(&["ts:date"], false);
    let from_string = ex.key_for(br#"{"ts": "1970-01-02T00:00:00Z"}"#).unwrap();
    let from_number = ex.key_for(br#"{"ts": 86400}"#).unwrap();
    assert_eq!(from_string, from_number);
}

#[test]
fn jsonl_str_keys_render_scalars_like_json_does() {
    let ex = jsonl_extractor(&["v"], false);
    assert_eq!(
        ex.key_for(br#"{"v": 7}"#).unwrap(),
        ex.key_for(br#"{"v": "7"}"#).unwrap()
    );
    assert_eq!(
        ex.key_for(br#"{"v": true}"#).unwrap(),
        ex.key_for(br#"{"v": "true"}"#).unwrap()
    );
}

#[test]
fn jsonl_bad_data_is_described() {
    let ex = jsonl_extractor(&["tags:num"], false);
    let e = ex.key_for(br#"{"tags": ["a"]}"#).unwrap_err();
    assert!(e.contains("JSON array as num"), "got: {e}");
    let ex = jsonl_extractor(&["a"], false);
    let e = ex.key_for(b"{broken").unwrap_err();
    assert!(e.contains("invalid JSON"), "got: {e}");
}

#[test]
fn reverse_flips_missing_placement_too() {
    let specs = vec![parse_keyspec("price:num").unwrap()];
    let mut ex = Extractor::new(Format::Csv, specs, b',', MissingOrder::Last, false, true);
    ex.resolve_csv_header(b"id,price").unwrap();
    assert!(ex.key_for(b"1,").unwrap() < ex.key_for(b"2,2").unwrap());
}

#[test]
fn whole_records_are_text_keys() {
    let plain = Extractor::new(Format::Jsonl, Vec::new(), b',', MissingOrder::Last, false, false);
    assert_eq!(plain.key_for(b"a\xffz").unwrap(), "\u{40}a\u{fffd}z\0\0".as_bytes());
    let turned = Extractor::new(Format::Jsonl, Vec::new(), b',', MissingOrder::Last, false, true);
    assert!(turned.key_for(b"ab").unwrap() < turned.key_for(b"a").unwrap());
    assert!(turned.key_for(b"b").unwrap() < turned.key_for(b"ab").unwrap());
}

#[test]
fn lenient_jsonl_treats_bad_values_as_missing() {
    let ex = jsonl_extractor(&["v:num", "w:date"], true);
    let missing = ex.key_for(b"{}").unwrap();
    assert_eq!(ex.key_for(br#"{"v": [1], "w": {}}"#).unwrap(), missing);
    assert_eq!(ex.key_for(br#"{"v": "x", "w": "y"}"#).unwrap(), missing);
    assert_eq!(ex.key_for(br#"{"v": true, "w": false}"#).unwrap(), missing);
    // A record that is no JSON at all is an error all the same.
    assert!(ex.key_for(b"{").is_err());
}

#[test]
fn jsonl_errors_are_exact() {
    let ex = jsonl_extractor(&["v:num"], false);
    let cases: [(&[u8], &str); 6] = [
        (br#"{"v": true}"#, "field 'v': cannot read a JSON boolean as num"),
        (br#"{"v": []}"#, "field 'v': cannot read a JSON array as num"),
        (br#"{"v": {}}"#, "field 'v': cannot read a JSON object as num"),
        (br#"{"v": "x"}"#, "field 'v': cannot parse \"x\" as a number"),
        (b"{} x", "invalid JSON: trailing content after JSON value at byte 3"),
        (b"{\"v\": \"\xff\"}", "invalid UTF-8"),
    ];
    for (raw, message) in cases {
        assert_eq!(ex.key_for(raw).unwrap_err(), message);
    }
    let dates = jsonl_extractor(&["v:date"], false);
    assert_eq!(
        dates.key_for(br#"{"v": 9e12}"#).unwrap_err(),
        "field 'v': 9000000000000 is out of range for an epoch date"
    );
    assert_eq!(
        dates.key_for(br#"{"v": -1e400}"#).unwrap_err(),
        "field 'v': -inf is out of range for an epoch date"
    );
    let texts = jsonl_extractor(&["v"], false);
    assert_eq!(
        texts.key_for(br#"{"v": []}"#).unwrap_err(),
        "field 'v': cannot read a JSON array as str"
    );
}

#[test]
fn numbers_under_a_str_key_read_like_written_numbers() {
    let ex = jsonl_extractor(&["v"], false);
    for (number, text) in [
        ("7.0", "7"),
        ("-0.0", "0"),
        ("1e3", "1000"),
        ("0.1", "0.1"),
        ("1e-7", "0.0000001"),
        ("-12.5e1", "-125"),
    ] {
        assert_eq!(
            ex.key_for(format!("{{\"v\": {number}}}").as_bytes()).unwrap(),
            ex.key_for(format!("{{\"v\": \"{text}\"}}").as_bytes()).unwrap(),
            "{number}"
        );
    }
}

#[test]
fn epoch_seconds_keep_their_fraction() {
    let ex = jsonl_extractor(&["ts:date"], false);
    assert_eq!(
        ex.key_for(br#"{"ts": 0.25}"#).unwrap(),
        ex.key_for(br#"{"ts": "1970-01-01T00:00:00.25Z"}"#).unwrap()
    );
    assert_eq!(
        ex.key_for(br#"{"ts": -1.5}"#).unwrap(),
        ex.key_for(br#"{"ts": "1969-12-31T23:59:58.5Z"}"#).unwrap()
    );
}

#[test]
fn ci_folds_ascii_letters_only() {
    let ex = jsonl_extractor(&["v:ci"], false);
    assert_eq!(
        ex.key_for("{\"v\": \"ÉA\"}".as_bytes()).unwrap(),
        ex.key_for("{\"v\": \"Éa\"}".as_bytes()).unwrap()
    );
    assert_ne!(
        ex.key_for("{\"v\": \"É\"}".as_bytes()).unwrap(),
        ex.key_for("{\"v\": \"é\"}".as_bytes()).unwrap()
    );
}

#[test]
fn headerless_columns_resolve_by_number() {
    let specs = vec![parse_keyspec("2:num").unwrap()];
    let mut ex = Extractor::new(Format::Csv, specs, b';', MissingOrder::Last, false, false);
    ex.resolve_csv_headerless().unwrap();
    assert!(ex.key_for(b"9;1").unwrap() < ex.key_for(b"1;2").unwrap());
    let specs = vec![parse_keyspec("2").unwrap(), parse_keyspec("x").unwrap()];
    let mut ex = Extractor::new(Format::Csv, specs, b';', MissingOrder::Last, false, false);
    assert_eq!(
        ex.resolve_csv_headerless().unwrap_err(),
        "key field 'x': with --no-header, keys must be 1-based column numbers"
    );
    assert_eq!(
        ex.resolve_csv_header(b"a;b;x;").map(|_| ()),
        Ok(())
    );
}

#[test]
fn format_names_are_exact() {
    assert_eq!(Format::Csv.name(), "csv");
    assert_eq!(Format::Jsonl.name(), "jsonl");
}
