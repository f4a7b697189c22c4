//! JSON parsing and lookup.

use sortyard::double::Double;
use sortyard::json::{lookup, parse, Json};

fn path(p: &str) -> Vec<String> {
    p.split('.').map(str::to_string).collect()
}

fn num(n: f64) -> Json {
    Json::Num(Double { bits: n.to_bits() })
}

#[test]
fn parses_scalars_and_nested_structures() {
    assert_eq!(parse("null").unwrap(), Json::Null);
    assert_eq!(parse("true").unwrap(), Json::Bool(true));
    assert_eq!(parse("-12.5e2").unwrap(), num(-1250.0));
    assert_eq!(parse("\"hi\"").unwrap(), Json::Str("hi".into()));
    let v = parse(r#"{"a": [1, {"b": null}], "c": {}}"#).unwrap();
    match v {
        Json::Obj(m) => assert_eq!(m.len(), 2),
        other => panic!("expected object, got {other:?}"),
    }
}

#[test]
fn string_escapes_unicode_and_raw_multibyte_decode() {
    let v = parse(r#""line\nquote\"tab\t\\""#).unwrap();
    assert_eq!(v, Json::Str("line\nquote\"tab\t\\".into()));
    assert_eq!(parse(r#""é""#).unwrap(), Json::Str("é".into()));
    assert_eq!(
        parse(r#""😀""#).unwrap(),
        Json::Str("😀".into()),
        "surrogate pairs must combine"
    );
    assert_eq!(parse("\"日本語\"").unwrap(), Json::Str("日本語".into()));
    assert!(parse(r#""\ud83d""#).is_err(), "lone surrogate must fail");
}

#[test]
fn number_grammar_is_strict() {
    assert!(parse("01").is_err(), "leading zeros are invalid JSON");
    assert!(parse("1.").is_err());
    assert!(parse(".5").is_err());
    assert!(parse("1e").is_err());
    assert!(parse("+1").is_err());
    assert_eq!(parse("0.5e+1").unwrap(), num(5.0));
}

#[test]
fn trailing_content_is_rejected_and_errors_carry_offsets() {
    assert!(parse("{} {}").is_err());
    assert!(parse("1,").is_err());
    let e = parse(r#"{"a": }"#).unwrap_err();
    assert!(e.contains("at byte 6"), "got: {e}");
}

#[test]
fn depth_guard_rejects_nesting_bombs() {
    let bomb = "[".repeat(4096) + &"]".repeat(4096);
    let e = parse(&bomb).unwrap_err();
    assert!(e.contains("nesting too deep"), "got: {e}");
}

#[test]
fn lookup_walks_objects_and_arrays() {
    let v = parse(r#"{"user": {"tags": ["vip", "beta"], "id": 7}}"#).unwrap();
    assert_eq!(lookup(&v, &path("user.id")), Some(&num(7.0)));
    assert_eq!(
        lookup(&v, &path("user.tags.1")),
        Some(&Json::Str("beta".into()))
    );
    // An object key that *looks* numeric must match by name.
    let v = parse(r#"{"0": "zero"}"#).unwrap();
    assert_eq!(lookup(&v, &path("0")), Some(&Json::Str("zero".into())));
}

#[test]
fn lookup_edge_cases_are_predictable() {
    let v = parse(r#"{"a": {"b": 1}}"#).unwrap();
    assert_eq!(lookup(&v, &path("a.c")), None);
    assert_eq!(
        lookup(&v, &path("a.b.c")),
        None,
        "cannot descend into a number"
    );
    assert_eq!(lookup(&v, &path("x")), None);
    let dup = parse(r#"{"k": 1, "k": 2}"#).unwrap();
    assert_eq!(
        lookup(&dup, &path("k")),
        Some(&num(1.0)),
        "duplicate keys resolve to the first"
    );
}

#[test]
fn escapes_decode_to_the_characters_they_name() {
    assert_eq!(
        parse("\"\\u00e9\\ud83d\\ude00\\u0041\\/\\b\\f\\r\"").unwrap(),
        Json::Str("é😀A/\u{8}\u{c}\r".into())
    );
    assert_eq!(parse("\"\\uFFFF\\u0000\"").unwrap(), Json::Str("\u{ffff}\0".into()));
}

#[test]
fn arrays_nest_up_to_the_limit() {
    let fits = "[".repeat(129) + &"]".repeat(129);
    assert!(parse(&fits).is_ok());
    let deeper = "[".repeat(130) + &"]".repeat(130);
    assert_eq!(parse(&deeper).unwrap_err(), "nesting too deep at byte 129");
}

#[test]
fn each_json_error_names_its_byte() {
    let cases = [
        ("", "unexpected end of input at byte 0"),
        ("  ", "unexpected end of input at byte 2"),
        ("?", "unexpected character at byte 0"),
        ("tru", "invalid literal at byte 0"),
        ("nul!", "invalid literal at byte 0"),
        ("1 2", "trailing content after JSON value at byte 2"),
        ("-", "invalid number at byte 1"),
        ("-x", "invalid number at byte 1"),
        ("1.x", "invalid number at byte 2"),
        ("1e+", "invalid number at byte 3"),
        ("[1 2]", "expected ',' or ']' in array at byte 3"),
        ("{\"a\":1 ;}", "expected ',' or '}' in object at byte 7"),
        ("{\"a\" 1}", "expected ':' at byte 5"),
        ("{1:2}", "expected '\"' at byte 1"),
        ("{\"a\":1,}", "expected '\"' at byte 7"),
        ("[1,]", "unexpected character at byte 3"),
        ("\"ab", "unterminated string at byte 3"),
        ("\"é", "unterminated string at byte 3"),
        ("\"日本\u{1}\"", "raw control character in string at byte 7"),
        ("\"\\x\"", "invalid escape at byte 2"),
        ("\"\\", "invalid escape at byte 2"),
        ("\"\\u12\"", "truncated \\u escape at byte 3"),
        ("\"\\u12g4\"", "invalid \\u escape at byte 3"),
        ("\"\\u1é\"", "invalid \\u escape at byte 3"),
        ("\"\\u+123\"", "invalid \\u escape at byte 3"),
        ("\"\\udc00\"", "invalid \\u escape at byte 7"),
        ("\"\\ud800\"", "lone high surrogate at byte 7"),
        ("\"\\ud800\\u0041\"", "invalid low surrogate at byte 13"),
        ("\"\\ud800\\u00\"", "truncated \\u escape at byte 9"),
    ];
    for (input, message) in cases {
        assert_eq!(parse(input).unwrap_err(), message, "{input:?}");
    }
}

#[test]
fn lookup_indices_stay_in_range() {
    let v = parse("[10, [20]]").unwrap();
    assert_eq!(lookup(&v, &path("1.0")), Some(&num(20.0)));
    assert_eq!(lookup(&v, &path("2")), None);
    assert_eq!(lookup(&v, &path("x")), None);
    assert_eq!(lookup(&v, &path("99999999999999999999")), None);
    assert_eq!(lookup(&v, &[]), Some(&v));
    assert_eq!(v.clone(), v);
    let o = parse("{\"a\": [null, {\"b\": \"c\"}], \"d\": false}").unwrap();
    assert_eq!(o.clone(), o);
}

#[test]
fn white_space_may_stand_between_tokens() {
    assert_eq!(
        parse(" \t\r\n{ \"a\" : [ 1 , 2 ] , \"b\" : { } } \n").unwrap(),
        parse("{\"a\":[1,2],\"b\":{}}").unwrap()
    );
}

#[test]
fn numbers_in_a_document_are_never_nan() {
    for text in ["NaN", "nan", "-NaN", "[NaN]", "Infinity", "-inf"] {
        assert!(parse(text).is_err(), "{text}");
    }
    assert_eq!(parse("1e400").unwrap(), num(f64::INFINITY));
    assert_eq!(parse("[-0.0]").unwrap(), Json::Arr(vec![num(-0.0)]));
}

#[test]
fn array_segments_are_digits_only() {
    let v = parse("[10, [20, 30]]").unwrap();
    assert_eq!(lookup(&v, &path("+0")), None);
    assert_eq!(lookup(&v, &path("-0")), None);
    assert_eq!(lookup(&v, &path("00")), Some(&num(10.0)));
    assert_eq!(lookup(&v, &path("1.+1")), None);
}

#[test]
fn a_joined_path_is_two_lookups() {
    let v = parse(r#"{"a": [{"b": {"c": 5}}]}"#).unwrap();
    for (first, rest) in [("a", "0.b.c"), ("a.0", "b.c"), ("a.0.b", "c"), ("a", "x"), ("x", "a")] {
        let joined = format!("{first}.{rest}");
        let in_turn = lookup(&v, &path(first)).and_then(|w| lookup(w, &path(rest)));
        assert_eq!(lookup(&v, &path(&joined)), in_turn, "{joined}");
    }
}

#[test]
fn strings_read_back_however_they_are_spelled() {
    let texts = ["", "plain", "a\"b\\c/d", "\u{0}\u{1f}\u{7f}", "é日😀\u{10ffff}", "\u{ffff}\n\t"];
    for t in texts {
        let mut short = String::from("\"");
        let mut long = String::from("\"");
        for c in t.chars() {
            match c {
                '"' => short.push_str("\\\""),
                '\\' => short.push_str("\\\\"),
                '\n' => short.push_str("\\n"),
                '\t' => short.push_str("\\t"),
                c if c < ' ' => short.push_str(&format!("\\u{:04X}", u32::from(c))),
                c => short.push(c),
            }
            let mut units = [0u16; 2];
            for unit in c.encode_utf16(&mut units) {
                long.push_str(&format!("\\u{unit:04x}"));
            }
        }
        short.push('"');
        long.push('"');
        assert_eq!(parse(&short).unwrap(), Json::Str(t.to_string()));
        assert_eq!(parse(&long).unwrap(), Json::Str(t.to_string()));
    }
}
