//! Key specifications and columns.

use sortyard::keyspec::{parse_keyspec, resolve_csv_column, resolve_csv_index, ColRef};
use sortyard::value::KeyType;

#[test]
fn bare_field_defaults_to_ascending_str() {
    let k = parse_keyspec("name").unwrap();
    assert_eq!(k.field, "name");
    assert_eq!(k.ty, KeyType::Str);
    assert!(!k.desc);
    assert!(!k.ci);
}

#[test]
fn type_and_flags_combine_in_any_order() {
    let a = parse_keyspec("price:num:desc").unwrap();
    let b = parse_keyspec("price:desc:num").unwrap();
    assert_eq!(a, b);
    assert_eq!(a.ty, KeyType::Num);
    assert!(a.desc);
}

#[test]
fn ci_flag_applies_to_str_keys_only() {
    let k = parse_keyspec("city:ci").unwrap();
    assert!(k.ci);
    assert_eq!(k.ty, KeyType::Str);
    let e = parse_keyspec("price:num:ci").unwrap_err();
    assert!(e.contains("only applies to str"), "got: {e}");
}

#[test]
fn dotted_paths_stay_in_the_field_part() {
    let k = parse_keyspec("user.address.city:desc").unwrap();
    assert_eq!(k.field, "user.address.city");
    assert_eq!(k.path(), vec!["user", "address", "city"]);
    assert!(k.desc);
}

#[test]
fn invalid_specs_are_rejected_with_guidance() {
    let e = parse_keyspec("x:num:date").unwrap_err();
    assert!(e.contains("conflicting types"), "got: {e}");
    let e = parse_keyspec("x:reverse").unwrap_err();
    assert!(e.contains("unknown modifier 'reverse'"), "got: {e}");
    assert!(e.contains("desc"), "the error should teach the fix: {e}");
    assert!(parse_keyspec("").is_err());
    assert!(parse_keyspec(":num").is_err());
}

#[test]
fn header_names_win_over_numeric_interpretation() {
    // A header literally named "2" must resolve by name, not position;
    // a selector matching no header falls back to a 1-based index.
    let header = vec!["a".to_string(), "b".to_string(), "2".to_string()];
    assert_eq!(resolve_csv_column("2", &header).unwrap(), ColRef::Index(2));
    assert_eq!(resolve_csv_column("b", &header).unwrap(), ColRef::Index(1));
    assert_eq!(resolve_csv_column("1", &header).unwrap(), ColRef::Index(0));
    assert!(
        resolve_csv_column("0", &header).is_err(),
        "columns are 1-based"
    );
}

#[test]
fn missing_header_names_list_the_candidates() {
    let header = vec!["id".to_string(), "price".to_string()];
    let e = resolve_csv_column("cost", &header).unwrap_err();
    assert!(e.contains("'cost' not found"), "got: {e}");
    assert!(e.contains("id, price"), "got: {e}");
}

#[test]
fn headerless_mode_requires_numeric_selectors() {
    assert_eq!(resolve_csv_index("3").unwrap(), ColRef::Index(2));
    let e = resolve_csv_index("name").unwrap_err();
    assert!(e.contains("--no-header"), "got: {e}");
}

#[test]
fn the_later_direction_wins_and_aliases_count() {
    assert!(!parse_keyspec("x:desc:asc").unwrap().desc);
    assert!(parse_keyspec("x:ascending:descending").unwrap().desc);
    assert_eq!(parse_keyspec("x:time").unwrap().ty, KeyType::Date);
    let k = parse_keyspec("a.b:ci:desc:string").unwrap();
    assert_eq!(k.clone(), k);
    assert_eq!(parse_keyspec("a..b").unwrap().path(), vec!["a", "", "b"]);
}

#[test]
fn key_spec_errors_are_exact() {
    assert_eq!(
        parse_keyspec(":num").unwrap_err(),
        "key spec ':num': empty field selector"
    );
    assert_eq!(
        parse_keyspec("x:num:date").unwrap_err(),
        "key spec 'x:num:date': conflicting types 'num' and 'date'"
    );
    assert_eq!(
        parse_keyspec("x:").unwrap_err(),
        "key spec 'x:': unknown modifier '' (expected a type: str, num, date; or a flag: desc, asc, ci)"
    );
    assert_eq!(
        parse_keyspec("x:ci:date").unwrap_err(),
        "key spec 'x:ci:date': 'ci' only applies to str keys, not date"
    );
}

#[test]
fn column_errors_are_exact() {
    let header = vec!["id".to_string(), "price".to_string()];
    assert_eq!(
        resolve_csv_column("cost", &header).unwrap_err(),
        "key field 'cost' not found in header (id, price)"
    );
    assert_eq!(
        resolve_csv_column("+1", &header).unwrap_err(),
        "key field '+1' not found in header (id, price)"
    );
    assert_eq!(
        resolve_csv_column("0", &header).unwrap_err(),
        "key field '0': columns are numbered from 1"
    );
    assert_eq!(
        resolve_csv_index("0").unwrap_err(),
        "key field '0': columns are numbered from 1"
    );
    assert_eq!(
        resolve_csv_index("x").unwrap_err(),
        "key field 'x': with --no-header, keys must be 1-based column numbers"
    );
    assert_eq!(resolve_csv_column("7", &header).unwrap(), ColRef::Index(6));
    assert_eq!(resolve_csv_index("+2").unwrap(), ColRef::Index(1));
    assert_eq!(
        resolve_csv_column("99999999999999999999", &[]).unwrap_err(),
        "key field '99999999999999999999' not found in header ()"
    );
}
