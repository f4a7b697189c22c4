//! CSV records and fields.

use sortyard::csv::{split_fields, CsvReader};

fn records(input: &str) -> Vec<Vec<u8>> {
    let mut r = CsvReader::new(input.as_bytes(), b',');
    let mut out = Vec::new();
    while let Some(rec) = r.next_record().unwrap() {
        out.push(rec.bytes);
    }
    out
}

fn fields(raw: &str) -> Vec<String> {
    split_fields(raw.as_bytes(), b',')
}

#[test]
fn records_split_on_lf_crlf_and_missing_final_newline() {
    let expect = vec![b"a,b".to_vec(), b"c,d".to_vec()];
    assert_eq!(records("a,b\nc,d\n"), expect);
    assert_eq!(records("a,b\r\nc,d\r\n"), expect);
    assert_eq!(records("a,b\nc,d"), expect, "final record without newline");
}

#[test]
fn quoted_newlines_keep_the_record_together() {
    // This is the case that silently corrupts data under GNU sort.
    let recs = records("id,note\n1,\"line one\nline two\"\n2,plain\n");
    assert_eq!(recs.len(), 3);
    assert_eq!(recs[1], b"1,\"line one\nline two\"".to_vec());
    // CRLF inside the quotes is field content, preserved byte-for-byte.
    let recs = records("1,\"a\r\nb\"\r\n");
    assert_eq!(recs[0], b"1,\"a\r\nb\"".to_vec());
}

#[test]
fn doubled_quotes_do_not_end_the_field() {
    let recs = records("1,\"say \"\"hi\"\",ok\"\n2,x\n");
    assert_eq!(recs.len(), 2);
    assert_eq!(recs[0], b"1,\"say \"\"hi\"\",ok\"".to_vec());
}

#[test]
fn stray_quotes_in_unquoted_fields_stay_literal() {
    // `it"s` must not swallow the following newline into the record...
    let recs = records("1,it\"s fine\n2,next\n");
    assert_eq!(recs.len(), 2);
    // ...and the splitter must agree, keeping the quote as content.
    assert_eq!(fields("it\"s,fine"), vec!["it\"s", "fine"]);
}

#[test]
fn record_start_lines_are_tracked_across_quoted_newlines() {
    let mut r = CsvReader::new(b"a\n\"x\ny\"\nb\n".as_slice(), b',');
    let l1 = r.next_record().unwrap().unwrap().line;
    let l2 = r.next_record().unwrap().unwrap().line;
    let l3 = r.next_record().unwrap().unwrap().line;
    assert_eq!((l1, l2, l3), (1, 2, 4), "record 3 starts on line 4");
}

#[test]
fn unterminated_quote_is_an_error_with_line_number() {
    let mut r = CsvReader::new(b"ok\n2,\"broken\n".as_slice(), b',');
    r.next_record().unwrap();
    let e = r.next_record().unwrap_err();
    assert!(e.contains("line 2"), "got: {e}");
    assert!(e.contains("unterminated"), "got: {e}");
}

#[test]
fn split_decodes_quotes_delimiters_and_newlines() {
    assert_eq!(
        fields(r#"1,"Widget, large","say ""hi""""#),
        vec!["1", "Widget, large", "say \"hi\""]
    );
    assert_eq!(
        split_fields(b"1,\"line one\nline two\"", b','),
        vec!["1", "line one\nline two"]
    );
}

#[test]
fn split_keeps_empty_fields_and_honors_custom_delimiters() {
    assert_eq!(fields("a,,c,"), vec!["a", "", "c", ""]);
    assert_eq!(fields(""), vec![""]);
    assert_eq!(fields("\"\",b"), vec!["", "b"]);
    assert_eq!(
        split_fields(b"a\tb\t\"c\td\"", b'\t'),
        vec!["a", "b", "c\td"]
    );
}

#[test]
fn quoted_values_of_any_bytes_decode_to_themselves() {
    for value in ["", "\"", "a,b", "a\"\"b", "\n", "x\r\ny", "\",\"\n\"", "plain"] {
        let quoted = format!("\"{}\"", value.replace('"', "\"\""));
        let record = format!("first,{quoted},last");
        assert_eq!(fields(&record), vec!["first", value, "last"]);
        assert_eq!(records(&format!("{record}\nnext\n")).len(), 2, "{record:?}");
    }
}

#[test]
fn text_after_a_closing_quote_is_part_of_the_field() {
    assert_eq!(fields("\"ab\"cd,e"), vec!["abcd", "e"]);
    assert_eq!(fields("\"ab\"c\"d,e"), vec!["abc\"d", "e"]);
}

#[test]
fn a_carriage_return_goes_with_the_terminator_only() {
    assert_eq!(records("a\rb\r\r\nc\r"), vec![b"a\rb\r".to_vec(), b"c\r".to_vec()]);
    assert_eq!(records("a\r"), vec![b"a\r".to_vec()]);
    assert_eq!(records("\r"), vec![b"\r".to_vec()]);
    assert_eq!(records("\r\n"), vec![b"".to_vec()]);
    assert_eq!(records(""), Vec::<Vec<u8>>::new());
}

#[test]
fn invalid_utf8_is_replaced_in_the_extracted_copy_only() {
    assert_eq!(split_fields(b"a\xffb,c", b','), vec!["a\u{fffd}b", "c"]);
    let mut r = CsvReader::new(b"a\xffb,c\n".as_slice(), b',');
    assert_eq!(r.next_record().unwrap().unwrap().bytes, b"a\xffb,c".to_vec());
    assert_eq!(split_fields("é,日本".as_bytes(), b','), vec!["é", "日本"]);
}

#[test]
fn unterminated_quote_error_is_exact() {
    let mut r = CsvReader::new(b"\"a\nb".as_slice(), b',');
    assert_eq!(
        r.next_record().unwrap_err(),
        "line 1: unterminated quoted field at end of input"
    );
}

#[test]
fn lists_of_records_read_back_with_either_terminator() {
    let list: [&[u8]; 4] = [b"a,\"x\ny\"", b"", b"\"q\"\"\",", b"last"];
    for ends in [
        ["\n", "\n", "\n", "\n"],
        ["\r\n", "\n", "\r\n", ""],
        ["\r\n", "\r\n", "\r\n", "\r\n"],
    ] {
        let mut input = Vec::new();
        for (record, end) in list.iter().zip(ends) {
            input.extend_from_slice(record);
            input.extend_from_slice(end.as_bytes());
        }
        let mut r = CsvReader::new(input.as_slice(), b',');
        for record in list {
            assert_eq!(r.next_record().unwrap().unwrap().bytes, record);
        }
        assert!(r.next_record().unwrap().is_none());
        assert!(r.next_record().unwrap().is_none());
    }
}
