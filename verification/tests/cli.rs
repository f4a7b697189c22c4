//! Options, format detection and reports.

use sortyard::cli::{
    check_report, configure, default_delim, detect_format, exit_code, input_file, parse_args,
    parse_delim, parse_size, stats_report, Ending, Options, Parsed,
};
use sortyard::extract::Format;
use sortyard::sorter::{CheckOutcome, Stats};
use sortyard::value::MissingOrder;

fn parse(args: &[&str]) -> Result<Parsed, String> {
    let owned: Vec<String> = args.iter().map(|s| s.to_string()).collect();
    parse_args(&owned)
}

fn parse_run(args: &[&str]) -> Options {
    match parse(args).unwrap() {
        Parsed::Run(o) => o,
        _ => panic!("expected a run"),
    }
}

#[test]
fn keys_accumulate_in_order() {
    let o = parse_run(&["-k", "price:num:desc", "--key", "id", "orders.csv"]);
    assert_eq!(o.keys.len(), 2);
    assert_eq!(o.keys[0].field, "price");
    assert!(o.keys[0].desc);
    assert_eq!(o.keys[1].field, "id");
    assert_eq!(o.file, Some(String::from("orders.csv")));
}

#[test]
fn equals_form_and_split_form_agree() {
    let a = parse_run(&["--mem=64M"]);
    let b = parse_run(&["--mem", "64M"]);
    assert_eq!(a.mem, b.mem);
    assert_eq!(a.mem, 64 << 20);
}

#[test]
fn dash_reads_stdin_and_double_dash_ends_options() {
    let o = parse_run(&["-"]);
    assert_eq!(o.file, Some(String::from("-")));
    let o = parse_run(&["--", "--weird-name.csv"]);
    assert_eq!(o.file, Some(String::from("--weird-name.csv")));
}

#[test]
fn invalid_argument_shapes_are_errors() {
    assert!(parse(&["--frobnicate"]).is_err(), "unknown option");
    assert!(parse(&["a.csv", "b.csv"]).is_err(), "one input only");
    assert!(parse(&["-k"]).is_err(), "missing value");
    assert!(parse(&["-k", "x:bogus"]).is_err(), "bad key spec");
    assert!(parse(&["--fan-in", "1"]).is_err(), "fan-in must be >= 2");
    assert_eq!(parse_run(&["--fan-in", "8"]).fan_in, 8);
    let e = parse(&["--stats=yes"]).unwrap_err();
    assert!(e.contains("does not take a value"), "got: {e}");
    assert!(
        parse(&["--check=1"]).is_err(),
        "boolean flags take no value"
    );
}

#[test]
fn check_conflicts_with_output() {
    let e = parse(&["--check", "-o", "out.csv"]).unwrap_err();
    assert!(e.contains("--check"), "got: {e}");
}

#[test]
fn size_suffixes_are_binary_and_junk_is_rejected() {
    assert_eq!(parse_size("1024").unwrap(), 1024);
    assert_eq!(parse_size("64K").unwrap(), 64 << 10);
    assert_eq!(parse_size("256M").unwrap(), 256 << 20);
    assert_eq!(parse_size("2g").unwrap(), 2 << 30);
    assert!(parse_size("0").is_err());
    assert!(parse_size("lots").is_err());
    assert!(parse_size("99999999999G").is_err());
}

#[test]
fn delimiters_accept_escapes_and_tsv_defaults_to_tab() {
    assert_eq!(parse_delim(",").unwrap(), b',');
    assert_eq!(parse_delim("\\t").unwrap(), b'\t');
    assert_eq!(parse_delim("tab").unwrap(), b'\t');
    assert_eq!(parse_delim("|").unwrap(), b'|');
    assert!(parse_delim("\"").is_err());
    assert!(parse_delim("ab").is_err());
    assert_eq!(default_delim(Some("tsv")), b'\t');
    assert_eq!(default_delim(Some("csv")), b',');
    assert_eq!(default_delim(None), b',');
}

#[test]
fn format_detection_prefers_extension_then_content_without_consuming() {
    let mut csvish: &[u8] = b"{not json extension}";
    assert_eq!(
        detect_format(Some("csv"), &mut csvish).unwrap(),
        Format::Csv
    );
    let mut json_body: &[u8] = b"  {\"a\": 1}\n";
    assert_eq!(detect_format(None, &mut json_body).unwrap(), Format::Jsonl);
    let mut empty: &[u8] = b"";
    assert_eq!(detect_format(None, &mut empty).unwrap(), Format::Csv);
    // Peeking must leave the stream untouched.
    let mut body: &[u8] = b"id\n1\n";
    assert_eq!(detect_format(None, &mut body).unwrap(), Format::Csv);
    let first = body.split_inclusive(|b| *b == b'\n').next().unwrap();
    assert_eq!(first, b"id\n", "the detected bytes must still be readable");
}

#[test]
fn options_default_to_the_documented_values() {
    let o = parse_run(&[]);
    assert!(o.keys.is_empty());
    assert_eq!(o.format, None);
    assert_eq!(o.delim, None);
    assert_eq!(o.mem, 256 << 20);
    assert_eq!(o.fan_in, 64);
    assert_eq!(o.missing, MissingOrder::Last);
    assert!(!(o.no_header || o.unique || o.check || o.reverse || o.lenient || o.stats));
    assert_eq!((o.output, o.tmp, o.file), (None, None, None));
    assert!(matches!(parse(&["-k", "a", "--help"]).unwrap(), Parsed::Help));
    assert!(matches!(parse(&["-V", "--bogus"]).unwrap(), Parsed::Version));
}

#[test]
fn every_option_sets_its_field() {
    let o = parse_run(&[
        "-f", "jsonl", "-d", ";", "--no-header", "-o", "out", "-u", "-r", "--missing=first",
        "--lenient", "--tmp", "/t", "--stats", "in.csv",
    ]);
    assert_eq!(o.format, Some(Format::Jsonl));
    assert_eq!(o.delim, Some(b';'));
    assert!(o.no_header && o.unique && o.reverse && o.lenient && o.stats && !o.check);
    assert_eq!(o.output.as_deref(), Some("out"));
    assert_eq!(o.tmp.as_deref(), Some("/t"));
    assert_eq!(o.missing, MissingOrder::First);
    assert_eq!(input_file(&o), Some("in.csv"));
    let c = configure(&o, Format::Csv, Some("tsv"));
    assert_eq!(c.format, Format::Csv);
    assert_eq!(c.delim, b';');
    assert!(!c.has_header && c.unique && c.reverse && c.lenient);
    assert_eq!((c.mem_limit, c.fan_in), (256 << 20, 64));
    assert_eq!(configure(&parse_run(&[]), Format::Csv, Some("TSV")).delim, b'\t');
    assert!(parse_run(&["-c"]).check);
    assert_eq!(input_file(&parse_run(&["-"])), None);
    assert_eq!(parse_run(&["--format", "auto"]).format, None);
    assert_eq!(parse_run(&["--format=csv"]).format, Some(Format::Csv));
}

#[test]
fn usage_errors_are_exact() {
    let cases: [(&[&str], &str); 14] = [
        (&["--frobnicate"], "unknown option '--frobnicate'"),
        (&["a", "b"], "unexpected extra argument 'b'"),
        (&["-k"], "--key requires a value"),
        (&["--stats=yes"], "--stats does not take a value"),
        (&["-f", "xml"], "unknown format 'xml' (csv, jsonl, auto)"),
        (&["--missing", "mid"], "--missing must be first or last, not 'mid'"),
        (&["--fan-in", "1"], "--fan-in must be at least 2"),
        (&["--fan-in", "x"], "--fan-in must be an integer"),
        (&["--check", "-o", "x"], "--check does not write output; drop -o/--output"),
        (&["-d", "é"], "delimiter must be one ASCII character, got 'é'"),
        (&["--mem", "x"], "invalid size 'x' (use e.g. 64M, 1G)"),
        (&["-u=1"], "-u does not take a value"),
        (&["--=x"], "-- does not take a value"),
        (&["-k", ":num"], "key spec ':num': empty field selector"),
    ];
    for (args, message) in cases {
        assert_eq!(parse(args).unwrap_err(), message);
    }
}

#[test]
fn size_errors_are_exact() {
    assert_eq!(parse_size("0").unwrap_err(), "size must be at least 1 byte");
    assert_eq!(parse_size("lots").unwrap_err(), "invalid size 'lots' (use e.g. 64M, 1G)");
    assert_eq!(parse_size("17179869184").unwrap_err(), "size '17179869184' is out of range");
    assert_eq!(parse_size("17179869183").unwrap(), 17179869183);
    assert_eq!(parse_size(" 3 K ").unwrap(), 3072);
    assert_eq!(parse_size("+5").unwrap(), 5);
    assert_eq!(parse_delim("\n").unwrap_err(), "delimiter cannot be a quote or a newline");
}

#[test]
fn detection_looks_past_white_space_and_at_every_extension() {
    for (ext, format) in [
        ("csv", Format::Csv),
        ("TSV", Format::Csv),
        ("jsonl", Format::Jsonl),
        ("NdJson", Format::Jsonl),
        ("json", Format::Jsonl),
    ] {
        let mut body: &[u8] = if format == Format::Csv { b"[" } else { b"a" };
        assert_eq!(detect_format(Some(ext), &mut body).unwrap(), format);
    }
    let mut body: &[u8] = b" \t\r\n[1]";
    assert_eq!(detect_format(Some("txt"), &mut body).unwrap(), Format::Jsonl);
    assert_eq!(body, b" \t\r\n[1]");
    let mut blank: &[u8] = b" \n";
    assert_eq!(detect_format(None, &mut blank).unwrap(), Format::Csv);
}

#[test]
fn reports_are_exact() {
    assert_eq!(check_report("-", CheckOutcome::Sorted), None);
    assert_eq!(
        check_report("a.csv", CheckOutcome::Disorder { record: 2, line: 3 }).as_deref(),
        Some("a.csv: disorder at record 2 (line 3)")
    );
    assert_eq!(
        check_report("-", CheckOutcome::Duplicate { record: 10, line: 100 }).as_deref(),
        Some("-: duplicate key at record 10 (line 100)")
    );
    let stats = Stats {
        records_in: 1,
        records_out: 2,
        bytes_in: 3,
        runs_spilled: 4,
        merge_passes: u64::MAX,
    };
    assert_eq!(
        stats_report(Format::Jsonl, &stats),
        vec![
            "format:          jsonl",
            "records read:    1",
            "records written: 2",
            "bytes read:      3",
            "spilled runs:    4",
            "merge passes:    18446744073709551615",
        ]
    );
}

#[test]
fn exit_codes_tell_failure_from_disorder() {
    let disorder = CheckOutcome::Disorder { record: 2, line: 3 };
    let duplicate = CheckOutcome::Duplicate { record: 2, line: 3 };
    assert_eq!(exit_code(&Ok(Ending::Help)), 0);
    assert_eq!(exit_code(&Ok(Ending::Version)), 0);
    assert_eq!(exit_code(&Ok(Ending::Sorted)), 0);
    assert_eq!(exit_code(&Ok(Ending::Checked(CheckOutcome::Sorted))), 0);
    assert_eq!(exit_code(&Ok(Ending::Checked(disorder))), 1);
    assert_eq!(exit_code(&Ok(Ending::Checked(duplicate))), 1);
    assert_eq!(exit_code(&Err("no".to_string())), 2);
}

#[test]
fn equals_form_agrees_behind_other_arguments() {
    for before in [
        vec![],
        vec!["-u", "in.csv"],
        vec!["-k", "--mem", "--check=no"],
        vec!["--fan-in=9", "-"],
        vec!["--help"],
        vec!["--mem", "none"],
    ] {
        for (name, value) in [
            ("-k", "a:num"),
            ("--key", "a=b"),
            ("-f", "csv"),
            ("--delimiter", "="),
            ("-o", ""),
            ("--missing", "x"),
            ("--tmp", "--"),
            ("--fan-in", "3"),
        ] {
            let joined = format!("{name}={value}");
            let one: Vec<&str> = before.iter().copied().chain([joined.as_str(), "-r"]).collect();
            let two: Vec<&str> = before.iter().copied().chain([name, value, "-r"]).collect();
            assert_eq!(format!("{:?}", parse(&one)), format!("{:?}", parse(&two)), "{one:?}");
        }
    }
}

#[test]
fn accepted_options_are_workable() {
    for args in [
        vec!["--fan-in", "0"],
        vec!["--mem", "0"],
        vec!["-d", "\r"],
        vec!["-d", "\""],
        vec!["-c", "-o", "x"],
        vec!["-k", "a:num:ci"],
    ] {
        assert!(parse(&args).is_err(), "{args:?}");
    }
}
