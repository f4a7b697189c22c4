//! Whole runs: an argument vector and an input in, an exit code and two
//! output streams out. Files are kept in a map and runs spill to memory.

use std::collections::HashMap;

use sortyard::cli::{
    check_report, configure, detect_format, exit_code, input_file, parse_args, stats_report,
    Ending, Options, Parsed,
};
use sortyard::io::MemoryStore;
use sortyard::sorter::{check, sort};

struct Output {
    code: i32,
    stdout: String,
    stderr: String,
}

struct Desk {
    files: HashMap<String, String>,
}

impl Desk {
    fn new() -> Self {
        Desk { files: HashMap::new() }
    }

    fn write(&mut self, name: &str, content: &str) {
        self.files.insert(name.to_string(), content.to_string());
    }

    fn run(&mut self, args: &[&str]) -> Output {
        self.run_stdin(args, "")
    }

    fn run_stdin(&mut self, args: &[&str], stdin: &str) -> Output {
        let owned: Vec<String> = args.iter().map(|s| s.to_string()).collect();
        let mut out = Output { code: 0, stdout: String::new(), stderr: String::new() };
        let ending = match parse_args(&owned) {
            Ok(Parsed::Help) => Ok(Ending::Help),
            Ok(Parsed::Version) => Ok(Ending::Version),
            Ok(Parsed::Run(opts)) => self.execute(&opts, stdin, &mut out),
            Err(e) => Err(e),
        };
        if let Err(e) = &ending {
            out.stderr.push_str(&format!("sortyard: {e}\n"));
        }
        out.code = exit_code(&ending);
        out
    }

    fn execute(&mut self, opts: &Options, stdin: &str, out: &mut Output) -> Result<Ending, String> {
        let file = input_file(opts);
        let body = match file {
            Some(name) => self.files[name].clone(),
            None => stdin.to_string(),
        };
        let ext = file.and_then(|f| f.rsplit_once('.')).map(|(_, ext)| ext);
        let mut input = body.as_bytes();
        let format = match opts.format {
            Some(f) => f,
            None => detect_format(ext, &mut input)?,
        };
        let cfg = configure(opts, format, ext);
        if opts.check {
            let outcome = check(input, &cfg)?;
            if let Some(line) = check_report(file.unwrap_or("-"), outcome) {
                out.stderr.push_str(&format!("sortyard: {line}\n"));
            }
            return Ok(Ending::Checked(outcome));
        }
        let mut bytes = Vec::new();
        let stats = sort(input, &mut bytes, MemoryStore::new(), &cfg)?;
        let text = String::from_utf8(bytes).unwrap();
        match &opts.output {
            Some(name) => self.write(name, &text),
            None => out.stdout = text,
        }
        if opts.stats {
            for line in stats_report(format, &stats) {
                out.stderr.push_str(&format!("sortyard: {line}\n"));
            }
        }
        Ok(Ending::Sorted)
    }
}

#[test]
fn csv_sorts_by_typed_key_descending_into_a_file() {
    let mut desk = Desk::new();
    desk.write(
        "orders.csv",
        "id,item,price\nA-3,bolt,9.5\nA-1,girder,120\nA-2,plate,80\n",
    );
    let out = desk.run(&["-k", "price:num:desc", "orders.csv", "-o", "sorted.csv"]);
    assert_eq!(out.code, 0, "stderr: {}", out.stderr);
    assert_eq!(
        desk.files["sorted.csv"], "id,item,price\nA-1,girder,120\nA-2,plate,80\nA-3,bolt,9.5\n",
        "numeric desc order with the header kept on top"
    );
}

#[test]
fn quoted_csv_records_are_emitted_verbatim() {
    // Embedded commas, doubled quotes and a quoted newline: the record must
    // come out byte-for-byte identical, just in a new position.
    let mut desk = Desk::new();
    desk.write(
        "notes.csv",
        "id,note\n2,\"multi\nline, note\"\n3,\"say \"\"hi\"\"\"\n1,plain\n",
    );
    let out = desk.run(&["-k", "id:num", "notes.csv"]);
    assert_eq!(out.code, 0, "stderr: {}", out.stderr);
    assert_eq!(
        out.stdout,
        "id,note\n1,plain\n2,\"multi\nline, note\"\n3,\"say \"\"hi\"\"\"\n"
    );
}

#[test]
fn jsonl_from_stdin_is_autodetected_and_sorted_by_nested_date() {
    let input = [
        "{\"id\": \"c\", \"meta\": {\"ts\": \"2026-03-01T00:00:00Z\"}}\n",
        "{\"id\": \"a\", \"meta\": {\"ts\": \"2025-11-05T09:00:00+09:00\"}}\n",
        "{\"id\": \"b\", \"meta\": {\"ts\": \"2026-01-20\"}}\n",
    ]
    .concat();
    let out = Desk::new().run_stdin(&["-k", "meta.ts:date"], &input);
    assert_eq!(out.code, 0, "stderr: {}", out.stderr);
    let ids: Vec<String> = out.stdout.lines().map(|l| l[8..9].to_string()).collect();
    assert_eq!(ids, vec!["a", "b", "c"], "chronological across offsets");
}

#[test]
fn spilled_multipass_sort_matches_in_memory_and_passes_check() {
    // ~3000 records, a few hundred KB: with --mem 16K this needs dozens of
    // runs, and --fan-in 2 forces multi-pass merging. The plan must never
    // change the answer.
    let mut desk = Desk::new();
    let mut body = String::from("id,price,label\n");
    for i in 0..3000u64 {
        let price = (i * 7919) % 2503; // fixed pseudo-random walk
        body.push_str(&format!("row-{i:04},{price},\"item, {i}\"\n"));
    }
    desk.write("big.csv", &body);
    let a = desk.run(&["-k", "price:num", "-k", "id", "big.csv", "-o", "fast.csv"]);
    assert_eq!(a.code, 0, "stderr: {}", a.stderr);
    let b = desk.run(&[
        "-k",
        "price:num",
        "-k",
        "id",
        "--mem",
        "16K",
        "--fan-in",
        "2",
        "--stats",
        "--tmp",
        "spill",
        "big.csv",
        "-o",
        "spilled.csv",
    ]);
    assert_eq!(b.code, 0, "stderr: {}", b.stderr);
    assert_eq!(
        desk.files["fast.csv"], desk.files["spilled.csv"],
        "spill plan changed the output"
    );
    let stats = b.stderr;
    assert!(stats.contains("records read:    3000"), "got: {stats}");
    let runs: u64 = stats
        .lines()
        .find_map(|l| l.strip_prefix("sortyard: spilled runs:"))
        .and_then(|v| v.trim().parse().ok())
        .expect("stats must report spilled runs");
    assert!(runs > 2, "16K buffer must spill many runs, got {runs}");
    let passes: u64 = stats
        .lines()
        .find_map(|l| l.strip_prefix("sortyard: merge passes:"))
        .and_then(|v| v.trim().parse().ok())
        .expect("stats must report merge passes");
    assert!(passes > 1, "fan-in 2 must force extra passes, got {passes}");
    // The tool's own verifier agrees with the sort it produced.
    let chk = desk.run(&["--check", "-k", "price:num", "-k", "id", "spilled.csv"]);
    assert_eq!(chk.code, 0, "check failed: {}", chk.stderr);
}

#[test]
fn check_mode_exit_codes_follow_gnu_sort() {
    let mut desk = Desk::new();
    desk.write("sorted.csv", "id,price\na,1\nb,2\nc,30\n");
    let ok = desk.run(&["--check", "-k", "price:num", "sorted.csv"]);
    assert_eq!(ok.code, 0, "stderr: {}", ok.stderr);
    desk.write("unsorted.csv", "id,price\na,5\nb,2\nc,9\n");
    let bad = desk.run(&["--check", "-k", "price:num", "unsorted.csv"]);
    assert_eq!(bad.code, 1);
    let msg = bad.stderr;
    assert!(msg.contains("disorder at record 2 (line 3)"), "got: {msg}");
    // Usage errors are exit 2, distinct from disorder.
    let usage = desk.run(&["--check", "-o", "x.csv", "sorted.csv"]);
    assert_eq!(usage.code, 2);
}

#[test]
fn unique_reverse_and_missing_flags_compose() {
    let mut desk = Desk::new();
    let input = "sku,qty\nbeta,1\nalpha,2\nbeta,3\n,9\n";
    let uniq = desk.run_stdin(&["-f", "csv", "-k", "sku", "--unique"], input);
    assert_eq!(uniq.code, 0, "stderr: {}", uniq.stderr);
    assert_eq!(
        uniq.stdout,
        "sku,qty\nalpha,2\nbeta,1\n,9\n",
        "first record per key wins; missing key sorts last"
    );
    let rev = desk.run_stdin(&["-f", "csv", "-k", "sku", "--unique", "--reverse"], input);
    assert_eq!(
        rev.stdout,
        "sku,qty\n,9\nbeta,1\nalpha,2\n",
        "--reverse flips the whole order, missing placement included"
    );
    let first = desk.run_stdin(
        &["-f", "csv", "-k", "sku", "--unique", "--missing", "first"],
        input,
    );
    assert_eq!(first.stdout, "sku,qty\n,9\nalpha,2\nbeta,1\n");
}

#[test]
fn data_errors_exit_2_with_location_unless_lenient() {
    let mut desk = Desk::new();
    desk.write("bad.csv", "id,price\nok,1\noops,cheap\n");
    let out = desk.run(&["-k", "price:num", "bad.csv"]);
    assert_eq!(out.code, 2);
    let msg = out.stderr;
    assert!(msg.contains("record 2 (line 3)"), "got: {msg}");
    assert!(msg.contains("field 'price'"), "got: {msg}");
    let lenient = desk.run(&["-k", "price:num", "--lenient", "bad.csv"]);
    assert_eq!(lenient.code, 0, "stderr: {}", lenient.stderr);
    assert_eq!(
        lenient.stdout,
        "id,price\nok,1\noops,cheap\n",
        "lenient: the unparseable record sorts as missing (last)"
    );
    // Unknown key fields also fail fast, before any sorting.
    let unknown = desk.run(&["-k", "cost:num", "bad.csv"]);
    assert_eq!(unknown.code, 2);
    assert!(
        unknown.stderr.contains("'cost' not found"),
        "got: {}",
        unknown.stderr
    );
}

#[test]
fn headerless_tsv_sorts_by_column_number() {
    let mut desk = Desk::new();
    desk.write("data.tsv", "gamma\t30\nalpha\t2\nbeta\t100\n");
    // .tsv implies the tab delimiter; --no-header switches keys to indices.
    let out = desk.run(&["--no-header", "-k", "2:num", "data.tsv"]);
    assert_eq!(out.code, 0, "stderr: {}", out.stderr);
    assert_eq!(out.stdout, "alpha\t2\ngamma\t30\nbeta\t100\n");
}

#[test]
fn jsonl_check_with_unique_reports_duplicates() {
    let sorted_with_dup = [
        "{\"user\": {\"id\": 1}}\n",
        "{\"user\": {\"id\": 2}}\n",
        "{\"user\": {\"id\": 2}}\n",
    ]
    .concat();
    let mut desk = Desk::new();
    let out = desk.run_stdin(
        &["--check", "--unique", "-k", "user.id:num"],
        &sorted_with_dup,
    );
    assert_eq!(out.code, 1);
    let msg = out.stderr;
    assert!(msg.contains("duplicate key at record 3"), "got: {msg}");
    // Without --unique the same stream passes.
    let ok = desk.run_stdin(&["--check", "-k", "user.id:num"], &sorted_with_dup);
    assert_eq!(ok.code, 0, "stderr: {}", ok.stderr);
}
