//! The sorter end to end, in memory.

use sortyard::extract::Format;
use sortyard::io::{ByteSink, ByteSource, MemoryReader, MemoryStore, SpillStore};
use sortyard::keyspec::parse_keyspec;
use sortyard::sorter::{check, sort, CheckOutcome, Config, Stats};
use sortyard::value::MissingOrder;

fn config(format: Format, specs: &[&str]) -> Config {
    Config {
        format,
        specs: specs.iter().map(|s| parse_keyspec(s).unwrap()).collect(),
        delim: b',',
        has_header: format == Format::Csv,
        missing: MissingOrder::Last,
        lenient: false,
        unique: false,
        reverse: false,
        mem_limit: 1 << 20,
        fan_in: 16,
    }
}

fn run_sort(input: &str, cfg: &Config) -> (String, Stats) {
    let mut out = Vec::new();
    let stats = sort(input.as_bytes(), &mut out, MemoryStore::new(), cfg).unwrap();
    (String::from_utf8(out).unwrap(), stats)
}

#[test]
fn csv_sorts_by_typed_key_and_keeps_the_header_on_top() {
    let cfg = config(Format::Csv, &["price:num"]);
    let (out, stats) = run_sort("id,price\nb,20\na,3\nc,100\n", &cfg);
    assert_eq!(out, "id,price\na,3\nb,20\nc,100\n");
    assert_eq!(stats.records_in, 3);
    assert_eq!(stats.records_out, 4, "header + 3 data records");
    assert_eq!(stats.runs_spilled, 0, "small input stays in memory");
}

#[test]
fn sort_is_stable_for_equal_keys() {
    let cfg = config(Format::Csv, &["grp"]);
    let (out, _) = run_sort("grp,val\nb,1\na,2\nb,3\na,4\n", &cfg);
    assert_eq!(out, "grp,val\na,2\na,4\nb,1\nb,3\n");
}

#[test]
fn spilled_sort_produces_the_same_bytes_as_in_memory() {
    // The core external-sort invariant: the memory cap must never
    // change the answer, only the plan.
    let mut rows = String::from("id,price\n");
    for i in 0..500 {
        // A little pseudo-random walk, fixed seed by construction.
        let price = (i * 7919) % 997;
        rows.push_str(&format!("row{i},{price}\n"));
    }
    let cfg_mem = config(Format::Csv, &["price:num", "id"]);
    let mut cfg_spill = config(Format::Csv, &["price:num", "id"]);
    cfg_spill.mem_limit = 2_000; // forces many runs
    cfg_spill.fan_in = 3; // and multiple merge passes
    let (a, stats_a) = run_sort(&rows, &cfg_mem);
    let (b, stats_b) = run_sort(&rows, &cfg_spill);
    assert_eq!(a, b);
    assert_eq!(stats_a.runs_spilled, 0);
    assert!(
        stats_b.runs_spilled > 3,
        "got {} runs",
        stats_b.runs_spilled
    );
    assert!(stats_b.merge_passes > 1, "fan-in 3 must force extra passes");
}

#[test]
fn quoted_csv_records_survive_the_spill_byte_for_byte() {
    let tricky = "id,note\n2,\"multi\nline, with ,commas\"\n1,\"say \"\"hi\"\"\"\n";
    let mut cfg = config(Format::Csv, &["id:num"]);
    cfg.mem_limit = 1; // spill after every record
    let (out, stats) = run_sort(tricky, &cfg);
    assert_eq!(
        out,
        "id,note\n1,\"say \"\"hi\"\"\"\n2,\"multi\nline, with ,commas\"\n"
    );
    assert_eq!(stats.runs_spilled, 2);
}

#[test]
fn jsonl_sorts_by_nested_date_key() {
    let cfg = config(Format::Jsonl, &["meta.ts:date"]);
    let input = [
        "{\"id\":1,\"meta\":{\"ts\":\"2026-03-01\"}}\n",
        "{\"id\":2,\"meta\":{\"ts\":\"2025-12-31T23:00:00Z\"}}\n",
        "{\"id\":3,\"meta\":{\"ts\":\"2026-01-15T09:30:00+09:00\"}}\n",
    ]
    .concat();
    let (out, _) = run_sort(&input, &cfg);
    let ids: Vec<&str> = out.lines().map(|l| &l[6..7]).collect();
    assert_eq!(ids, vec!["2", "3", "1"]);
}

#[test]
fn unique_keeps_the_first_record_per_key_even_across_runs() {
    let mut cfg = config(Format::Csv, &["sku"]);
    cfg.unique = true;
    let (out, stats) = run_sort("sku,qty\nb,1\na,2\nb,3\na,4\n", &cfg);
    assert_eq!(out, "sku,qty\na,2\nb,1\n");
    assert_eq!(stats.records_out, 3);
    // Same answer when every record spills into its own run.
    cfg.mem_limit = 1;
    let (spilled, _) = run_sort("sku,qty\nb,1\na,2\nb,3\na,4\n", &cfg);
    assert_eq!(spilled, out);
}

#[test]
fn blank_lines_are_dropped() {
    let cfg = config(Format::Jsonl, &["a:num"]);
    let (out, stats) = run_sort("{\"a\":2}\n\n{\"a\":1}\n\n", &cfg);
    assert_eq!(out, "{\"a\":1}\n{\"a\":2}\n");
    assert_eq!(stats.records_in, 2);
}

#[test]
fn key_errors_carry_the_record_location() {
    let cfg = config(Format::Csv, &["price:num"]);
    let mut out = Vec::new();
    let e = sort("id,price\nok,1\nbad,oops\n".as_bytes(), &mut out, MemoryStore::new(), &cfg).unwrap_err();
    assert!(e.contains("record 2 (line 3)"), "got: {e}");
    let cfg = config(Format::Jsonl, &["a:num"]);
    let e = sort(b"{\"a\":1}\n{\"a\":\"x\"}\n".as_slice(), &mut out, MemoryStore::new(), &cfg).unwrap_err();
    assert!(e.contains("line 2"), "got: {e}");
}

#[test]
fn missing_first_moves_gap_records_to_the_top() {
    let mut cfg = config(Format::Csv, &["score:num"]);
    cfg.missing = MissingOrder::First;
    let (out, _) = run_sort("id,score\na,5\nb,\nc,1\n", &cfg);
    assert_eq!(out, "id,score\nb,\nc,1\na,5\n");
}

#[test]
fn empty_and_header_only_inputs_round_trip() {
    let cfg = config(Format::Csv, &[]);
    let (out, stats) = run_sort("", &cfg);
    assert_eq!(out, "");
    assert_eq!(stats.records_out, 0);
    let cfg = config(Format::Csv, &["id"]);
    let (out, stats) = run_sort("id,price\n", &cfg);
    assert_eq!(out, "id,price\n");
    assert_eq!(stats.records_in, 0);
}

#[test]
fn check_accepts_sorted_and_pinpoints_disorder() {
    let cfg = config(Format::Csv, &["price:num"]);
    let ok = check("id,price\na,1\nb,2\n".as_bytes(), &cfg).unwrap();
    assert_eq!(ok, CheckOutcome::Sorted);
    let bad = check("id,price\na,5\nb,2\nc,9\n".as_bytes(), &cfg).unwrap();
    assert_eq!(bad, CheckOutcome::Disorder { record: 2, line: 3 });
    // Desc keys flip what "sorted" means.
    let cfg = config(Format::Csv, &["price:num:desc"]);
    let ok = check("id,price\na,9\nb,3\nc,1\n".as_bytes(), &cfg).unwrap();
    assert_eq!(ok, CheckOutcome::Sorted);
}

#[test]
fn check_with_unique_flags_duplicates() {
    let mut cfg = config(Format::Csv, &["sku"]);
    cfg.unique = true;
    let dup = check("sku\na\nb\nb\n".as_bytes(), &cfg).unwrap();
    assert_eq!(dup, CheckOutcome::Duplicate { record: 3, line: 4 });
}

#[test]
fn check_compares_equal_neighbours_by_unique_alone() {
    let mut cfg = config(Format::Csv, &["sku"]);
    assert_eq!(check("sku\na\na\n".as_bytes(), &cfg).unwrap(), CheckOutcome::Sorted);
    cfg.unique = true;
    assert_eq!(
        check("sku\nb\na\na\n".as_bytes(), &cfg).unwrap(),
        CheckOutcome::Disorder { record: 2, line: 3 }
    );
}

#[test]
fn lines_count_through_quoted_newlines() {
    let cfg = config(Format::Csv, &["id:num"]);
    assert_eq!(
        check("id,note\n1,\"a\nb\nc\"\n\n0,x\n".as_bytes(), &cfg).unwrap(),
        CheckOutcome::Disorder { record: 2, line: 6 }
    );
    let mut out = Vec::new();
    assert_eq!(
        sort("id,n\n1,\"a\nb\"\nx,2\n".as_bytes(), &mut out, MemoryStore::new(), &cfg)
            .unwrap_err(),
        "record 2 (line 4): field 'id': cannot parse \"x\" as a number"
    );
}

#[test]
fn every_plan_gives_the_same_output() {
    let mut rows = String::from("k,v\n");
    for i in 0..40 {
        rows.push_str(&format!("{},{}\n", (i * 7) % 5, i));
    }
    let mut expected = String::from("k,v\n");
    for k in 0..5 {
        for i in 0..40 {
            if (i * 7) % 5 == k {
                expected.push_str(&format!("{k},{i}\n"));
            }
        }
    }
    for mem_limit in [1, 100, 333, 1000, 5000, 1 << 20] {
        for fan_in in [2, 3, 7, 64] {
            let mut cfg = config(Format::Csv, &["k:num"]);
            cfg.mem_limit = mem_limit;
            cfg.fan_in = fan_in;
            let (out, stats) = run_sort(&rows, &cfg);
            assert_eq!(out, expected, "mem {mem_limit}, fan-in {fan_in}");
            assert_eq!(stats.records_in, 40);
            assert_eq!(stats.records_out, 41);
            assert_eq!(
                check(out.as_bytes(), &cfg).unwrap(),
                CheckOutcome::Sorted
            );
        }
    }
}

#[test]
fn sorted_unique_output_passes_the_unique_check() {
    let mut cfg = config(Format::Jsonl, &["a:num:desc", "b:ci"]);
    cfg.unique = true;
    let input = "{\"a\":1,\"b\":\"x\"}\n{\"a\":2}\n{\"a\":1,\"b\":\"X\"}\n{\"b\":\"q\"}\n{\"a\":2}";
    for reverse in [false, true] {
        cfg.reverse = reverse;
        let (out, stats) = run_sort(input, &cfg);
        assert_eq!(stats.records_in, 5);
        assert_eq!(stats.records_out, 3);
        assert_eq!(check(out.as_bytes(), &cfg).unwrap(), CheckOutcome::Sorted);
    }
    assert_eq!(
        check(input.as_bytes(), &cfg).unwrap(),
        CheckOutcome::Disorder { record: 3, line: 3 }
    );
}

#[test]
fn crlf_input_comes_out_with_plain_newlines() {
    let cfg = config(Format::Csv, &["id"]);
    let (out, stats) = run_sort("id\r\nb\r\na", &cfg);
    assert_eq!(out, "id\na\nb\n");
    assert_eq!(stats.bytes_in, 2);
}

#[test]
fn unknown_columns_fail_before_any_record_is_read() {
    let cfg = config(Format::Csv, &["cost"]);
    let mut out = Vec::new();
    assert_eq!(
        sort("id,price\n\"oops".as_bytes(), &mut out, MemoryStore::new(), &cfg).unwrap_err(),
        "key field 'cost' not found in header (id, price)"
    );
    assert!(out.is_empty());
    assert!(check("id,price\n".as_bytes(), &cfg).is_err());
}

#[test]
fn headerless_input_keeps_its_first_record_in_the_sort() {
    let mut cfg = config(Format::Csv, &["1"]);
    cfg.has_header = false;
    let (out, stats) = run_sort("b,1\na,2\n", &cfg);
    assert_eq!(out, "a,2\nb,1\n");
    assert_eq!(stats, Stats { records_in: 2, records_out: 2, bytes_in: 6, ..Stats::default() });
}

#[test]
fn a_run_is_spilled_with_the_record_that_reaches_the_limit() {
    // Each record takes 64 bytes, 4 for its key and 1 for itself.
    let mut cfg = config(Format::Jsonl, &[]);
    for (mem_limit, runs, merges) in [(138, 3, 1), (139, 2, 1), (345, 1, 1), (346, 0, 0)] {
        cfg.mem_limit = mem_limit;
        let (out, stats) = run_sort("e\nd\nc\nb\na\n", &cfg);
        assert_eq!(out, "a\nb\nc\nd\ne\n");
        assert_eq!(stats.runs_spilled, runs, "limit {mem_limit}");
        assert_eq!(stats.merge_passes, merges, "limit {mem_limit}");
    }
}

/// A store on which nothing works.
struct Broken;

impl SpillStore for Broken {
    type Writer = Vec<u8>;
    type Reader = MemoryReader;

    fn prepare(&mut self) -> Result<(), String> {
        Err("no room".to_string())
    }

    fn create(&mut self, _id: u64) -> Result<Vec<u8>, String> {
        Err("no room".to_string())
    }

    fn close(&mut self, _id: u64, _writer: Vec<u8>) -> Result<(), String> {
        Err("no room".to_string())
    }

    fn open(&self, _id: u64) -> Result<MemoryReader, String> {
        Err("no room".to_string())
    }

    fn remove(&mut self, _id: u64) {}
}

#[test]
fn the_store_is_not_needed_while_everything_fits() {
    let mut cfg = config(Format::Csv, &["id"]);
    let mut out = Vec::new();
    sort("id\nb\na\n".as_bytes(), &mut out, Broken, &cfg).unwrap();
    assert_eq!(out, b"id\na\nb\n");
    cfg.mem_limit = 1;
    let mut out = Vec::new();
    let e = sort("id\nb\na\n".as_bytes(), &mut out, Broken, &cfg).unwrap_err();
    assert_eq!(e, "no room");
}

/// A stream that hands out a few bytes at a time and breaks off in the end.
struct Trickle {
    bytes: Vec<u8>,
    pos: usize,
    at_hand: usize,
    breaks: bool,
}

impl ByteSource for Trickle {
    fn fill(&mut self) -> Result<(), String> {
        if self.at_hand == 0 {
            self.at_hand = (self.bytes.len() - self.pos).min(3);
            if self.at_hand == 0 && self.breaks {
                return Err("cut off".to_string());
            }
        }
        Ok(())
    }

    fn buffer(&self) -> &[u8] {
        &self.bytes[self.pos..self.pos + self.at_hand]
    }

    fn consume(&mut self, n: usize) {
        self.pos += n;
        self.at_hand -= n;
    }
}

#[test]
fn records_may_span_the_chunks_of_a_stream() {
    let cfg = config(Format::Csv, &["id:num"]);
    let bytes = "id,note\r\n20,\"a\nb,\"\"\"\r\n3,long enough\n".as_bytes().to_vec();
    let mut out = Vec::new();
    let input = Trickle { bytes: bytes.clone(), pos: 0, at_hand: 0, breaks: false };
    sort(input, &mut out, MemoryStore::new(), &cfg).unwrap();
    assert_eq!(out, b"id,note\n3,long enough\n20,\"a\nb,\"\"\"\n");
    let input = Trickle { bytes, pos: 0, at_hand: 0, breaks: true };
    let mut out = Vec::new();
    let e = sort(input, &mut out, MemoryStore::new(), &cfg).unwrap_err();
    assert_eq!(e, "read error: cut off");
    let input = Trickle { bytes: b"id
1
2".to_vec(), pos: 0, at_hand: 0, breaks: true };
    assert_eq!(check(input, &cfg).unwrap_err(), "read error: cut off");
    let cfg = config(Format::Jsonl, &["a:num"]);
    let bytes = b"{\"a\":20}\n\n{\"a\":3}".to_vec();
    let mut out = Vec::new();
    let input = Trickle { bytes, pos: 0, at_hand: 0, breaks: false };
    sort(input, &mut out, MemoryStore::new(), &cfg).unwrap();
    assert_eq!(out, b"{\"a\":3}\n{\"a\":20}\n");
}

#[test]
fn the_two_zeros_are_one_key() {
    let mut cfg = config(Format::Csv, &["n:num"]);
    let (out, _) = run_sort("n,v\n0,1\n-0,2\n-1,3\n0.0,4\n", &cfg);
    assert_eq!(out, "n,v\n-1,3\n0,1\n-0,2\n0.0,4\n");
    cfg.unique = true;
    let (out, _) = run_sort("n,v\n-0,1\n0,2\n", &cfg);
    assert_eq!(out, "n,v\n-0,1\n");
}

#[test]
fn a_lone_carriage_return_at_the_end_of_csv_is_kept() {
    let cfg = config(Format::Csv, &[]);
    let (out, _) = run_sort("id\nb\na\r", &cfg);
    assert_eq!(out, "id\na\r\nb\n");
}

#[test]
fn a_lone_carriage_return_at_the_end_of_json_lines_is_dropped() {
    let cfg = config(Format::Jsonl, &["a:num"]);
    let (out, _) = run_sort("{\"a\":2}\r\n{\"a\":1}\r", &cfg);
    assert_eq!(out, "{\"a\":1}\n{\"a\":2}\n");
    // On a line of its own it makes a blank line, which is no record.
    let (out, stats) = run_sort("{\"a\":2}\n\r", &cfg);
    assert_eq!(out, "{\"a\":2}\n");
    assert_eq!(stats.records_in, 1);
}

/// A store whose runs break off when they are read.
struct Leaky(MemoryStore);

impl SpillStore for Leaky {
    type Writer = Vec<u8>;
    type Reader = Trickle;

    fn prepare(&mut self) -> Result<(), String> {
        self.0.prepare()
    }

    fn create(&mut self, id: u64) -> Result<Vec<u8>, String> {
        self.0.create(id)
    }

    fn close(&mut self, id: u64, writer: Vec<u8>) -> Result<(), String> {
        self.0.close(id, writer)
    }

    fn open(&self, id: u64) -> Result<Trickle, String> {
        let bytes = self.0.held[&id].clone();
        Ok(Trickle { bytes, pos: 0, at_hand: 0, breaks: true })
    }

    fn remove(&mut self, id: u64) {
        self.0.remove(id)
    }
}

#[test]
fn a_merge_that_fails_has_written_the_beginning() {
    let mut cfg = config(Format::Csv, &["id"]);
    cfg.mem_limit = 1;
    let mut out = Vec::new();
    let e = sort("id\nb\na\nc\n".as_bytes(), &mut out, Leaky(MemoryStore::new()), &cfg)
        .unwrap_err();
    assert_eq!(e, "cannot read run file: cut off");
    assert!(b"id\na\nb\nc\n".starts_with(&out), "{out:?}");
}

/// An output that only takes what is flushed to it, and never has room.
struct Full {
    waiting: Vec<u8>,
}

impl ByteSink for Full {
    fn write_all(&mut self, bytes: &[u8]) -> Result<(), String> {
        self.waiting.extend_from_slice(bytes);
        Ok(())
    }

    fn flush(&mut self) -> Result<(), String> {
        Err("disk full".to_string())
    }
}

#[test]
fn an_output_that_cannot_be_flushed_fails_the_sort() {
    let cfg = config(Format::Csv, &["id"]);
    let mut out = Full { waiting: Vec::new() };
    let e = sort("id\na\n".as_bytes(), &mut out, MemoryStore::new(), &cfg).unwrap_err();
    assert_eq!(e, "cannot write output: disk full");
    assert_eq!(out.waiting, b"id\na\n");
}
