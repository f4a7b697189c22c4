//! Merging runs.

use sortyard::arrange::sort_records;
use sortyard::io::{MemoryReader, MemoryStore};
use sortyard::merge::{merge_streams, open_all, reduce_runs};
use sortyard::spill::{Rec, RunFile, RunReader, SpillArea};

fn rec(key: &[u8], seq: u64) -> Rec {
    Rec {
        key: key.to_vec(),
        seq,
        raw: format!("raw-{seq}").into_bytes(),
    }
}

fn collect(readers: Vec<RunReader<MemoryReader>>) -> Vec<Rec> {
    let mut out: Vec<Rec> = Vec::new();
    merge_streams(readers, &mut out).unwrap();
    out
}

#[test]
fn merges_two_runs_into_global_order() {
    let mut area = SpillArea::create(MemoryStore::new()).unwrap();
    let r1 = area.write_run(&[rec(b"a", 0), rec(b"c", 2)]).unwrap();
    let r2 = area.write_run(&[rec(b"b", 1), rec(b"d", 3)]).unwrap();
    let merged = collect(vec![r1.open(&area).unwrap(), r2.open(&area).unwrap()]);
    let keys: Vec<&[u8]> = merged.iter().map(|r| r.key.as_slice()).collect();
    assert_eq!(keys, vec![b"a" as &[u8], b"b", b"c", b"d"]);
}

#[test]
fn equal_keys_come_out_in_input_order() {
    // Stability across runs: seq must break ties even when the equal
    // records live in different files.
    let mut area = SpillArea::create(MemoryStore::new()).unwrap();
    let r1 = area.write_run(&[rec(b"k", 5)]).unwrap();
    let r2 = area.write_run(&[rec(b"k", 2), rec(b"k", 9)]).unwrap();
    let merged = collect(vec![r1.open(&area).unwrap(), r2.open(&area).unwrap()]);
    let seqs: Vec<u64> = merged.iter().map(|r| r.seq).collect();
    assert_eq!(seqs, vec![2, 5, 9]);
}

#[test]
fn empty_and_uneven_runs_are_fine() {
    let mut area = SpillArea::create(MemoryStore::new()).unwrap();
    let r1 = area.write_run(&[]).unwrap();
    let r2 = area.write_run(&[rec(b"x", 1)]).unwrap();
    let merged = collect(vec![r1.open(&area).unwrap(), r2.open(&area).unwrap()]);
    assert_eq!(merged.len(), 1);
}

#[test]
fn reduce_runs_respects_fan_in_and_counts_passes() {
    let mut area = SpillArea::create(MemoryStore::new()).unwrap();
    // Seven single-record runs with fan-in 2 need intermediate passes.
    let runs: Vec<RunFile> = (0..7)
        .map(|i| {
            area.write_run(&[rec(format!("k{i}").as_bytes(), i)])
                .unwrap()
        })
        .collect();
    let (survivors, passes) = reduce_runs(&mut area, runs, 2).unwrap();
    assert!(survivors.len() <= 2, "got {} survivors", survivors.len());
    assert!(
        passes >= 3,
        "7 runs at fan-in 2 need several passes, got {passes}"
    );
    // The surviving runs still contain all 7 records, in order.
    let readers = open_all(&area, &survivors).unwrap();
    let merged = collect(readers);
    assert_eq!(merged.len(), 7);
    let seqs: Vec<u64> = merged.iter().map(|r| r.seq).collect();
    assert_eq!(seqs, vec![0, 1, 2, 3, 4, 5, 6]);
}

#[test]
fn reduce_runs_is_a_no_op_when_under_the_limit() {
    let mut area = SpillArea::create(MemoryStore::new()).unwrap();
    let runs = vec![
        area.write_run(&[rec(b"a", 0)]).unwrap(),
        area.write_run(&[rec(b"b", 1)]).unwrap(),
    ];
    let (survivors, passes) = reduce_runs(&mut area, runs, 16).unwrap();
    assert_eq!(survivors.len(), 2);
    assert_eq!(passes, 0);
}

#[test]
fn runs_under_the_limit_are_handed_back_as_they_are() {
    let mut area = SpillArea::create(MemoryStore::new()).unwrap();
    let runs: Vec<RunFile> = (0..3)
        .map(|i| area.write_run(&[rec(b"k", 2 - i)]).unwrap())
        .collect();
    let held = area.store.held.clone();
    let (survivors, passes) = reduce_runs(&mut area, runs, 3).unwrap();
    let ids: Vec<u64> = survivors.iter().map(|run| run.id).collect();
    assert_eq!(ids, vec![0, 1, 2]);
    assert_eq!(passes, 0);
    assert_eq!(area.store.held, held);
}

#[test]
fn a_missing_run_stops_the_merge() {
    let mut area = SpillArea::create(MemoryStore::new()).unwrap();
    let runs: Vec<RunFile> = (0..3)
        .map(|i| area.write_run(&[rec(b"k", i)]).unwrap())
        .collect();
    area.store.held.remove(&1);
    assert!(open_all(&area, &runs).is_err());
    assert_eq!(reduce_runs(&mut area, runs, 2).err().unwrap(), "no such file");
}

#[test]
fn merged_runs_are_deleted_from_the_store() {
    let mut area = SpillArea::create(MemoryStore::new()).unwrap();
    let runs: Vec<RunFile> = (0..9)
        .map(|i| area.write_run(&[rec(b"k", 8 - i)]).unwrap())
        .collect();
    let (survivors, _) = reduce_runs(&mut area, runs, 3).unwrap();
    assert_eq!(area.store.held.len(), survivors.len());
    let merged = collect(open_all(&area, &survivors).unwrap());
    let seqs: Vec<u64> = merged.iter().map(|r| r.seq).collect();
    assert_eq!(seqs, vec![0, 1, 2, 3, 4, 5, 6, 7, 8]);
}

#[test]
fn a_broken_run_stops_the_merge() {
    let mut area = SpillArea::create(MemoryStore::new()).unwrap();
    let r1 = area.write_run(&[rec(b"a", 0)]).unwrap();
    let r2 = area.write_run(&[rec(b"b", 1)]).unwrap();
    area.store.held.get_mut(&r2.id).unwrap().pop();
    let readers = vec![r1.open(&area).unwrap(), r2.open(&area).unwrap()];
    let mut out: Vec<Rec> = Vec::new();
    let e = merge_streams(readers, &mut out).unwrap_err();
    assert!(e.contains("corrupt run file"), "got: {e}");
}

#[test]
fn sorting_in_memory_gives_the_same_order_as_std() {
    let mut state: u64 = 12345;
    for n in 0..60usize {
        let mut records = Vec::new();
        for i in 0..n {
            state = state.wrapping_mul(6364136223846793005).wrapping_add(1442695040888963407);
            let key = [((state >> 60) % 3) as u8, ((state >> 40) % 4) as u8];
            records.push(rec(&key[..(state >> 33) as usize % 3], i as u64));
        }
        let mut expected: Vec<(Vec<u8>, u64)> =
            records.iter().map(|r| (r.key.clone(), r.seq)).collect();
        expected.sort();
        let got: Vec<(Vec<u8>, u64)> =
            sort_records(records).into_iter().map(|r| (r.key, r.seq)).collect();
        assert_eq!(got, expected);
    }
}
