//! Spilled runs.

use sortyard::io::MemoryStore;
use sortyard::spill::{Rec, SpillArea};

fn rec(key: &[u8], seq: u64, raw: &[u8]) -> Rec {
    Rec {
        key: key.to_vec(),
        seq,
        raw: raw.to_vec(),
    }
}

#[test]
fn roundtrip_preserves_keys_seqs_and_raw_bytes() {
    let mut area = SpillArea::create(MemoryStore::new()).unwrap();
    let records = vec![
        rec(b"a", 0, b"first,row"),
        rec(b"b", 1, b"quoted \"bytes\"\nwith newline"),
        rec(b"", 2, b""),
    ];
    let run = area.write_run(&records).unwrap();
    let mut reader = run.open(&area).unwrap();
    for expected in &records {
        assert_eq!(reader.next_rec().unwrap().as_ref(), Some(expected));
    }
    assert!(
        reader.next_rec().unwrap().is_none(),
        "clean EOF after last record"
    );
}

#[test]
fn incremental_writer_matches_batch_writer() {
    let mut area = SpillArea::create(MemoryStore::new()).unwrap();
    let mut w = area.start_run().unwrap();
    w.push(&rec(b"k1", 7, b"data")).unwrap();
    w.push(&rec(b"k2", 8, b"more")).unwrap();
    let run = w.finish(&mut area).unwrap();
    let mut r = run.open(&area).unwrap();
    assert_eq!(r.next_rec().unwrap().unwrap().seq, 7);
    assert_eq!(r.next_rec().unwrap().unwrap().raw, b"more");
    assert!(r.next_rec().unwrap().is_none());
}

#[test]
fn truncated_run_is_reported_not_silently_shortened() {
    let mut area = SpillArea::create(MemoryStore::new()).unwrap();
    let run = area.write_run(&[rec(b"key", 1, b"raw-bytes")]).unwrap();
    // Chop the tail off the only run file.
    let full = area.store.held.get_mut(&run.id).unwrap();
    let shorter = full.len() - 4;
    full.truncate(shorter);
    let mut r = run.open(&area).unwrap();
    let e = r.next_rec().unwrap_err();
    assert!(e.contains("corrupt run file"), "got: {e}");
}

#[test]
fn rec_order_breaks_key_ties_by_input_sequence() {
    let a = rec(b"same", 1, b"first");
    let b = rec(b"same", 2, b"second");
    assert_eq!(a.cmp_order(&b), std::cmp::Ordering::Less);
    assert_eq!(b.cmp_order(&a), std::cmp::Ordering::Greater);
    let c = rec(b"other", 9, b"x");
    assert_eq!(
        c.cmp_order(&a),
        std::cmp::Ordering::Less,
        "key wins over seq"
    );
}

#[test]
fn runs_are_length_prefixed_records() {
    let mut area = SpillArea::create(MemoryStore::new()).unwrap();
    let run = area.write_run(&[rec(b"k", 258, b"raw")]).unwrap();
    let expected: Vec<u8> = [
        &1u32.to_le_bytes()[..],
        &258u64.to_le_bytes()[..],
        &3u32.to_le_bytes()[..],
        b"k",
        b"raw",
    ]
    .concat();
    assert_eq!(area.store.held[&run.id], expected);
}

#[test]
fn a_run_cut_anywhere_is_reported() {
    let mut area = SpillArea::create(MemoryStore::new()).unwrap();
    let run = area.write_run(&[rec(b"key", 1, b"raw-bytes")]).unwrap();
    let full = area.store.held[&run.id].clone();
    for cut in 0..full.len() {
        area.store.held.insert(run.id, full[..cut].to_vec());
        let mut r = run.open(&area).unwrap();
        if cut == 0 {
            assert_eq!(r.next_rec(), Ok(None));
        } else {
            let e = r.next_rec().unwrap_err();
            assert!(e.contains("corrupt run file"), "cut at {cut}: {e}");
        }
    }
}

#[test]
fn removed_runs_leave_the_others_readable() {
    let mut area = SpillArea::create(MemoryStore::new()).unwrap();
    let first = area.write_run(&[rec(b"a", 0, b"1")]).unwrap();
    let second = area.write_run(&[rec(b"b", 1, b"2")]).unwrap();
    assert_ne!(first.id, second.id);
    first.remove(&mut area);
    assert_eq!(area.store.held.len(), 1);
    assert_eq!(
        second.open(&area).unwrap().next_rec().unwrap(),
        Some(rec(b"b", 1, b"2"))
    );
}

#[test]
fn record_cost_counts_key_raw_and_overhead() {
    let small = rec(b"ab", 3, b"cdef");
    let bare = rec(b"", 3, b"");
    assert_eq!(small.cost(), 70);
    assert_eq!(bare.cost(), 64);
    assert_eq!(small.clone(), small);
    assert!(rec(b"a", 1, b"").before(&rec(b"a", 2, b"")));
    assert!(!rec(b"b", 1, b"").before(&rec(b"a", 2, b"")));
}

#[test]
fn impossible_lengths_are_reported() {
    let mut area = SpillArea::create(MemoryStore::new()).unwrap();
    let run = area.write_run(&[rec(b"key", 1, b"raw-bytes")]).unwrap();
    let full = area.store.held[&run.id].clone();
    for (at, message) in [
        (3, "corrupt run file: truncated key"),
        (15, "corrupt run file: truncated record"),
    ] {
        let mut bytes = full.clone();
        bytes[at] = 0xff;
        area.store.held.insert(run.id, bytes);
        assert_eq!(run.open(&area).unwrap().next_rec().unwrap_err(), message);
    }
    // The largest length there is, with nothing behind the header.
    area.store.held.insert(run.id, vec![0xff; 16]);
    assert_eq!(
        run.open(&area).unwrap().next_rec().unwrap_err(),
        "corrupt run file: truncated key"
    );
}

#[test]
fn lengths_too_large_for_the_header_stand_before_what_they_measure() {
    let mut area = SpillArea::create(MemoryStore::new()).unwrap();
    let run = area.write_run(&[rec(b"", 0, b"")]).unwrap();
    let largest = u32::MAX.to_le_bytes();
    let bytes: Vec<u8> = [
        &largest[..],
        &7u64.to_le_bytes()[..],
        &largest[..],
        &1u64.to_le_bytes()[..],
        b"k",
        &3u64.to_le_bytes()[..],
        b"raw",
    ]
    .concat();
    area.store.held.insert(run.id, bytes.clone());
    let mut reader = run.open(&area).unwrap();
    assert_eq!(reader.next_rec().unwrap(), Some(rec(b"k", 7, b"raw")));
    assert_eq!(reader.next_rec().unwrap(), None);
    for (keep, message) in [
        (20, "corrupt run file: truncated key"),
        (24, "corrupt run file: truncated key"),
        (30, "corrupt run file: truncated record"),
        (35, "corrupt run file: truncated record"),
    ] {
        area.store.held.insert(run.id, bytes[..keep].to_vec());
        assert_eq!(run.open(&area).unwrap().next_rec().unwrap_err(), message);
    }
}

#[test]
fn a_run_that_is_gone_cannot_be_opened() {
    let mut area = SpillArea::create(MemoryStore::new()).unwrap();
    let run = area.write_run(&[rec(b"a", 0, b"1")]).unwrap();
    area.store.held.clear();
    assert_eq!(run.open(&area).err().unwrap(), "no such file");
}

#[test]
fn each_cut_in_a_record_has_its_own_message() {
    let mut area = SpillArea::create(MemoryStore::new()).unwrap();
    let run = area.write_run(&[rec(b"key", 1, b"raw-bytes")]).unwrap();
    let full = area.store.held[&run.id].clone();
    assert_eq!(full.len(), 28);
    for (keep, message) in [
        (1, "corrupt run file: truncated length prefix"),
        (3, "corrupt run file: truncated length prefix"),
        (4, "corrupt run file: truncated record header"),
        (15, "corrupt run file: truncated record header"),
        (16, "corrupt run file: truncated key"),
        (18, "corrupt run file: truncated key"),
        (19, "corrupt run file: truncated record"),
        (27, "corrupt run file: truncated record"),
    ] {
        area.store.held.insert(run.id, full[..keep].to_vec());
        assert_eq!(run.open(&area).unwrap().next_rec().unwrap_err(), message);
    }
    area.store.held.insert(run.id, Vec::new());
    assert_eq!(run.open(&area).unwrap().next_rec().unwrap(), None);
}
