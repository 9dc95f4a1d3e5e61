use ledger_store::checkpoint_file::{decode_checkpoint, encode_checkpoint, to_hex};
use ledger_store::digest::{chain_next, genesis_head, leaf_hash, merkle_root, node_hash};
use ledger_store::frame::{encode_record, scan_segment};
use ledger_store::naming::{parse_segment_file_name, segment_file_name};
use ledger_store::proposal::ProposedAction;
use ledger_store::sequencer::{PrecommitMsg, Sequencer};
use ledger_store::store::{
    Checkpoint, DeterministicStore, StoreError, CHECKPOINT_INTERVAL, SEGMENT_CAPACITY,
};

/// Appends each payload and mirrors the writes into in-memory segment files.
fn append_all(store: &mut DeterministicStore, segments: &mut Vec<Vec<u8>>, payloads: &[Vec<u8>]) -> Vec<Option<Checkpoint>> {
    let mut checkpoints = Vec::new();
    if segments.is_empty() {
        segments.push(Vec::new());
    }
    for p in payloads {
        let a = store.append_entry(p).unwrap();
        if a.rolled {
            segments.push(Vec::new());
        }
        assert_eq!(segments.len() as u64, a.segment_id + 1);
        segments.last_mut().unwrap().extend_from_slice(&a.record);
        checkpoints.push(a.checkpoint);
    }
    checkpoints
}

fn numbered(n: usize) -> Vec<Vec<u8>> {
    (0..n).map(|i| format!("e{}", i).into_bytes()).collect()
}

fn expected_root(payloads: &[Vec<u8>]) -> Vec<u8> {
    let mut level: Vec<Vec<u8>> = payloads
        .iter()
        .map(|p| {
            let mut v = vec![0u8];
            v.extend_from_slice(p);
            blake3::hash(&v).as_bytes().to_vec()
        })
        .collect();
    if level.is_empty() {
        return blake3::hash(b"").as_bytes().to_vec();
    }
    while level.len() > 1 {
        let mut next = Vec::new();
        for pair in level.chunks(2) {
            let right = if pair.len() == 2 { &pair[1] } else { &pair[0] };
            let mut v = vec![1u8];
            v.extend_from_slice(&pair[0]);
            v.extend_from_slice(right);
            next.push(blake3::hash(&v).as_bytes().to_vec());
        }
        level = next;
    }
    level.remove(0)
}

#[test]
fn record_has_little_endian_prefix() {
    assert_eq!(encode_record(b"ab"), vec![2, 0, 0, 0, b'a', b'b']);
    assert_eq!(encode_record(b""), vec![0, 0, 0, 0]);
    let big = vec![7u8; 300];
    let r = encode_record(&big);
    assert_eq!(&r[..4], &[0x2c, 0x01, 0, 0]);
    assert_eq!(r.len(), 304);
}

#[test]
fn scan_reads_records_back() {
    let mut bytes = encode_record(b"first");
    bytes.extend(encode_record(b""));
    bytes.extend(encode_record(b"third"));
    let s = scan_segment(&bytes);
    assert_eq!(s.payloads, vec![b"first".to_vec(), b"".to_vec(), b"third".to_vec()]);
    assert!(!s.torn);
    assert_eq!(s.intact_len, bytes.len());
}

#[test]
fn scan_stops_at_torn_record() {
    let mut bytes = encode_record(b"one");
    bytes.extend(encode_record(b"two"));
    let intact = bytes.len();
    bytes.extend_from_slice(&[10, 0, 0, 0, b'x', b'y']);
    let s = scan_segment(&bytes);
    assert_eq!(s.payloads, vec![b"one".to_vec(), b"two".to_vec()]);
    assert!(s.torn);
    assert_eq!(s.intact_len, intact);
}

#[test]
fn scan_treats_short_prefix_as_torn() {
    let mut bytes = encode_record(b"one");
    bytes.extend_from_slice(&[1, 0]);
    let s = scan_segment(&bytes);
    assert_eq!(s.payloads.len(), 1);
    assert!(s.torn);
    assert_eq!(s.intact_len, 7);
    let empty = scan_segment(&[]);
    assert!(empty.payloads.is_empty() && !empty.torn && empty.intact_len == 0);
}

#[test]
fn chain_links_each_entry_to_the_previous_head() {
    let g = genesis_head();
    assert_eq!(g, vec![0u8; 32]);
    let h1 = chain_next(&g, b"e0");
    let mut input = g.clone();
    input.extend_from_slice(b"e0");
    assert_eq!(h1, blake3::hash(&input).as_bytes().to_vec());
    assert_ne!(h1, g);
    let mut store = DeterministicStore::new();
    assert_eq!(store.head_hash(), g);
    store.append_entry(b"e0").unwrap();
    assert_eq!(store.head_hash(), h1);
    store.append_entry(b"e1").unwrap();
    assert_eq!(store.head_hash(), chain_next(&h1, b"e1"));
}

#[test]
fn merkle_root_follows_fixed_rules() {
    let leaf = leaf_hash(b"a");
    assert_eq!(leaf, blake3::hash(&[0u8, b'a']).as_bytes().to_vec());
    let node = node_hash(&leaf, &leaf);
    let mut v = vec![1u8];
    v.extend_from_slice(&leaf);
    v.extend_from_slice(&leaf);
    assert_eq!(node, blake3::hash(&v).as_bytes().to_vec());
    for n in [0usize, 1, 2, 3, 5, 8, 1024] {
        let ps = numbered(n);
        assert_eq!(merkle_root(&ps), expected_root(&ps), "window of {}", n);
    }
    assert_eq!(merkle_root(&vec![b"a".to_vec()]), leaf);
}

#[test]
fn checkpoint_is_deterministic_and_tamper_evident() {
    let ps = numbered(1024);
    let r1 = merkle_root(&ps);
    let r2 = merkle_root(&ps.clone());
    assert_eq!(r1, r2);
    let mut changed = ps.clone();
    changed[517][1] ^= 1;
    assert_ne!(merkle_root(&changed), r1);
    let mut swapped = ps.clone();
    swapped.swap(0, 1);
    assert_ne!(merkle_root(&swapped), r1);
}

#[test]
fn one_checkpoint_after_1024_entries_and_none_after_1025() {
    let mut store = DeterministicStore::new();
    let mut segments = Vec::new();
    let ps = numbered(1025);
    let cps = append_all(&mut store, &mut segments, &ps);
    let produced: Vec<usize> = cps.iter().enumerate().filter(|(_, c)| c.is_some()).map(|(i, _)| i).collect();
    assert_eq!(produced, vec![1023]);
    let c = cps[1023].as_ref().unwrap();
    assert_eq!(c.window_start_index, 0);
    assert_eq!(c.entries_covered, 1024);
    assert_eq!(c.merkle_root, expected_root(&ps[..1024]));
    assert!(cps[1024].is_none());
    assert_eq!(store.entry_count(), 1025);
    assert_eq!(CHECKPOINT_INTERVAL, 1024);
}

#[test]
fn second_checkpoint_covers_the_next_window() {
    let mut store = DeterministicStore::new();
    let mut segments = Vec::new();
    let ps = numbered(2048);
    let cps = append_all(&mut store, &mut segments, &ps);
    let c = cps[2047].as_ref().unwrap();
    assert_eq!(c.window_start_index, 1024);
    assert_eq!(c.merkle_root, expected_root(&ps[1024..]));
}

#[test]
fn append_returns_contiguous_indices() {
    let mut store = DeterministicStore::new();
    for i in 0..10u64 {
        let a = store.append_entry(format!("p{}", i).as_bytes()).unwrap();
        assert_eq!(a.index, i);
        assert!(!a.rolled);
        assert_eq!(a.segment_id, 0);
    }
    assert_eq!(store.current_offset(), 10 * 6);
}

#[test]
fn full_segment_rolls_without_splitting_entries() {
    let mut store = DeterministicStore::new();
    let mut segments = Vec::new();
    let chunk = 20 * 1024 * 1024;
    let ps: Vec<Vec<u8>> = (0..5u8).map(|i| vec![i; chunk]).collect();
    append_all(&mut store, &mut segments, &ps);
    assert_eq!(segments.len(), 2);
    assert_eq!(store.current_segment_id(), 1);
    for seg in &segments {
        assert!(seg.len() as u64 <= SEGMENT_CAPACITY);
        let s = scan_segment(seg);
        assert!(!s.torn);
        assert_eq!(s.intact_len, seg.len());
    }
    assert_eq!(scan_segment(&segments[0]).payloads, ps[..3].to_vec());
    assert_eq!(scan_segment(&segments[1]).payloads, ps[3..].to_vec());
}

#[test]
fn oversized_entry_rolls_even_from_an_empty_segment() {
    let mut store = DeterministicStore::new();
    let a = store.append_entry(&vec![1u8; 70 * 1024 * 1024]).unwrap();
    assert!(a.rolled);
    assert_eq!(a.segment_id, 1);
    let b = store.append_entry(b"next").unwrap();
    assert!(b.rolled);
    assert_eq!(b.segment_id, 2);
    assert_eq!(store.current_offset(), 8);
}

#[test]
fn record_that_exactly_fills_a_segment_does_not_roll() {
    let mut store = DeterministicStore::new();
    let a = store.append_entry(&vec![0u8; SEGMENT_CAPACITY as usize - 4]).unwrap();
    assert!(!a.rolled);
    assert_eq!(store.current_offset(), SEGMENT_CAPACITY);
    let b = store.append_entry(b"").unwrap();
    assert!(b.rolled);
    assert_eq!(b.segment_id, 1);
}

#[test]
fn append_then_recover_round_trips() {
    let mut store = DeterministicStore::new();
    let mut segments = Vec::new();
    let ps = numbered(1500);
    append_all(&mut store, &mut segments, &ps);
    store.commit();
    let rec = DeterministicStore::recover(&segments).unwrap();
    assert!(rec.truncate_to.is_none());
    let mut s = rec.store;
    assert_eq!(s.current_segment_id() as usize, segments.len() - 1);
    assert_eq!(s.current_offset(), segments.last().unwrap().len() as u64);
    assert_eq!(s.entry_count(), 1500);
    assert_eq!(s.durable_count(), 1500);
    assert_eq!(s.head_hash(), store.head_hash());
    let mut read = Vec::new();
    for seg in &segments {
        read.extend(scan_segment(seg).payloads);
    }
    assert_eq!(read, ps);
    // The window in progress survives recovery: the next checkpoint is at 2048.
    let mut more = segments.clone();
    let rest = numbered(2048)[1500..].to_vec();
    let cps = append_all(&mut s, &mut more, &rest);
    assert_eq!(cps.last().unwrap().as_ref().unwrap().merkle_root, expected_root(&numbered(2048)[1024..]));
}

#[test]
fn recover_cuts_a_torn_tail_and_stays_appendable() {
    let mut store = DeterministicStore::new();
    let mut segments = Vec::new();
    append_all(&mut store, &mut segments, &numbered(3));
    let intact = segments[0].len();
    segments[0].extend_from_slice(&[100, 0, 0, 0, 1, 2, 3]);
    let rec = DeterministicStore::recover(&segments).unwrap();
    assert_eq!(rec.truncate_to, Some(intact as u64));
    let mut s = rec.store;
    assert_eq!(s.entry_count(), 3);
    assert_eq!(s.current_offset(), intact as u64);
    assert_eq!(s.current_segment_id(), 0);
    let a = s.append_entry(b"e3").unwrap();
    assert_eq!(a.index, 3);
    assert_eq!(s.head_hash(), {
        let mut t = DeterministicStore::new();
        for p in numbered(4) {
            t.append_entry(&p).unwrap();
        }
        t.head_hash()
    });
}

#[test]
fn recover_rejects_torn_record_before_the_last_segment() {
    let first = {
        let mut b = encode_record(b"a");
        b.extend_from_slice(&[9, 0, 0, 0, 1]);
        b
    };
    let second = encode_record(b"b");
    let segs = vec![encode_record(b"z"), first, second];
    assert_eq!(DeterministicStore::recover(&segs).err(), Some(StoreError::Corruption { segment: 1 }));
}

#[test]
fn recover_with_no_segments_starts_empty() {
    let rec = DeterministicStore::recover(&Vec::new()).unwrap();
    assert_eq!(rec.store.entry_count(), 0);
    assert_eq!(rec.store.current_segment_id(), 0);
    assert_eq!(rec.store.current_offset(), 0);
    assert!(rec.truncate_to.is_none());
}

#[test]
fn commit_twice_is_commit_once() {
    let mut store = DeterministicStore::new();
    store.append_entry(b"x").unwrap();
    store.append_entry(b"y").unwrap();
    assert_eq!(store.durable_count(), 0);
    assert_eq!(store.commit(), 0);
    let (count, offset, head, durable) = (store.entry_count(), store.current_offset(), store.head_hash(), store.durable_count());
    assert_eq!(store.commit(), 0);
    assert_eq!((store.entry_count(), store.current_offset(), store.head_hash(), store.durable_count()), (count, offset, head, durable));
    assert_eq!(durable, 2);
}

#[test]
fn frozen_store_refuses_writes_until_resync() {
    let mut store = DeterministicStore::new();
    store.append_entry(b"a").unwrap();
    store.freeze("divergence".to_string());
    assert!(store.is_frozen());
    assert_eq!(store.append_entry(b"b").err(), Some(StoreError::Frozen));
    assert_eq!(store.entry_count(), 1);
    store.resync();
    assert_eq!(store.append_entry(b"b").unwrap().index, 1);
}

#[test]
fn checkpoint_file_round_trips() {
    let c = Checkpoint { merkle_root: (0..32u8).collect(), entries_covered: 1024, window_start_index: 2048 };
    let bytes = encode_checkpoint(&c);
    assert_eq!(bytes.len(), 48);
    assert_eq!(&bytes[32..40], &[0, 8, 0, 0, 0, 0, 0, 0]);
    assert_eq!(&bytes[40..48], &[0, 4, 0, 0, 0, 0, 0, 0]);
    let d = decode_checkpoint(&bytes).unwrap();
    assert_eq!(d.merkle_root, c.merkle_root);
    assert_eq!(d.entries_covered, 1024);
    assert_eq!(d.window_start_index, 2048);
    assert!(decode_checkpoint(&bytes[..47]).is_none());
}

#[test]
fn hex_is_lowercase_two_digits_per_byte() {
    assert_eq!(to_hex(&[0x00, 0x0f, 0xa0, 0xff]), b"000fa0ff".to_vec());
    let h = blake3::hash(b"abc");
    assert_eq!(to_hex(h.as_bytes()), h.to_hex().as_bytes().to_vec());
}

fn precommit(node: u64, local: &str, head: &str) -> PrecommitMsg {
    PrecommitMsg { node_id: node, local_hash: local.to_string(), ledger_head: head.to_string() }
}

#[test]
fn sequencer_orders_agreeing_nodes() {
    let mut seq = Sequencer::new();
    let a = seq.handle_precommit(precommit(1, "h1", "anything")).unwrap();
    assert_eq!(a.order_id, 1);
    assert_eq!(a.target_hash, "h1");
    let b = seq.handle_precommit(precommit(2, "h2", "h1")).unwrap();
    assert_eq!(b.order_id, 2);
    assert_eq!(b.target_hash, "h2");
}

#[test]
fn sequencer_refuses_divergent_head() {
    let mut seq = Sequencer::new();
    seq.handle_precommit(precommit(1, "h1", "")).unwrap();
    let e = seq.handle_precommit(precommit(2, "h9", "h0")).err().unwrap();
    assert_eq!(e, "CLUSTER DIVERGENCE DETECTED. Sequencer head: h1 | Node head: h0");
    let ok = seq.handle_precommit(precommit(3, "h2", "h1")).unwrap();
    assert_eq!(ok.order_id, 2);
}

#[test]
fn diagnostic_proposal_is_read_only() {
    let p = ProposedAction::diagnostic();
    assert_eq!(p.tool_name, "sys_diagnostic");
    assert_eq!(p.capability_required, "sys:read");
    assert_eq!(p.risk_hint, "high");
    assert!(p.args.is_empty());
}

#[test]
fn segment_names_are_fixed_width_hex() {
    assert_eq!(segment_file_name(0), b"log_00000000.dat".to_vec());
    assert_eq!(segment_file_name(0x1a), b"log_0000001a.dat".to_vec());
    assert_eq!(segment_file_name(0xffff_ffff), b"log_ffffffff.dat".to_vec());
    assert_eq!(segment_file_name(0x1_0000_0000), b"log_100000000.dat".to_vec());
    assert_eq!(segment_file_name(u64::MAX), b"log_ffffffffffffffff.dat".to_vec());
    assert!(segment_file_name(9) < segment_file_name(10));
}

#[test]
fn segment_names_parse_back() {
    for id in [0u64, 1, 0x1a, 0xffff_ffff, 0x1_0000_0000, u64::MAX] {
        assert_eq!(parse_segment_file_name(&segment_file_name(id)), Some(id));
    }
    assert_eq!(parse_segment_file_name(b"log_0000001A.dat"), None);
    assert_eq!(parse_segment_file_name(b"log_1a.dat"), None);
    assert_eq!(parse_segment_file_name(b"log_000000001.dat"), None);
    assert_eq!(parse_segment_file_name(b"merkle.chk"), None);
    assert_eq!(parse_segment_file_name(b"log_00000001.tmp"), None);
    assert_eq!(parse_segment_file_name(b"log_10000000000000000.dat"), None);
}

#[test]
fn torn_tail_in_the_last_of_several_segments() {
    let mut first = encode_record(b"a");
    first.extend(encode_record(b"b"));
    let mut last = encode_record(b"c");
    let intact = last.len();
    last.extend_from_slice(&[50, 0, 0, 0, 9, 9]);
    let rec = DeterministicStore::recover(&vec![first, last]).unwrap();
    assert_eq!(rec.truncate_to, Some(intact as u64));
    assert_eq!(rec.store.entry_count(), 3);
    assert_eq!(rec.store.current_segment_id(), 1);
    assert_eq!(rec.store.current_offset(), intact as u64);
}
