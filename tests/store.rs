use kvs::codec::{decode_next, encode, Log};
use kvs::error::KvsError;
use kvs::kv::{KvStore, LogReference};
use kvs::log_helpers::{LogReader, LogWriter};

fn s(x: &str) -> String {
    x.to_string()
}

fn empty_store() -> KvStore {
    KvStore::open(Vec::new(), s("0.log")).unwrap()
}

fn reopen(store: &KvStore) -> KvStore {
    KvStore::open(store.segments(), s("fresh.log")).unwrap()
}

fn put_bytes(key: &str, value: &str) -> Vec<u8> {
    encode(&Log::Put { key: s(key), value: s(value) })
}

#[test]
fn encode_put_exact_bytes() {
    let b = put_bytes("a", "xy");
    let expected: Vec<u8> = vec![
        1, 1, 0, 0, 0, 0, 0, 0, 0, b'a', 2, 0, 0, 0, 0, 0, 0, 0, b'x', b'y',
    ];
    assert_eq!(b, expected);
}

#[test]
fn encode_rm_exact_bytes() {
    let b = encode(&Log::Rm { key: s("k") });
    let expected: Vec<u8> = vec![0, 1, 0, 0, 0, 0, 0, 0, 0, b'k'];
    assert_eq!(b, expected);
}

#[test]
fn round_trip_put() {
    let log = Log::Put { key: s("key1"), value: s("value1") };
    let b = encode(&log);
    let (back, n) = decode_next(&b, 0).unwrap().unwrap();
    assert_eq!(back, log);
    assert_eq!(n, b.len());
}

#[test]
fn round_trip_rm() {
    let log = Log::Rm { key: s("gone") };
    let b = encode(&log);
    let (back, n) = decode_next(&b, 0).unwrap().unwrap();
    assert_eq!(back, log);
    assert_eq!(n, b.len());
}

#[test]
fn round_trip_non_ascii_and_empty() {
    let log = Log::Put { key: s("clé ✓"), value: s("") };
    let b = encode(&log);
    assert_eq!(b.len(), 1 + 8 + "clé ✓".len() + 8);
    let (back, n) = decode_next(&b, 0).unwrap().unwrap();
    assert_eq!(back, log);
    assert_eq!(n, b.len());
}

#[test]
fn decode_sequence_reports_offsets() {
    let mut b = put_bytes("a", "1");
    let first = b.len();
    b.extend(encode(&Log::Rm { key: s("a") }));
    let (l1, n1) = decode_next(&b, 0).unwrap().unwrap();
    assert_eq!(l1, Log::Put { key: s("a"), value: s("1") });
    assert_eq!(n1, first);
    let (l2, n2) = decode_next(&b, n1).unwrap().unwrap();
    assert_eq!(l2, Log::Rm { key: s("a") });
    assert_eq!(n1 + n2, b.len());
    assert_eq!(decode_next(&b, b.len()), Ok(None));
}

#[test]
fn decode_truncated_is_malformed() {
    let b = put_bytes("key", "value");
    let cut = &b[..b.len() - 1];
    assert_eq!(decode_next(cut, 0), Err(KvsError::MalformedRecord));
}

#[test]
fn decode_bad_tag_is_malformed() {
    let b: Vec<u8> = vec![7, 0, 0];
    assert_eq!(decode_next(&b, 0), Err(KvsError::MalformedRecord));
}

#[test]
fn decode_invalid_utf8_is_malformed() {
    let b: Vec<u8> = vec![0, 1, 0, 0, 0, 0, 0, 0, 0, 0xff];
    assert_eq!(decode_next(&b, 0), Err(KvsError::MalformedRecord));
}

#[test]
fn last_write_wins() {
    let mut store = empty_store();
    store.set(s("k"), s("a")).unwrap();
    store.set(s("k"), s("b")).unwrap();
    assert_eq!(store.get(s("k")), Some(s("b")));
}

#[test]
fn remove_then_get_and_remove_again() {
    let mut store = empty_store();
    store.set(s("k"), s("v")).unwrap();
    store.remove(s("k")).unwrap();
    assert_eq!(store.get(s("k")), None);
    assert_eq!(store.remove(s("k")), Err(KvsError::KeyNotFound));
}

#[test]
fn set_is_visible_at_once() {
    let mut store = empty_store();
    let bytes = store.set(s("x"), s("42")).unwrap();
    assert_eq!(bytes, put_bytes("x", "42"));
    assert_eq!(store.get(s("x")), Some(s("42")));
}

#[test]
fn set_returns_appended_bytes() {
    let mut store = empty_store();
    let b1 = store.set(s("a"), s("1")).unwrap();
    let b2 = store.remove(s("a")).unwrap();
    assert_eq!(b2, encode(&Log::Rm { key: s("a") }));
    let segs = store.segments();
    assert_eq!(segs.len(), 1);
    assert_eq!(segs[0].0, s("0.log"));
    let mut all = b1.clone();
    all.extend(b2);
    assert_eq!(segs[0].1, all);
}

#[test]
fn replay_gives_same_reads() {
    let mut store = empty_store();
    store.set(s("a"), s("1")).unwrap();
    store.set(s("b"), s("2")).unwrap();
    store.set(s("a"), s("3")).unwrap();
    store.remove(s("b")).unwrap();
    store.set(s("c"), s("4")).unwrap();
    let again = reopen(&store);
    for k in ["a", "b", "c", "d"] {
        assert_eq!(again.get(s(k)), store.get(s(k)));
    }
    assert_eq!(again.get(s("a")), Some(s("3")));
    assert_eq!(again.get(s("b")), None);
}

#[test]
fn scenario_set_remove_reopen() {
    let mut store = empty_store();
    store.set(s("a"), s("1")).unwrap();
    store.set(s("b"), s("2")).unwrap();
    assert_eq!(store.get(s("a")), Some(s("1")));
    store.remove(s("a")).unwrap();
    assert_eq!(store.get(s("a")), None);
    let again = reopen(&store);
    assert_eq!(again.get(s("b")), Some(s("2")));
    assert_eq!(again.get(s("a")), None);
}

#[test]
fn scenario_remove_missing_on_empty_store() {
    let mut store = empty_store();
    assert_eq!(store.remove(s("missing")), Err(KvsError::KeyNotFound));
}

#[test]
fn scenario_later_segment_wins() {
    let segs = vec![
        (s("1.log"), put_bytes("K", "old")),
        (s("2.log"), put_bytes("K", "new")),
    ];
    let store = KvStore::open(segs, s("3.log")).unwrap();
    assert_eq!(store.get(s("K")), Some(s("new")));
}

#[test]
fn writes_go_to_last_segment() {
    let segs = vec![(s("1.log"), put_bytes("a", "1")), (s("2.log"), Vec::new())];
    let mut store = KvStore::open(segs, s("3.log")).unwrap();
    store.set(s("b"), s("2")).unwrap();
    let out = store.segments();
    assert_eq!(out[0].1, put_bytes("a", "1"));
    assert_eq!(out[1].0, s("2.log"));
    assert_eq!(out[1].1, put_bytes("b", "2"));
    assert_eq!(store.get(s("a")), Some(s("1")));
}

#[test]
fn empty_directory_starts_fresh_segment() {
    let store = KvStore::open(Vec::new(), s("start.log")).unwrap();
    let segs = store.segments();
    assert_eq!(segs.len(), 1);
    assert_eq!(segs[0].0, s("start.log"));
    assert!(segs[0].1.is_empty());
    assert_eq!(store.get(s("any")), None);
}

#[test]
fn open_malformed_segment_fails() {
    let mut bad = put_bytes("a", "1");
    bad.push(1);
    bad.push(3);
    let segs = vec![(s("1.log"), bad)];
    assert!(matches!(KvStore::open(segs, s("2.log")), Err(KvsError::MalformedRecord)));
}

#[test]
fn removed_key_after_replay_keeps_tombstone_entry() {
    let mut store = empty_store();
    store.set(s("a"), s("1")).unwrap();
    store.remove(s("a")).unwrap();
    let mut again = reopen(&store);
    assert_eq!(again.get(s("a")), None);
    // replay indexes the removal record itself, so a second removal is accepted
    assert!(again.remove(s("a")).is_ok());
    assert_eq!(again.get(s("a")), None);
}

#[test]
fn log_reference_new_keeps_fields() {
    let r = LogReference::new(s("f.log"), 10, 20);
    assert_eq!(r.filename, s("f.log"));
    assert_eq!(r.pos, 10);
    assert_eq!(r.size, 20);
}

#[test]
fn log_reader_reads_and_seeks() {
    let mut r = LogReader::new(vec![1, 2, 3, 4, 5]);
    assert_eq!(r.pos, 0);
    assert_eq!(r.read(2), vec![1, 2]);
    assert_eq!(r.pos, 2);
    assert_eq!(r.read(10), vec![3, 4, 5]);
    assert_eq!(r.pos, 5);
    assert!(r.read(1).is_empty());
    assert_eq!(r.seek(1), 1);
    assert_eq!(r.read_exact(1, 3), Ok(vec![2, 3, 4]));
    assert_eq!(r.pos, 4);
    assert_eq!(r.read_exact(3, 3), Err(KvsError::Truncated));
    assert_eq!(r.read_at(0, 5), Ok(vec![1, 2, 3, 4, 5]));
    r.append(&vec![6]);
    assert_eq!(r.data, vec![1, 2, 3, 4, 5, 6]);
}

#[test]
fn log_writer_tracks_end() {
    let mut w = LogWriter::new(s("w.log"), 7);
    assert_eq!(w.pos, 7);
    assert_eq!(w.write(&vec![1, 2, 3]), 3);
    assert_eq!(w.pos, 10);
    assert_eq!(w.flush(), vec![1, 2, 3]);
    assert!(w.pending.is_empty());
    assert_eq!(w.pos, 10);
    assert_eq!(w.filename, s("w.log"));
}
