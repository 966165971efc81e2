//! End-to-end scenarios against the storage engine.

use kvs::store::{sort_segments, FileOp, KvStore, Segment};
use kvs::Error;
use std::collections::BTreeMap;

fn open_empty() -> KvStore {
    KvStore::open(Vec::new()).expect("open on no files must succeed")
}

fn reopen(store: &KvStore) -> KvStore {
    let files: Vec<Segment> = store.segment_files().clone();
    KvStore::open(files).expect("reopen on mirrored files must succeed")
}

fn dir_size(store: &KvStore) -> usize {
    store.segment_files().iter().map(|s| s.data.len()).sum()
}

#[test]
fn get_stored_values() {
    let mut st = open_empty();
    st.set("a".to_string(), "1".to_string()).unwrap();
    st.set("b".to_string(), "2".to_string()).unwrap();
    assert_eq!(st.get("a".to_string()).unwrap(), Some("1".to_string()));
    assert_eq!(st.get("b".to_string()).unwrap(), Some("2".to_string()));
    assert_eq!(st.get("c".to_string()).unwrap(), None);
}

#[test]
fn overwrite_and_remove() {
    let mut st = open_empty();
    st.set("a".to_string(), "1".to_string()).unwrap();
    st.set("a".to_string(), "2".to_string()).unwrap();
    assert_eq!(st.get("a".to_string()).unwrap(), Some("2".to_string()));
    st.remove("a".to_string()).unwrap();
    assert_eq!(st.get("a".to_string()).unwrap(), None);
    match st.remove("a".to_string()) {
        Err(Error::DoesNotExist { key }) => assert_eq!(key, "a"),
        other => panic!("second removal must report a missing key, got {:?}", other.is_ok()),
    }
}

#[test]
fn persistence_across_reopen() {
    let mut st = open_empty();
    st.set("k".to_string(), "v".to_string()).unwrap();
    let st2 = reopen(&st);
    assert_eq!(st2.get("k".to_string()).unwrap(), Some("v".to_string()));
}

#[test]
fn persistence_of_removals() {
    let mut st = open_empty();
    st.set("a".to_string(), "1".to_string()).unwrap();
    st.set("b".to_string(), "2".to_string()).unwrap();
    st.remove("a".to_string()).unwrap();
    let st2 = reopen(&st);
    assert_eq!(st2.get("a".to_string()).unwrap(), None);
    assert_eq!(st2.get("b".to_string()).unwrap(), Some("2".to_string()));
}

/// A tiny deterministic generator for 32-byte values.
fn pseudo_random_value(state: &mut u64) -> String {
    let mut v = String::new();
    for _ in 0..32 {
        *state = state.wrapping_mul(6364136223846793005).wrapping_add(1442695040888963407);
        let b = (*state >> 33) % 26;
        v.push((b'a' + b as u8) as char);
    }
    v
}

#[test]
fn compaction_reclaims_space() {
    let mut st = open_empty();
    let mut rng: u64 = 7;
    let mut last = String::new();
    for _ in 0..10_000 {
        last = pseudo_random_value(&mut rng);
        st.set("k".to_string(), last.clone()).unwrap();
    }
    let size = dir_size(&st);
    assert!(size < 2 * 1024 * 1024, "directory size {} must stay bounded", size);
    assert_eq!(st.get("k".to_string()).unwrap(), Some(last.clone()));
    // Keep overwriting until the stale bytes cross the threshold: the
    // write that crosses it compacts inline and the directory shrinks
    // back to the live set plus the compaction output and a fresh log.
    while st.last_retired_id() == 0 {
        last = pseudo_random_value(&mut rng);
        st.set("k".to_string(), last.clone()).unwrap();
    }
    assert!(st.uncompacted_bytes() <= 1024 * 1024);
    let size = dir_size(&st);
    assert!(size < 2 * 1024 * 1024, "directory size {} must stay bounded", size);
    assert!(st.segment_files().len() == 2);
    assert_eq!(st.get("k".to_string()).unwrap(), Some(last));
}

#[test]
fn compaction_preserves_contents() {
    let mut st = open_empty();
    for i in 0..100 {
        st.set(format!("key{}", i), format!("val{}", i)).unwrap();
    }
    st.remove("key3".to_string()).unwrap();
    let before_active = st.active_segment_id();
    st.compact().unwrap();
    assert_eq!(st.active_segment_id(), before_active + 2);
    assert_eq!(st.uncompacted_bytes(), 0);
    assert_eq!(st.segment_files().len(), 2);
    for i in 0..100 {
        let expect = if i == 3 { None } else { Some(format!("val{}", i)) };
        assert_eq!(st.get(format!("key{}", i)).unwrap(), expect);
    }
    let st2 = reopen(&st);
    assert_eq!(st2.get("key42".to_string()).unwrap(), Some("val42".to_string()));
}

#[test]
fn recovery_after_partial_compaction() {
    let mut st = open_empty();
    for i in 0..50 {
        st.set(format!("key{}", i), format!("val{}", i)).unwrap();
    }
    // The files as they stood before compaction.
    let old_files: Vec<Segment> = st.segment_files().clone();
    st.compact().unwrap();
    let compacted: Vec<Segment> = st.segment_files().clone();
    // A crash right after the compaction output was written leaves the old
    // files beside the new ones; replaying old ids first and the output
    // last keeps every key.
    let mut crash_state = old_files;
    for seg in compacted {
        crash_state.push(seg);
    }
    let st2 = KvStore::open(crash_state).expect("recovery must replay the mixed directory");
    for i in 0..50 {
        assert_eq!(st2.get(format!("key{}", i)).unwrap(), Some(format!("val{}", i)));
    }
}

#[test]
fn monotone_segment_ids() {
    let mut st = open_empty();
    let mut max_seen = st.active_segment_id();
    st.set("a".to_string(), "1".to_string()).unwrap();
    let st2 = reopen(&st);
    assert!(st2.active_segment_id() > max_seen);
    max_seen = st2.active_segment_id();
    let mut st3 = reopen(&st2);
    assert!(st3.active_segment_id() > max_seen);
    max_seen = st3.active_segment_id();
    st3.compact().unwrap();
    assert!(st3.active_segment_id() > max_seen);
}

#[test]
fn pending_ops_rebuild_the_files() {
    let mut disk: BTreeMap<u32, Vec<u8>> = BTreeMap::new();
    let mut st = open_empty();
    let mut apply = |disk: &mut BTreeMap<u32, Vec<u8>>, ops: Vec<FileOp>| {
        for op in ops {
            match op {
                FileOp::Create { id } => {
                    disk.insert(id, Vec::new());
                }
                FileOp::Append { id, bytes } => {
                    disk.get_mut(&id).expect("append to a created file").extend(bytes);
                }
                FileOp::Delete { id } => {
                    disk.remove(&id);
                }
            }
        }
    };
    apply(&mut disk, st.take_pending());
    for i in 0..2000 {
        st.set(format!("key{}", i % 5), format!("some value number {}", i)).unwrap();
        if i % 3 == 0 {
            apply(&mut disk, st.take_pending());
        }
    }
    st.remove("key1".to_string()).unwrap();
    apply(&mut disk, st.take_pending());
    let files: Vec<(u32, Vec<u8>)> =
        st.segment_files().iter().map(|s| (s.id, s.data.clone())).collect();
    let mirrored: Vec<(u32, Vec<u8>)> = disk.into_iter().collect();
    assert_eq!(files, mirrored, "mirrored files must equal the in-memory segments");
}

#[test]
fn empty_keys_and_values() {
    let mut st = open_empty();
    st.set("".to_string(), "".to_string()).unwrap();
    assert_eq!(st.get("".to_string()).unwrap(), Some("".to_string()));
    st.set("spaced key".to_string(), "value with\nnewline and R 7\n".to_string()).unwrap();
    assert_eq!(
        st.get("spaced key".to_string()).unwrap(),
        Some("value with\nnewline and R 7\n".to_string())
    );
    let st2 = reopen(&st);
    assert_eq!(st2.get("".to_string()).unwrap(), Some("".to_string()));
}

#[test]
fn unicode_round_trip() {
    let mut st = open_empty();
    st.set("clé".to_string(), "näyttö 🗝".to_string()).unwrap();
    assert_eq!(st.get("clé".to_string()).unwrap(), Some("näyttö 🗝".to_string()));
    let st2 = reopen(&st);
    assert_eq!(st2.get("clé".to_string()).unwrap(), Some("näyttö 🗝".to_string()));
}

#[test]
fn offsets_point_into_segments() {
    let mut st = open_empty();
    assert!(st.offset_of(&"a".to_string()).is_none());
    st.set("a".to_string(), "1".to_string()).unwrap();
    let off = st.offset_of(&"a".to_string()).expect("a written key has an offset");
    let seg = st
        .segment_files()
        .iter()
        .find(|s| s.id == off.file_id)
        .expect("the offset names an existing segment");
    assert_eq!(
        seg.data[off.start as usize..off.end as usize].to_vec(),
        b"S 00000000000000000001 a 00000000000000000001 1\n".to_vec()
    );
}

#[test]
fn sorting_prepares_unordered_directories() {
    let mut st = open_empty();
    for i in 0..20 {
        st.set(format!("key{}", i), format!("val{}", i)).unwrap();
    }
    st.compact().unwrap();
    st.set("late".to_string(), "entry".to_string()).unwrap();
    // Hand the files over in reverse, as a directory listing might.
    let mut shuffled: Vec<Segment> = st.segment_files().clone();
    shuffled.reverse();
    let sorted = sort_segments(shuffled);
    let ids: Vec<u32> = sorted.iter().map(|s| s.id).collect();
    let expect: Vec<u32> = st.segment_files().iter().map(|s| s.id).collect();
    assert_eq!(ids, expect, "sorting must restore ascending id order");
    let st2 = KvStore::open(sorted).expect("open accepts the sorted files");
    assert_eq!(st2.get("key7".to_string()).unwrap(), Some("val7".to_string()));
    assert_eq!(st2.get("late".to_string()).unwrap(), Some("entry".to_string()));
}

#[test]
fn corrupt_log_is_rejected() {
    let seg = Segment { id: 1, data: b"this is not a record".to_vec() };
    match KvStore::open(vec![seg]) {
        Err(Error::CorruptLog) => {}
        _ => panic!("a malformed segment must fail recovery with a corrupt-log error"),
    }
    let truncated = Segment { id: 1, data: b"S 0000000000000000000".to_vec() };
    match KvStore::open(vec![truncated]) {
        Err(Error::CorruptLog) => {}
        _ => panic!("a truncated record must fail recovery with a corrupt-log error"),
    }
}
