use std::collections::BTreeMap;

use kvs::generation::stale_generations;
use kvs::{KvStore, KvsError, COMPACTION_THRESHOLD};

/// Segment files, by generation, kept in memory.
type Disk = BTreeMap<u64, Vec<u8>>;

fn open(disk: &mut Disk) -> KvStore {
    let segments: Vec<(u64, Vec<u8>)> = disk.iter().map(|(g, b)| (*g, b.clone())).collect();
    let store = KvStore::open(&segments).expect("replay");
    disk.insert(store.current_generation(), Vec::new());
    store
}

fn compact(store: &mut KvStore, disk: &mut Disk) {
    let moves = store.compact().expect("fits");
    let cg = store.safe_generation();
    let mut seg = Vec::new();
    let mut last_key: Option<String> = None;
    for (key, from, to) in moves {
        if let Some(prev) = &last_key {
            assert!(prev.as_bytes() < key.as_bytes());
        }
        assert_eq!(store.locate(&key), Some(to));
        assert_eq!(to.pos as usize, seg.len());
        last_key = Some(key);
        let src = &disk[&from.gen];
        seg.extend_from_slice(&src[from.pos as usize..(from.pos + from.len) as usize]);
    }
    disk.insert(cg, seg);
    disk.insert(store.current_generation(), Vec::new());
    let gens: Vec<u64> = disk.keys().cloned().collect();
    for g in stale_generations(&gens, cg) {
        disk.remove(&g);
    }
}

fn set(store: &mut KvStore, disk: &mut Disk, k: &str, v: &str) -> bool {
    let rec = KvStore::set_record(&k.to_string(), &v.to_string());
    disk.get_mut(&store.current_generation()).unwrap().extend_from_slice(&rec);
    let due = store.set(k.to_string(), v.to_string(), &rec);
    if due {
        compact(store, disk);
    }
    due
}

fn remove(store: &mut KvStore, disk: &mut Disk, k: &str) -> Result<(), KvsError> {
    let rec = store.remove_record(&k.to_string())?;
    disk.get_mut(&store.current_generation()).unwrap().extend_from_slice(&rec);
    if store.remove(k.to_string(), &rec) {
        compact(store, disk);
    }
    Ok(())
}

fn get(store: &KvStore, disk: &Disk, k: &str) -> Result<Option<String>, KvsError> {
    match store.locate(&k.to_string()) {
        None => Ok(None),
        Some(p) => {
            let seg = &disk[&p.gen];
            KvStore::read_value(&seg[p.pos as usize..(p.pos + p.len) as usize]).map(Some)
        }
    }
}

fn total_bytes(disk: &Disk) -> usize {
    disk.values().map(|b| b.len()).sum()
}

#[test]
fn set_then_get() {
    let mut disk = Disk::new();
    let mut s = open(&mut disk);
    assert_eq!(s.current_generation(), 1);
    set(&mut s, &mut disk, "key1", "value1");
    assert_eq!(get(&s, &disk, "key1").unwrap(), Some("value1".to_string()));
    assert_eq!(get(&s, &disk, "missing").unwrap(), None);
}

#[test]
fn overwrite_keeps_last_value() {
    let mut disk = Disk::new();
    let mut s = open(&mut disk);
    set(&mut s, &mut disk, "k", "v1");
    set(&mut s, &mut disk, "k", "v2");
    assert_eq!(get(&s, &disk, "k").unwrap(), Some("v2".to_string()));
    let first = KvStore::set_record(&"k".to_string(), &"v1".to_string()).len() as u64;
    assert_eq!(s.stale_bytes(), first);
}

#[test]
fn tombstone_hides_key() {
    let mut disk = Disk::new();
    let mut s = open(&mut disk);
    set(&mut s, &mut disk, "k", "v");
    let before = s.write_offset();
    remove(&mut s, &mut disk, "k").unwrap();
    assert_eq!(get(&s, &disk, "k").unwrap(), None);
    let written = s.write_offset();
    assert!(matches!(remove(&mut s, &mut disk, "k"), Err(KvsError::KeyNotFound)));
    assert_eq!(s.write_offset(), written);
    assert!(written > before);
    let set_len = KvStore::set_record(&"k".to_string(), &"v".to_string()).len() as u64;
    assert_eq!(s.stale_bytes(), set_len + (written - before));
}

#[test]
fn remove_of_absent_key_writes_nothing() {
    let mut disk = Disk::new();
    let s = open(&mut disk);
    assert!(matches!(s.remove_record(&"nope".to_string()), Err(KvsError::KeyNotFound)));
}

#[test]
fn reopen_reproduces_contents() {
    let mut disk = Disk::new();
    let mut s = open(&mut disk);
    for i in 0..50 {
        set(&mut s, &mut disk, &format!("key{}", i % 7), &format!("value{}", i));
        if i % 5 == 0 {
            let _ = remove(&mut s, &mut disk, &format!("key{}", (i + 3) % 7));
        }
    }
    let mut expected = Vec::new();
    for i in 0..7 {
        expected.push(get(&s, &disk, &format!("key{}", i)).unwrap());
    }
    let stale = s.stale_bytes();
    let t = open(&mut disk);
    assert_eq!(t.current_generation(), 2);
    assert_eq!(t.stale_bytes(), stale);
    for i in 0..7 {
        assert_eq!(get(&t, &disk, &format!("key{}", i)).unwrap(), expected[i]);
    }
}

#[test]
fn scenario_across_reopen() {
    let mut disk = Disk::new();
    let mut s = open(&mut disk);
    set(&mut s, &mut disk, "a", "1");
    set(&mut s, &mut disk, "b", "2");
    remove(&mut s, &mut disk, "a").unwrap();
    assert_eq!(get(&s, &disk, "a").unwrap(), None);
    assert_eq!(get(&s, &disk, "b").unwrap(), Some("2".to_string()));
    let t = open(&mut disk);
    assert_eq!(get(&t, &disk, "b").unwrap(), Some("2".to_string()));
    assert_eq!(get(&t, &disk, "a").unwrap(), None);
}

#[test]
fn compaction_keeps_values_and_shrinks_log() {
    let mut disk = Disk::new();
    let mut s = open(&mut disk);
    let big = "x".repeat(1000);
    let mut compacted = false;
    let mut size_before = 0;
    for i in 0..2000 {
        let key = format!("k{}", i % 3);
        let value = format!("{}{}", big, i);
        let size = total_bytes(&disk) + KvStore::set_record(&key, &value).len();
        if set(&mut s, &mut disk, &key, &value) {
            compacted = true;
            size_before = size;
            break;
        }
    }
    assert!(compacted);
    assert_eq!(s.stale_bytes(), 0);
    assert_eq!(s.safe_generation(), 2);
    assert_eq!(s.current_generation(), 3);
    assert!(total_bytes(&disk) < size_before);
    assert_eq!(disk.keys().cloned().collect::<Vec<u64>>(), vec![2, 3]);
    let last = (0..2000).find(|_| false).unwrap_or(0);
    let _ = last;
    for k in 0..3 {
        let v = get(&s, &disk, &format!("k{}", k)).unwrap().unwrap();
        assert!(v.starts_with(&big));
    }
    let t = open(&mut disk);
    for k in 0..3 {
        assert_eq!(get(&t, &disk, &format!("k{}", k)).unwrap(), get(&s, &disk, &format!("k{}", k)).unwrap());
    }
}

#[test]
fn compaction_threshold_is_one_mebibyte() {
    assert_eq!(COMPACTION_THRESHOLD, 1024 * 1024);
}

#[test]
fn corrupt_segment_fails_open() {
    let segments = vec![(1u64, b"{\"Set\":{\"key\":\"a\"".to_vec())];
    assert!(matches!(KvStore::open(&segments), Err(KvsError::Serde(_))));
}

#[test]
fn open_replays_in_generation_order() {
    let a1 = KvStore::set_record(&"a".to_string(), &"1".to_string());
    let a2 = KvStore::set_record(&"a".to_string(), &"2".to_string());
    let segments = vec![(3u64, a1.clone()), (7u64, a2.clone())];
    let s = KvStore::open(&segments).unwrap();
    assert_eq!(s.current_generation(), 8);
    assert_eq!(s.stale_bytes(), a1.len() as u64);
    let p = s.locate(&"a".to_string()).unwrap();
    assert_eq!((p.gen, p.pos, p.len), (7, 0, a2.len() as u64));
}

#[test]
fn position_from_byte_range() {
    let p = kvs::CommandPos::from_range(4, 10, 25);
    assert_eq!((p.gen, p.pos, p.len), (4, 10, 15));
    let empty = kvs::CommandPos::from_range(1, 7, 7);
    assert_eq!(empty.len, 0);
}

#[test]
fn replayed_tombstone_of_absent_key_is_stale() {
    let rm = kvs::codec::encode_command(&kvs::Command::remove("ghost".to_string()));
    let segments = vec![(1u64, rm.clone())];
    let s = KvStore::open(&segments).unwrap();
    assert_eq!(s.stale_bytes(), rm.len() as u64);
    assert!(s.locate(&"ghost".to_string()).is_none());
}

#[test]
fn position_taken_before_compaction_still_reads_right() {
    let mut disk = Disk::new();
    let mut s = open(&mut disk);
    set(&mut s, &mut disk, "a", "old");
    set(&mut s, &mut disk, "a", "kept");
    set(&mut s, &mut disk, "b", "2");
    let pos = s.locate(&"a".to_string()).unwrap();
    let old_disk = disk.clone();
    compact(&mut s, &mut disk);
    assert!(!disk.contains_key(&pos.gen));
    let seg = &old_disk[&pos.gen];
    let early = KvStore::read_value(&seg[pos.pos as usize..(pos.pos + pos.len) as usize]).unwrap();
    assert_eq!(early, "kept");
    assert_eq!(get(&s, &disk, "a").unwrap(), Some(early));
}
