use std::collections::HashMap;

use kvs::engines::kvs::{FileOp, Segment};
use kvs::KvStore;

fn open_empty() -> KvStore {
    KvStore::open(Vec::new()).unwrap()
}

fn reopen(store: &KvStore) -> KvStore {
    KvStore::open(store.export_segments()).unwrap()
}

fn dir_size(store: &KvStore) -> u64 {
    store.segment_sizes().iter().map(|&(_, n)| n).sum()
}

#[test]
fn open_set_get_basic() {
    // open an empty dir; set("a","1"); get("a") is Some("1"); get("b") is None
    let mut store = open_empty();
    store.set("a".to_owned(), "1".to_owned()).unwrap();
    assert_eq!(store.get("a".to_owned()).unwrap(), Some("1".to_owned()));
    assert_eq!(store.get("b".to_owned()).unwrap(), None);
}

#[test]
fn overwrite_then_remove() {
    let mut store = open_empty();
    store.set("a".to_owned(), "1".to_owned()).unwrap();
    store.set("a".to_owned(), "2".to_owned()).unwrap();
    assert_eq!(store.get("a".to_owned()).unwrap(), Some("2".to_owned()));
    store.remove("a".to_owned()).unwrap();
    assert_eq!(store.get("a".to_owned()).unwrap(), None);
    // removing an absent key reports key-not-found
    let again = store.remove("a".to_owned());
    assert!(matches!(again, Err(kvs::KVError::KeyNoExist)));
}

#[test]
fn matches_reference_mapping() {
    // a deterministic operation sequence agrees with an in-memory map after
    // every step
    let mut store = open_empty();
    let mut reference: HashMap<String, String> = HashMap::new();
    let mut seed: u64 = 0x2545F4914F6CDD1D;
    for step in 0..600u64 {
        seed = seed.wrapping_mul(6364136223846793005).wrapping_add(1442695040888963407);
        let key = format!("k{}", seed % 17);
        let op = (seed >> 33) % 3;
        match op {
            0 => {
                let value = format!("v{}", step);
                store.set(key.clone(), value.clone()).unwrap();
                reference.insert(key.clone(), value);
            }
            1 => {
                let got = store.get(key.clone()).unwrap();
                assert_eq!(got, reference.get(&key).cloned());
            }
            _ => {
                let removed = store.remove(key.clone());
                if reference.remove(&key).is_some() {
                    assert!(removed.is_ok());
                } else {
                    assert!(matches!(removed, Err(kvs::KVError::KeyNoExist)));
                }
            }
        }
        for probe in 0..17u64 {
            let k = format!("k{}", probe);
            assert_eq!(store.get(k.clone()).unwrap(), reference.get(&k).cloned());
        }
    }
}

#[test]
fn close_and_reopen_is_noop() {
    let mut store = open_empty();
    for i in 0..50 {
        store.set(format!("key{}", i), format!("value{}", i)).unwrap();
    }
    store.remove("key7".to_owned()).unwrap();
    store.set("key3".to_owned(), "fresh".to_owned()).unwrap();
    let reopened = reopen(&store);
    for i in 0..50 {
        let k = format!("key{}", i);
        assert_eq!(store.get(k.clone()).unwrap(), reopened.get(k).unwrap());
    }
    assert_eq!(reopened.get("key7".to_owned()).unwrap(), None);
    assert_eq!(reopened.get("key3".to_owned()).unwrap(), Some("fresh".to_owned()));
}

#[test]
fn compaction_preserves_visible_state() {
    // interleave mutations with enough churn to force several compactions
    let mut store = open_empty();
    let mut reference: HashMap<String, String> = HashMap::new();
    let big = "x".repeat(64 * 1024);
    let start_gen = store.current_gen();
    for round in 0..60 {
        for k in 0..4 {
            let key = format!("churn{}", k);
            let value = format!("{}-{}", big, round);
            store.set(key.clone(), value.clone()).unwrap();
            reference.insert(key, value);
        }
        for k in 0..4 {
            let key = format!("churn{}", k);
            assert_eq!(store.get(key.clone()).unwrap(), reference.get(&key).cloned());
        }
    }
    assert!(store.current_gen() > start_gen, "churn should have compacted at least once");
    for (key, value) in &reference {
        assert_eq!(store.get(key.clone()).unwrap(), Some(value.clone()));
    }
}

#[test]
fn compaction_bounds_directory_size() {
    // after a compaction the segments hold exactly the live records (plus
    // one empty active segment)
    let mut store = open_empty();
    let value = "y".repeat(1100 * 1024);
    store.set("big".to_owned(), value.clone()).unwrap();
    let gen_before = store.current_gen();
    store.set("big".to_owned(), value.clone()).unwrap();
    // the displaced record passed the threshold, so this write compacted
    assert_eq!(store.current_gen(), gen_before + 2);
    assert_eq!(store.stale_bytes(), 0);
    let live = kvs::records::encode_command(&kvs::records::Command::Put {
        key: "big".to_owned(),
        value,
    })
    .len() as u64;
    assert_eq!(dir_size(&store), live);
}

#[test]
fn gens_strictly_increase() {
    let mut store = open_empty();
    let mut last_gen = store.current_gen();
    let value = "z".repeat(600 * 1024);
    for i in 0..6 {
        store.set("k".to_owned(), format!("{}{}", value, i)).unwrap();
        let g = store.current_gen();
        assert!(g >= last_gen);
        last_gen = g;
        let sizes = store.segment_sizes();
        for w in sizes.windows(2) {
            assert!(w[0].0 < w[1].0, "segment gens must strictly increase");
        }
    }
    assert!(last_gen > 1, "compactions must have advanced the gen");
}

#[test]
fn empty_key_and_value_round_trip() {
    let mut store = open_empty();
    store.set(String::new(), String::new()).unwrap();
    assert_eq!(store.get(String::new()).unwrap(), Some(String::new()));
    let reopened = reopen(&store);
    assert_eq!(reopened.get(String::new()).unwrap(), Some(String::new()));
}

#[test]
fn oversized_write_triggers_compaction_on_next_write() {
    let mut store = open_empty();
    let huge = "h".repeat(1024 * 1024 + 10);
    store.set("huge".to_owned(), huge).unwrap();
    let gen_after_first = store.current_gen();
    assert_eq!(gen_after_first, 1, "the first write alone displaces nothing");
    store.set("huge".to_owned(), "small".to_owned()).unwrap();
    assert_eq!(store.current_gen(), gen_after_first + 2);
    assert_eq!(store.get("huge".to_owned()).unwrap(), Some("small".to_owned()));
}

#[test]
fn truncated_tail_loads_prefix() {
    let mut store = open_empty();
    store.set("first".to_owned(), "1".to_owned()).unwrap();
    store.set("second".to_owned(), "2".to_owned()).unwrap();
    store.set("third".to_owned(), "3".to_owned()).unwrap();
    let mut segs = store.export_segments();
    // cut the active segment in the middle of its last record
    let active = segs.last_mut().unwrap();
    let cut = active.data.len() - 7;
    active.data.truncate(cut);
    let reopened = KvStore::open(segs).unwrap();
    assert_eq!(reopened.get("first".to_owned()).unwrap(), Some("1".to_owned()));
    assert_eq!(reopened.get("second".to_owned()).unwrap(), Some("2".to_owned()));
    assert_eq!(reopened.get("third".to_owned()).unwrap(), None);
}

#[test]
fn garbage_tail_loads_prefix() {
    let mut store = open_empty();
    store.set("solid".to_owned(), "value".to_owned()).unwrap();
    let mut segs = store.export_segments();
    segs.last_mut().unwrap().data.extend_from_slice(b"{\"Nonsense\" this is no record");
    let reopened = KvStore::open(segs).unwrap();
    assert_eq!(reopened.get("solid".to_owned()).unwrap(), Some("value".to_owned()));
}

#[test]
fn many_keys_survive_reopen() {
    let mut store = open_empty();
    let payload = "p".repeat(1024);
    for i in 0..10_000u32 {
        store.set(format!("key{:05}", i), format!("{}{}", payload, i)).unwrap();
    }
    let reopened = reopen(&store);
    let mut sample: u32 = 7;
    for _ in 0..100 {
        sample = (sample.wrapping_mul(2654435761)) % 10_000;
        let k = format!("key{:05}", sample);
        assert_eq!(
            reopened.get(k).unwrap(),
            Some(format!("{}{}", payload, sample)),
        );
    }
}

#[test]
fn heavy_overwrites_stay_bounded() {
    let mut store = open_empty();
    let payload = "q".repeat(1024);
    for i in 0..10_000u32 {
        store.set("hot".to_owned(), format!("{}{}", payload, i)).unwrap();
    }
    assert!(dir_size(&store) < 4 * 1024 * 1024, "compaction must bound the directory");
    assert_eq!(
        store.get("hot".to_owned()).unwrap(),
        Some(format!("{}{}", payload, 9_999)),
    );
}

#[test]
fn pending_ops_describe_the_directory() {
    // applying the queued file operations to an in-memory "directory"
    // reproduces exactly the store's segments
    let mut store = open_empty();
    let mut disk: HashMap<u64, Vec<u8>> = HashMap::new();
    let mut apply = |disk: &mut HashMap<u64, Vec<u8>>, ops: Vec<FileOp>| {
        for op in ops {
            match op {
                FileOp::Create { gen } => {
                    disk.insert(gen, Vec::new());
                }
                FileOp::Append { gen, bytes } => {
                    disk.entry(gen).or_default().extend_from_slice(&bytes);
                }
                FileOp::Delete { gen } => {
                    disk.remove(&gen);
                }
            }
        }
    };
    apply(&mut disk, store.take_pending());
    let value = "w".repeat(400 * 1024);
    for i in 0..8 {
        store.set(format!("k{}", i % 2), format!("{}{}", value, i)).unwrap();
        apply(&mut disk, store.take_pending());
    }
    store.remove("k0".to_owned()).unwrap();
    apply(&mut disk, store.take_pending());
    let segs: Vec<Segment> = store.export_segments();
    assert_eq!(disk.len(), segs.len());
    for seg in segs {
        assert_eq!(disk.get(&seg.gen).map(Vec::as_slice), Some(seg.data.as_slice()));
    }
}

#[test]
fn reopen_from_applied_ops_matches() {
    // the file-op trail alone is enough to rebuild the store
    let mut store = open_empty();
    let mut disk: HashMap<u64, Vec<u8>> = HashMap::new();
    let mut sync = |disk: &mut HashMap<u64, Vec<u8>>, store: &mut KvStore| {
        for op in store.take_pending() {
            match op {
                FileOp::Create { gen } => {
                    disk.insert(gen, Vec::new());
                }
                FileOp::Append { gen, bytes } => {
                    disk.entry(gen).or_default().extend_from_slice(&bytes);
                }
                FileOp::Delete { gen } => {
                    disk.remove(&gen);
                }
            }
        }
    };
    sync(&mut disk, &mut store);
    store.set("alpha".to_owned(), "1".to_owned()).unwrap();
    store.set("beta".to_owned(), "2".to_owned()).unwrap();
    store.remove("alpha".to_owned()).unwrap();
    sync(&mut disk, &mut store);
    let mut gens: Vec<u64> = disk.keys().copied().collect();
    gens.sort_unstable();
    let segs: Vec<Segment> = gens
        .into_iter()
        .map(|gen| Segment { gen, data: disk[&gen].clone() })
        .collect();
    let rebuilt = KvStore::open(segs).unwrap();
    assert_eq!(rebuilt.get("alpha".to_owned()).unwrap(), None);
    assert_eq!(rebuilt.get("beta".to_owned()).unwrap(), Some("2".to_owned()));
}

#[test]
fn error_messages_match() {
    assert_eq!(kvs::KVError::KeyNoExist.message(), "Error: Key not found!");
    assert_eq!(kvs::KVError::Io.message(), "Error: an io error happened!");
    assert_eq!(
        kvs::KVError::EngineNotMatch.message(),
        "Error: assigned engine does not match existing one!"
    );
}
