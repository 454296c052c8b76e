//! End-to-end scenarios for the storage engine, with the test harness
//! playing the part of the filesystem: it keeps one byte buffer per log
//! file and performs exactly the appends, reads, creations and deletions
//! the engine asks for.

use std::collections::BTreeMap;

use kvs::{KvStore, KvsError, LogFile};

/// The log directory: one byte buffer per version.
struct MemDir {
    files: BTreeMap<u64, Vec<u8>>,
}

impl MemDir {
    fn new() -> MemDir {
        MemDir { files: BTreeMap::new() }
    }

    fn total_bytes(&self) -> usize {
        self.files.values().map(|d| d.len()).sum()
    }

    fn file_count(&self) -> usize {
        self.files.len()
    }
}

/// A store together with its directory: drives the engine the way an
/// embedder would.
struct Harness {
    dir: MemDir,
    store: KvStore,
    active: u64,
    compactions: usize,
}

impl Harness {
    fn fresh() -> Harness {
        let mut dir = MemDir::new();
        let store = KvStore::open(Vec::new()).expect("open of empty directory");
        let active = 1;
        dir.files.insert(active, Vec::new());
        Harness { dir, store, active, compactions: 0 }
    }

    /// Drops the store and reopens the directory.
    fn reopen(&mut self) {
        let mut logs: Vec<LogFile> = Vec::new();
        for (v, data) in self.dir.files.iter() {
            logs.push(LogFile { version: *v, data: data.clone() });
        }
        let max_v = logs.last().map(|l| l.version).unwrap_or(0);
        self.store = KvStore::open(logs).expect("reopen");
        self.active = max_v + 1;
        self.dir.files.entry(self.active).or_insert_with(Vec::new);
    }

    fn set(&mut self, key: &str, value: &str) {
        let k = String::from(key);
        let v = String::from(value);
        let enc = self.store.prepare_set(&k, &v);
        // The append, then the flush: the harness's "disk" write.
        self.dir.files.get_mut(&self.active).expect("active log").extend_from_slice(&enc);
        let (_pos, need_compact) = self.store.commit_set(&k, &v);
        if need_compact {
            self.compact();
        }
    }

    fn get(&mut self, key: &str) -> Option<String> {
        let k = String::from(key);
        match self.store.get_locator(&k) {
            None => None,
            Some(loc) => {
                let file = self.dir.files.get(&loc.ver).expect("log file for locator");
                let bytes = file[loc.pos as usize..(loc.pos + loc.len) as usize].to_vec();
                Some(self.store.get_value(&k, &bytes).expect("stored value decodes"))
            },
        }
    }

    fn remove(&mut self, key: &str) -> Result<(), KvsError> {
        let k = String::from(key);
        let enc = self.store.prepare_remove(&k)?;
        self.dir.files.get_mut(&self.active).expect("active log").extend_from_slice(&enc);
        let _pos = self.store.commit_remove(&k);
        Ok(())
    }

    fn compact(&mut self) {
        let plan = self.store.compact_plan();
        let mut copies: Vec<Vec<u8>> = Vec::new();
        for loc in plan.iter() {
            let file = self.dir.files.get(&loc.ver).expect("log file for plan");
            copies.push(file[loc.pos as usize..(loc.pos + loc.len) as usize].to_vec());
        }
        let outcome = self.store.compact(&copies);
        for v in outcome.stale_versions.iter() {
            self.dir.files.remove(v);
        }
        self.dir.files.insert(outcome.compact_version, outcome.compact_data.clone());
        self.dir.files.insert(outcome.new_version, Vec::new());
        self.active = outcome.new_version;
        self.compactions += 1;
    }
}

#[test]
fn set_get_round_trip() {
    let mut h = Harness::fresh();
    h.set("key1", "value1");
    assert_eq!(h.get("key1"), Some(String::from("value1")));
}

#[test]
fn missing_key_is_none() {
    let mut h = Harness::fresh();
    assert_eq!(h.get("absent"), None);
}

#[test]
fn overwrite_returns_latest() {
    let mut h = Harness::fresh();
    h.set("k", "v1");
    h.set("k", "v2");
    assert_eq!(h.get("k"), Some(String::from("v2")));
    h.reopen();
    assert_eq!(h.get("k"), Some(String::from("v2")));
}

#[test]
fn remove_then_get() {
    let mut h = Harness::fresh();
    h.set("k", "v");
    h.remove("k").expect("remove of a live key");
    assert_eq!(h.get("k"), None);
    match h.remove("k") {
        Err(KvsError::KeyNotFound(_)) => {},
        other => panic!("expected KeyNotFound, got {:?}", other),
    }
}

#[test]
fn persistence_across_reopen() {
    let mut h = Harness::fresh();
    h.set("a", "1");
    h.set("b", "2");
    h.reopen();
    assert_eq!(h.get("a"), Some(String::from("1")));
    assert_eq!(h.get("b"), Some(String::from("2")));
}

#[test]
fn remove_of_absent_key_writes_nothing() {
    let mut h = Harness::fresh();
    h.set("kept", "value");
    let sizes_before: Vec<usize> = h.dir.files.values().map(|d| d.len()).collect();
    match h.remove("absent") {
        Err(KvsError::KeyNotFound(_)) => {},
        other => panic!("expected KeyNotFound, got {:?}", other),
    }
    let sizes_after: Vec<usize> = h.dir.files.values().map(|d| d.len()).collect();
    assert_eq!(sizes_before, sizes_after);
}

#[test]
fn record_boundary_after_set() {
    let mut h = Harness::fresh();
    h.set("padding", "so the next record starts past zero");
    let k = String::from("boundary");
    let v = String::from("exact");
    let enc = h.store.prepare_set(&k, &v);
    h.dir.files.get_mut(&h.active).unwrap().extend_from_slice(&enc);
    let (pos, _) = h.store.commit_set(&k, &v);
    let loc = h.store.get_locator(&k).expect("key just set");
    assert_eq!(loc.pos, pos);
    assert_eq!(loc.len as usize, enc.len());
    // The file holds a whole record in exactly [pos, pos + len).
    let file = h.dir.files.get(&loc.ver).unwrap();
    let (cmd, consumed) = kvs::decode_record(file, pos as usize).expect("a record starts at pos");
    assert_eq!(consumed as u64, loc.len);
    match cmd {
        kvs::Command::Put { key, value } => {
            assert_eq!(key, k.as_bytes().to_vec());
            assert_eq!(value, v.as_bytes().to_vec());
        },
        kvs::Command::Remove { .. } => panic!("a set appended a remove record"),
    }
}

#[test]
fn compaction_preserves_answers() {
    let mut h = Harness::fresh();
    for i in 0..50 {
        h.set(&format!("key{}", i), &format!("value{}", i));
    }
    for i in 0..25 {
        h.set(&format!("key{}", i), "rewritten");
    }
    h.remove("key30").expect("live key");
    h.compact();
    for i in 0..25 {
        assert_eq!(h.get(&format!("key{}", i)), Some(String::from("rewritten")));
    }
    for i in 31..50 {
        assert_eq!(h.get(&format!("key{}", i)), Some(format!("value{}", i)));
    }
    assert_eq!(h.get("key30"), None);
}

#[test]
fn compaction_leaves_two_recent_logs() {
    let mut h = Harness::fresh();
    for i in 0..20 {
        h.set(&format!("key{}", i), "value");
    }
    h.compact();
    assert_eq!(h.dir.file_count(), 2);
    let mut versions: Vec<u64> = h.dir.files.keys().copied().collect();
    versions.sort();
    assert!(versions[0] >= h.active - 1);
    for v in versions.iter() {
        assert!(*v >= h.active - 1);
    }
}

#[test]
fn compaction_bound_over_many_writes() {
    let mut h = Harness::fresh();
    let value_a = "a".repeat(400);
    let value_b = "b".repeat(400);
    let keys: Vec<String> = (0..1500).map(|i| format!("k_{}", i)).collect();
    for key in keys.iter() {
        h.set(key, &value_a);
    }
    for _ in 0..2 {
        for key in keys.iter() {
            h.set(key, &value_b);
        }
    }
    assert!(h.compactions > 0, "the stale-byte threshold never triggered compaction");
    for key in keys.iter() {
        assert_eq!(h.get(key), Some(value_b.clone()));
    }
    // Space is bounded by the live set, not by the write history.
    let live: usize = keys.len() * (value_b.len() + 30);
    let written: usize = 3 * live;
    assert!(h.dir.total_bytes() < live + 2 * 1048576);
    assert!(h.dir.total_bytes() < written);
}

#[test]
fn reopen_after_interleaved_mutations_matches_reference() {
    let mut h = Harness::fresh();
    let mut reference: BTreeMap<String, String> = BTreeMap::new();
    for i in 0..40 {
        let key = format!("key{}", i % 13);
        let value = format!("value{}", i);
        h.set(&key, &value);
        reference.insert(key, value);
        if i % 5 == 0 {
            let victim = format!("key{}", (i + 3) % 13);
            let expected = reference.remove(&victim);
            match h.remove(&victim) {
                Ok(()) => assert!(expected.is_some()),
                Err(KvsError::KeyNotFound(_)) => assert!(expected.is_none()),
                Err(e) => panic!("unexpected error {:?}", e),
            }
        }
    }
    h.reopen();
    for i in 0..13 {
        let key = format!("key{}", i);
        assert_eq!(h.get(&key), reference.get(&key).cloned());
    }
}

#[test]
fn values_survive_utf8_multibyte() {
    let mut h = Harness::fresh();
    h.set("greeting", "gr\u{00fc}\u{00df} \u{4e16}\u{754c} \u{1f600}");
    h.reopen();
    assert_eq!(h.get("greeting"), Some(String::from("gr\u{00fc}\u{00df} \u{4e16}\u{754c} \u{1f600}")));
}

#[test]
fn open_rejects_truncated_log() {
    let mut h = Harness::fresh();
    h.set("k", "v");
    // Chop the tail off the active log: recovery must fail, not silently
    // truncate.
    let data = h.dir.files.get_mut(&h.active).unwrap();
    let cut = data.len() - 3;
    data.truncate(cut);
    let mut logs: Vec<LogFile> = Vec::new();
    for (v, data) in h.dir.files.iter() {
        logs.push(LogFile { version: *v, data: data.clone() });
    }
    match KvStore::open(logs) {
        Err(KvsError::Serde(_)) => {},
        Ok(_) => panic!("recovery accepted a truncated log"),
        Err(e) => panic!("unexpected error {:?}", e),
    }
}

#[test]
fn get_reports_invalid_utf8_value() {
    // A log whose value bytes are not valid UTF-8 decodes as a record but
    // cannot come back as a string.
    let mut data: Vec<u8> = Vec::new();
    data.extend_from_slice(b"{\"Set\":{\"key\":\"k\",\"value\":\"");
    data.push(0xFF);
    data.extend_from_slice(b"\"}}");
    let logs = vec![LogFile { version: 1, data: data.clone() }];
    let store = KvStore::open(logs).expect("the record itself is well-formed");
    let k = String::from("k");
    let loc = store.get_locator(&k).expect("key is live");
    assert_eq!(loc.ver, 1);
    let bytes = data[loc.pos as usize..(loc.pos + loc.len) as usize].to_vec();
    match store.get_value(&k, &bytes) {
        Err(KvsError::Serde(_)) => {},
        Ok(v) => panic!("invalid UTF-8 came back as {:?}", v),
        Err(e) => panic!("unexpected error {:?}", e),
    }
}

#[test]
fn recovery_tolerates_whitespace_between_records() {
    let mut data: Vec<u8> = Vec::new();
    data.extend_from_slice(b"{\"Set\":{\"key\":\"a\",\"value\":\"1\"}}");
    data.extend_from_slice(b"  \n\t");
    data.extend_from_slice(b"{\"Set\":{\"key\":\"b\",\"value\":\"2\"}}");
    data.extend_from_slice(b"\r\n");
    let logs = vec![LogFile { version: 3, data }];
    let store = KvStore::open(logs).expect("whitespace between records is permitted");
    let a = String::from("a");
    assert!(store.get_locator(&a).is_some());
    let b = String::from("b");
    assert!(store.get_locator(&b).is_some());
}

#[test]
fn recovery_replays_versions_in_ascending_order() {
    // The same key is set in two logs; the later version must win.
    let older = b"{\"Set\":{\"key\":\"k\",\"value\":\"old\"}}".to_vec();
    let newer = b"{\"Set\":{\"key\":\"k\",\"value\":\"new\"}}".to_vec();
    let logs = vec![
        LogFile { version: 1, data: older.clone() },
        LogFile { version: 2, data: newer.clone() },
    ];
    let store = KvStore::open(logs).expect("two clean logs");
    let k = String::from("k");
    let loc = store.get_locator(&k).expect("key is live");
    assert_eq!(loc.ver, 2);
    let bytes = newer[loc.pos as usize..(loc.pos + loc.len) as usize].to_vec();
    assert_eq!(store.get_value(&k, &bytes).expect("value decodes"), String::from("new"));
}

#[test]
fn remove_record_in_later_log_wins() {
    let first = b"{\"Set\":{\"key\":\"k\",\"value\":\"v\"}}".to_vec();
    let second = b"{\"Remove\":{\"key\":\"k\"}}".to_vec();
    let logs = vec![
        LogFile { version: 5, data: first },
        LogFile { version: 8, data: second },
    ];
    let store = KvStore::open(logs).expect("two clean logs");
    let k = String::from("k");
    assert!(store.get_locator(&k).is_none());
}

#[test]
fn open_with_opts_recovers_like_open() {
    let data = b"{\"Set\":{\"key\":\"k\",\"value\":\"v\"}}".to_vec();
    let logs = vec![LogFile { version: 1, data: data.clone() }];
    let store = kvs::KvStore::open_with_opts(logs, kvs::KvOpts).expect("clean log");
    let k = String::from("k");
    let loc = store.get_locator(&k).expect("key is live");
    let bytes = data[loc.pos as usize..(loc.pos + loc.len) as usize].to_vec();
    assert_eq!(store.get_value(&k, &bytes).expect("value decodes"), String::from("v"));
}

#[test]
fn compaction_across_several_logs() {
    // Live records spread over three log files; compaction must copy from
    // each and leave one log holding them all.
    let mut h = Harness::fresh();
    h.set("a", "from-first-log");
    h.reopen();
    h.set("b", "from-second-log");
    h.reopen();
    h.set("c", "from-third-log");
    h.set("a", "rewritten-in-third");
    h.compact();
    assert_eq!(h.dir.file_count(), 2);
    assert_eq!(h.get("a"), Some(String::from("rewritten-in-third")));
    assert_eq!(h.get("b"), Some(String::from("from-second-log")));
    assert_eq!(h.get("c"), Some(String::from("from-third-log")));
    h.reopen();
    assert_eq!(h.get("a"), Some(String::from("rewritten-in-third")));
    assert_eq!(h.get("b"), Some(String::from("from-second-log")));
    assert_eq!(h.get("c"), Some(String::from("from-third-log")));
}
