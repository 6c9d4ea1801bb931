//! The write-ahead log, snapshot files and the document store.

use concord::map::SortedMap;
use concord::storage::snapshot::{Snapshot, SnapshotManager};
use concord::storage::store::{Document, MemStore};
use concord::storage::wal::{Wal, WalEntry};
use concord::storage::StorageError;
use serde_json::Value;

const HEADER_SIZE: usize = 8;

fn text(s: &str) -> Value {
    Value::String(s.to_string())
}

fn object(fields: Vec<(&str, Value)>) -> Value {
    let mut map = serde_json::Map::new();
    for (name, value) in fields {
        map.insert(name.to_string(), value);
    }
    Value::Object(map)
}

// --- write-ahead log ---

/// The file of a write-ahead log.
struct WalFile {
    bytes: Vec<u8>,
}

impl WalFile {
    fn sync(&mut self, wal: &mut Wal) {
        let pending = wal.sync();
        self.bytes.extend_from_slice(&pending);
    }
}

fn make_entry(index: u64, term: u64, data: &[u8]) -> WalEntry {
    WalEntry { index, term, data: data.to_vec() }
}

#[test]
fn test_append_and_replay() {
    let mut file = WalFile { bytes: vec![] };
    let mut wal = Wal::open(&file.bytes).unwrap();

    let entries = vec![
        make_entry(1, 1, b"set x=1"),
        make_entry(2, 1, b"set y=2"),
        make_entry(3, 2, b"del x"),
    ];

    for e in &entries {
        wal.append(e).unwrap();
    }
    file.sync(&mut wal);

    let replayed = wal.replay(&file.bytes).unwrap();
    assert_eq!(replayed, entries);
}

#[test]
fn test_crash_recovery_truncated_write() {
    let mut file = WalFile { bytes: vec![] };
    {
        let mut wal = Wal::open(&file.bytes).unwrap();
        wal.append(&make_entry(1, 1, b"good")).unwrap();
        file.sync(&mut wal);
    }

    // simulate a torn write by appending garbage
    file.bytes.extend_from_slice(&[0xff; 20]);

    let wal = Wal::open(&file.bytes).unwrap();
    let entries = wal.replay(&file.bytes).unwrap();
    assert_eq!(entries.len(), 1);
    assert_eq!(entries[0].data, b"good");
}

#[test]
fn test_crc_corruption_detected() {
    let mut file = WalFile { bytes: vec![] };
    {
        let mut wal = Wal::open(&file.bytes).unwrap();
        wal.append(&make_entry(1, 1, b"first")).unwrap();
        wal.append(&make_entry(2, 1, b"second")).unwrap();
        file.sync(&mut wal);
    }

    // read first entry to find its size
    let header = &file.bytes[..HEADER_SIZE];
    let first_payload_len =
        u32::from_le_bytes([header[4], header[5], header[6], header[7]]) as usize;
    let second_entry_offset = HEADER_SIZE + first_payload_len;

    // flip a bit in the second entry's crc
    file.bytes[second_entry_offset] ^= 0x01;

    let wal = Wal::open(&file.bytes).unwrap();
    let entries = wal.replay(&file.bytes).unwrap();
    // should recover only the first entry
    assert_eq!(entries.len(), 1);
    assert_eq!(entries[0].data, b"first");
}

#[test]
fn test_truncate_after() {
    let mut file = WalFile { bytes: vec![] };
    let mut wal = Wal::open(&file.bytes).unwrap();

    for i in 1..=5 {
        wal.append(&make_entry(i, 1, format!("entry-{}", i).as_bytes())).unwrap();
    }
    file.sync(&mut wal);

    file.bytes = wal.truncate_after(&file.bytes, 3).unwrap();
    let entries = wal.replay(&file.bytes).unwrap();
    assert_eq!(entries.len(), 3);
    assert_eq!(entries.last().unwrap().index, 3);
    assert_eq!(wal.entry_count(), 3);
    assert_eq!(wal.size_bytes(), file.bytes.len() as u64);
}

#[test]
fn test_empty_wal_replay() {
    let wal = Wal::open(&[]).unwrap();
    let entries = wal.replay(&[]).unwrap();
    assert!(entries.is_empty());
    assert_eq!(wal.entry_count(), 0);
}

#[test]
fn test_reopen_preserves_entries() {
    let mut file = WalFile { bytes: vec![] };

    {
        let mut wal = Wal::open(&file.bytes).unwrap();
        wal.append(&make_entry(1, 1, b"persistent")).unwrap();
        file.sync(&mut wal);
    }

    {
        let mut wal = Wal::open(&file.bytes).unwrap();
        assert_eq!(wal.entry_count(), 1);
        wal.append(&make_entry(2, 1, b"another")).unwrap();
        file.sync(&mut wal);
    }

    let wal = Wal::open(&file.bytes).unwrap();
    let entries = wal.replay(&file.bytes).unwrap();
    assert_eq!(entries.len(), 2);
    assert_eq!(wal.entry_count(), 2);
}

#[test]
fn the_bytes_of_a_frame() {
    let mut wal = Wal::open(&[]).unwrap();
    wal.append(&make_entry(0x0102, 3, b"hi")).unwrap();
    let bytes = wal.sync();
    let payload: Vec<u8> = vec![
        2, 1, 0, 0, 0, 0, 0, 0, // index
        3, 0, 0, 0, 0, 0, 0, 0, // term
        2, 0, 0, 0, 0, 0, 0, 0, // length of the data
        b'h', b'i',
    ];
    let mut checked: Vec<u8> = vec![26, 0, 0, 0];
    checked.extend_from_slice(&payload);
    let mut expected = crc32fast::hash(&checked).to_le_bytes().to_vec();
    expected.extend_from_slice(&checked);
    assert_eq!(bytes, expected);
    assert_eq!(wal.size_bytes(), 34);
    assert!(wal.sync().is_empty());
}

#[test]
fn a_frame_cut_off_anywhere_is_dropped() {
    let mut wal = Wal::open(&[]).unwrap();
    wal.append(&make_entry(1, 1, b"kept")).unwrap();
    let kept = wal.size_bytes() as usize;
    wal.append(&make_entry(2, 1, b"torn")).unwrap();
    let bytes = wal.sync();
    for cut in kept..bytes.len() {
        let entries = wal.replay(&bytes[..cut]).unwrap();
        assert_eq!(entries, vec![make_entry(1, 1, b"kept")]);
    }
    assert_eq!(wal.replay(&bytes).unwrap().len(), 2);
}

/// A frame around any payload, with the right checksum.
fn frame_around(payload: &[u8]) -> Vec<u8> {
    let mut checked = (payload.len() as u32).to_le_bytes().to_vec();
    checked.extend_from_slice(payload);
    let mut frame = crc32fast::hash(&checked).to_le_bytes().to_vec();
    frame.extend_from_slice(&checked);
    frame
}

#[test]
fn a_sound_frame_that_does_not_decode_is_an_error() {
    let mut wal = Wal::open(&[]).unwrap();
    wal.append(&make_entry(1, 1, b"good")).unwrap();
    let mut bytes = wal.sync();
    let offset = bytes.len() as u64;
    bytes.extend_from_slice(&frame_around(b"short"));
    match wal.replay(&bytes) {
        Err(StorageError::CorruptedEntry { offset: at, reason }) => {
            assert_eq!(at, offset);
            assert!(reason.starts_with("io error"));
        }
        _ => panic!("the frame does not decode"),
    }
    assert!(Wal::open(&bytes).is_err());
    let before = wal.entry_count();
    assert!(wal.truncate_after(&bytes, 1).is_err());
    assert_eq!(wal.entry_count(), before);
}

#[test]
fn what_is_synced_after_a_cut_is_replayed() {
    let mut wal = Wal::open(&[]).unwrap();
    wal.append(&make_entry(1, 1, b"first")).unwrap();
    wal.append(&make_entry(2, 1, b"second")).unwrap();
    let whole = wal.sync();
    assert_eq!(Wal::sound_len(&whole), whole.len());
    assert_eq!(Wal::sound_len(&[]), 0);
    let first_len = HEADER_SIZE + 24 + 5;
    for cut in 0..whole.len() {
        let expected = if cut < first_len { 0 } else { first_len };
        assert_eq!(Wal::sound_len(&whole[..cut]), expected);
    }

    for tail in [vec![], vec![0xff; 20], vec![0; 20], whole[..first_len - 1].to_vec()] {
        let mut torn = whole.clone();
        torn.extend_from_slice(&tail);
        // behind the torn bytes nothing would be read
        let sound = Wal::sound_len(&torn);
        assert_eq!(sound, whole.len());
        let mut wal = Wal::open(&torn[..sound]).unwrap();
        assert_eq!(wal.entry_count(), 2);
        assert_eq!(wal.size_bytes(), whole.len() as u64);
        let mut file = WalFile { bytes: torn[..sound].to_vec() };
        wal.append(&make_entry(3, 1, b"third")).unwrap();
        file.sync(&mut wal);
        let entries = Wal::read_entries(&file.bytes).unwrap();
        assert_eq!(entries.len(), 3);
        assert_eq!(entries[2], make_entry(3, 1, b"third"));
    }
}

#[test]
fn a_length_that_is_too_large_is_reported_at_its_offset() {
    let mut wal = Wal::open(&[]).unwrap();
    wal.append(&make_entry(1, 1, b"good")).unwrap();
    let mut bytes = wal.sync();
    let offset = bytes.len() as u64;
    let mut payload: Vec<u8> = Vec::new();
    for n in [7u64, 2, u32::MAX as u64 + 1] {
        payload.extend_from_slice(&n.to_le_bytes());
    }
    bytes.extend_from_slice(&frame_around(&payload));
    assert!(matches!(
        Wal::read_entries(&bytes),
        Err(StorageError::CorruptedEntry { offset: at, .. }) if at == offset
    ));
    // the frame is whole, so it is not taken for a torn one
    assert_eq!(Wal::sound_len(&bytes), bytes.len());
}

#[test]
fn bytes_left_over_in_a_payload_are_not_looked_at() {
    let mut payload: Vec<u8> = Vec::new();
    for n in [7u64, 2, 1] {
        payload.extend_from_slice(&n.to_le_bytes());
    }
    payload.extend_from_slice(b"xyz");
    let wal = Wal::open(&[]).unwrap();
    assert_eq!(wal.replay(&frame_around(&payload)).unwrap(), vec![make_entry(7, 2, b"x")]);
}

#[test]
fn a_frame_without_a_payload_ends_the_log() {
    let wal = Wal::open(&[]).unwrap();
    let mut bytes = frame_around(b"");
    let mut other = Wal::open(&[]).unwrap();
    other.append(&make_entry(1, 1, b"behind")).unwrap();
    bytes.extend_from_slice(&other.sync());
    assert!(wal.replay(&bytes).unwrap().is_empty());
}

#[test]
fn truncation_keeps_entries_by_index_not_by_place() {
    let mut wal = Wal::open(&[]).unwrap();
    for i in [5u64, 1, 9, 2] {
        wal.append(&make_entry(i, 1, b"")).unwrap();
    }
    let bytes = wal.sync();
    let left = wal.truncate_after(&bytes, 4).unwrap();
    let indices: Vec<u64> = wal.replay(&left).unwrap().iter().map(|e| e.index).collect();
    assert_eq!(indices, vec![1, 2]);
}

// --- snapshots ---

/// A directory of snapshots.
struct SnapshotDir {
    files: Vec<(String, Vec<u8>)>,
}

fn encode(snapshot: &Snapshot) -> Vec<u8> {
    let mut data = serde_json::Map::new();
    for key in snapshot.data.keys() {
        let doc = snapshot.data.get(&key).unwrap();
        data.insert(
            key,
            object(vec![
                ("value", doc.value.clone()),
                ("version", Value::from(doc.version)),
                ("last_modified_by", text(&doc.last_modified_by)),
            ]),
        );
    }
    let whole = object(vec![
        ("last_included_index", Value::from(snapshot.last_included_index)),
        ("last_included_term", Value::from(snapshot.last_included_term)),
        ("data", Value::Object(data)),
    ]);
    serde_json::to_vec(&whole).unwrap()
}

fn decode(payload: &[u8]) -> Result<Snapshot, StorageError> {
    let whole: Value = serde_json::from_slice(payload)
        .map_err(|e| StorageError::Deserialize(e.to_string()))?;
    let mut data: SortedMap<String, Document> = SortedMap::new();
    for (key, doc) in whole["data"].as_object().unwrap() {
        data.insert(
            key.clone(),
            Document {
                value: doc["value"].clone(),
                version: doc["version"].as_u64().unwrap(),
                last_modified_by: doc["last_modified_by"].as_str().unwrap().to_string(),
            },
        );
    }
    Ok(Snapshot {
        last_included_index: whole["last_included_index"].as_u64().unwrap(),
        last_included_term: whole["last_included_term"].as_u64().unwrap(),
        data,
    })
}

impl SnapshotDir {
    fn new() -> Self {
        SnapshotDir { files: Vec::new() }
    }

    fn save(&mut self, snapshot: &Snapshot) -> String {
        let (name, contents) = SnapshotManager::save(snapshot, &encode(snapshot));
        self.files.retain(|(n, _)| *n != name);
        self.files.push((name.clone(), contents));
        name
    }

    fn names(&self) -> Vec<String> {
        self.files.iter().map(|(n, _)| n.clone()).collect()
    }

    fn load_latest(&self) -> Option<Snapshot> {
        let mut loads = Vec::new();
        for name in SnapshotManager::candidates(&self.names()) {
            let (_, contents) = self.files.iter().find(|(n, _)| *n == name).unwrap();
            loads.push(match SnapshotManager::load_snapshot(contents) {
                Ok(payload) => decode(&payload),
                Err(e) => Err(e),
            });
        }
        SnapshotManager::load_latest(loads)
    }
}

fn make_snapshot(index: u64, term: u64) -> Snapshot {
    let mut data: SortedMap<String, Document> = SortedMap::new();
    data.insert(
        "key1".into(),
        Document {
            value: object(vec![("status", text("active"))]),
            version: index,
            last_modified_by: "test".into(),
        },
    );
    Snapshot { last_included_index: index, last_included_term: term, data }
}

#[test]
fn test_save_and_load() {
    let mut dir = SnapshotDir::new();

    let snap = make_snapshot(100, 3);
    dir.save(&snap);

    let loaded = dir.load_latest().unwrap();
    assert_eq!(loaded.last_included_index, 100);
    assert_eq!(loaded.last_included_term, 3);
    assert_eq!(loaded.data.len(), 1);
}

#[test]
fn test_loads_latest() {
    let mut dir = SnapshotDir::new();

    dir.save(&make_snapshot(50, 2));
    dir.save(&make_snapshot(100, 3));
    dir.save(&make_snapshot(75, 2));

    let loaded = dir.load_latest().unwrap();
    assert_eq!(loaded.last_included_index, 100);
}

#[test]
fn test_cleanup_old() {
    let mut dir = SnapshotDir::new();

    for i in 1..=5 {
        dir.save(&make_snapshot(i * 10, 1));
    }

    let stale = SnapshotManager::cleanup_old(&dir.names(), 2);
    assert_eq!(stale.len(), 3);
    dir.files.retain(|(n, _)| !stale.contains(n));

    let snap_count = dir.names().iter().filter(|n| n.ends_with(".snap")).count();
    assert_eq!(snap_count, 2);
    assert_eq!(dir.load_latest().unwrap().last_included_index, 50);
}

#[test]
fn test_corrupted_snapshot_skipped() {
    let mut dir = SnapshotDir::new();

    dir.save(&make_snapshot(50, 1));
    let latest = dir.save(&make_snapshot(100, 2));

    // corrupt the latest snapshot
    let contents = &mut dir.files.iter_mut().find(|(n, _)| *n == latest).unwrap().1;
    if contents.len() > 10 {
        contents[8] ^= 0xff;
    }

    let loaded = dir.load_latest().unwrap();
    assert_eq!(loaded.last_included_index, 50);
}

#[test]
fn test_empty_dir() {
    let dir = SnapshotDir::new();
    assert!(dir.load_latest().is_none());
}

#[test]
fn the_name_and_the_bytes_of_a_snapshot_file() {
    let (name, contents) = SnapshotManager::save(&make_snapshot(0xabc, 0x12), b"payload");
    assert_eq!(name, "snapshot-0000000000000012-0000000000000abc.snap");
    let mut expected = b"CSNP".to_vec();
    expected.extend_from_slice(&crc32fast::hash(b"payload").to_le_bytes());
    expected.extend_from_slice(&7u64.to_le_bytes());
    expected.extend_from_slice(b"payload");
    assert_eq!(contents, expected);
    assert_eq!(SnapshotManager::load_snapshot(&contents).unwrap(), b"payload");
    contents.iter().enumerate().for_each(|(cut, _)| {
        assert_eq!(
            SnapshotManager::load_snapshot(&contents[..cut]),
            Err(StorageError::Io("failed to fill whole buffer".into()))
        );
    });
    let (last, _) = SnapshotManager::save(&make_snapshot(u64::MAX, u64::MAX), b"");
    assert_eq!(last, "snapshot-ffffffffffffffff-ffffffffffffffff.snap");
}

#[test]
fn what_is_wrong_with_a_snapshot_file() {
    let (_, contents) = SnapshotManager::save(&make_snapshot(1, 1), b"payload");
    let mut wrong = contents.clone();
    wrong[0] = b'X';
    assert_eq!(
        SnapshotManager::load_snapshot(&wrong),
        Err(StorageError::Snapshot("invalid magic bytes".into()))
    );
    let mut wrong = contents.clone();
    wrong[20] ^= 1;
    assert_eq!(
        SnapshotManager::load_snapshot(&wrong),
        Err(StorageError::Snapshot("crc mismatch".into()))
    );
    let mut wrong = contents.clone();
    wrong[15] = 0xff;
    assert!(matches!(SnapshotManager::load_snapshot(&wrong), Err(StorageError::Io(_))));
    // what stands behind the payload is not looked at
    let mut longer = contents;
    longer.extend_from_slice(b"more");
    assert_eq!(SnapshotManager::load_snapshot(&longer).unwrap(), b"payload");
}

#[test]
fn names_are_ordered_by_term_and_index() {
    let name = |term: u64, index: u64| SnapshotManager::save(&make_snapshot(index, term), b"").0;
    let names = vec![
        name(1, 900),
        "notes.txt".to_string(),
        name(10, 1),
        name(2, 16),
        name(2, 9),
        format!("{}.tmp", name(3, 3)),
        ".snap".to_string(),
    ];
    assert_eq!(
        SnapshotManager::candidates(&names),
        vec![name(10, 1), name(2, 16), name(2, 9), name(1, 900)]
    );
    assert_eq!(SnapshotManager::cleanup_old(&names, 3), vec![name(1, 900)]);
    assert!(SnapshotManager::cleanup_old(&names, 4).is_empty());
    assert!(SnapshotManager::cleanup_old(&names, 9).is_empty());
    assert_eq!(SnapshotManager::cleanup_old(&names, 0).len(), 4);
}

// --- document store ---

#[test]
fn test_basic_crud() {
    let mut store = MemStore::new();

    store.put(
        "agent-1".into(),
        object(vec![("status", text("running"))]),
        "agent-1".into(),
    );
    let doc = store.get("agent-1").unwrap();
    assert_eq!(doc.value, object(vec![("status", text("running"))]));
    assert_eq!(doc.version, 1);

    store.put(
        "agent-1".into(),
        object(vec![("status", text("done"))]),
        "agent-1".into(),
    );
    let doc = store.get("agent-1").unwrap();
    assert_eq!(doc.value, object(vec![("status", text("done"))]));
    assert_eq!(doc.version, 2);

    assert!(store.delete("agent-1"));
    assert!(store.get("agent-1").is_none());
}

fn plan() -> Value {
    object(vec![
        (
            "steps",
            object(vec![
                ("step-1", object(vec![("status", text("pending")), ("tool", text("search"))])),
                ("step-2", object(vec![("status", text("pending")), ("tool", text("analyze"))])),
            ]),
        ),
        ("metadata", object(vec![("owner", text("agent-0"))])),
    ])
}

#[test]
fn test_nested_operations() {
    let mut store = MemStore::new();

    store.put("plan".into(), plan(), "agent-0".into());

    let tool = store.get_nested("plan", &["steps", "step-1", "tool"]).unwrap();
    assert_eq!(tool, text("search"));

    store
        .put_nested(
            "plan",
            &["steps", "step-1", "status"],
            text("complete"),
            "agent-1".into(),
        )
        .unwrap();

    let status = store.get_nested("plan", &["steps", "step-1", "status"]).unwrap();
    assert_eq!(status, text("complete"));
}

#[test]
fn test_snapshot_and_restore() {
    let mut store = MemStore::new();
    store.put("a".into(), Value::from(1), "test".into());
    store.put("b".into(), Value::from(2), "test".into());

    let snap = store.snapshot();

    let mut store2 = MemStore::new();
    store2.restore(snap);

    assert_eq!(store2.get("a").unwrap().value, Value::from(1));
    assert_eq!(store2.get("b").unwrap().value, Value::from(2));
    assert_eq!(store2.current_version(), 2);
}

#[test]
fn writing_into_a_document_changes_only_what_it_names() {
    let mut store = MemStore::new();
    store.put("plan".into(), plan(), "agent-0".into());
    let version = store
        .put_nested("plan", &["steps", "step-3"], Value::from(3), "agent-1".into())
        .unwrap();
    assert_eq!(version, 2);
    let doc = store.get("plan").unwrap();
    assert_eq!(doc.version, 2);
    assert_eq!(doc.last_modified_by, "agent-1");
    assert_eq!(store.get_nested("plan", &["steps", "step-3"]), Some(Value::from(3)));
    assert_eq!(store.get_nested("plan", &["steps", "step-2", "tool"]), Some(text("analyze")));
    assert_eq!(store.get_nested("plan", &["metadata", "owner"]), Some(text("agent-0")));
}

#[test]
fn errors_leave_the_store_as_it_was() {
    let mut store = MemStore::new();
    store.put("plan".into(), plan(), "agent-0".into());
    let attempt = |store: &mut MemStore, key: &str, path: &[&str]| {
        let before = (store.get("plan"), store.current_version());
        let r = store.put_nested(key, path, Value::from(1), "x".into());
        assert_eq!((store.get("plan"), store.current_version()), before);
        r
    };
    assert_eq!(
        attempt(&mut store, "absent", &["a"]),
        Err(StorageError::KeyNotFound("absent".into()))
    );
    assert_eq!(
        attempt(&mut store, "plan", &["steps", "step-9", "tool"]),
        Err(StorageError::KeyNotFound("step-9".into()))
    );
    assert_eq!(
        attempt(&mut store, "plan", &["metadata", "owner", "name"]),
        Err(StorageError::KeyNotFound("path segment 'name' is not an object".into()))
    );
    assert_eq!(
        attempt(&mut store, "plan", &["metadata", "owner", "name", "first"]),
        Err(StorageError::KeyNotFound("name".into()))
    );
}

#[test]
fn an_empty_path_changes_the_version_only() {
    let mut store = MemStore::new();
    store.put("plan".into(), plan(), "agent-0".into());
    assert_eq!(store.put_nested("plan", &[], Value::Null, "me".into()), Ok(2));
    let doc = store.get("plan").unwrap();
    assert_eq!(doc.value, plan());
    assert_eq!(doc.version, 2);
    assert_eq!(doc.last_modified_by, "me");
    assert_eq!(store.get_nested("plan", &[]), Some(plan()));
}

#[test]
fn reading_where_nothing_is() {
    let mut store = MemStore::default();
    assert!(store.get_nested("x", &[]).is_none());
    store.put("x".into(), Value::from(vec![1, 2]), "n".into());
    assert!(store.get_nested("x", &["0"]).is_none());
    assert!(!store.delete("y"));
    assert_eq!(store.len(), 1);
}

#[test]
fn keys_come_in_order() {
    let mut store = MemStore::new();
    assert!(store.is_empty());
    for k in ["pear", "apple", "fig"] {
        store.put(k.to_string(), Value::Null, "n".into());
    }
    assert_eq!(store.keys(), vec!["apple", "fig", "pear"]);
    assert_eq!(store.len(), 3);
    assert!(!store.is_empty());
    store.clear();
    assert!(store.is_empty());
    assert_eq!(store.current_version(), 0);
}

#[test]
fn versions_go_on_from_the_highest_restored_one() {
    let mut data: SortedMap<String, Document> = SortedMap::new();
    for (k, v) in [("a", 4u64), ("b", 9), ("c", 2)] {
        data.insert(
            k.to_string(),
            Document { value: Value::Null, version: v, last_modified_by: "n".into() },
        );
    }
    let mut store = MemStore::new();
    for _ in 0..20 {
        store.put("old".into(), Value::Null, "n".into());
    }
    store.restore(data);
    assert_eq!(store.current_version(), 9);
    assert!(store.get("old").is_none());
    assert_eq!(store.put("d".into(), Value::Null, "n".into()), 10);
    store.restore(SortedMap::new());
    assert_eq!(store.current_version(), 0);
}
