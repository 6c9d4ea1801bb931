//! The write-ahead log, snapshots and the store together: writes go through the log
//! first, are applied to the store, and are compacted into a snapshot now and then.

use concord::map::SortedMap;
use concord::storage::snapshot::{Snapshot, SnapshotManager};
use concord::storage::store::Document;
use concord::storage::wal::WalEntry;
use concord::storage::{MemStore, StorageError, Wal};
use serde_json::Value;

/// What an entry of the log asks of the store.
#[derive(Debug, Clone)]
enum Op {
    Put { key: String, value: Value },
    Delete { key: String },
}

fn encode(op: &Op) -> Vec<u8> {
    let mut fields = serde_json::Map::new();
    match op {
        Op::Put { key, value } => {
            fields.insert("put".into(), Value::String(key.clone()));
            fields.insert("value".into(), value.clone());
        }
        Op::Delete { key } => {
            fields.insert("delete".into(), Value::String(key.clone()));
        }
    }
    serde_json::to_vec(&Value::Object(fields)).unwrap()
}

fn decode(data: &[u8]) -> Op {
    let op: Value = serde_json::from_slice(data).unwrap();
    match op.get("put") {
        Some(key) => Op::Put {
            key: key.as_str().unwrap().to_string(),
            value: op["value"].clone(),
        },
        None => Op::Delete { key: op["delete"].as_str().unwrap().to_string() },
    }
}

fn apply(store: &mut MemStore, op: &Op) {
    match op {
        Op::Put { key, value } => {
            store.put(key.clone(), value.clone(), "test".into());
        }
        Op::Delete { key } => {
            store.delete(key);
        }
    }
}

#[test]
fn wal_replay_rebuilds_store_state_after_restart() {
    let mut file: Vec<u8> = Vec::new();

    {
        let mut wal = Wal::open(&file).unwrap();
        let ops = [
            Op::Put { key: "a".into(), value: Value::from(1) },
            Op::Put { key: "b".into(), value: Value::from(2) },
            Op::Delete { key: "a".into() },
        ];
        for (i, op) in ops.iter().enumerate() {
            wal.append(&WalEntry { index: i as u64 + 1, term: 1, data: encode(op) }).unwrap();
        }
        file.extend(wal.sync());
    }

    // Simulate a process restart: reopen the WAL and rebuild the store from
    // nothing but what's on disk.
    let wal = Wal::open(&file).unwrap();
    let mut store = MemStore::new();
    for entry in wal.replay(&file).unwrap() {
        apply(&mut store, &decode(&entry.data));
    }

    assert!(store.get("a").is_none(), "a was deleted, should not survive replay");
    assert_eq!(store.get("b").unwrap().value, Value::from(2));
}

fn encode_snapshot(snapshot: &Snapshot) -> Vec<u8> {
    let mut data = serde_json::Map::new();
    for key in snapshot.data.keys() {
        let doc = snapshot.data.get(&key).unwrap();
        let mut fields = serde_json::Map::new();
        fields.insert("value".into(), doc.value.clone());
        fields.insert("version".into(), Value::from(doc.version));
        fields.insert("last_modified_by".into(), Value::String(doc.last_modified_by.clone()));
        data.insert(key, Value::Object(fields));
    }
    let mut whole = serde_json::Map::new();
    whole.insert("index".into(), Value::from(snapshot.last_included_index));
    whole.insert("term".into(), Value::from(snapshot.last_included_term));
    whole.insert("data".into(), Value::Object(data));
    serde_json::to_vec(&Value::Object(whole)).unwrap()
}

fn decode_snapshot(payload: &[u8]) -> Result<Snapshot, StorageError> {
    let whole: Value = serde_json::from_slice(payload)
        .map_err(|e| StorageError::Deserialize(e.to_string()))?;
    let mut data: SortedMap<String, Document> = SortedMap::new();
    for (key, doc) in whole["data"].as_object().unwrap() {
        data.insert(
            key.clone(),
            Document {
                value: doc["value"].clone(),
                version: doc["version"].as_u64().unwrap(),
                last_modified_by: doc["last_modified_by"].as_str().unwrap().to_string(),
            },
        );
    }
    Ok(Snapshot {
        last_included_index: whole["index"].as_u64().unwrap(),
        last_included_term: whole["term"].as_u64().unwrap(),
        data,
    })
}

#[test]
fn snapshot_plus_wal_tail_reconstructs_state_after_compaction() {
    // Entries 1..=3 get compacted into a snapshot.
    let mut compacted = MemStore::new();
    compacted.put("a".into(), Value::from(1), "test".into());
    compacted.put("b".into(), Value::from(2), "test".into());
    compacted.put("c".into(), Value::from(3), "test".into());

    let snapshot = Snapshot {
        last_included_index: 3,
        last_included_term: 1,
        data: compacted.snapshot(),
    };
    let (name, contents) = SnapshotManager::save(&snapshot, &encode_snapshot(&snapshot));

    // Entries 4..=5 arrive after the snapshot and stay in the WAL tail.
    let mut file: Vec<u8> = Vec::new();
    let mut wal = Wal::open(&file).unwrap();
    let tail_ops: Vec<(u64, Op)> = vec![
        (4, Op::Put { key: "d".into(), value: Value::from(4) }),
        (5, Op::Delete { key: "b".into() }),
    ];
    for (index, op) in &tail_ops {
        wal.append(&WalEntry { index: *index, term: 1, data: encode(op) }).unwrap();
    }
    file.extend(wal.sync());

    // Recovery: load the snapshot, then replay only the WAL entries that
    // came after it.
    assert_eq!(SnapshotManager::candidates(&vec![name.clone()]), vec![name]);
    let loads = vec![SnapshotManager::load_snapshot(&contents).and_then(|p| decode_snapshot(&p))];
    let loaded = SnapshotManager::load_latest(loads).unwrap();
    let last_included_index = loaded.last_included_index;
    let mut recovered = MemStore::new();
    recovered.restore(loaded.data);

    let wal = Wal::open(&file).unwrap();
    for entry in wal.replay(&file).unwrap() {
        if entry.index <= last_included_index {
            continue;
        }
        apply(&mut recovered, &decode(&entry.data));
    }

    assert_eq!(recovered.get("a").unwrap().value, Value::from(1));
    assert_eq!(recovered.get("d").unwrap().value, Value::from(4));
    assert!(
        recovered.get("b").is_none(),
        "b should have been deleted by the WAL tail"
    );
}

#[test]
fn wal_truncate_after_matches_a_raft_log_conflict_rollback() {
    // Mirrors what a Raft follower does when the leader's prev-log-term
    // check fails: keep everything up to the divergence point, drop the rest.
    let mut file: Vec<u8> = Vec::new();
    let mut wal = Wal::open(&file).unwrap();

    for i in 1..=5u64 {
        let op = Op::Put { key: format!("k{i}"), value: Value::from(i) };
        wal.append(&WalEntry { index: i, term: 1, data: encode(&op) }).unwrap();
    }
    file.extend(wal.sync());

    file = wal.truncate_after(&file, 2).unwrap();

    let mut store = MemStore::new();
    for entry in wal.replay(&file).unwrap() {
        apply(&mut store, &decode(&entry.data));
    }

    assert_eq!(store.len(), 2);
    assert!(store.get("k3").is_none());
    assert_eq!(store.get("k1").unwrap().value, Value::from(1));
}
