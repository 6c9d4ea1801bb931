//! The replicated log and the state machine.

use concord::crdt::state::StateKey;
use concord::crdt::CrdtOp;
use concord::raft::log::{Command, LogEntry, RaftLog};
use concord::raft::state_machine::StateMachine;
use serde_json::Value;

fn make_entry(index: u64, term: u64) -> LogEntry {
    LogEntry { index, term, command: Command::Noop }
}

fn make_crdt_entry(index: u64, term: u64) -> LogEntry {
    LogEntry {
        index,
        term,
        command: Command::CrdtOp(CrdtOp::SetRegister {
            key: StateKey::new("test", "key"),
            value: Value::from(index),
            timestamp: index,
            node_id: "test".into(),
        }),
    }
}

#[test]
fn test_append_and_read() {
    let mut log = RaftLog::new();
    log.append(make_entry(1, 1));
    log.append(make_entry(2, 1));
    log.append(make_entry(3, 2));

    assert_eq!(log.last_index(), 3);
    assert_eq!(log.last_term(), 2);
    assert_eq!(log.term_at(1), Some(1));
    assert_eq!(log.term_at(3), Some(2));
}

#[test]
fn test_truncate() {
    let mut log = RaftLog::new();
    for i in 1..=5 {
        log.append(make_entry(i, 1));
    }

    log.truncate_from(4);
    assert_eq!(log.last_index(), 3);
    assert_eq!(log.len(), 3);
}

#[test]
fn test_compact() {
    let mut log = RaftLog::new();
    for i in 1..=10 {
        log.append(make_entry(i, 1));
    }

    log.compact(5, 1);
    assert_eq!(log.snapshot_last_index(), 5);
    assert_eq!(log.len(), 5);
    assert!(log.entry_at(5).is_none());
    assert!(log.entry_at(6).is_some());
    assert_eq!(log.entry_at(6).unwrap().index, 6);
}

#[test]
fn test_append_entries_conflict_resolution() {
    let mut log = RaftLog::new();
    log.append(make_entry(1, 1));
    log.append(make_entry(2, 1));
    log.append(make_entry(3, 1));

    // leader sends entries with different term at index 2
    let new_entries = vec![
        LogEntry { index: 2, term: 2, command: Command::Noop },
        LogEntry { index: 3, term: 2, command: Command::Noop },
    ];

    log.append_entries(1, new_entries);
    assert_eq!(log.term_at(2), Some(2));
    assert_eq!(log.term_at(3), Some(2));
    assert_eq!(log.len(), 3);
}

#[test]
fn test_entries_from() {
    let mut log = RaftLog::new();
    for i in 1..=5 {
        log.append(make_entry(i, 1));
    }

    let from_3 = log.entries_from(3);
    assert_eq!(from_3.len(), 3);
    assert_eq!(from_3[0].index, 3);
}

#[test]
fn an_empty_log() {
    let log = RaftLog::default();
    assert!(log.is_empty());
    assert_eq!(log.last_index(), 0);
    assert_eq!(log.last_term(), 0);
    assert_eq!(log.term_at(0), Some(0));
    assert_eq!(log.term_at(1), None);
    assert!(log.entry_at(0).is_none());
    assert!(log.entries_from(1).is_empty());
    assert!(log.entries_from(0).is_empty());
}

#[test]
fn known_entries_change_nothing() {
    let mut log = RaftLog::new();
    for i in 1..=4 {
        log.append(make_entry(i, 1));
    }
    log.append_entries(1, vec![make_entry(2, 1), make_entry(3, 1)]);
    assert_eq!(log.len(), 4);
    log.append_entries(4, vec![make_entry(5, 2), make_entry(6, 2)]);
    assert_eq!(log.len(), 6);
    assert_eq!(log.last_term(), 2);
}

#[test]
fn entries_that_the_snapshot_covers_are_dropped() {
    let mut log = RaftLog::new();
    for i in 1..=4 {
        log.append(make_entry(i, 1));
    }
    log.compact(3, 1);
    log.append_entries(1, vec![make_entry(2, 7), make_entry(3, 7), make_entry(4, 1)]);
    assert_eq!(log.len(), 1);
    assert_eq!(log.term_at(3), Some(1));
    assert_eq!(log.term_at(4), Some(1));
    assert_eq!(log.term_at(2), None);
}

#[test]
fn compacting_behind_the_end_empties_the_log() {
    let mut log = RaftLog::new();
    log.append(make_entry(1, 1));
    log.compact(5, 3);
    assert!(log.is_empty());
    assert_eq!(log.last_index(), 5);
    assert_eq!(log.last_term(), 3);
    assert_eq!(log.snapshot_last_term(), 3);
    // compacting to a point that has been reached changes nothing
    log.compact(4, 2);
    assert_eq!(log.snapshot_last_index(), 5);
}

#[test]
fn truncating_at_the_snapshot_empties_the_log() {
    let mut log = RaftLog::new();
    for i in 1..=6 {
        log.append(make_entry(i, 1));
    }
    log.compact(3, 1);
    log.truncate_from(9);
    assert_eq!(log.len(), 3);
    log.truncate_from(2);
    assert!(log.is_empty());
    assert_eq!(log.last_index(), 3);
}

#[test]
fn setting_the_snapshot_point_leaves_the_entries() {
    let mut log = RaftLog::new();
    log.append(make_entry(1, 1));
    log.set_snapshot_meta(4, 2);
    assert_eq!(log.len(), 1);
    assert_eq!(log.snapshot_last_index(), 4);
    assert_eq!(log.term_at(4), Some(2));
}

#[test]
fn the_state_machine_applies_an_index_once() {
    let mut machine = StateMachine::new();
    machine.apply(1, &make_crdt_entry(1, 1).command);
    machine.apply(2, &Command::Noop);
    assert_eq!(machine.last_applied(), 2);
    machine.apply(2, &make_crdt_entry(9, 1).command);
    let reg = machine.state().get_register(&StateKey::new("test", "key")).unwrap();
    assert_eq!(reg.value, Value::from(1u64));
}

#[test]
fn snapshot_and_replay_end_where_replay_ends() {
    let entries: Vec<LogEntry> = (1..=6).map(|i| make_crdt_entry(i, 1)).collect();
    let mut whole = StateMachine::new();
    for e in &entries {
        whole.apply(e.index, &e.command);
    }
    let mut part = StateMachine::default();
    for e in &entries[..3] {
        part.apply(e.index, &e.command);
    }
    let mut restored = StateMachine::new();
    restored.restore(part.snapshot());
    assert_eq!(restored.last_applied(), 3);
    for e in &entries {
        restored.apply(e.index, &e.command);
    }
    let key = StateKey::new("test", "key");
    assert_eq!(restored.last_applied(), whole.last_applied());
    assert_eq!(restored.state().get_register(&key), whole.state().get_register(&key));
    assert_eq!(restored.state().get_register(&key).unwrap().value, Value::from(6u64));
}
