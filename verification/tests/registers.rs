//! Last-writer-wins registers.

use concord::crdt::lww::LwwRegister;
use serde_json::Value;

fn text(s: &str) -> Value {
    Value::String(s.to_string())
}

#[test]
fn test_higher_timestamp_wins() {
    let mut reg = LwwRegister::new(text("old"), 1, "node-a".into());
    assert!(reg.update(text("new"), 2, "node-b".into()));
    assert_eq!(reg.value, text("new"));
}

#[test]
fn test_lower_timestamp_rejected() {
    let mut reg = LwwRegister::new(text("current"), 5, "node-a".into());
    assert!(!reg.update(text("stale"), 3, "node-b".into()));
    assert_eq!(reg.value, text("current"));
}

#[test]
fn test_tie_broken_by_node_id() {
    let mut reg = LwwRegister::new(text("from-a"), 10, "node-a".into());
    assert!(reg.update(text("from-b"), 10, "node-b".into()));
    assert_eq!(reg.value, text("from-b"));

    // reverse direction should not overwrite
    assert!(!reg.update(text("from-a-again"), 10, "node-a".into()));
    assert_eq!(reg.value, text("from-b"));
}

#[test]
fn lww_test_merge_commutative() {
    let a = LwwRegister::new(text("a-val"), 5, "node-a".into());
    let b = LwwRegister::new(text("b-val"), 7, "node-b".into());

    let mut ab = a.clone();
    ab.merge(&b);

    let mut ba = b.clone();
    ba.merge(&a);

    assert_eq!(ab.value, ba.value);
    assert_eq!(ab.timestamp, ba.timestamp);
}

#[test]
fn lww_test_merge_idempotent() {
    let mut reg = LwwRegister::new(text("val"), 5, "node-a".into());
    let other = LwwRegister::new(text("other"), 3, "node-b".into());

    reg.merge(&other);
    let after_first = reg.clone();
    reg.merge(&other);
    assert_eq!(reg, after_first);
}

fn some_registers() -> Vec<LwwRegister> {
    let mut all = Vec::new();
    for ts in [1u64, 2, 7, 999] {
        for node in ["a", "ab", "b", "zz"] {
            all.push(LwwRegister::new(Value::from(ts), ts, node.to_string()));
        }
    }
    all
}

#[test]
fn lww_merge_commutative() {
    for a in some_registers() {
        for b in some_registers() {
            let mut ab = a.clone();
            ab.merge(&b);
            let mut ba = b.clone();
            ba.merge(&a);
            assert_eq!(ab, ba);
        }
    }
}

#[test]
fn lww_merge_associative() {
    for a in some_registers() {
        for b in some_registers() {
            for c in some_registers() {
                let mut ab_c = a.clone();
                ab_c.merge(&b);
                ab_c.merge(&c);
                let mut bc = b.clone();
                bc.merge(&c);
                let mut a_bc = a.clone();
                a_bc.merge(&bc);
                assert_eq!(ab_c, a_bc);
            }
        }
    }
}

#[test]
fn lww_merge_idempotent() {
    for a in some_registers() {
        let mut merged = a.clone();
        assert!(!merged.merge(&a));
        assert!(!merged.merge(&a));
        assert_eq!(merged, a);
    }
}

#[test]
fn merge_says_whether_it_took_over() {
    let mut reg = LwwRegister::new(text("x"), 3, "b".into());
    assert!(!reg.merge(&LwwRegister::new(text("y"), 3, "a".into())));
    assert!(reg.merge(&LwwRegister::new(text("z"), 3, "c".into())));
    assert_eq!(reg, LwwRegister::new(text("z"), 3, "c".into()));
}

#[test]
fn the_outcome_of_writes_does_not_depend_on_their_order() {
    let writes = some_registers();
    let mut forward = LwwRegister::new(Value::Null, 0, String::new());
    for w in &writes {
        forward.update(w.value.clone(), w.timestamp, w.node_id.clone());
    }
    let mut backward = LwwRegister::new(Value::Null, 0, String::new());
    for w in writes.iter().rev() {
        backward.update(w.value.clone(), w.timestamp, w.node_id.clone());
    }
    assert_eq!(forward, backward);
    assert_eq!(forward, LwwRegister::new(Value::from(999u64), 999, "zz".into()));
}

#[test]
fn node_ids_are_ordered_by_their_bytes() {
    let mut reg = LwwRegister::new(text("z"), 1, "z".into());
    // an e with an acute accent is encoded in bytes above those of every letter from a to z
    assert!(reg.update(text("accent"), 1, "\u{e9}".into()));
    assert!(!reg.update(text("upper"), 1, "Z".into()));
    assert_eq!(reg.value, text("accent"));
}
