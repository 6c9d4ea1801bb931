//! Replicated sequences.

use concord::crdt::sequence::{ElementId, RgaSequence, SequenceOp};
use concord::map::Key;
use concord::order::Order;
use serde_json::Value;

fn text(s: &str) -> Value {
    Value::String(s.to_string())
}

fn number(n: usize) -> Value {
    Value::from(n)
}

fn values_of(seq: &RgaSequence) -> Vec<Value> {
    seq.values().into_iter().cloned().collect()
}

#[test]
fn test_insert_and_read() {
    let mut seq = RgaSequence::new();
    seq.insert(0, text("step-1"), 1, "agent-a");
    seq.insert(1, text("step-2"), 2, "agent-a");
    seq.insert(2, text("step-3"), 3, "agent-a");

    let vals = seq.values();
    assert_eq!(vals, vec![&text("step-1"), &text("step-2"), &text("step-3")]);
}

#[test]
fn test_insert_at_beginning() {
    let mut seq = RgaSequence::new();
    seq.insert(0, text("second"), 1, "a");
    seq.insert(0, text("first"), 2, "a");

    let vals = seq.values();
    assert_eq!(vals, vec![&text("first"), &text("second")]);
}

#[test]
fn test_delete() {
    let mut seq = RgaSequence::new();
    seq.insert(0, text("a"), 1, "n");
    seq.insert(1, text("b"), 2, "n");
    seq.insert(2, text("c"), 3, "n");

    seq.delete(1); // delete "b"

    let vals = seq.values();
    assert_eq!(vals, vec![&text("a"), &text("c")]);
    assert_eq!(seq.len(), 2);
}

#[test]
fn test_concurrent_inserts_converge() {
    // two agents concurrently insert after the same position
    let mut state_a = RgaSequence::new();
    let mut state_b = RgaSequence::new();

    // shared initial state
    let op0 = state_a.insert(0, text("root-step"), 1, "init");
    state_b.apply(&op0);

    // concurrent inserts after position 1 (after "root-step")
    let op_a = state_a.insert(1, text("agent-a-step"), 2, "agent-a");
    let op_b = state_b.insert(1, text("agent-b-step"), 2, "agent-b");

    // cross-apply
    state_a.apply(&op_b);
    state_b.apply(&op_a);

    // both should converge to the same order
    assert_eq!(values_of(&state_a), values_of(&state_b));
    // the higher id comes first
    assert_eq!(
        values_of(&state_a),
        vec![text("root-step"), text("agent-b-step"), text("agent-a-step")]
    );
}

#[test]
fn sequence_test_merge_commutative() {
    let mut a = RgaSequence::new();
    let mut b = RgaSequence::new();

    a.insert(0, text("a1"), 1, "node-a");
    a.insert(1, text("a2"), 3, "node-a");
    b.insert(0, text("b1"), 2, "node-b");
    b.insert(1, text("b2"), 4, "node-b");

    let mut ab = a.clone();
    ab.merge(&b);

    let mut ba = b.clone();
    ba.merge(&a);

    assert_eq!(values_of(&ab), values_of(&ba));
}

#[test]
fn sequence_test_merge_idempotent() {
    let mut seq = RgaSequence::new();
    seq.insert(0, text("x"), 1, "a");

    let snapshot = seq.clone();
    seq.merge(&snapshot);
    seq.merge(&snapshot);

    assert_eq!(seq.len(), 1);
}

#[test]
fn test_delete_then_merge_preserves_tombstone() {
    let mut a = RgaSequence::new();
    let op = a.insert(0, text("item"), 1, "n");

    let mut b = RgaSequence::new();
    b.apply(&op);

    a.delete(0);
    b.merge(&a);

    assert_eq!(b.len(), 0);
}

#[test]
fn rga_insert_preserves_order() {
    for n in 1usize..8 {
        let mut seq = RgaSequence::new();
        for i in 0..n {
            seq.insert(i, number(i), (i + 1) as u64, "node-a");
        }
        let vals = seq.values();
        assert_eq!(vals.len(), n);
        for (i, v) in vals.iter().enumerate() {
            assert_eq!(*v, &number(i));
        }
    }
}

#[test]
fn rga_merge_idempotent() {
    for n in 1usize..6 {
        let mut seq = RgaSequence::new();
        for i in 0..n {
            seq.insert(i, number(i), (i + 1) as u64, "a");
        }
        let original_len = seq.len();
        let snapshot = seq.clone();
        seq.merge(&snapshot);
        seq.merge(&snapshot);
        assert_eq!(seq.len(), original_len);
        assert_eq!(values_of(&seq), values_of(&snapshot));
    }
}

#[test]
fn rga_concurrent_inserts_converge() {
    for ts_a in [1u64, 2, 50, 99] {
        for ts_b in [1u64, 2, 50, 99] {
            let mut state_a = RgaSequence::new();
            let mut state_b = RgaSequence::new();
            let op0 = state_a.insert(0, text("root"), 1, "init");
            state_b.apply(&op0);
            let op_a = state_a.insert(1, text("from-a"), ts_a + 1, "node-a");
            let op_b = state_b.insert(1, text("from-b"), ts_b + 1, "node-b");
            state_a.apply(&op_b);
            state_b.apply(&op_a);
            assert_eq!(
                values_of(&state_a),
                values_of(&state_b),
                "replicas diverged after concurrent insert"
            );
        }
    }
}

#[test]
fn rga_delete_is_stable() {
    for n in 2usize..6 {
        for del_pos in 0usize..5 {
            let mut seq = RgaSequence::new();
            for i in 0..n {
                seq.insert(i, number(i), (i + 1) as u64, "a");
            }
            let del_pos = del_pos % n;
            seq.delete(del_pos);
            assert_eq!(seq.len(), n - 1);
            // merging with self shouldn't un-delete
            let snapshot = seq.clone();
            seq.merge(&snapshot);
            assert_eq!(seq.len(), n - 1);
            assert!(!values_of(&seq).contains(&number(del_pos)));
        }
    }
}

#[test]
fn merging_is_associative() {
    let mut base = RgaSequence::new();
    base.insert(0, text("base"), 1, "init");
    let mut a = base.clone();
    let mut b = base.clone();
    let mut c = base.clone();
    a.insert(1, text("a"), 2, "a");
    a.insert(2, text("aa"), 3, "a");
    b.insert(0, text("b"), 2, "b");
    b.delete(1);
    c.insert(1, text("c"), 5, "c");

    let mut ab_c = a.clone();
    ab_c.merge(&b);
    ab_c.merge(&c);
    let mut bc = b.clone();
    bc.merge(&c);
    let mut a_bc = a.clone();
    a_bc.merge(&bc);
    assert_eq!(values_of(&ab_c), values_of(&a_bc));
    assert_eq!(values_of(&ab_c), vec![text("b"), text("c"), text("a"), text("aa")]);
}

#[test]
fn deleting_behind_the_end_is_no_change() {
    let mut seq = RgaSequence::new();
    assert!(seq.delete(0).is_none());
    seq.insert(0, text("x"), 1, "a");
    assert!(seq.delete(1).is_none());
    assert!(matches!(seq.delete(0), Some(SequenceOp::Delete { .. })));
    assert!(seq.is_empty());
}

#[test]
fn inserting_behind_the_end_goes_to_the_end() {
    let mut seq = RgaSequence::new();
    seq.insert(7, text("first"), 1, "a");
    seq.insert(9, text("second"), 2, "a");
    assert_eq!(values_of(&seq), vec![text("first"), text("second")]);
}

#[test]
fn an_insert_that_arrives_twice_counts_once() {
    let mut seq = RgaSequence::new();
    let op = seq.insert(0, text("x"), 1, "a");
    seq.apply(&op);
    assert_eq!(seq.len(), 1);
    assert_eq!(seq.changes().len(), 1);
}

#[test]
fn inserts_in_any_causal_order_converge() {
    let mut author = RgaSequence::new();
    let a = author.insert(0, text("a"), 1, "x");
    let b = author.insert(1, text("b"), 2, "x");
    let c = author.insert(1, text("c"), 3, "y");
    let d = author.delete(0).unwrap();

    let mut other = RgaSequence::new();
    for op in [&a, &c, &d, &b] {
        other.apply(op);
    }
    assert_eq!(values_of(&author), values_of(&other));
    assert_eq!(values_of(&author), vec![text("c"), text("b")]);
}

#[test]
fn ids_are_ordered_by_timestamp_and_node() {
    assert_eq!(id(1, "z").order(&id(2, "a")), Order::Less);
    assert_eq!(id(2, "b").order(&id(2, "a")), Order::Greater);
    assert_eq!(id(2, "b").order(&id(2, "b")), Order::Equal);
    assert_eq!(ElementId::root().order(&id(0, "a")), Order::Less);
}

fn id(timestamp: u64, node_id: &str) -> ElementId {
    ElementId { timestamp, node_id: node_id.to_string() }
}

fn insert(timestamp: u64, parent: ElementId, value: &str) -> SequenceOp {
    SequenceOp::Insert { id: id(timestamp, "a"), parent, value: text(value) }
}

fn rebuilt(seq: &RgaSequence) -> RgaSequence {
    let mut copy = RgaSequence::new();
    for op in seq.changes() {
        copy.apply(&op);
    }
    copy
}

#[test]
fn a_sequence_can_be_rebuilt_from_its_changes() {
    let mut seq = RgaSequence::new();
    seq.insert(0, text("a"), 1, "n");
    seq.insert(1, text("b"), 2, "n");
    seq.insert(1, text("c"), 3, "n");
    seq.delete(0);
    // one element waits, one is deleted before it comes
    seq.apply(&insert(9, id(8, "a"), "later"));
    seq.apply(&SequenceOp::Delete { id: id(7, "a") });
    let mut copy = rebuilt(&seq);
    assert_eq!(values_of(&copy), values_of(&seq));
    assert_eq!(values_of(&copy), vec![text("c"), text("b")]);
    for change in [insert(7, ElementId::root(), "gone"), insert(8, ElementId::root(), "first")] {
        seq.apply(&change);
        copy.apply(&change);
    }
    assert_eq!(values_of(&copy), values_of(&seq));
    assert_eq!(
        values_of(&copy),
        vec![text("first"), text("later"), text("c"), text("b")]
    );
}

#[test]
fn an_element_waits_for_its_parent() {
    let mut seq = RgaSequence::new();
    seq.apply(&insert(2, ElementId::root(), "b"));
    seq.apply(&insert(3, id(1, "a"), "c"));
    assert_eq!(values_of(&seq), vec![text("b")]);
    seq.apply(&insert(1, ElementId::root(), "a"));
    assert_eq!(values_of(&seq), vec![text("b"), text("a"), text("c")]);
}

#[test]
fn changes_in_any_order_converge() {
    let ops = [
        insert(2, ElementId::root(), "b"),
        insert(3, id(1, "a"), "c"),
        insert(1, ElementId::root(), "a"),
        SequenceOp::Delete { id: id(2, "a") },
    ];
    let mut orders: Vec<Vec<usize>> = vec![vec![]];
    for _ in 0..ops.len() {
        let mut longer = Vec::new();
        for order in &orders {
            for next in 0..ops.len() {
                if !order.contains(&next) {
                    let mut more = order.clone();
                    more.push(next);
                    longer.push(more);
                }
            }
        }
        orders = longer;
    }
    assert_eq!(orders.len(), 24);
    for order in orders {
        let mut seq = RgaSequence::new();
        for i in order {
            seq.apply(&ops[i]);
        }
        assert_eq!(values_of(&seq), vec![text("a"), text("c")]);
    }
}

#[test]
fn a_chain_that_arrives_backwards_is_in_order() {
    let mut seq = RgaSequence::new();
    seq.apply(&insert(4, id(3, "a"), "four"));
    seq.apply(&insert(3, id(2, "a"), "three"));
    seq.apply(&insert(2, id(1, "a"), "two"));
    assert!(seq.is_empty());
    seq.apply(&insert(1, ElementId::root(), "one"));
    assert_eq!(
        values_of(&seq),
        vec![text("one"), text("two"), text("three"), text("four")]
    );
}

#[test]
fn a_deletion_that_comes_first_is_remembered() {
    let mut seq = RgaSequence::new();
    seq.apply(&SequenceOp::Delete { id: id(1, "a") });
    seq.apply(&insert(1, ElementId::root(), "gone"));
    assert!(seq.is_empty());
    // what was inserted below it has its place
    seq.apply(&insert(2, id(1, "a"), "below"));
    assert_eq!(values_of(&seq), vec![text("below")]);
    // the root cannot be deleted or inserted
    seq.apply(&SequenceOp::Delete { id: ElementId::root() });
    seq.apply(&SequenceOp::Insert {
        id: ElementId::root(),
        parent: ElementId::root(),
        value: text("root"),
    });
    assert_eq!(values_of(&seq), vec![text("below")]);
}

#[test]
fn merging_takes_over_what_waits_and_what_is_gone() {
    let mut a = RgaSequence::new();
    a.apply(&insert(3, id(1, "a"), "c"));
    a.apply(&SequenceOp::Delete { id: id(2, "a") });
    let mut b = RgaSequence::new();
    b.apply(&insert(1, ElementId::root(), "a"));
    b.apply(&insert(2, ElementId::root(), "b"));
    let mut ab = a.clone();
    ab.merge(&b);
    let mut ba = b.clone();
    ba.merge(&a);
    assert_eq!(values_of(&ab), vec![text("a"), text("c")]);
    assert_eq!(values_of(&ba), values_of(&ab));
}

#[test]
fn the_order_is_a_walk_through_the_tree() {
    let mut seq = RgaSequence::new();
    seq.apply(&insert(1, ElementId::root(), "1"));
    seq.apply(&insert(2, ElementId::root(), "2"));
    seq.apply(&insert(3, id(2, "a"), "2.3"));
    seq.apply(&insert(5, id(2, "a"), "2.5"));
    seq.apply(&insert(4, id(2, "a"), "2.4"));
    seq.apply(&insert(6, id(1, "a"), "1.6"));
    assert_eq!(
        values_of(&seq),
        vec![text("2"), text("2.5"), text("2.4"), text("2.3"), text("1"), text("1.6")]
    );
}
