//! The replicated state.

use concord::crdt::orset::{OrSet, OrSetOp, Tag, TagSet};
use concord::crdt::sequence::RgaSequence;
use concord::crdt::state::StateKey;
use concord::crdt::{CrdtOp, CrdtState};
use serde_json::Value;

fn text(s: &str) -> Value {
    Value::String(s.to_string())
}

#[test]
fn test_register_ops() {
    let mut state = CrdtState::new();
    let key = StateKey::new("agents", "agent-1-status");

    state.set_register(key.clone(), text("running"), 1, "node-a");
    state.set_register(key.clone(), text("done"), 2, "node-a");

    let reg = state.get_register(&key).unwrap();
    assert_eq!(reg.value, text("done"));
}

#[test]
fn test_set_ops() {
    let mut state = CrdtState::new();
    let key = StateKey::new("tasks", "completed");

    state.add_to_set(key.clone(), "task-1".into(), "agent-a");
    state.add_to_set(key.clone(), "task-2".into(), "agent-b");

    let set = state.get_set(&key).unwrap();
    assert!(set.contains("task-1"));
    assert!(set.contains("task-2"));
    assert_eq!(set.len(), 2);

    state.remove_from_set(key.clone(), "task-1");
    let set = state.get_set(&key).unwrap();
    assert!(!set.contains("task-1"));
}

#[test]
fn test_sequence_ops() {
    let mut state = CrdtState::new();
    let key = StateKey::new("plan", "steps");

    state.insert_into_sequence(key.clone(), 0, text("research"), 1, "agent-a");
    state.insert_into_sequence(key.clone(), 1, text("analyze"), 2, "agent-a");
    state.insert_into_sequence(key.clone(), 2, text("report"), 3, "agent-a");

    let seq = state.get_sequence(&key).unwrap();
    let vals = seq.values();
    assert_eq!(vals.len(), 3);
    assert_eq!(vals[0], &text("research"));
}

#[test]
fn test_state_merge() {
    let mut state_a = CrdtState::new();
    let mut state_b = CrdtState::new();

    let key = StateKey::new("agents", "status");
    state_a.set_register(key.clone(), text("idle"), 1, "node-a");
    state_b.set_register(key.clone(), text("active"), 2, "node-b");

    state_a.merge(&state_b);
    let reg = state_a.get_register(&key).unwrap();
    assert_eq!(reg.value, text("active"));
}

/// What a state holds, as text that can be compared.
fn told(state: &CrdtState) -> Vec<String> {
    let mut lines = Vec::new();
    for key in state.register_keys() {
        let reg = state.get_register(&key).unwrap();
        lines.push(format!("register {:?} {} {} {}", key, reg.value, reg.timestamp, reg.node_id));
    }
    for key in state.set_keys() {
        let set = state.get_set(&key).unwrap();
        for element in set.elements() {
            let tags = set.tags(element).unwrap();
            let mut ids: Vec<String> = Vec::new();
            for i in 0..tags.len() {
                ids.push(format!("{:?}", tags.tag_at(i)));
            }
            ids.sort();
            lines.push(format!("set {:?} {} {:?}", key, element, ids));
        }
    }
    for key in state.sequence_keys() {
        let seq = state.get_sequence(&key).unwrap();
        lines.push(format!("sequence {:?} {:?}", key, seq.values()));
    }
    lines
}

fn three_states() -> Vec<CrdtState> {
    let mut base = CrdtState::new();
    let reg = StateKey::new("agents", "status");
    let set = StateKey::new("facts", "all");
    let plan = StateKey::new("plan", "steps");
    base.set_register(reg.clone(), text("idle"), 1, "init");
    base.add_to_set(set.clone(), "shared".into(), "init");
    base.insert_into_sequence(plan.clone(), 0, text("start"), 1, "init");

    let mut a = base.clone();
    a.set_register(reg.clone(), text("busy"), 2, "a");
    a.add_to_set(set.clone(), "from-a".into(), "a");
    a.insert_into_sequence(plan.clone(), 1, text("a-step"), 2, "a");

    let mut b = base.clone();
    b.set_register(reg.clone(), text("done"), 2, "b");
    b.remove_from_set(set.clone(), "shared");
    b.insert_into_sequence(plan.clone(), 1, text("b-step"), 2, "b");
    b.delete_from_sequence(plan.clone(), 0);

    let mut c = base.clone();
    c.set_register(StateKey::new("agents", "other"), text("x"), 9, "c");
    c.add_to_set(set.clone(), "from-c".into(), "c");
    vec![a, b, c]
}

#[test]
fn merging_states_is_commutative_associative_and_idempotent() {
    let states = three_states();
    let (a, b, c) = (&states[0], &states[1], &states[2]);

    let mut ab = a.clone();
    ab.merge(b);
    let mut ba = b.clone();
    ba.merge(a);
    assert_eq!(told(&ab), told(&ba));

    let mut ab_c = ab.clone();
    ab_c.merge(c);
    let mut bc = b.clone();
    bc.merge(c);
    let mut a_bc = a.clone();
    a_bc.merge(&bc);
    assert_eq!(told(&ab_c), told(&a_bc));

    let before = told(&ab_c);
    let again = ab_c.clone();
    ab_c.merge(&again);
    ab_c.merge(b);
    assert_eq!(told(&ab_c), before);

    let reg = ab_c.get_register(&StateKey::new("agents", "status")).unwrap();
    assert_eq!(reg.value, text("done"));
    let plan = ab_c.get_sequence(&StateKey::new("plan", "steps")).unwrap();
    assert_eq!(plan.values(), vec![&text("b-step"), &text("a-step")]);
}

#[test]
fn replicas_that_see_the_same_changes_agree() {
    let mut author = CrdtState::new();
    let reg = StateKey::new("r", "k");
    let set = StateKey::new("s", "k");
    let plan = StateKey::new("p", "k");
    let ops = vec![
        author.set_register(reg.clone(), text("one"), 1, "a"),
        author.set_register(reg.clone(), text("two"), 1, "b"),
        author.add_to_set(set.clone(), "x".into(), "a"),
        author.add_to_set(set.clone(), "y".into(), "a"),
        author.remove_from_set(set.clone(), "x").unwrap(),
        author.insert_into_sequence(plan.clone(), 0, text("p"), 1, "a"),
        author.insert_into_sequence(plan.clone(), 0, text("q"), 2, "a"),
        author.delete_from_sequence(plan.clone(), 1).unwrap(),
    ];
    let mut other = CrdtState::new();
    for i in [3usize, 1, 6, 0, 2, 5, 7, 4] {
        other.apply(&ops[i]);
    }
    assert_eq!(told(&author), told(&other));
    let mut again = author.clone();
    for i in [0usize, 1, 5, 6, 7, 3, 4] {
        again.apply(&ops[i]);
    }
    assert_eq!(told(&author), told(&again));
}

#[test]
fn a_change_leaves_other_keys_alone() {
    let mut state = three_states().remove(0);
    let before = told(&state);
    state.set_register(StateKey::new("zz", "zz"), text("new"), 1, "n");
    let after = told(&state);
    assert_eq!(after.len(), before.len() + 1);
    for line in &before {
        assert!(after.contains(line));
    }
}

#[test]
fn changes_of_what_is_not_there() {
    let mut state = CrdtState::new();
    let key = StateKey::new("n", "k");
    assert!(state.remove_from_set(key.clone(), "x").is_none());
    assert!(state.delete_from_sequence(key.clone(), 0).is_none());
    assert!(state.get_set(&key).is_none());
    assert!(state.get_sequence(&key).is_none());
    assert!(state.get_register(&key).is_none());

    // a remove that arrives from elsewhere leaves an empty set behind
    state.apply(&CrdtOp::RemoveFromSet {
        key: key.clone(),
        op: OrSetOp::Remove { element: "x".into(), observed_tags: TagSet::new() },
    });
    assert!(state.get_set(&key).unwrap().is_empty());
}

#[test]
fn the_first_write_is_taken_as_it_is() {
    let mut state = CrdtState::new();
    let key = StateKey::new("n", "k");
    state.set_register(key.clone(), text("x"), 0, "");
    let reg = state.get_register(&key).unwrap();
    assert_eq!(reg.value, text("x"));
    assert_eq!(reg.timestamp, 0);
    // a second write under the same stamp is not
    state.set_register(key.clone(), text("y"), 0, "");
    assert_eq!(state.get_register(&key).unwrap().value, text("x"));

    let mut other = CrdtState::new();
    other.merge(&state);
    assert_eq!(other.get_register(&key).unwrap().value, text("x"));
    state.merge(&CrdtState::new());
    assert_eq!(state.get_register(&key).unwrap().value, text("x"));
}

#[test]
fn changes_of_a_state_in_any_order_converge() {
    let key = StateKey::new("n", "k");
    let tag = Tag { id: "1".into(), node_id: "n".into() };
    let mut observed_tags = TagSet::new();
    observed_tags.insert(tag.clone());
    let ops = [
        CrdtOp::RemoveFromSet {
            key: key.clone(),
            op: OrSetOp::Remove { element: "x".into(), observed_tags },
        },
        CrdtOp::AddToSet { key: key.clone(), op: OrSetOp::Add { element: "x".into(), tag } },
        CrdtOp::SetRegister {
            key: key.clone(),
            value: text("first"),
            timestamp: 0,
            node_id: String::new(),
        },
        CrdtOp::SetRegister {
            key: key.clone(),
            value: text("second"),
            timestamp: 0,
            node_id: "n".into(),
        },
    ];
    let mut forwards = CrdtState::new();
    let mut backwards = CrdtState::new();
    for op in &ops {
        forwards.apply(op);
    }
    for op in ops.iter().rev() {
        backwards.apply(op);
    }
    assert_eq!(told(&forwards), told(&backwards));
    assert!(!forwards.get_set(&key).unwrap().contains("x"));
    assert_eq!(forwards.get_register(&key).unwrap().value, text("second"));
}

#[test]
fn parts_can_be_put_back() {
    let mut state = CrdtState::default();
    let mut set = OrSet::new();
    set.apply(&OrSetOp::Add {
        element: "e".into(),
        tag: Tag { id: "1".into(), node_id: "n".into() },
    });
    let mut seq = RgaSequence::new();
    seq.insert(0, text("v"), 1, "n");
    state.restore_set(StateKey::new("b", "1"), set);
    state.restore_sequence(StateKey::new("a", "2"), seq);
    assert!(state.get_set(&StateKey::new("b", "1")).unwrap().contains("e"));
    assert_eq!(state.get_sequence(&StateKey::new("a", "2")).unwrap().len(), 1);
    assert_eq!(state.set_keys(), vec![StateKey::new("b", "1")]);
    assert_eq!(state.sequence_keys(), vec![StateKey::new("a", "2")]);
    assert!(state.register_keys().is_empty());
}
