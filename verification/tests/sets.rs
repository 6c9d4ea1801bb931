//! Observed-remove sets.

use concord::crdt::orset::{OrSet, OrSetOp, Tag, TagSet};

#[test]
fn test_add_and_contains() {
    let mut set = OrSet::new();
    set.add("task-1".into(), "node-a");
    assert!(set.contains("task-1"));
    assert!(!set.contains("task-2"));
    assert_eq!(set.len(), 1);
}

#[test]
fn test_remove() {
    let mut set = OrSet::new();
    set.add("task-1".into(), "node-a");
    set.remove("task-1");
    assert!(!set.contains("task-1"));
    assert_eq!(set.len(), 0);
}

#[test]
fn test_concurrent_add_remove_add_wins() {
    // node-a adds "item", node-b concurrently removes "item"
    // but node-b only observed tags from before node-a's add
    let mut state_a = OrSet::new();
    let mut state_b = OrSet::new();

    // initial state: both have "item"
    let op_init = state_a.add("item".into(), "node-a");
    state_b.apply(&op_init);

    // node-b removes "item" (observes the initial tag)
    let remove_op = state_b.remove("item").unwrap();

    // concurrently, node-a adds "item" again with a new tag
    let add_op = state_a.add("item".into(), "node-a");

    // apply both ops to both replicas
    state_a.apply(&remove_op);
    state_b.apply(&add_op);

    // both should still contain "item" because the concurrent add
    // introduced a tag that the remove didn't observe
    assert!(state_a.contains("item"));
    assert!(state_b.contains("item"));
}

fn sorted_elements(set: &OrSet) -> Vec<String> {
    let mut elems: Vec<String> = set.elements().iter().map(|s| s.to_string()).collect();
    elems.sort();
    elems
}

#[test]
fn orset_test_merge_commutative() {
    let mut a = OrSet::new();
    let mut b = OrSet::new();

    a.add("x".into(), "node-a");
    a.add("y".into(), "node-a");
    b.add("y".into(), "node-b");
    b.add("z".into(), "node-b");

    let mut ab = a.clone();
    ab.merge(&b);

    let mut ba = b.clone();
    ba.merge(&a);

    assert_eq!(sorted_elements(&ab), sorted_elements(&ba));
    assert_eq!(sorted_elements(&ab), vec!["x", "y", "z"]);
}

#[test]
fn orset_test_merge_idempotent() {
    let mut a = OrSet::new();
    a.add("x".into(), "node-a");

    let mut merged = a.clone();
    merged.merge(&a);
    merged.merge(&a);

    assert_eq!(merged.len(), 1);
    assert!(merged.contains("x"));
}

#[test]
fn test_op_replay_convergence() {
    let mut state_a = OrSet::new();
    let mut state_b = OrSet::new();

    let ops: Vec<OrSetOp> = vec![
        state_a.add("task-1".into(), "agent-1"),
        state_a.add("task-2".into(), "agent-1"),
        state_b.add("task-3".into(), "agent-2"),
    ];

    // apply all ops to both replicas in different orders
    for op in &ops {
        state_a.apply(op);
    }
    for op in ops.iter().rev() {
        state_b.apply(op);
    }

    assert_eq!(sorted_elements(&state_a), sorted_elements(&state_b));
}

#[test]
fn orset_add_is_observable() {
    for elem in ["a", "abc", "zzzzzz", ""] {
        let mut set = OrSet::new();
        set.add(elem.to_string(), "n");
        assert!(set.contains(elem));
        assert!(!set.is_empty());
    }
}

#[test]
fn orset_merge_commutative() {
    let lists = [vec![], vec!["a"], vec!["a", "b", "a"], vec!["q", "b", "c", "d"]];
    for elems_a in &lists {
        for elems_b in &lists {
            let mut a = OrSet::new();
            let mut b = OrSet::new();
            for e in elems_a {
                a.add(e.to_string(), "node-a");
            }
            for e in elems_b {
                b.add(e.to_string(), "node-b");
            }
            let mut ab = a.clone();
            ab.merge(&b);
            let mut ba = b.clone();
            ba.merge(&a);
            assert_eq!(sorted_elements(&ab), sorted_elements(&ba));
            for e in ab.elements() {
                assert_eq!(ab.tags(e).unwrap().len(), ba.tags(e).unwrap().len());
            }
        }
    }
}

#[test]
fn orset_merge_idempotent() {
    let mut set = OrSet::new();
    for e in ["a", "b", "b", "c"] {
        set.add(e.to_string(), "node-a");
    }
    let original_len = set.len();
    let snapshot = set.clone();
    set.merge(&snapshot);
    set.merge(&snapshot);
    assert_eq!(set.len(), original_len);
    assert_eq!(set.len(), 3);
}

#[test]
fn orset_concurrent_add_wins() {
    for elem in ["a", "item"] {
        let mut state_a = OrSet::new();
        let mut state_b = OrSet::new();
        let op_init = state_a.add(elem.to_string(), "init");
        state_b.apply(&op_init);
        let remove_op = state_b.remove(elem).unwrap();
        let add_op = state_a.add(elem.to_string(), "node-a");
        state_a.apply(&remove_op);
        state_b.apply(&add_op);
        assert!(state_a.contains(elem));
        assert!(state_b.contains(elem));
    }
}

#[test]
fn every_add_makes_a_tag_of_its_own() {
    let mut set = OrSet::new();
    let first = set.add("x".into(), "node-a");
    let second = set.add("x".into(), "node-a");
    let (OrSetOp::Add { tag: a, .. }, OrSetOp::Add { tag: b, .. }) = (&first, &second) else {
        panic!("an add makes an add");
    };
    assert_ne!(a.id, b.id);
    assert_eq!(a.node_id, "node-a");
    for tag in [a, b] {
        assert_eq!(tag.id.len(), 36);
        assert_eq!(tag.id.chars().nth(14), Some('4'));
        for (i, c) in tag.id.chars().enumerate() {
            if i == 8 || i == 13 || i == 18 || i == 23 {
                assert_eq!(c, '-');
            } else {
                assert!(c.is_ascii_digit() || ('a'..='f').contains(&c));
            }
        }
    }
    assert_eq!(set.tags("x").unwrap().len(), 2);
}

#[test]
fn removing_what_is_not_there_is_no_change() {
    let mut set = OrSet::new();
    assert!(set.remove("x").is_none());
    assert!(set.is_empty());
}

#[test]
fn a_remove_carries_the_tags_that_it_observed() {
    let mut set = OrSet::new();
    set.add("x".into(), "a");
    set.add("x".into(), "b");
    let Some(OrSetOp::Remove { element, observed_tags }) = set.remove("x") else {
        panic!("x is there");
    };
    assert_eq!(element, "x");
    assert_eq!(observed_tags.len(), 2);
    assert!(set.tags("x").is_none());
}

#[test]
fn a_remove_leaves_tags_that_it_did_not_observe() {
    let mut set = OrSet::new();
    let seen = Tag { id: "1".into(), node_id: "n".into() };
    let unseen = Tag { id: "2".into(), node_id: "n".into() };
    set.apply(&OrSetOp::Add { element: "x".into(), tag: seen.clone() });
    set.apply(&OrSetOp::Add { element: "x".into(), tag: unseen.clone() });
    let mut observed_tags = TagSet::new();
    observed_tags.insert(seen.clone());
    set.apply(&OrSetOp::Remove { element: "x".into(), observed_tags });
    let left = set.tags("x").unwrap();
    assert_eq!(left.len(), 1);
    assert!(left.contains(&unseen));
    assert!(!left.contains(&seen));
}

#[test]
fn elements_come_in_order() {
    let mut set = OrSet::new();
    for e in ["pear", "apple", "fig"] {
        set.add(e.to_string(), "n");
    }
    assert_eq!(set.elements(), vec!["apple", "fig", "pear"]);
}

fn tag(id: &str) -> Tag {
    Tag { id: id.into(), node_id: "n".into() }
}

fn add(element: &str, id: &str) -> OrSetOp {
    OrSetOp::Add { element: element.into(), tag: tag(id) }
}

fn remove(element: &str, ids: &[&str]) -> OrSetOp {
    let mut observed_tags = TagSet::new();
    for id in ids {
        observed_tags.insert(tag(id));
    }
    OrSetOp::Remove { element: element.into(), observed_tags }
}

#[test]
fn a_remove_that_comes_before_the_add_that_it_observed_wins() {
    let mut set = OrSet::new();
    set.apply(&remove("x", &["1"]));
    set.apply(&add("x", "1"));
    assert!(!set.contains("x"));
    // another tag, and the same tag of another element, are not touched
    set.apply(&add("x", "2"));
    set.apply(&add("y", "1"));
    assert_eq!(set.elements(), vec!["x", "y"]);
}

#[test]
fn set_changes_in_any_order_converge() {
    let ops = [add("x", "1"), remove("x", &["1"]), add("x", "2")];
    for order in [[0, 1, 2], [0, 2, 1], [1, 0, 2], [1, 2, 0], [2, 0, 1], [2, 1, 0]] {
        let mut set = OrSet::new();
        for i in order {
            set.apply(&ops[i]);
        }
        let tags = set.tags("x").unwrap();
        assert_eq!(tags.len(), 1);
        assert!(tags.contains(&tag("2")));
    }
}

#[test]
fn merging_does_not_bring_back_what_was_removed() {
    let mut a = OrSet::new();
    a.add("x".into(), "a");
    a.add("y".into(), "a");
    let mut b = a.clone();
    b.remove("x");
    let mut ab = a.clone();
    ab.merge(&b);
    b.merge(&a);
    assert_eq!(ab.elements(), vec!["y"]);
    assert_eq!(b.elements(), vec!["y"]);
}

#[test]
fn a_set_can_be_rebuilt_from_its_changes() {
    let mut set = OrSet::new();
    set.add("x".into(), "a");
    set.add("y".into(), "a");
    set.remove("y");
    set.apply(&remove("z", &["1"]));
    let mut copy = OrSet::new();
    for op in set.changes() {
        copy.apply(&op);
    }
    assert_eq!(copy.elements(), vec!["x"]);
    copy.apply(&add("z", "1"));
    assert!(!copy.contains("z"));
}
