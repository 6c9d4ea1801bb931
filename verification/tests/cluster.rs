//! Clusters whose connections come and go.

use std::collections::HashSet;

use concord::crdt::state::StateKey;
use concord::crdt::CrdtOp;
use concord::raft::message::RaftMessage;
use concord::raft::node::{NodeRole, RaftConfig, RaftNode};
use serde_json::Value;

const MILLI: u64 = 1_000_000;
const NOW: u64 = 1_000 * MILLI;
const FAR_FUTURE: u64 = NOW + 10_000 * MILLI;

struct TestCluster {
    nodes: Vec<RaftNode>,
    partitioned: HashSet<(usize, usize)>,
}

impl TestCluster {
    fn new(n: usize) -> Self {
        let ids: Vec<String> = (0..n).map(|i| format!("node-{}", i)).collect();
        let nodes = ids
            .iter()
            .map(|id| {
                let peers: Vec<String> = ids.iter().filter(|p| *p != id).cloned().collect();
                let mut config = RaftConfig::new(id, peers);
                config.election_timeout_min = 100 * MILLI;
                config.election_timeout_max = 200 * MILLI;
                config.heartbeat_interval = 30 * MILLI;
                RaftNode::new(config, NOW)
            })
            .collect();

        Self { nodes, partitioned: HashSet::new() }
    }

    fn elect_leader(&mut self) -> usize {
        self.nodes[0].tick(FAR_FUTURE);

        for _ in 0..10 {
            self.deliver_messages();
        }

        self.find_leader().expect("no leader elected")
    }

    fn find_leader(&self) -> Option<usize> {
        self.nodes.iter().position(|n| n.role() == NodeRole::Leader)
    }

    fn place_of(&self, id: &str) -> Option<usize> {
        self.nodes.iter().position(|n| n.id() == id)
    }

    fn deliver_messages(&mut self) {
        let mut all_msgs: Vec<(String, RaftMessage)> = Vec::new();
        for node in self.nodes.iter_mut() {
            all_msgs.extend(node.take_outbox());
        }
        for (to, msg) in all_msgs {
            if let Some(to_idx) = self.place_of(&to) {
                let from_idx = match &msg {
                    RaftMessage::AppendEntries(req) => self.place_of(&req.leader_id),
                    RaftMessage::RequestVote(req) => self.place_of(&req.candidate_id),
                    RaftMessage::AppendEntriesReply(resp) => self.place_of(&resp.from),
                    RaftMessage::RequestVoteReply(resp) => self.place_of(&resp.from),
                    RaftMessage::InstallSnapshot(req) => self.place_of(&req.leader_id),
                    RaftMessage::InstallSnapshotReply(resp) => self.place_of(&resp.from),
                };

                if let Some(from_idx) = from_idx {
                    if self.is_partitioned(from_idx, to_idx) {
                        continue;
                    }
                }

                self.nodes[to_idx].handle_message(msg, NOW);
            }
        }
    }

    fn partition(&mut self, a: usize, b: usize) {
        self.partitioned.insert((a, b));
        self.partitioned.insert((b, a));
    }

    fn heal_partition(&mut self, a: usize, b: usize) {
        self.partitioned.remove(&(a, b));
        self.partitioned.remove(&(b, a));
    }

    fn is_partitioned(&self, a: usize, b: usize) -> bool {
        self.partitioned.contains(&(a, b))
    }

    fn isolate_node(&mut self, idx: usize) {
        for i in 0..self.nodes.len() {
            if i != idx {
                self.partition(idx, i);
            }
        }
    }

    fn reconnect_node(&mut self, idx: usize) {
        for i in 0..self.nodes.len() {
            if i != idx {
                self.heal_partition(idx, i);
            }
        }
    }
}

fn write(namespace: &str, key: &str, value: Value, timestamp: u64, node_id: &str) -> CrdtOp {
    CrdtOp::SetRegister {
        key: StateKey::new(namespace, key),
        value,
        timestamp,
        node_id: node_id.to_string(),
    }
}

#[test]
fn test_leader_failover() {
    let mut cluster = TestCluster::new(5);
    let leader_idx = cluster.elect_leader();

    // write some data through the leader
    for i in 0..5 {
        let op = write("data", &format!("key-{}", i), Value::from(i), (i + 1) as u64, "client");
        cluster.nodes[leader_idx].propose(op).unwrap();
    }

    for _ in 0..20 {
        cluster.deliver_messages();
    }

    // verify all nodes replicated
    for node in &cluster.nodes {
        assert!(
            node.commit_index() >= 6,
            "node {} commit {} before partition",
            node.id(),
            node.commit_index()
        );
    }

    // isolate the leader
    cluster.isolate_node(leader_idx);

    // trigger election on a follower
    let new_leader_candidate = if leader_idx == 0 { 1 } else { 0 };
    cluster.nodes[new_leader_candidate].tick(FAR_FUTURE);

    for _ in 0..20 {
        cluster.deliver_messages();
    }

    // a new leader should have been elected among the non-partitioned nodes
    let new_leader = cluster
        .nodes
        .iter()
        .enumerate()
        .filter(|(i, _)| *i != leader_idx)
        .find(|(_, n)| n.role() == NodeRole::Leader);

    assert!(
        new_leader.is_some(),
        "no new leader elected after partitioning old leader"
    );

    let (new_leader_idx, _) = new_leader.unwrap();

    // write more data through the new leader
    let op = write("data", "post-failover", Value::from("survived"), 100, "client");
    cluster.nodes[new_leader_idx].propose(op).unwrap();

    for _ in 0..20 {
        cluster.deliver_messages();
    }

    // reconnect the old leader
    cluster.reconnect_node(leader_idx);

    // tick the new leader to send heartbeats to the reconnected node
    for _ in 0..30 {
        cluster.nodes[new_leader_idx].tick(NOW);
        cluster.deliver_messages();
    }

    // the old leader should have stepped down and caught up
    assert_ne!(
        cluster.nodes[leader_idx].role(),
        NodeRole::Leader,
        "old leader should have stepped down"
    );
    let key = StateKey::new("data", "post-failover");
    let reg = cluster.nodes[leader_idx].state_machine().state().get_register(&key);
    assert_eq!(reg.unwrap().value, Value::from("survived"));
}

#[test]
fn test_minority_partition_cannot_commit() {
    let mut cluster = TestCluster::new(5);
    let leader_idx = cluster.elect_leader();

    // partition the leader from the majority (isolate it with 1 follower)
    // leader can only reach node 1, others can't reach leader
    for i in 2..5 {
        cluster.partition(leader_idx, i);
    }

    // try to propose: it gets into the log but can't commit
    // because we don't have quorum
    let op = write("test", "uncommitted", Value::from("should-not-commit"), 50, "client");
    let pre_commit = cluster.nodes[leader_idx].commit_index();
    cluster.nodes[leader_idx].propose(op).unwrap();

    for _ in 0..20 {
        cluster.deliver_messages();
    }

    // the entry should not have been committed (only 2 nodes can see it)
    // commit_index shouldn't have advanced for this entry
    let post_commit = cluster.nodes[leader_idx].commit_index();
    // the entry was proposed but shouldn't reach quorum (need 3, have 2)
    assert!(
        post_commit <= pre_commit + 1,
        "minority partition should not be able to commit new entries easily"
    );
    let key = StateKey::new("test", "uncommitted");
    for node in &cluster.nodes {
        assert!(node.state_machine().state().get_register(&key).is_none());
    }
}

#[test]
fn test_concurrent_proposals_converge() {
    let mut cluster = TestCluster::new(3);
    let leader_idx = cluster.elect_leader();

    // rapid-fire proposals
    for i in 0..20 {
        let op = write(
            "concurrent",
            &format!("k{}", i),
            Value::from(i),
            (i + 1) as u64,
            &format!("agent-{}", i % 3),
        );
        cluster.nodes[leader_idx].propose(op).unwrap();
    }

    for _ in 0..50 {
        cluster.deliver_messages();
    }

    // all nodes should converge to the same state
    let leader_commit = cluster.nodes[leader_idx].commit_index();
    for node in &cluster.nodes {
        assert_eq!(
            node.commit_index(),
            leader_commit,
            "node {} diverged: commit {} vs leader {}",
            node.id(),
            node.commit_index(),
            leader_commit,
        );
    }

    // verify state machine convergence
    for i in 0..20 {
        let key = StateKey::new("concurrent", &format!("k{}", i));
        let leader_val = cluster.nodes[leader_idx]
            .state_machine()
            .state()
            .get_register(&key)
            .map(|r| r.value.clone());
        assert_eq!(leader_val, Some(Value::from(i)));

        for node in &cluster.nodes {
            let node_val = node
                .state_machine()
                .state()
                .get_register(&key)
                .map(|r| r.value.clone());
            assert_eq!(
                leader_val, node_val,
                "state divergence on key k{}: leader={:?}, {}={:?}",
                i, leader_val, node.id(), node_val
            );
        }
    }
}

#[test]
fn test_heal_and_catch_up() {
    let mut cluster = TestCluster::new(3);
    let leader_idx = cluster.elect_leader();

    // write initial data
    for i in 0..3 {
        let op = write("data", &format!("before-{}", i), Value::from(i), (i + 1) as u64, "client");
        cluster.nodes[leader_idx].propose(op).unwrap();
    }
    for _ in 0..20 {
        cluster.deliver_messages();
    }

    // isolate node 2
    cluster.isolate_node(2);

    // write more data (only leader and node 1 see it)
    // but since we still have quorum (2 of 3), these should commit
    for i in 0..3 {
        let op = write(
            "data",
            &format!("during-{}", i),
            Value::from(100 + i),
            (100 + i + 1) as u64,
            "client",
        );
        cluster.nodes[leader_idx].propose(op).unwrap();
    }
    for _ in 0..20 {
        cluster.deliver_messages();
    }

    // reconnect node 2
    cluster.reconnect_node(2);

    // tick the leader to send heartbeats/entries to reconnected node
    for _ in 0..30 {
        cluster.nodes[leader_idx].tick(NOW);
        cluster.deliver_messages();
    }

    // node 2 should have caught up
    let key = StateKey::new("data", "during-2");
    let node2_val = cluster.nodes[2].state_machine().state().get_register(&key);

    assert!(
        node2_val.is_some(),
        "node-2 should have caught up after reconnecting"
    );
    assert_eq!(node2_val.unwrap().value, Value::from(102));
}

#[test]
fn at_most_one_leader_in_a_term() {
    let mut cluster = TestCluster::new(3);
    cluster.nodes[0].tick(FAR_FUTURE);
    cluster.nodes[1].tick(FAR_FUTURE);
    cluster.nodes[2].tick(FAR_FUTURE);
    for round in 1..6u64 {
        for _ in 0..10 {
            cluster.deliver_messages();
            let mut terms: Vec<u64> = cluster
                .nodes
                .iter()
                .filter(|n| n.role() == NodeRole::Leader)
                .map(|n| n.term())
                .collect();
            let before = terms.len();
            terms.sort();
            terms.dedup();
            assert_eq!(terms.len(), before);
        }
        let who = (round % 3) as usize;
        if cluster.find_leader().is_none() {
            cluster.nodes[who].tick(FAR_FUTURE + round * 1_000 * MILLI);
        }
    }
    assert!(cluster.find_leader().is_some());
}

fn value_at(node: &RaftNode, key: &str) -> Option<Value> {
    node.state_machine().state().get_register(&StateKey::new("data", key)).map(|r| r.value.clone())
}

#[test]
fn committed_entries_survive_a_change_of_leader() {
    let mut cluster = TestCluster::new(5);
    let first = cluster.elect_leader();
    cluster.nodes[first].propose(write("data", "kept", Value::from(1), 1, "client")).unwrap();
    for _ in 0..20 {
        cluster.deliver_messages();
    }
    let committed = cluster.nodes[first].commit_index();
    assert_eq!(committed, 2);
    let with = cluster.nodes.iter().filter(|n| n.last_log_index() >= committed).count();
    assert!(with > 5 / 2);

    // what the old leader appends on its own is not committed, and is overwritten later
    cluster.isolate_node(first);
    cluster.nodes[first].propose(write("data", "lost", Value::from(2), 2, "client")).unwrap();
    for _ in 0..5 {
        cluster.deliver_messages();
    }
    assert_eq!(cluster.nodes[first].commit_index(), committed);

    let second = (first + 1) % 5;
    cluster.nodes[second].tick(FAR_FUTURE);
    for _ in 0..20 {
        cluster.deliver_messages();
    }
    assert_eq!(cluster.nodes[second].role(), NodeRole::Leader);
    assert_eq!(value_at(&cluster.nodes[second], "kept"), Some(Value::from(1)));
    cluster.nodes[second].propose(write("data", "new", Value::from(3), 3, "client")).unwrap();
    for _ in 0..20 {
        cluster.deliver_messages();
    }

    cluster.reconnect_node(first);
    let mut seen: Vec<u64> = cluster.nodes.iter().map(|n| n.commit_index()).collect();
    for _ in 0..30 {
        cluster.nodes[second].tick(NOW);
        cluster.deliver_messages();
        for (i, node) in cluster.nodes.iter().enumerate() {
            assert!(node.commit_index() >= seen[i]);
            seen[i] = node.commit_index();
        }
    }
    for node in &cluster.nodes {
        assert_eq!(node.commit_index(), 4);
        assert_eq!(node.state_machine().last_applied(), 4);
        assert_eq!(value_at(node, "kept"), Some(Value::from(1)));
        assert_eq!(value_at(node, "lost"), None);
        assert_eq!(value_at(node, "new"), Some(Value::from(3)));
    }
}

#[test]
fn a_write_is_read_back_on_every_node_that_applied_it() {
    let mut cluster = TestCluster::new(4);
    let leader = cluster.elect_leader();
    let index = cluster.nodes[leader]
        .propose(write("data", "k", Value::from("high"), 9, "client"))
        .unwrap();
    cluster.nodes[leader].propose(write("data", "k", Value::from("low"), 3, "client")).unwrap();
    for round in 0..20 {
        cluster.deliver_messages();
        cluster.nodes[leader].tick(NOW + round * 100 * MILLI);
    }
    for node in &cluster.nodes {
        assert!(node.state_machine().last_applied() >= index);
        let reg = node.state_machine().state().get_register(&StateKey::new("data", "k")).unwrap();
        assert_eq!(reg.value, Value::from("high"));
        assert_eq!(reg.timestamp, 9);
    }
}
