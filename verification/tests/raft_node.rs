//! Nodes of a cluster.

use concord::crdt::state::StateKey;
use concord::crdt::CrdtOp;
use concord::raft::error::RaftError;
use concord::raft::log::{Command, LogEntry};
use concord::raft::message::{
    AppendEntriesRequest, AppendEntriesResponse, InstallSnapshotRequest, InstallSnapshotResponse,
    RaftMessage, VoteRequest, VoteResponse,
};
use concord::raft::node::{NodeRole, RaftConfig, RaftNode};
use concord::raft::state_machine::StateMachine;
use serde_json::Value;

const MILLI: u64 = 1_000_000;
const NOW: u64 = 1_000 * MILLI;
const FAR_FUTURE: u64 = NOW + 10_000 * MILLI;

fn text(s: &str) -> Value {
    Value::String(s.to_string())
}

fn make_cluster(n: usize) -> Vec<RaftNode> {
    let ids: Vec<String> = (0..n).map(|i| format!("node-{}", i)).collect();
    ids.iter()
        .map(|id| {
            let peers: Vec<String> = ids.iter().filter(|p| *p != id).cloned().collect();
            let mut config = RaftConfig::new(id, peers);
            config.election_timeout_min = 100 * MILLI;
            config.election_timeout_max = 200 * MILLI;
            config.heartbeat_interval = 30 * MILLI;
            RaftNode::new(config, NOW)
        })
        .collect()
}

fn deliver_messages(nodes: &mut [RaftNode]) {
    let mut all_msgs: Vec<(String, RaftMessage)> = Vec::new();
    for node in nodes.iter_mut() {
        all_msgs.extend(node.take_outbox());
    }
    for (to, msg) in all_msgs {
        if let Some(node) = nodes.iter_mut().find(|n| n.id() == to) {
            node.handle_message(msg, NOW);
        }
    }
}

fn elect_leader(nodes: &mut [RaftNode]) -> usize {
    // trigger election on node 0 by advancing past its deadline
    nodes[0].tick(FAR_FUTURE);

    // deliver vote requests and responses
    for _ in 0..5 {
        deliver_messages(nodes);
    }

    nodes
        .iter()
        .position(|n| n.role() == NodeRole::Leader)
        .expect("no leader elected")
}

fn set_register(namespace: &str, key: &str, value: Value, timestamp: u64) -> CrdtOp {
    CrdtOp::SetRegister {
        key: StateKey::new(namespace, key),
        value,
        timestamp,
        node_id: "client".into(),
    }
}

#[test]
fn test_leader_election() {
    let mut nodes = make_cluster(3);
    let leader_idx = elect_leader(&mut nodes);
    assert_eq!(nodes[leader_idx].role(), NodeRole::Leader);

    let followers: Vec<_> = nodes
        .iter()
        .enumerate()
        .filter(|(i, _)| *i != leader_idx)
        .map(|(_, n)| n)
        .collect();

    for f in followers {
        assert_eq!(f.role(), NodeRole::Follower);
    }
}

#[test]
fn test_log_replication() {
    let mut nodes = make_cluster(3);
    let leader_idx = elect_leader(&mut nodes);

    let op = set_register("agents", "status", text("running"), 1);
    nodes[leader_idx].propose(op).unwrap();

    // deliver entries and responses
    for _ in 0..10 {
        deliver_messages(&mut nodes);
    }

    for node in &nodes {
        assert!(
            node.commit_index() >= 2,
            "node {} commit_index = {} (expected >= 2)",
            node.id(),
            node.commit_index()
        );
    }

    // verify state machine convergence
    let key = StateKey::new("agents", "status");
    for node in &nodes {
        let reg = node
            .state_machine()
            .state()
            .get_register(&key)
            .expect("register not found");
        assert_eq!(reg.value, text("running"));
    }
}

#[test]
fn test_proposal_rejected_by_follower() {
    let mut nodes = make_cluster(3);
    elect_leader(&mut nodes);

    let follower_idx = nodes
        .iter()
        .position(|n| n.role() == NodeRole::Follower)
        .unwrap();

    let op = set_register("test", "key", text("val"), 1);
    let result = nodes[follower_idx].propose(op);
    assert!(matches!(result, Err(RaftError::NotLeader { .. })));
}

#[test]
fn test_leader_stepdown_on_higher_term() {
    let mut nodes = make_cluster(3);
    elect_leader(&mut nodes);

    let leader_idx = nodes
        .iter()
        .position(|n| n.role() == NodeRole::Leader)
        .unwrap();

    let higher_term_msg = RaftMessage::AppendEntries(AppendEntriesRequest {
        term: nodes[leader_idx].term() + 10,
        leader_id: "phantom".into(),
        prev_log_index: 0,
        prev_log_term: 0,
        entries: vec![],
        leader_commit: 0,
    });

    nodes[leader_idx].handle_message(higher_term_msg, NOW);
    assert_eq!(nodes[leader_idx].role(), NodeRole::Follower);
}

#[test]
fn test_single_node_cluster() {
    let config = RaftConfig::new("solo", vec![]);
    let mut node = RaftNode::new(config, NOW);

    node.tick(FAR_FUTURE);

    assert_eq!(node.role(), NodeRole::Leader);

    let op = set_register("test", "solo", Value::from(42), 1);
    node.propose(op).unwrap();

    // single node commits immediately: there are no peers to wait for
    for _ in 0..5 {
        deliver_messages(std::slice::from_mut(&mut node));
    }
    assert_eq!(node.commit_index(), 2);
    let reg = node.state_machine().state().get_register(&StateKey::new("test", "solo"));
    assert_eq!(reg.unwrap().value, Value::from(42));
}

#[test]
fn test_five_node_cluster() {
    let mut nodes = make_cluster(5);
    let leader_idx = elect_leader(&mut nodes);

    for i in 0..10 {
        let op = set_register("data", &format!("key-{}", i), Value::from(i), i as u64 + 1);
        nodes[leader_idx].propose(op).unwrap();
    }

    for _ in 0..20 {
        deliver_messages(&mut nodes);
    }

    for node in &nodes {
        let key = StateKey::new("data", "key-9");
        let reg = node.state_machine().state().get_register(&key);
        assert!(reg.is_some(), "node {} missing key-9", node.id());
        assert_eq!(reg.unwrap().value, Value::from(9));
    }
}

#[test]
fn test_log_conflict_resolution() {
    let mut nodes = make_cluster(3);
    elect_leader(&mut nodes);

    let leader_idx = nodes
        .iter()
        .position(|n| n.role() == NodeRole::Leader)
        .unwrap();

    // write some entries
    for i in 0..3 {
        let op = set_register("test", &format!("k{}", i), Value::from(i), i as u64 + 1);
        nodes[leader_idx].propose(op).unwrap();
    }

    for _ in 0..15 {
        deliver_messages(&mut nodes);
    }

    // all nodes should have the same commit index
    let leader_commit = nodes[leader_idx].commit_index();
    for node in &nodes {
        assert_eq!(
            node.commit_index(),
            leader_commit,
            "node {} has commit_index {} != leader's {}",
            node.id(),
            node.commit_index(),
            leader_commit,
        );
    }
}

// --- one node at a time, with deadlines that the test picks ---

fn node_with_peers(peers: &[&str]) -> RaftNode {
    let peers = peers.iter().map(|p| p.to_string()).collect();
    RaftNode::start(RaftConfig::new("me", peers), 500)
}

fn append(term: u64, prev: (u64, u64), entries: Vec<LogEntry>, commit: u64) -> RaftMessage {
    RaftMessage::AppendEntries(AppendEntriesRequest {
        term,
        leader_id: "boss".into(),
        prev_log_index: prev.0,
        prev_log_term: prev.1,
        entries,
        leader_commit: commit,
    })
}

fn noop(index: u64, term: u64) -> LogEntry {
    LogEntry { index, term, command: Command::Noop }
}

fn write(index: u64, term: u64) -> LogEntry {
    LogEntry {
        index,
        term,
        command: Command::CrdtOp(set_register("log", "key", Value::from(index), index)),
    }
}

fn the_append_reply(node: &mut RaftNode) -> AppendEntriesResponse {
    let mut outbox = node.take_outbox();
    assert_eq!(outbox.len(), 1);
    let (to, msg) = outbox.remove(0);
    assert_eq!(to, "boss");
    match msg {
        RaftMessage::AppendEntriesReply(resp) => resp,
        _ => panic!("expected an answer to a request to append"),
    }
}

fn ask_vote(node: &mut RaftNode, term: u64, who: &str, last: (u64, u64)) -> VoteResponse {
    node.receive(
        RaftMessage::RequestVote(VoteRequest {
            term,
            candidate_id: who.into(),
            last_log_index: last.0,
            last_log_term: last.1,
        }),
        900,
    );
    let mut outbox = node.take_outbox();
    assert_eq!(outbox.len(), 1);
    let (to, msg) = outbox.remove(0);
    assert_eq!(to, who);
    match msg {
        RaftMessage::RequestVoteReply(resp) => resp,
        _ => panic!("expected an answer to a request for a vote"),
    }
}

#[test]
fn the_usual_setup() {
    let config = RaftConfig::new("me", vec!["a".into(), "b".into()]);
    assert_eq!(config.id, "me");
    assert_eq!(config.peers, vec!["a".to_string(), "b".to_string()]);
    assert_eq!(config.election_timeout_min, 150 * MILLI);
    assert_eq!(config.election_timeout_max, 300 * MILLI);
    assert_eq!(config.heartbeat_interval, 50 * MILLI);
}

#[test]
fn a_new_node_waits_for_its_deadline() {
    for _ in 0..50 {
        let mut node = RaftNode::new(RaftConfig::new("me", vec!["a".into()]), NOW);
        assert_eq!(node.role(), NodeRole::Follower);
        assert_eq!(node.term(), 0);
        assert_eq!(node.leader_id(), None);
        node.tick(NOW + 150 * MILLI - 1);
        assert_eq!(node.role(), NodeRole::Follower);
        node.tick(NOW + 300 * MILLI);
        assert_eq!(node.role(), NodeRole::Candidate);
        assert_eq!(node.term(), 1);
    }
}

#[test]
fn the_deadline_itself_is_reached() {
    let mut node = node_with_peers(&["a"]);
    node.tick_with(499, 1000);
    assert_eq!(node.role(), NodeRole::Follower);
    node.tick_with(500, 1000);
    assert_eq!(node.role(), NodeRole::Candidate);
    assert_eq!(node.term(), 1);
    let outbox = node.take_outbox();
    assert_eq!(outbox.len(), 1);
    assert!(matches!(
        &outbox[0].1,
        RaftMessage::RequestVote(req) if req.term == 1 && req.candidate_id == "me"
    ));
    // a candidate that hears nothing stands again, in the next term
    node.tick_with(999, 2000);
    assert_eq!(node.term(), 1);
    node.tick_with(1000, 2000);
    assert_eq!(node.term(), 2);
}

#[test]
fn a_node_votes_once_in_a_term() {
    let mut node = node_with_peers(&["a", "b"]);
    assert!(ask_vote(&mut node, 1, "a", (0, 0)).vote_granted);
    assert!(!ask_vote(&mut node, 1, "b", (0, 0)).vote_granted);
    // the same candidate may ask again
    assert!(ask_vote(&mut node, 1, "a", (0, 0)).vote_granted);
    // a new term, a new vote
    let resp = ask_vote(&mut node, 2, "b", (0, 0));
    assert!(resp.vote_granted);
    assert_eq!(resp.term, 2);
    assert_eq!(resp.from, "me");
}

#[test]
fn a_vote_goes_only_to_an_up_to_date_log() {
    let mut node = node_with_peers(&["a"]);
    node.receive(append(2, (0, 0), vec![noop(1, 1), noop(2, 2)], 0), 600);
    node.take_outbox();
    assert!(!ask_vote(&mut node, 3, "a", (5, 1)).vote_granted);
    assert!(!ask_vote(&mut node, 3, "a", (1, 2)).vote_granted);
    assert!(ask_vote(&mut node, 3, "a", (2, 2)).vote_granted);
    assert!(ask_vote(&mut node, 4, "a", (1, 3)).vote_granted);
}

#[test]
fn a_granted_vote_puts_the_election_off() {
    let mut node = node_with_peers(&["a"]);
    assert!(ask_vote(&mut node, 1, "a", (0, 0)).vote_granted);
    node.tick_with(899, 2000);
    assert_eq!(node.role(), NodeRole::Follower);
    node.tick_with(900, 2000);
    assert_eq!(node.role(), NodeRole::Candidate);
}

#[test]
fn requests_of_an_earlier_term_are_refused() {
    let mut node = node_with_peers(&["boss"]);
    node.receive(append(5, (0, 0), vec![noop(1, 5)], 0), 600);
    assert!(the_append_reply(&mut node).success);
    node.receive(append(4, (1, 5), vec![noop(2, 4)], 2), 700);
    let resp = the_append_reply(&mut node);
    assert!(!resp.success);
    assert_eq!(resp.term, 5);
    assert_eq!(resp.match_index, 0);
    assert_eq!(node.last_log_index(), 1);
    assert_eq!(node.commit_index(), 0);
    assert!(!ask_vote(&mut node, 4, "a", (9, 9)).vote_granted);
    node.receive(
        RaftMessage::InstallSnapshot(InstallSnapshotRequest {
            term: 4,
            leader_id: "boss".into(),
            last_included_index: 7,
            last_included_term: 4,
            data: Some(StateMachine::new().snapshot()),
        }),
        800,
    );
    let outbox = node.take_outbox();
    assert!(matches!(&outbox[0].1, RaftMessage::InstallSnapshotReply(r) if r.term == 5));
    assert_eq!(node.commit_index(), 0);
}

#[test]
fn a_gap_before_the_entries_is_refused() {
    let mut node = node_with_peers(&["boss"]);
    node.receive(append(1, (3, 1), vec![noop(4, 1)], 0), 600);
    let resp = the_append_reply(&mut node);
    assert!(!resp.success);
    assert_eq!(node.last_log_index(), 0);
    assert_eq!(node.leader_id(), Some("boss"));
}

#[test]
fn a_conflicting_entry_is_dropped_with_what_follows() {
    let mut node = node_with_peers(&["boss"]);
    node.receive(append(1, (0, 0), vec![noop(1, 1), noop(2, 1), noop(3, 1)], 0), 600);
    assert_eq!(the_append_reply(&mut node).match_index, 3);
    // the leader has another term at index 2
    node.receive(append(2, (2, 2), vec![], 0), 600);
    assert!(!the_append_reply(&mut node).success);
    assert_eq!(node.last_log_index(), 1);
    node.receive(append(2, (1, 1), vec![noop(2, 2), noop(3, 2)], 0), 600);
    let resp = the_append_reply(&mut node);
    assert!(resp.success);
    assert_eq!(resp.match_index, 3);
}

#[test]
fn committed_entries_are_applied_in_order() {
    let mut node = node_with_peers(&["boss"]);
    node.receive(append(1, (0, 0), vec![write(1, 1), noop(2, 1), write(3, 1)], 2), 600);
    assert_eq!(node.commit_index(), 2);
    assert_eq!(node.state_machine().last_applied(), 2);
    let key = StateKey::new("log", "key");
    let seen = |n: &RaftNode| n.state_machine().state().get_register(&key).unwrap().timestamp;
    assert_eq!(seen(&node), 1);
    // a commit index behind the end of the log stops at the end
    node.receive(append(1, (3, 1), vec![], 99), 600);
    assert_eq!(node.commit_index(), 3);
    assert_eq!(seen(&node), 3);
}

fn candidate(peers: &[&str]) -> RaftNode {
    let mut node = node_with_peers(peers);
    node.tick_with(500, 1000);
    node.take_outbox();
    node
}

fn vote_for_me(term: u64, from: &str) -> RaftMessage {
    RaftMessage::RequestVoteReply(VoteResponse { term, vote_granted: true, from: from.into() })
}

#[test]
fn a_quorum_of_votes_makes_a_leader() {
    let mut node = candidate(&["a", "b", "c", "d"]);
    node.receive(vote_for_me(1, "a"), 0);
    assert_eq!(node.role(), NodeRole::Candidate);
    // a vote of another term, and a refusal, do not count
    node.receive(vote_for_me(0, "b"), 0);
    node.receive(
        RaftMessage::RequestVoteReply(VoteResponse {
            term: 1,
            vote_granted: false,
            from: "b".into(),
        }),
        0,
    );
    assert_eq!(node.role(), NodeRole::Candidate);
    node.receive(vote_for_me(1, "c"), 0);
    assert_eq!(node.role(), NodeRole::Leader);
    assert_eq!(node.leader_id(), Some("me"));
    // the empty entry of the new term goes to everyone
    assert_eq!(node.last_log_index(), 1);
    let outbox = node.take_outbox();
    assert_eq!(outbox.len(), 4);
    for (_, msg) in &outbox {
        assert!(matches!(
            msg,
            RaftMessage::AppendEntries(req)
                if req.term == 1 && req.prev_log_index == 0 && req.entries.len() == 1
        ));
    }
}

fn leader(peers: &[&str]) -> RaftNode {
    let mut node = candidate(peers);
    for p in peers {
        node.receive(vote_for_me(1, p), 0);
    }
    assert_eq!(node.role(), NodeRole::Leader);
    node.take_outbox();
    node
}

fn confirm(node: &mut RaftNode, from: &str, match_index: u64) {
    node.receive(
        RaftMessage::AppendEntriesReply(AppendEntriesResponse {
            term: 1,
            success: true,
            match_index,
            from: from.into(),
        }),
        0,
    );
}

#[test]
fn a_majority_commits() {
    let mut node = leader(&["a", "b", "c", "d"]);
    for i in 0..3 {
        node.propose(set_register("k", "v", Value::from(i), i + 1)).unwrap();
    }
    assert_eq!(node.last_log_index(), 4);
    confirm(&mut node, "a", 4);
    assert_eq!(node.commit_index(), 0);
    confirm(&mut node, "b", 2);
    assert_eq!(node.commit_index(), 2);
    confirm(&mut node, "c", 3);
    assert_eq!(node.commit_index(), 3);
    confirm(&mut node, "d", 3);
    assert_eq!(node.commit_index(), 3);
    confirm(&mut node, "b", 4);
    assert_eq!(node.commit_index(), 4);
}

#[test]
fn entries_of_an_earlier_term_wait_for_one_of_the_current_term() {
    let mut node = node_with_peers(&["boss", "b"]);
    node.receive(append(1, (0, 0), vec![noop(1, 1), noop(2, 1)], 0), 500);
    node.take_outbox();
    node.tick_with(500, 1000);
    assert_eq!(node.term(), 2);
    node.receive(vote_for_me(2, "b"), 0);
    assert_eq!(node.role(), NodeRole::Leader);
    let reply = |match_index: u64| {
        RaftMessage::AppendEntriesReply(AppendEntriesResponse {
            term: 2,
            success: true,
            match_index,
            from: "b".into(),
        })
    };
    node.receive(reply(2), 0);
    assert_eq!(node.commit_index(), 0);
    node.receive(reply(3), 0);
    assert_eq!(node.commit_index(), 3);
}

#[test]
fn a_refusal_makes_the_leader_go_back_by_one() {
    let mut node = leader(&["a"]);
    for i in 0..4 {
        node.propose(set_register("k", "v", Value::from(i), i + 1)).unwrap();
    }
    confirm(&mut node, "a", 3);
    node.take_outbox();
    for expected_prev in [2u64, 1, 0, 0] {
        node.receive(
            RaftMessage::AppendEntriesReply(AppendEntriesResponse {
                term: 1,
                success: false,
                match_index: 0,
                from: "a".into(),
            }),
            0,
        );
        let mut outbox = node.take_outbox();
        assert_eq!(outbox.len(), 1);
        match outbox.remove(0).1 {
            RaftMessage::AppendEntries(req) => {
                assert_eq!(req.prev_log_index, expected_prev);
                assert_eq!(req.prev_log_term, if expected_prev == 0 { 0 } else { 1 });
                assert_eq!(req.entries.len() as u64, 5 - expected_prev);
                assert_eq!(req.leader_commit, 3);
            }
            _ => panic!("expected entries"),
        }
    }
}

#[test]
fn replies_of_a_later_term_make_a_follower() {
    let later = [
        RaftMessage::AppendEntriesReply(AppendEntriesResponse {
            term: 9,
            success: false,
            match_index: 0,
            from: "a".into(),
        }),
        vote_for_me(9, "a"),
        RaftMessage::InstallSnapshotReply(InstallSnapshotResponse { term: 9, from: "a".into() }),
    ];
    for msg in later {
        let mut node = leader(&["a"]);
        node.receive(msg, 0);
        assert_eq!(node.role(), NodeRole::Follower);
        assert_eq!(node.term(), 9);
        assert_eq!(node.leader_id(), None);
    }
}

#[test]
fn a_leader_sends_its_log_at_every_tick() {
    let mut node = leader(&["a", "b"]);
    node.tick_with(0, 0);
    let outbox = node.take_outbox();
    assert_eq!(outbox.len(), 2);
    assert_eq!(outbox[0].0, "a");
    assert_eq!(outbox[1].0, "b");
}

#[test]
fn a_refused_proposal_names_the_leader() {
    let mut node = node_with_peers(&["boss"]);
    let op = || set_register("k", "v", Value::Null, 1);
    assert_eq!(node.propose(op()), Err(RaftError::NotLeader { leader: None }));
    node.receive(append(1, (0, 0), vec![], 0), 600);
    assert_eq!(
        node.propose(op()),
        Err(RaftError::NotLeader { leader: Some("boss".into()) })
    );
    assert_eq!(node.last_log_index(), 0);
}

#[test]
fn a_follower_too_far_behind_gets_a_snapshot() {
    // a node that was itself brought up by a snapshot leads, and brings up another
    let mut machine = StateMachine::new();
    machine.apply(7, &Command::CrdtOp(set_register("s", "k", text("kept"), 3)));
    let mut node = node_with_peers(&["a"]);
    node.receive(
        RaftMessage::InstallSnapshot(InstallSnapshotRequest {
            term: 2,
            leader_id: "a".into(),
            last_included_index: 7,
            last_included_term: 2,
            data: Some(machine.snapshot()),
        }),
        500,
    );
    let outbox = node.take_outbox();
    assert!(matches!(&outbox[0].1, RaftMessage::InstallSnapshotReply(r) if r.from == "me"));
    assert_eq!(node.commit_index(), 7);
    assert_eq!(node.last_log_index(), 7);

    node.tick_with(500, 1000);
    node.receive(vote_for_me(3, "a"), 0);
    assert_eq!(node.role(), NodeRole::Leader);
    assert_eq!(node.last_log_index(), 8);
    node.take_outbox();
    node.receive(
        RaftMessage::AppendEntriesReply(AppendEntriesResponse {
            term: 3,
            success: false,
            match_index: 0,
            from: "a".into(),
        }),
        0,
    );
    let (to, msg) = node.take_outbox().remove(0);
    assert_eq!(to, "a");

    let mut other = RaftNode::start(RaftConfig::new("a", vec!["me".into()]), 500);
    other.receive(msg, 600);
    assert_eq!(other.commit_index(), 7);
    assert_eq!(other.term(), 3);
    let reg = other.state_machine().state().get_register(&StateKey::new("s", "k"));
    assert_eq!(reg.unwrap().value, text("kept"));
}

#[test]
fn a_snapshot_that_does_not_decode_changes_nothing() {
    let mut node = node_with_peers(&["a"]);
    node.receive(
        RaftMessage::InstallSnapshot(InstallSnapshotRequest {
            term: 2,
            leader_id: "a".into(),
            last_included_index: 7,
            last_included_term: 2,
            data: None,
        }),
        600,
    );
    assert_eq!(node.commit_index(), 0);
    assert_eq!(node.last_log_index(), 0);
    assert_eq!(node.term(), 2);
    assert_eq!(node.take_outbox().len(), 1);
}

#[test]
fn an_append_that_arrives_twice_does_no_more_than_one() {
    let mut node = node_with_peers(&["boss"]);
    for _ in 0..2 {
        node.receive(append(1, (0, 0), vec![write(1, 1), write(2, 1)], 2), 600);
        let resp = the_append_reply(&mut node);
        assert!(resp.success);
        assert_eq!(resp.match_index, 2);
        assert_eq!(node.last_log_index(), 2);
        assert_eq!(node.state_machine().last_applied(), 2);
    }
}

#[test]
fn a_single_node_commits_its_first_entry_at_once() {
    let mut node = node_with_peers(&[]);
    node.tick_with(500, 1000);
    assert_eq!(node.role(), NodeRole::Leader);
    assert_eq!(node.commit_index(), 1);
    assert_eq!(node.propose(set_register("k", "v", Value::Null, 1)), Ok(2));
    assert_eq!(node.commit_index(), 2);
    assert!(node.take_outbox().is_empty());
}

#[test]
fn numbers_that_would_run_over_are_seen_in_advance() {
    let mut node = leader(&["a"]);
    let too_far = RaftMessage::AppendEntriesReply(AppendEntriesResponse {
        term: 1,
        success: true,
        match_index: u64::MAX,
        from: "a".into(),
    });
    assert!(!node.message_fits(&too_far, 0));
    assert!(node.message_fits(&vote_for_me(1, "a"), 0));
    assert!(!node.message_fits(&vote_for_me(1, "a"), u64::MAX));
    assert!(node.proposal_fits());
    assert!(node.tick_fits(0));
    assert!(!node.tick_fits(u64::MAX));
    node.receive(append(2, (0, 0), vec![noop(u64::MAX, 2)], 0), 10);
    assert_eq!(node.last_log_index(), u64::MAX);
    node.tick_with(10, 20);
    assert_eq!(node.role(), NodeRole::Candidate);
    assert!(!node.message_fits(&vote_for_me(3, "a"), 0));
    assert!(node.message_fits(&vote_for_me(2, "a"), 0));
}

#[test]
fn half_of_an_even_cluster_is_no_quorum() {
    let mut node = RaftNode::new(
        RaftConfig::new("n0", vec!["n1".into(), "n2".into(), "n3".into()]),
        NOW,
    );
    node.tick(FAR_FUTURE);
    assert_eq!(node.role(), NodeRole::Candidate);
    assert_eq!(node.term(), 1);
    node.handle_message(vote_for_me(1, "n1"), FAR_FUTURE);
    assert_eq!(node.role(), NodeRole::Candidate);
    node.handle_message(vote_for_me(1, "n2"), FAR_FUTURE);
    assert_eq!(node.role(), NodeRole::Leader);

    // in a cluster of two both are needed
    let mut node = candidate(&["a"]);
    assert_eq!(node.role(), NodeRole::Candidate);
    node.receive(vote_for_me(1, "a"), 0);
    assert_eq!(node.role(), NodeRole::Leader);
    assert_eq!(node.commit_index(), 0);
    node.receive(success(1, 1, "a"), 0);
    assert_eq!(node.commit_index(), 1);
}

fn success(term: u64, match_index: u64, from: &str) -> RaftMessage {
    RaftMessage::AppendEntriesReply(AppendEntriesResponse {
        term,
        success: true,
        match_index,
        from: from.into(),
    })
}

#[test]
fn a_snapshot_takes_the_place_of_the_entries_that_it_covers() {
    let mut node = node_with_peers(&["boss"]);
    node.receive(append(1, (0, 0), vec![noop(1, 1), noop(2, 1)], 0), 600);
    assert!(the_append_reply(&mut node).success);
    node.receive(
        RaftMessage::InstallSnapshot(InstallSnapshotRequest {
            term: 1,
            leader_id: "boss".into(),
            last_included_index: 5,
            last_included_term: 1,
            data: Some(StateMachine::new().snapshot()),
        }),
        700,
    );
    node.take_outbox();
    assert_eq!(node.commit_index(), 5);
    assert_eq!(node.last_log_index(), 5);
    node.receive(append(1, (5, 1), vec![], 0), 800);
    let resp = the_append_reply(&mut node);
    assert!(resp.success);
    assert_eq!(resp.match_index, 5);
    node.receive(append(1, (5, 1), vec![write(6, 1)], 6), 800);
    assert_eq!(the_append_reply(&mut node).match_index, 6);
    assert_eq!(node.commit_index(), 6);
    assert_eq!(node.state_machine().last_applied(), 6);
}

#[test]
fn a_success_of_an_earlier_term_is_not_counted() {
    let mut node = candidate(&["a", "b"]);
    // the first election comes to nothing, the second makes a leader in term 2
    node.tick_with(1000, 2000);
    node.take_outbox();
    node.receive(vote_for_me(2, "a"), 0);
    assert_eq!(node.role(), NodeRole::Leader);
    assert_eq!(node.last_log_index(), 1);
    node.receive(success(1, 1, "a"), 0);
    assert_eq!(node.commit_index(), 0);
    node.receive(success(2, 1, "a"), 0);
    assert_eq!(node.commit_index(), 1);
}

#[test]
fn one_vote_in_a_term_whatever_comes_between() {
    let mut node = node_with_peers(&["a", "b", "c"]);
    assert!(ask_vote(&mut node, 3, "a", (0, 0)).vote_granted);
    assert!(!ask_vote(&mut node, 3, "b", (9, 9)).vote_granted);
    node.receive(append(3, (0, 0), vec![], 0), 600);
    node.take_outbox();
    assert!(!ask_vote(&mut node, 3, "c", (9, 9)).vote_granted);
    assert!(ask_vote(&mut node, 3, "a", (0, 0)).vote_granted);
    // a candidate votes for itself
    node.tick_with(1000, 2000);
    node.take_outbox();
    assert_eq!(node.term(), 4);
    assert!(!ask_vote(&mut node, 4, "b", (9, 9)).vote_granted);
}

#[test]
fn a_snapshot_that_ends_before_the_one_installed_is_only_answered() {
    let snapshot = |index: u64, value: &str| {
        let mut machine = StateMachine::new();
        machine.apply(index, &Command::CrdtOp(set_register("s", "k", text(value), index)));
        RaftMessage::InstallSnapshot(InstallSnapshotRequest {
            term: 2,
            leader_id: "a".into(),
            last_included_index: index,
            last_included_term: 2,
            data: Some(machine.snapshot()),
        })
    };
    let mut node = node_with_peers(&["a"]);
    node.receive(snapshot(9, "new"), 600);
    node.take_outbox();
    node.receive(snapshot(5, "old"), 700);
    assert_eq!(node.take_outbox().len(), 1);
    assert_eq!(node.commit_index(), 9);
    assert_eq!(node.last_log_index(), 9);
    assert_eq!(node.state_machine().last_applied(), 9);
    let reg = node.state_machine().state().get_register(&StateKey::new("s", "k"));
    assert_eq!(reg.unwrap().value, text("new"));
}

#[test]
fn a_refusal_of_an_earlier_term_makes_the_leader_go_back() {
    let mut node = candidate(&["a", "b"]);
    node.tick_with(1000, 2000);
    node.receive(vote_for_me(2, "a"), 0);
    assert_eq!(node.role(), NodeRole::Leader);
    for stamp in 1..4 {
        node.propose(set_register("s", "k", Value::Null, stamp)).unwrap();
    }
    assert_eq!(node.last_log_index(), 4);
    node.receive(success(2, 3, "a"), 0);
    node.take_outbox();
    // the next entry for "a" is the fourth; each refusal goes back by one, down to the first
    for prev in [2, 1, 0, 0] {
        node.receive(
            RaftMessage::AppendEntriesReply(AppendEntriesResponse {
                term: 1,
                success: false,
                match_index: 0,
                from: "a".into(),
            }),
            0,
        );
        let outbox = node.take_outbox();
        assert_eq!(outbox.len(), 1);
        assert_eq!(outbox[0].0, "a");
        let RaftMessage::AppendEntries(req) = &outbox[0].1 else {
            panic!("entries are sent");
        };
        assert_eq!(req.term, 2);
        assert_eq!(req.prev_log_index, prev);
        assert_eq!(req.prev_log_term, if prev == 0 { 0 } else { 2 });
        assert_eq!(req.entries.len() as u64, 4 - prev);
        assert_eq!(node.role(), NodeRole::Leader);
        assert_eq!(node.term(), 2);
        assert_eq!(node.commit_index(), 3);
    }
}

#[test]
fn a_snapshot_of_the_same_index_brings_its_own_term() {
    let snapshot = |term: u64| {
        RaftMessage::InstallSnapshot(InstallSnapshotRequest {
            term,
            leader_id: "boss".into(),
            last_included_index: 5,
            last_included_term: term,
            data: Some(StateMachine::new().snapshot()),
        })
    };
    let mut node = node_with_peers(&["boss"]);
    node.receive(snapshot(1), 600);
    node.receive(snapshot(2), 700);
    node.take_outbox();
    assert_eq!(node.last_log_index(), 5);
    node.receive(append(2, (5, 2), vec![noop(6, 2)], 6), 800);
    let resp = the_append_reply(&mut node);
    assert!(resp.success);
    assert_eq!(resp.match_index, 6);
}
