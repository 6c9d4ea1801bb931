//! The services of a node, against a real node.

use concord::client;
use concord::raft::log::Command;
use concord::raft::message::{
    AppendEntriesRequest, AppendEntriesResponse, InstallSnapshotRequest, InstallSnapshotResponse,
    RaftMessage, VoteRequest, VoteResponse,
};
use concord::raft::node::{NodeRole, RaftConfig, RaftNode};
use concord::raft::state_machine::StateMachine;
use concord::server::client_service::{
    add_to_set, delete, delete_from_sequence, get, get_sequence, get_set, insert_into_sequence,
    insert_parsed, leader_hint, put, put_parsed, remove_from_set, AddToSetRequest,
    DeleteFromSequenceRequest, DeleteRequest, GetRequest, GetResponse, GetSequenceRequest,
    GetSequenceResponse, GetSetRequest, GetSetResponse, InsertIntoSequenceRequest, PutRequest,
    PutResponse, RemoveFromSetRequest, WatchEvent, WriteResponse,
};
use concord::server::dispatch::{answer_fits, call_for, reply_of, take_answer, tick, Answer, Call};
use concord::server::peers::{full_addr, parse_peers};
use concord::server::raft_service::{
    append_entries, install_snapshot, received_entries, request_vote, take_append_reply,
    take_snapshot_reply, take_vote_reply, ReceivedEntry,
};
use concord::server::Status;
use serde_json::Value;

const MILLI: u64 = 1_000_000;
const NOW: u64 = 1_000 * MILLI;

/// A single node becomes its own leader as soon as it's ticked past its election
/// deadline, so this gives tests a leader to propose against without a multi-node
/// cluster.
fn leader_node(id: &str) -> RaftNode {
    let config = RaftConfig::new(id, vec![]);
    let mut node = RaftNode::new(config, NOW);
    node.tick(NOW + 10_000 * MILLI);
    node
}

fn put_request(namespace: &str, key: &str, value_json: &str, timestamp: u64) -> PutRequest {
    PutRequest {
        namespace: namespace.into(),
        key: key.into(),
        value_json: value_json.into(),
        node_id: "client-1".into(),
        timestamp,
    }
}

fn get_request(namespace: &str, key: &str) -> GetRequest {
    GetRequest { namespace: namespace.into(), key: key.into() }
}

#[test]
fn put_then_get_round_trips_through_the_leader() {
    let mut node = leader_node("solo");

    let (put_resp, _) =
        put(&mut node, put_request("agents", "status", "\"running\"", 1)).unwrap();
    assert!(put_resp.success);

    let get_resp = get(&node, &get_request("agents", "status"));
    assert!(get_resp.found);
    assert_eq!(get_resp.value_json, "\"running\"");
}

#[test]
fn get_on_missing_key_reports_not_found() {
    let node = leader_node("solo");

    let resp = get(&node, &get_request("agents", "does-not-exist"));

    assert!(!resp.found);
    assert_eq!(resp.version, 0);
}

#[test]
fn delete_overwrites_value_with_null() {
    let mut node = leader_node("solo");

    put(&mut node, put_request("ns", "k", "1", 1)).unwrap();

    let del_resp = delete(
        &mut node,
        &DeleteRequest { namespace: "ns".into(), key: "k".into() },
        1_700_000_000_000_000,
    );
    assert!(del_resp.success);

    let get_resp = get(&node, &get_request("ns", "k"));
    assert!(get_resp.found);
    assert_eq!(get_resp.value_json, "null");
    assert_eq!(get_resp.version, 1_700_000_000_000_000);
}

#[test]
fn writes_before_leadership_return_leader_hint_instead_of_success() {
    // The node is constructed but never ticked, so it's still a Follower with
    // no known leader: propose() must reject the write rather than accept
    // it locally, since a follower's log isn't replicated to anyone.
    let config = RaftConfig::new("solo", vec![]);
    let mut node = RaftNode::new(config, NOW);

    let (resp, event) = put(&mut node, put_request("ns", "k", "1", 1)).unwrap();

    assert!(!resp.success);
    assert_eq!(resp.index, 0);
    assert_eq!(resp.leader_hint, "unknown");
    assert!(event.is_none());
}

#[test]
fn put_rejects_malformed_json() {
    let mut node = leader_node("solo");

    let result = put(&mut node, put_request("ns", "k", "{not valid json", 1));

    assert!(result.is_err());
    match result.unwrap_err() {
        Status::InvalidArgument(text) => assert!(text.starts_with("invalid json: ")),
        Status::Internal(_) => panic!("the argument is invalid"),
    }
}

#[test]
fn set_add_and_remove_round_trip() {
    let mut node = leader_node("solo");
    let add = |node: &mut RaftNode, element: &str| {
        add_to_set(
            node,
            AddToSetRequest {
                namespace: "tasks".into(),
                key: "completed".into(),
                element: element.into(),
                node_id: "agent-a".into(),
            },
        )
    };
    let read = |node: &RaftNode| {
        get_set(
            node,
            &GetSetRequest { namespace: "tasks".into(), key: "completed".into() },
        )
    };

    assert!(add(&mut node, "task-1").success);
    assert!(add(&mut node, "task-2").success);

    let set_resp = read(&node);
    assert!(set_resp.found);
    assert_eq!(set_resp.elements.len(), 2);
    assert!(set_resp.elements.contains(&"task-1".to_string()));

    let remove_resp = remove_from_set(
        &mut node,
        &RemoveFromSetRequest {
            namespace: "tasks".into(),
            key: "completed".into(),
            element: "task-1".into(),
        },
    );
    assert!(remove_resp.success);

    let set_resp = read(&node);
    assert_eq!(set_resp.elements, vec!["task-2".to_string()]);
}

#[test]
fn remove_from_set_on_absent_element_reports_failure_not_error() {
    let mut node = leader_node("solo");

    let resp = remove_from_set(
        &mut node,
        &RemoveFromSetRequest {
            namespace: "tasks".into(),
            key: "completed".into(),
            element: "never-added".into(),
        },
    );

    assert!(!resp.success);
    assert_eq!(resp, WriteResponse { success: false, leader_hint: String::new() });
}

fn insert_request(position: u32, value_json: &str, timestamp: u64) -> InsertIntoSequenceRequest {
    InsertIntoSequenceRequest {
        namespace: "plan".into(),
        key: "steps".into(),
        position,
        value_json: value_json.into(),
        node_id: "agent-a".into(),
        timestamp,
    }
}

fn read_steps(node: &RaftNode) -> GetSequenceResponse {
    get_sequence(
        node,
        &GetSequenceRequest { namespace: "plan".into(), key: "steps".into() },
    )
}

#[test]
fn sequence_insert_and_delete_round_trip_in_order() {
    let mut node = leader_node("solo");

    for (pos, word) in ["research", "analyze", "report"].iter().enumerate() {
        insert_into_sequence(
            &mut node,
            insert_request(pos as u32, &format!("\"{}\"", word), pos as u64 + 1),
        )
        .unwrap();
    }

    assert_eq!(
        read_steps(&node).values_json,
        vec!["\"research\"", "\"analyze\"", "\"report\""]
    );

    let resp = delete_from_sequence(
        &mut node,
        &DeleteFromSequenceRequest {
            namespace: "plan".into(),
            key: "steps".into(),
            position: 0,
        },
    );
    assert!(resp.success);

    assert_eq!(read_steps(&node).values_json, vec!["\"analyze\"", "\"report\""]);
}

#[test]
fn the_answers_to_a_put() {
    let mut node = leader_node("solo");
    let (resp, event) = put(&mut node, put_request("ns", "k", "{\"a\":1}", 7)).unwrap();
    assert_eq!(resp, PutResponse { index: 2, success: true, leader_hint: String::new() });
    assert_eq!(
        event,
        Some(WatchEvent {
            namespace: "ns".into(),
            key: "k".into(),
            value_json: "{\"a\":1}".into(),
            version: 7,
        })
    );
    // a stale write is taken into the log and loses against the register
    let (resp, _) = put(&mut node, put_request("ns", "k", "2", 6)).unwrap();
    assert_eq!(resp.index, 3);
    let read = get(&node, &get_request("ns", "k"));
    assert_eq!(
        read,
        GetResponse { value_json: "{\"a\":1}".into(), version: 7, found: true }
    );
}

#[test]
fn what_the_parser_says_decides() {
    let mut node = leader_node("solo");
    let refused = put_parsed(&mut node, put_request("ns", "k", "1", 1), Err("no good".into()));
    assert_eq!(refused, Err(Status::InvalidArgument("invalid json: no good".into())));
    assert_eq!(node.last_log_index(), 1);
    put_parsed(&mut node, put_request("ns", "k", "1", 1), Ok(Value::from(5))).unwrap();
    assert_eq!(get(&node, &get_request("ns", "k")).value_json, "5");

    let refused = insert_parsed(&mut node, insert_request(0, "1", 1), Err("bad".into()));
    assert_eq!(refused, Err(Status::InvalidArgument("invalid json: bad".into())));
    insert_parsed(&mut node, insert_request(0, "1", 1), Ok(Value::from("v"))).unwrap();
    assert_eq!(read_steps(&node).values_json, vec!["\"v\""]);
    assert!(insert_into_sequence(&mut node, insert_request(0, "[", 2)).is_err());
}

#[test]
fn a_follower_refuses_every_write_and_names_the_leader() {
    let mut node = RaftNode::new(RaftConfig::new("follower", vec!["boss".into()]), NOW);
    let heartbeat = AppendEntriesRequest {
        term: 1,
        leader_id: "boss".into(),
        prev_log_index: 0,
        prev_log_term: 0,
        entries: vec![],
        leader_commit: 0,
    };
    append_entries(&mut node, heartbeat, NOW).unwrap();
    assert_eq!(leader_hint(&node), "boss");
    let refusal = WriteResponse { success: false, leader_hint: "boss".into() };
    assert_eq!(
        delete(&mut node, &DeleteRequest { namespace: "n".into(), key: "k".into() }, 1),
        refusal
    );
    let add = AddToSetRequest {
        namespace: "n".into(),
        key: "k".into(),
        element: "e".into(),
        node_id: "a".into(),
    };
    assert_eq!(add_to_set(&mut node, add), refusal);
    assert_eq!(insert_into_sequence(&mut node, insert_request(0, "1", 1)).unwrap(), refusal);
    let (resp, event) = put(&mut node, put_request("n", "k", "1", 1)).unwrap();
    assert_eq!(resp, PutResponse { index: 0, success: false, leader_hint: "boss".into() });
    assert!(event.is_none());
    assert_eq!(node.last_log_index(), 0);
}

#[test]
fn reads_of_what_is_not_there() {
    let mut node = leader_node("solo");
    assert_eq!(
        get_set(&node, &GetSetRequest { namespace: "n".into(), key: "k".into() }),
        GetSetResponse { elements: vec![], found: false }
    );
    assert_eq!(read_steps(&node), GetSequenceResponse { values_json: vec![], found: false });
    let resp = delete_from_sequence(
        &mut node,
        &DeleteFromSequenceRequest {
            namespace: "plan".into(),
            key: "steps".into(),
            position: 3,
        },
    );
    assert_eq!(resp, WriteResponse { success: false, leader_hint: String::new() });
}

// --- what other nodes ask ---

fn vote(term: u64) -> VoteRequest {
    VoteRequest {
        term,
        candidate_id: "candidate".into(),
        last_log_index: 0,
        last_log_term: 0,
    }
}

#[test]
fn request_vote_grants_when_candidate_log_is_up_to_date() {
    let config = RaftConfig::new("follower", vec!["candidate".into()]);
    let mut node = RaftNode::new(config, NOW);

    let resp = request_vote(&mut node, vote(1), NOW).unwrap();

    assert!(resp.vote_granted);
    assert_eq!(resp.term, 1);
}

#[test]
fn request_vote_rejects_stale_term() {
    let config = RaftConfig::new("follower", vec!["candidate".into()]);
    let mut node = RaftNode::new(config, NOW);
    // Bump the follower's term via a heartbeat from a fictitious current leader
    // so the subsequent vote request (still at term 1) is stale.
    node.handle_message(
        RaftMessage::AppendEntries(AppendEntriesRequest {
            term: 5,
            leader_id: "leader".into(),
            prev_log_index: 0,
            prev_log_term: 0,
            entries: vec![],
            leader_commit: 0,
        }),
        NOW,
    );

    let resp = request_vote(&mut node, vote(1), NOW).unwrap();

    assert!(!resp.vote_granted);
    assert_eq!(resp.term, 5);
}

fn append(term: u64, prev: (u64, u64), entries: Vec<ReceivedEntry>) -> AppendEntriesRequest {
    AppendEntriesRequest {
        term,
        leader_id: "leader".into(),
        prev_log_index: prev.0,
        prev_log_term: prev.1,
        entries: received_entries(entries),
        leader_commit: 0,
    }
}

fn noop(index: u64, term: u64) -> ReceivedEntry {
    ReceivedEntry { index, term, command: Some(Command::Noop) }
}

#[test]
fn append_entries_advances_follower_log_and_reports_match_index() {
    let config = RaftConfig::new("follower", vec!["leader".into()]);
    let mut node = RaftNode::new(config, NOW);

    let resp = append_entries(&mut node, append(1, (0, 0), vec![noop(1, 1)]), NOW).unwrap();

    assert!(resp.success);
    assert_eq!(resp.match_index, 1);
    assert_eq!(resp.term, 1);
}

#[test]
fn append_entries_rejects_mismatched_prev_log_term() {
    let config = RaftConfig::new("follower", vec!["leader".into()]);
    let mut node = RaftNode::new(config, NOW);

    // Prime the follower with one entry at term 1, then have the leader
    // claim `prev_log_term` 2 at that same index: the consistency check
    // must reject this rather than silently accepting a divergent history.
    append_entries(&mut node, append(1, (0, 0), vec![noop(1, 1)]), NOW).unwrap();

    let resp = append_entries(&mut node, append(2, (1, 2), vec![]), NOW).unwrap();

    assert!(!resp.success);
}

#[test]
fn a_command_that_does_not_decode_does_nothing() {
    let entries = received_entries(vec![
        ReceivedEntry { index: 1, term: 2, command: None },
        noop(2, 2),
    ]);
    assert_eq!(entries.len(), 2);
    assert_eq!(entries[0].index, 1);
    assert_eq!(entries[0].term, 2);
    assert!(matches!(entries[0].command, Command::Noop));
    assert_eq!(entries[1].index, 2);
}

#[test]
fn a_snapshot_is_answered() {
    let config = RaftConfig::new("follower", vec!["leader".into()]);
    let mut node = RaftNode::new(config, NOW);
    let req = InstallSnapshotRequest {
        term: 3,
        leader_id: "leader".into(),
        last_included_index: 4,
        last_included_term: 2,
        data: Some(StateMachine::new().snapshot()),
    };
    let resp = install_snapshot(&mut node, req, NOW).unwrap();
    assert_eq!(resp.term, 3);
    assert_eq!(resp.from, "follower");
    assert_eq!(node.commit_index(), 4);
}

#[test]
fn without_an_answer_there_is_an_error() {
    let mut node = leader_node("solo");
    let nothing = "no response generated";
    match take_append_reply(&mut node) {
        Err(Status::Internal(text)) => assert_eq!(text, nothing),
        _ => panic!("there is no answer"),
    }
    match take_vote_reply(&mut node) {
        Err(Status::Internal(text)) => assert_eq!(text, nothing),
        _ => panic!("there is no answer"),
    }
    match take_snapshot_reply(&mut node) {
        Err(Status::Internal(text)) => assert_eq!(text, nothing),
        _ => panic!("there is no answer"),
    }
}

#[test]
fn answering_drops_what_else_was_to_be_sent() {
    let mut node = RaftNode::start(RaftConfig::new("me", vec!["a".into()]), 10);
    node.tick_with(10, 20);
    let resp = append_entries(&mut node, append(1, (0, 0), vec![]), NOW).unwrap();
    assert!(resp.success);
    assert!(node.take_outbox().is_empty());
    node.receive(
        RaftMessage::AppendEntriesReply(AppendEntriesResponse {
            term: 1,
            success: true,
            match_index: 0,
            from: "a".into(),
        }),
        0,
    );
    assert!(node.take_outbox().is_empty());
}

// --- addresses ---

#[test]
fn addresses_get_a_scheme() {
    assert_eq!(full_addr("127.0.0.1:50051"), "http://127.0.0.1:50051");
    assert_eq!(full_addr("http://host:1"), "http://host:1");
    assert_eq!(full_addr("https://host:1"), "https://host:1");
    assert_eq!(full_addr("htt"), "http://htt");
    assert_eq!(full_addr(""), "http://");
    assert_eq!(full_addr(&full_addr("x")), "http://x");
}

#[test]
fn peers_are_read_from_the_command_line() {
    let list: Vec<String> = ["b=1.2.3.4:5", "no-address", "a=http://x:1", "b=second=part", "=e"]
        .iter()
        .map(|s| s.to_string())
        .collect();
    let peers = parse_peers(&list);
    assert_eq!(peers.keys(), vec!["", "a", "b"]);
    assert_eq!(peers.get(&"a".to_string()).unwrap(), "http://x:1");
    assert_eq!(peers.get(&"b".to_string()).unwrap(), "http://second=part");
    assert_eq!(peers.get(&"".to_string()).unwrap(), "http://e");
}

// --- the client's side ---

#[test]
fn timestamps_follow_the_clock_and_always_grow() {
    assert_eq!(client::next_timestamp(1, 100), (100, 100));
    assert_eq!(client::next_timestamp(100, 100), (101, 101));
    assert_eq!(client::next_timestamp(101, 50), (102, 102));
    assert_eq!(client::next_timestamp(u64::MAX, 50), (u64::MAX, u64::MAX));
    let mut remembered = 1;
    let mut last = 0;
    for now in [100, 100, 100, 102, 50, 103] {
        let (stamp, next) = client::next_timestamp(remembered, now);
        assert!(stamp > last);
        last = stamp;
        remembered = next;
    }
}

#[test]
fn requests_carry_the_text_of_the_document() {
    let value = Value::from(vec![Value::from(1), Value::String("x".into())]);
    let req = client::put_request("n", "k", &value, "me", 7).unwrap();
    assert_eq!(req.namespace, "n");
    assert_eq!(req.key, "k");
    assert_eq!(req.value_json, "[1,\"x\"]");
    assert_eq!(req.node_id, "me");
    assert_eq!(req.timestamp, 7);
    let mut node = leader_node("solo");
    assert!(put(&mut node, req).unwrap().0.success);
    let read = client::get_outcome(get(&node, &get_request("n", "k")));
    assert_eq!(read, Ok(Some(value.clone())));

    let req = client::insert_request("n", "k", 3, &value, "me", 8).unwrap();
    assert_eq!(req.position, 3);
    assert_eq!(req.value_json, "[1,\"x\"]");
    assert_eq!(req.timestamp, 8);
    assert!(insert_into_sequence(&mut node, req).unwrap().success);

    let refused = client::put_request_with("n", "k", Err("no text".into()), "me", 9);
    assert_eq!(refused.unwrap_err(), "no text");
    let refused = client::insert_request_with("n", "k", 0, Err("no text".into()), "me", 9);
    assert_eq!(refused.unwrap_err(), "no text");
}

#[test]
fn what_a_client_makes_of_answers() {
    let refused = PutResponse { index: 0, success: false, leader_hint: "node-1".into() };
    assert_eq!(client::put_outcome(refused), Err("not leader, try: node-1".to_string()));
    let refused = PutResponse { index: 0, success: false, leader_hint: String::new() };
    assert_eq!(client::put_outcome(refused), Ok(false));
    let taken = PutResponse { index: 4, success: true, leader_hint: String::new() };
    assert_eq!(client::put_outcome(taken), Ok(true));

    let read = |value_json: &str, found: bool| GetResponse {
        value_json: value_json.into(),
        version: 1,
        found,
    };
    assert_eq!(client::get_outcome(read("", false)), Ok(None));
    assert_eq!(client::get_outcome(read("[1]", true)), Ok(Some(Value::from(vec![1]))));
    let complaint = client::get_outcome(read("[1", true)).unwrap_err();
    assert!(complaint.starts_with("json parse error: "));
    assert_eq!(client::get_parsed(Err("x".into())), Err("json parse error: x".to_string()));

    let elements = vec!["a".to_string()];
    assert_eq!(
        client::get_set_outcome(GetSetResponse { elements: elements.clone(), found: true }),
        Some(elements)
    );
    assert_eq!(
        client::get_set_outcome(GetSetResponse { elements: vec![], found: false }),
        None
    );

    let steps = |values: &[&str], found: bool| GetSequenceResponse {
        values_json: values.iter().map(|v| v.to_string()).collect(),
        found,
    };
    assert_eq!(client::get_sequence_outcome(steps(&[], false)), Ok(None));
    assert_eq!(
        client::get_sequence_outcome(steps(&["1", "\"x\""], true)),
        Ok(Some(vec![Value::from(1), Value::from("x")]))
    );
    assert!(client::get_sequence_outcome(steps(&["1", "{", "2"], true)).is_err());
}

/// Carries what one node has to send to the others, and brings their answers back.
fn exchange(nodes: &mut [RaftNode], from: usize, outbox: Vec<(String, RaftMessage)>) {
    for (to, msg) in outbox {
        let at = nodes.iter().position(|n| n.id() == to).unwrap();
        let answer = match call_for(msg) {
            Some(Call::AppendEntries(req)) => {
                Answer::AppendEntries(append_entries(&mut nodes[at], req, NOW).unwrap())
            }
            Some(Call::RequestVote(req)) => {
                Answer::RequestVote(request_vote(&mut nodes[at], req, NOW).unwrap())
            }
            Some(Call::InstallSnapshot(req)) => {
                Answer::InstallSnapshot(install_snapshot(&mut nodes[at], req, NOW).unwrap())
            }
            None => continue,
        };
        assert!(answer_fits(&nodes[from], &answer, NOW));
        assert!(!answer_fits(&nodes[from], &answer, u64::MAX));
        take_answer(&mut nodes[from], answer, NOW);
    }
}

#[test]
fn calls_between_servers_elect_a_leader_and_replicate() {
    let ids = ["a", "b", "c"];
    let mut nodes: Vec<RaftNode> = ids
        .iter()
        .map(|id| {
            let peers = ids.iter().filter(|p| p != &id).map(|p| p.to_string()).collect();
            RaftNode::new(RaftConfig::new(id, peers), NOW)
        })
        .collect();

    // nothing is due yet
    assert!(tick(&mut nodes[0], NOW).is_empty());

    let requests = tick(&mut nodes[0], NOW + 10_000 * MILLI);
    assert_eq!(requests.len(), 2);
    exchange(&mut nodes, 0, requests);
    assert_eq!(nodes[0].role(), NodeRole::Leader);
    assert_eq!(nodes[1].role(), NodeRole::Follower);

    let (resp, _) = put(&mut nodes[0], put_request("agents", "status", "1", 1)).unwrap();
    assert!(resp.success);
    for _ in 0..3 {
        let appends = tick(&mut nodes[0], NOW);
        exchange(&mut nodes, 0, appends);
    }
    for node in &nodes {
        assert_eq!(node.commit_index(), 2);
        assert_eq!(get(node, &get_request("agents", "status")).value_json, "1");
    }
}

#[test]
fn answers_are_not_called_out() {
    let vote = VoteResponse { term: 1, vote_granted: true, from: "a".into() };
    assert!(call_for(RaftMessage::RequestVoteReply(vote)).is_none());
    let appended =
        AppendEntriesResponse { term: 1, success: true, match_index: 1, from: "a".into() };
    assert!(call_for(RaftMessage::AppendEntriesReply(appended)).is_none());
    let installed = InstallSnapshotResponse { term: 1, from: "a".into() };
    assert!(call_for(RaftMessage::InstallSnapshotReply(installed.clone())).is_none());
    assert!(matches!(
        reply_of(Answer::InstallSnapshot(installed)),
        RaftMessage::InstallSnapshotReply(resp) if resp.term == 1 && resp.from == "a"
    ));
}

#[test]
fn a_client_reads_the_document_that_it_wrote() {
    let mut node = leader_node("solo");
    let text = "{\"plan\":[1,-2,{\"deep\":[null,true,\"a \\\"quoted\\\" word\"]}],\"n\":18446744073709551615}";
    put(&mut node, put_request("agents", "plan", text, 1)).unwrap();
    let read = client::get_outcome(get(&node, &get_request("agents", "plan"))).unwrap().unwrap();
    let expected: Value = serde_json::from_str(text).unwrap();
    assert_eq!(read, expected);
}

#[test]
fn an_insertion_is_read_at_its_position() {
    let mut node = leader_node("solo");
    for (i, (position, value)) in [(0u32, "\"a\""), (1, "\"c\""), (1, "\"b\"")].iter().enumerate() {
        let resp = insert_into_sequence(
            &mut node,
            InsertIntoSequenceRequest {
                namespace: "plan".into(),
                key: "steps".into(),
                position: *position,
                value_json: value.to_string(),
                node_id: "client-1".into(),
                timestamp: i as u64 + 1,
            },
        )
        .unwrap();
        assert!(resp.success);
    }
    let req = GetSequenceRequest { namespace: "plan".into(), key: "steps".into() };
    assert_eq!(get_sequence(&node, &req).values_json, vec!["\"a\"", "\"b\"", "\"c\""]);
}
