//! What a node does for its clients.
//!
//! Reads are answered from the state that the node has applied. Writes become proposals;
//! a node that is not the leader refuses them and names the leader that it knows.

use crate::crdt::convergence;
use crate::crdt::lww;
use crate::crdt::lww::RegisterView;
use crate::crdt::orset;
use crate::crdt::orset::{OrSetOpView, TagView};
use crate::crdt::replicas;
use crate::crdt::sequence;
use crate::crdt::sequence::{IdView, NodeView, SequenceOpView};
use crate::crdt::state;
use crate::crdt::state::{CrdtOp, CrdtOpView, KeyView, StateKey, StateView};
use crate::json;
use crate::json::Json;
use crate::order;
use crate::raft::agreement;
use crate::raft::election;
use crate::raft::election::{Cluster, Step};
use crate::raft::log;
use crate::raft::node;
use crate::raft::node::{NodeRole, NodeState, RaftNode};
use crate::raft::safety;
use crate::server::status::Status;
use serde_json::Value;
use vstd::prelude::*;
use vstd::string::*;

verus! {

/// Asks for the register of a key.
#[derive(Debug)]
pub struct GetRequest {
    pub namespace: String,
    pub key: String,
}

/// The register of a key: its value as JSON text, and its timestamp.
#[derive(Debug, PartialEq)]
pub struct GetResponse {
    pub value_json: String,
    pub version: u64,
    pub found: bool,
}

/// Asks to write the register of a key.
#[derive(Debug)]
pub struct PutRequest {
    pub namespace: String,
    pub key: String,
    pub value_json: String,
    pub node_id: String,
    pub timestamp: u64,
}

/// Whether a register is written, and at which index of the log.
#[derive(Debug, PartialEq)]
pub struct PutResponse {
    pub index: u64,
    pub success: bool,
    pub leader_hint: String,
}

/// Tells those who watch that a register is written.
#[derive(Debug, PartialEq)]
pub struct WatchEvent {
    pub namespace: String,
    pub key: String,
    pub value_json: String,
    pub version: u64,
}

/// Asks to overwrite the register of a key with null.
#[derive(Debug)]
pub struct DeleteRequest {
    pub namespace: String,
    pub key: String,
}

/// Asks to add to the set of a key.
#[derive(Debug)]
pub struct AddToSetRequest {
    pub namespace: String,
    pub key: String,
    pub element: String,
    pub node_id: String,
}

/// Asks to remove from the set of a key.
#[derive(Debug)]
pub struct RemoveFromSetRequest {
    pub namespace: String,
    pub key: String,
    pub element: String,
}

/// Asks to insert into the sequence of a key.
#[derive(Debug)]
pub struct InsertIntoSequenceRequest {
    pub namespace: String,
    pub key: String,
    pub position: u32,
    pub value_json: String,
    pub node_id: String,
    pub timestamp: u64,
}

/// Asks to delete from the sequence of a key.
#[derive(Debug)]
pub struct DeleteFromSequenceRequest {
    pub namespace: String,
    pub key: String,
    pub position: u32,
}

/// Whether something is written.
#[derive(Debug, PartialEq)]
pub struct WriteResponse {
    pub success: bool,
    pub leader_hint: String,
}

/// Asks for the sequence of a key.
#[derive(Debug)]
pub struct GetSequenceRequest {
    pub namespace: String,
    pub key: String,
}

/// The sequence of a key, each value as JSON text.
#[derive(Debug, PartialEq)]
pub struct GetSequenceResponse {
    pub values_json: Vec<String>,
    pub found: bool,
}

/// Asks for the set of a key.
#[derive(Debug)]
pub struct GetSetRequest {
    pub namespace: String,
    pub key: String,
}

/// The set of a key.
#[derive(Debug, PartialEq)]
pub struct GetSetResponse {
    pub elements: Vec<String>,
    pub found: bool,
}

/// A key, as a value.
pub open spec fn key_view(namespace: String, key: String) -> KeyView {
    KeyView { namespace: namespace@, key: key@ }
}

/// The leader that a node names.
pub open spec fn hint(s: NodeState) -> Seq<char> {
    match s.leader_id {
        Some(id) => id,
        None => "unknown"@,
    }
}

/// The JSON text of a document; nothing if there is none.
pub open spec fn text_of(document: Json) -> Seq<char> {
    match json::json_text(document) {
        Ok(text) => text,
        Err(_) => Seq::empty(),
    }
}

/// Whoever parses the text gets the document back, if it is plain.
pub open spec fn reads_as(text: Seq<char>, document: Json) -> bool {
    json::is_plain(document, 100) ==> json::json_parse(text) == Ok::<Json, Seq<char>>(document)
}

/// The complaint about a text that is not JSON.
pub open spec fn invalid_json(complaint: Seq<char>) -> Seq<char> {
    "invalid json: "@ + complaint
}

/// The answer to a write that was proposed to a node.
pub open spec fn answers_write(r: WriteResponse, s: NodeState) -> bool {
    if s.role == NodeRole::Leader {
        r.success && r.leader_hint@ == Seq::<char>::empty()
    } else {
        !r.success && r.leader_hint@ == hint(s)
    }
}

/// The answer to a write that had nothing to act on.
pub open spec fn answers_nothing_to_do(r: WriteResponse) -> bool {
    !r.success && r.leader_hint@ == Seq::<char>::empty()
}

/// The node can take a proposal.
pub open spec fn has_room(s: NodeState) -> bool {
    s.role == NodeRole::Leader ==> log::last_index(s.log) < u64::MAX
}

/// The leader that a node names.
pub fn leader_hint(node: &RaftNode) -> (r: String)
    ensures
        r@ == hint(node@),
{
    match node.leader_id() {
        Some(id) => id.to_owned(),
        None => "unknown".to_owned(),
    }
}

fn print_or_blank(value: &Value) -> (r: String)
    ensures
        r@ == text_of(json::json_view(*value)),
        reads_as(r@, json::json_view(*value)),
{
    match json::print(value) {
        Ok(text) => text,
        Err(_) => {
            let r = String::new();
            assert(r@ =~= Seq::<char>::empty());
            r
        },
    }
}

fn blank() -> (r: String)
    ensures
        r@ == Seq::<char>::empty(),
{
    let r = String::new();
    assert(r@ =~= Seq::<char>::empty());
    r
}

fn complain_of_json(complaint: &str) -> (r: Status)
    ensures
        r matches Status::InvalidArgument(text) && text@ == invalid_json(complaint@),
{
    let mut text = "invalid json: ".to_owned();
    text.append(complaint);
    Status::InvalidArgument(text)
}

fn propose_write(node: &mut RaftNode, op: CrdtOp) -> (r: WriteResponse)
    requires
        has_room(old(node)@),
    ensures
        final(node)@ == node::after_proposal(old(node)@, op@),
        answers_write(r, old(node)@),
{
    match node.propose(op) {
        Ok(_) => WriteResponse { success: true, leader_hint: blank() },
        Err(_) => WriteResponse { success: false, leader_hint: leader_hint(node) },
    }
}

/// Reads the register of a key.
pub fn get(node: &RaftNode, req: &GetRequest) -> (r: GetResponse)
    ensures
        ({
            let registers = node@.machine.state.registers;
            let key = key_view(req.namespace, req.key);
            if registers.contains_key(key) {
                &&& r.found
                &&& r.version == registers[key].timestamp
                &&& r.value_json@ == text_of(registers[key].value)
                &&& reads_as(r.value_json@, registers[key].value)
            } else {
                &&& !r.found
                &&& r.version == 0
                &&& r.value_json@ == Seq::<char>::empty()
            }
        }),
{
    let key = StateKey::new(req.namespace.as_str(), req.key.as_str());
    match node.state_machine().state().get_register(&key) {
        Some(register) => GetResponse {
            value_json: print_or_blank(&register.value),
            version: register.timestamp,
            found: true,
        },
        None => GetResponse { value_json: blank(), version: 0, found: false },
    }
}

/// The write that a request asks for, given the document that its text writes down.
pub open spec fn put_op(req: PutRequest, value: Json) -> CrdtOpView {
    CrdtOpView::SetRegister {
        key: key_view(req.namespace, req.key),
        write: RegisterView { value, timestamp: req.timestamp, node_id: req.node_id@ },
    }
}

/// The event that tells of a write.
pub open spec fn tells_of(event: WatchEvent, req: PutRequest) -> bool {
    &&& event.namespace == req.namespace
    &&& event.key == req.key
    &&& event.value_json == req.value_json
    &&& event.version == req.timestamp
}

/// What a node in the state `s` answers to a write of a register.
pub open spec fn answers_put(
    r: (PutResponse, Option<WatchEvent>),
    s: NodeState,
    req: PutRequest,
) -> bool {
    if s.role == NodeRole::Leader {
        &&& r.0.success
        &&& r.0.index == log::last_index(s.log) + 1
        &&& r.0.leader_hint@ == Seq::<char>::empty()
        &&& r.1 is Some
        &&& tells_of(r.1->0, req)
    } else {
        &&& !r.0.success
        &&& r.0.index == 0
        &&& r.0.leader_hint@ == hint(s)
        &&& r.1 is None
    }
}

/// Writes the register of a key, and tells of it where the write was taken.
pub fn put(node: &mut RaftNode, req: PutRequest) -> (r: Result<
    (PutResponse, Option<WatchEvent>),
    Status,
>)
    requires
        has_room(old(node)@),
    ensures
        match json::json_parse(req.value_json@) {
            Ok(value) => {
                &&& r is Ok
                &&& answers_put(r->Ok_0, old(node)@, req)
                &&& final(node)@ == node::after_proposal(old(node)@, put_op(req, value))
            },
            Err(complaint) => {
                &&& r matches Err(Status::InvalidArgument(text)) && text@ == invalid_json(complaint)
                &&& final(node)@ == old(node)@
            },
        },
{
    let parsed = json::parse(req.value_json.as_str());
    put_parsed(node, req, parsed)
}

/// Writes the register of a key, given what the parser made of the text.
pub fn put_parsed(node: &mut RaftNode, req: PutRequest, parsed: Result<Value, String>) -> (r:
    Result<(PutResponse, Option<WatchEvent>), Status>)
    requires
        has_room(old(node)@),
    ensures
        match parsed {
            Ok(value) => {
                &&& r is Ok
                &&& answers_put(r->Ok_0, old(node)@, req)
                &&& final(node)@ == node::after_proposal(
                    old(node)@,
                    put_op(req, json::json_view(value)),
                )
            },
            Err(complaint) => {
                &&& r matches Err(Status::InvalidArgument(text)) && text@ == invalid_json(
                    complaint@,
                )
                &&& final(node)@ == old(node)@
            },
        },
{
    let value = match parsed {
        Ok(value) => value,
        Err(complaint) => return Err(complain_of_json(complaint.as_str())),
    };
    let op = CrdtOp::SetRegister {
        key: StateKey::new(req.namespace.as_str(), req.key.as_str()),
        value,
        timestamp: req.timestamp,
        node_id: req.node_id.clone(),
    };
    match node.propose(op) {
        Ok(index) => {
            let event = WatchEvent {
                namespace: req.namespace,
                key: req.key,
                value_json: req.value_json,
                version: req.timestamp,
            };
            Ok((PutResponse { index, success: true, leader_hint: blank() }, Some(event)))
        },
        Err(_) => Ok(
            (PutResponse { index: 0, success: false, leader_hint: leader_hint(node) }, None),
        ),
    }
}

/// Overwrites the register of a key with null, in the name of the system and under the
/// time `now_micros`.
pub fn delete(node: &mut RaftNode, req: &DeleteRequest, now_micros: u64) -> (r: WriteResponse)
    requires
        has_room(old(node)@),
    ensures
        final(node)@ == node::after_proposal(
            old(node)@,
            (CrdtOpView::SetRegister {
                key: key_view(req.namespace, req.key),
                write: RegisterView {
                    value: Json::Null,
                    timestamp: now_micros,
                    node_id: "system"@,
                },
            }),
        ),
        answers_write(r, old(node)@),
{
    let op = CrdtOp::SetRegister {
        key: StateKey::new(req.namespace.as_str(), req.key.as_str()),
        value: Value::default(),
        timestamp: now_micros,
        node_id: "system".to_owned(),
    };
    propose_write(node, op)
}

/// A change that adds an element under a tag.
pub open spec fn add_op(req: AddToSetRequest, tag: TagView) -> CrdtOpView {
    CrdtOpView::AddToSet {
        key: key_view(req.namespace, req.key),
        op: OrSetOpView::Add { element: req.element@, tag },
    }
}

/// A fresh tag of a node.
pub open spec fn is_tag_of(tag: TagView, node_id: Seq<char>) -> bool {
    tag.node_id == node_id && orset::is_random_uuid(tag.id)
}

/// Adds to the set of a key, under a fresh tag.
pub fn add_to_set(node: &mut RaftNode, req: AddToSetRequest) -> (r: WriteResponse)
    requires
        has_room(old(node)@),
    ensures
        answers_write(r, old(node)@),
        exists|tag: TagView| #[trigger]
            is_tag_of(tag, req.node_id@) && final(node)@ == node::after_proposal(
                old(node)@,
                add_op(req, tag),
            ),
{
    let key = StateKey::new(req.namespace.as_str(), req.key.as_str());
    let mut copy = node.state_machine().state().clone();
    let op = copy.add_to_set(key, req.element, req.node_id.as_str());
    proof {
        let tag = op@->AddToSet_op->Add_tag;
        assert(is_tag_of(tag, req.node_id@));
        assert(op@ == add_op(req, tag));
    }
    propose_write(node, op)
}

/// Removes from the set of a key what the node has observed of an element. There has to
/// be something to remove.
pub fn remove_from_set(node: &mut RaftNode, req: &RemoveFromSetRequest) -> (r: WriteResponse)
    requires
        has_room(old(node)@),
    ensures
        ({
            let key = key_view(req.namespace, req.key);
            let set = state::set_at(old(node)@.machine.state, key);
            if set.live.contains_key(req.element@) {
                &&& answers_write(r, old(node)@)
                &&& final(node)@ == node::after_proposal(
                    old(node)@,
                    (CrdtOpView::RemoveFromSet {
                        key,
                        op: OrSetOpView::Remove {
                            element: req.element@,
                            observed_tags: set.live[req.element@],
                        },
                    }),
                )
            } else {
                &&& answers_nothing_to_do(r)
                &&& final(node)@ == old(node)@
            }
        }),
{
    let key = StateKey::new(req.namespace.as_str(), req.key.as_str());
    let mut copy = node.state_machine().state().clone();
    match copy.remove_from_set(key, req.element.as_str()) {
        Some(op) => propose_write(node, op),
        None => WriteResponse { success: false, leader_hint: blank() },
    }
}

/// The insert that a request asks for, given the document that its text writes down.
pub open spec fn insert_op(s: StateView, req: InsertIntoSequenceRequest, value: Json) -> CrdtOpView {
    let key = key_view(req.namespace, req.key);
    CrdtOpView::InsertIntoSequence {
        key,
        op: SequenceOpView::Insert {
            id: IdView { timestamp: req.timestamp, node_id: req.node_id@ },
            parent: sequence::parent_at(state::sequence_at(s, key).nodes, req.position as int),
            value,
        },
    }
}

/// Inserts into the sequence of a key.
pub fn insert_into_sequence(node: &mut RaftNode, req: InsertIntoSequenceRequest) -> (r: Result<
    WriteResponse,
    Status,
>)
    requires
        has_room(old(node)@),
    ensures
        match json::json_parse(req.value_json@) {
            Ok(value) => {
                &&& r is Ok
                &&& answers_write(r->Ok_0, old(node)@)
                &&& final(node)@ == node::after_proposal(
                    old(node)@,
                    insert_op(old(node)@.machine.state, req, value),
                )
            },
            Err(complaint) => {
                &&& r matches Err(Status::InvalidArgument(text)) && text@ == invalid_json(complaint)
                &&& final(node)@ == old(node)@
            },
        },
{
    let parsed = json::parse(req.value_json.as_str());
    insert_parsed(node, req, parsed)
}

/// Inserts into the sequence of a key, given what the parser made of the text.
pub fn insert_parsed(
    node: &mut RaftNode,
    req: InsertIntoSequenceRequest,
    parsed: Result<Value, String>,
) -> (r: Result<WriteResponse, Status>)
    requires
        has_room(old(node)@),
    ensures
        match parsed {
            Ok(value) => {
                &&& r is Ok
                &&& answers_write(r->Ok_0, old(node)@)
                &&& final(node)@ == node::after_proposal(
                    old(node)@,
                    insert_op(old(node)@.machine.state, req, json::json_view(value)),
                )
            },
            Err(complaint) => {
                &&& r matches Err(Status::InvalidArgument(text)) && text@ == invalid_json(
                    complaint@,
                )
                &&& final(node)@ == old(node)@
            },
        },
{
    let value = match parsed {
        Ok(value) => value,
        Err(complaint) => return Err(complain_of_json(complaint.as_str())),
    };
    let key = StateKey::new(req.namespace.as_str(), req.key.as_str());
    let mut copy = node.state_machine().state().clone();
    let op = copy.insert_into_sequence(
        key,
        req.position as usize,
        value,
        req.timestamp,
        req.node_id.as_str(),
    );
    Ok(propose_write(node, op))
}

/// Deletes from the sequence of a key. There has to be an element at the position.
pub fn delete_from_sequence(node: &mut RaftNode, req: &DeleteFromSequenceRequest) -> (r:
    WriteResponse)
    requires
        has_room(old(node)@),
    ensures
        ({
            let key = key_view(req.namespace, req.key);
            let seen = sequence::visible(state::sequence_at(old(node)@.machine.state, key).nodes);
            if req.position < seen.len() {
                &&& answers_write(r, old(node)@)
                &&& final(node)@ == node::after_proposal(
                    old(node)@,
                    (CrdtOpView::DeleteFromSequence {
                        key,
                        op: SequenceOpView::Delete { id: seen[req.position as int].id },
                    }),
                )
            } else {
                &&& answers_nothing_to_do(r)
                &&& final(node)@ == old(node)@
            }
        }),
{
    let key = StateKey::new(req.namespace.as_str(), req.key.as_str());
    let mut copy = node.state_machine().state().clone();
    match copy.delete_from_sequence(key, req.position as usize) {
        Some(op) => propose_write(node, op),
        None => WriteResponse { success: false, leader_hint: blank() },
    }
}

/// Reads the sequence of a key.
pub fn get_sequence(node: &RaftNode, req: &GetSequenceRequest) -> (r: GetSequenceResponse)
    ensures
        ({
            let sequences = node@.machine.state.sequences;
            let key = key_view(req.namespace, req.key);
            if sequences.contains_key(key) {
                let seen = sequence::visible(sequences[key].nodes);
                &&& r.found
                &&& order::texts(r.values_json@) == Seq::new(
                    seen.len(),
                    |i: int| text_of(seen[i].value),
                )
                &&& forall|i: int|
                    0 <= i < r.values_json@.len() ==> reads_as(
                        (#[trigger] r.values_json@[i])@,
                        seen[i].value,
                    )
            } else {
                &&& !r.found
                &&& r.values_json@.len() == 0
            }
        }),
{
    let key = StateKey::new(req.namespace.as_str(), req.key.as_str());
    match node.state_machine().state().get_sequence(&key) {
        Some(seq) => {
            let ghost seen = sequence::visible(seq@.nodes);
            let values = seq.values();
            let n = values.len();
            let mut values_json: Vec<String> = Vec::new();
            let mut i: usize = 0;
            while i < n
                invariant
                    i <= n == values@.len() == seen.len(),
                    values_json@.len() == i,
                    forall|j: int|
                        0 <= j < n ==> json::json_view(*#[trigger] values@[j]) == seen[j].value,
                    forall|j: int|
                        0 <= j < i ==> #[trigger] values_json@[j]@ == text_of(seen[j].value)
                            && reads_as(values_json@[j]@, seen[j].value),
                decreases n - i,
            {
                values_json.push(print_or_blank(values[i]));
                i = i + 1;
            }
            assert(order::texts(values_json@) =~= Seq::new(
                seen.len(),
                |i: int| text_of(seen[i].value),
            ));
            GetSequenceResponse { values_json, found: true }
        },
        None => GetSequenceResponse { values_json: Vec::new(), found: false },
    }
}

/// Reads the set of a key.
pub fn get_set(node: &RaftNode, req: &GetSetRequest) -> (r: GetSetResponse)
    ensures
        ({
            let sets = node@.machine.state.sets;
            let key = key_view(req.namespace, req.key);
            if sets.contains_key(key) {
                &&& r.found
                &&& order::texts(r.elements@).no_duplicates()
                &&& order::texts(r.elements@).to_set() == sets[key].live.dom()
            } else {
                &&& !r.found
                &&& r.elements@.len() == 0
            }
        }),
{
    let key = StateKey::new(req.namespace.as_str(), req.key.as_str());
    match node.state_machine().state().get_set(&key) {
        Some(set) => {
            let listed = set.elements();
            let n = listed.len();
            let mut elements: Vec<String> = Vec::new();
            let mut i: usize = 0;
            while i < n
                invariant
                    i <= n == listed@.len(),
                    elements@.len() == i,
                    forall|j: int| 0 <= j < i ==> #[trigger] elements@[j]@ == listed@[j]@,
                decreases n - i,
            {
                elements.push(listed[i].to_owned());
                i = i + 1;
            }
            proof {
                let names = order::texts(elements@);
                assert forall|i: int, j: int| 0 <= i < names.len() && 0 <= j < names.len() && i
                    != j implies names[i] != names[j] by {
                    order::lemma_text_irreflexive(names[i]);
                    if i < j {
                        assert(order::text_less(listed@[i]@, listed@[j]@));
                    } else {
                        assert(order::text_less(listed@[j]@, listed@[i]@));
                    }
                }
                assert forall|e: Seq<char>| names.to_set().contains(e) <==> set@.live.dom().contains(
                    e,
                ) by {
                    if names.contains(e) {
                        let i = names.index_of(e);
                        assert(set@.live.contains_key(listed@[i]@));
                    }
                    if set@.live.contains_key(e) {
                        let i = choose|i: int| 0 <= i < listed@.len() && listed@[i]@ == e;
                        assert(names[i] == e);
                    }
                }
                assert(names.to_set() =~= set@.live.dom());
            }
            GetSetResponse { elements, found: true }
        },
        None => GetSetResponse { elements: Vec::new(), found: false },
    }
}

// --- laws ---

/// What is put is read back: on a node that is alone in its cluster, a write whose stamp
/// is higher than that of the register is what the next read gives.
pub proof fn law_put_is_read_back(s: NodeState, req: PutRequest, value: Json)
    requires
        safety::alone_and_current(s),
        ({
            let registers = s.machine.state.registers;
            let key = key_view(req.namespace, req.key);
            registers.contains_key(key) ==> registers[key].timestamp < req.timestamp || (
            registers[key].timestamp == req.timestamp && order::text_less(
                registers[key].node_id,
                req.node_id@,
            ))
        }),
    ensures
        ({
            let registers = node::after_proposal(
                s,
                put_op(req, value),
            ).machine.state.registers;
            let key = key_view(req.namespace, req.key);
            &&& registers.contains_key(key)
            &&& registers[key].value == value
            &&& registers[key].timestamp == req.timestamp
            &&& registers[key].node_id == req.node_id@
        }),
{
    safety::law_single_node_applies_at_once(s, put_op(req, value));
}

/// What is put is read back in a cluster: whichever node of a run has applied the log
/// through the index of a put that some node has committed reads that write or one that
/// has a higher stamp. It reads the write itself where no other write to the key that it
/// has applied has a stamp that is as high.
pub proof fn law_committed_put_is_read_back(
    run: Seq<Cluster>,
    steps: Seq<Step>,
    i: int,
    a: Seq<char>,
    j: int,
    b: Seq<char>,
    index: u64,
    req: PutRequest,
    value: Json,
)
    requires
        election::is_run(run, steps),
        0 <= i < run.len(),
        0 <= j < run.len(),
        run[i].nodes.contains_key(a),
        run[j].nodes.contains_key(b),
        1 <= index <= run[i].nodes[a].commit_index,
        log::entry_at(run[i].nodes[a].log, index) is Some,
        log::entry_at(run[i].nodes[a].log, index)->0.command == log::CommandView::CrdtOp(
            put_op(req, value),
        ),
        index <= run[j].nodes[b].last_applied,
    ensures
        ({
            let key = key_view(req.namespace, req.key);
            let s = run[j].nodes[b];
            let registers = s.machine.state.registers;
            let writes = replicas::writes_to(safety::ops_through(s.log, s.last_applied), key);
            let write = put_op(req, value)->SetRegister_write;
            &&& registers.contains_key(key)
            &&& lww::is_highest(registers[key], None, writes)
            &&& writes.contains(write)
            &&& !lww::overwrites(write, registers[key])
            &&& (forall|w: RegisterView| #[trigger]
                writes.contains(w) && w != write ==> lww::overwrites(write, w)) ==> {
                &&& registers[key].value == value
                &&& registers[key].timestamp == req.timestamp
            }
        }),
{
    agreement::law_committed_write_is_read_back(
        run,
        steps,
        i,
        a,
        j,
        b,
        index,
        key_view(req.namespace, req.key),
        put_op(req, value)->SetRegister_write,
    );
}

/// What is added under a tag that was not taken away is listed, and what was observed and
/// removed is not: on a node that is alone in its cluster.
pub proof fn law_set_writes_are_read_back(s: NodeState, req: AddToSetRequest, tag: TagView)
    requires
        safety::alone_and_current(s),
        log::last_index(s.log) + 1 < u64::MAX,
        !state::set_at(s.machine.state, key_view(req.namespace, req.key)).removed.contains(
            (req.element@, tag),
        ),
    ensures
        ({
            let key = key_view(req.namespace, req.key);
            let added = node::after_proposal(s, add_op(req, tag));
            let set = state::set_at(added.machine.state, key);
            let removed = node::after_proposal(
                added,
                CrdtOpView::RemoveFromSet {
                    key,
                    op: OrSetOpView::Remove {
                        element: req.element@,
                        observed_tags: set.live[req.element@],
                    },
                },
            );
            &&& set.live.contains_key(req.element@)
            &&& !state::set_at(removed.machine.state, key).live.contains_key(req.element@)
        }),
{
    let key = key_view(req.namespace, req.key);
    safety::law_single_node_applies_at_once(s, add_op(req, tag));
    let added = node::after_proposal(s, add_op(req, tag));
    let set = state::set_at(added.machine.state, key);
    orset::law_add_is_observable(state::set_at(s.machine.state, key), req.element@, tag);
    let remove = OrSetOpView::Remove {
        element: req.element@,
        observed_tags: set.live[req.element@],
    };
    safety::law_single_node_applies_at_once(added, CrdtOpView::RemoveFromSet { key, op: remove });
    orset::law_remove_takes_observed_element_out(set, req.element@);
}

/// What is inserted is read at its position, and everything else as before: on a node
/// that is alone in its cluster, where the stamp of the insertion is higher than those of
/// the elements that are there and nothing has come yet that speaks of it.
#[verifier::spinoff_prover]
pub proof fn law_sequence_writes_are_read_back(
    s: NodeState,
    req: InsertIntoSequenceRequest,
    value: Json,
)
    requires
        safety::alone_and_current(s),
        ({
            let seq = state::sequence_at(s.machine.state, key_view(req.namespace, req.key));
            let id = IdView { timestamp: req.timestamp, node_id: req.node_id@ };
            &&& convergence::sound(seq)
            &&& req.position <= sequence::visible(seq.nodes).len()
            &&& id != sequence::root_id()
            &&& forall|i: int|
                0 <= i < seq.nodes.len() ==> sequence::id_less((#[trigger] seq.nodes[i]).id, id)
            &&& !seq.waiting.contains_key(id)
            &&& !seq.gone.contains(id)
            &&& convergence::nothing_waits_for(seq, id)
        }),
    ensures
        ({
            let key = key_view(req.namespace, req.key);
            let seen = sequence::visible(state::sequence_at(s.machine.state, key).nodes);
            let after = node::after_proposal(s, insert_op(s.machine.state, req, value));
            let now = sequence::visible(state::sequence_at(after.machine.state, key).nodes);
            &&& now.len() == seen.len() + 1
            &&& now[req.position as int].value == value
            &&& now.remove(req.position as int) == seen
        }),
{
    let key = key_view(req.namespace, req.key);
    let seq = state::sequence_at(s.machine.state, key);
    let id = IdView { timestamp: req.timestamp, node_id: req.node_id@ };
    let position = req.position as int;
    let seen = sequence::visible(seq.nodes);
    let parent = sequence::parent_at(seq.nodes, position);
    let change = SequenceOpView::Insert { id, parent, value };
    let op = insert_op(s.machine.state, req, value);
    assert(state::sequence_at(
        node::after_proposal(s, op).machine.state,
        key,
    ) == sequence::sequence_apply(seq, change)) by {
        safety::law_single_node_applies_at_once(s, op);
        lemma_sequence_takes_change(s.machine.state, key, change);
    }
    convergence::law_insert_is_seen_at_its_position(seq, position, id, value);
    lemma_inserted_is_seen(
        seen,
        sequence::visible(sequence::sequence_apply(seq, change).nodes),
        position,
        NodeView { id, parent, value, tombstone: false },
    );
}

proof fn lemma_sequence_takes_change(s: StateView, key: KeyView, change: SequenceOpView)
    ensures
        state::sequence_at(
            state::state_apply(s, CrdtOpView::InsertIntoSequence { key, op: change }),
            key,
        ) == sequence::sequence_apply(state::sequence_at(s, key), change),
{
}

proof fn lemma_inserted_is_seen(
    seen: Seq<NodeView>,
    now: Seq<NodeView>,
    position: int,
    n: NodeView,
)
    requires
        0 <= position <= seen.len(),
        now == seen.insert(position, n),
    ensures
        now.len() == seen.len() + 1,
        now[position] == n,
        now.remove(position) == seen,
{
    assert(now.remove(position) =~= seen);
}

/// A request to write becomes the change that it asks for: under its key, with its value, its
/// timestamp and its node id, or with its element.
pub proof fn law_a_request_becomes_the_change_it_asks_for(
    put: PutRequest,
    add: AddToSetRequest,
    insert: InsertIntoSequenceRequest,
    s: StateView,
    value: Json,
    tag: TagView,
)
    ensures
        put_op(put, value) matches CrdtOpView::SetRegister { key, write } && {
            &&& key.namespace == put.namespace@
            &&& key.key == put.key@
            &&& write.value == value
            &&& write.timestamp == put.timestamp
            &&& write.node_id == put.node_id@
        },
        add_op(add, tag) matches CrdtOpView::AddToSet { key, op: OrSetOpView::Add {
            element,
            tag: under,
        } } && {
            &&& key.namespace == add.namespace@
            &&& key.key == add.key@
            &&& element == add.element@
            &&& under == tag
        },
        insert_op(s, insert, value) matches CrdtOpView::InsertIntoSequence {
            key,
            op: SequenceOpView::Insert { id, parent, value: inserted },
        } && {
            &&& key.namespace == insert.namespace@
            &&& key.key == insert.key@
            &&& id.timestamp == insert.timestamp
            &&& id.node_id == insert.node_id@
            &&& inserted == value
            &&& !s.sequences.contains_key(key) ==> parent == sequence::root_id()
            &&& s.sequences.contains_key(key) ==> ({
                let seen = sequence::visible(s.sequences[key].nodes);
                &&& insert.position == 0 || seen.len() == 0 ==> parent == sequence::root_id()
                &&& 0 < insert.position <= seen.len() ==> parent == seen[insert.position - 1].id
                &&& 0 < seen.len() < insert.position ==> parent == seen[seen.len() - 1].id
            })
        },
{
    let key = key_view(insert.namespace, insert.key);
    if !s.sequences.contains_key(key) {
        reveal(Seq::filter);
    }
}

/// Only a leader takes a write, and it says so; any other node names the leader that it
/// knows, and else says that it knows none.
pub proof fn law_only_a_leader_takes_a_write(r: WriteResponse, s: NodeState)
    requires
        answers_write(r, s),
    ensures
        r.success <==> s.role == NodeRole::Leader,
        r.success ==> r.leader_hint@.len() == 0,
        !r.success && s.leader_id is Some ==> r.leader_hint@ == s.leader_id->0,
        !r.success && s.leader_id is None ==> r.leader_hint@ == "unknown"@,
{
}

/// The answer to a put tells the index that the entry has in the log, and who watches is told
/// of exactly what was asked to be written. A put that is not taken has index 0 and nobody is
/// told.
pub proof fn law_a_put_is_answered_with_its_index(
    r: (PutResponse, Option<WatchEvent>),
    s: NodeState,
    req: PutRequest,
)
    requires
        answers_put(r, s, req),
        log::contiguous(s.log),
    ensures
        r.0.success <==> s.role == NodeRole::Leader,
        r.1 is Some <==> r.0.success,
        r.0.success ==> r.0.index == s.log.snapshot_last_index + s.log.entries.len() + 1
            && r.0.leader_hint@.len() == 0,
        !r.0.success ==> r.0.index == 0,
        !r.0.success && s.leader_id is Some ==> r.0.leader_hint@ == s.leader_id->0,
        !r.0.success && s.leader_id is None ==> r.0.leader_hint@ == "unknown"@,
        r.1 matches Some(event) ==> {
            &&& event.namespace == req.namespace
            &&& event.key == req.key
            &&& event.value_json == req.value_json
            &&& event.version == req.timestamp
        },
{
    log::law_ends_and_terms(s.log, 0);
}

/// The text of a document is what the printer gives, and nothing where it gives none; the
/// complaint about a text that is no JSON carries that of the parser in full.
pub proof fn law_texts_are_passed_on_in_full(document: Json, complaint: Seq<char>)
    ensures
        json::json_text(document) matches Ok(text) ==> text_of(document) == text,
        json::json_text(document) is Err ==> text_of(document).len() == 0,
        invalid_json(complaint).len() == 14 + complaint.len(),
        invalid_json(complaint).take(14) == "invalid json: "@,
        invalid_json(complaint).skip(14) == complaint,
{
    reveal_strlit("invalid json: ");
    assert(invalid_json(complaint).take(14) =~= "invalid json: "@);
    assert(invalid_json(complaint).skip(14) =~= complaint);
}

} // verus!
