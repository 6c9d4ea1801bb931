//! A node of the cluster.
//!
//! What a node does is a function of its state and of what reaches it: a message, a
//! tick of the clock or a proposal. Times are nanoseconds since a start that the caller
//! picks.

use crate::crdt::state::{CrdtOp, CrdtOpView};
use crate::map::SortedMap;
use crate::order;
use crate::raft::error::RaftError;
use crate::raft::log;
use crate::raft::log::{Command, CommandView, EntryView, LogEntry, LogView, RaftLog};
use crate::raft::message;
use crate::raft::message::{
    AppendEntriesRequest, AppendEntriesRequestView, AppendEntriesResponse,
    AppendEntriesResponseView, InstallSnapshotRequest, InstallSnapshotRequestView,
    InstallSnapshotResponse, InstallSnapshotResponseView, MessageView, RaftMessage, VoteRequest,
    VoteRequestView, VoteResponse, VoteResponseView,
};
use crate::raft::state_machine;
use crate::raft::state_machine::{MachineView, StateMachine};
use rand::Rng;
use std::time::Duration;
use vstd::prelude::*;

verus! {

/// What a node takes itself for.
#[derive(Debug, Clone, Copy, PartialEq, Eq, Structural)]
pub enum NodeRole {
    Follower,
    Candidate,
    Leader,
}

/// How a node is set up. The times are in nanoseconds.
#[derive(Debug)]
pub struct RaftConfig {
    pub id: String,
    pub peers: Vec<String>,
    pub election_timeout_min: u64,
    pub election_timeout_max: u64,
    pub heartbeat_interval: u64,
}

/// What a node's setup says.
pub struct ConfigView {
    pub id: Seq<char>,
    pub peers: Seq<Seq<char>>,
    pub election_timeout_min: u64,
    pub election_timeout_max: u64,
    pub heartbeat_interval: u64,
}

impl View for RaftConfig {
    type V = ConfigView;

    open spec fn view(&self) -> ConfigView {
        ConfigView {
            id: self.id@,
            peers: order::texts(self.peers@),
            election_timeout_min: self.election_timeout_min,
            election_timeout_max: self.election_timeout_max,
            heartbeat_interval: self.heartbeat_interval,
        }
    }
}

impl RaftConfig {
    /// The usual setup: elections after 150 to 300 ms of silence, and a heartbeat every
    /// 50 ms.
    pub fn new(id: &str, peers: Vec<String>) -> (r: Self)
        ensures
            r@ == (ConfigView {
                id: id@,
                peers: order::texts(peers@),
                election_timeout_min: 150_000_000,
                election_timeout_max: 300_000_000,
                heartbeat_interval: 50_000_000,
            }),
    {
        RaftConfig {
            id: id.to_owned(),
            peers,
            election_timeout_min: 150_000_000,
            election_timeout_max: 300_000_000,
            heartbeat_interval: 50_000_000,
        }
    }
}

impl Clone for RaftConfig {
    fn clone(&self) -> (r: Self)
        ensures
            r@ == self@,
    {
        let n = self.peers.len();
        let mut peers: Vec<String> = Vec::new();
        let mut i: usize = 0;
        while i < n
            invariant
                i <= n == self.peers@.len(),
                order::texts(peers@) == order::texts(self.peers@).take(i as int),
            decreases n - i,
        {
            let ghost before = peers@;
            peers.push(self.peers[i].clone());
            assert(order::texts(peers@) =~= order::texts(before).push(self.peers@[i as int]@));
            assert(order::texts(self.peers@).take(i + 1) =~= order::texts(self.peers@).take(i as int).push(
                self.peers@[i as int]@,
            ));
            i = i + 1;
        }
        assert(order::texts(self.peers@).take(n as int) =~= order::texts(self.peers@));
        RaftConfig {
            id: self.id.clone(),
            peers,
            election_timeout_min: self.election_timeout_min,
            election_timeout_max: self.election_timeout_max,
            heartbeat_interval: self.heartbeat_interval,
        }
    }
}

/// The state of a node.
pub struct NodeState {
    pub config: ConfigView,
    pub current_term: u64,
    pub voted_for: Option<Seq<char>>,
    pub log: LogView,
    pub role: NodeRole,
    pub commit_index: u64,
    pub last_applied: u64,
    pub leader_id: Option<Seq<char>>,
    pub next_index: Map<Seq<char>, u64>,
    pub match_index: Map<Seq<char>, u64>,
    pub votes_received: usize,
    pub election_deadline: u64,
    pub machine: MachineView,
    pub outbox: Seq<(Seq<char>, MessageView)>,
}

// --- what a node does ---

/// The map with one value under every key of a list.
pub open spec fn with_all(
    m: Map<Seq<char>, u64>,
    keys: Seq<Seq<char>>,
    value: u64,
) -> Map<Seq<char>, u64> {
    Map::new(
        |k: Seq<char>| m.contains_key(k) || keys.contains(k),
        |k: Seq<char>|
            if keys.contains(k) {
                value
            } else {
                m[k]
            },
    )
}

/// A node that has just been started.
pub open spec fn started(config: ConfigView, deadline: u64) -> NodeState {
    NodeState {
        config,
        current_term: 0,
        voted_for: None,
        log: log::empty_log(),
        role: NodeRole::Follower,
        commit_index: 0,
        last_applied: 0,
        leader_id: None,
        next_index: with_all(Map::empty(), config.peers, 1),
        match_index: with_all(Map::empty(), config.peers, 0),
        votes_received: 0,
        election_deadline: deadline,
        machine: state_machine::new_machine(),
        outbox: Seq::empty(),
    }
}

/// How many nodes the cluster has.
pub open spec fn cluster_size(s: NodeState) -> nat {
    s.config.peers.len() + 1
}

/// How many votes make a leader: more than half of the cluster.
pub open spec fn quorum_size(s: NodeState) -> nat {
    cluster_size(s) / 2 + 1
}

/// The node with a message in its outbox.
pub open spec fn sent(s: NodeState, to: Seq<char>, msg: MessageView) -> NodeState {
    NodeState { outbox: s.outbox.push((to, msg)), ..s }
}

/// The node after it saw a term. A higher one makes it a follower that has not voted and
/// knows no leader.
pub open spec fn stepped_down(s: NodeState, term: u64, deadline: u64) -> NodeState {
    if term > s.current_term {
        NodeState {
            current_term: term,
            role: NodeRole::Follower,
            voted_for: None,
            leader_id: None,
            election_deadline: deadline,
            ..s
        }
    } else {
        s
    }
}

/// The index of the next entry to send to a peer.
pub open spec fn next_of(s: NodeState, peer: Seq<char>) -> u64 {
    if s.next_index.contains_key(peer) {
        s.next_index[peer]
    } else {
        1
    }
}

/// The index through which a peer is known to have the log.
pub open spec fn match_of(s: NodeState, peer: Seq<char>) -> u64 {
    if s.match_index.contains_key(peer) {
        s.match_index[peer]
    } else {
        0
    }
}

/// What a leader sends to a peer: the entries that it lacks, or a snapshot where those
/// have been compacted away.
pub open spec fn replication_message(s: NodeState, peer: Seq<char>) -> MessageView {
    let next = next_of(s, peer);
    if next <= s.log.snapshot_last_index && s.log.snapshot_last_index > 0 {
        MessageView::InstallSnapshot(
            InstallSnapshotRequestView {
                term: s.current_term,
                leader_id: s.config.id,
                last_included_index: s.log.snapshot_last_index,
                last_included_term: s.log.snapshot_last_term,
                data: Some(s.machine),
            },
        )
    } else {
        let prev: u64 = if next > 0 {
            (next - 1) as u64
        } else {
            0
        };
        MessageView::AppendEntries(
            AppendEntriesRequestView {
                term: s.current_term,
                leader_id: s.config.id,
                prev_log_index: prev,
                prev_log_term: match log::term_at(s.log, prev) {
                    Some(term) => term,
                    None => 0,
                },
                entries: log::entries_from(s.log, next),
                leader_commit: s.commit_index,
            },
        )
    }
}

/// What a leader sends to its peers, in their order.
pub open spec fn replication_messages(s: NodeState) -> Seq<(Seq<char>, MessageView)> {
    Seq::new(
        s.config.peers.len(),
        |i: int| (s.config.peers[i], replication_message(s, s.config.peers[i])),
    )
}

/// The leader after it sent its log to all peers.
pub open spec fn replicated(s: NodeState) -> NodeState {
    NodeState { outbox: s.outbox + replication_messages(s), ..s }
}

/// The state machine after the entry at an index.
pub open spec fn machine_step(log: LogView, m: MachineView, index: u64) -> MachineView {
    match log::entry_at(log, index) {
        Some(entry) => state_machine::machine_apply(m, index, entry.command),
        None => m,
    }
}

/// The state machine after the entries behind `from`, through `to`.
pub open spec fn machine_through(log: LogView, m: MachineView, from: u64, to: u64) -> MachineView
    decreases to,
{
    if to <= from {
        m
    } else {
        machine_step(log, machine_through(log, m, from, (to - 1) as u64), to)
    }
}

/// The node after it applied what has been committed.
pub open spec fn applied(s: NodeState) -> NodeState {
    if s.last_applied < s.commit_index {
        NodeState {
            last_applied: s.commit_index,
            machine: machine_through(s.log, s.machine, s.last_applied, s.commit_index),
            ..s
        }
    } else {
        s
    }
}

/// How many of the peers are known to have the log through an index.
pub open spec fn peers_with(s: NodeState, peers: Seq<Seq<char>>, index: u64) -> nat
    decreases peers.len(),
{
    if peers.len() == 0 {
        0
    } else {
        peers_with(s, peers.drop_last(), index) + if match_of(s, peers.last()) >= index {
            1nat
        } else {
            0nat
        }
    }
}

/// The leader may commit through an index: the entry there is of its own term, and more
/// than half of the cluster, the leader among them, has it.
pub open spec fn can_commit(s: NodeState, index: u64) -> bool {
    &&& log::term_at(s.log, index) == Some(s.current_term)
    &&& 1 + peers_with(s, s.config.peers, index) > cluster_size(s) / 2
}

/// The highest index up to `upto` that the leader may commit through; where there is
/// none above the commit index, the commit index.
pub open spec fn commit_through(s: NodeState, upto: u64) -> u64
    decreases upto,
{
    if upto <= s.commit_index {
        s.commit_index
    } else if can_commit(s, upto) {
        upto
    } else {
        commit_through(s, (upto - 1) as u64)
    }
}

/// The leader after it looked for entries to commit.
pub open spec fn advanced(s: NodeState) -> NodeState {
    let after = applied(
        NodeState { commit_index: commit_through(s, log::last_index(s.log)), ..s },
    );
    if after.commit_index > s.commit_index {
        replicated(after)
    } else {
        after
    }
}

/// The leader after it put a command into its log. A cluster of one has nobody to wait
/// for: what its node appends is committed at once.
pub open spec fn appended(s: NodeState, command: CommandView) -> NodeState {
    let after = replicated(
        NodeState {
            log: log::with_appended(
                s.log,
                EntryView {
                    index: (log::last_index(s.log) + 1) as u64,
                    term: s.current_term,
                    command,
                },
            ),
            ..s
        },
    );
    if s.config.peers.len() == 0 {
        advanced(after)
    } else {
        after
    }
}

/// The node after it became leader: it expects nothing of what its peers have, and
/// appends an empty entry so that entries of earlier terms can be committed.
pub open spec fn leading(s: NodeState) -> NodeState {
    let next = (log::last_index(s.log) + 1) as u64;
    appended(
        NodeState {
            role: NodeRole::Leader,
            leader_id: Some(s.config.id),
            next_index: with_all(s.next_index, s.config.peers, next),
            match_index: with_all(s.match_index, s.config.peers, 0),
            ..s
        },
        CommandView::Noop,
    )
}

/// The request for a vote that a candidate sends.
pub open spec fn vote_request(s: NodeState) -> VoteRequestView {
    VoteRequestView {
        term: s.current_term,
        candidate_id: s.config.id,
        last_log_index: log::last_index(s.log),
        last_log_term: log::last_term(s.log),
    }
}

/// The node after it stood for election: in a new term it votes for itself and asks its
/// peers for their votes. Alone in its cluster, it has won.
pub open spec fn standing(s: NodeState, deadline: u64) -> NodeState {
    let candidate = NodeState {
        current_term: (s.current_term + 1) as u64,
        role: NodeRole::Candidate,
        voted_for: Some(s.config.id),
        votes_received: 1,
        election_deadline: deadline,
        ..s
    };
    let requests = Seq::new(
        s.config.peers.len(),
        |i: int| (s.config.peers[i], MessageView::RequestVote(vote_request(candidate))),
    );
    let asked = NodeState { outbox: candidate.outbox + requests, ..candidate };
    if s.config.peers.len() == 0 {
        leading(asked)
    } else {
        asked
    }
}

/// The answer to a request to append.
pub open spec fn append_reply(s: NodeState, success: bool, match_index: u64) -> MessageView {
    MessageView::AppendEntriesReply(
        AppendEntriesResponseView {
            term: s.current_term,
            success,
            match_index,
            from: s.config.id,
        },
    )
}

/// The node after a request to append.
pub open spec fn after_append_entries(
    s: NodeState,
    req: AppendEntriesRequestView,
    deadline: u64,
) -> NodeState {
    if req.term < s.current_term {
        sent(s, req.leader_id, append_reply(s, false, 0))
    } else {
        let heard = NodeState {
            leader_id: Some(req.leader_id),
            election_deadline: deadline,
            ..stepped_down(s, req.term, deadline)
        };
        let prev_term = log::term_at(heard.log, req.prev_log_index);
        if req.prev_log_index > 0 && prev_term is Some && prev_term != Some(req.prev_log_term) {
            sent(
                NodeState { log: log::truncated(heard.log, req.prev_log_index), ..heard },
                req.leader_id,
                append_reply(heard, false, 0),
            )
        } else if req.prev_log_index > 0 && prev_term is None && req.prev_log_index
            > heard.log.snapshot_last_index {
            sent(heard, req.leader_id, append_reply(heard, false, 0))
        } else {
            let grown = NodeState { log: log::with_entries(heard.log, req.entries), ..heard };
            let last = log::last_index(grown.log);
            let caught_up = if req.leader_commit > grown.commit_index {
                applied(
                    NodeState {
                        commit_index: if req.leader_commit < last {
                            req.leader_commit
                        } else {
                            last
                        },
                        ..grown
                    },
                )
            } else {
                grown
            };
            sent(caught_up, req.leader_id, append_reply(caught_up, true, last))
        }
    }
}

/// The node after the answer to a request to append. A success of an earlier term says
/// nothing of what the peer has now. Every refusal makes a leader go back by one entry and
/// send again.
pub open spec fn after_append_reply(
    s: NodeState,
    resp: AppendEntriesResponseView,
    deadline: u64,
) -> NodeState {
    if resp.term > s.current_term {
        stepped_down(s, resp.term, deadline)
    } else if s.role != NodeRole::Leader || (resp.success && resp.term < s.current_term) {
        s
    } else if resp.success {
        advanced(
            NodeState {
                next_index: s.next_index.insert(resp.from, (resp.match_index + 1) as u64),
                match_index: s.match_index.insert(resp.from, resp.match_index),
                ..s
            },
        )
    } else {
        let next = next_of(s, resp.from);
        let back = NodeState {
            next_index: s.next_index.insert(
                resp.from,
                if next > 1 {
                    (next - 1) as u64
                } else {
                    1
                },
            ),
            ..s
        };
        sent(back, resp.from, replication_message(back, resp.from))
    }
}

/// The candidate's log is at least as up to date as the node's: its last term is higher,
/// or the same and its log is no shorter.
pub open spec fn up_to_date(s: NodeState, req: VoteRequestView) -> bool {
    req.last_log_term > log::last_term(s.log) || (req.last_log_term == log::last_term(s.log)
        && req.last_log_index >= log::last_index(s.log))
}

/// The node after a request for its vote.
pub open spec fn after_vote_request(
    s: NodeState,
    req: VoteRequestView,
    deadline: u64,
) -> NodeState {
    if req.term < s.current_term {
        sent(
            s,
            req.candidate_id,
            MessageView::RequestVoteReply(
                VoteResponseView {
                    term: s.current_term,
                    vote_granted: false,
                    from: s.config.id,
                },
            ),
        )
    } else {
        let heard = stepped_down(s, req.term, deadline);
        let grant = (heard.voted_for is None || heard.voted_for == Some(req.candidate_id))
            && up_to_date(heard, req);
        let voted = if grant {
            NodeState {
                voted_for: Some(req.candidate_id),
                election_deadline: deadline,
                ..heard
            }
        } else {
            heard
        };
        sent(
            voted,
            req.candidate_id,
            MessageView::RequestVoteReply(
                VoteResponseView {
                    term: voted.current_term,
                    vote_granted: grant,
                    from: voted.config.id,
                },
            ),
        )
    }
}

/// A vote counts for the node: it is granted, for the term in which the node stands.
pub open spec fn counts(s: NodeState, resp: VoteResponseView) -> bool {
    s.role == NodeRole::Candidate && resp.term == s.current_term && resp.vote_granted
}

/// The node after the answer to a request for a vote.
pub open spec fn after_vote_reply(
    s: NodeState,
    resp: VoteResponseView,
    deadline: u64,
) -> NodeState {
    if resp.term > s.current_term {
        stepped_down(s, resp.term, deadline)
    } else if counts(s, resp) {
        let counted = NodeState { votes_received: (s.votes_received + 1) as usize, ..s };
        if counted.votes_received >= quorum_size(s) {
            leading(counted)
        } else {
            counted
        }
    } else {
        s
    }
}

/// The snapshot is one that the node installs: it decoded, and it does not end before the
/// snapshot that the node has already.
pub open spec fn takes_snapshot(s: NodeState, req: InstallSnapshotRequestView) -> bool {
    req.data is Some && s.log.snapshot_last_index <= req.last_included_index
}

/// The node after it was sent a snapshot. Where it installs it, the snapshot takes the
/// place of the entries that it covers. One that the node does not install changes nothing
/// but what any message of the leader changes.
pub open spec fn after_snapshot(
    s: NodeState,
    req: InstallSnapshotRequestView,
    deadline: u64,
) -> NodeState {
    if req.term < s.current_term {
        sent(
            s,
            req.leader_id,
            MessageView::InstallSnapshotReply(
                InstallSnapshotResponseView { term: s.current_term, from: s.config.id },
            ),
        )
    } else {
        let heard = NodeState {
            leader_id: Some(req.leader_id),
            election_deadline: deadline,
            ..stepped_down(s, req.term, deadline)
        };
        let installed = if takes_snapshot(s, req) {
            NodeState {
                machine: req.data->0,
                log: log::LogView {
                    snapshot_last_index: req.last_included_index,
                    snapshot_last_term: req.last_included_term,
                    ..log::compacted(heard.log, req.last_included_index, req.last_included_term)
                },
                commit_index: if heard.commit_index < req.last_included_index {
                    req.last_included_index
                } else {
                    heard.commit_index
                },
                last_applied: req.last_included_index,
                ..heard
            }
        } else {
            heard
        };
        sent(
            installed,
            req.leader_id,
            MessageView::InstallSnapshotReply(
                InstallSnapshotResponseView {
                    term: installed.current_term,
                    from: installed.config.id,
                },
            ),
        )
    }
}

/// The node after a message. `deadline` is when it stands for election next, should the
/// message have put that off.
pub open spec fn after_message(s: NodeState, msg: MessageView, deadline: u64) -> NodeState {
    match msg {
        MessageView::AppendEntries(req) => after_append_entries(s, req, deadline),
        MessageView::AppendEntriesReply(resp) => after_append_reply(s, resp, deadline),
        MessageView::RequestVote(req) => after_vote_request(s, req, deadline),
        MessageView::RequestVoteReply(resp) => after_vote_reply(s, resp, deadline),
        MessageView::InstallSnapshot(req) => after_snapshot(s, req, deadline),
        MessageView::InstallSnapshotReply(resp) => stepped_down(s, resp.term, deadline),
    }
}

/// The node after a tick of the clock: a leader sends its log to all peers, any other
/// node stands for election once its deadline has come.
pub open spec fn after_tick(s: NodeState, now: u64, deadline: u64) -> NodeState {
    if s.role == NodeRole::Leader {
        replicated(s)
    } else if now >= s.election_deadline {
        standing(s, deadline)
    } else {
        s
    }
}

/// The node after a proposal; only a leader takes one.
pub open spec fn after_proposal(s: NodeState, op: CrdtOpView) -> NodeState {
    if s.role == NodeRole::Leader {
        appended(s, CommandView::CrdtOp(op))
    } else {
        s
    }
}

/// What holds of every node: its timeouts can be drawn, and its votes can be counted.
pub open spec fn sound(s: NodeState) -> bool {
    &&& s.config.peers.len() < usize::MAX
    &&& s.config.election_timeout_min <= s.config.election_timeout_max
    &&& s.role == NodeRole::Candidate ==> s.votes_received == 1 || s.votes_received < quorum_size(
        s,
    )
}

/// No number runs over when the node handles the message: an index that a peer
/// confirms, and the end of the log of a new leader.
pub open spec fn message_fits(s: NodeState, msg: MessageView) -> bool {
    match msg {
        MessageView::AppendEntriesReply(resp) => s.role == NodeRole::Leader && resp.success
            && resp.term == s.current_term ==> resp.match_index < u64::MAX,
        MessageView::RequestVoteReply(resp) => counts(s, resp) && s.votes_received + 1
            >= quorum_size(s) ==> log::last_index(s.log) < u64::MAX,
        _ => true,
    }
}

/// No number runs over when the node stands for election.
pub open spec fn tick_fits(s: NodeState, now: u64) -> bool {
    s.role != NodeRole::Leader && now >= s.election_deadline ==> {
        &&& s.current_term < u64::MAX
        &&& s.config.peers.len() == 0 ==> log::last_index(s.log) < u64::MAX
    }
}

/// A deadline that a node can draw at a time.
pub open spec fn possible_deadline(config: ConfigView, now: u64, deadline: u64) -> bool {
    now + config.election_timeout_min <= deadline <= now + config.election_timeout_max
}

/// `rand::Rng::gen_range` of `rand::thread_rng` over an inclusive range of durations:
/// some duration of the range. Which one is left open.
#[verifier::external_body]
fn random_duration(min: u64, max: u64) -> (r: u64)
    requires
        min <= max,
    ensures
        min <= r <= max,
{
    let range = Duration::from_nanos(min)..=Duration::from_nanos(max);
    rand::thread_rng().gen_range(range).as_nanos() as u64
}

fn random_election_deadline(now: u64, min: u64, max: u64) -> (r: u64)
    requires
        min <= max,
        now + max <= u64::MAX,
    ensures
        now + min <= r <= now + max,
{
    now + random_duration(min, max)
}

fn set_all(map: &mut SortedMap<String, u64>, keys: &Vec<String>, value: u64)
    ensures
        final(map)@ == with_all(old(map)@, order::texts(keys@), value),
{
    let n = keys.len();
    let ghost all = order::texts(keys@);
    let mut i: usize = 0;
    assert(map@ =~= with_all(old(map)@, all.take(0), value));
    while i < n
        invariant
            i <= n == keys@.len(),
            all == order::texts(keys@),
            map@ == with_all(old(map)@, all.take(i as int), value),
        decreases n - i,
    {
        map.insert(keys[i].clone(), value);
        proof {
            let before = all.take(i as int);
            let after = all.take(i + 1);
            assert(after =~= before.push(all[i as int]));
            assert forall|k: Seq<char>| #[trigger] after.contains(k) <==> before.contains(k) || k
                == all[i as int] by {
                if before.contains(k) {
                    assert(after[before.index_of(k)] == k);
                }
                assert(after[i as int] == all[i as int]);
                if after.contains(k) {
                    let j = after.index_of(k);
                    if j < i {
                        assert(before[j] == k);
                    }
                }
            }
            assert(map@ =~= with_all(old(map)@, after, value));
        }
        i = i + 1;
    }
    assert(all.take(n as int) =~= all);
}

struct Core {
    config: RaftConfig,
    // persistent state
    current_term: u64,
    voted_for: Option<String>,
    log: RaftLog,
    // volatile state
    role: NodeRole,
    commit_index: u64,
    last_applied: u64,
    leader_id: Option<String>,
    // of use to a leader only
    next_index: SortedMap<String, u64>,
    match_index: SortedMap<String, u64>,
    // election state
    votes_received: usize,
    election_deadline: u64,
    state_machine: StateMachine,
    outbox: Vec<(String, RaftMessage)>,
}

/// What an optional text says.
pub open spec fn optional_text(text: Option<String>) -> Option<Seq<char>> {
    match text {
        Some(t) => Some(t@),
        None => None,
    }
}

impl View for Core {
    type V = NodeState;

    closed spec fn view(&self) -> NodeState {
        NodeState {
            config: self.config@,
            current_term: self.current_term,
            voted_for: optional_text(self.voted_for),
            log: self.log@,
            role: self.role,
            commit_index: self.commit_index,
            last_applied: self.last_applied,
            leader_id: optional_text(self.leader_id),
            next_index: self.next_index@,
            match_index: self.match_index@,
            votes_received: self.votes_received,
            election_deadline: self.election_deadline,
            machine: self.state_machine@,
            outbox: message::outbox_view(self.outbox@),
        }
    }
}

impl Core {
    fn start(config: RaftConfig, deadline: u64) -> (r: Self)
        ensures
            r@ == started(config@, deadline),
    {
        let mut next_index: SortedMap<String, u64> = SortedMap::new();
        let mut match_index: SortedMap<String, u64> = SortedMap::new();
        set_all(&mut next_index, &config.peers, 1);
        set_all(&mut match_index, &config.peers, 0);
        let r = Core {
            config,
            current_term: 0,
            voted_for: None,
            log: RaftLog::new(),
            role: NodeRole::Follower,
            commit_index: 0,
            last_applied: 0,
            leader_id: None,
            next_index,
            match_index,
            votes_received: 0,
            election_deadline: deadline,
            state_machine: StateMachine::new(),
            outbox: Vec::new(),
        };
        assert(r@.outbox =~= Seq::<(Seq<char>, MessageView)>::empty());
        r
    }

    fn send(&mut self, to: &str, msg: RaftMessage)
        ensures
            final(self)@ == sent(old(self)@, to@, msg@),
    {
        self.outbox.push((to.to_owned(), msg));
        assert(self@.outbox =~= old(self)@.outbox.push((to@, msg@)));
    }

    fn maybe_step_down(&mut self, term: u64, deadline: u64)
        ensures
            final(self)@ == stepped_down(old(self)@, term, deadline),
    {
        if term > self.current_term {
            self.current_term = term;
            self.role = NodeRole::Follower;
            self.voted_for = None;
            self.leader_id = None;
            self.election_deadline = deadline;
        }
    }

    fn next_of(&self, peer: &String) -> (r: u64)
        ensures
            r == next_of(self@, peer@),
    {
        match self.next_index.get(peer) {
            Some(next) => *next,
            None => 1,
        }
    }

    fn match_of(&self, peer: &String) -> (r: u64)
        ensures
            r == match_of(self@, peer@),
    {
        match self.match_index.get(peer) {
            Some(index) => *index,
            None => 0,
        }
    }

    fn replicate_to(&mut self, peer: &String)
        ensures
            final(self)@ == sent(old(self)@, peer@, replication_message(old(self)@, peer@)),
    {
        let next = self.next_of(peer);
        let snapshot_last_index = self.log.snapshot_last_index();
        if next <= snapshot_last_index && snapshot_last_index > 0 {
            let msg = RaftMessage::InstallSnapshot(
                InstallSnapshotRequest {
                    term: self.current_term,
                    leader_id: self.config.id.clone(),
                    last_included_index: snapshot_last_index,
                    last_included_term: self.log.snapshot_last_term(),
                    data: Some(self.state_machine.snapshot()),
                },
            );
            self.send(peer.as_str(), msg);
            return;
        }
        let prev_log_index: u64 = if next > 0 {
            next - 1
        } else {
            0
        };
        let prev_log_term: u64 = match self.log.term_at(prev_log_index) {
            Some(term) => term,
            None => 0,
        };
        let msg = RaftMessage::AppendEntries(
            AppendEntriesRequest {
                term: self.current_term,
                leader_id: self.config.id.clone(),
                prev_log_index,
                prev_log_term,
                entries: log::copy_entries(self.log.entries_from(next)),
                leader_commit: self.commit_index,
            },
        );
        self.send(peer.as_str(), msg);
    }

    fn replicate_to_all(&mut self)
        ensures
            final(self)@ == replicated(old(self)@),
    {
        let n = self.config.peers.len();
        let ghost before = self@;
        let ghost messages = replication_messages(before);
        let mut i: usize = 0;
        assert(before.outbox + messages.take(0) =~= before.outbox);
        while i < n
            invariant
                i <= n == self.config.peers@.len(),
                before == old(self)@,
                messages == replication_messages(before),
                self@ == (NodeState {
                    outbox: before.outbox + messages.take(i as int),
                    ..before
                }),
            decreases n - i,
        {
            let peer = self.config.peers[i].clone();
            self.replicate_to(&peer);
            proof {
                assert(self@.config.peers[i as int] == peer@);
                assert(messages.take(i + 1) =~= messages.take(i as int).push(messages[i as int]));
                assert(before.outbox + messages.take(i + 1) =~= (before.outbox + messages.take(
                    i as int,
                )).push(messages[i as int]));
            }
            i = i + 1;
        }
        assert(messages.take(n as int) =~= messages);
    }

    fn apply_committed(&mut self)
        ensures
            final(self)@ == applied(old(self)@),
    {
        let ghost before = self@;
        while self.last_applied < self.commit_index
            invariant
                before == old(self)@,
                before.last_applied <= self.last_applied,
                self.last_applied <= before.commit_index || self.last_applied
                    == before.last_applied,
                self@ == (NodeState {
                    last_applied: self.last_applied,
                    machine: machine_through(
                        before.log,
                        before.machine,
                        before.last_applied,
                        self.last_applied,
                    ),
                    ..before
                }),
            decreases self.commit_index - self.last_applied,
        {
            self.last_applied = self.last_applied + 1;
            match self.log.entry_at(self.last_applied) {
                Some(entry) => {
                    self.state_machine.apply(self.last_applied, &entry.command);
                },
                None => {},
            }
        }
    }

    fn count_with(&self, index: u64) -> (r: usize)
        requires
            self@.config.peers.len() < usize::MAX,
        ensures
            r == 1 + peers_with(self@, self@.config.peers, index),
            r <= self@.config.peers.len() + 1,
    {
        let n = self.config.peers.len();
        let ghost peers = self@.config.peers;
        let mut count: usize = 1;
        let mut i: usize = 0;
        while i < n
            invariant
                i <= n == self.config.peers@.len(),
                n < usize::MAX,
                peers == self@.config.peers,
                count == 1 + peers_with(self@, peers.take(i as int), index),
                count <= i + 1,
            decreases n - i,
        {
            proof {
                assert(peers.take(i + 1).drop_last() =~= peers.take(i as int));
                assert(peers.take(i + 1).last() == self.config.peers@[i as int]@);
            }
            if self.match_of(&self.config.peers[i]) >= index {
                count = count + 1;
            }
            i = i + 1;
        }
        assert(peers.take(n as int) =~= peers);
        count
    }

    fn try_advance_commit(&mut self)
        requires
            old(self)@.config.peers.len() < usize::MAX,
        ensures
            final(self)@ == advanced(old(self)@),
    {
        let ghost before = self@;
        let size: usize = self.config.peers.len() + 1;
        let old_commit = self.commit_index;
        let last = self.log.last_index();
        let mut n: u64 = old_commit;
        let mut commit: u64 = old_commit;
        while n < last
            invariant
                self@ == before,
                before.config.peers.len() < usize::MAX,
                size == cluster_size(before),
                last == log::last_index(before.log),
                before.commit_index == old_commit <= n,
                n <= last || n == old_commit,
                commit == commit_through(before, n),
                old_commit <= commit <= n,
            decreases last - n,
        {
            n = n + 1;
            if self.log.term_at(n) == Some(self.current_term) {
                if self.count_with(n) > size / 2 {
                    commit = n;
                }
            }
        }
        proof {
            if last < old_commit {
                assert(commit_through(before, last) == old_commit);
            }
        }
        self.commit_index = commit;
        self.apply_committed();
        if self.commit_index > old_commit {
            self.replicate_to_all();
        }
    }

    fn append_own(&mut self, command: Command) -> (index: u64)
        requires
            old(self)@.config.peers.len() < usize::MAX,
            log::last_index(old(self)@.log) < u64::MAX,
        ensures
            index == log::last_index(old(self)@.log) + 1,
            final(self)@ == appended(old(self)@, command@),
    {
        let index = self.log.last_index() + 1;
        let entry = LogEntry { index, term: self.current_term, command };
        self.log.append(entry);
        self.replicate_to_all();
        if self.config.peers.len() == 0 {
            self.try_advance_commit();
        }
        index
    }

    fn become_leader(&mut self)
        requires
            old(self)@.config.peers.len() < usize::MAX,
            log::last_index(old(self)@.log) < u64::MAX,
        ensures
            final(self)@ == leading(old(self)@),
    {
        self.role = NodeRole::Leader;
        self.leader_id = Some(self.config.id.clone());
        let next = self.log.last_index() + 1;
        set_all(&mut self.next_index, &self.config.peers, next);
        set_all(&mut self.match_index, &self.config.peers, 0);
        self.append_own(Command::Noop);
    }

    fn start_election(&mut self, deadline: u64)
        requires
            old(self)@.config.peers.len() < usize::MAX,
            old(self)@.current_term < u64::MAX,
            old(self)@.config.peers.len() == 0 ==> log::last_index(old(self)@.log) < u64::MAX,
        ensures
            final(self)@ == standing(old(self)@, deadline),
    {
        self.current_term = self.current_term + 1;
        self.role = NodeRole::Candidate;
        self.voted_for = Some(self.config.id.clone());
        self.votes_received = 1;
        self.election_deadline = deadline;
        let ghost candidate = self@;
        let ghost requests = Seq::new(
            candidate.config.peers.len(),
            |i: int|
                (candidate.config.peers[i], MessageView::RequestVote(vote_request(candidate))),
        );
        let req = VoteRequest {
            term: self.current_term,
            candidate_id: self.config.id.clone(),
            last_log_index: self.log.last_index(),
            last_log_term: self.log.last_term(),
        };
        let n = self.config.peers.len();
        let mut i: usize = 0;
        assert(candidate.outbox + requests.take(0) =~= candidate.outbox);
        while i < n
            invariant
                i <= n == self.config.peers@.len(),
                requests == Seq::new(
                    candidate.config.peers.len(),
                    |i: int|
                        (
                            candidate.config.peers[i],
                            MessageView::RequestVote(vote_request(candidate)),
                        ),
                ),
                req@ == vote_request(candidate),
                self@ == (NodeState {
                    outbox: candidate.outbox + requests.take(i as int),
                    ..candidate
                }),
            decreases n - i,
        {
            let peer = self.config.peers[i].clone();
            self.send(peer.as_str(), RaftMessage::RequestVote(req.clone()));
            proof {
                assert(candidate.config.peers[i as int] == peer@);
                assert(requests.take(i + 1) =~= requests.take(i as int).push(requests[i as int]));
                assert(candidate.outbox + requests.take(i + 1) =~= (candidate.outbox
                    + requests.take(i as int)).push(requests[i as int]));
            }
            i = i + 1;
        }
        assert(requests.take(n as int) =~= requests);
        proof {
            let before = old(self)@;
            assert(requests =~= Seq::new(
                before.config.peers.len(),
                |i: int| (before.config.peers[i], MessageView::RequestVote(vote_request(candidate))),
            ));
        }
        if n == 0 {
            self.become_leader();
        }
    }

    fn reply_to_append(&mut self, leader_id: &str, success: bool, match_index: u64)
        ensures
            final(self)@ == sent(
                old(self)@,
                leader_id@,
                append_reply(old(self)@, success, match_index),
            ),
    {
        let msg = RaftMessage::AppendEntriesReply(
            AppendEntriesResponse {
                term: self.current_term,
                success,
                match_index,
                from: self.config.id.clone(),
            },
        );
        self.send(leader_id, msg);
    }

    fn handle_append_entries(&mut self, req: AppendEntriesRequest, deadline: u64)
        ensures
            final(self)@ == after_append_entries(old(self)@, req@, deadline),
    {
        if req.term < self.current_term {
            self.reply_to_append(req.leader_id.as_str(), false, 0);
            return;
        }
        self.maybe_step_down(req.term, deadline);
        self.leader_id = Some(req.leader_id.clone());
        self.election_deadline = deadline;
        if req.prev_log_index > 0 {
            match self.log.term_at(req.prev_log_index) {
                Some(term) => {
                    if term != req.prev_log_term {
                        self.log.truncate_from(req.prev_log_index);
                        self.reply_to_append(req.leader_id.as_str(), false, 0);
                        return;
                    }
                },
                None => {
                    if req.prev_log_index > self.log.snapshot_last_index() {
                        self.reply_to_append(req.leader_id.as_str(), false, 0);
                        return;
                    }
                },
            }
        }
        if req.entries.len() > 0 {
            self.log.append_entries(req.prev_log_index, req.entries);
        }
        let last = self.log.last_index();
        if req.leader_commit > self.commit_index {
            self.commit_index = if req.leader_commit < last {
                req.leader_commit
            } else {
                last
            };
            self.apply_committed();
        }
        self.reply_to_append(req.leader_id.as_str(), true, last);
    }

    fn handle_append_entries_response(&mut self, resp: AppendEntriesResponse, deadline: u64)
        requires
            old(self)@.config.peers.len() < usize::MAX,
            message_fits(old(self)@, MessageView::AppendEntriesReply(resp@)),
        ensures
            final(self)@ == after_append_reply(old(self)@, resp@, deadline),
    {
        if resp.term > self.current_term {
            self.maybe_step_down(resp.term, deadline);
            return;
        }
        if self.role != NodeRole::Leader || (resp.success && resp.term < self.current_term) {
            return;
        }
        if resp.success {
            self.next_index.insert(resp.from.clone(), resp.match_index + 1);
            self.match_index.insert(resp.from, resp.match_index);
            self.try_advance_commit();
        } else {
            let next = self.next_of(&resp.from);
            let back: u64 = if next > 1 {
                next - 1
            } else {
                1
            };
            self.next_index.insert(resp.from.clone(), back);
            self.replicate_to(&resp.from);
        }
    }

    fn has_voted_for(&self, candidate: &String) -> (r: bool)
        ensures
            r == (self@.voted_for == Some(candidate@)),
    {
        match &self.voted_for {
            Some(voted) => *voted == *candidate,
            None => false,
        }
    }

    fn reply_to_vote(&mut self, candidate_id: &str, vote_granted: bool)
        ensures
            final(self)@ == sent(
                old(self)@,
                candidate_id@,
                MessageView::RequestVoteReply(
                    VoteResponseView {
                        term: old(self)@.current_term,
                        vote_granted,
                        from: old(self)@.config.id,
                    },
                ),
            ),
    {
        let msg = RaftMessage::RequestVoteReply(
            VoteResponse {
                term: self.current_term,
                vote_granted,
                from: self.config.id.clone(),
            },
        );
        self.send(candidate_id, msg);
    }

    fn handle_request_vote(&mut self, req: VoteRequest, deadline: u64)
        ensures
            final(self)@ == after_vote_request(old(self)@, req@, deadline),
    {
        if req.term < self.current_term {
            self.reply_to_vote(req.candidate_id.as_str(), false);
            return;
        }
        self.maybe_step_down(req.term, deadline);
        let can_vote = self.voted_for.is_none() || self.has_voted_for(&req.candidate_id);
        let log_up_to_date = req.last_log_term > self.log.last_term() || (req.last_log_term
            == self.log.last_term() && req.last_log_index >= self.log.last_index());
        let grant = can_vote && log_up_to_date;
        if grant {
            self.voted_for = Some(req.candidate_id.clone());
            self.election_deadline = deadline;
        }
        self.reply_to_vote(req.candidate_id.as_str(), grant);
    }

    fn quorum_size(&self) -> (r: usize)
        requires
            self@.config.peers.len() < usize::MAX,
        ensures
            r == quorum_size(self@),
    {
        (self.config.peers.len() + 1) / 2 + 1
    }

    fn handle_vote_response(&mut self, resp: VoteResponse, deadline: u64)
        requires
            sound(old(self)@),
            message_fits(old(self)@, MessageView::RequestVoteReply(resp@)),
        ensures
            final(self)@ == after_vote_reply(old(self)@, resp@, deadline),
    {
        if resp.term > self.current_term {
            self.maybe_step_down(resp.term, deadline);
            return;
        }
        if self.role != NodeRole::Candidate || resp.term != self.current_term {
            return;
        }
        if resp.vote_granted {
            self.votes_received = self.votes_received + 1;
            if self.votes_received >= self.quorum_size() {
                self.become_leader();
            }
        }
    }

    fn reply_to_snapshot(&mut self, leader_id: &str)
        ensures
            final(self)@ == sent(
                old(self)@,
                leader_id@,
                MessageView::InstallSnapshotReply(
                    InstallSnapshotResponseView {
                        term: old(self)@.current_term,
                        from: old(self)@.config.id,
                    },
                ),
            ),
    {
        let msg = RaftMessage::InstallSnapshotReply(
            InstallSnapshotResponse { term: self.current_term, from: self.config.id.clone() },
        );
        self.send(leader_id, msg);
    }

    fn handle_install_snapshot(&mut self, req: InstallSnapshotRequest, deadline: u64)
        ensures
            final(self)@ == after_snapshot(old(self)@, req@, deadline),
    {
        if req.term < self.current_term {
            self.reply_to_snapshot(req.leader_id.as_str());
            return;
        }
        self.maybe_step_down(req.term, deadline);
        self.leader_id = Some(req.leader_id.clone());
        self.election_deadline = deadline;
        match req.data {
            Some(snapshot) => {
                if self.log.snapshot_last_index() <= req.last_included_index {
                    self.state_machine.restore(snapshot);
                    self.log.compact(req.last_included_index, req.last_included_term);
                    self.log.set_snapshot_meta(req.last_included_index, req.last_included_term);
                    if self.commit_index < req.last_included_index {
                        self.commit_index = req.last_included_index;
                    }
                    self.last_applied = req.last_included_index;
                }
            },
            None => {},
        }
        self.reply_to_snapshot(req.leader_id.as_str());
    }

    fn handle_install_snapshot_response(&mut self, resp: InstallSnapshotResponse, deadline: u64)
        ensures
            final(self)@ == stepped_down(old(self)@, resp.term, deadline),
    {
        if resp.term > self.current_term {
            self.maybe_step_down(resp.term, deadline);
        }
    }

    fn handle(&mut self, msg: RaftMessage, deadline: u64)
        requires
            sound(old(self)@),
            message_fits(old(self)@, msg@),
        ensures
            final(self)@ == after_message(old(self)@, msg@, deadline),
    {
        match msg {
            RaftMessage::AppendEntries(req) => self.handle_append_entries(req, deadline),
            RaftMessage::AppendEntriesReply(resp) => {
                self.handle_append_entries_response(resp, deadline)
            },
            RaftMessage::RequestVote(req) => self.handle_request_vote(req, deadline),
            RaftMessage::RequestVoteReply(resp) => self.handle_vote_response(resp, deadline),
            RaftMessage::InstallSnapshot(req) => self.handle_install_snapshot(req, deadline),
            RaftMessage::InstallSnapshotReply(resp) => {
                self.handle_install_snapshot_response(resp, deadline)
            },
        }
    }

    fn tick(&mut self, now: u64, deadline: u64)
        requires
            sound(old(self)@),
            tick_fits(old(self)@, now),
        ensures
            final(self)@ == after_tick(old(self)@, now, deadline),
    {
        match self.role {
            NodeRole::Leader => {
                self.replicate_to_all();
            },
            _ => {
                if now >= self.election_deadline {
                    self.start_election(deadline);
                }
            },
        }
    }
}

proof fn lemma_message_keeps_sound(s: NodeState, msg: MessageView, deadline: u64)
    requires
        sound(s),
    ensures
        sound(after_message(s, msg, deadline)),
        after_message(s, msg, deadline).config == s.config,
{
}

proof fn lemma_tick_keeps_sound(s: NodeState, now: u64, deadline: u64)
    requires
        sound(s),
    ensures
        sound(after_tick(s, now, deadline)),
        after_tick(s, now, deadline).config == s.config,
{
}

/// A node of the cluster.
pub struct RaftNode {
    core: Core,
}

impl View for RaftNode {
    type V = NodeState;

    closed spec fn view(&self) -> NodeState {
        self.core@
    }
}

impl RaftNode {
    #[verifier::type_invariant]
    spec fn inv(self) -> bool {
        sound(self.core@)
    }

    /// Starts a node at the time `now`.
    pub fn new(config: RaftConfig, now: u64) -> (r: Self)
        requires
            config@.peers.len() < usize::MAX,
            config@.election_timeout_min <= config@.election_timeout_max,
            now + config@.election_timeout_max <= u64::MAX,
        ensures
            exists|deadline: u64| #[trigger]
                possible_deadline(config@, now, deadline) && r@ == started(config@, deadline),
    {
        let deadline = random_election_deadline(
            now,
            config.election_timeout_min,
            config.election_timeout_max,
        );
        assert(possible_deadline(config@, now, deadline));
        RaftNode::start(config, deadline)
    }

    /// Starts a node that stands for election at `deadline`.
    pub fn start(config: RaftConfig, deadline: u64) -> (r: Self)
        requires
            config@.peers.len() < usize::MAX,
            config@.election_timeout_min <= config@.election_timeout_max,
        ensures
            r@ == started(config@, deadline),
    {
        RaftNode { core: Core::start(config, deadline) }
    }

    /// The node's id.
    pub fn id(&self) -> (r: &str)
        ensures
            r@ == self@.config.id,
    {
        self.core.config.id.as_str()
    }

    /// What the node takes itself for.
    pub fn role(&self) -> (r: NodeRole)
        ensures
            r == self@.role,
    {
        self.core.role
    }

    /// The term that the node is in.
    pub fn term(&self) -> (r: u64)
        ensures
            r == self@.current_term,
    {
        self.core.current_term
    }

    /// The leader that the node knows.
    pub fn leader_id(&self) -> (r: Option<&str>)
        ensures
            r is Some <==> self@.leader_id is Some,
            r matches Some(id) ==> self@.leader_id == Some(id@),
    {
        match &self.core.leader_id {
            Some(id) => Some(id.as_str()),
            None => None,
        }
    }

    /// The index through which the log is committed.
    pub fn commit_index(&self) -> (r: u64)
        ensures
            r == self@.commit_index,
    {
        self.core.commit_index
    }

    /// The index of the last entry of the log.
    pub fn last_log_index(&self) -> (r: u64)
        ensures
            r == log::last_index(self@.log),
    {
        self.core.log.last_index()
    }

    /// The state machine.
    pub fn state_machine(&self) -> (r: &StateMachine)
        ensures
            r@ == self@.machine,
    {
        &self.core.state_machine
    }

    /// Takes the messages that are to be sent, with their addressees.
    pub fn take_outbox(&mut self) -> (r: Vec<(String, RaftMessage)>)
        ensures
            message::outbox_view(r@) == old(self)@.outbox,
            final(self)@ == (NodeState { outbox: Seq::empty(), ..old(self)@ }),
    {
        proof {
            use_type_invariant(&*self);
        }
        let mut taken: Vec<(String, RaftMessage)> = Vec::new();
        let mut core = RaftNode::take_core(self);
        std::mem::swap(&mut taken, &mut core.outbox);
        assert(core@.outbox =~= Seq::<(Seq<char>, MessageView)>::empty());
        self.core = core;
        taken
    }

    fn take_core(&mut self) -> (r: Core)
        ensures
            r@ == old(self)@,
    {
        let mut core = Core::start(RaftConfig::new("", Vec::new()), 0);
        std::mem::swap(&mut core, &mut self.core);
        core
    }

    /// Asks the node to put a change into the log. Only a leader does; the result is the
    /// index of the entry. Any other node names the leader that it knows.
    pub fn propose(&mut self, op: CrdtOp) -> (r: Result<u64, RaftError>)
        requires
            old(self)@.role == NodeRole::Leader ==> log::last_index(old(self)@.log) < u64::MAX,
        ensures
            final(self)@ == after_proposal(old(self)@, op@),
            r is Ok <==> old(self)@.role == NodeRole::Leader,
            r matches Ok(index) ==> index == log::last_index(old(self)@.log) + 1,
            r matches Err(e) ==> (e matches RaftError::NotLeader { leader } && optional_text(leader)
                == old(self)@.leader_id),
    {
        proof {
            use_type_invariant(&*self);
        }
        match self.core.role {
            NodeRole::Leader => {
                let mut core = RaftNode::take_core(self);
                let index = core.append_own(Command::CrdtOp(op));
                self.core = core;
                Ok(index)
            },
            _ => Err(RaftError::NotLeader { leader: self.core.leader_id.clone() }),
        }
    }

    /// Lets the node see the time.
    pub fn tick(&mut self, now: u64)
        requires
            tick_fits(old(self)@, now),
            now + old(self)@.config.election_timeout_max <= u64::MAX,
        ensures
            exists|deadline: u64| #[trigger]
                possible_deadline(old(self)@.config, now, deadline) && final(self)@ == after_tick(
                    old(self)@,
                    now,
                    deadline,
                ),
    {
        proof {
            use_type_invariant(&*self);
        }
        let deadline = self.draw_deadline(now);
        self.tick_with(now, deadline);
    }

    /// Lets the node see the time. `deadline` is when it stands for election next,
    /// should it stand now.
    pub fn tick_with(&mut self, now: u64, deadline: u64)
        requires
            tick_fits(old(self)@, now),
        ensures
            final(self)@ == after_tick(old(self)@, now, deadline),
    {
        proof {
            use_type_invariant(&*self);
            lemma_tick_keeps_sound(self@, now, deadline);
        }
        let mut core = RaftNode::take_core(self);
        core.tick(now, deadline);
        self.core = core;
    }

    fn draw_deadline(&self, now: u64) -> (r: u64)
        requires
            now + self@.config.election_timeout_max <= u64::MAX,
        ensures
            possible_deadline(self@.config, now, r),
    {
        proof {
            use_type_invariant(self);
        }
        random_election_deadline(
            now,
            self.core.config.election_timeout_min,
            self.core.config.election_timeout_max,
        )
    }

    /// Hands the node a message that arrives at the time `now`.
    pub fn handle_message(&mut self, msg: RaftMessage, now: u64)
        requires
            message_fits(old(self)@, msg@),
            now + old(self)@.config.election_timeout_max <= u64::MAX,
        ensures
            exists|deadline: u64| #[trigger]
                possible_deadline(old(self)@.config, now, deadline) && final(self)@
                    == after_message(old(self)@, msg@, deadline),
    {
        let deadline = self.draw_deadline(now);
        self.receive(msg, deadline);
    }

    /// Hands the node a message. `deadline` is when it stands for election next, should
    /// the message put that off.
    pub fn receive(&mut self, msg: RaftMessage, deadline: u64)
        requires
            message_fits(old(self)@, msg@),
        ensures
            final(self)@ == after_message(old(self)@, msg@, deadline),
    {
        proof {
            use_type_invariant(&*self);
            lemma_message_keeps_sound(self@, msg@, deadline);
        }
        let mut core = RaftNode::take_core(self);
        core.handle(msg, deadline);
        self.core = core;
    }

    /// Whether the node can take a proposal, as far as the size of numbers goes.
    pub fn proposal_fits(&self) -> (r: bool)
        ensures
            r == (self@.role == NodeRole::Leader ==> log::last_index(self@.log) < u64::MAX),
    {
        match self.core.role {
            NodeRole::Leader => self.core.log.last_index() < u64::MAX,
            _ => true,
        }
    }

    /// Whether the node can see the time `now`, as far as the size of numbers goes.
    pub fn tick_fits(&self, now: u64) -> (r: bool)
        ensures
            r == (tick_fits(self@, now) && now + self@.config.election_timeout_max <= u64::MAX),
    {
        if now > u64::MAX - self.core.config.election_timeout_max {
            return false;
        }
        match self.core.role {
            NodeRole::Leader => true,
            _ => now < self.core.election_deadline || (self.core.current_term < u64::MAX && (
            self.core.config.peers.len() > 0 || self.core.log.last_index() < u64::MAX)),
        }
    }

    /// Whether the node can handle a message at the time `now`, as far as the size of
    /// numbers goes.
    pub fn message_fits(&self, msg: &RaftMessage, now: u64) -> (r: bool)
        ensures
            r == (message_fits(self@, msg@) && now + self@.config.election_timeout_max
                <= u64::MAX),
    {
        proof {
            use_type_invariant(self);
        }
        if now > u64::MAX - self.core.config.election_timeout_max {
            return false;
        }
        match msg {
            RaftMessage::AppendEntriesReply(resp) => self.core.role != NodeRole::Leader
                || !resp.success || resp.term != self.core.current_term || resp.match_index
                < u64::MAX,
            RaftMessage::RequestVoteReply(resp) => self.core.role != NodeRole::Candidate
                || resp.term != self.core.current_term || !resp.vote_granted
                || self.core.votes_received + 1 < self.core.quorum_size()
                || self.core.log.last_index() < u64::MAX,
            _ => true,
        }
    }
}

} // verus!
