//! What holds of nodes whatever reaches them, and between nodes that talk to each other.

use crate::crdt::replicas;
use crate::crdt::state;
use crate::crdt::state::CrdtOpView;
use crate::raft::log;
use crate::raft::log::{EntryView, LogView};
use crate::raft::message::{
    AppendEntriesRequestView, AppendEntriesResponseView, InstallSnapshotRequestView, MessageView,
    VoteRequestView,
};
use crate::raft::node;
use crate::raft::node::{NodeRole, NodeState};
use crate::raft::state_machine;
use crate::raft::state_machine::MachineView;
use vstd::prelude::*;

verus! {

/// What can reach a node.
pub enum Event {
    Message(MessageView),
    Tick(u64),
    Proposal(CrdtOpView),
}

/// The node after an event.
pub open spec fn after_event(s: NodeState, event: Event, deadline: u64) -> NodeState {
    match event {
        Event::Message(msg) => node::after_message(s, msg, deadline),
        Event::Tick(now) => node::after_tick(s, now, deadline),
        Event::Proposal(op) => node::after_proposal(s, op),
    }
}

/// No number runs over when the node handles the event.
pub open spec fn event_fits(s: NodeState, event: Event) -> bool {
    match event {
        Event::Message(msg) => node::message_fits(s, msg),
        Event::Tick(now) => node::tick_fits(s, now),
        Event::Proposal(op) => s.role == NodeRole::Leader ==> log::last_index(s.log) < u64::MAX,
    }
}

// --- terms and votes ---

/// The term of a node never goes back.
pub proof fn law_term_never_decreases(s: NodeState, event: Event, deadline: u64)
    requires
        event_fits(s, event),
    ensures
        after_event(s, event, deadline).current_term >= s.current_term,
{
}

/// A node votes once in a term: as long as the term stays, so does the vote.
pub proof fn law_one_vote_per_term(s: NodeState, event: Event, deadline: u64)
    requires
        event_fits(s, event),
        s.voted_for is Some,
        after_event(s, event, deadline).current_term == s.current_term,
    ensures
        after_event(s, event, deadline).voted_for == s.voted_for,
{
}

/// The message grants a vote.
pub open spec fn grants(msg: MessageView) -> bool {
    msg matches MessageView::RequestVoteReply(resp) && resp.vote_granted
}

/// A node says yes only to the candidate that it has voted for, and only in the term in
/// which it has. What it said before stays said.
pub proof fn law_votes_are_kept(s: NodeState, event: Event, deadline: u64)
    requires
        event_fits(s, event),
    ensures
        s.outbox.is_prefix_of(after_event(s, event, deadline).outbox),
        forall|i: int|
            s.outbox.len() <= i < after_event(s, event, deadline).outbox.len() && grants(
                (#[trigger] after_event(s, event, deadline).outbox[i]).1,
            ) ==> {
                let t = after_event(s, event, deadline);
                let resp = t.outbox[i].1->RequestVoteReply_0;
                &&& t.voted_for == Some(t.outbox[i].0)
                &&& resp.term == t.current_term
                &&& resp.from == t.config.id
            },
{
    let t = after_event(s, event, deadline);
    assert(s.outbox =~= t.outbox.subrange(0, s.outbox.len() as int));
}

/// The election restriction: a vote goes only to a candidate whose log is at least as
/// up to date as the voter's.
pub proof fn law_votes_go_to_up_to_date_candidates(
    s: NodeState,
    req: VoteRequestView,
    deadline: u64,
)
    requires
        grants(node::after_vote_request(s, req, deadline).outbox.last().1),
    ensures
        node::up_to_date(s, req),
        req.term >= s.current_term,
        node::after_vote_request(s, req, deadline).voted_for == Some(req.candidate_id),
{
}

/// The term that a request was sent in.
pub open spec fn request_term(msg: MessageView) -> Option<u64> {
    match msg {
        MessageView::AppendEntries(req) => Some(req.term),
        MessageView::RequestVote(req) => Some(req.term),
        MessageView::InstallSnapshot(req) => Some(req.term),
        _ => None,
    }
}

/// The answer refuses what was asked.
pub open spec fn refuses(msg: MessageView) -> bool {
    match msg {
        MessageView::AppendEntriesReply(resp) => !resp.success,
        MessageView::RequestVoteReply(resp) => !resp.vote_granted,
        MessageView::InstallSnapshotReply(_) => true,
        _ => false,
    }
}

/// The term that an answer was sent in.
pub open spec fn reply_term(msg: MessageView) -> Option<u64> {
    match msg {
        MessageView::AppendEntriesReply(resp) => Some(resp.term),
        MessageView::RequestVoteReply(resp) => Some(resp.term),
        MessageView::InstallSnapshotReply(resp) => Some(resp.term),
        _ => None,
    }
}

/// A request of an earlier term is answered with the node's own term and refused, and
/// changes nothing else.
pub proof fn law_stale_requests_are_refused(s: NodeState, msg: MessageView, deadline: u64)
    requires
        request_term(msg) is Some,
        request_term(msg)->0 < s.current_term,
    ensures
        ({
            let t = node::after_message(s, msg, deadline);
            &&& t.outbox.len() == s.outbox.len() + 1
            &&& t == (NodeState { outbox: t.outbox, ..s })
            &&& t.outbox.drop_last() == s.outbox
            &&& refuses(t.outbox.last().1)
            &&& reply_term(t.outbox.last().1) == Some(s.current_term)
        }),
{
    let t = node::after_message(s, msg, deadline);
    assert(t.outbox.drop_last() =~= s.outbox);
}

/// Whatever is said in a later term makes a node a follower of that term.
pub proof fn law_later_term_makes_a_follower(s: NodeState, msg: MessageView, deadline: u64)
    requires
        request_term(msg) is Some || reply_term(msg) is Some,
        request_term(msg) is Some ==> request_term(msg)->0 > s.current_term,
        reply_term(msg) is Some ==> reply_term(msg)->0 > s.current_term,
    ensures
        node::after_message(s, msg, deadline).role == NodeRole::Follower,
        request_term(msg) is Some ==> node::after_message(s, msg, deadline).current_term
            == request_term(msg)->0,
        reply_term(msg) is Some ==> node::after_message(s, msg, deadline).current_term
            == reply_term(msg)->0,
{
}

/// The entries that a leader sends follow each other, the first one right behind the entry
/// that it names.
pub proof fn law_leader_sends_consecutive_entries(
    s: NodeState,
    peer: Seq<char>,
    req: AppendEntriesRequestView,
)
    requires
        log::contiguous(s.log),
        s.log.snapshot_last_index < node::next_of(s, peer),
        node::replication_message(s, peer) == MessageView::AppendEntries(req),
    ensures
        log::follow_each_other(req.entries, req.prev_log_index),
{
    let next = node::next_of(s, peer);
    let at = log::place(s.log, next);
    if at < s.log.entries.len() {
        assert forall|i: int| 0 <= i < req.entries.len() implies (
        #[trigger] req.entries[i]).index == req.prev_log_index + i + 1 by {
            assert(req.entries[i] == s.log.entries[at + i]);
        }
    }
}

/// A log without gaps stays without gaps, whatever reaches the node, as long as the
/// entries that a leader sends have no gaps and do not reach behind the node's own
/// snapshot.
pub proof fn law_log_stays_contiguous(s: NodeState, event: Event, deadline: u64)
    requires
        event_fits(s, event),
        log::contiguous(s.log),
        event matches Event::Message(MessageView::AppendEntries(req)) ==> {
            &&& log::follow_each_other(req.entries, req.prev_log_index)
            &&& s.log.snapshot_last_index <= req.prev_log_index
        },
    ensures
        log::contiguous(after_event(s, event, deadline).log),
{
    let t = after_event(s, event, deadline);
    match event {
        Event::Message(MessageView::AppendEntries(req)) => {
            log::law_truncate_keeps_what_is_before(s.log, req.prev_log_index);
            if req.term >= s.current_term && (req.prev_log_index == 0 || log::term_at(
                s.log,
                req.prev_log_index,
            ) == Some(req.prev_log_term)) {
                lemma_known_index(s.log, req.prev_log_index);
                log::law_entries_take_the_leaders_terms(
                    s.log,
                    req.prev_log_index,
                    req.entries,
                );
            }
        },
        Event::Message(MessageView::InstallSnapshot(req)) => {
            if s.log.snapshot_last_index < req.last_included_index {
                log::law_compact_keeps_what_is_behind(
                    s.log,
                    req.last_included_index,
                    req.last_included_term,
                );
            }
        },
        _ => {
            if t.log != s.log {
                let entry = t.log.entries.last();
                assert(t.log == log::with_appended(s.log, entry));
                log::law_append_reads_back(s.log, entry);
            }
        },
    }
}

proof fn lemma_known_index(l: LogView, index: u64)
    requires
        log::contiguous(l),
        l.snapshot_last_index <= index,
        log::term_at(l, index) is Some,
    ensures
        index <= log::last_index(l),
{
    if l.entries.len() > 0 {
        assert(l.entries[l.entries.len() - 1].index == log::last_index(l));
    }
}

/// Two groups of nodes that together outnumber the cluster have a node in common.
pub proof fn law_quorums_meet<N>(cluster: Set<N>, a: Set<N>, b: Set<N>)
    requires
        cluster.finite(),
        a.subset_of(cluster),
        b.subset_of(cluster),
        a.len() + b.len() > cluster.len(),
    ensures
        exists|n: N| #[trigger] a.contains(n) && b.contains(n),
{
    vstd::set_lib::lemma_len_subset(a, cluster);
    vstd::set_lib::lemma_len_subset(b, cluster);
    if forall|n: N| #[trigger] a.contains(n) ==> !b.contains(n) {
        assert(a.disjoint(b));
        vstd::set_lib::lemma_set_disjoint_lens(a, b);
        assert((a + b).subset_of(cluster));
        vstd::set_lib::lemma_len_subset(a + b, cluster);
    }
}

/// Leader election prevents split brain: where every node votes once, at most one
/// candidate is backed by a quorum.
pub proof fn law_one_winner_per_term<N>(
    s: NodeState,
    cluster: Set<N>,
    votes: Map<N, Seq<char>>,
    a: Seq<char>,
    b: Seq<char>,
)
    requires
        cluster.finite(),
        cluster.len() == node::cluster_size(s),
        votes.dom().subset_of(cluster),
        votes.dom().filter(|n: N| votes[n] == a).len() >= node::quorum_size(s),
        votes.dom().filter(|n: N| votes[n] == b).len() >= node::quorum_size(s),
    ensures
        a == b,
{
    let for_a = votes.dom().filter(|n: N| votes[n] == a);
    let for_b = votes.dom().filter(|n: N| votes[n] == b);
    law_quorums_meet(cluster, for_a, for_b);
    let n = choose|n: N| #[trigger] for_a.contains(n) && for_b.contains(n);
    assert(votes[n] == a && votes[n] == b);
}

/// What has been committed is known to a voter of every later leader: the nodes that
/// have a committed entry and the nodes that elect a leader have one in common.
pub proof fn law_committed_reaches_every_election<N>(
    s: NodeState,
    cluster: Set<N>,
    holders: Set<N>,
    voters: Set<N>,
)
    requires
        cluster.finite(),
        cluster.len() == node::cluster_size(s),
        holders.subset_of(cluster),
        voters.subset_of(cluster),
        holders.len() > node::cluster_size(s) / 2,
        voters.len() >= node::quorum_size(s),
    ensures
        exists|n: N| #[trigger] holders.contains(n) && voters.contains(n),
{
    law_quorums_meet(cluster, holders, voters);
}

// --- the whole life of a node ---

/// Something that happens to a node: what it had to send is taken or not, and then an
/// event reaches it.
pub struct Happening {
    pub taken: bool,
    pub event: Event,
    pub deadline: u64,
}

/// The node that the event of a happening reaches.
pub open spec fn reached(s: NodeState, h: Happening) -> NodeState {
    if h.taken {
        NodeState { outbox: Seq::empty(), ..s }
    } else {
        s
    }
}

/// The states of a node to which one thing after the other happens.
pub open spec fn is_life(states: Seq<NodeState>, life: Seq<Happening>) -> bool {
    &&& states.len() == life.len() + 1
    &&& forall|i: int|
        0 <= i < life.len() ==> {
            let s = reached(states[i], #[trigger] life[i]);
            &&& event_fits(s, life[i].event)
            &&& states[i + 1] == after_event(s, life[i].event, life[i].deadline)
        }
}

/// At its `i`-th happening the node grants `to` its vote for `term`.
pub open spec fn grants_at(
    states: Seq<NodeState>,
    life: Seq<Happening>,
    i: int,
    term: u64,
    to: Seq<char>,
) -> bool {
    let s = reached(states[i], life[i]);
    let t = states[i + 1];
    0 <= i < life.len() && exists|k: int|
        {
            &&& s.outbox.len() <= k < t.outbox.len()
            &&& (#[trigger] t.outbox[k]).0 == to
            &&& grants(t.outbox[k].1)
            &&& t.outbox[k].1->RequestVoteReply_0.term == term
        }
}

/// A candidate has voted for itself.
pub open spec fn stands_by_itself(s: NodeState) -> bool {
    s.role == NodeRole::Candidate ==> s.voted_for == Some(s.config.id)
}

proof fn lemma_event_keeps_identity(s: NodeState, event: Event, deadline: u64)
    requires
        event_fits(s, event),
    ensures
        after_event(s, event, deadline).config == s.config,
        stands_by_itself(s) ==> stands_by_itself(after_event(s, event, deadline)),
{
}

proof fn lemma_life_goes_on(states: Seq<NodeState>, life: Seq<Happening>, i: int, j: int)
    requires
        is_life(states, life),
        0 <= i <= j < states.len(),
    ensures
        states[i].current_term <= states[j].current_term,
        states[i].config == states[j].config,
        stands_by_itself(states[i]) ==> stands_by_itself(states[j]),
        states[i].voted_for is Some && states[i].current_term == states[j].current_term
            ==> states[j].voted_for == states[i].voted_for,
    decreases j - i,
{
    if i < j {
        lemma_life_goes_on(states, life, i, j - 1);
        let h = life[j - 1];
        let s = reached(states[j - 1], h);
        law_term_never_decreases(s, h.event, h.deadline);
        lemma_event_keeps_identity(s, h.event, h.deadline);
        if states[i].voted_for is Some && states[i].current_term == states[j].current_term {
            law_one_vote_per_term(s, h.event, h.deadline);
        }
    }
}

proof fn lemma_grant_is_a_vote(
    states: Seq<NodeState>,
    life: Seq<Happening>,
    i: int,
    term: u64,
    to: Seq<char>,
)
    requires
        is_life(states, life),
        grants_at(states, life, i, term, to),
    ensures
        states[i + 1].current_term == term,
        states[i + 1].voted_for == Some(to),
{
    let s = reached(states[i], life[i]);
    law_votes_are_kept(s, life[i].event, life[i].deadline);
}

/// The term of a node never goes back in its whole life.
pub proof fn law_terms_of_a_life_never_fall(
    states: Seq<NodeState>,
    life: Seq<Happening>,
    i: int,
    j: int,
)
    requires
        is_life(states, life),
        0 <= i <= j < states.len(),
    ensures
        states[i].current_term <= states[j].current_term,
{
    lemma_life_goes_on(states, life, i, j);
}

/// In its whole life a node grants its vote for a term to one candidate only, however often
/// it says so and whether or not what it said was taken in between.
pub proof fn law_one_vote_per_term_in_a_life(
    states: Seq<NodeState>,
    life: Seq<Happening>,
    i: int,
    j: int,
    term: u64,
    a: Seq<char>,
    b: Seq<char>,
)
    requires
        is_life(states, life),
        grants_at(states, life, i, term, a),
        grants_at(states, life, j, term, b),
    ensures
        a == b,
{
    lemma_grant_is_a_vote(states, life, i, term, a);
    lemma_grant_is_a_vote(states, life, j, term, b);
    if i <= j {
        lemma_life_goes_on(states, life, i + 1, j + 1);
    } else {
        lemma_life_goes_on(states, life, j + 1, i + 1);
    }
}

/// In a term in which a node stands as candidate it grants its vote to nobody else.
pub proof fn law_candidates_vote_for_themselves(
    states: Seq<NodeState>,
    life: Seq<Happening>,
    i: int,
    j: int,
    to: Seq<char>,
)
    requires
        is_life(states, life),
        stands_by_itself(states[0]),
        0 <= i < states.len(),
        states[i].role == NodeRole::Candidate,
        grants_at(states, life, j, states[i].current_term, to),
    ensures
        to == states[0].config.id,
{
    let term = states[i].current_term;
    lemma_life_goes_on(states, life, 0, i);
    lemma_grant_is_a_vote(states, life, j, term, to);
    if i <= j + 1 {
        lemma_life_goes_on(states, life, i, j + 1);
    } else {
        lemma_life_goes_on(states, life, j + 1, i);
    }
}

// --- the log and the commit index ---

/// The event is a request of the leader that the node heeds.
pub open spec fn heeds_leader(s: NodeState, event: Event) -> bool {
    match event {
        Event::Message(MessageView::AppendEntries(req)) => req.term >= s.current_term,
        Event::Message(MessageView::InstallSnapshot(req)) => req.term >= s.current_term,
        _ => false,
    }
}

/// The log only grows at its end, unless a leader that the node heeds says otherwise. So
/// a leader never takes back an entry of its own.
pub proof fn law_log_only_grows(s: NodeState, event: Event, deadline: u64)
    requires
        event_fits(s, event),
        !heeds_leader(s, event),
    ensures
        s.log.entries.is_prefix_of(after_event(s, event, deadline).log.entries),
        s.log.snapshot_last_index == after_event(s, event, deadline).log.snapshot_last_index,
        s.log.snapshot_last_term == after_event(s, event, deadline).log.snapshot_last_term,
{
    let t = after_event(s, event, deadline);
    assert(s.log.entries =~= t.log.entries.subrange(0, s.log.entries.len() as int));
}

pub(super) proof fn lemma_commit_through(s: NodeState, upto: u64)
    ensures
        node::commit_through(s, upto) >= s.commit_index,
        node::commit_through(s, upto) > s.commit_index ==> node::can_commit(
            s,
            node::commit_through(s, upto),
        ) && node::commit_through(s, upto) <= upto,
        forall|n: u64|
            node::commit_through(s, upto) < n <= upto ==> !#[trigger] node::can_commit(s, n),
    decreases upto,
{
    if upto > s.commit_index && !node::can_commit(s, upto) {
        lemma_commit_through(s, (upto - 1) as u64);
    }
}

/// The commit rule. When a leader hears that a peer has the log through an index, it
/// commits through the highest index whose entry is of its own term and which more than
/// half of the cluster has; it commits nothing else.
pub proof fn law_commit_rule(s: NodeState, resp: AppendEntriesResponseView, deadline: u64)
    requires
        s.role == NodeRole::Leader,
        resp.term == s.current_term,
        resp.success,
        resp.match_index < u64::MAX,
    ensures
        ({
            let t = node::after_append_reply(s, resp, deadline);
            &&& t.log == s.log
            &&& t.commit_index >= s.commit_index
            &&& t.commit_index > s.commit_index ==> {
                &&& t.commit_index <= log::last_index(s.log)
                &&& log::term_at(s.log, t.commit_index) == Some(s.current_term)
                &&& 1 + node::peers_with(t, t.config.peers, t.commit_index) > node::cluster_size(t)
                    / 2
            }
            &&& forall|n: u64|
                t.commit_index < n <= log::last_index(s.log) ==> !#[trigger] node::can_commit(t, n)
        }),
{
    let heard = NodeState {
        next_index: s.next_index.insert(resp.from, (resp.match_index + 1) as u64),
        match_index: s.match_index.insert(resp.from, resp.match_index),
        ..s
    };
    let t = node::after_append_reply(s, resp, deadline);
    lemma_commit_through(heard, log::last_index(s.log));
    assert forall|n: u64| #[trigger] node::can_commit(t, n) == node::can_commit(heard, n) by {
        lemma_peers_with(t, heard, t.config.peers, n);
    }
    if t.commit_index > s.commit_index {
        assert(node::can_commit(t, t.commit_index));
    }
}

pub(super) proof fn lemma_peers_with(s: NodeState, t: NodeState, peers: Seq<Seq<char>>, n: u64)
    requires
        s.match_index == t.match_index,
    ensures
        node::peers_with(s, peers, n) == node::peers_with(t, peers, n),
    decreases peers.len(),
{
    if peers.len() > 0 {
        lemma_peers_with(s, t, peers.drop_last(), n);
    }
}

/// The commit index never goes back, as long as a leader that the node heeds leaves it a
/// log that reaches that far.
pub proof fn law_commit_never_goes_back(s: NodeState, event: Event, deadline: u64)
    requires
        event_fits(s, event),
        heeds_leader(s, event) ==> s.commit_index <= log::last_index(
            after_event(s, event, deadline).log,
        ),
    ensures
        after_event(s, event, deadline).commit_index >= s.commit_index,
{
    match event {
        Event::Message(MessageView::AppendEntriesReply(resp)) => {
            let heard = NodeState {
                next_index: s.next_index.insert(resp.from, (resp.match_index + 1) as u64),
                match_index: s.match_index.insert(resp.from, resp.match_index),
                ..s
            };
            lemma_commit_through(heard, log::last_index(s.log));
        },
        Event::Message(MessageView::RequestVoteReply(resp)) => {
            lemma_leading_keeps_commit(
                NodeState { votes_received: (s.votes_received + 1) as usize, ..s },
            );
        },
        Event::Tick(now) => {
            let candidate = NodeState {
                current_term: (s.current_term + 1) as u64,
                role: NodeRole::Candidate,
                voted_for: Some(s.config.id),
                votes_received: 1,
                election_deadline: deadline,
                ..s
            };
            let asked = NodeState {
                outbox: candidate.outbox + Seq::new(
                    s.config.peers.len(),
                    |i: int|
                        (
                            s.config.peers[i],
                            MessageView::RequestVote(node::vote_request(candidate)),
                        ),
                ),
                ..candidate
            };
            lemma_leading_keeps_commit(asked);
        },
        Event::Proposal(op) => {
            lemma_appended_keeps_commit(s, log::CommandView::CrdtOp(op));
        },
        _ => {},
    }
}

proof fn lemma_appended_keeps_commit(s: NodeState, command: log::CommandView)
    ensures
        node::appended(s, command).commit_index >= s.commit_index,
{
    let grown = node::replicated(
        NodeState {
            log: log::with_appended(
                s.log,
                EntryView {
                    index: (log::last_index(s.log) + 1) as u64,
                    term: s.current_term,
                    command,
                },
            ),
            ..s
        },
    );
    lemma_commit_through(grown, log::last_index(grown.log));
}

proof fn lemma_leading_keeps_commit(s: NodeState)
    ensures
        node::leading(s).commit_index >= s.commit_index,
{
    let next = (log::last_index(s.log) + 1) as u64;
    lemma_appended_keeps_commit(
        NodeState {
            role: NodeRole::Leader,
            leader_id: Some(s.config.id),
            next_index: node::with_all(s.next_index, s.config.peers, next),
            match_index: node::with_all(s.match_index, s.config.peers, 0),
            ..s
        },
        log::CommandView::Noop,
    );
}

/// A cluster of one commits what its leader appends at once.
pub proof fn law_single_node_commits_at_once(s: NodeState, op: CrdtOpView)
    requires
        s.role == NodeRole::Leader,
        s.config.peers.len() == 0,
        log::contiguous(s.log),
        log::last_index(s.log) < u64::MAX,
        s.commit_index <= log::last_index(s.log),
    ensures
        node::after_proposal(s, op).commit_index == log::last_index(s.log) + 1,
        s.last_applied <= s.commit_index ==> node::after_proposal(s, op).last_applied
            == log::last_index(s.log) + 1,
{
    let entry = EntryView {
        index: (log::last_index(s.log) + 1) as u64,
        term: s.current_term,
        command: log::CommandView::CrdtOp(op),
    };
    log::law_append_reads_back(s.log, entry);
    let grown = node::replicated(NodeState { log: log::with_appended(s.log, entry), ..s });
    assert(log::entry_at(grown.log, entry.index) == Some(entry));
    assert(node::peers_with(grown, grown.config.peers, entry.index) == 0);
    assert(node::can_commit(grown, entry.index));
}

/// A node that is alone in its cluster and has applied all of its log.
pub open spec fn alone_and_current(s: NodeState) -> bool {
    &&& s.role == NodeRole::Leader
    &&& s.config.peers.len() == 0
    &&& log::contiguous(s.log)
    &&& log::last_index(s.log) < u64::MAX
    &&& s.commit_index == log::last_index(s.log)
    &&& s.last_applied == s.commit_index
    &&& s.machine.last_applied <= s.last_applied
}

/// A cluster of one applies what its leader appends at once, and is then current again,
/// as long as its log has room.
pub proof fn law_single_node_applies_at_once(s: NodeState, op: CrdtOpView)
    requires
        alone_and_current(s),
    ensures
        node::after_proposal(s, op).machine.state == state::state_apply(s.machine.state, op),
        log::last_index(s.log) + 1 < u64::MAX ==> alone_and_current(node::after_proposal(s, op)),
{
    let t = node::after_proposal(s, op);
    let entry = EntryView {
        index: (log::last_index(s.log) + 1) as u64,
        term: s.current_term,
        command: log::CommandView::CrdtOp(op),
    };
    law_single_node_commits_at_once(s, op);
    log::law_append_reads_back(s.log, entry);
    assert(t.log == log::with_appended(s.log, entry));
    assert(node::machine_through(t.log, s.machine, s.last_applied, s.last_applied) == s.machine);
    assert(log::entry_at(t.log, entry.index) == Some(entry));
    assert(t.machine == node::machine_step(t.log, s.machine, entry.index));
}

// --- from the log to the state ---

/// The node's state is what the entries of a whole log make of an empty one, through an
/// index that the node has reached at least.
pub open spec fn reflects_through(s: NodeState, whole: LogView, upto: u64) -> bool {
    &&& s.last_applied <= upto
    &&& s.machine == node::machine_through(whole, state_machine::new_machine(), 0, upto)
}

/// The node's state is what the entries of a whole log make of an empty one, through the
/// last entry that it applied.
pub open spec fn reflects(s: NodeState, whole: LogView) -> bool {
    reflects_through(s, whole, s.last_applied)
}

/// The node's state is what the entries of its own log make of an empty one.
pub open spec fn reflects_log(s: NodeState) -> bool {
    reflects(s, s.log)
}

/// The two logs have the same entries through an index.
pub open spec fn agree_through(a: LogView, b: LogView, index: u64) -> bool {
    forall|i: u64|
        1 <= i <= index ==> #[trigger] log::entry_at(a, i) == #[trigger] log::entry_at(b, i)
}

proof fn lemma_machine_through_agrees(a: LogView, b: LogView, m: MachineView, to: u64)
    requires
        agree_through(a, b, to),
    ensures
        node::machine_through(a, m, 0, to) == node::machine_through(b, m, 0, to),
    decreases to,
{
    if to > 0 {
        assert(agree_through(a, b, (to - 1) as u64));
        lemma_machine_through_agrees(a, b, m, (to - 1) as u64);
        assert(log::entry_at(a, to) == log::entry_at(b, to));
    }
}

proof fn lemma_machine_through_in_parts(log: LogView, m: MachineView, mid: u64, to: u64)
    requires
        mid <= to,
    ensures
        node::machine_through(log, m, 0, to) == node::machine_through(
            log,
            node::machine_through(log, m, 0, mid),
            mid,
            to,
        ),
    decreases to,
{
    if mid < to {
        lemma_machine_through_in_parts(log, m, mid, (to - 1) as u64);
    }
}

/// Nodes that have applied the same part of the same log hold the same state.
pub proof fn law_same_log_same_state(a: NodeState, b: NodeState)
    requires
        reflects_log(a),
        reflects_log(b),
        a.last_applied == b.last_applied,
        agree_through(a.log, b.log, a.last_applied),
    ensures
        a.machine == b.machine,
{
    lemma_machine_through_agrees(
        a.log,
        b.log,
        state_machine::new_machine(),
        a.last_applied,
    );
}

proof fn lemma_applied_reflects(s: NodeState, whole: LogView)
    requires
        reflects(s, whole),
        forall|i: u64|
            s.last_applied < i <= s.commit_index ==> #[trigger] log::entry_at(s.log, i)
                == log::entry_at(whole, i),
    ensures
        reflects(node::applied(s), whole),
{
    if s.last_applied < s.commit_index {
        lemma_machine_through_in_parts(
            whole,
            state_machine::new_machine(),
            s.last_applied,
            s.commit_index,
        );
        lemma_same_entries_same_steps(
            s.log,
            whole,
            s.machine,
            s.last_applied,
            s.commit_index,
        );
    }
}

proof fn lemma_same_entries_same_steps(a: LogView, b: LogView, m: MachineView, from: u64, to: u64)
    requires
        forall|i: u64|
            from < i <= to ==> #[trigger] log::entry_at(a, i) == log::entry_at(b, i),
    ensures
        node::machine_through(a, m, from, to) == node::machine_through(b, m, from, to),
    decreases to,
{
    if to > from {
        lemma_same_entries_same_steps(a, b, m, from, (to - 1) as u64);
        assert(log::entry_at(a, to) == log::entry_at(b, to));
    }
}

/// The event installs a snapshot.
pub open spec fn installs(s: NodeState, event: Event) -> bool {
    event matches Event::Message(MessageView::InstallSnapshot(req)) && req.term >= s.current_term
        && node::takes_snapshot(s, req)
}

proof fn lemma_state_reflects_exactly(s: NodeState, event: Event, deadline: u64, whole: LogView)
    requires
        event_fits(s, event),
        reflects(s, whole),
        !installs(s, event),
        forall|i: u64|
            s.last_applied < i <= after_event(s, event, deadline).last_applied
                ==> #[trigger] log::entry_at(after_event(s, event, deadline).log, i)
                == log::entry_at(whole, i),
    ensures
        reflects(after_event(s, event, deadline), whole),
{
    let t = after_event(s, event, deadline);
    if !(t.last_applied == s.last_applied && t.machine == s.machine) {
        let ready = NodeState { log: t.log, commit_index: t.commit_index, ..s };
        assert(reflects(ready, whole));
        assert(t.last_applied == node::applied(ready).last_applied);
        assert(t.machine == node::applied(ready).machine);
        if ready.last_applied < ready.commit_index {
            lemma_applied_reflects(ready, whole);
        }
    }
}

proof fn lemma_reaches(whole: LogView, i: u64, upto: u64)
    requires
        1 <= i <= upto,
        log::entry_at(whole, i) is Some,
    ensures
        node::machine_through(whole, state_machine::new_machine(), 0, upto).last_applied >= i,
    decreases upto,
{
    if i < upto {
        lemma_reaches(whole, i, (upto - 1) as u64);
    }
}

proof fn lemma_covered(whole: LogView, upto: u64, from: u64, to: u64)
    requires
        to <= upto,
    ensures
        ({
            let m = node::machine_through(whole, state_machine::new_machine(), 0, upto);
            node::machine_through(whole, m, from, to) == m
        }),
    decreases to,
{
    if to > from {
        lemma_covered(whole, upto, from, (to - 1) as u64);
        if log::entry_at(whole, to) is Some {
            lemma_reaches(whole, to, upto);
        }
    }
}

proof fn lemma_in_parts_from(l: LogView, m: MachineView, from: u64, mid: u64, to: u64)
    requires
        from <= mid <= to,
    ensures
        node::machine_through(l, m, from, to) == node::machine_through(
            l,
            node::machine_through(l, m, from, mid),
            mid,
            to,
        ),
    decreases to,
{
    if mid < to {
        lemma_in_parts_from(l, m, from, mid, (to - 1) as u64);
    }
}

/// The node's state keeps reflecting the whole log, whatever reaches it, as long as what
/// it applies and what snapshots it installs are of the whole log. The state in a snapshot
/// may have gone on since the index that the snapshot stands for: what is then applied a
/// second time changes nothing.
pub proof fn law_state_reflects_log(
    s: NodeState,
    event: Event,
    deadline: u64,
    whole: LogView,
    upto: u64,
    taken: u64,
)
    requires
        event_fits(s, event),
        reflects_through(s, whole, upto),
        installs(s, event) ==> {
            let req = event->Message_0->InstallSnapshot_0;
            &&& req.last_included_index <= taken
            &&& req.data == Some(
                node::machine_through(whole, state_machine::new_machine(), 0, taken),
            )
        },
        !installs(s, event) ==> forall|i: u64|
            s.last_applied < i <= after_event(s, event, deadline).last_applied
                ==> #[trigger] log::entry_at(after_event(s, event, deadline).log, i)
                == log::entry_at(whole, i),
    ensures
        ({
            let t = after_event(s, event, deadline);
            reflects_through(
                t,
                whole,
                if installs(s, event) {
                    taken
                } else if t.last_applied > upto {
                    t.last_applied
                } else {
                    upto
                },
            )
        }),
{
    let t = after_event(s, event, deadline);
    if !installs(s, event) && !(t.last_applied == s.last_applied && t.machine == s.machine) {
        let ready = NodeState { log: t.log, commit_index: t.commit_index, ..s };
        assert(t.last_applied == node::applied(ready).last_applied);
        assert(t.machine == node::applied(ready).machine);
        if ready.last_applied < ready.commit_index {
            let to = ready.commit_index;
            lemma_same_entries_same_steps(t.log, whole, s.machine, s.last_applied, to);
            if to <= upto {
                lemma_covered(whole, upto, s.last_applied, to);
            } else {
                lemma_covered(whole, upto, s.last_applied, upto);
                lemma_in_parts_from(whole, s.machine, s.last_applied, upto, to);
                lemma_machine_through_in_parts(
                    whole,
                    state_machine::new_machine(),
                    upto,
                    to,
                );
            }
        }
    }
}

/// An installed snapshot takes the place of the entries that it covers: the log begins
/// behind it, and knows the index and the term that it stands for.
pub proof fn law_log_begins_behind_the_snapshot(
    s: NodeState,
    req: InstallSnapshotRequestView,
    deadline: u64,
)
    requires
        req.term >= s.current_term,
        req.data is Some,
        s.log.snapshot_last_index <= req.last_included_index,
    ensures
        ({
            let t = node::after_snapshot(s, req, deadline);
            &&& t.log.snapshot_last_index == req.last_included_index
            &&& t.log.snapshot_last_term == req.last_included_term
            &&& forall|i: u64|
                i <= req.last_included_index ==> #[trigger] log::entry_at(t.log, i) is None
            &&& t.machine == req.data->0
            &&& t.last_applied == req.last_included_index
            &&& t.commit_index >= req.last_included_index
        }),
{
}

/// What a leader sends in a snapshot is what [`law_state_reflects_log`] asks of one: the
/// state that the leader has of the whole log, for an index that it has reached.
pub proof fn law_leaders_send_snapshots_of_the_log(
    s: NodeState,
    peer: Seq<char>,
    req: InstallSnapshotRequestView,
    whole: LogView,
    upto: u64,
)
    requires
        reflects_through(s, whole, upto),
        s.log.snapshot_last_index <= upto,
        node::replication_message(s, peer) == MessageView::InstallSnapshot(req),
    ensures
        req.last_included_index <= upto,
        req.data == Some(node::machine_through(whole, state_machine::new_machine(), 0, upto)),
{
}

/// A node that holds its whole log reflects it, whatever reaches it but a snapshot, as
/// long as no leader takes back an entry that has been applied.
pub proof fn law_state_reflects_own_log(s: NodeState, event: Event, deadline: u64)
    requires
        event_fits(s, event),
        reflects_log(s),
        agree_through(s.log, after_event(s, event, deadline).log, s.last_applied),
        !installs(s, event),
    ensures
        reflects_log(after_event(s, event, deadline)),
{
    let t = after_event(s, event, deadline);
    lemma_machine_through_agrees(s.log, t.log, state_machine::new_machine(), s.last_applied);
    lemma_state_reflects_exactly(s, event, deadline, t.log);
}

/// The changes among the entries of a log, in their order, through an index.
pub open spec fn ops_through(l: LogView, to: u64) -> Seq<CrdtOpView>
    decreases to,
{
    if to == 0 {
        Seq::empty()
    } else {
        let front = ops_through(l, (to - 1) as u64);
        match log::entry_at(l, to) {
            Some(entry) => match entry.command {
                log::CommandView::CrdtOp(op) => front.push(op),
                log::CommandView::Noop => front,
            },
            None => front,
        }
    }
}

proof fn lemma_machine_replays(l: LogView, to: u64)
    ensures
        ({
            let m = node::machine_through(l, state_machine::new_machine(), 0, to);
            &&& m.state == replicas::state_replay(state::empty_state(), ops_through(l, to))
            &&& m.last_applied <= to
        }),
    decreases to,
{
    if to > 0 {
        lemma_machine_replays(l, (to - 1) as u64);
        let front = ops_through(l, (to - 1) as u64);
        if let Some(entry) = log::entry_at(l, to) {
            if let log::CommandView::CrdtOp(op) = entry.command {
                assert(front.push(op).drop_last() =~= front);
            }
        }
    }
}

/// A node that reflects a log holds the state that the changes of the log make of an empty
/// one, one after the other.
pub proof fn law_state_replays_log(s: NodeState, whole: LogView)
    requires
        reflects(s, whole),
    ensures
        s.machine.state == replicas::state_replay(
            state::empty_state(),
            ops_through(whole, s.last_applied),
        ),
{
    lemma_machine_replays(whole, s.last_applied);
}

/// A change of the log is among its changes.
pub proof fn lemma_op_is_among(l: LogView, index: u64, to: u64, op: CrdtOpView)
    requires
        1 <= index <= to,
        log::entry_at(l, index) is Some,
        log::entry_at(l, index)->0.command == log::CommandView::CrdtOp(op),
    ensures
        ops_through(l, to).contains(op),
    decreases to,
{
    let front = ops_through(l, (to - 1) as u64);
    if index == to {
        assert(front.push(op)[front.len() as int] == op);
    } else {
        lemma_op_is_among(l, index, (to - 1) as u64, op);
        let i = front.index_of(op);
        if let Some(entry) = log::entry_at(l, to) {
            if let log::CommandView::CrdtOp(last) = entry.command {
                assert(front.push(last)[i] == op);
            }
        }
    }
}

// --- between a leader and a follower ---

/// The log matching property: logs that have an entry of the same term at an index have
/// the same entries through that index.
pub open spec fn logs_match(a: LogView, b: LogView) -> bool {
    forall|i: u64|
        #![trigger log::entry_at(a, i), log::entry_at(b, i)]
        log::entry_at(a, i) is Some && log::entry_at(b, i) is Some && log::entry_at(a, i)->0.term
            == log::entry_at(b, i)->0.term ==> agree_through(a, b, i)
}

/// The follower heeds the request and finds that its log has what comes before.
pub open spec fn accepts(s: NodeState, req: AppendEntriesRequestView) -> bool {
    &&& req.term >= s.current_term
    &&& req.prev_log_index > 0 ==> log::term_at(s.log, req.prev_log_index) == Some(
        req.prev_log_term,
    )
}

proof fn lemma_entry_places(log: LogView, n: int)
    requires
        log::contiguous(log),
        log.snapshot_last_index == 0,
        0 <= n < log.entries.len(),
    ensures
        log.entries[n].index == n + 1,
        log::entry_at(log, (n + 1) as u64) == Some(log.entries[n]),
{
}

proof fn lemma_agreeing_prefix(a: LogView, b: LogView, n: u64)
    requires
        log::contiguous(a),
        log::contiguous(b),
        a.snapshot_last_index == 0,
        b.snapshot_last_index == 0,
        n <= a.entries.len(),
        n <= b.entries.len(),
        agree_through(a, b, n),
    ensures
        a.entries.take(n as int) == b.entries.take(n as int),
{
    assert forall|i: int| 0 <= i < n implies a.entries[i] == b.entries[i] by {
        lemma_entry_places(a, i);
        lemma_entry_places(b, i);
        assert(log::entry_at(a, (i + 1) as u64) == log::entry_at(b, (i + 1) as u64));
    }
    assert(a.entries.take(n as int) =~= b.entries.take(n as int));
}

/// Taking in the first `k` of the leader's entries behind `prev` either changes nothing,
/// for all of them were there, or leaves exactly the leader's log through the last one.
pub(super) proof fn lemma_take_in(leader: LogView, follower: LogView, prev: u64, k: int)
    requires
        log::contiguous(leader),
        log::contiguous(follower),
        leader.snapshot_last_index == 0,
        follower.snapshot_last_index == 0,
        logs_match(leader, follower),
        prev <= leader.entries.len(),
        prev <= follower.entries.len(),
        agree_through(leader, follower, prev),
        0 <= k <= leader.entries.len() - prev,
    ensures
        ({
            let after = log::with_entries(
                follower,
                leader.entries.skip(prev as int).take(k),
            );
            &&& after.snapshot_last_index == 0
            &&& after.snapshot_last_term == follower.snapshot_last_term
            &&& after.entries.len() >= prev + k
            &&& after.entries.take(prev + k) == leader.entries.take(prev + k)
            &&& after.entries == follower.entries || after.entries.len() == prev + k
        }),
    decreases k,
{
    let sent = leader.entries.skip(prev as int);
    if k == 0 {
        assert(sent.take(0) =~= Seq::<EntryView>::empty());
        lemma_agreeing_prefix(leader, follower, prev);
    } else {
        lemma_take_in(leader, follower, prev, k - 1);
        let front = sent.take(k).drop_last();
        assert(front =~= sent.take(k - 1));
        let entry = sent.take(k).last();
        let n = prev + k - 1;
        lemma_entry_places(leader, n);
        assert(entry == leader.entries[n]);
        let mid = log::with_entries(follower, front);
        let after = log::with_entry(mid, entry);
        assert(log::place(mid, entry.index) == n);
        assert(mid.entries.take(n) == leader.entries.take(n));
        if n < mid.entries.len() && mid.entries[n].term == entry.term {
            assert(mid.entries == follower.entries);
            lemma_entry_places(follower, n);
            assert(agree_through(leader, follower, (n + 1) as u64));
            lemma_agreeing_prefix(leader, follower, (n + 1) as u64);
        } else {
            assert(after.entries =~= leader.entries.take(n + 1)) by {
                assert(after.entries.len() == n + 1);
                assert forall|i: int| 0 <= i < n implies after.entries[i]
                    == leader.entries[i] by {
                    assert(after.entries[i] == mid.entries.take(n)[i]);
                    assert(leader.entries.take(n)[i] == leader.entries[i]);
                }
            }
            assert(after.entries.take(n + 1) =~= after.entries);
        }
    }
}

/// The log consistency check works: a follower that accepts what a leader sends ends
/// with the leader's log, or keeps its own, which then begins with the leader's.
pub proof fn law_accepted_entries_copy_the_leaders_log(
    leader: NodeState,
    follower: NodeState,
    req: AppendEntriesRequestView,
    deadline: u64,
)
    requires
        log::contiguous(leader.log),
        log::contiguous(follower.log),
        leader.log.snapshot_last_index == 0,
        follower.log.snapshot_last_index == 0,
        logs_match(leader.log, follower.log),
        1 <= node::next_of(leader, follower.config.id) <= log::last_index(leader.log) + 1,
        node::replication_message(leader, follower.config.id) == MessageView::AppendEntries(req),
        accepts(follower, req),
    ensures
        ({
            let t = node::after_append_entries(follower, req, deadline);
            &&& t.outbox.last() == (
                req.leader_id,
                node::append_reply(t, true, log::last_index(t.log)),
            )
            &&& log::contiguous(t.log)
            &&& agree_through(leader.log, t.log, log::last_index(leader.log))
            &&& t.log.entries == leader.log.entries || (t.log.entries == follower.log.entries
                && leader.log.entries.is_prefix_of(follower.log.entries))
        }),
{
    let t = node::after_append_entries(follower, req, deadline);
    let prev = req.prev_log_index;
    let n = leader.log.entries.len() as int;
    if n > 0 {
        lemma_entry_places(leader.log, n - 1);
    }
    if follower.log.entries.len() > 0 {
        lemma_entry_places(follower.log, follower.log.entries.len() - 1);
    }
    if prev > 0 {
        lemma_entry_places(leader.log, prev - 1);
        assert(log::entry_at(follower.log, prev) is Some);
        assert(agree_through(leader.log, follower.log, prev));
    }
    assert(req.entries =~= leader.log.entries.skip(prev as int));
    assert(req.entries.take(n - prev) =~= req.entries);
    lemma_take_in(leader.log, follower.log, prev, n - prev);
    assert(leader.log.entries.take(n) =~= leader.log.entries);
    if t.log.entries.len() == n {
        assert(t.log.entries.take(n) =~= t.log.entries);
    } else {
        assert(leader.log.entries =~= follower.log.entries.subrange(0, n));
    }
    assert forall|i: u64| 1 <= i <= log::last_index(leader.log) implies #[trigger] log::entry_at(
        leader.log,
        i,
    ) == #[trigger] log::entry_at(t.log, i) by {
        lemma_entry_places(leader.log, i - 1);
        assert(t.log.entries.take(n)[i - 1] == leader.log.entries.take(n)[i - 1]);
    }
}

/// The log matching property is kept: whatever log matches the leader's and the
/// follower's matches what the follower has after it accepted.
pub proof fn law_accepted_entries_keep_logs_matching(
    leader: NodeState,
    follower: NodeState,
    req: AppendEntriesRequestView,
    deadline: u64,
    other: LogView,
)
    requires
        log::contiguous(leader.log),
        log::contiguous(follower.log),
        leader.log.snapshot_last_index == 0,
        follower.log.snapshot_last_index == 0,
        logs_match(leader.log, follower.log),
        logs_match(leader.log, other),
        logs_match(follower.log, other),
        1 <= node::next_of(leader, follower.config.id) <= log::last_index(leader.log) + 1,
        node::replication_message(leader, follower.config.id) == MessageView::AppendEntries(req),
        accepts(follower, req),
    ensures
        logs_match(node::after_append_entries(follower, req, deadline).log, other),
{
    law_accepted_entries_copy_the_leaders_log(leader, follower, req, deadline);
    let t = node::after_append_entries(follower, req, deadline);
    let base = if t.log.entries == leader.log.entries {
        leader.log
    } else {
        follower.log
    };
    lemma_same_snapshot_point(follower.log, req.entries);
    assert forall|i: u64| #[trigger] log::entry_at(t.log, i) == log::entry_at(base, i) by {}
    assert forall|i: u64|
        #![trigger log::entry_at(t.log, i), log::entry_at(other, i)]
        log::entry_at(t.log, i) is Some && log::entry_at(other, i) is Some && log::entry_at(
            t.log,
            i,
        )->0.term == log::entry_at(other, i)->0.term implies agree_through(t.log, other, i) by {
        assert(log::entry_at(base, i) == log::entry_at(t.log, i));
        assert(agree_through(base, other, i));
        assert forall|j: u64| 1 <= j <= i implies #[trigger] log::entry_at(t.log, j)
            == #[trigger] log::entry_at(other, j) by {
            assert(log::entry_at(base, j) == log::entry_at(other, j));
        }
    }
}

pub(super) proof fn lemma_same_snapshot_point(l: LogView, entries: Seq<EntryView>)
    ensures
        log::with_entries(l, entries).snapshot_last_index == l.snapshot_last_index,
        log::with_entries(l, entries).snapshot_last_term == l.snapshot_last_term,
    decreases entries.len(),
{
    if entries.len() > 0 {
        lemma_same_snapshot_point(l, entries.drop_last());
    }
}

/// A follower that was refused catches up: each refusal makes the leader go back by one
/// entry, and what is sent from the start of the log is never refused.
pub proof fn law_backing_off_ends_in_acceptance(
    leader: NodeState,
    resp: AppendEntriesResponseView,
    follower: NodeState,
    req: AppendEntriesRequestView,
    deadline: u64,
)
    requires
        leader.role == NodeRole::Leader,
        resp.term <= leader.current_term,
        !resp.success,
        req.prev_log_index == 0,
        req.term >= follower.current_term,
    ensures
        ({
            let t = node::after_append_reply(leader, resp, deadline);
            let next = node::next_of(leader, resp.from);
            &&& node::next_of(t, resp.from) == if next > 1 {
                next - 1
            } else {
                1
            }
            &&& t.outbox == leader.outbox.push(
                (resp.from, node::replication_message(t, resp.from)),
            )
        }),
        accepts(follower, req),
        ({
            let t = node::after_append_entries(follower, req, deadline);
            t.outbox.last() == (
                req.leader_id,
                node::append_reply(t, true, log::last_index(t.log)),
            )
        }),
{
}

} // verus!
