//! Agreement on the log over a whole run of a cluster.
//!
//! The cluster and the network are those of [`crate::raft::election`]. In every run logs
//! match, and what is committed stays committed. Nothing that happens in a run compacts a
//! log, so no snapshot is sent in one.

use crate::crdt::lww;
use crate::crdt::lww::RegisterView;
use crate::crdt::replicas;
use crate::crdt::state;
use crate::crdt::state::{CrdtOpView, KeyView};
use crate::raft::election;
use crate::raft::election::{Cluster, Packet, Step};
use crate::raft::log;
use crate::raft::log::{EntryView, LogView};
use crate::raft::message::{AppendEntriesRequestView, MessageView, VoteRequestView};
use crate::raft::node;
use crate::raft::node::{NodeRole, NodeState};
use crate::raft::safety;
use crate::raft::safety::Event;
use vstd::prelude::*;

verus! {

// --- the record of a run ---

/// What has happened in a run so far: who has led each term, with which log, of which
/// length it was at the election, and by whose votes; how much of its log each node has
/// confirmed in each term; and the log that each node had when it voted.
struct History {
    who: Map<u64, Seq<char>>,
    lead: Map<u64, Seq<EntryView>>,
    start: Map<u64, nat>,
    voters: Map<u64, Set<Seq<char>>>,
    acks: Map<(Seq<char>, u64), nat>,
    ballot_logs: Map<(Seq<char>, u64), Seq<EntryView>>,
}

spec fn no_history() -> History {
    History {
        who: Map::empty(),
        lead: Map::empty(),
        start: Map::empty(),
        voters: Map::empty(),
        acks: Map::empty(),
        ballot_logs: Map::empty(),
    }
}

/// The event makes the node the leader.
spec fn wins(s: NodeState, t: NodeState) -> bool {
    t.role == NodeRole::Leader && s.role != NodeRole::Leader
}

/// The event makes the node vote.
spec fn votes(s: NodeState, t: NodeState) -> bool {
    t.voted_for is Some && (t.current_term > s.current_term || s.voted_for is None)
}

/// The record after an event at a node, which makes `t` of the node and `d` of the
/// cluster.
spec fn recorded(
    h: History,
    d: Cluster,
    n: Seq<char>,
    s: NodeState,
    event: Event,
    t: NodeState,
) -> History {
    let term = t.current_term;
    History {
        who: if t.role == NodeRole::Leader {
            h.who.insert(term, n)
        } else {
            h.who
        },
        lead: if t.role == NodeRole::Leader {
            h.lead.insert(term, t.log.entries)
        } else {
            h.lead
        },
        start: if wins(s, t) {
            h.start.insert(term, s.log.entries.len())
        } else {
            h.start
        },
        voters: if wins(s, t) {
            h.voters.insert(term, election::supporters(d, n, term))
        } else {
            h.voters
        },
        acks: match event {
            Event::Message(MessageView::AppendEntries(req)) => if safety::accepts(s, req) {
                h.acks.insert((n, term), t.log.entries.len())
            } else {
                h.acks
            },
            _ => h.acks,
        },
        ballot_logs: if votes(s, t) {
            h.ballot_logs.insert((n, term), s.log.entries)
        } else {
            h.ballot_logs
        },
    }
}

// --- logs ---

/// Every entry of the log, with all that stands before it, is from the log of the leader
/// of its term.
#[verifier::opaque]
spec fn grounded(h: History, l: Seq<EntryView>) -> bool {
    forall|i: int|
        0 <= i < l.len() ==> {
            let entry = #[trigger] l[i];
            &&& entry.index == i + 1
            &&& h.who.contains_key(entry.term)
            &&& h.lead.contains_key(entry.term)
            &&& i < h.lead[entry.term].len()
            &&& l.take(i + 1) == h.lead[entry.term].take(i + 1)
        }
}

/// The later record goes on from the earlier one: leaders stay on record, and their logs
/// have grown at most.
spec fn goes_on(h: History, k: History) -> bool {
    forall|term: u64| #[trigger]
        h.who.contains_key(term) ==> {
            &&& k.who.contains_key(term)
            &&& k.who[term] == h.who[term]
            &&& h.lead.contains_key(term) ==> k.lead.contains_key(term)
                && h.lead[term].is_prefix_of(k.lead[term])
        }
}

proof fn lemma_grounded_prefix(h: History, l: Seq<EntryView>, n: int)
    requires
        grounded(h, l),
        0 <= n <= l.len(),
    ensures
        grounded(h, l.take(n)),
{
    reveal(grounded);
    let p = l.take(n);
    assert forall|i: int| 0 <= i < p.len() implies {
        let entry = #[trigger] p[i];
        &&& entry.index == i + 1
        &&& h.who.contains_key(entry.term)
        &&& h.lead.contains_key(entry.term)
        &&& i < h.lead[entry.term].len()
        &&& p.take(i + 1) == h.lead[entry.term].take(i + 1)
    } by {
        assert(p[i] == l[i]);
        assert(p.take(i + 1) =~= l.take(i + 1));
    }
}

proof fn lemma_grounded_goes_on(h: History, k: History, l: Seq<EntryView>)
    requires
        grounded(h, l),
        goes_on(h, k),
    ensures
        grounded(k, l),
{
    reveal(grounded);
    assert forall|i: int| 0 <= i < l.len() implies {
        let entry = #[trigger] l[i];
        &&& entry.index == i + 1
        &&& k.who.contains_key(entry.term)
        &&& k.lead.contains_key(entry.term)
        &&& i < k.lead[entry.term].len()
        &&& l.take(i + 1) == k.lead[entry.term].take(i + 1)
    } by {
        let term = l[i].term;
        assert(h.who.contains_key(term));
        assert(h.lead[term] =~= k.lead[term].take(h.lead[term].len() as int));
        assert(h.lead[term].take(i + 1) =~= k.lead[term].take(i + 1));
    }
}

/// Logs that have an entry of the same term at a place are the same up to there.
proof fn lemma_same_term_same_prefix(h: History, a: Seq<EntryView>, b: Seq<EntryView>, i: int)
    requires
        grounded(h, a),
        grounded(h, b),
        0 <= i < a.len(),
        0 <= i < b.len(),
        a[i].term == b[i].term,
    ensures
        a.take(i + 1) == b.take(i + 1),
{
    reveal(grounded);
}

/// What [`grounded`] says of one entry.
proof fn lemma_grounded_at(h: History, l: Seq<EntryView>, i: int)
    requires
        grounded(h, l),
        0 <= i < l.len(),
    ensures
        l[i].index == i + 1,
        h.who.contains_key(l[i].term),
        h.lead.contains_key(l[i].term),
        i < h.lead[l[i].term].len(),
        l.take(i + 1) == h.lead[l[i].term].take(i + 1),
{
    reveal(grounded);
}

spec fn as_log(entries: Seq<EntryView>) -> LogView {
    LogView { entries, snapshot_last_index: 0, snapshot_last_term: 0 }
}

proof fn lemma_grounded_logs_match(h: History, a: Seq<EntryView>, b: Seq<EntryView>)
    requires
        grounded(h, a),
        grounded(h, b),
    ensures
        log::contiguous(as_log(a)),
        log::contiguous(as_log(b)),
        safety::logs_match(as_log(a), as_log(b)),
{
    reveal(grounded);
    let x = as_log(a);
    let y = as_log(b);
    assert forall|i: u64|
        #![trigger log::entry_at(x, i), log::entry_at(y, i)]
        log::entry_at(x, i) is Some && log::entry_at(y, i) is Some && log::entry_at(x, i)->0.term
            == log::entry_at(y, i)->0.term implies safety::agree_through(x, y, i) by {
        lemma_same_term_same_prefix(h, a, b, i - 1);
        assert forall|j: u64| 1 <= j <= i implies #[trigger] log::entry_at(x, j)
            == #[trigger] log::entry_at(y, j) by {
            assert(a.take(i as int)[j - 1] == b.take(i as int)[j - 1]);
        }
    }
}

/// What a follower has after it took in a stretch of a leader's log that joins its own:
/// the leader's log through the end of the stretch, or what it had, which then has all of
/// the stretch.
proof fn lemma_taken_in(
    h: History,
    lead: Seq<EntryView>,
    own: Seq<EntryView>,
    prev: int,
    end: int,
)
    requires
        grounded(h, lead),
        grounded(h, own),
        0 <= prev <= own.len(),
        prev <= end <= lead.len(),
        end <= u64::MAX,
        own.take(prev) == lead.take(prev),
    ensures
        ({
            let after = log::with_entries(as_log(own), lead.subrange(prev, end)).entries;
            &&& after.len() >= end
            &&& after.take(end) == lead.take(end)
            &&& after == own || after == lead.take(end)
            &&& log::with_entries(as_log(own), lead.subrange(prev, end)) == as_log(after)
        }),
{
    let front = lead.take(end);
    lemma_grounded_prefix(h, lead, end);
    lemma_grounded_logs_match(h, front, own);
    let x = as_log(front);
    let y = as_log(own);
    assert forall|i: u64| 1 <= i <= prev implies #[trigger] log::entry_at(x, i)
        == #[trigger] log::entry_at(y, i) by {
        assert(own.take(prev)[i - 1] == lead.take(prev)[i - 1]);
    }
    safety::lemma_take_in(x, y, prev as u64, end - prev);
    safety::lemma_same_snapshot_point(y, lead.subrange(prev, end));
    assert(front.skip(prev).take(end - prev) =~= lead.subrange(prev, end));
    let after = log::with_entries(y, lead.subrange(prev, end)).entries;
    assert(front.take(end) =~= front);
    if after.len() == end {
        assert(after.take(end) =~= after);
    }
}

// --- one node ---

/// What an event does to a node's term, role and vote.
spec fn moves_term(s: NodeState, event: Event, t: NodeState) -> bool {
    &&& t.config == s.config
    &&& t.current_term >= s.current_term
    &&& t.role != NodeRole::Follower && t.current_term > s.current_term ==> election::stands(
        s,
        event,
    )
    &&& t.role != NodeRole::Follower && t.current_term == s.current_term ==> s.role
        != NodeRole::Follower
    &&& election::stands(s, event) ==> t.current_term == s.current_term + 1 && t.voted_for
        == Some(s.config.id) && s.role != NodeRole::Leader
    &&& s.role == NodeRole::Leader && t.current_term == s.current_term ==> t.role
        == NodeRole::Leader
    &&& t.current_term == s.current_term && s.voted_for is Some ==> t.voted_for == s.voted_for
    &&& votes(s, t) && !election::stands(s, event) ==> {
        &&& event matches Event::Message(MessageView::RequestVote(req))
        &&& node::up_to_date(s, event->Message_0->RequestVote_0)
        &&& t.voted_for == Some(event->Message_0->RequestVote_0.candidate_id)
        &&& t.current_term == event->Message_0->RequestVote_0.term
    }
}

/// What an event does to the log: a leader's request may cut it or make it grow as the
/// leader says, and a node that leads appends entries of its term.
#[verifier::opaque]
spec fn moves_log(s: NodeState, event: Event, t: NodeState) -> bool {
    &&& event matches Event::Message(MessageView::AppendEntries(req)) ==> {
        &&& safety::accepts(s, req) ==> t.log == log::with_entries(s.log, req.entries)
        &&& !safety::accepts(s, req) ==> t.log == s.log || (t.log == log::truncated(
            s.log,
            req.prev_log_index,
        ) && req.term >= s.current_term && req.prev_log_index > 0 && log::term_at(
            s.log,
            req.prev_log_index,
        ) is Some && log::term_at(s.log, req.prev_log_index) != Some(req.prev_log_term))
        &&& req.term >= s.current_term ==> t.current_term == req.term
        &&& req.term <= s.current_term ==> t.role == s.role && t.current_term == s.current_term
        &&& req.term > s.current_term ==> t.role == NodeRole::Follower
    }
    &&& !(event matches Event::Message(MessageView::AppendEntries(_))) ==> {
        ||| t.log == s.log && !wins(s, t)
        ||| {
            &&& t.role == NodeRole::Leader
            &&& log::last_index(s.log) < u64::MAX
            &&& t.log == as_log(
                s.log.entries.push(
                    EntryView {
                        index: (log::last_index(s.log) + 1) as u64,
                        term: t.current_term,
                        command: t.log.entries.last().command,
                    },
                ),
            )
        }
    }
}

/// What a node sends about logs.
spec fn says(s: NodeState, event: Event, t: NodeState, to: Seq<char>, msg: MessageView) -> bool {
    match msg {
        MessageView::AppendEntries(req) => {
            &&& t.role == NodeRole::Leader
            &&& req.leader_commit == s.commit_index || req.leader_commit == t.commit_index
            &&& msg == node::replication_message(
                NodeState { commit_index: req.leader_commit, ..t },
                to,
            )
            &&& s.config.peers.contains(to) || (event matches Event::Message(
                MessageView::AppendEntriesReply(resp),
            ) && resp.from == to)
        },
        MessageView::AppendEntriesReply(resp) => {
            &&& event matches Event::Message(MessageView::AppendEntries(req))
            &&& to == event->Message_0->AppendEntries_0.leader_id
            &&& resp.from == s.config.id
            &&& resp.term == t.current_term
            &&& resp.success ==> safety::accepts(s, event->Message_0->AppendEntries_0)
                && resp.match_index == log::last_index(t.log)
        },
        MessageView::RequestVote(req) => {
            &&& election::stands(s, event)
            &&& req.term == t.current_term
            &&& req.candidate_id == s.config.id
            &&& req.last_log_index == log::last_index(s.log)
            &&& req.last_log_term == log::last_term(s.log)
        },
        MessageView::InstallSnapshot(_) => t.log.snapshot_last_index > 0,
        _ => true,
    }
}

proof fn lemma_term_moves(s: NodeState, event: Event, deadline: u64)
    requires
        safety::event_fits(s, event),
    ensures
        moves_term(s, event, safety::after_event(s, event, deadline)),
{
}

proof fn lemma_log_moves(s: NodeState, event: Event, deadline: u64)
    requires
        safety::event_fits(s, event),
        s.log == as_log(s.log.entries),
        !(event matches Event::Message(MessageView::InstallSnapshot(_))),
    ensures
        moves_log(s, event, safety::after_event(s, event, deadline)),
{
    reveal(moves_log);
    let t = safety::after_event(s, event, deadline);
    if let Event::Message(MessageView::AppendEntries(req)) = event {
        safety::lemma_same_snapshot_point(s.log, req.entries);
    } else if t.log != s.log {
        assert(t.log.entries == s.log.entries.push(t.log.entries.last()));
    }
}

proof fn lemma_what_is_said(s: NodeState, event: Event, deadline: u64, i: int)
    requires
        safety::event_fits(s, event),
        s.log == as_log(s.log.entries),
        s.outbox.len() == 0,
        !(event matches Event::Message(MessageView::InstallSnapshot(_))),
        0 <= i < safety::after_event(s, event, deadline).outbox.len(),
    ensures
        ({
            let t = safety::after_event(s, event, deadline);
            says(s, event, t, t.outbox[i].0, t.outbox[i].1)
        }),
{
    let peers = s.config.peers;
    if let Event::Message(MessageView::AppendEntries(req)) = event {
        safety::lemma_same_snapshot_point(s.log, req.entries);
    } else {
        assert(forall|j: int| 0 <= j < peers.len() ==> peers.contains(#[trigger] peers[j]));
    }
}

// --- what holds of the logs throughout ---

spec fn last_term_of(l: Seq<EntryView>) -> u64 {
    if l.len() == 0 {
        0
    } else {
        l.last().term
    }
}

/// The first log is at least as up to date as the second.
spec fn newer(a: Seq<EntryView>, b: Seq<EntryView>) -> bool {
    last_term_of(a) > last_term_of(b) || (last_term_of(a) == last_term_of(b) && a.len() >= b.len())
}

/// The leader on record was elected by a quorum, with the log that it had when it asked
/// for votes, and what it added to it is of its term.
spec fn leader_ok(c: Cluster, h: History, term: u64) -> bool {
    let n = h.who[term];
    &&& term > 0
    &&& c.nodes.contains_key(n)
    &&& c.nodes[n].current_term >= term
    &&& c.nodes[n].current_term == term ==> c.nodes[n].role == NodeRole::Leader
    &&& h.lead.contains_key(term)
    &&& h.start.contains_key(term)
    &&& h.voters.contains_key(term)
    &&& h.start[term] < h.lead[term].len()
    &&& grounded(h, h.lead[term])
    &&& forall|i: int|
        0 <= i < h.lead[term].len() ==> if i < h.start[term] {
            (#[trigger] h.lead[term][i]).term < term
        } else {
            h.lead[term][i].term == term
        }
    &&& h.voters[term].subset_of(c.nodes.dom())
    &&& h.voters[term].len() >= node::quorum_size(c.nodes[n])
    &&& forall|v: Seq<char>| #[trigger]
        h.voters[term].contains(v) ==> election::has_ballot(c, v, term, n)
    &&& h.ballot_logs.contains_key((n, term))
    &&& h.ballot_logs[(n, term)] == h.lead[term].take(h.start[term] as int)
}

/// The node's log comes from the leaders. A leader has the log on record; a candidate has
/// the log with which it asked for votes, as long as the election is open.
spec fn log_ok(c: Cluster, h: History, n: Seq<char>) -> bool {
    let s = c.nodes[n];
    &&& s.log == as_log(s.log.entries)
    &&& s.role != NodeRole::Follower ==> s.current_term > 0
    &&& grounded(h, s.log.entries)
    &&& forall|i: int|
        0 <= i < s.log.entries.len() ==> (#[trigger] s.log.entries[i]).term <= s.current_term
    &&& s.role == NodeRole::Leader ==> {
        &&& h.who.contains_key(s.current_term)
        &&& h.who[s.current_term] == n
        &&& h.lead[s.current_term] == s.log.entries
    }
    &&& s.role == NodeRole::Candidate && !h.who.contains_key(s.current_term) ==> {
        &&& h.ballot_logs.contains_key((n, s.current_term))
        &&& h.ballot_logs[(n, s.current_term)] == s.log.entries
    }
}

/// The log on record for a vote is one that the node had.
spec fn ballot_log_ok(c: Cluster, h: History, v: Seq<char>, term: u64) -> bool {
    &&& c.nodes.contains_key(v)
    &&& c.ballots.contains_key((v, term))
    &&& grounded(h, h.ballot_logs[(v, term)])
}

/// Every vote went to a candidate whose log was at least as up to date as the voter's.
spec fn ballot_ok(c: Cluster, h: History, v: Seq<char>, term: u64) -> bool {
    let candidate = c.ballots[(v, term)];
    &&& h.ballot_logs.contains_key((v, term))
    &&& h.ballot_logs.contains_key((candidate, term))
    &&& newer(h.ballot_logs[(candidate, term)], h.ballot_logs[(v, term)])
}

/// The request names a place behind the leader's log, which no follower has.
spec fn stray(req: AppendEntriesRequestView) -> bool {
    req.prev_log_index > 0 && req.prev_log_term == 0 && req.entries.len() == 0
}

/// The request has a stretch of the leader's log that reaches an entry of its own term.
spec fn stretch(lead: Seq<EntryView>, start: nat, req: AppendEntriesRequestView) -> bool {
    let end = req.prev_log_index + req.entries.len();
    &&& start < end <= lead.len()
    &&& req.entries == lead.subrange(req.prev_log_index as int, end)
    &&& req.prev_log_term == last_term_of(lead.take(req.prev_log_index as int))
}

spec fn append_ok(h: History, to: Seq<char>, req: AppendEntriesRequestView) -> bool {
    &&& h.who.contains_key(req.term)
    &&& h.who[req.term] == req.leader_id
    &&& to != req.leader_id
    &&& stray(req) || stretch(h.lead[req.term], h.start[req.term], req)
}

spec fn vote_request_ok(h: History, req: VoteRequestView) -> bool {
    let l = h.ballot_logs[(req.candidate_id, req.term)];
    &&& h.ballot_logs.contains_key((req.candidate_id, req.term))
    &&& req.last_log_index == l.len()
    &&& req.last_log_term == last_term_of(l)
}

/// What is on its way about logs is what the leaders and candidates on record have.
spec fn packet_ok(h: History, p: Packet) -> bool {
    match p.msg {
        MessageView::AppendEntries(req) => append_ok(h, p.to, req),
        MessageView::AppendEntriesReply(resp) => p.to != resp.from,
        MessageView::RequestVote(req) => vote_request_ok(h, req),
        MessageView::InstallSnapshot(_) => false,
        _ => true,
    }
}

/// What holds of the logs of a cluster throughout a run.
#[verifier::opaque]
spec fn logs_inv(c: Cluster, h: History) -> bool {
    &&& forall|term: u64| #[trigger] h.who.contains_key(term) ==> leader_ok(c, h, term)
    &&& forall|n: Seq<char>| #[trigger] c.nodes.contains_key(n) ==> log_ok(c, h, n)
    &&& forall|v: Seq<char>, term: u64| #[trigger]
        h.ballot_logs.contains_key((v, term)) ==> ballot_log_ok(c, h, v, term)
    &&& forall|v: Seq<char>, term: u64| #[trigger]
        c.ballots.contains_key((v, term)) ==> ballot_ok(c, h, v, term)
    &&& forall|p: Packet| #[trigger] c.net.contains(p) ==> packet_ok(h, p)
}

proof fn lemma_leader(c: Cluster, h: History, term: u64)
    requires
        logs_inv(c, h),
        h.who.contains_key(term),
    ensures
        leader_ok(c, h, term),
{
    reveal(logs_inv);
}

proof fn lemma_node(c: Cluster, h: History, n: Seq<char>)
    requires
        logs_inv(c, h),
        c.nodes.contains_key(n),
    ensures
        log_ok(c, h, n),
{
    reveal(logs_inv);
}

proof fn lemma_ballot_log(c: Cluster, h: History, v: Seq<char>, term: u64)
    requires
        logs_inv(c, h),
        h.ballot_logs.contains_key((v, term)),
    ensures
        ballot_log_ok(c, h, v, term),
{
    reveal(logs_inv);
}

proof fn lemma_ballot(c: Cluster, h: History, v: Seq<char>, term: u64)
    requires
        logs_inv(c, h),
        c.ballots.contains_key((v, term)),
    ensures
        ballot_ok(c, h, v, term),
{
    reveal(logs_inv);
}

proof fn lemma_packet(c: Cluster, h: History, p: Packet)
    requires
        logs_inv(c, h),
        c.net.contains(p),
    ensures
        packet_ok(h, p),
{
    reveal(logs_inv);
}

/// What an election asks of the cluster before and after the event.
#[verifier::opaque]
spec fn elects(c: Cluster, d: Cluster, n: Seq<char>) -> bool {
    &&& election::is_cluster(c.nodes)
    &&& election::is_cluster(d.nodes)
    &&& election::ballots_are_current(c)
    &&& election::leads_by_quorum(d, n)
}

/// All that the node sends is as it should be.
#[verifier::opaque]
spec fn says_all(s: NodeState, event: Event, t: NodeState) -> bool {
    forall|i: int|
        0 <= i < t.outbox.len() ==> says(
            s,
            event,
            t,
            (#[trigger] t.outbox[i]).0,
            t.outbox[i].1,
        )
}

/// An event at a node: the cluster before and after it, the node after it before its
/// messages have left it, what is left of the network, and the packet that was delivered
/// if the event is a message.
struct Move {
    c: Cluster,
    d: Cluster,
    n: Seq<char>,
    event: Event,
    t: NodeState,
    net: Set<Packet>,
    delivered: Packet,
}

/// The node before the event.
spec fn before(mv: Move) -> NodeState {
    mv.c.nodes[mv.n]
}

/// The record after the event.
spec fn after_move(mv: Move, h: History) -> History {
    recorded(h, mv.d, mv.n, before(mv), mv.event, mv.t)
}

/// The event makes of the cluster what a node and the network make of it.
spec fn moved(mv: Move) -> bool {
    let Move { c, d, n, event, t, net, delivered } = mv;
    let s = c.nodes[n];
    &&& c.nodes.contains_key(n)
    &&& s.config.id == n
    &&& d.nodes == c.nodes.insert(n, NodeState { outbox: Seq::empty(), ..t })
    &&& d.net == net.union(election::packets(t.outbox, c.next))
    &&& net.subset_of(c.net)
    &&& d.ballots == match t.voted_for {
        Some(candidate) => c.ballots.insert((n, t.current_term), candidate),
        None => c.ballots,
    }
    &&& event matches Event::Message(msg) ==> {
        &&& c.net.contains(delivered)
        &&& delivered.to == n
        &&& delivered.msg == msg
    }
    &&& s.role == NodeRole::Candidate ==> s.voted_for == Some(n)
    &&& elects(c, d, n)
    &&& moves_term(s, event, t)
    &&& moves_log(s, event, t)
    &&& says_all(s, event, t)
}

proof fn lemma_ballots_stay(mv: Move, v: Seq<char>, term: u64)
    requires
        moved(mv),
        mv.c.ballots.contains_key((v, term)),
    ensures
        mv.d.ballots.contains_key((v, term)),
        mv.d.ballots[(v, term)] == mv.c.ballots[(v, term)],
        v == mv.n && term == mv.t.current_term ==> !votes(before(mv), mv.t),
        mv.c.nodes.contains_key(v),
        term <= mv.c.nodes[v].current_term,
{
    let Move { c, d, n, event, t, net, delivered } = mv;
    reveal(elects);
}

proof fn lemma_elections_meet(
    nodes: Map<Seq<char>, NodeState>,
    m: Seq<char>,
    a: Set<Seq<char>>,
    n: Seq<char>,
    b: Set<Seq<char>>,
)
    requires
        election::is_cluster(nodes),
        nodes.contains_key(m),
        nodes.contains_key(n),
        a.subset_of(nodes.dom()),
        b.subset_of(nodes.dom()),
        a.len() >= node::quorum_size(nodes[m]),
        b.len() >= node::quorum_size(nodes[n]),
    ensures
        exists|v: Seq<char>| #[trigger] a.contains(v) && b.contains(v),
{
    election::lemma_cluster_size(nodes, m);
    election::lemma_cluster_size(nodes, n);
    safety::law_quorums_meet(nodes.dom(), a, b);
}

/// The winner of an election is the first to lead the term.
proof fn lemma_first_winner(mv: Move, h: History)
    requires
        logs_inv(mv.c, h),
        moved(mv),
        wins(before(mv), mv.t),
    ensures
        !h.who.contains_key(mv.t.current_term),
{
    let Move { c, d, n, event, t, net, delivered } = mv;
    let term = t.current_term;
    if h.who.contains_key(term) {
        let m = h.who[term];
        let a = h.voters[term];
        let b = election::supporters(d, n, term);
        lemma_leader(c, h, term);
        assert(exists|v: Seq<char>| #[trigger] a.contains(v) && b.contains(v)) by {
            reveal(elects);
            assert(d.nodes[m].config == c.nodes[m].config);
            assert(d.nodes.dom() =~= c.nodes.dom());
            lemma_elections_meet(d.nodes, m, a, n, b);
        }
        let v = choose|v: Seq<char>| #[trigger] a.contains(v) && b.contains(v);
        assert(election::has_ballot(c, v, term, m));
        assert(election::has_ballot(d, v, term, n));
        lemma_ballots_stay(mv, v, term);
        assert(m == n);
    }
}

/// A request of a leader reaches other nodes only.
proof fn lemma_leader_hears_no_leader(mv: Move, h: History)
    requires
        logs_inv(mv.c, h),
        moved(mv),
    ensures
        mv.event matches Event::Message(MessageView::AppendEntries(req)) ==> {
            &&& append_ok(h, mv.n, req)
            &&& leader_ok(mv.c, h, req.term)
            &&& before(mv).role == NodeRole::Leader ==> req.term != before(mv).current_term
        },
{
    let Move { c, d, n, event, t, net, delivered } = mv;
    if let Event::Message(msg) = event {
        lemma_packet(c, h, delivered);
        if let MessageView::AppendEntries(req) = msg {
            lemma_leader(c, h, req.term);
            lemma_node(c, h, n);
        }
    }
}

/// The log of a leader grows at its end only.
proof fn lemma_leader_log_grows(mv: Move, h: History)
    requires
        logs_inv(mv.c, h),
        moved(mv),
        mv.t.role == NodeRole::Leader,
    ensures
        before(mv).log.entries.is_prefix_of(mv.t.log.entries),
        mv.t.log == as_log(mv.t.log.entries),
        mv.t.log == before(mv).log && !wins(before(mv), mv.t) || {
            &&& log::last_index(before(mv).log) < u64::MAX
            &&& mv.t.log.entries == before(mv).log.entries.push(
                EntryView {
                    index: (log::last_index(before(mv).log) + 1) as u64,
                    term: mv.t.current_term,
                    command: mv.t.log.entries.last().command,
                },
            )
        },
        before(mv).role == NodeRole::Leader ==> mv.t.current_term == before(mv).current_term,
{
    let Move { c, d, n, event, t, net, delivered } = mv;
    reveal(moves_log);
    let s = c.nodes[n];
    lemma_leader_hears_no_leader(mv, h);
    lemma_node(c, h, n);
    if let Event::Message(MessageView::AppendEntries(req)) = event {
        if req.term >= s.current_term {
            assert(s.role == NodeRole::Leader && req.term == s.current_term);
        }
    }
    assert(s.log.entries =~= t.log.entries.take(s.log.entries.len() as int));
}

proof fn lemma_history_goes_on(mv: Move, h: History)
    requires
        logs_inv(mv.c, h),
        moved(mv),
    ensures
        goes_on(h, after_move(mv, h)),
        ({
            let k = after_move(mv, h);
            &&& forall|term: u64| #[trigger]
                h.who.contains_key(term) ==> k.start[term] == h.start[term] && k.voters[term]
                    == h.voters[term]
            &&& forall|v: Seq<char>, term: u64| #[trigger]
                h.ballot_logs.contains_key((v, term)) ==> k.ballot_logs.contains_key((v, term))
                    && k.ballot_logs[(v, term)] == h.ballot_logs[(v, term)]
        }),
{
    let Move { c, d, n, event, t, net, delivered } = mv;
    let s = c.nodes[n];
    let k = recorded(h, d, n, s, event, t);
    lemma_node(c, h, n);
    if t.role == NodeRole::Leader {
        lemma_leader_log_grows(mv, h);
    }
    if wins(s, t) {
        lemma_first_winner(mv, h);
    }
    assert forall|v: Seq<char>, term: u64| #[trigger]
        h.ballot_logs.contains_key((v, term)) implies k.ballot_logs.contains_key((v, term))
        && k.ballot_logs[(v, term)] == h.ballot_logs[(v, term)] by {
        lemma_ballot_log(c, h, v, term);
        lemma_ballots_stay(mv, v, term);
    }
}

/// What a follower's log becomes when it takes in what a leader sent: the stretch that it
/// was sent joins its log.
proof fn lemma_accepted(mv: Move, h: History, req: AppendEntriesRequestView)
    requires
        logs_inv(mv.c, h),
        moved(mv),
        mv.event == Event::Message(MessageView::AppendEntries(req)),
        safety::accepts(before(mv), req),
    ensures
        ({
            let own = before(mv).log.entries;
            let lead = h.lead[req.term];
            let end = req.prev_log_index + req.entries.len();
            let after = mv.t.log.entries;
            &&& h.start[req.term] < end <= lead.len()
            &&& stretch(lead, h.start[req.term], req)
            &&& mv.t.log == as_log(after)
            &&& end <= after.len()
            &&& after.take(end) == lead.take(end)
            &&& after == own || after == lead.take(end)
        }),
{
    reveal(moves_log);
    let s = before(mv);
    let own = s.log.entries;
    let prev = req.prev_log_index as int;
    lemma_leader_hears_no_leader(mv, h);
    lemma_node(mv.c, h, mv.n);
    let lead = h.lead[req.term];
    let end = req.prev_log_index + req.entries.len();
    if prev > 0 {
        assert(log::entry_at(s.log, req.prev_log_index) == Some(own[prev - 1]));
        lemma_grounded_at(h, own, prev - 1);
        lemma_leader(mv.c, h, own[prev - 1].term);
        assert(!stray(req));
        assert(lead.take(prev).last() == lead[prev - 1]);
        lemma_same_term_same_prefix(h, own, lead, prev - 1);
    } else {
        assert(own.take(0) =~= lead.take(0));
    }
    lemma_grounded_at(h, lead, lead.len() - 1);
    lemma_taken_in(h, lead, own, prev, end);
}

/// A log of no term higher than that of the record has the terms of the record's.
proof fn lemma_lead_terms(c: Cluster, h: History, term: u64, n: int)
    requires
        leader_ok(c, h, term),
        0 <= n <= h.lead[term].len(),
    ensures
        forall|i: int| 0 <= i < n ==> (#[trigger] h.lead[term].take(n)[i]).term <= term,
{
    assert forall|i: int| 0 <= i < n implies (#[trigger] h.lead[term].take(n)[i]).term
        <= term by {
        assert(h.lead[term].take(n)[i] == h.lead[term][i]);
    }
}

/// The log of the node after the event comes from the leaders.
proof fn lemma_log_stays_grounded(mv: Move, h: History)
    requires
        logs_inv(mv.c, h),
        moved(mv),
    ensures
        mv.t.log == as_log(mv.t.log.entries),
        grounded(after_move(mv, h), mv.t.log.entries),
        forall|i: int|
            0 <= i < mv.t.log.entries.len() ==> (#[trigger] mv.t.log.entries[i]).term
                <= mv.t.current_term,
{
    let Move { c, d, n, event, t, net, delivered } = mv;
    let s = before(mv);
    let k = after_move(mv, h);
    let own = s.log.entries;
    lemma_node(c, h, n);
    lemma_history_goes_on(mv, h);
    lemma_leader_hears_no_leader(mv, h);
    lemma_grounded_goes_on(h, k, own);
    if let Event::Message(MessageView::AppendEntries(req)) = event {
        if safety::accepts(s, req) {
            lemma_accepted(mv, h, req);
            let lead = h.lead[req.term];
            let end = req.prev_log_index + req.entries.len();
            lemma_grounded_prefix(h, lead, end);
            lemma_grounded_goes_on(h, k, lead.take(end));
            lemma_lead_terms(c, h, req.term, end);
            assert(t.current_term == req.term) by {
                reveal(moves_log);
            }
        } else {
            reveal(moves_log);
            if t.log != s.log {
                lemma_grounded_prefix(k, own, req.prev_log_index - 1);
            }
        }
    } else if t.log != s.log {
        reveal(moves_log);
        let entry = t.log.entries.last();
        let after = t.log.entries;
        assert(after == own.push(entry));
        assert(k.who.contains_key(t.current_term) && k.lead[t.current_term] == after);
        if own.len() > 0 {
            lemma_grounded_at(k, own, own.len() - 1);
        }
        assert(grounded(k, after)) by {
            reveal(grounded);
            assert forall|i: int| 0 <= i < after.len() implies {
                let entry = #[trigger] after[i];
                &&& entry.index == i + 1
                &&& k.who.contains_key(entry.term)
                &&& k.lead.contains_key(entry.term)
                &&& i < k.lead[entry.term].len()
                &&& after.take(i + 1) == k.lead[entry.term].take(i + 1)
            } by {
                if i < own.len() {
                    assert(after[i] == own[i]);
                    assert(after.take(i + 1) =~= own.take(i + 1));
                }
            }
        }
    } else {
        reveal(moves_log);
    }
}

proof fn lemma_node_stays_ok(mv: Move, h: History)
    requires
        logs_inv(mv.c, h),
        moved(mv),
    ensures
        log_ok(mv.d, after_move(mv, h), mv.n),
{
    let Move { c, d, n, event, t, net, delivered } = mv;
    let s = before(mv);
    let k = after_move(mv, h);
    lemma_node(c, h, n);
    lemma_log_stays_grounded(mv, h);
    lemma_history_goes_on(mv, h);
    lemma_leader_hears_no_leader(mv, h);
    if t.role == NodeRole::Candidate && !k.who.contains_key(t.current_term) {
        reveal(moves_log);
        assert(t.log == s.log);
        if t.current_term == s.current_term {
            assert(s.role == NodeRole::Candidate);
            assert(!h.who.contains_key(s.current_term));
        }
    }
}

proof fn lemma_other_node_stays_ok(mv: Move, h: History, m: Seq<char>)
    requires
        logs_inv(mv.c, h),
        moved(mv),
        mv.c.nodes.contains_key(m),
        m != mv.n,
    ensures
        log_ok(mv.d, after_move(mv, h), m),
{
    let Move { c, d, n, event, t, net, delivered } = mv;
    let k = after_move(mv, h);
    lemma_node(c, h, m);
    lemma_node(c, h, n);
    lemma_history_goes_on(mv, h);
    lemma_grounded_goes_on(h, k, c.nodes[m].log.entries);
    assert(d.nodes[m] == c.nodes[m]);
    if c.nodes[m].role == NodeRole::Leader {
        assert(h.who.contains_key(c.nodes[m].current_term));
    }
}

/// What a leader on record stays, when the event does not make its log grow.
proof fn lemma_leader_stays_ok(mv: Move, h: History, term: u64)
    requires
        logs_inv(mv.c, h),
        moved(mv),
        h.who.contains_key(term),
    ensures
        leader_ok(mv.d, after_move(mv, h), term),
{
    let Move { c, d, n, event, t, net, delivered } = mv;
    let s = before(mv);
    let k = after_move(mv, h);
    let m = h.who[term];
    lemma_leader(c, h, term);
    lemma_node(c, h, n);
    lemma_history_goes_on(mv, h);
    assert(k.who[term] == m);
    assert(d.nodes.dom() =~= c.nodes.dom());
    assert(d.nodes[m].config == c.nodes[m].config);
    assert forall|v: Seq<char>| #[trigger] k.voters[term].contains(v) implies election::has_ballot(
        d,
        v,
        term,
        m,
    ) by {
        assert(election::has_ballot(c, v, term, m));
        lemma_ballots_stay(mv, v, term);
    }
    if t.role == NodeRole::Leader && term == t.current_term {
        lemma_leader_log_grows(mv, h);
        lemma_log_stays_grounded(mv, h);
        assert(s.role == NodeRole::Leader) by {
            if wins(s, t) {
                lemma_first_winner(mv, h);
            }
        }
        assert(h.lead[term] == s.log.entries);
        assert(k.lead[term] == t.log.entries);
        assert forall|i: int| 0 <= i < k.lead[term].len() implies if i < k.start[term] {
            (#[trigger] k.lead[term][i]).term < term
        } else {
            k.lead[term][i].term == term
        } by {
            if i < h.lead[term].len() {
                assert(k.lead[term][i] == h.lead[term][i]);
            }
        }
        assert(k.lead[term].take(k.start[term] as int) =~= h.lead[term].take(
            h.start[term] as int,
        ));
    } else {
        assert(k.lead[term] == h.lead[term]);
        lemma_grounded_goes_on(h, k, h.lead[term]);
    }
}

proof fn lemma_winner_is_ok(mv: Move, h: History)
    requires
        logs_inv(mv.c, h),
        moved(mv),
        wins(before(mv), mv.t),
    ensures
        leader_ok(mv.d, after_move(mv, h), mv.t.current_term),
{
    let Move { c, d, n, event, t, net, delivered } = mv;
    let s = before(mv);
    let k = after_move(mv, h);
    let term = t.current_term;
    lemma_node(c, h, n);
    lemma_first_winner(mv, h);
    lemma_leader_log_grows(mv, h);
    lemma_log_stays_grounded(mv, h);
    lemma_history_goes_on(mv, h);
    assert forall|i: int| 0 <= i < k.lead[term].len() implies if i < k.start[term] {
        (#[trigger] k.lead[term][i]).term < term
    } else {
        k.lead[term][i].term == term
    } by {
        if i < s.log.entries.len() {
            assert(k.lead[term][i] == s.log.entries[i]);
            lemma_grounded_at(h, s.log.entries, i);
        }
    }
    assert(k.lead[term].take(k.start[term] as int) =~= s.log.entries);
    assert(election::supporters(d, n, term).len() >= node::quorum_size(d.nodes[n])) by {
        reveal(elects);
    }
}

proof fn lemma_ballots_stay_ok(mv: Move, h: History, v: Seq<char>, term: u64)
    requires
        logs_inv(mv.c, h),
        moved(mv),
        mv.d.ballots.contains_key((v, term)),
    ensures
        ballot_ok(mv.d, after_move(mv, h), v, term),
{
    let Move { c, d, n, event, t, net, delivered } = mv;
    let s = before(mv);
    let k = after_move(mv, h);
    lemma_history_goes_on(mv, h);
    if c.ballots.contains_key((v, term)) {
        lemma_ballot(c, h, v, term);
        lemma_ballots_stay(mv, v, term);
    } else {
        assert(v == n && term == t.current_term);
        assert(votes(s, t)) by {
            reveal(elects);
        }
        lemma_node(c, h, n);
        if !election::stands(s, event) {
            lemma_packet(c, h, delivered);
            let own = s.log.entries;
            if own.len() > 0 {
                lemma_grounded_at(h, own, own.len() - 1);
            }
        }
    }
}

proof fn lemma_ballot_logs_stay_ok(mv: Move, h: History, v: Seq<char>, term: u64)
    requires
        logs_inv(mv.c, h),
        moved(mv),
        after_move(mv, h).ballot_logs.contains_key((v, term)),
    ensures
        ballot_log_ok(mv.d, after_move(mv, h), v, term),
{
    let Move { c, d, n, event, t, net, delivered } = mv;
    let k = after_move(mv, h);
    lemma_history_goes_on(mv, h);
    lemma_node(c, h, n);
    if h.ballot_logs.contains_key((v, term)) {
        lemma_ballot_log(c, h, v, term);
        lemma_ballots_stay(mv, v, term);
        lemma_grounded_goes_on(h, k, h.ballot_logs[(v, term)]);
    } else {
        lemma_grounded_goes_on(h, k, before(mv).log.entries);
    }
}

/// What a leader sends is a stretch of its log, or names a place behind it.
proof fn lemma_sent_by_leader(
    h: History,
    t: NodeState,
    to: Seq<char>,
    req: AppendEntriesRequestView,
)
    requires
        t.log == as_log(t.log.entries),
        grounded(h, t.log.entries),
        MessageView::AppendEntries(req) == node::replication_message(
            NodeState { commit_index: req.leader_commit, ..t },
            to,
        ),
    ensures
        req.term == t.current_term,
        req.leader_id == t.config.id,
        stray(req) && node::next_of(t, to) > t.log.entries.len() + 1 || {
            let end = req.prev_log_index + req.entries.len();
            &&& end == t.log.entries.len()
            &&& req.entries == t.log.entries.subrange(req.prev_log_index as int, end)
            &&& req.prev_log_term == last_term_of(
                t.log.entries.take(req.prev_log_index as int),
            )
        },
{
    let own = t.log.entries;
    let next = node::next_of(t, to);
    let prev = req.prev_log_index as int;
    if own.len() > 0 {
        lemma_grounded_at(h, own, own.len() - 1);
    }
    if prev <= own.len() {
        assert(req.entries =~= own.subrange(prev, own.len() as int));
        if prev > 0 {
            assert(own.take(prev).last() == own[prev - 1]);
            assert(log::entry_at(t.log, req.prev_log_index) == Some(own[prev - 1]));
        }
    }
}

proof fn lemma_packets_stay_ok(mv: Move, h: History, p: Packet)
    requires
        logs_inv(mv.c, h),
        moved(mv),
        mv.d.net.contains(p),
    ensures
        packet_ok(after_move(mv, h), p),
{
    let Move { c, d, n, event, t, net, delivered } = mv;
    let s = before(mv);
    let k = after_move(mv, h);
    lemma_history_goes_on(mv, h);
    lemma_node(c, h, n);
    if net.contains(p) {
        lemma_packet(c, h, p);
        if let MessageView::AppendEntries(req) = p.msg {
            lemma_leader(c, h, req.term);
            let end = req.prev_log_index + req.entries.len();
            if stretch(h.lead[req.term], h.start[req.term], req) {
                let prev = req.prev_log_index as int;
                let a = h.lead[req.term];
                let b = k.lead[req.term];
                assert(a =~= b.take(a.len() as int));
                assert(a.subrange(prev, end) =~= b.subrange(prev, end));
                assert(a.take(prev) =~= b.take(prev));
            }
        }
    } else {
        let i = p.number - c.next;
        assert(t.outbox[i] == (p.to, p.msg));
        assert(says(s, event, t, p.to, p.msg)) by {
            reveal(says_all);
        }
        lemma_log_stays_grounded(mv, h);
        match p.msg {
            MessageView::AppendEntries(req) => {
                lemma_sent_by_leader(k, t, p.to, req);
                lemma_leader_log_grows(mv, h);
                if wins(s, t) {
                    lemma_winner_is_ok(mv, h);
                } else {
                    lemma_leader_stays_ok(mv, h, t.current_term);
                }
                assert(p.to != n) by {
                    if s.config.peers.contains(p.to) {
                        reveal(elects);
                        assert(c.nodes[n].config.peers.to_set().contains(p.to));
                        assert(c.nodes.dom().remove(n).contains(p.to));
                    } else {
                        lemma_packet(c, h, delivered);
                    }
                }
            },
            MessageView::AppendEntriesReply(resp) => {
                lemma_leader_hears_no_leader(mv, h);
            },
            MessageView::RequestVote(req) => {
                let own = s.log.entries;
                if own.len() > 0 {
                    lemma_grounded_at(h, own, own.len() - 1);
                }
            },
            _ => {},
        }
    }
}

/// What holds of the logs goes on holding.
proof fn lemma_logs_inv_kept(mv: Move, h: History)
    requires
        logs_inv(mv.c, h),
        moved(mv),
    ensures
        logs_inv(mv.d, after_move(mv, h)),
{
    let Move { c, d, n, event, t, net, delivered } = mv;
    let k = after_move(mv, h);
    assert forall|term: u64| #[trigger] k.who.contains_key(term) implies leader_ok(
        d,
        k,
        term,
    ) by {
        if h.who.contains_key(term) {
            lemma_leader_stays_ok(mv, h, term);
        } else {
            assert(term == t.current_term);
            lemma_node(c, h, n);
            if !wins(before(mv), t) {
                lemma_leader_log_grows(mv, h);
            }
            lemma_winner_is_ok(mv, h);
        }
    }
    assert forall|m: Seq<char>| #[trigger] d.nodes.contains_key(m) implies log_ok(d, k, m) by {
        if m == n {
            lemma_node_stays_ok(mv, h);
        } else {
            lemma_other_node_stays_ok(mv, h, m);
        }
    }
    assert forall|v: Seq<char>, term: u64| #[trigger]
        k.ballot_logs.contains_key((v, term)) implies ballot_log_ok(d, k, v, term) by {
        lemma_ballot_logs_stay_ok(mv, h, v, term);
    }
    assert forall|v: Seq<char>, term: u64| #[trigger]
        d.ballots.contains_key((v, term)) implies ballot_ok(d, k, v, term) by {
        lemma_ballots_stay_ok(mv, h, v, term);
    }
    assert forall|p: Packet| #[trigger] d.net.contains(p) implies packet_ok(k, p) by {
        lemma_packets_stay_ok(mv, h, p);
    }
    reveal(logs_inv);
}

// --- what is committed ---

/// What an event does to the commit index: a leader commits what more than half of the
/// cluster has, and a follower as much of its log as the leader says.
spec fn moves_commit(s: NodeState, event: Event, t: NodeState) -> bool {
    match event {
        Event::Message(MessageView::AppendEntries(req)) => t.commit_index == if safety::accepts(
            s,
            req,
        ) && req.leader_commit > s.commit_index {
            if req.leader_commit < log::last_index(t.log) {
                req.leader_commit
            } else {
                log::last_index(t.log)
            }
        } else {
            s.commit_index
        },
        _ => t.commit_index == s.commit_index || {
            &&& t.role == NodeRole::Leader
            &&& s.commit_index < t.commit_index <= log::last_index(t.log)
            &&& node::can_commit(t, t.commit_index)
        },
    }
}

/// What an event does to a leader's view of its peers: a new leader expects its own log
/// to be next for all of them, and an answer moves the peer that gave it.
spec fn moves_indices(s: NodeState, event: Event, t: NodeState) -> bool {
    &&& wins(s, t) ==> {
        let next = (log::last_index(s.log) + 1) as u64;
        &&& t.next_index == node::with_all(s.next_index, s.config.peers, next)
        &&& t.match_index == node::with_all(s.match_index, s.config.peers, 0)
        &&& log::last_index(s.log) < u64::MAX
    }
    &&& t.role == NodeRole::Leader && s.role == NodeRole::Leader ==> match event {
        Event::Message(MessageView::AppendEntriesReply(resp)) => if resp.success && resp.term
            < s.current_term {
            t.next_index == s.next_index && t.match_index == s.match_index
        } else if resp.success {
            &&& resp.term == s.current_term
            &&& resp.match_index < u64::MAX
            &&& t.next_index == s.next_index.insert(resp.from, (resp.match_index + 1) as u64)
            &&& t.match_index == s.match_index.insert(resp.from, resp.match_index)
        } else {
            let next = node::next_of(s, resp.from);
            &&& t.match_index == s.match_index
            &&& t.next_index == s.next_index.insert(
                resp.from,
                if next > 1 {
                    (next - 1) as u64
                } else {
                    1
                },
            )
        },
        _ => t.next_index == s.next_index && t.match_index == s.match_index,
    }
}

proof fn lemma_advanced(x: NodeState)
    ensures
        ({
            let t = node::advanced(x);
            &&& t.log == x.log
            &&& t.config == x.config
            &&& t.current_term == x.current_term
            &&& t.role == x.role
            &&& t.match_index == x.match_index
            &&& t.next_index == x.next_index
            &&& t.commit_index == x.commit_index || {
                &&& x.commit_index < t.commit_index <= log::last_index(t.log)
                &&& node::can_commit(t, t.commit_index)
            }
        }),
{
    let t = node::advanced(x);
    safety::lemma_commit_through(x, log::last_index(x.log));
    safety::lemma_peers_with(t, x, t.config.peers, t.commit_index);
}

proof fn lemma_commit_moves(s: NodeState, event: Event, deadline: u64)
    requires
        safety::event_fits(s, event),
        s.log == as_log(s.log.entries),
        !(event matches Event::Message(MessageView::InstallSnapshot(_))),
    ensures
        moves_commit(s, event, safety::after_event(s, event, deadline)),
{
    let t = safety::after_event(s, event, deadline);
    match event {
        Event::Message(MessageView::AppendEntries(req)) => {
            safety::lemma_same_snapshot_point(s.log, req.entries);
        },
        Event::Message(MessageView::AppendEntriesReply(resp)) => {
            let heard = NodeState {
                next_index: s.next_index.insert(resp.from, (resp.match_index + 1) as u64),
                match_index: s.match_index.insert(resp.from, resp.match_index),
                ..s
            };
            lemma_advanced(heard);
        },
        Event::Message(MessageView::RequestVoteReply(resp)) => {
            lemma_leading_commits(
                NodeState { votes_received: (s.votes_received + 1) as usize, ..s },
            );
        },
        Event::Tick(now) => {
            let candidate = NodeState {
                current_term: (s.current_term + 1) as u64,
                role: NodeRole::Candidate,
                voted_for: Some(s.config.id),
                votes_received: 1,
                election_deadline: deadline,
                ..s
            };
            let asked = NodeState {
                outbox: candidate.outbox + Seq::new(
                    s.config.peers.len(),
                    |i: int|
                        (
                            s.config.peers[i],
                            MessageView::RequestVote(node::vote_request(candidate)),
                        ),
                ),
                ..candidate
            };
            lemma_leading_commits(asked);
        },
        Event::Proposal(op) => {
            lemma_appended_commits(s, log::CommandView::CrdtOp(op));
        },
        _ => {},
    }
}

proof fn lemma_appended_commits(s: NodeState, command: log::CommandView)
    ensures
        ({
            let t = node::appended(s, command);
            &&& t.role == s.role
            &&& t.match_index == s.match_index
            &&& t.next_index == s.next_index
            &&& t.commit_index == s.commit_index || {
                &&& s.commit_index < t.commit_index <= log::last_index(t.log)
                &&& node::can_commit(t, t.commit_index)
            }
        }),
{
    let grown = node::replicated(
        NodeState {
            log: log::with_appended(
                s.log,
                EntryView {
                    index: (log::last_index(s.log) + 1) as u64,
                    term: s.current_term,
                    command,
                },
            ),
            ..s
        },
    );
    lemma_advanced(grown);
}

proof fn lemma_leading_commits(s: NodeState)
    ensures
        ({
            let t = node::leading(s);
            let next = (log::last_index(s.log) + 1) as u64;
            &&& t.role == NodeRole::Leader
            &&& t.next_index == node::with_all(s.next_index, s.config.peers, next)
            &&& t.match_index == node::with_all(s.match_index, s.config.peers, 0)
            &&& t.commit_index == s.commit_index || {
                &&& s.commit_index < t.commit_index <= log::last_index(t.log)
                &&& node::can_commit(t, t.commit_index)
            }
        }),
{
    let next = (log::last_index(s.log) + 1) as u64;
    lemma_appended_commits(
        NodeState {
            role: NodeRole::Leader,
            leader_id: Some(s.config.id),
            next_index: node::with_all(s.next_index, s.config.peers, next),
            match_index: node::with_all(s.match_index, s.config.peers, 0),
            ..s
        },
        log::CommandView::Noop,
    );
}

proof fn lemma_indices_move(s: NodeState, event: Event, deadline: u64)
    requires
        safety::event_fits(s, event),
    ensures
        moves_indices(s, event, safety::after_event(s, event, deadline)),
{
}

/// The log begins with the first `n` entries of the leader's.
spec fn holds(l: Seq<EntryView>, lead: Seq<EntryView>, n: nat) -> bool {
    &&& n <= l.len()
    &&& n <= lead.len()
    &&& l.take(n as int) == lead.take(n as int)
}

/// Every leader of a term between the two was elected with the first `n` entries of what
/// the leader of the first term has.
#[verifier::opaque]
spec fn clear(h: History, term: u64, n: nat, until: int) -> bool {
    forall|u: u64| #[trigger]
        h.who.contains_key(u) && term < u < until ==> n <= h.start[u] && holds(
            h.lead[u],
            h.lead[term],
            n,
        )
}

/// The node has confirmed the first `n` entries of the leader of the term, or was that
/// leader.
spec fn acked(h: History, p: Seq<char>, term: u64, n: nat) -> bool {
    &&& h.who.contains_key(term)
    &&& n <= h.lead[term].len()
    &&& h.who[term] == p || (h.acks.contains_key((p, term)) && n <= h.acks[(p, term)])
}

/// The nodes that have confirmed the first `n` entries of the leader of the term.
spec fn holders(c: Cluster, h: History, term: u64, n: nat) -> Set<Seq<char>> {
    c.nodes.dom().filter(|p: Seq<char>| acked(h, p, term, n))
}

/// The first `n` entries of the leader of the term are there to stay: the last of them is
/// of its own term, and more than half of the cluster has confirmed them.
spec fn chosen(c: Cluster, h: History, term: u64, n: nat) -> bool {
    &&& h.who.contains_key(term)
    &&& h.start[term] < n <= h.lead[term].len()
    &&& holders(c, h, term, n).len() > c.nodes.dom().len() / 2
}

/// The first `n` entries of the log are there to stay, by the word of a leader of a term
/// up to `until`.
spec fn backed(c: Cluster, h: History, l: Seq<EntryView>, n: nat, until: u64) -> bool {
    n == 0 || exists|term: u64, m: nat| #[trigger]
        chosen(c, h, term, m) && n <= m && term <= until && holds(l, h.lead[term], n)
}

/// What a node has confirmed it still has, unless a later leader lacks it.
#[verifier::opaque]
spec fn keeps(c: Cluster, h: History, p: Seq<char>) -> bool {
    forall|term: u64, n: nat| #[trigger]
        acked(h, p, term, n) && clear(h, term, n, c.nodes[p].current_term + 1) ==> holds(
            c.nodes[p].log.entries,
            h.lead[term],
            n,
        )
}

/// What a node had confirmed it still had when it voted, unless a leader in between
/// lacked it.
#[verifier::opaque]
spec fn voted_well(h: History, v: Seq<char>, u: u64) -> bool {
    !h.who.contains_key(u) || h.voters[u].contains(v) ==> forall|term: u64, n: nat| #[trigger]
        acked(h, v, term, n) && term < u && clear(h, term, n, u as int) ==> holds(
            h.ballot_logs[(v, u)],
            h.lead[term],
            n,
        )
}

/// A confirmation reaches an entry of the leader's own term, and not beyond its log.
spec fn ack_ok(c: Cluster, h: History, p: Seq<char>, term: u64) -> bool {
    &&& c.nodes.contains_key(p)
    &&& term <= c.nodes[p].current_term
    &&& h.who.contains_key(term)
    &&& h.start[term] < h.acks[(p, term)] <= h.lead[term].len()
}

/// A leader's view of its peers is right.
spec fn indices_ok(c: Cluster, h: History, n: Seq<char>) -> bool {
    let s = c.nodes[n];
    s.role == NodeRole::Leader ==> forall|p: Seq<char>| #[trigger]
        c.nodes.contains_key(p) && p != n ==> {
            &&& node::next_of(s, p) <= s.log.entries.len() + 1
            &&& node::match_of(s, p) > 0 ==> acked(
                h,
                p,
                s.current_term,
                node::match_of(s, p) as nat,
            )
        }
}

/// What a node has committed is there to stay, and it has applied no more than that.
spec fn commit_ok(c: Cluster, h: History, n: Seq<char>) -> bool {
    let s = c.nodes[n];
    &&& backed(c, h, s.log.entries, s.commit_index as nat, s.current_term)
    &&& s.last_applied <= s.commit_index
    &&& safety::reflects_log(s)
}

/// What is on its way about commits is right.
spec fn commit_packet_ok(c: Cluster, h: History, p: Packet) -> bool {
    match p.msg {
        MessageView::AppendEntries(req) => {
            &&& !stray(req)
            &&& backed(c, h, h.lead[req.term], req.leader_commit as nat, req.term)
        },
        MessageView::AppendEntriesReply(resp) => {
            &&& c.nodes.contains_key(resp.from)
            &&& resp.success ==> acked(h, resp.from, resp.term, resp.match_index as nat)
        },
        _ => true,
    }
}

/// What holds of the commits of a cluster throughout a run.
#[verifier::opaque]
spec fn commit_inv(c: Cluster, h: History) -> bool {
    &&& forall|n: Seq<char>| #[trigger]
        c.nodes.contains_key(n) ==> keeps(c, h, n) && indices_ok(c, h, n) && commit_ok(c, h, n)
    &&& forall|v: Seq<char>, u: u64| #[trigger]
        h.ballot_logs.contains_key((v, u)) ==> voted_well(h, v, u)
    &&& forall|p: Seq<char>, term: u64| #[trigger]
        h.acks.contains_key((p, term)) ==> ack_ok(c, h, p, term)
    &&& forall|p: Packet| #[trigger] c.net.contains(p) ==> commit_packet_ok(c, h, p)
}

/// The first `n` entries of a log are those of the other, and so are fewer of them.
proof fn lemma_holds_less(l: Seq<EntryView>, lead: Seq<EntryView>, n: nat, m: nat)
    requires
        holds(l, lead, n),
        m <= n,
    ensures
        holds(l, lead, m),
{
    assert(l.take(m as int) =~= l.take(n as int).take(m as int));
    assert(lead.take(m as int) =~= lead.take(n as int).take(m as int));
}

proof fn lemma_holds_more(
    l: Seq<EntryView>,
    grown: Seq<EntryView>,
    lead: Seq<EntryView>,
    longer: Seq<EntryView>,
    n: nat,
)
    requires
        holds(l, lead, n),
        l.is_prefix_of(grown),
        lead.is_prefix_of(longer),
    ensures
        holds(grown, longer, n),
{
    assert(l =~= grown.take(l.len() as int));
    assert(lead =~= longer.take(lead.len() as int));
    assert(grown.take(n as int) =~= l.take(n as int));
    assert(longer.take(n as int) =~= lead.take(n as int));
}

/// The terms of a log never go back.
proof fn lemma_terms_grow(c: Cluster, h: History, l: Seq<EntryView>, i: int, j: int)
    requires
        logs_inv(c, h),
        grounded(h, l),
        0 <= i <= j < l.len(),
    ensures
        l[i].term <= l[j].term,
{
    lemma_grounded_at(h, l, j);
    lemma_leader(c, h, l[j].term);
    assert(l.take(j + 1)[i] == h.lead[l[j].term].take(j + 1)[i]);
}

/// A log whose last entry is of a term is the beginning of the log of its leader.
proof fn lemma_of_last_term(h: History, l: Seq<EntryView>)
    requires
        grounded(h, l),
        l.len() > 0,
    ensures
        h.who.contains_key(l.last().term),
        l.is_prefix_of(h.lead[l.last().term]),
        l == h.lead[l.last().term].take(l.len() as int),
{
    lemma_grounded_at(h, l, l.len() - 1);
    assert(l.take(l.len() as int) =~= l);
}

/// Leader completeness: what is there to stay, every later leader was elected with.
proof fn lemma_complete(c: Cluster, h: History, term: u64, n: nat, u: u64)
    requires
        election::is_cluster(c.nodes),
        logs_inv(c, h),
        commit_inv(c, h),
        chosen(c, h, term, n),
        h.who.contains_key(u),
        term < u,
    ensures
        n <= h.start[u],
        holds(h.lead[u], h.lead[term], n),
    decreases u,
{
    assert(clear(h, term, n, u as int)) by {
        reveal(clear);
        assert forall|w: u64| #[trigger] h.who.contains_key(w) && term < w < u implies n
            <= h.start[w] && holds(h.lead[w], h.lead[term], n) by {
            lemma_complete(c, h, term, n, w);
        }
    }
    lemma_leader(c, h, u);
    lemma_leader(c, h, term);
    let winner = h.who[u];
    let a = holders(c, h, term, n);
    let b = h.voters[u];
    assert(exists|v: Seq<char>| #[trigger] a.contains(v) && b.contains(v)) by {
        election::lemma_cluster_size(c.nodes, winner);
        safety::law_committed_reaches_every_election(c.nodes[winner], c.nodes.dom(), a, b);
    }
    let v = choose|v: Seq<char>| #[trigger] a.contains(v) && b.contains(v);
    assert(acked(h, v, term, n));
    assert(election::has_ballot(c, v, u, winner));
    lemma_ballot(c, h, v, u);
    lemma_ballot_log(c, h, v, u);
    let theirs = h.ballot_logs[(v, u)];
    let own = h.lead[u].take(h.start[u] as int);
    assert(voted_well(h, v, u)) by {
        reveal(commit_inv);
    }
    assert(holds(theirs, h.lead[term], n)) by {
        reveal(voted_well);
    }
    let i = n - 1;
    assert(theirs.take(n as int)[i] == h.lead[term].take(n as int)[i]);
    assert(theirs[i].term == term);
    lemma_terms_grow(c, h, theirs, i, theirs.len() - 1);
    lemma_grounded_prefix(h, h.lead[u], h.start[u] as int);
    assert(own.len() > 0);
    lemma_of_last_term(h, theirs);
    lemma_of_last_term(h, own);
    let x = own.last().term;
    assert(own.last() == h.lead[u][h.start[u] - 1]);
    if x == theirs.last().term {
        assert(own.take(n as int) =~= h.lead[x].take(n as int));
        assert(theirs.take(n as int) =~= h.lead[x].take(n as int));
    } else {
        lemma_complete(c, h, term, n, x);
        lemma_leader(c, h, x);
        assert(own.last() == h.lead[x][own.len() - 1]);
        assert(own.take(n as int) =~= h.lead[x].take(n as int));
    }
    assert(h.lead[u].take(n as int) =~= own.take(n as int));
}

// --- one event, and what is committed ---

/// What an event does to what a node has applied.
#[verifier::opaque]
spec fn moves_state(s: NodeState, event: Event, t: NodeState) -> bool {
    &&& t.last_applied == s.last_applied || t.last_applied == t.commit_index
    &&& safety::reflects_log(s) && safety::agree_through(s.log, t.log, s.last_applied)
        ==> safety::reflects_log(t)
}

proof fn lemma_state_moves(s: NodeState, event: Event, deadline: u64)
    requires
        safety::event_fits(s, event),
        !(event matches Event::Message(MessageView::InstallSnapshot(_))),
    ensures
        moves_state(s, event, safety::after_event(s, event, deadline)),
{
    reveal(moves_state);
    let t = safety::after_event(s, event, deadline);
    if safety::reflects_log(s) && safety::agree_through(s.log, t.log, s.last_applied) {
        safety::law_state_reflects_own_log(s, event, deadline);
    }
}

/// The event moves commits as it should.
spec fn commits(mv: Move) -> bool {
    let s = before(mv);
    &&& moves_commit(s, mv.event, mv.t)
    &&& moves_indices(s, mv.event, mv.t)
    &&& moves_state(s, mv.event, mv.t)
}

/// All that is known of an event.
spec fn happens(mv: Move, h: History) -> bool {
    &&& logs_inv(mv.c, h)
    &&& commit_inv(mv.c, h)
    &&& moved(mv)
    &&& commits(mv)
}

proof fn lemma_node_commits(c: Cluster, h: History, n: Seq<char>)
    requires
        commit_inv(c, h),
        c.nodes.contains_key(n),
    ensures
        keeps(c, h, n),
        indices_ok(c, h, n),
        commit_ok(c, h, n),
{
    reveal(commit_inv);
}

proof fn lemma_commit_packet(c: Cluster, h: History, p: Packet)
    requires
        commit_inv(c, h),
        c.net.contains(p),
    ensures
        commit_packet_ok(c, h, p),
{
    reveal(commit_inv);
}

proof fn lemma_ack(c: Cluster, h: History, p: Seq<char>, term: u64)
    requires
        commit_inv(c, h),
        h.acks.contains_key((p, term)),
    ensures
        ack_ok(c, h, p, term),
{
    reveal(commit_inv);
}

/// What a node has confirmed, it has confirmed in a term that it has seen.
proof fn lemma_acked_in_the_past(c: Cluster, h: History, p: Seq<char>, term: u64, n: nat)
    requires
        logs_inv(c, h),
        commit_inv(c, h),
        acked(h, p, term, n),
    ensures
        c.nodes.contains_key(p),
        term <= c.nodes[p].current_term,
        leader_ok(c, h, term),
{
    lemma_leader(c, h, term);
    if h.who[term] != p {
        lemma_ack(c, h, p, term);
    }
}

/// A follower that accepts what the leader sent has the beginning of the leader's log and
/// nothing else.
proof fn lemma_accepted_prefix(mv: Move, h: History, req: AppendEntriesRequestView)
    requires
        logs_inv(mv.c, h),
        moved(mv),
        mv.event == Event::Message(MessageView::AppendEntries(req)),
        safety::accepts(before(mv), req),
    ensures
        mv.t.current_term == req.term,
        h.who.contains_key(req.term),
        h.start[req.term] < mv.t.log.entries.len() <= h.lead[req.term].len(),
        mv.t.log.entries == h.lead[req.term].take(mv.t.log.entries.len() as int),
{
    let lead = h.lead[req.term];
    let own = before(mv).log.entries;
    let after = mv.t.log.entries;
    let end = req.prev_log_index + req.entries.len();
    lemma_accepted(mv, h, req);
    lemma_leader_hears_no_leader(mv, h);
    lemma_node(mv.c, h, mv.n);
    assert(mv.t.current_term == req.term) by {
        reveal(moves_log);
    }
    if after == own {
        lemma_terms_grow(mv.c, h, own, end - 1, own.len() - 1);
        assert(own.take(end)[end - 1] == lead.take(end)[end - 1]);
        lemma_of_last_term(h, own);
    } else {
        assert(after.len() == end);
    }
}

/// What a node has in common with the leader that it heeds, it keeps.
proof fn lemma_keep(mv: Move, h: History, req: AppendEntriesRequestView, m: nat)
    requires
        logs_inv(mv.c, h),
        moved(mv),
        mv.event == Event::Message(MessageView::AppendEntries(req)),
        !stray(req),
        holds(before(mv).log.entries, h.lead[req.term], m),
    ensures
        holds(mv.t.log.entries, h.lead[req.term], m),
{
    let s = before(mv);
    let lead = h.lead[req.term];
    let own = s.log.entries;
    let after = mv.t.log.entries;
    let prev = req.prev_log_index as int;
    let end = req.prev_log_index + req.entries.len();
    lemma_leader_hears_no_leader(mv, h);
    lemma_node(mv.c, h, mv.n);
    if safety::accepts(s, req) {
        lemma_accepted(mv, h, req);
        if m <= end {
            assert(after.take(m as int) =~= after.take(end).take(m as int));
            assert(lead.take(m as int) =~= lead.take(end).take(m as int));
        } else {
            assert forall|i: int| 0 <= i < req.entries.len() implies {
                let at = log::place(s.log, (#[trigger] req.entries[i]).index);
                at < s.log.entries.len() && (at >= 0 ==> s.log.entries[at].term
                    == req.entries[i].term)
            } by {
                assert(req.entries[i] == lead[prev + i]);
                lemma_grounded_at(h, lead, prev + i);
                assert(own.take(m as int)[prev + i] == lead.take(m as int)[prev + i]);
            }
            log::law_known_entries_change_nothing(s.log, req.entries);
            assert(after == own) by {
                reveal(moves_log);
            }
        }
    } else {
        reveal(moves_log);
        if mv.t.log != s.log {
            assert(own[prev - 1].term != req.prev_log_term);
            assert(lead.take(prev).last() == lead[prev - 1]);
            if m >= prev {
                assert(own.take(m as int)[prev - 1] == lead.take(m as int)[prev - 1]);
            }
            assert(after.take(m as int) =~= own.take(m as int));
        }
    }
}

proof fn lemma_acked_stays(mv: Move, h: History, p: Seq<char>, term: u64, n: nat)
    requires
        happens(mv, h),
        acked(h, p, term, n),
    ensures
        acked(after_move(mv, h), p, term, n),
{
    let k = after_move(mv, h);
    let s = before(mv);
    lemma_history_goes_on(mv, h);
    lemma_acked_in_the_past(mv.c, h, p, term, n);
    if let Event::Message(MessageView::AppendEntries(req)) = mv.event {
        if safety::accepts(s, req) && h.who[term] != p && p == mv.n && term
            == mv.t.current_term {
            lemma_accepted_prefix(mv, h, req);
            assert(term == s.current_term);
            lemma_node_commits(mv.c, h, mv.n);
            assert(holds(s.log.entries, h.lead[term], n)) by {
                reveal(keeps);
                assert(clear(h, term, n, s.current_term + 1)) by {
                    reveal(clear);
                }
            }
            lemma_commit_packet(mv.c, h, mv.delivered);
            lemma_keep(mv, h, req, n);
        }
    }
}

proof fn lemma_acked_before(mv: Move, h: History, p: Seq<char>, term: u64, n: nat)
    requires
        happens(mv, h),
        acked(after_move(mv, h), p, term, n),
        p != mv.n || term < mv.t.current_term,
    ensures
        acked(h, p, term, n),
{
    let k = after_move(mv, h);
    let t = mv.t;
    lemma_history_goes_on(mv, h);
    if k.who[term] != p {
        assert(h.acks.contains_key((p, term)) && h.acks[(p, term)] == k.acks[(p, term)]);
        lemma_ack(mv.c, h, p, term);
    } else if t.role == NodeRole::Leader && term == t.current_term {
        assert(k.who[term] == mv.n);
    }
}

proof fn lemma_clear_before(
    mv: Move,
    h: History,
    term: u64,
    n: nat,
    until: int,
    sooner: int,
)
    requires
        happens(mv, h),
        h.who.contains_key(term),
        n <= h.lead[term].len(),
        clear(after_move(mv, h), term, n, until),
        sooner <= until || (sooner == until + 1 && !h.who.contains_key(until as u64) && 0 <= until
            <= u64::MAX),
    ensures
        clear(h, term, n, sooner),
{
    reveal(clear);
    let k = after_move(mv, h);
    lemma_history_goes_on(mv, h);
    lemma_leader(mv.c, h, term);
    assert forall|u: u64| #[trigger] h.who.contains_key(u) && term < u < sooner implies n
        <= h.start[u] && holds(h.lead[u], h.lead[term], n) by {
        lemma_leader(mv.c, h, u);
        assert(k.who.contains_key(u));
        assert(h.lead[u] =~= k.lead[u].take(h.lead[u].len() as int));
        assert(h.lead[term] =~= k.lead[term].take(h.lead[term].len() as int));
        assert(h.lead[u].take(n as int) =~= k.lead[u].take(n as int));
        assert(h.lead[term].take(n as int) =~= k.lead[term].take(n as int));
    }
}

proof fn lemma_chosen_stays(mv: Move, h: History, term: u64, n: nat)
    requires
        happens(mv, h),
        chosen(mv.c, h, term, n),
    ensures
        chosen(mv.d, after_move(mv, h), term, n),
{
    let k = after_move(mv, h);
    lemma_history_goes_on(mv, h);
    lemma_leader(mv.c, h, term);
    let a = holders(mv.c, h, term, n);
    let b = holders(mv.d, k, term, n);
    assert(mv.d.nodes.dom() =~= mv.c.nodes.dom());
    assert forall|p: Seq<char>| #[trigger] a.contains(p) implies b.contains(p) by {
        lemma_acked_stays(mv, h, p, term, n);
    }
    assert(mv.d.nodes.dom().finite()) by {
        reveal(elects);
    }
    vstd::set_lib::lemma_len_subset(b, mv.d.nodes.dom());
    vstd::set_lib::lemma_len_subset(a, b);
}

proof fn lemma_backed_stays(
    mv: Move,
    h: History,
    l: Seq<EntryView>,
    grown: Seq<EntryView>,
    n: nat,
    until: u64,
    later: u64,
)
    requires
        happens(mv, h),
        backed(mv.c, h, l, n, until),
        l.is_prefix_of(grown),
        until <= later,
    ensures
        backed(mv.d, after_move(mv, h), grown, n, later),
{
    let k = after_move(mv, h);
    if n > 0 {
        let (term, m) = choose|term: u64, m: nat| #[trigger]
            chosen(mv.c, h, term, m) && n <= m && term <= until && holds(l, h.lead[term], n);
        lemma_chosen_stays(mv, h, term, m);
        lemma_history_goes_on(mv, h);
        lemma_leader(mv.c, h, term);
        lemma_holds_more(l, grown, h.lead[term], k.lead[term], n);
    }
}

proof fn lemma_other_keeps(mv: Move, h: History, p: Seq<char>)
    requires
        happens(mv, h),
        mv.c.nodes.contains_key(p),
        p != mv.n,
    ensures
        keeps(mv.d, after_move(mv, h), p),
{
    let k = after_move(mv, h);
    let own = mv.c.nodes[p].log.entries;
    let now = mv.c.nodes[p].current_term;
    assert(mv.d.nodes[p] == mv.c.nodes[p]);
    lemma_node_commits(mv.c, h, p);
    lemma_history_goes_on(mv, h);
    reveal(keeps);
    assert forall|term: u64, n: nat| #[trigger]
        acked(k, p, term, n) && clear(k, term, n, now + 1) implies holds(
        own,
        k.lead[term],
        n,
    ) by {
        lemma_acked_before(mv, h, p, term, n);
        lemma_clear_before(mv, h, term, n, now + 1, now + 1);
        assert(own =~= own.take(own.len() as int));
        lemma_leader(mv.c, h, term);
        lemma_holds_more(own, own, h.lead[term], k.lead[term], n);
    }
}

proof fn lemma_self_keeps_one(mv: Move, h: History, term: u64, n: nat)
    requires
        happens(mv, h),
        acked(after_move(mv, h), mv.n, term, n),
        clear(after_move(mv, h), term, n, mv.t.current_term + 1),
    ensures
        holds(mv.t.log.entries, after_move(mv, h).lead[term], n),
{
    let k = after_move(mv, h);
    let s = before(mv);
    let t = mv.t;
    let own = s.log.entries;
    let after = t.log.entries;
    lemma_history_goes_on(mv, h);
    lemma_node(mv.c, h, mv.n);
    lemma_node_commits(mv.c, h, mv.n);
    lemma_logs_inv_kept(mv, h);
    lemma_leader(mv.d, k, term);
    lemma_leader_hears_no_leader(mv, h);
    if t.role == NodeRole::Leader && term == t.current_term {
        assert(k.lead[term] == after);
    } else if mv.event matches Event::Message(MessageView::AppendEntries(req))
        && safety::accepts(s, req) && term == t.current_term {
        let req = mv.event->Message_0->AppendEntries_0;
        lemma_accepted_prefix(mv, h, req);
        assert(k.who[term] != mv.n);
        assert(k.lead[term] == h.lead[term]);
        assert(after.take(n as int) =~= h.lead[term].take(n as int));
    } else {
        assert(acked(h, mv.n, term, n)) by {
            if term == t.current_term {
                assert(k.who[term] != mv.n);
                assert(h.acks.contains_key((mv.n, term)));
                lemma_ack(mv.c, h, mv.n, term);
            } else {
                lemma_acked_in_the_past_after(mv, h, term, n);
                lemma_acked_before(mv, h, mv.n, term, n);
            }
        }
        lemma_acked_in_the_past(mv.c, h, mv.n, term, n);
        lemma_clear_before(mv, h, term, n, t.current_term + 1, s.current_term + 1);
        assert(holds(own, h.lead[term], n)) by {
            reveal(keeps);
        }
        if let Event::Message(MessageView::AppendEntries(req)) = mv.event {
            lemma_commit_packet(mv.c, h, mv.delivered);
            if req.term < s.current_term {
                assert(t.log == s.log) by {
                    reveal(moves_log);
                }
                assert(own =~= own.take(own.len() as int));
                lemma_holds_more(own, after, h.lead[term], k.lead[term], n);
            } else {
                assert(t.current_term == req.term) by {
                    reveal(moves_log);
                }
                assert(t.role != NodeRole::Leader) by {
                    reveal(moves_log);
                }
                assert(k.lead == h.lead);
                if term < req.term {
                    assert(holds(h.lead[req.term], h.lead[term], n)) by {
                        lemma_clear_before(
                            mv,
                            h,
                            term,
                            n,
                            t.current_term + 1,
                            t.current_term + 1,
                        );
                        reveal(clear);
                    }
                }
                lemma_keep(mv, h, req, n);
            }
        } else {
            assert(own.is_prefix_of(after)) by {
                reveal(moves_log);
                assert(own =~= after.take(own.len() as int));
            }
            lemma_holds_more(own, after, h.lead[term], k.lead[term], n);
        }
    }
}

/// What the record after the event says of a confirmation is of a term that has been.
proof fn lemma_acked_in_the_past_after(mv: Move, h: History, term: u64, n: nat)
    requires
        happens(mv, h),
        acked(after_move(mv, h), mv.n, term, n),
    ensures
        term <= mv.t.current_term,
{
    let k = after_move(mv, h);
    lemma_logs_inv_kept(mv, h);
    lemma_leader(mv.d, k, term);
    if k.who[term] != mv.n && term != mv.t.current_term {
        assert(h.acks.contains_key((mv.n, term)));
        lemma_ack(mv.c, h, mv.n, term);
    }
}

proof fn lemma_self_keeps(mv: Move, h: History)
    requires
        happens(mv, h),
    ensures
        keeps(mv.d, after_move(mv, h), mv.n),
{
    let k = after_move(mv, h);
    reveal(keeps);
    assert forall|term: u64, n: nat| #[trigger]
        acked(k, mv.n, term, n) && clear(k, term, n, mv.t.current_term + 1) implies holds(
        mv.t.log.entries,
        k.lead[term],
        n,
    ) by {
        lemma_self_keeps_one(mv, h, term, n);
    }
}

proof fn lemma_still_voted_well(mv: Move, h: History, v: Seq<char>, u: u64)
    requires
        happens(mv, h),
        after_move(mv, h).ballot_logs.contains_key((v, u)),
    ensures
        voted_well(after_move(mv, h), v, u),
{
    let k = after_move(mv, h);
    let s = before(mv);
    let t = mv.t;
    lemma_history_goes_on(mv, h);
    reveal(voted_well);
    if !k.who.contains_key(u) || k.voters[u].contains(v) {
        assert forall|term: u64, n: nat| #[trigger]
            acked(k, v, term, n) && term < u && clear(k, term, n, u as int) implies holds(
            k.ballot_logs[(v, u)],
            k.lead[term],
            n,
        ) by {
            let l = k.ballot_logs[(v, u)];
            assert(l =~= l.take(l.len() as int));
            if h.ballot_logs.contains_key((v, u)) {
                lemma_ballot_log(mv.c, h, v, u);
                lemma_ballots_stay(mv, v, u);
                lemma_acked_before(mv, h, v, term, n);
                lemma_clear_before(mv, h, term, n, u as int, u as int);
                assert(voted_well(h, v, u)) by {
                    reveal(commit_inv);
                }
                lemma_leader(mv.c, h, term);
                lemma_holds_more(l, l, h.lead[term], k.lead[term], n);
            } else {
                assert(v == mv.n && u == t.current_term && votes(s, t));
                lemma_acked_before(mv, h, v, term, n);
                lemma_acked_in_the_past(mv.c, h, v, term, n);
                if s.current_term == u && h.who.contains_key(u) {
                    lemma_leader(mv.c, h, u);
                    assert(h.voters[u].contains(v));
                    assert(election::has_ballot(mv.c, v, u, h.who[u]));
                    lemma_ballots_stay(mv, v, u);
                }
                lemma_clear_before(mv, h, term, n, u as int, s.current_term + 1);
                lemma_node_commits(mv.c, h, v);
                assert(holds(l, h.lead[term], n)) by {
                    reveal(keeps);
                }
                lemma_leader(mv.c, h, term);
                lemma_holds_more(l, l, h.lead[term], k.lead[term], n);
            }
        }
    }
}

proof fn lemma_acks_stay_ok(mv: Move, h: History, p: Seq<char>, term: u64)
    requires
        happens(mv, h),
        after_move(mv, h).acks.contains_key((p, term)),
    ensures
        ack_ok(mv.d, after_move(mv, h), p, term),
{
    let k = after_move(mv, h);
    lemma_history_goes_on(mv, h);
    if let Event::Message(MessageView::AppendEntries(req)) = mv.event {
        if safety::accepts(before(mv), req) && p == mv.n && term == mv.t.current_term {
            lemma_accepted_prefix(mv, h, req);
            lemma_leader(mv.c, h, term);
        } else {
            lemma_ack(mv.c, h, p, term);
            lemma_leader(mv.c, h, term);
        }
    } else {
        lemma_ack(mv.c, h, p, term);
        lemma_leader(mv.c, h, term);
    }
}

proof fn lemma_other_indices(mv: Move, h: History, m: Seq<char>)
    requires
        happens(mv, h),
        mv.c.nodes.contains_key(m),
        m != mv.n,
    ensures
        indices_ok(mv.d, after_move(mv, h), m),
{
    let k = after_move(mv, h);
    let s = mv.c.nodes[m];
    assert(mv.d.nodes[m] == s);
    lemma_node_commits(mv.c, h, m);
    if s.role == NodeRole::Leader {
        assert forall|p: Seq<char>| #[trigger] mv.d.nodes.contains_key(p) && p != m implies {
            &&& node::next_of(s, p) <= s.log.entries.len() + 1
            &&& node::match_of(s, p) > 0 ==> acked(
                k,
                p,
                s.current_term,
                node::match_of(s, p) as nat,
            )
        } by {
            assert(mv.c.nodes.contains_key(p));
            if node::match_of(s, p) > 0 {
                lemma_acked_stays(mv, h, p, s.current_term, node::match_of(s, p) as nat);
            }
        }
    }
}

proof fn lemma_self_indices(mv: Move, h: History)
    requires
        happens(mv, h),
    ensures
        indices_ok(mv.d, after_move(mv, h), mv.n),
{
    let k = after_move(mv, h);
    let s = before(mv);
    let t = mv.t;
    let n = mv.n;
    lemma_node(mv.c, h, n);
    lemma_node_commits(mv.c, h, n);
    if t.role == NodeRole::Leader {
        lemma_leader_log_grows(mv, h);
        if s.log.entries.len() > 0 {
            lemma_grounded_at(h, s.log.entries, s.log.entries.len() - 1);
        }
        assert forall|p: Seq<char>| #[trigger] mv.d.nodes.contains_key(p) && p != n implies {
            &&& node::next_of(t, p) <= t.log.entries.len() + 1
            &&& node::match_of(t, p) > 0 ==> acked(
                k,
                p,
                t.current_term,
                node::match_of(t, p) as nat,
            )
        } by {
            assert(mv.c.nodes.contains_key(p));
            if wins(s, t) {
                assert(s.config.peers.contains(p)) by {
                    reveal(elects);
                    assert(mv.c.nodes[n].config.peers.to_set() == mv.c.nodes.dom().remove(n));
                    assert(mv.c.nodes.dom().remove(n).contains(p));
                    assert(s.config.peers.to_set().contains(p));
                }
            } else {
                if node::match_of(s, p) > 0 {
                    lemma_acked_stays(mv, h, p, s.current_term, node::match_of(s, p) as nat);
                }
                if let Event::Message(MessageView::AppendEntriesReply(resp)) = mv.event {
                    if resp.success && resp.from == p && resp.term >= s.current_term {
                        lemma_commit_packet(mv.c, h, mv.delivered);
                        assert(resp.term == s.current_term);
                        lemma_acked_stays(mv, h, p, s.current_term, resp.match_index as nat);
                    }
                }
            }
        }
    }
}

/// What a node has committed is still there after the event.
proof fn lemma_committed_stays(mv: Move, h: History)
    requires
        happens(mv, h),
    ensures
        ({
            let own = before(mv).log.entries;
            let after = mv.t.log.entries;
            let n = before(mv).commit_index as nat;
            &&& holds(after, own, n)
            &&& backed(mv.d, after_move(mv, h), after, n, mv.t.current_term)
        }),
{
    let k = after_move(mv, h);
    let s = before(mv);
    let t = mv.t;
    let own = s.log.entries;
    let after = t.log.entries;
    let n = s.commit_index as nat;
    lemma_node(mv.c, h, mv.n);
    lemma_node_commits(mv.c, h, mv.n);
    if n == 0 {
        assert(after.take(0) =~= own.take(0));
    } else {
        let (term, m) = choose|term: u64, m: nat| #[trigger]
            chosen(mv.c, h, term, m) && n <= m && term <= s.current_term && holds(
                own,
                h.lead[term],
                n,
            );
        assert(chosen(mv.c, h, term, m));
        if own.is_prefix_of(after) {
            assert(own =~= after.take(own.len() as int));
            assert(after.take(n as int) =~= own.take(n as int));
        } else {
            assert(mv.event matches Event::Message(MessageView::AppendEntries(_))) by {
                reveal(moves_log);
                if t.log == s.log {
                    assert(own =~= after.take(own.len() as int));
                } else if !(mv.event matches Event::Message(MessageView::AppendEntries(_))) {
                    assert(own =~= after.take(own.len() as int));
                }
            }
            let req = mv.event->Message_0->AppendEntries_0;
            lemma_leader_hears_no_leader(mv, h);
            lemma_commit_packet(mv.c, h, mv.delivered);
            assert(req.term >= s.current_term) by {
                reveal(moves_log);
                assert(own =~= own.take(own.len() as int));
            }
            if term < req.term {
                reveal(elects);
                lemma_complete(mv.c, h, term, m, req.term);
                lemma_holds_less(h.lead[req.term], h.lead[term], m, n);
            }
            lemma_keep(mv, h, req, n);
        }
        lemma_history_goes_on(mv, h);
        lemma_leader(mv.c, h, term);
        lemma_chosen_stays(mv, h, term, m);
        assert(holds(after, h.lead[term], n));
        assert(after =~= after.take(after.len() as int));
        lemma_holds_more(after, after, h.lead[term], k.lead[term], n);
    }
}

proof fn lemma_peers_counted(
    s: NodeState,
    peers: Seq<Seq<char>>,
    index: u64,
    group: Set<Seq<char>>,
)
    requires
        peers.no_duplicates(),
        group.finite(),
        forall|i: int|
            0 <= i < peers.len() && node::match_of(s, #[trigger] peers[i]) >= index
                ==> group.contains(peers[i]),
    ensures
        node::peers_with(s, peers, index) <= group.len(),
    decreases peers.len(),
{
    if peers.len() > 0 {
        let front = peers.drop_last();
        let p = peers.last();
        let rest = group.remove(p);
        assert forall|i: int|
            0 <= i < front.len() && node::match_of(s, #[trigger] front[i])
                >= index implies rest.contains(front[i]) by {
            assert(front[i] == peers[i]);
        }
        assert(front.no_duplicates());
        if node::match_of(s, p) >= index {
            assert(peers[peers.len() - 1] == p);
            assert(group.contains(p));
            lemma_peers_counted(s, front, index, rest);
        } else {
            assert forall|i: int|
                0 <= i < front.len() && node::match_of(s, #[trigger] front[i])
                    >= index implies group.contains(front[i]) by {
                assert(front[i] == peers[i]);
            }
            lemma_peers_counted(s, front, index, group);
        }
    }
}

/// What a leader commits is there to stay.
proof fn lemma_leader_commits_chosen(mv: Move, h: History)
    requires
        happens(mv, h),
        mv.t.role == NodeRole::Leader,
        0 < mv.t.commit_index <= log::last_index(mv.t.log),
        node::can_commit(mv.t, mv.t.commit_index),
    ensures
        chosen(
            mv.d,
            after_move(mv, h),
            mv.t.current_term,
            mv.t.commit_index as nat,
        ),
        mv.t.commit_index <= mv.t.log.entries.len(),
{
    let k = after_move(mv, h);
    let t = mv.t;
    let term = t.current_term;
    let index = t.commit_index;
    let n = mv.n;
    lemma_logs_inv_kept(mv, h);
    lemma_log_stays_grounded(mv, h);
    lemma_leader(mv.d, k, term);
    lemma_self_indices(mv, h);
    assert(k.lead[term] == t.log.entries);
    if t.log.entries.len() > 0 {
        lemma_grounded_at(k, t.log.entries, t.log.entries.len() - 1);
    }
    assert(log::entry_at(t.log, index) == Some(t.log.entries[index - 1]));
    let group = holders(mv.d, k, term, index as nat);
    reveal(elects);
    let peers = t.config.peers;
    assert(mv.d.nodes.contains_key(n));
    assert(peers.to_set() == mv.d.nodes.dom().remove(n));
    assert(group.subset_of(mv.d.nodes.dom()));
    vstd::set_lib::lemma_len_subset(group, mv.d.nodes.dom());
    assert(group.contains(n));
    assert forall|i: int|
        0 <= i < peers.len() && node::match_of(t, #[trigger] peers[i])
            >= index implies group.remove(n).contains(peers[i]) by {
        let p = peers[i];
        assert(peers.contains(p));
        assert(peers.to_set().contains(p));
        assert(mv.d.nodes.contains_key(p) && p != n);
        assert(acked(k, p, term, node::match_of(t, p) as nat));
        assert(acked(k, p, term, index as nat));
    }
    lemma_peers_counted(t, peers, index, group.remove(n));
    election::lemma_cluster_size(mv.d.nodes, n);
}

proof fn lemma_self_commits(mv: Move, h: History)
    requires
        happens(mv, h),
    ensures
        commit_ok(mv.d, after_move(mv, h), mv.n),
        mv.t.commit_index >= before(mv).commit_index,
{
    let k = after_move(mv, h);
    let s = before(mv);
    let t = mv.t;
    let own = s.log.entries;
    let after = t.log.entries;
    lemma_committed_stays(mv, h);
    lemma_node(mv.c, h, mv.n);
    lemma_node_commits(mv.c, h, mv.n);
    lemma_log_stays_grounded(mv, h);
    if after.len() > 0 {
        lemma_grounded_at(k, after, after.len() - 1);
    }
    if t.commit_index != s.commit_index {
        if let Event::Message(MessageView::AppendEntries(req)) = mv.event {
            lemma_accepted_prefix(mv, h, req);
            lemma_commit_packet(mv.c, h, mv.delivered);
            lemma_history_goes_on(mv, h);
            let u = req.term;
            let all = req.leader_commit as nat;
            let n = t.commit_index as nat;
            let (term, m) = choose|term: u64, m: nat| #[trigger]
                chosen(mv.c, h, term, m) && all <= m && term <= u && holds(
                    h.lead[u],
                    h.lead[term],
                    all,
                );
            lemma_chosen_stays(mv, h, term, m);
            lemma_leader(mv.c, h, term);
            lemma_holds_less(h.lead[u], h.lead[term], all, n);
            assert(after.take(n as int) =~= h.lead[u].take(n as int));
            assert(holds(after, h.lead[term], n));
            assert(after =~= after.take(after.len() as int));
            lemma_holds_more(after, after, h.lead[term], k.lead[term], n);
        } else {
            lemma_leader_commits_chosen(mv, h);
            assert(k.lead[t.current_term] == after);
            assert(holds(after, k.lead[t.current_term], t.commit_index as nat));
        }
    }
    assert(safety::agree_through(s.log, t.log, s.last_applied)) by {
        let n = s.commit_index as int;
        assert forall|i: u64| 1 <= i <= s.last_applied implies #[trigger] log::entry_at(s.log, i)
            == #[trigger] log::entry_at(t.log, i) by {
            assert(after.take(n)[i - 1] == own.take(n)[i - 1]);
        }
    }
    assert(safety::reflects_log(t)) by {
        reveal(moves_state);
    }
    assert(t.last_applied <= t.commit_index) by {
        reveal(moves_state);
    }
}

proof fn lemma_other_commits(mv: Move, h: History, m: Seq<char>)
    requires
        happens(mv, h),
        mv.c.nodes.contains_key(m),
        m != mv.n,
    ensures
        commit_ok(mv.d, after_move(mv, h), m),
{
    let s = mv.c.nodes[m];
    let own = s.log.entries;
    assert(mv.d.nodes[m] == s);
    lemma_node_commits(mv.c, h, m);
    assert(own =~= own.take(own.len() as int));
    lemma_backed_stays(
        mv,
        h,
        own,
        own,
        s.commit_index as nat,
        s.current_term,
        s.current_term,
    );
}

proof fn lemma_commit_packets_stay_ok(mv: Move, h: History, p: Packet)
    requires
        happens(mv, h),
        mv.d.net.contains(p),
    ensures
        commit_packet_ok(mv.d, after_move(mv, h), p),
{
    let Move { c, d, n, event, t, net, delivered } = mv;
    let s = before(mv);
    let k = after_move(mv, h);
    lemma_history_goes_on(mv, h);
    if net.contains(p) {
        lemma_packet(c, h, p);
        lemma_commit_packet(c, h, p);
        match p.msg {
            MessageView::AppendEntries(req) => {
                lemma_leader(c, h, req.term);
                lemma_backed_stays(
                    mv,
                    h,
                    h.lead[req.term],
                    k.lead[req.term],
                    req.leader_commit as nat,
                    req.term,
                    req.term,
                );
            },
            MessageView::AppendEntriesReply(resp) => {
                if resp.success {
                    lemma_acked_stays(mv, h, resp.from, resp.term, resp.match_index as nat);
                }
            },
            _ => {},
        }
    } else {
        let i = p.number - c.next;
        assert(t.outbox[i] == (p.to, p.msg));
        assert(says(s, event, t, p.to, p.msg)) by {
            reveal(says_all);
        }
        lemma_log_stays_grounded(mv, h);
        lemma_packets_stay_ok(mv, h, p);
        match p.msg {
            MessageView::AppendEntries(req) => {
                lemma_sent_by_leader(k, t, p.to, req);
                lemma_self_indices(mv, h);
                assert(d.nodes.contains_key(p.to)) by {
                    if s.config.peers.contains(p.to) {
                        reveal(elects);
                        assert(c.nodes[n].config.peers.to_set().contains(p.to));
                        assert(c.nodes.dom().remove(n).contains(p.to));
                    } else {
                        lemma_commit_packet(c, h, delivered);
                    }
                }
                assert(p.to != n);
                assert(node::next_of(t, p.to) <= t.log.entries.len() + 1);
                assert(k.lead[req.term] == t.log.entries);
                lemma_committed_stays(mv, h);
                lemma_self_commits(mv, h);
                assert(!stray(req)) by {
                    let own = t.log.entries;
                    let prev = req.prev_log_index as int;
                    if prev > 0 {
                        assert(own.take(prev).last() == own[prev - 1]);
                        lemma_grounded_at(k, own, prev - 1);
                        lemma_logs_inv_kept(mv, h);
                        lemma_leader(d, k, own[prev - 1].term);
                    }
                }
            },
            MessageView::AppendEntriesReply(resp) => {
                if resp.success {
                    let req = event->Message_0->AppendEntries_0;
                    lemma_accepted_prefix(mv, h, req);
                    lemma_leader(c, h, req.term);
                    let after = t.log.entries;
                    lemma_grounded_at(k, after, after.len() - 1);
                }
            },
            _ => {},
        }
    }
}

/// What holds of the commits goes on holding.
proof fn lemma_commit_inv_kept(mv: Move, h: History)
    requires
        happens(mv, h),
    ensures
        commit_inv(mv.d, after_move(mv, h)),
        mv.t.commit_index >= before(mv).commit_index,
{
    let k = after_move(mv, h);
    let d = mv.d;
    lemma_self_commits(mv, h);
    assert forall|m: Seq<char>| #[trigger] d.nodes.contains_key(m) implies keeps(d, k, m)
        && indices_ok(d, k, m) && commit_ok(d, k, m) by {
        if m == mv.n {
            lemma_self_keeps(mv, h);
            lemma_self_indices(mv, h);
        } else {
            assert(mv.c.nodes.contains_key(m));
            lemma_other_keeps(mv, h, m);
            lemma_other_indices(mv, h, m);
            lemma_other_commits(mv, h, m);
        }
    }
    assert forall|v: Seq<char>, u: u64| #[trigger]
        k.ballot_logs.contains_key((v, u)) implies voted_well(k, v, u) by {
        lemma_still_voted_well(mv, h, v, u);
    }
    assert forall|p: Seq<char>, term: u64| #[trigger]
        k.acks.contains_key((p, term)) implies ack_ok(d, k, p, term) by {
        lemma_acks_stay_ok(mv, h, p, term);
    }
    assert forall|p: Packet| #[trigger] d.net.contains(p) implies commit_packet_ok(d, k, p) by {
        lemma_commit_packets_stay_ok(mv, h, p);
    }
    reveal(commit_inv);
}

// --- a run ---

spec fn move_of(c: Cluster, step: Step) -> Move {
    let d = election::after_step(c, step);
    match step {
        Step::Deliver { packet, deadline } => Move {
            c,
            d,
            n: packet.to,
            event: Event::Message(packet.msg),
            t: safety::after_event(c.nodes[packet.to], Event::Message(packet.msg), deadline),
            net: c.net.remove(packet),
            delivered: packet,
        },
        Step::Tick { at, now, deadline } => Move {
            c,
            d,
            n: at,
            event: Event::Tick(now),
            t: safety::after_event(c.nodes[at], Event::Tick(now), deadline),
            net: c.net,
            delivered: arbitrary(),
        },
        Step::Propose { at, op } => Move {
            c,
            d,
            n: at,
            event: Event::Proposal(op),
            t: safety::after_event(c.nodes[at], Event::Proposal(op), 0),
            net: c.net,
            delivered: arbitrary(),
        },
        Step::Lose { packet } => arbitrary(),
    }
}

spec fn deadline_of(step: Step) -> u64 {
    match step {
        Step::Deliver { packet, deadline } => deadline,
        Step::Tick { at, now, deadline } => deadline,
        _ => 0,
    }
}

/// The record after the first `i` steps.
#[verifier::opaque]
spec fn history(run: Seq<Cluster>, steps: Seq<Step>, i: int) -> History
    decreases i,
{
    if i <= 0 {
        no_history()
    } else if steps[i - 1] is Lose {
        history(run, steps, i - 1)
    } else {
        after_move(move_of(run[i - 1], steps[i - 1]), history(run, steps, i - 1))
    }
}

proof fn lemma_step_moves(c: Cluster, h: History, step: Step)
    requires
        election::inv(c),
        logs_inv(c, h),
        election::can_happen(c, step),
        !(step is Lose),
    ensures
        ({
            let mv = move_of(c, step);
            &&& mv.c == c
            &&& mv.d == election::after_step(c, step)
            &&& moved(mv)
            &&& moves_commit(before(mv), mv.event, mv.t)
            &&& moves_indices(before(mv), mv.event, mv.t)
            &&& moves_state(before(mv), mv.event, mv.t)
        }),
{
    let mv = move_of(c, step);
    let deadline = deadline_of(step);
    let Move { c: _, d, n, event, t, net, delivered } = mv;
    let s = c.nodes[n];
    lemma_node(c, h, n);
    if let Event::Message(msg) = event {
        lemma_packet(c, h, delivered);
    }
    assert(election::can_reach(c, n, event, net, delivered));
    assert(d == election::after_event_at(c, n, event, deadline, net));
    assert(t == safety::after_event(s, event, deadline));
    lemma_step_elects(c, n, event, deadline, net, delivered);
    lemma_term_moves(s, event, deadline);
    lemma_log_moves(s, event, deadline);
    lemma_all_said(s, event, deadline);
    lemma_commit_moves(s, event, deadline);
    lemma_indices_move(s, event, deadline);
    lemma_state_moves(s, event, deadline);
}

proof fn lemma_step_elects(
    c: Cluster,
    n: Seq<char>,
    event: Event,
    deadline: u64,
    net: Set<Packet>,
    delivered: Packet,
)
    requires
        election::inv(c),
        election::can_reach(c, n, event, net, delivered),
    ensures
        elects(c, election::after_event_at(c, n, event, deadline, net), n),
        c.nodes[n].config.id == n,
        c.nodes[n].outbox.len() == 0,
        c.nodes[n].role == NodeRole::Candidate ==> c.nodes[n].voted_for == Some(n),
{
    election::lemma_event_keeps_inv(c, n, event, deadline, net, delivered);
    election::lemma_nodes_stay(c, n, event, deadline, net, delivered);
    reveal(elects);
    assert(election::counted_well(c, n));
}

proof fn lemma_all_said(s: NodeState, event: Event, deadline: u64)
    requires
        safety::event_fits(s, event),
        s.log == as_log(s.log.entries),
        s.outbox.len() == 0,
        !(event matches Event::Message(MessageView::InstallSnapshot(_))),
    ensures
        says_all(s, event, safety::after_event(s, event, deadline)),
{
    reveal(says_all);
    let t = safety::after_event(s, event, deadline);
    assert forall|i: int| 0 <= i < t.outbox.len() implies says(
        s,
        event,
        t,
        (#[trigger] t.outbox[i]).0,
        t.outbox[i].1,
    ) by {
        lemma_what_is_said(s, event, deadline, i);
    }
}

proof fn lemma_loss_keeps_logs(c: Cluster, h: History, packet: Packet)
    requires
        logs_inv(c, h),
    ensures
        logs_inv(Cluster { net: c.net.remove(packet), ..c }, h),
{
    let d = Cluster { net: c.net.remove(packet), ..c };
    assert forall|term: u64| #[trigger] h.who.contains_key(term) implies leader_ok(
        d,
        h,
        term,
    ) by {
        lemma_leader(c, h, term);
        assert forall|v: Seq<char>| #[trigger]
            h.voters[term].contains(v) implies election::has_ballot(d, v, term, h.who[term]) by {
            assert(election::has_ballot(c, v, term, h.who[term]));
        }
    }
    assert forall|n: Seq<char>| #[trigger] d.nodes.contains_key(n) implies log_ok(d, h, n) by {
        lemma_node(c, h, n);
    }
    assert forall|v: Seq<char>, term: u64| #[trigger]
        h.ballot_logs.contains_key((v, term)) implies ballot_log_ok(d, h, v, term) by {
        lemma_ballot_log(c, h, v, term);
    }
    assert forall|v: Seq<char>, term: u64| #[trigger]
        d.ballots.contains_key((v, term)) implies ballot_ok(d, h, v, term) by {
        lemma_ballot(c, h, v, term);
    }
    assert forall|p: Packet| #[trigger] d.net.contains(p) implies packet_ok(h, p) by {
        lemma_packet(c, h, p);
    }
    reveal(logs_inv);
}

proof fn lemma_loss_keeps_backed(
    c: Cluster,
    h: History,
    packet: Packet,
    l: Seq<EntryView>,
    n: nat,
    until: u64,
)
    requires
        backed(c, h, l, n, until),
    ensures
        backed(Cluster { net: c.net.remove(packet), ..c }, h, l, n, until),
{
    let d = Cluster { net: c.net.remove(packet), ..c };
    if n > 0 {
        let (term, m) = choose|term: u64, m: nat| #[trigger]
            chosen(c, h, term, m) && n <= m && term <= until && holds(l, h.lead[term], n);
        lemma_loss_keeps_chosen(c, h, packet, term, m);
    }
}

proof fn lemma_loss_keeps_chosen(c: Cluster, h: History, packet: Packet, term: u64, m: nat)
    requires
        chosen(c, h, term, m),
    ensures
        chosen(Cluster { net: c.net.remove(packet), ..c }, h, term, m),
{
    let d = Cluster { net: c.net.remove(packet), ..c };
    assert(holders(d, h, term, m) =~= holders(c, h, term, m));
}

proof fn lemma_loss_keeps_commits(c: Cluster, h: History, packet: Packet)
    requires
        commit_inv(c, h),
    ensures
        commit_inv(Cluster { net: c.net.remove(packet), ..c }, h),
{
    let d = Cluster { net: c.net.remove(packet), ..c };
    assert forall|n: Seq<char>| #[trigger] d.nodes.contains_key(n) implies keeps(d, h, n)
        && indices_ok(d, h, n) && commit_ok(d, h, n) by {
        let s = c.nodes[n];
        lemma_node_commits(c, h, n);
        reveal(keeps);
        lemma_loss_keeps_backed(
            c,
            h,
            packet,
            s.log.entries,
            s.commit_index as nat,
            s.current_term,
        );
    }
    assert forall|p: Seq<char>, term: u64| #[trigger]
        h.acks.contains_key((p, term)) implies ack_ok(d, h, p, term) by {
        lemma_ack(c, h, p, term);
    }
    assert forall|p: Packet| #[trigger] d.net.contains(p) implies commit_packet_ok(d, h, p) by {
        lemma_commit_packet(c, h, p);
        if let MessageView::AppendEntries(req) = p.msg {
            lemma_loss_keeps_backed(
                c,
                h,
                packet,
                h.lead[req.term],
                req.leader_commit as nat,
                req.term,
            );
        }
    }
    reveal(commit_inv);
}

proof fn lemma_new_logs(c: Cluster)
    requires
        election::is_new(c),
    ensures
        logs_inv(c, no_history()),
        commit_inv(c, no_history()),
{
    let h = no_history();
    assert forall|n: Seq<char>| #[trigger] c.nodes.contains_key(n) implies log_ok(c, h, n)
        && keeps(c, h, n) && indices_ok(c, h, n) && commit_ok(c, h, n) by {
        let s = c.nodes[n];
        assert(s == node::started(s.config, s.election_deadline));
        assert(s.log.entries.len() == 0);
        reveal(grounded);
        reveal(keeps);
    }
    reveal(logs_inv);
    reveal(commit_inv);
}

/// What holds of the logs holds throughout a run.
proof fn lemma_run_logs(run: Seq<Cluster>, steps: Seq<Step>, i: int)
    requires
        election::is_run(run, steps),
        0 <= i < run.len(),
    ensures
        election::inv(run[i]),
        logs_inv(run[i], history(run, steps, i)),
    decreases i,
{
    reveal(history);
    if i == 0 {
        election::lemma_new_cluster(run[0]);
        lemma_new_logs(run[0]);
    } else {
        let c = run[i - 1];
        let h = history(run, steps, i - 1);
        let step = steps[i - 1];
        lemma_run_logs(run, steps, i - 1);
        assert(election::can_happen(c, step));
        election::lemma_step_keeps_inv(c, step);
        if let Step::Lose { packet } = step {
            lemma_loss_keeps_logs(c, h, packet);
        } else {
            lemma_step_moves(c, h, step);
            lemma_logs_inv_kept(move_of(c, step), h);
        }
    }
}

/// The event of a step.
proof fn lemma_step_happens(run: Seq<Cluster>, steps: Seq<Step>, i: int)
    requires
        election::is_run(run, steps),
        0 <= i < steps.len(),
        !(steps[i] is Lose),
        commit_inv(run[i], history(run, steps, i)),
    ensures
        happens(move_of(run[i], steps[i]), history(run, steps, i)),
        move_of(run[i], steps[i]).c == run[i],
        move_of(run[i], steps[i]).d == run[i + 1],
{
    let c = run[i];
    let h = history(run, steps, i);
    lemma_run_logs(run, steps, i);
    assert(election::can_happen(c, steps[i]));
    lemma_step_moves(c, h, steps[i]);
}

/// What holds of the commits holds throughout a run.
proof fn lemma_run_commits(run: Seq<Cluster>, steps: Seq<Step>, i: int)
    requires
        election::is_run(run, steps),
        0 <= i < run.len(),
    ensures
        commit_inv(run[i], history(run, steps, i)),
    decreases i,
{
    reveal(history);
    if i == 0 {
        lemma_new_logs(run[0]);
    } else {
        let c = run[i - 1];
        let h = history(run, steps, i - 1);
        let step = steps[i - 1];
        lemma_run_commits(run, steps, i - 1);
        assert(election::can_happen(c, step));
        if let Step::Lose { packet } = step {
            lemma_loss_keeps_commits(c, h, packet);
        } else {
            lemma_step_happens(run, steps, i - 1);
            lemma_commit_inv_kept(move_of(c, step), h);
        }
    }
}

proof fn lemma_goes_on_reflexive(h: History)
    ensures
        goes_on(h, h),
{
    assert forall|term: u64| #[trigger] h.who.contains_key(term) && h.lead.contains_key(
        term,
    ) implies h.lead[term].is_prefix_of(h.lead[term]) by {
        assert(h.lead[term] =~= h.lead[term].take(h.lead[term].len() as int));
    }
}

proof fn lemma_goes_on_transitive(a: History, h: History, k: History)
    requires
        goes_on(a, h),
        goes_on(h, k),
    ensures
        goes_on(a, k),
{
    assert forall|term: u64| #[trigger] a.who.contains_key(term) implies {
        &&& k.who.contains_key(term)
        &&& k.who[term] == a.who[term]
        &&& a.lead.contains_key(term) ==> k.lead.contains_key(term)
            && a.lead[term].is_prefix_of(k.lead[term])
    } by {
        assert(h.who.contains_key(term));
        if a.lead.contains_key(term) {
            let (x, y, z) = (a.lead[term], h.lead[term], k.lead[term]);
            assert(x =~= y.take(x.len() as int));
            assert(y =~= z.take(y.len() as int));
            assert(x =~= z.take(x.len() as int));
        }
    }
}

/// A step keeps the nodes, and the record goes on.
proof fn lemma_step_goes_on(run: Seq<Cluster>, steps: Seq<Step>, i: int)
    requires
        election::is_run(run, steps),
        0 <= i < steps.len(),
    ensures
        goes_on(history(run, steps, i), history(run, steps, i + 1)),
        run[i + 1].nodes.dom() == run[i].nodes.dom(),
{
    reveal(history);
    let h = history(run, steps, i);
    lemma_run_logs(run, steps, i);
    assert(election::can_happen(run[i], steps[i]));
    election::lemma_step_keeps_inv(run[i], steps[i]);
    if steps[i] is Lose {
        lemma_goes_on_reflexive(h);
    } else {
        lemma_step_moves(run[i], h, steps[i]);
        lemma_history_goes_on(move_of(run[i], steps[i]), h);
    }
}

/// A run, without its steps in sight.
#[verifier::opaque]
spec fn is_whole_run(run: Seq<Cluster>, steps: Seq<Step>) -> bool {
    election::is_run(run, steps)
}

/// A step is an event at a node, or the loss of a packet.
proof fn lemma_step_as_move(run: Seq<Cluster>, steps: Seq<Step>, i: int) -> (r: (
    Option<Move>,
    Packet,
))
    requires
        is_whole_run(run, steps),
        0 <= i < run.len() - 1,
    ensures
        match r.0 {
            Some(mv) => {
                &&& happens(mv, history(run, steps, i))
                &&& mv.c == run[i]
                &&& mv.d == run[i + 1]
                &&& history(run, steps, i + 1) == after_move(mv, history(run, steps, i))
            },
            None => {
                &&& run[i + 1] == (Cluster { net: run[i].net.remove(r.1), ..run[i] })
                &&& history(run, steps, i + 1) == history(run, steps, i)
            },
        },
{
    reveal(history);
    reveal(is_whole_run);
    lemma_run_commits(run, steps, i);
    if let Step::Lose { packet } = steps[i] {
        assert(election::can_happen(run[i], steps[i]));
        (None, packet)
    } else {
        lemma_step_happens(run, steps, i);
        (Some(move_of(run[i], steps[i])), arbitrary())
    }
}

proof fn lemma_step_chosen(run: Seq<Cluster>, steps: Seq<Step>, i: int, term: u64, n: nat)
    requires
        is_whole_run(run, steps),
        0 <= i < run.len() - 1,
        chosen(run[i], history(run, steps, i), term, n),
    ensures
        chosen(run[i + 1], history(run, steps, i + 1), term, n),
{
    let h = history(run, steps, i);
    let (step, packet) = lemma_step_as_move(run, steps, i);
    match step {
        Some(mv) => {
            lemma_chosen_stays(mv, h, term, n);
        },
        None => {
            lemma_loss_keeps_chosen(run[i], h, packet, term, n);
        },
    }
}

proof fn lemma_step_commits(run: Seq<Cluster>, steps: Seq<Step>, i: int, a: Seq<char>)
    requires
        is_whole_run(run, steps),
        0 <= i < run.len() - 1,
        run[i].nodes.contains_key(a),
    ensures
        run[i + 1].nodes.contains_key(a),
        run[i + 1].nodes[a].commit_index >= run[i].nodes[a].commit_index,
{
    let (step, packet) = lemma_step_as_move(run, steps, i);
    if let Some(mv) = step {
        lemma_self_commits(mv, history(run, steps, i));
    }
}

/// The record goes on throughout a run.
proof fn lemma_run_goes_on(run: Seq<Cluster>, steps: Seq<Step>, i: int, j: int)
    requires
        election::is_run(run, steps),
        0 <= i <= j < run.len(),
    ensures
        goes_on(history(run, steps, i), history(run, steps, j)),
        run[j].nodes.dom() == run[i].nodes.dom(),
    decreases j,
{
    if i == j {
        lemma_goes_on_reflexive(history(run, steps, i));
    } else {
        lemma_run_goes_on(run, steps, i, j - 1);
        lemma_step_goes_on(run, steps, j - 1);
        lemma_goes_on_transitive(
            history(run, steps, i),
            history(run, steps, j - 1),
            history(run, steps, j),
        );
    }
}

/// What is there to stay stays throughout a run.
proof fn lemma_run_chosen(
    run: Seq<Cluster>,
    steps: Seq<Step>,
    i: int,
    j: int,
    term: u64,
    n: nat,
)
    requires
        is_whole_run(run, steps),
        0 <= i <= j < run.len(),
        chosen(run[i], history(run, steps, i), term, n),
    ensures
        chosen(run[j], history(run, steps, j), term, n),
    decreases j,
{
    if i < j {
        lemma_run_chosen(run, steps, i, j - 1, term, n);
        lemma_step_chosen(run, steps, j - 1, term, n);
    }
}

proof fn lemma_run_commit_grows(
    run: Seq<Cluster>,
    steps: Seq<Step>,
    i: int,
    j: int,
    a: Seq<char>,
)
    requires
        is_whole_run(run, steps),
        0 <= i <= j < run.len(),
        run[i].nodes.contains_key(a),
    ensures
        run[j].nodes.contains_key(a),
        run[i].nodes[a].commit_index <= run[j].nodes[a].commit_index,
    decreases j,
{
    if i < j {
        lemma_run_commit_grows(run, steps, i, j - 1, a);
        lemma_step_commits(run, steps, j - 1, a);
    }
}

// --- the laws ---

/// Log matching: in a run, wherever and whenever two logs have an entry of the same term
/// at an index, they are the same through that index.
pub proof fn law_logs_match_throughout(
    run: Seq<Cluster>,
    steps: Seq<Step>,
    i: int,
    a: Seq<char>,
    j: int,
    b: Seq<char>,
    index: u64,
)
    requires
        election::is_run(run, steps),
        0 <= i <= j < run.len(),
        run[i].nodes.contains_key(a),
        run[j].nodes.contains_key(b),
        log::entry_at(run[i].nodes[a].log, index) is Some,
        log::entry_at(run[j].nodes[b].log, index) is Some,
        log::entry_at(run[i].nodes[a].log, index)->0.term == log::entry_at(
            run[j].nodes[b].log,
            index,
        )->0.term,
    ensures
        safety::agree_through(run[i].nodes[a].log, run[j].nodes[b].log, index),
{
    let h = history(run, steps, i);
    let k = history(run, steps, j);
    let x = run[i].nodes[a].log;
    let y = run[j].nodes[b].log;
    lemma_run_logs(run, steps, i);
    lemma_run_logs(run, steps, j);
    lemma_run_goes_on(run, steps, i, j);
    lemma_node(run[i], h, a);
    lemma_node(run[j], k, b);
    lemma_grounded_goes_on(h, k, x.entries);
    lemma_grounded_logs_match(k, x.entries, y.entries);
}

/// What a node has committed, as it stands on record at a later time.
proof fn lemma_commit_on_record(
    run: Seq<Cluster>,
    steps: Seq<Step>,
    i: int,
    a: Seq<char>,
    j: int,
) -> (r: (u64, nat))
    requires
        election::is_run(run, steps),
        0 <= i <= j < run.len(),
        run[i].nodes.contains_key(a),
        run[i].nodes[a].commit_index > 0,
    ensures
        ({
            let (term, m) = r;
            let k = history(run, steps, j);
            let s = run[i].nodes[a];
            &&& chosen(run[j], k, term, m)
            &&& s.commit_index <= m
            &&& term <= s.current_term
            &&& s.log == as_log(s.log.entries)
            &&& holds(s.log.entries, k.lead[term], s.commit_index as nat)
        }),
{
    let h = history(run, steps, i);
    let k = history(run, steps, j);
    let s = run[i].nodes[a];
    let n = s.commit_index as nat;
    lemma_run_logs(run, steps, i);
    lemma_run_commits(run, steps, i);
    lemma_node(run[i], h, a);
    lemma_node_commits(run[i], h, a);
    let (term, m) = choose|term: u64, m: nat| #[trigger]
        chosen(run[i], h, term, m) && n <= m && term <= s.current_term && holds(
            s.log.entries,
            h.lead[term],
            n,
        );
    assert(chosen(run[j], k, term, m)) by {
        reveal(is_whole_run);
        lemma_run_chosen(run, steps, i, j, term, m);
    }
    lemma_run_goes_on(run, steps, i, j);
    lemma_leader(run[i], h, term);
    assert(s.log.entries =~= s.log.entries.take(s.log.entries.len() as int));
    lemma_holds_more(s.log.entries, s.log.entries, h.lead[term], k.lead[term], n);
    (term, m)
}

proof fn lemma_held_logs_agree(x: LogView, y: LogView, lead: Seq<EntryView>, n: nat)
    requires
        x == as_log(x.entries),
        y == as_log(y.entries),
        holds(x.entries, lead, n),
        holds(y.entries, lead, n),
        n <= u64::MAX,
    ensures
        safety::agree_through(x, y, n as u64),
        forall|i: u64| 1 <= i <= n ==> #[trigger] log::entry_at(x, i) is Some,
{
    assert forall|i: u64| 1 <= i <= n implies #[trigger] log::entry_at(x, i)
        == #[trigger] log::entry_at(y, i) by {
        assert(x.entries.take(n as int)[i - 1] == y.entries.take(n as int)[i - 1]);
    }
}

/// What has been committed stays committed as it is: whenever two nodes of a run have
/// committed through an index, they have the same entries through that index.
pub proof fn law_committed_entries_agree(
    run: Seq<Cluster>,
    steps: Seq<Step>,
    i: int,
    a: Seq<char>,
    j: int,
    b: Seq<char>,
    index: u64,
)
    requires
        election::is_run(run, steps),
        0 <= i <= j < run.len(),
        run[i].nodes.contains_key(a),
        run[j].nodes.contains_key(b),
        1 <= index <= run[i].nodes[a].commit_index,
        index <= run[j].nodes[b].commit_index,
    ensures
        log::entry_at(run[i].nodes[a].log, index) is Some,
        safety::agree_through(run[i].nodes[a].log, run[j].nodes[b].log, index),
{
    let k = history(run, steps, j);
    let x = run[i].nodes[a];
    let y = run[j].nodes[b];
    let n = index as nat;
    let (s, m) = lemma_commit_on_record(run, steps, i, a, j);
    let (t, o) = lemma_commit_on_record(run, steps, j, b, j);
    lemma_run_logs(run, steps, j);
    lemma_run_commits(run, steps, j);
    lemma_holds_less(x.log.entries, k.lead[s], x.commit_index as nat, n);
    lemma_holds_less(y.log.entries, k.lead[t], y.commit_index as nat, n);
    if s < t {
        lemma_complete(run[j], k, s, m, t);
        lemma_holds_less(k.lead[t], k.lead[s], m, n);
        lemma_held_logs_agree(x.log, y.log, k.lead[s], n);
    } else {
        if t < s {
            lemma_complete(run[j], k, t, o, s);
            lemma_holds_less(k.lead[s], k.lead[t], o, n);
        }
        lemma_held_logs_agree(x.log, y.log, k.lead[t], n);
    }
}

/// No committed entry is overwritten: whoever leads later, in a term no earlier, has what
/// was committed.
pub proof fn law_committed_entries_reach_every_leader(
    run: Seq<Cluster>,
    steps: Seq<Step>,
    i: int,
    a: Seq<char>,
    j: int,
    b: Seq<char>,
)
    requires
        election::is_run(run, steps),
        0 <= i <= j < run.len(),
        run[i].nodes.contains_key(a),
        run[j].nodes.contains_key(b),
        run[j].nodes[b].role == NodeRole::Leader,
        run[j].nodes[b].current_term >= run[i].nodes[a].current_term,
    ensures
        safety::agree_through(
            run[i].nodes[a].log,
            run[j].nodes[b].log,
            run[i].nodes[a].commit_index,
        ),
        run[i].nodes[a].commit_index <= log::last_index(run[j].nodes[b].log),
{
    let k = history(run, steps, j);
    let x = run[i].nodes[a];
    let y = run[j].nodes[b];
    let n = x.commit_index as nat;
    if n > 0 {
        let (s, m) = lemma_commit_on_record(run, steps, i, a, j);
        lemma_run_logs(run, steps, j);
        lemma_run_commits(run, steps, j);
        lemma_node(run[j], k, b);
        if s < y.current_term {
            lemma_complete(run[j], k, s, m, y.current_term);
            lemma_holds_less(k.lead[y.current_term], k.lead[s], m, n);
        }
        lemma_held_logs_agree(x.log, y.log, k.lead[s], n);
        lemma_grounded_at(k, y.log.entries, y.log.entries.len() - 1);
    }
}

/// Every committed entry is on a majority of the nodes, then and later.
pub proof fn law_committed_entries_are_on_a_majority(
    run: Seq<Cluster>,
    steps: Seq<Step>,
    i: int,
    a: Seq<char>,
    j: int,
)
    requires
        election::is_run(run, steps),
        0 <= i <= j < run.len(),
        run[i].nodes.contains_key(a),
    ensures
        ({
            let s = run[i].nodes[a];
            let with = run[j].nodes.dom().filter(
                |p: Seq<char>|
                    safety::agree_through(s.log, run[j].nodes[p].log, s.commit_index),
            );
            with.len() > run[j].nodes.dom().len() / 2
        }),
{
    let k = history(run, steps, j);
    let s = run[i].nodes[a];
    let n = s.commit_index as nat;
    let with = run[j].nodes.dom().filter(
        |p: Seq<char>| safety::agree_through(s.log, run[j].nodes[p].log, s.commit_index),
    );
    lemma_run_logs(run, steps, j);
    lemma_run_goes_on(run, steps, i, j);
    if n == 0 {
        assert(with =~= run[j].nodes.dom());
    } else {
        let (term, m) = lemma_commit_on_record(run, steps, i, a, j);
        lemma_run_commits(run, steps, j);
        let group = holders(run[j], k, term, m);
        assert forall|p: Seq<char>| #[trigger] group.contains(p) implies with.contains(p) by {
            let y = run[j].nodes[p];
            lemma_node(run[j], k, p);
            lemma_node_commits(run[j], k, p);
            assert(clear(k, term, m, y.current_term + 1)) by {
                reveal(clear);
                assert forall|u: u64| #[trigger]
                    k.who.contains_key(u) && term < u < y.current_term + 1 implies m
                    <= k.start[u] && holds(k.lead[u], k.lead[term], m) by {
                    lemma_complete(run[j], k, term, m, u);
                }
            }
            assert(holds(y.log.entries, k.lead[term], m)) by {
                reveal(keeps);
                assert(acked(k, p, term, m));
            }
            lemma_holds_less(y.log.entries, k.lead[term], m, n);
            lemma_held_logs_agree(s.log, y.log, k.lead[term], n);
        }
        vstd::set_lib::lemma_len_subset(with, run[j].nodes.dom());
        vstd::set_lib::lemma_len_subset(group, with);
    }
}

/// Replicas agree: whenever two nodes of a run have applied the log through the same
/// index, they hold the same state.
pub proof fn law_applied_states_agree(
    run: Seq<Cluster>,
    steps: Seq<Step>,
    i: int,
    a: Seq<char>,
    j: int,
    b: Seq<char>,
)
    requires
        election::is_run(run, steps),
        0 <= i <= j < run.len(),
        run[i].nodes.contains_key(a),
        run[j].nodes.contains_key(b),
        run[i].nodes[a].last_applied == run[j].nodes[b].last_applied,
    ensures
        run[i].nodes[a].machine == run[j].nodes[b].machine,
{
    let x = run[i].nodes[a];
    let y = run[j].nodes[b];
    lemma_run_commits(run, steps, i);
    lemma_run_commits(run, steps, j);
    lemma_node_commits(run[i], history(run, steps, i), a);
    lemma_node_commits(run[j], history(run, steps, j), b);
    if x.last_applied > 0 {
        law_committed_entries_agree(run, steps, i, a, j, b, x.last_applied);
    }
    safety::law_same_log_same_state(x, y);
}

/// What a node has committed it does not take back.
pub proof fn law_commit_index_only_grows(
    run: Seq<Cluster>,
    steps: Seq<Step>,
    i: int,
    j: int,
    a: Seq<char>,
)
    requires
        election::is_run(run, steps),
        0 <= i <= j < run.len(),
        run[i].nodes.contains_key(a),
    ensures
        run[j].nodes.contains_key(a),
        run[i].nodes[a].commit_index <= run[j].nodes[a].commit_index,
{
    reveal(is_whole_run);
    lemma_run_commit_grows(run, steps, i, j, a);
}

// --- what nodes read ---

/// What a node of a run holds is what the changes that it has applied make of an empty
/// state, one after the other.
pub proof fn law_nodes_replay_what_they_applied(
    run: Seq<Cluster>,
    steps: Seq<Step>,
    i: int,
    a: Seq<char>,
)
    requires
        election::is_run(run, steps),
        0 <= i < run.len(),
        run[i].nodes.contains_key(a),
    ensures
        ({
            let s = run[i].nodes[a];
            &&& s.last_applied <= s.commit_index
            &&& s.machine.state == replicas::state_replay(
                state::empty_state(),
                safety::ops_through(s.log, s.last_applied),
            )
        }),
{
    let s = run[i].nodes[a];
    lemma_run_commits(run, steps, i);
    lemma_node_commits(run[i], history(run, steps, i), a);
    safety::law_state_replays_log(s, s.log);
}

/// The highest write is read: on every node of a run the register of a key is one of the
/// writes to the key that the node has applied, and none of those has a higher stamp. A key
/// to which nothing that was applied writes has no register.
pub proof fn law_highest_applied_write_is_read(
    run: Seq<Cluster>,
    steps: Seq<Step>,
    i: int,
    a: Seq<char>,
    key: KeyView,
)
    requires
        election::is_run(run, steps),
        0 <= i < run.len(),
        run[i].nodes.contains_key(a),
    ensures
        ({
            let s = run[i].nodes[a];
            let writes = replicas::writes_to(safety::ops_through(s.log, s.last_applied), key);
            match state::register_at(s.machine.state, key) {
                Some(held) => lww::is_highest(held, None, writes),
                None => writes.len() == 0,
            }
        }),
{
    let s = run[i].nodes[a];
    let ops = safety::ops_through(s.log, s.last_applied);
    law_nodes_replay_what_they_applied(run, steps, i, a);
    replicas::law_replay_is_keywise(state::empty_state(), ops, key);
    lww::law_highest_write_wins(None, replicas::writes_to(ops, key));
}

/// A write that is committed is read back: whichever node of a run has applied the log
/// through the index of a write that some node has committed, before or after, reads that
/// write or one that has a higher stamp, and no other write that it has applied overwrites
/// what it reads.
pub proof fn law_committed_write_is_read_back(
    run: Seq<Cluster>,
    steps: Seq<Step>,
    i: int,
    a: Seq<char>,
    j: int,
    b: Seq<char>,
    index: u64,
    key: KeyView,
    write: RegisterView,
)
    requires
        election::is_run(run, steps),
        0 <= i < run.len(),
        0 <= j < run.len(),
        run[i].nodes.contains_key(a),
        run[j].nodes.contains_key(b),
        1 <= index <= run[i].nodes[a].commit_index,
        log::entry_at(run[i].nodes[a].log, index) is Some,
        log::entry_at(run[i].nodes[a].log, index)->0.command == log::CommandView::CrdtOp(
            CrdtOpView::SetRegister { key, write },
        ),
        index <= run[j].nodes[b].last_applied,
    ensures
        ({
            let s = run[j].nodes[b];
            let writes = replicas::writes_to(safety::ops_through(s.log, s.last_applied), key);
            &&& writes.contains(write)
            &&& s.machine.state.registers.contains_key(key)
            &&& lww::is_highest(s.machine.state.registers[key], None, writes)
            &&& !lww::overwrites(write, s.machine.state.registers[key])
            &&& (forall|w: RegisterView| #[trigger]
                writes.contains(w) && w != write ==> lww::overwrites(write, w))
                ==> s.machine.state.registers[key] == write
        }),
{
    let s = run[j].nodes[b];
    let op = CrdtOpView::SetRegister { key, write };
    let ops = safety::ops_through(s.log, s.last_applied);
    law_nodes_replay_what_they_applied(run, steps, j, b);
    if i <= j {
        law_committed_entries_agree(run, steps, i, a, j, b, index);
    } else {
        law_committed_entries_agree(run, steps, j, b, i, a, index);
    }
    assert(log::entry_at(s.log, index) == log::entry_at(run[i].nodes[a].log, index));
    safety::lemma_op_is_among(s.log, index, s.last_applied, op);
    replicas::lemma_write_is_among(ops, key, write);
    law_highest_applied_write_is_read(run, steps, j, b, key);
}

} // verus!
