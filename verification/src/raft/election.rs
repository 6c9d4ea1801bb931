//! At most one leader in a term.
//!
//! A cluster is a set of nodes and a network. The network may hold messages back, let
//! them overtake each other and lose them; it does not make copies of them. Whatever it
//! does, no term has two leaders.

use crate::crdt::state::CrdtOpView;
use crate::raft::message::MessageView;
use crate::raft::node;
use crate::raft::node::{NodeRole, NodeState};
use crate::raft::safety;
use crate::raft::safety::Event;
use vstd::prelude::*;

verus! {

/// A message on its way. No two of them have the same number.
pub struct Packet {
    pub number: nat,
    pub to: Seq<char>,
    pub msg: MessageView,
}

/// A cluster: its nodes, what is on its way between them, and a record of the votes. The
/// record has, for each node and term, whom the node voted for, and for each candidate,
/// whose votes it has counted.
pub struct Cluster {
    pub nodes: Map<Seq<char>, NodeState>,
    pub net: Set<Packet>,
    pub next: nat,
    pub ballots: Map<(Seq<char>, u64), Seq<char>>,
    pub counted: Map<Seq<char>, Set<Seq<char>>>,
}

/// What can happen in a cluster.
pub enum Step {
    /// A message arrives.
    Deliver { packet: Packet, deadline: u64 },
    /// A message is lost.
    Lose { packet: Packet },
    /// A node sees the time.
    Tick { at: Seq<char>, now: u64, deadline: u64 },
    /// A client makes a proposal to a node.
    Propose { at: Seq<char>, op: CrdtOpView },
}

/// The packets that messages are sent in.
pub open spec fn packets(outbox: Seq<(Seq<char>, MessageView)>, next: nat) -> Set<Packet> {
    Set::new(
        |p: Packet|
            next <= p.number < next + outbox.len() && outbox[p.number - next] == (p.to, p.msg),
    )
}

/// Whose votes a candidate has counted after an event: none when it has just stood for
/// election.
pub open spec fn counted_after(
    counted: Set<Seq<char>>,
    s: NodeState,
    event: Event,
    t: NodeState,
) -> Set<Seq<char>> {
    if t.current_term > s.current_term && t.role != NodeRole::Follower {
        Set::empty()
    } else {
        match event {
            Event::Message(MessageView::RequestVoteReply(resp)) => if node::counts(s, resp) {
                counted.insert(resp.from)
            } else {
                counted
            },
            _ => counted,
        }
    }
}

/// The cluster after an event at a node, with `net` of what was on its way left.
pub open spec fn after_event_at(
    c: Cluster,
    n: Seq<char>,
    event: Event,
    deadline: u64,
    net: Set<Packet>,
) -> Cluster {
    let s = c.nodes[n];
    let t = safety::after_event(s, event, deadline);
    Cluster {
        nodes: c.nodes.insert(n, NodeState { outbox: Seq::empty(), ..t }),
        net: net.union(packets(t.outbox, c.next)),
        next: c.next + t.outbox.len(),
        ballots: match t.voted_for {
            Some(candidate) => c.ballots.insert((n, t.current_term), candidate),
            None => c.ballots,
        },
        counted: c.counted.insert(n, counted_after(c.counted[n], s, event, t)),
    }
}

/// The step can happen.
pub open spec fn can_happen(c: Cluster, step: Step) -> bool {
    match step {
        Step::Deliver { packet, deadline } => {
            &&& c.net.contains(packet)
            &&& c.nodes.contains_key(packet.to)
            &&& safety::event_fits(c.nodes[packet.to], Event::Message(packet.msg))
        },
        Step::Lose { packet } => true,
        Step::Tick { at, now, deadline } => {
            &&& c.nodes.contains_key(at)
            &&& safety::event_fits(c.nodes[at], Event::Tick(now))
        },
        Step::Propose { at, op } => {
            &&& c.nodes.contains_key(at)
            &&& safety::event_fits(c.nodes[at], Event::Proposal(op))
        },
    }
}

/// The cluster after a step.
pub open spec fn after_step(c: Cluster, step: Step) -> Cluster {
    match step {
        Step::Deliver { packet, deadline } => after_event_at(
            c,
            packet.to,
            Event::Message(packet.msg),
            deadline,
            c.net.remove(packet),
        ),
        Step::Lose { packet } => Cluster { net: c.net.remove(packet), ..c },
        Step::Tick { at, now, deadline } => after_event_at(
            c,
            at,
            Event::Tick(now),
            deadline,
            c.net,
        ),
        Step::Propose { at, op } => after_event_at(c, at, Event::Proposal(op), 0, c.net),
    }
}

/// The nodes of a cluster know each other.
pub open spec fn is_cluster(nodes: Map<Seq<char>, NodeState>) -> bool {
    &&& nodes.dom().finite()
    &&& forall|n: Seq<char>| #[trigger]
        nodes.contains_key(n) ==> {
            let config = nodes[n].config;
            &&& config.id == n
            &&& config.peers.no_duplicates()
            &&& config.peers.to_set() == nodes.dom().remove(n)
            &&& config.election_timeout_min <= config.election_timeout_max
            &&& config.peers.len() < usize::MAX
        }
}

/// A cluster that has just been started.
pub open spec fn is_new(c: Cluster) -> bool {
    &&& is_cluster(c.nodes)
    &&& forall|n: Seq<char>| #[trigger]
        c.nodes.contains_key(n) ==> c.nodes[n] == node::started(
            c.nodes[n].config,
            c.nodes[n].election_deadline,
        )
    &&& c.net == Set::<Packet>::empty()
    &&& c.ballots == Map::<(Seq<char>, u64), Seq<char>>::empty()
    &&& c.counted == Map::new(
        |n: Seq<char>| c.nodes.contains_key(n),
        |n: Seq<char>| Set::<Seq<char>>::empty(),
    )
}

/// A run of a cluster: it starts anew, and each state follows from the one before by a
/// step that can happen.
pub open spec fn is_run(run: Seq<Cluster>, steps: Seq<Step>) -> bool {
    &&& run.len() == steps.len() + 1
    &&& is_new(run[0])
    &&& forall|i: int|
        0 <= i < steps.len() ==> can_happen(run[i], #[trigger] steps[i]) && run[i + 1]
            == after_step(run[i], steps[i])
}

// --- what holds throughout ---

/// The packet asks for a vote.
pub open spec fn asks(p: Packet, candidate: Seq<char>, term: u64, voter: Seq<char>) -> bool {
    &&& p.to == voter
    &&& p.msg matches MessageView::RequestVote(req)
    &&& p.msg->RequestVote_0.candidate_id == candidate
    &&& p.msg->RequestVote_0.term == term
}

/// The packet carries a vote.
pub open spec fn grants(p: Packet, candidate: Seq<char>, term: u64, voter: Seq<char>) -> bool {
    &&& p.to == candidate
    &&& p.msg matches MessageView::RequestVoteReply(resp)
    &&& p.msg->RequestVoteReply_0.vote_granted
    &&& p.msg->RequestVoteReply_0.term == term
    &&& p.msg->RequestVoteReply_0.from == voter
}

/// The packet carries a vote, or the request for one.
pub open spec fn about(p: Packet, candidate: Seq<char>, term: u64, voter: Seq<char>) -> bool {
    asks(p, candidate, term, voter) || grants(p, candidate, term, voter)
}

/// The node has voted for the candidate in the term.
pub open spec fn has_ballot(c: Cluster, voter: Seq<char>, term: u64, candidate: Seq<char>) -> bool {
    c.ballots.contains_key((voter, term)) && c.ballots[(voter, term)] == candidate
}

/// The nodes that voted for a candidate in a term.
pub open spec fn supporters(c: Cluster, candidate: Seq<char>, term: u64) -> Set<Seq<char>> {
    c.nodes.dom().filter(|n: Seq<char>| has_ballot(c, n, term, candidate))
}

/// The record of the votes goes as far as the terms of the nodes, and its last page is
/// what they hold.
pub open spec fn ballots_are_current(c: Cluster) -> bool {
    &&& forall|n: Seq<char>, term: u64| #[trigger]
        c.ballots.contains_key((n, term)) ==> {
            &&& c.nodes.contains_key(n)
            &&& term <= c.nodes[n].current_term
            &&& term == c.nodes[n].current_term ==> c.nodes[n].voted_for == Some(
                c.ballots[(n, term)],
            )
        }
    &&& forall|n: Seq<char>| #[trigger]
        c.nodes.contains_key(n) && c.nodes[n].voted_for is Some ==> has_ballot(
            c,
            n,
            c.nodes[n].current_term,
            c.nodes[n].voted_for->0,
        )
}

/// What is on its way about votes has been said by the nodes.
pub open spec fn net_is_sound(c: Cluster) -> bool {
    &&& forall|p: Packet| #[trigger] c.net.contains(p) ==> p.number < c.next
    &&& forall|p: Packet, q: Packet| #[trigger]
        c.net.contains(p) && #[trigger] c.net.contains(q) && p.number == q.number ==> p == q
    &&& forall|p: Packet, candidate: Seq<char>, term: u64, voter: Seq<char>|
        c.net.contains(p) && #[trigger] about(p, candidate, term, voter) ==> {
            &&& c.nodes.contains_key(candidate)
            &&& c.nodes.contains_key(voter)
            &&& voter != candidate
            &&& term <= c.nodes[candidate].current_term
        }
    &&& forall|p: Packet, candidate: Seq<char>, term: u64, voter: Seq<char>|
        c.net.contains(p) && #[trigger] grants(p, candidate, term, voter) ==> has_ballot(
            c,
            voter,
            term,
            candidate,
        )
}

/// A candidate's request and a voter's answer are not both on their way.
pub open spec fn no_vote_twice(c: Cluster) -> bool {
    forall|p: Packet, q: Packet, candidate: Seq<char>, term: u64, voter: Seq<char>|
        c.net.contains(p) && c.net.contains(q) && #[trigger] about(p, candidate, term, voter)
            && #[trigger] about(q, candidate, term, voter) ==> p == q
}

/// A candidate has counted itself and the voters on record, each of them once.
pub open spec fn counted_well(c: Cluster, n: Seq<char>) -> bool {
    let s = c.nodes[n];
    &&& c.counted.contains_key(n)
    &&& s.role == NodeRole::Candidate ==> {
        &&& s.voted_for == Some(n)
        &&& c.counted[n].finite()
        &&& s.votes_received == 1 + c.counted[n].len()
        &&& forall|v: Seq<char>| #[trigger]
            c.counted[n].contains(v) ==> {
                &&& v != n
                &&& c.nodes.contains_key(v)
                &&& has_ballot(c, v, s.current_term, n)
            }
        &&& forall|v: Seq<char>, p: Packet|
            c.counted[n].contains(v) && c.net.contains(p) ==> !#[trigger] about(
                p,
                n,
                s.current_term,
                v,
            )
    }
}

/// A leader has the votes of a quorum.
pub open spec fn leads_by_quorum(c: Cluster, n: Seq<char>) -> bool {
    c.nodes[n].role == NodeRole::Leader ==> supporters(c, n, c.nodes[n].current_term).len()
        >= node::quorum_size(c.nodes[n])
}

/// Every node is as it should be.
pub open spec fn nodes_are_sound(c: Cluster) -> bool {
    forall|n: Seq<char>| #[trigger]
        c.nodes.contains_key(n) ==> {
            &&& c.nodes[n].outbox == Seq::<(Seq<char>, MessageView)>::empty()
            &&& node::sound(c.nodes[n])
            &&& counted_well(c, n)
            &&& leads_by_quorum(c, n)
        }
}

/// What holds of a cluster throughout a run.
pub open spec fn inv(c: Cluster) -> bool {
    &&& is_cluster(c.nodes)
    &&& ballots_are_current(c)
    &&& net_is_sound(c)
    &&& no_vote_twice(c)
    &&& nodes_are_sound(c)
}

// --- one node ---

/// The event makes the node stand for election.
pub open spec fn stands(s: NodeState, event: Event) -> bool {
    event matches Event::Tick(now) && s.role != NodeRole::Leader && now >= s.election_deadline
}

pub(super) proof fn lemma_vote_of_an_event(s: NodeState, event: Event, deadline: u64)
    requires
        safety::event_fits(s, event),
        node::sound(s),
    ensures
        ({
            let t = safety::after_event(s, event, deadline);
            &&& t.config == s.config
            &&& node::sound(t)
            &&& t.current_term >= s.current_term
            &&& stands(s, event) ==> t.current_term == s.current_term + 1 && t.voted_for == Some(
                s.config.id,
            )
            &&& t.current_term == s.current_term && s.voted_for is Some ==> t.voted_for
                == s.voted_for
            &&& t.voted_for is Some && (t.current_term > s.current_term || s.voted_for is None)
                && !stands(s, event) ==> {
                &&& event matches Event::Message(MessageView::RequestVote(req))
                &&& t.voted_for == Some(event->Message_0->RequestVote_0.candidate_id)
                &&& t.current_term == event->Message_0->RequestVote_0.term
            }
        }),
{
}

pub(super) proof fn lemma_role_of_an_event(s: NodeState, event: Event, deadline: u64)
    requires
        safety::event_fits(s, event),
        node::sound(s),
    ensures
        ({
            let t = safety::after_event(s, event, deadline);
            &&& t.role == NodeRole::Candidate && !stands(s, event) ==> {
                &&& s.role == NodeRole::Candidate
                &&& t.current_term == s.current_term
                &&& match event {
                    Event::Message(MessageView::RequestVoteReply(resp)) => if node::counts(
                        s,
                        resp,
                    ) {
                        t.votes_received == s.votes_received + 1
                    } else {
                        t.votes_received == s.votes_received
                    },
                    _ => t.votes_received == s.votes_received,
                }
            }
            &&& stands(s, event) ==> {
                &&& t.role != NodeRole::Follower
                &&& t.votes_received == 1
                &&& t.role == NodeRole::Leader ==> s.config.peers.len() == 0
            }
            &&& t.role == NodeRole::Leader && s.role != NodeRole::Leader && !stands(s, event)
                ==> {
                &&& event matches Event::Message(MessageView::RequestVoteReply(resp))
                &&& node::counts(s, event->Message_0->RequestVoteReply_0)
                &&& t.current_term == s.current_term
                &&& s.votes_received + 1 >= node::quorum_size(s)
            }
            &&& t.role == NodeRole::Leader && s.role == NodeRole::Leader ==> t.current_term
                == s.current_term
            &&& t.current_term > s.current_term && t.role != NodeRole::Follower ==> stands(
                s,
                event,
            )
        }),
{
}

/// What a node sends about votes: requests to its peers when it stands for election, and
/// a vote in answer to a request for one.
proof fn lemma_messages_of_an_event(s: NodeState, event: Event, deadline: u64)
    requires
        safety::event_fits(s, event),
        node::sound(s),
        s.outbox.len() == 0,
    ensures
        ({
            let t = safety::after_event(s, event, deadline);
            &&& forall|i: int|
                0 <= i < t.outbox.len() && (#[trigger] t.outbox[i]).1 is RequestVote ==> {
                    let req = t.outbox[i].1->RequestVote_0;
                    &&& stands(s, event)
                    &&& i < s.config.peers.len()
                    &&& t.outbox[i].0 == s.config.peers[i]
                    &&& req.candidate_id == s.config.id
                    &&& req.term == t.current_term
                }
            &&& forall|i: int|
                0 <= i < t.outbox.len() && safety::grants((#[trigger] t.outbox[i]).1) ==> {
                    let resp = t.outbox[i].1->RequestVoteReply_0;
                    &&& event matches Event::Message(MessageView::RequestVote(req))
                    &&& i == 0
                    &&& t.outbox[i].0 == event->Message_0->RequestVote_0.candidate_id
                    &&& t.voted_for == Some(t.outbox[i].0)
                    &&& resp.term == t.current_term
                    &&& resp.term == event->Message_0->RequestVote_0.term
                    &&& resp.from == s.config.id
                }
        }),
{
}

// --- the cluster, one event at a time ---

/// An event that can reach a node: a message that was on its way and is so no longer, or
/// something from outside.
pub open spec fn can_reach(
    c: Cluster,
    n: Seq<char>,
    event: Event,
    net: Set<Packet>,
    delivered: Packet,
) -> bool {
    &&& c.nodes.contains_key(n)
    &&& safety::event_fits(c.nodes[n], event)
    &&& net.subset_of(c.net)
    &&& event matches Event::Message(msg) ==> {
        &&& c.net.contains(delivered)
        &&& !net.contains(delivered)
        &&& delivered.to == n
        &&& delivered.msg == msg
    }
}

pub(super) proof fn lemma_nodes_stay(
    c: Cluster,
    n: Seq<char>,
    event: Event,
    deadline: u64,
    net: Set<Packet>,
    delivered: Packet,
)
    requires
        inv(c),
        can_reach(c, n, event, net, delivered),
    ensures
        ({
            let d = after_event_at(c, n, event, deadline, net);
            &&& d.nodes.dom() == c.nodes.dom()
            &&& is_cluster(d.nodes)
            &&& forall|v: Seq<char>| #[trigger]
                c.nodes.contains_key(v) ==> {
                    &&& d.nodes.contains_key(v)
                    &&& d.nodes[v].config == c.nodes[v].config
                    &&& d.nodes[v].current_term >= c.nodes[v].current_term
                    &&& v != n ==> d.nodes[v] == c.nodes[v] && d.counted[v] == c.counted[v]
                }
            &&& forall|v: Seq<char>, term: u64| #[trigger]
                c.ballots.contains_key((v, term)) ==> d.ballots.contains_key((v, term))
                    && d.ballots[(v, term)] == c.ballots[(v, term)]
        }),
{
    let s = c.nodes[n];
    let d = after_event_at(c, n, event, deadline, net);
    assert(node::sound(s) && s.config.id == n);
    lemma_vote_of_an_event(s, event, deadline);
    assert(d.nodes.dom() =~= c.nodes.dom());
    assert forall|v: Seq<char>, term: u64| #[trigger] c.ballots.contains_key((v, term)) implies
        d.ballots.contains_key((v, term)) && d.ballots[(v, term)] == c.ballots[(v, term)] by {
        if v == n {
            assert(term <= s.current_term);
        }
    }
    assert forall|v: Seq<char>| #[trigger] d.nodes.contains_key(v) implies {
        let config = d.nodes[v].config;
        &&& config.id == v
        &&& config.peers.no_duplicates()
        &&& config.peers.to_set() == d.nodes.dom().remove(v)
        &&& config.election_timeout_min <= config.election_timeout_max
        &&& config.peers.len() < usize::MAX
    } by {
        assert(c.nodes.contains_key(v));
    }
}

proof fn lemma_ballots_stay_current(
    c: Cluster,
    n: Seq<char>,
    event: Event,
    deadline: u64,
    net: Set<Packet>,
    delivered: Packet,
)
    requires
        inv(c),
        can_reach(c, n, event, net, delivered),
    ensures
        ballots_are_current(after_event_at(c, n, event, deadline, net)),
{
    let s = c.nodes[n];
    let d = after_event_at(c, n, event, deadline, net);
    lemma_nodes_stay(c, n, event, deadline, net, delivered);
    assert(node::sound(s) && s.config.id == n);
    lemma_vote_of_an_event(s, event, deadline);
    assert forall|v: Seq<char>, term: u64| #[trigger] d.ballots.contains_key((v, term)) implies {
        &&& d.nodes.contains_key(v)
        &&& term <= d.nodes[v].current_term
        &&& term == d.nodes[v].current_term ==> d.nodes[v].voted_for == Some(
            d.ballots[(v, term)],
        )
    } by {
        if !(v == n && term == d.nodes[n].current_term) {
            assert(c.ballots.contains_key((v, term)));
        } else if d.nodes[n].voted_for is None {
            assert(c.ballots.contains_key((v, term)));
        }
    }
    assert forall|v: Seq<char>| #[trigger]
        d.nodes.contains_key(v) && d.nodes[v].voted_for is Some implies has_ballot(
        d,
        v,
        d.nodes[v].current_term,
        d.nodes[v].voted_for->0,
    ) by {
        if v != n {
            assert(c.nodes.contains_key(v));
            assert(has_ballot(c, v, c.nodes[v].current_term, c.nodes[v].voted_for->0));
        }
    }
}

/// What can be said of a packet that is new.
proof fn lemma_new_packet(
    c: Cluster,
    n: Seq<char>,
    event: Event,
    deadline: u64,
    net: Set<Packet>,
    delivered: Packet,
    p: Packet,
    candidate: Seq<char>,
    term: u64,
    voter: Seq<char>,
)
    requires
        inv(c),
        can_reach(c, n, event, net, delivered),
        packets(
            safety::after_event(c.nodes[n], event, deadline).outbox,
            c.next,
        ).contains(p),
        about(p, candidate, term, voter),
    ensures
        ({
            let s = c.nodes[n];
            let t = safety::after_event(s, event, deadline);
            &&& c.nodes.contains_key(candidate)
            &&& c.nodes.contains_key(voter)
            &&& voter != candidate
            &&& asks(p, candidate, term, voter) ==> {
                &&& stands(s, event)
                &&& candidate == n
                &&& term == t.current_term
                &&& p.number - c.next < s.config.peers.len()
                &&& voter == s.config.peers[p.number - c.next]
            }
            &&& grants(p, candidate, term, voter) ==> {
                &&& voter == n
                &&& event is Message
                &&& asks(delivered, candidate, term, voter)
                &&& p.number == c.next
                &&& t.voted_for == Some(candidate)
                &&& t.current_term == term
                &&& term <= c.nodes[candidate].current_term
            }
        }),
{
    let s = c.nodes[n];
    let t = safety::after_event(s, event, deadline);
    assert(node::sound(s) && s.config.id == n && s.outbox.len() == 0);
    lemma_messages_of_an_event(s, event, deadline);
    let i = p.number - c.next;
    assert(t.outbox[i] == (p.to, p.msg));
    if asks(p, candidate, term, voter) {
        assert(s.config.peers.contains(voter)) by {
            assert(s.config.peers[i] == voter);
        }
        assert(s.config.peers.to_set().contains(voter));
        assert(c.nodes.dom().remove(n).contains(voter));
    }
    if grants(p, candidate, term, voter) {
        assert(safety::grants(t.outbox[i].1));
        assert(asks(delivered, candidate, term, voter));
        assert(about(delivered, candidate, term, voter));
    }
}

proof fn lemma_net_stays_sound(
    c: Cluster,
    n: Seq<char>,
    event: Event,
    deadline: u64,
    net: Set<Packet>,
    delivered: Packet,
)
    requires
        inv(c),
        can_reach(c, n, event, net, delivered),
    ensures
        net_is_sound(after_event_at(c, n, event, deadline, net)),
{
    let s = c.nodes[n];
    let t = safety::after_event(s, event, deadline);
    let d = after_event_at(c, n, event, deadline, net);
    let fresh = packets(t.outbox, c.next);
    lemma_nodes_stay(c, n, event, deadline, net, delivered);
    lemma_ballots_stay_current(c, n, event, deadline, net, delivered);
    assert forall|p: Packet| #[trigger] d.net.contains(p) implies p.number < d.next by {
        if net.contains(p) {
            assert(c.net.contains(p));
        }
    }
    assert forall|p: Packet, q: Packet| #[trigger]
        d.net.contains(p) && #[trigger] d.net.contains(q) && p.number == q.number implies p == q by {
        if net.contains(p) {
            assert(c.net.contains(p));
        }
        if net.contains(q) {
            assert(c.net.contains(q));
        }
        if !net.contains(p) && !net.contains(q) {
            assert(fresh.contains(p) && fresh.contains(q));
        }
    }
    assert forall|p: Packet, candidate: Seq<char>, term: u64, voter: Seq<char>|
        d.net.contains(p) && #[trigger] about(p, candidate, term, voter) implies {
        &&& d.nodes.contains_key(candidate)
        &&& d.nodes.contains_key(voter)
        &&& voter != candidate
        &&& term <= d.nodes[candidate].current_term
    } by {
        if net.contains(p) {
            assert(c.net.contains(p));
            assert(c.nodes.contains_key(candidate) && c.nodes.contains_key(voter));
        } else {
            lemma_new_packet(
                c,
                n,
                event,
                deadline,
                net,
                delivered,
                p,
                candidate,
                term,
                voter,
            );
        }
    }
    assert forall|p: Packet, candidate: Seq<char>, term: u64, voter: Seq<char>|
        d.net.contains(p) && #[trigger] grants(p, candidate, term, voter) implies has_ballot(
        d,
        voter,
        term,
        candidate,
    ) by {
        if net.contains(p) {
            assert(c.net.contains(p));
            assert(has_ballot(c, voter, term, candidate));
        } else {
            assert(about(p, candidate, term, voter));
            lemma_new_packet(
                c,
                n,
                event,
                deadline,
                net,
                delivered,
                p,
                candidate,
                term,
                voter,
            );
        }
    }
}

proof fn lemma_still_no_vote_twice(
    c: Cluster,
    n: Seq<char>,
    event: Event,
    deadline: u64,
    net: Set<Packet>,
    delivered: Packet,
)
    requires
        inv(c),
        can_reach(c, n, event, net, delivered),
    ensures
        no_vote_twice(after_event_at(c, n, event, deadline, net)),
{
    let s = c.nodes[n];
    let t = safety::after_event(s, event, deadline);
    let d = after_event_at(c, n, event, deadline, net);
    let fresh = packets(t.outbox, c.next);
    assert(node::sound(s) && s.config.id == n && s.outbox.len() == 0);
    lemma_vote_of_an_event(s, event, deadline);
    assert forall|p: Packet, q: Packet, candidate: Seq<char>, term: u64, voter: Seq<char>|
        d.net.contains(p) && d.net.contains(q) && #[trigger] about(p, candidate, term, voter)
            && #[trigger] about(q, candidate, term, voter) implies p == q by {
        if !net.contains(p) {
            lemma_new_packet(
                c,
                n,
                event,
                deadline,
                net,
                delivered,
                p,
                candidate,
                term,
                voter,
            );
        }
        if !net.contains(q) {
            lemma_new_packet(
                c,
                n,
                event,
                deadline,
                net,
                delivered,
                q,
                candidate,
                term,
                voter,
            );
        }
        if net.contains(p) && net.contains(q) {
            assert(c.net.contains(p) && c.net.contains(q));
        } else if net.contains(p) {
            lemma_old_and_new(c, n, event, deadline, net, delivered, p, q, candidate, term, voter);
        } else if net.contains(q) {
            lemma_old_and_new(c, n, event, deadline, net, delivered, q, p, candidate, term, voter);
        } else if asks(p, candidate, term, voter) && asks(q, candidate, term, voter) {
            let i = p.number - c.next;
            let j = q.number - c.next;
            assert(s.config.peers[i] == s.config.peers[j]);
            assert(i == j);
            assert(fresh.contains(p) && fresh.contains(q));
        } else if grants(p, candidate, term, voter) && grants(q, candidate, term, voter) {
            assert(fresh.contains(p) && fresh.contains(q));
        }
    }
}

/// Nothing that was on its way is about the same vote as something new.
proof fn lemma_old_and_new(
    c: Cluster,
    n: Seq<char>,
    event: Event,
    deadline: u64,
    net: Set<Packet>,
    delivered: Packet,
    p: Packet,
    q: Packet,
    candidate: Seq<char>,
    term: u64,
    voter: Seq<char>,
)
    requires
        inv(c),
        can_reach(c, n, event, net, delivered),
        net.contains(p),
        packets(
            safety::after_event(c.nodes[n], event, deadline).outbox,
            c.next,
        ).contains(q),
        about(q, candidate, term, voter),
    ensures
        !about(p, candidate, term, voter),
{
    let s = c.nodes[n];
    assert(c.net.contains(p));
    assert(node::sound(s));
    lemma_vote_of_an_event(s, event, deadline);
    lemma_new_packet(c, n, event, deadline, net, delivered, q, candidate, term, voter);
    if about(p, candidate, term, voter) {
        if asks(q, candidate, term, voter) {
            assert(term <= c.nodes[candidate].current_term);
        } else {
            assert(about(delivered, candidate, term, voter));
            assert(p == delivered);
        }
    }
}

proof fn lemma_others_still_counted_well(
    c: Cluster,
    n: Seq<char>,
    event: Event,
    deadline: u64,
    net: Set<Packet>,
    delivered: Packet,
    m: Seq<char>,
)
    requires
        inv(c),
        can_reach(c, n, event, net, delivered),
        c.nodes.contains_key(m),
        m != n,
    ensures
        counted_well(after_event_at(c, n, event, deadline, net), m),
{
    let d = after_event_at(c, n, event, deadline, net);
    lemma_nodes_stay(c, n, event, deadline, net, delivered);
    assert(counted_well(c, m));
    if c.nodes[m].role == NodeRole::Candidate {
        let term = c.nodes[m].current_term;
        assert forall|v: Seq<char>| #[trigger] d.counted[m].contains(v) implies {
            &&& v != m
            &&& d.nodes.contains_key(v)
            &&& has_ballot(d, v, term, m)
        } by {
            assert(c.counted[m].contains(v));
            assert(has_ballot(c, v, term, m));
        }
        assert forall|v: Seq<char>, p: Packet| d.counted[m].contains(v) && d.net.contains(
            p,
        ) implies !#[trigger] about(p, m, term, v) by {
            assert(c.counted[m].contains(v));
            if about(p, m, term, v) {
                if net.contains(p) {
                    assert(c.net.contains(p));
                } else {
                    lemma_new_packet(c, n, event, deadline, net, delivered, p, m, term, v);
                    assert(about(delivered, m, term, v));
                }
            }
        }
    }
}

proof fn lemma_self_still_counted_well(
    c: Cluster,
    n: Seq<char>,
    event: Event,
    deadline: u64,
    net: Set<Packet>,
    delivered: Packet,
)
    requires
        inv(c),
        can_reach(c, n, event, net, delivered),
    ensures
        counted_well(after_event_at(c, n, event, deadline, net), n),
{
    let s = c.nodes[n];
    let t = safety::after_event(s, event, deadline);
    let d = after_event_at(c, n, event, deadline, net);
    lemma_nodes_stay(c, n, event, deadline, net, delivered);
    assert(node::sound(s) && s.config.id == n && s.outbox.len() == 0);
    assert(counted_well(c, n));
    lemma_vote_of_an_event(s, event, deadline);
    lemma_role_of_an_event(s, event, deadline);
    if t.role == NodeRole::Candidate && !stands(s, event) {
        let term = s.current_term;
        lemma_counted_grows(c, n, event, deadline, net, delivered);
        assert forall|v: Seq<char>, p: Packet| d.counted[n].contains(v) && d.net.contains(
            p,
        ) implies !#[trigger] about(p, n, term, v) by {
            if about(p, n, term, v) {
                if net.contains(p) {
                    assert(c.net.contains(p));
                    if !c.counted[n].contains(v) {
                        assert(about(delivered, n, term, v));
                        assert(p == delivered);
                    }
                } else {
                    lemma_new_packet(c, n, event, deadline, net, delivered, p, n, term, v);
                }
            }
        }
    }
}

/// Counting a vote counts one that had not been counted.
proof fn lemma_counted_grows(
    c: Cluster,
    n: Seq<char>,
    event: Event,
    deadline: u64,
    net: Set<Packet>,
    delivered: Packet,
)
    requires
        inv(c),
        can_reach(c, n, event, net, delivered),
        c.nodes[n].role == NodeRole::Candidate,
        safety::after_event(c.nodes[n], event, deadline).current_term == c.nodes[n].current_term,
    ensures
        ({
            let s = c.nodes[n];
            let d = after_event_at(c, n, event, deadline, net);
            let counts = match event {
                Event::Message(MessageView::RequestVoteReply(resp)) => node::counts(s, resp),
                _ => false,
            };
            &&& d.counted[n].finite()
            &&& d.counted[n].len() == c.counted[n].len() + if counts {
                1int
            } else {
                0int
            }
            &&& forall|v: Seq<char>| #[trigger]
                d.counted[n].contains(v) ==> {
                    &&& v != n
                    &&& d.nodes.contains_key(v)
                    &&& has_ballot(d, v, s.current_term, n)
                }
            &&& forall|v: Seq<char>| #[trigger]
                d.counted[n].contains(v) && !c.counted[n].contains(v) ==> grants(
                    delivered,
                    n,
                    s.current_term,
                    v,
                )
        }),
{
    let s = c.nodes[n];
    let d = after_event_at(c, n, event, deadline, net);
    let term = s.current_term;
    lemma_nodes_stay(c, n, event, deadline, net, delivered);
    assert(counted_well(c, n));
    if let Event::Message(MessageView::RequestVoteReply(resp)) = event {
        if node::counts(s, resp) {
            let v = resp.from;
            assert(grants(delivered, n, term, v));
            assert(about(delivered, n, term, v));
            assert(has_ballot(c, v, term, n));
            assert(!c.counted[n].contains(v));
        }
    }
    assert forall|v: Seq<char>| #[trigger] d.counted[n].contains(v) implies {
        &&& v != n
        &&& d.nodes.contains_key(v)
        &&& has_ballot(d, v, term, n)
    } by {
        if c.counted[n].contains(v) {
            assert(has_ballot(c, v, term, n));
        } else {
            assert(grants(delivered, n, term, v));
            assert(about(delivered, n, term, v));
            assert(has_ballot(c, v, term, n));
        }
    }
}

pub(super) proof fn lemma_others_still_lead(
    c: Cluster,
    n: Seq<char>,
    event: Event,
    deadline: u64,
    net: Set<Packet>,
    delivered: Packet,
    m: Seq<char>,
    term: u64,
)
    requires
        inv(c),
        can_reach(c, n, event, net, delivered),
    ensures
        supporters(after_event_at(c, n, event, deadline, net), m, term).len() >= supporters(
            c,
            m,
            term,
        ).len(),
{
    let d = after_event_at(c, n, event, deadline, net);
    lemma_nodes_stay(c, n, event, deadline, net, delivered);
    let before = supporters(c, m, term);
    let after = supporters(d, m, term);
    assert forall|v: Seq<char>| #[trigger] before.contains(v) implies after.contains(v) by {
        assert(has_ballot(c, v, term, m));
        assert(has_ballot(d, v, term, m));
    }
    assert(after.subset_of(d.nodes.dom()));
    vstd::set_lib::lemma_len_subset(after, d.nodes.dom());
    vstd::set_lib::lemma_len_subset(before, after);
}

proof fn lemma_self_still_leads(
    c: Cluster,
    n: Seq<char>,
    event: Event,
    deadline: u64,
    net: Set<Packet>,
    delivered: Packet,
)
    requires
        inv(c),
        can_reach(c, n, event, net, delivered),
    ensures
        leads_by_quorum(after_event_at(c, n, event, deadline, net), n),
{
    let s = c.nodes[n];
    let t = safety::after_event(s, event, deadline);
    let d = after_event_at(c, n, event, deadline, net);
    lemma_nodes_stay(c, n, event, deadline, net, delivered);
    lemma_ballots_stay_current(c, n, event, deadline, net, delivered);
    assert(node::sound(s) && s.config.id == n && s.outbox.len() == 0);
    assert(counted_well(c, n) && leads_by_quorum(c, n));
    lemma_vote_of_an_event(s, event, deadline);
    lemma_role_of_an_event(s, event, deadline);
    if t.role == NodeRole::Leader {
        let term = t.current_term;
        let backing = supporters(d, n, term);
        assert(backing.subset_of(d.nodes.dom()));
        vstd::set_lib::lemma_len_subset(backing, d.nodes.dom());
        if s.role == NodeRole::Leader {
            lemma_others_still_lead(c, n, event, deadline, net, delivered, n, term);
        } else {
            let own = if stands(s, event) {
                Set::<Seq<char>>::empty()
            } else {
                lemma_counted_grows(c, n, event, deadline, net, delivered);
                d.counted[n]
            };
            assert(t.voted_for == Some(n));
            assert(has_ballot(d, n, term, n));
            assert(!own.contains(n));
            assert(own.insert(n).len() == own.len() + 1);
            assert forall|v: Seq<char>| #[trigger] own.insert(n).contains(v) implies
                backing.contains(v) by {
                assert(has_ballot(d, v, term, n));
            }
            vstd::set_lib::lemma_len_subset(own.insert(n), backing);
        }
    }
}

pub(super) proof fn lemma_event_keeps_inv(
    c: Cluster,
    n: Seq<char>,
    event: Event,
    deadline: u64,
    net: Set<Packet>,
    delivered: Packet,
)
    requires
        inv(c),
        can_reach(c, n, event, net, delivered),
    ensures
        inv(after_event_at(c, n, event, deadline, net)),
{
    let s = c.nodes[n];
    let d = after_event_at(c, n, event, deadline, net);
    lemma_nodes_stay(c, n, event, deadline, net, delivered);
    lemma_ballots_stay_current(c, n, event, deadline, net, delivered);
    lemma_net_stays_sound(c, n, event, deadline, net, delivered);
    lemma_still_no_vote_twice(c, n, event, deadline, net, delivered);
    lemma_self_still_counted_well(c, n, event, deadline, net, delivered);
    lemma_self_still_leads(c, n, event, deadline, net, delivered);
    assert(node::sound(s));
    lemma_vote_of_an_event(s, event, deadline);
    assert forall|m: Seq<char>| #[trigger] d.nodes.contains_key(m) implies {
        &&& d.nodes[m].outbox == Seq::<(Seq<char>, MessageView)>::empty()
        &&& node::sound(d.nodes[m])
        &&& counted_well(d, m)
        &&& leads_by_quorum(d, m)
    } by {
        assert(c.nodes.contains_key(m));
        if m != n {
            lemma_others_still_counted_well(c, n, event, deadline, net, delivered, m);
            lemma_others_still_lead(
                c,
                n,
                event,
                deadline,
                net,
                delivered,
                m,
                c.nodes[m].current_term,
            );
            assert(leads_by_quorum(c, m));
        }
    }
}

pub(super) proof fn lemma_loss_keeps_inv(c: Cluster, packet: Packet)
    requires
        inv(c),
    ensures
        inv(Cluster { net: c.net.remove(packet), ..c }),
{
    let d = Cluster { net: c.net.remove(packet), ..c };
    assert forall|p: Packet| #[trigger] d.net.contains(p) implies c.net.contains(p) by {}
    assert forall|v: Seq<char>, term: u64, m: Seq<char>| #[trigger]
        has_ballot(d, v, term, m) == has_ballot(c, v, term, m) by {}
    assert forall|m: Seq<char>| #[trigger] d.nodes.contains_key(m) implies {
        &&& d.nodes[m].outbox == Seq::<(Seq<char>, MessageView)>::empty()
        &&& node::sound(d.nodes[m])
        &&& counted_well(d, m)
        &&& leads_by_quorum(d, m)
    } by {
        assert(c.nodes.contains_key(m));
        assert(counted_well(c, m) && leads_by_quorum(c, m));
        assert(supporters(d, m, d.nodes[m].current_term) =~= supporters(
            c,
            m,
            c.nodes[m].current_term,
        ));
    }
    assert forall|m: Seq<char>| #[trigger]
        d.nodes.contains_key(m) && d.nodes[m].voted_for is Some implies has_ballot(
        d,
        m,
        d.nodes[m].current_term,
        d.nodes[m].voted_for->0,
    ) by {
        assert(c.nodes.contains_key(m));
        assert(has_ballot(c, m, c.nodes[m].current_term, c.nodes[m].voted_for->0));
    }
    assert forall|p: Packet, candidate: Seq<char>, term: u64, voter: Seq<char>|
        d.net.contains(p) && #[trigger] grants(p, candidate, term, voter) implies has_ballot(
        d,
        voter,
        term,
        candidate,
    ) by {
        assert(c.net.contains(p));
        assert(has_ballot(c, voter, term, candidate));
    }
}

pub(super) proof fn lemma_step_keeps_inv(c: Cluster, step: Step)
    requires
        inv(c),
        can_happen(c, step),
    ensures
        inv(after_step(c, step)),
        after_step(c, step).nodes.dom() == c.nodes.dom(),
        forall|v: Seq<char>, term: u64| #[trigger]
            c.ballots.contains_key((v, term)) ==> after_step(c, step).ballots.contains_key(
                (v, term),
            ) && after_step(c, step).ballots[(v, term)] == c.ballots[(v, term)],
{
    let none = Packet { number: 0, to: Seq::empty(), msg: arbitrary() };
    match step {
        Step::Deliver { packet, deadline } => {
            let net = c.net.remove(packet);
            lemma_event_keeps_inv(
                c,
                packet.to,
                Event::Message(packet.msg),
                deadline,
                net,
                packet,
            );
            lemma_nodes_stay(c, packet.to, Event::Message(packet.msg), deadline, net, packet);
        },
        Step::Lose { packet } => {
            lemma_loss_keeps_inv(c, packet);
        },
        Step::Tick { at, now, deadline } => {
            lemma_event_keeps_inv(c, at, Event::Tick(now), deadline, c.net, none);
            lemma_nodes_stay(c, at, Event::Tick(now), deadline, c.net, none);
        },
        Step::Propose { at, op } => {
            lemma_event_keeps_inv(c, at, Event::Proposal(op), 0, c.net, none);
            lemma_nodes_stay(c, at, Event::Proposal(op), 0, c.net, none);
        },
    }
}

pub(super) proof fn lemma_new_cluster(c: Cluster)
    requires
        is_new(c),
    ensures
        inv(c),
{
    assert forall|n: Seq<char>| #[trigger] c.nodes.contains_key(n) implies {
        &&& c.nodes[n].outbox == Seq::<(Seq<char>, MessageView)>::empty()
        &&& node::sound(c.nodes[n])
        &&& counted_well(c, n)
        &&& leads_by_quorum(c, n)
    } by {}
}

proof fn lemma_run(run: Seq<Cluster>, steps: Seq<Step>, i: int, j: int)
    requires
        is_run(run, steps),
        0 <= i <= j < run.len(),
    ensures
        inv(run[i]),
        inv(run[j]),
        run[i].nodes.dom() == run[j].nodes.dom(),
        forall|v: Seq<char>, term: u64| #[trigger]
            run[i].ballots.contains_key((v, term)) ==> run[j].ballots.contains_key((v, term))
                && run[j].ballots[(v, term)] == run[i].ballots[(v, term)],
    decreases j,
{
    if j == 0 {
        lemma_new_cluster(run[0]);
    } else if i < j {
        lemma_run(run, steps, i, j - 1);
        assert(can_happen(run[j - 1], steps[j - 1]));
        lemma_step_keeps_inv(run[j - 1], steps[j - 1]);
    } else {
        lemma_run(run, steps, j - 1, j - 1);
        assert(can_happen(run[j - 1], steps[j - 1]));
        lemma_step_keeps_inv(run[j - 1], steps[j - 1]);
    }
}

/// Leader election prevents split brain: over a whole run of a cluster, two nodes that
/// lead in the same term, at the same time or one after the other, are the same node.
pub proof fn law_at_most_one_leader_per_term(
    run: Seq<Cluster>,
    steps: Seq<Step>,
    i: int,
    a: Seq<char>,
    j: int,
    b: Seq<char>,
)
    requires
        is_run(run, steps),
        0 <= i <= j < run.len(),
        run[i].nodes.contains_key(a),
        run[j].nodes.contains_key(b),
        run[i].nodes[a].role == NodeRole::Leader,
        run[j].nodes[b].role == NodeRole::Leader,
        run[i].nodes[a].current_term == run[j].nodes[b].current_term,
    ensures
        a == b,
{
    lemma_run(run, steps, i, j);
    let term = run[i].nodes[a].current_term;
    let cluster = run[i].nodes.dom();
    let for_a = supporters(run[i], a, term);
    let for_b = supporters(run[j], b, term);
    assert(leads_by_quorum(run[i], a));
    assert(leads_by_quorum(run[j], b));
    lemma_cluster_size(run[i].nodes, a);
    lemma_cluster_size(run[j].nodes, b);
    safety::law_quorums_meet(cluster, for_a, for_b);
    let n = choose|n: Seq<char>| #[trigger] for_a.contains(n) && for_b.contains(n);
    assert(has_ballot(run[i], n, term, a));
    assert(has_ballot(run[j], n, term, b));
}

pub(super) proof fn lemma_cluster_size(nodes: Map<Seq<char>, NodeState>, n: Seq<char>)
    requires
        is_cluster(nodes),
        nodes.contains_key(n),
    ensures
        node::cluster_size(nodes[n]) == nodes.dom().len(),
{
    let peers = nodes[n].config.peers;
    peers.unique_seq_to_set();
    assert(peers.to_set() == nodes.dom().remove(n));
}

} // verus!
