//! What a node does with what reaches it, said in the numbers of its state and of the
//! message: when it grants a vote, when it wins, what it takes into its log and when it
//! refuses, what it commits, what it sends to whom, and what it leaves alone.

use crate::crdt::state;
use crate::crdt::state::CrdtOpView;
use crate::raft::log;
use crate::raft::log::{CommandView, EntryView, LogView};
use crate::raft::message::{
    AppendEntriesRequestView, AppendEntriesResponseView, InstallSnapshotRequestView,
    InstallSnapshotResponseView, MessageView, VoteRequestView, VoteResponseView,
};
use crate::raft::node;
use crate::raft::node::{ConfigView, NodeRole, NodeState};
use crate::raft::state_machine;
use crate::raft::state_machine::MachineView;
use vstd::prelude::*;

verus! {

// --- vocabulary ---

/// Term, role, vote, leader and deadline are the same, and so is everything of an election.
pub open spec fn same_standing(s: NodeState, t: NodeState) -> bool {
    &&& t.config == s.config
    &&& t.current_term == s.current_term
    &&& t.role == s.role
    &&& t.voted_for == s.voted_for
    &&& t.leader_id == s.leader_id
    &&& t.votes_received == s.votes_received
    &&& t.election_deadline == s.election_deadline
}

/// Log, commit index and state are the same.
pub open spec fn same_data(s: NodeState, t: NodeState) -> bool {
    &&& t.log == s.log
    &&& t.commit_index == s.commit_index
    &&& t.last_applied == s.last_applied
    &&& t.machine == s.machine
}

/// What is known of the peers is the same.
pub open spec fn same_progress(s: NodeState, t: NodeState) -> bool {
    &&& t.next_index == s.next_index
    &&& t.match_index == s.match_index
}

/// The node went to a higher term and forgot vote and leader; it is a follower, and nothing
/// else has changed.
pub open spec fn went_to_term(s: NodeState, t: NodeState, term: u64, deadline: u64) -> bool {
    &&& t.config == s.config
    &&& t.current_term == term
    &&& t.role == NodeRole::Follower
    &&& t.voted_for is None
    &&& t.leader_id is None
    &&& t.votes_received == s.votes_received
    &&& t.election_deadline == deadline
    &&& same_data(s, t)
    &&& same_progress(s, t)
    &&& t.outbox == s.outbox
}

// --- starting ---

/// A node starts as a follower in term 0, with nothing in its log, no vote, no leader and
/// nothing to say. It takes its peers to have nothing.
pub proof fn law_a_node_starts_with_nothing(config: ConfigView, deadline: u64)
    ensures
        ({
            let s = node::started(config, deadline);
            &&& s.config == config
            &&& s.election_deadline == deadline
            &&& s.role == NodeRole::Follower
            &&& s.current_term == 0
            &&& s.voted_for is None
            &&& s.leader_id is None
            &&& s.votes_received == 0
            &&& s.log.entries.len() == 0
            &&& s.log.snapshot_last_index == 0
            &&& s.log.snapshot_last_term == 0
            &&& s.commit_index == 0
            &&& s.last_applied == 0
            &&& s.machine.last_applied == 0
            &&& s.machine.state == state::empty_state()
            &&& s.outbox.len() == 0
            &&& forall|peer: Seq<char>| #[trigger]
                config.peers.contains(peer) ==> {
                    &&& s.next_index.contains_key(peer)
                    &&& s.next_index[peer] == 1
                    &&& s.match_index.contains_key(peer)
                    &&& s.match_index[peer] == 0
                }
            &&& forall|peer: Seq<char>| !config.peers.contains(peer) ==> !(
            #[trigger] s.next_index.contains_key(peer)) && !s.match_index.contains_key(peer)
        }),
{
}

// --- votes ---

/// A node grants its vote exactly when the term of the request is not behind its own, it has
/// not voted for anybody else in that term, and the last term and the last index of the
/// candidate's log are, in this order, at least those of its own log. It always answers, and
/// to the candidate. A vote changes nothing but the vote, the term and the deadline.
pub proof fn law_vote_is_granted_exactly_when_due(
    s: NodeState,
    req: VoteRequestView,
    deadline: u64,
)
    ensures
        ({
            let t = node::after_message(s, MessageView::RequestVote(req), deadline);
            let last_term = if s.log.entries.len() > 0 {
                s.log.entries[s.log.entries.len() - 1].term
            } else {
                s.log.snapshot_last_term
            };
            let last_index = if s.log.entries.len() > 0 {
                s.log.entries[s.log.entries.len() - 1].index
            } else {
                s.log.snapshot_last_index
            };
            let newer = req.term > s.current_term;
            let granted = req.term >= s.current_term && (newer || s.voted_for is None
                || s.voted_for == Some(req.candidate_id)) && (req.last_log_term > last_term || (
            req.last_log_term == last_term && req.last_log_index >= last_index));
            &&& t.outbox.len() == s.outbox.len() + 1
            &&& t.outbox.drop_last() == s.outbox
            &&& t.outbox.last().0 == req.candidate_id
            &&& t.outbox.last().1 is RequestVoteReply
            &&& t.outbox.last().1->RequestVoteReply_0.vote_granted <==> granted
            &&& t.outbox.last().1->RequestVoteReply_0.term == t.current_term
            &&& t.outbox.last().1->RequestVoteReply_0.from == s.config.id
            &&& granted ==> t.voted_for == Some(req.candidate_id) && t.election_deadline
                == deadline
            &&& !granted && !newer ==> t.voted_for == s.voted_for && t.election_deadline
                == s.election_deadline
            &&& !granted && newer ==> t.voted_for is None
            &&& newer ==> t.current_term == req.term && t.role == NodeRole::Follower && t.leader_id
                is None && t.election_deadline == deadline
            &&& !newer ==> t.current_term == s.current_term && t.role == s.role && t.leader_id
                == s.leader_id
            &&& t.config == s.config
            &&& t.votes_received == s.votes_received
            &&& same_data(s, t)
            &&& same_progress(s, t)
        }),
{
    let t = node::after_message(s, MessageView::RequestVote(req), deadline);
    assert(t.outbox.drop_last() =~= s.outbox);
}

/// A candidate counts the votes that are granted it in its term, and leads exactly when they
/// are more than half of the cluster, which is its peers and itself. Any other answer of its
/// term or an earlier one changes nothing; one of a higher term takes it there.
pub proof fn law_more_than_half_of_the_votes_win(
    s: NodeState,
    resp: VoteResponseView,
    deadline: u64,
)
    requires
        s.votes_received < usize::MAX,
    ensures
        ({
            let t = node::after_message(s, MessageView::RequestVoteReply(resp), deadline);
            let counted = s.role == NodeRole::Candidate && resp.term == s.current_term
                && resp.vote_granted;
            let won = counted && 2 * (s.votes_received + 1) > s.config.peers.len() + 1;
            &&& resp.term > s.current_term ==> went_to_term(s, t, resp.term, deadline)
            &&& resp.term <= s.current_term && !counted ==> t == s
            &&& counted ==> t.votes_received == s.votes_received + 1
            &&& counted && !won ==> t.role == NodeRole::Candidate && t.leader_id == s.leader_id
                && same_data(s, t) && same_progress(s, t) && t.outbox == s.outbox
            &&& won ==> t.role == NodeRole::Leader && t.leader_id == Some(s.config.id)
            &&& counted ==> t.config == s.config && t.current_term == s.current_term
                && t.voted_for == s.voted_for && t.election_deadline == s.election_deadline
        }),
{
}

/// A node that wins puts an empty entry of its term behind its log, and takes all of its
/// peers to need what comes from there on and to have nothing for certain. To each of them
/// it sends its log. Where it has peers, it commits nothing yet.
pub proof fn law_a_new_leader_starts_its_term(s: NodeState, resp: VoteResponseView, deadline: u64)
    requires
        s.role == NodeRole::Candidate,
        resp.term == s.current_term,
        resp.vote_granted,
        s.votes_received < usize::MAX,
        2 * (s.votes_received + 1) > s.config.peers.len() + 1,
        s.config.peers.len() > 0,
        s.log.snapshot_last_index + s.log.entries.len() < u64::MAX,
        log::contiguous(s.log),
    ensures
        ({
            let t = node::after_message(s, MessageView::RequestVoteReply(resp), deadline);
            let last = s.log.snapshot_last_index + s.log.entries.len();
            &&& t.log.snapshot_last_index == s.log.snapshot_last_index
            &&& t.log.snapshot_last_term == s.log.snapshot_last_term
            &&& t.log.entries.len() == s.log.entries.len() + 1
            &&& t.log.entries.drop_last() == s.log.entries
            &&& t.log.entries.last().index == last + 1
            &&& t.log.entries.last().term == s.current_term
            &&& t.log.entries.last().command is Noop
            &&& t.commit_index == s.commit_index
            &&& t.last_applied == s.last_applied
            &&& t.machine == s.machine
            &&& forall|peer: Seq<char>| #[trigger]
                s.config.peers.contains(peer) ==> {
                    &&& t.next_index.contains_key(peer)
                    &&& t.next_index[peer] == last + 1
                    &&& t.match_index.contains_key(peer)
                    &&& t.match_index[peer] == 0
                }
            &&& forall|other: Seq<char>| !#[trigger]
                s.config.peers.contains(other) ==> {
                    &&& t.next_index.contains_key(other) <==> s.next_index.contains_key(other)
                    &&& t.next_index.contains_key(other) ==> t.next_index[other]
                        == s.next_index[other]
                    &&& t.match_index.contains_key(other) <==> s.match_index.contains_key(other)
                    &&& t.match_index.contains_key(other) ==> t.match_index[other]
                        == s.match_index[other]
                }
            &&& t.outbox.len() == s.outbox.len() + s.config.peers.len()
            &&& t.outbox.take(s.outbox.len() as int) == s.outbox
            &&& forall|i: int|
                0 <= i < s.config.peers.len() ==> (#[trigger] t.outbox[s.outbox.len() + i]) == (
                    s.config.peers[i],
                    node::replication_message(t, s.config.peers[i]),
                )
        }),
{
    log::law_ends_and_terms(s.log, 0);
    let t = node::after_message(s, MessageView::RequestVoteReply(resp), deadline);
    assert(t.log.entries.drop_last() =~= s.log.entries);
    assert(t.outbox.take(s.outbox.len() as int) =~= s.outbox);
    let counted = NodeState { votes_received: (s.votes_received + 1) as usize, ..s };
    assert(t == node::leading(counted));
    assert forall|i: int| 0 <= i < s.config.peers.len() implies (#[trigger] t.outbox[s.outbox.len()
        + i]) == (s.config.peers[i], node::replication_message(t, s.config.peers[i])) by {
        lemma_message_is_from_the_log(t, s.config.peers[i]);
    }
}

/// What a leader sends does not depend on what it has sent before.
proof fn lemma_message_is_from_the_log(t: NodeState, peer: Seq<char>)
    ensures
        forall|outbox: Seq<(Seq<char>, MessageView)>| #[trigger]
            node::replication_message(NodeState { outbox, ..t }, peer)
                == node::replication_message(t, peer),
{
}

// --- what a leader sends ---

/// A leader sends a peer the entries from the next one on that it takes the peer to need,
/// all of them, in their order, behind the index and the term of the entry before. Where the
/// snapshot has taken the place of that entry, it sends the snapshot.
pub proof fn law_a_leader_sends_what_the_peer_needs(s: NodeState, peer: Seq<char>)
    requires
        log::contiguous(s.log),
    ensures
        ({
            let msg = node::replication_message(s, peer);
            let next: u64 = if s.next_index.contains_key(peer) {
                s.next_index[peer]
            } else {
                1
            };
            let base = s.log.snapshot_last_index;
            let last = base + s.log.entries.len();
            let prev: int = if next > 0 {
                next - 1
            } else {
                0
            };
            if base > 0 && next <= base {
                &&& msg is InstallSnapshot
                &&& msg->InstallSnapshot_0.term == s.current_term
                &&& msg->InstallSnapshot_0.leader_id == s.config.id
                &&& msg->InstallSnapshot_0.last_included_index == base
                &&& msg->InstallSnapshot_0.last_included_term == s.log.snapshot_last_term
                &&& msg->InstallSnapshot_0.data == Some(s.machine)
            } else {
                let req = msg->AppendEntries_0;
                &&& msg is AppendEntries
                &&& req.term == s.current_term
                &&& req.leader_id == s.config.id
                &&& req.leader_commit == s.commit_index
                &&& req.prev_log_index == prev
                &&& prev == 0 ==> req.prev_log_term == 0
                &&& prev > 0 && prev == base ==> req.prev_log_term == s.log.snapshot_last_term
                &&& base < prev <= last ==> req.prev_log_term == s.log.entries[prev - base - 1].term
                &&& prev > last ==> req.prev_log_term == 0
                &&& prev <= last ==> req.entries.len() == last - prev
                &&& prev > last ==> req.entries.len() == 0
                &&& forall|i: int|
                    0 <= i < req.entries.len() ==> (#[trigger] req.entries[i])
                        == s.log.entries[prev - base + i] && req.entries[i].index == prev + 1 + i
            }
        }),
{
}

/// At a tick a leader sends each of its peers, in their order, what the peer needs, and does
/// nothing else. Any other node does nothing before its deadline.
pub proof fn law_a_leader_sends_at_every_tick(s: NodeState, now: u64, deadline: u64)
    ensures
        ({
            let t = node::after_tick(s, now, deadline);
            &&& s.role == NodeRole::Leader ==> {
                &&& same_standing(s, t)
                &&& same_data(s, t)
                &&& same_progress(s, t)
                &&& t.outbox.len() == s.outbox.len() + s.config.peers.len()
                &&& t.outbox.take(s.outbox.len() as int) == s.outbox
                &&& forall|i: int|
                    0 <= i < s.config.peers.len() ==> (#[trigger] t.outbox[s.outbox.len() + i])
                        == (s.config.peers[i], node::replication_message(s, s.config.peers[i]))
            }
            &&& s.role != NodeRole::Leader && now < s.election_deadline ==> t == s
        }),
{
    let t = node::after_tick(s, now, deadline);
    if s.role == NodeRole::Leader {
        assert(t.outbox.take(s.outbox.len() as int) =~= s.outbox);
    }
}

/// A node whose deadline has come stands for election: it goes to the next term, votes for
/// itself, and asks each of its peers for the vote, with the last index and the last term of
/// its log.
pub proof fn law_a_node_stands_when_its_deadline_has_come(s: NodeState, now: u64, deadline: u64)
    requires
        s.role != NodeRole::Leader,
        now >= s.election_deadline,
        s.current_term < u64::MAX,
        s.config.peers.len() > 0,
    ensures
        ({
            let t = node::after_tick(s, now, deadline);
            let last_term = if s.log.entries.len() > 0 {
                s.log.entries[s.log.entries.len() - 1].term
            } else {
                s.log.snapshot_last_term
            };
            let last_index = if s.log.entries.len() > 0 {
                s.log.entries[s.log.entries.len() - 1].index
            } else {
                s.log.snapshot_last_index
            };
            &&& t.config == s.config
            &&& t.current_term == s.current_term + 1
            &&& t.role == NodeRole::Candidate
            &&& t.voted_for == Some(s.config.id)
            &&& t.votes_received == 1
            &&& t.election_deadline == deadline
            &&& t.leader_id == s.leader_id
            &&& same_data(s, t)
            &&& same_progress(s, t)
            &&& t.outbox.len() == s.outbox.len() + s.config.peers.len()
            &&& t.outbox.take(s.outbox.len() as int) == s.outbox
            &&& forall|i: int|
                0 <= i < s.config.peers.len() ==> {
                    let sent = #[trigger] t.outbox[s.outbox.len() + i];
                    &&& sent.0 == s.config.peers[i]
                    &&& sent.1 is RequestVote
                    &&& sent.1->RequestVote_0.term == s.current_term + 1
                    &&& sent.1->RequestVote_0.candidate_id == s.config.id
                    &&& sent.1->RequestVote_0.last_log_index == last_index
                    &&& sent.1->RequestVote_0.last_log_term == last_term
                }
        }),
{
    let t = node::after_tick(s, now, deadline);
    assert(t.outbox.take(s.outbox.len() as int) =~= s.outbox);
}

/// A node that is alone needs nobody's vote: when its deadline has come it leads the next
/// term at once, and what it had not committed is committed with the entry that it appends.
pub proof fn law_a_node_alone_leads_at_once(s: NodeState, now: u64, deadline: u64)
    requires
        s.role != NodeRole::Leader,
        now >= s.election_deadline,
        s.current_term < u64::MAX,
        s.config.peers.len() == 0,
        log::contiguous(s.log),
        s.log.snapshot_last_index + s.log.entries.len() < u64::MAX,
        s.commit_index <= s.log.snapshot_last_index + s.log.entries.len(),
        s.last_applied <= s.commit_index,
    ensures
        ({
            let t = node::after_tick(s, now, deadline);
            let last = s.log.snapshot_last_index + s.log.entries.len();
            &&& t.config == s.config
            &&& t.current_term == s.current_term + 1
            &&& t.role == NodeRole::Leader
            &&& t.leader_id == Some(s.config.id)
            &&& t.voted_for == Some(s.config.id)
            &&& t.votes_received == 1
            &&& t.election_deadline == deadline
            &&& t.log.entries.len() == s.log.entries.len() + 1
            &&& t.log.entries.drop_last() == s.log.entries
            &&& t.log.entries.last().index == last + 1
            &&& t.log.entries.last().term == s.current_term + 1
            &&& t.log.entries.last().command is Noop
            &&& t.commit_index == last + 1
            &&& t.last_applied == last + 1
            &&& t.machine == node::machine_through(
                t.log,
                s.machine,
                s.last_applied,
                t.commit_index,
            )
            &&& t.outbox == s.outbox
        }),
{
    log::law_ends_and_terms(s.log, 0);
    let t = node::after_tick(s, now, deadline);
    assert(t.log.entries.drop_last() =~= s.log.entries);
    assert(t.outbox =~= s.outbox);
    let after = t.log;
    assert(log::contiguous(after));
    log::law_ends_and_terms(after, t.commit_index);
}

// --- proposals ---

/// A leader puts what is proposed behind its log, under the next index and its own term, and
/// sends its log to each of its peers. Where it has peers, nothing is committed by that. Any
/// other node does nothing.
pub proof fn law_a_leader_appends_what_is_proposed(s: NodeState, op: CrdtOpView)
    requires
        log::contiguous(s.log),
        s.log.snapshot_last_index + s.log.entries.len() < u64::MAX,
    ensures
        ({
            let t = node::after_proposal(s, op);
            let last = s.log.snapshot_last_index + s.log.entries.len();
            &&& s.role != NodeRole::Leader ==> t == s
            &&& s.role == NodeRole::Leader ==> {
                &&& same_standing(s, t)
                &&& same_progress(s, t)
                &&& t.log.snapshot_last_index == s.log.snapshot_last_index
                &&& t.log.snapshot_last_term == s.log.snapshot_last_term
                &&& t.log.entries.len() == s.log.entries.len() + 1
                &&& t.log.entries.drop_last() == s.log.entries
                &&& t.log.entries.last().index == last + 1
                &&& t.log.entries.last().term == s.current_term
                &&& t.log.entries.last().command == CommandView::CrdtOp(op)
            }
            &&& s.role == NodeRole::Leader && s.config.peers.len() == 0 ==> t.outbox == s.outbox
            &&& s.role == NodeRole::Leader && s.config.peers.len() > 0 ==> {
                &&& t.commit_index == s.commit_index
                &&& t.last_applied == s.last_applied
                &&& t.machine == s.machine
                &&& t.outbox.len() == s.outbox.len() + s.config.peers.len()
                &&& t.outbox.take(s.outbox.len() as int) == s.outbox
                &&& forall|i: int|
                    0 <= i < s.config.peers.len() ==> (#[trigger] t.outbox[s.outbox.len() + i])
                        == (s.config.peers[i], node::replication_message(t, s.config.peers[i]))
            }
        }),
{
    log::law_ends_and_terms(s.log, 0);
    let t = node::after_proposal(s, op);
    if s.role == NodeRole::Leader {
        assert(t.log.entries.drop_last() =~= s.log.entries);
        if s.config.peers.len() == 0 {
            assert(t.outbox =~= s.outbox);
        }
        if s.config.peers.len() > 0 {
            assert(t.outbox.take(s.outbox.len() as int) =~= s.outbox);
            assert forall|i: int| 0 <= i < s.config.peers.len() implies (
            #[trigger] t.outbox[s.outbox.len() + i]) == (
                s.config.peers[i],
                node::replication_message(t, s.config.peers[i]),
            ) by {
                lemma_message_is_from_the_log(t, s.config.peers[i]);
            }
        }
    }
}

// --- what a follower takes in ---

/// A request to append of an earlier term is refused and changes nothing. Any other makes
/// its sender the leader and puts the deadline off. It succeeds exactly if nothing comes
/// before its entries, or the log has the term there that the request names, or what comes
/// before lies behind the snapshot point. A refusal commits nothing; where the log has
/// another term there, it drops the entries from there on, and else it keeps all of them.
pub proof fn law_entries_are_taken_exactly_where_they_connect(
    s: NodeState,
    req: AppendEntriesRequestView,
    deadline: u64,
)
    requires
        log::contiguous(s.log),
    ensures
        ({
            let t = node::after_message(s, MessageView::AppendEntries(req), deadline);
            let resp = t.outbox.last().1->AppendEntriesReply_0;
            let base = s.log.snapshot_last_index;
            let last = base + s.log.entries.len();
            let prev = req.prev_log_index;
            let held = base < prev <= last;
            let other = (held && s.log.entries[prev - base - 1].term != req.prev_log_term) || (prev
                > 0 && prev == base && s.log.snapshot_last_term != req.prev_log_term);
            let beyond = prev > last;
            let heeded = req.term >= s.current_term;
            &&& t.outbox.len() == s.outbox.len() + 1
            &&& t.outbox.drop_last() == s.outbox
            &&& t.outbox.last().0 == req.leader_id
            &&& t.outbox.last().1 is AppendEntriesReply
            &&& resp.from == s.config.id
            &&& resp.term == t.current_term
            &&& resp.success <==> heeded && !other && !beyond
            &&& !resp.success ==> resp.match_index == 0 && t.commit_index == s.commit_index
                && t.last_applied == s.last_applied && t.machine == s.machine
            &&& !heeded ==> same_standing(s, t) && t.log == s.log
            &&& heeded ==> {
                &&& t.current_term == req.term
                &&& t.leader_id == Some(req.leader_id)
                &&& t.election_deadline == deadline
                &&& req.term > s.current_term ==> t.role == NodeRole::Follower && t.voted_for
                    is None
                &&& req.term == s.current_term ==> t.role == s.role && t.voted_for == s.voted_for
                &&& t.votes_received == s.votes_received
                &&& t.config == s.config
            }
            &&& heeded && beyond ==> t.log == s.log
            &&& heeded && other && held ==> t.log.entries == s.log.entries.take(prev - base - 1)
            &&& heeded && other && !held ==> t.log.entries.len() == 0
            &&& heeded && other ==> t.log.snapshot_last_index == base && t.log.snapshot_last_term
                == s.log.snapshot_last_term
            &&& same_progress(s, t)
        }),
{
    log::law_ends_and_terms(s.log, req.prev_log_index);
    let t = node::after_message(s, MessageView::AppendEntries(req), deadline);
    assert(t.outbox.drop_last() =~= s.outbox);
}

/// The log lacks the entry: it lies behind the snapshot point, and the log does not reach it
/// or has another term there.
pub open spec fn lacks(l: LogView, entry: EntryView) -> bool {
    let base = l.snapshot_last_index;
    entry.index > base && (entry.index > base + l.entries.len() || l.entries[entry.index - base
        - 1].term != entry.term)
}

/// A follower that takes entries in ends with those of the leader from the first on that it
/// lacked, and keeps its log as it was where it lacked none. It confirms the whole of its
/// log. Where the leader has committed more than it has, it commits the same, as far as its
/// log reaches, and applies it.
#[verifier::spinoff_prover]
pub proof fn law_what_is_taken_in_is_confirmed_and_committed(
    s: NodeState,
    req: AppendEntriesRequestView,
    deadline: u64,
)
    requires
        log::contiguous(s.log),
        req.term >= s.current_term,
        req.prev_log_index <= s.log.snapshot_last_index + s.log.entries.len(),
        s.log.snapshot_last_index < req.prev_log_index ==> s.log.entries[req.prev_log_index
            - s.log.snapshot_last_index - 1].term == req.prev_log_term,
        0 < req.prev_log_index && req.prev_log_index == s.log.snapshot_last_index
            ==> s.log.snapshot_last_term == req.prev_log_term,
        log::follow_each_other(req.entries, req.prev_log_index),
    ensures
        ({
            let t = node::after_message(s, MessageView::AppendEntries(req), deadline);
            let resp = t.outbox.last().1->AppendEntriesReply_0;
            let base = s.log.snapshot_last_index;
            let reached = base + t.log.entries.len();
            &&& t.outbox.last().1 is AppendEntriesReply
            &&& resp.success
            &&& resp.match_index == reached
            &&& t.log.snapshot_last_index == base
            &&& t.log.snapshot_last_term == s.log.snapshot_last_term
            &&& (forall|i: int|
                0 <= i < req.entries.len() ==> !lacks(s.log, #[trigger] req.entries[i])) ==> t.log
                == s.log
            &&& forall|first: int|
                0 <= first < req.entries.len() && lacks(s.log, #[trigger] req.entries[first]) && (
                forall|i: int| 0 <= i < first ==> !lacks(s.log, #[trigger] req.entries[i]))
                    ==> t.log.entries == s.log.entries.take(req.prev_log_index + first - base)
                    + req.entries.skip(first)
            &&& req.leader_commit <= s.commit_index ==> t.commit_index == s.commit_index
                && t.last_applied == s.last_applied && t.machine == s.machine
            &&& req.leader_commit > s.commit_index && req.leader_commit < reached
                ==> t.commit_index == req.leader_commit
            &&& req.leader_commit > s.commit_index && req.leader_commit >= reached
                ==> t.commit_index == reached
            &&& req.leader_commit > s.commit_index && t.commit_index > s.last_applied
                ==> t.last_applied == t.commit_index && t.machine == node::machine_through(
                t.log,
                s.machine,
                s.last_applied,
                t.commit_index,
            )
            &&& req.leader_commit > s.commit_index && t.commit_index <= s.last_applied
                ==> t.last_applied == s.last_applied && t.machine == s.machine
        }),
{
    law_what_an_accepted_request_does(s, req, deadline);
    lemma_taken_in(s.log, req.prev_log_index, req.entries);
}

/// Whatever entries a request brings that connects, they are taken in one at a time, the end
/// of the log is confirmed, and the commit index follows that of the leader, where that is
/// ahead, as far as the end of the log.
pub proof fn law_what_an_accepted_request_does(
    s: NodeState,
    req: AppendEntriesRequestView,
    deadline: u64,
)
    requires
        log::contiguous(s.log),
        req.term >= s.current_term,
        req.prev_log_index <= s.log.snapshot_last_index + s.log.entries.len(),
        s.log.snapshot_last_index < req.prev_log_index ==> s.log.entries[req.prev_log_index
            - s.log.snapshot_last_index - 1].term == req.prev_log_term,
        0 < req.prev_log_index && req.prev_log_index == s.log.snapshot_last_index
            ==> s.log.snapshot_last_term == req.prev_log_term,
    ensures
        ({
            let t = node::after_message(s, MessageView::AppendEntries(req), deadline);
            let last = if t.log.entries.len() > 0 {
                t.log.entries[t.log.entries.len() - 1].index
            } else {
                t.log.snapshot_last_index
            };
            let ahead = req.leader_commit > s.commit_index;
            &&& t.log == log::with_entries(s.log, req.entries)
            &&& t.outbox.last().1 is AppendEntriesReply
            &&& t.outbox.last().1->AppendEntriesReply_0.success
            &&& t.outbox.last().1->AppendEntriesReply_0.match_index == last
            &&& !ahead ==> t.commit_index == s.commit_index && t.last_applied == s.last_applied
                && t.machine == s.machine
            &&& ahead && req.leader_commit <= last ==> t.commit_index == req.leader_commit
            &&& ahead && req.leader_commit > last ==> t.commit_index == last
            &&& ahead && t.commit_index > s.last_applied ==> t.last_applied == t.commit_index
                && t.machine == node::machine_through(
                t.log,
                s.machine,
                s.last_applied,
                t.commit_index,
            )
            &&& ahead && t.commit_index <= s.last_applied ==> t.last_applied == s.last_applied
                && t.machine == s.machine
        }),
{
    log::law_ends_and_terms(s.log, req.prev_log_index);
}

proof fn lemma_taken_in(l: LogView, prev: u64, entries: Seq<EntryView>)
    requires
        log::contiguous(l),
        prev <= l.snapshot_last_index + l.entries.len(),
        log::follow_each_other(entries, prev),
    ensures
        ({
            let after = log::with_entries(l, entries);
            &&& after.snapshot_last_index == l.snapshot_last_index
            &&& after.snapshot_last_term == l.snapshot_last_term
            &&& log::last_index(after) == l.snapshot_last_index + after.entries.len()
            &&& (forall|i: int| 0 <= i < entries.len() ==> !lacks(l, #[trigger] entries[i]))
                ==> after == l
            &&& forall|first: int|
                0 <= first < entries.len() && lacks(l, #[trigger] entries[first]) && (forall|
                    i: int,
                | 0 <= i < first ==> !lacks(l, #[trigger] entries[i])) ==> after.entries
                    == l.entries.take(prev + first - l.snapshot_last_index) + entries.skip(first)
        }),
{
    let after = log::with_entries(l, entries);
    lemma_same_base(l, entries);
    assert forall|first: int|
        0 <= first < entries.len() && lacks(l, #[trigger] entries[first]) && (forall|i: int|
            0 <= i < first ==> !lacks(l, #[trigger] entries[i])) implies after.entries
        == l.entries.take(prev + first - l.snapshot_last_index) + entries.skip(first) by {
        log::law_entries_are_taken_from_the_first_that_is_lacking(l, prev, entries, first);
    }
    if forall|i: int| 0 <= i < entries.len() ==> !lacks(l, #[trigger] entries[i]) {
        log::law_known_entries_change_nothing(l, entries);
    } else {
        let some = choose|i: int| 0 <= i < entries.len() && lacks(l, #[trigger] entries[i]);
        let first = lemma_first_lacking(l, entries, some);
        log::law_entries_are_taken_from_the_first_that_is_lacking(l, prev, entries, first);
        if first > 0 {
            assert(!lacks(l, entries[first - 1]));
        }
        assert forall|i: int| 0 <= i < after.entries.len() implies (
        #[trigger] after.entries[i]).index == after.snapshot_last_index + i + 1 by {
            let at = prev + first - l.snapshot_last_index;
            if i < at {
                assert(after.entries[i] == l.entries[i]);
            } else {
                assert(after.entries[i] == entries[first + i - at]);
            }
        }
    }
    log::law_ends_and_terms(after, 0);
}

proof fn lemma_first_lacking(l: LogView, entries: Seq<EntryView>, at: int) -> (first: int)
    requires
        0 <= at < entries.len(),
        lacks(l, entries[at]),
    ensures
        0 <= first <= at,
        lacks(l, entries[first]),
        forall|i: int| 0 <= i < first ==> !lacks(l, #[trigger] entries[i]),
    decreases at,
{
    if forall|i: int| 0 <= i < at ==> !lacks(l, #[trigger] entries[i]) {
        at
    } else {
        let before = choose|i: int| 0 <= i < at && lacks(l, #[trigger] entries[i]);
        lemma_first_lacking(l, entries, before)
    }
}

proof fn lemma_same_base(l: LogView, entries: Seq<EntryView>)
    ensures
        log::with_entries(l, entries).snapshot_last_index == l.snapshot_last_index,
        log::with_entries(l, entries).snapshot_last_term == l.snapshot_last_term,
    decreases entries.len(),
{
    if entries.len() > 0 {
        lemma_same_base(l, entries.drop_last());
    }
}

// --- what a leader makes of the answers ---

/// The peers that are known to have the log through an index.
pub open spec fn holders(s: NodeState, index: u64) -> Seq<Seq<char>> {
    s.config.peers.filter(
        |peer: Seq<char>|
            if s.match_index.contains_key(peer) {
                s.match_index[peer] >= index
            } else {
                index == 0
            },
    )
}

proof fn lemma_holders(s: NodeState, peers: Seq<Seq<char>>, index: u64)
    ensures
        node::peers_with(s, peers, index) == peers.filter(
            |peer: Seq<char>|
                if s.match_index.contains_key(peer) {
                    s.match_index[peer] >= index
                } else {
                    index == 0
                },
        ).len(),
    decreases peers.len(),
{
    reveal(Seq::filter);
    if peers.len() > 0 {
        lemma_holders(s, peers.drop_last(), index);
    }
}

/// The log has an entry of the term of the node at the index, and the node and the peers that
/// are known to have it are more than half of the cluster.
pub open spec fn is_safe_to_commit(s: NodeState, index: u64) -> bool {
    let base = s.log.snapshot_last_index;
    &&& base < index <= base + s.log.entries.len()
    &&& s.log.entries[index - base - 1].term == s.current_term
    &&& 2 * (holders(s, index).len() + 1) > s.config.peers.len() + 1
}

proof fn lemma_commits_the_highest(s: NodeState, upto: u64)
    requires
        log::contiguous(s.log),
        s.log.snapshot_last_index <= s.commit_index,
        upto <= s.log.snapshot_last_index + s.log.entries.len(),
    ensures
        ({
            let c = node::commit_through(s, upto);
            &&& c == s.commit_index || (s.commit_index < c <= upto && is_safe_to_commit(s, c))
            &&& forall|n: u64|
                c < n && s.commit_index < n <= upto ==> !#[trigger] is_safe_to_commit(s, n)
        }),
    decreases upto,
{
    if upto > s.commit_index {
        lemma_holders(s, s.config.peers, upto);
        log::law_ends_and_terms(s.log, upto);
        let at = upto - s.log.snapshot_last_index - 1;
        assert(s.log.entries[at].index == upto);
        if !node::can_commit(s, upto) {
            lemma_commits_the_highest(s, (upto - 1) as u64);
        }
    }
}

/// A leader that hears of a success in its term knows from then on that the peer has the log
/// through the index that the peer names, and what to send next; of the other peers it knows
/// what it knew. It commits through the highest index behind the commit index at which the
/// log has an entry of its own term that more than half of the cluster has, and where there
/// is none, commits nothing. What is committed is applied, and sent to the peers.
pub proof fn law_a_leader_commits_what_more_than_half_have(
    s: NodeState,
    resp: AppendEntriesResponseView,
    deadline: u64,
)
    requires
        s.role == NodeRole::Leader,
        resp.success,
        resp.term == s.current_term,
        resp.match_index < u64::MAX,
        log::contiguous(s.log),
        s.log.snapshot_last_index <= s.commit_index,
        s.last_applied <= s.commit_index,
    ensures
        ({
            let t = node::after_message(s, MessageView::AppendEntriesReply(resp), deadline);
            let last = s.log.snapshot_last_index + s.log.entries.len();
            &&& same_standing(s, t)
            &&& t.log == s.log
            &&& t.match_index.contains_key(resp.from)
            &&& t.match_index[resp.from] == resp.match_index
            &&& t.next_index.contains_key(resp.from)
            &&& t.next_index[resp.from] == resp.match_index + 1
            &&& t.match_index.remove(resp.from) == s.match_index.remove(resp.from)
            &&& t.next_index.remove(resp.from) == s.next_index.remove(resp.from)
            &&& t.commit_index >= s.commit_index
            &&& t.commit_index > s.commit_index ==> is_safe_to_commit(t, t.commit_index)
            &&& forall|n: u64|
                t.commit_index < n <= last ==> !#[trigger] is_safe_to_commit(t, n)
            &&& t.commit_index > s.last_applied ==> t.last_applied == t.commit_index && t.machine
                == node::machine_through(s.log, s.machine, s.last_applied, t.commit_index)
            &&& t.commit_index <= s.last_applied ==> t.last_applied == s.last_applied && t.machine
                == s.machine
            &&& t.commit_index == s.commit_index ==> t.outbox == s.outbox
            &&& t.commit_index > s.commit_index ==> {
                &&& t.outbox.len() == s.outbox.len() + s.config.peers.len()
                &&& t.outbox.take(s.outbox.len() as int) == s.outbox
                &&& forall|i: int|
                    0 <= i < s.config.peers.len() ==> (#[trigger] t.outbox[s.outbox.len() + i])
                        == (s.config.peers[i], node::replication_message(t, s.config.peers[i]))
            }
        }),
{
    let t = node::after_message(s, MessageView::AppendEntriesReply(resp), deadline);
    let heard = NodeState {
        next_index: s.next_index.insert(resp.from, (resp.match_index + 1) as u64),
        match_index: s.match_index.insert(resp.from, resp.match_index),
        ..s
    };
    assert(t.match_index.remove(resp.from) =~= s.match_index.remove(resp.from));
    assert(t.next_index.remove(resp.from) =~= s.next_index.remove(resp.from));
    log::law_ends_and_terms(s.log, 0);
    lemma_commits_the_highest(heard, log::last_index(s.log));
    assert forall|n: u64| #[trigger] is_safe_to_commit(t, n) == is_safe_to_commit(heard, n) by {
        assert(holders(t, n) == holders(heard, n));
    }
    if t.commit_index > s.commit_index {
        assert(t.outbox.take(s.outbox.len() as int) =~= s.outbox);
        assert forall|i: int| 0 <= i < s.config.peers.len() implies (
        #[trigger] t.outbox[s.outbox.len() + i]) == (
            s.config.peers[i],
            node::replication_message(t, s.config.peers[i]),
        ) by {
            lemma_message_is_from_the_log(t, s.config.peers[i]);
        }
    }
}

/// A leader that is refused goes back by one entry for that peer, but not before the first
/// one, and sends again; it changes nothing else. An answer of a higher term takes the node
/// there. A node that does not lead, and a success of an earlier term, changes nothing.
pub proof fn law_a_refused_leader_goes_back_by_one(
    s: NodeState,
    resp: AppendEntriesResponseView,
    deadline: u64,
)
    ensures
        ({
            let t = node::after_message(s, MessageView::AppendEntriesReply(resp), deadline);
            let next: u64 = if s.next_index.contains_key(resp.from) {
                s.next_index[resp.from]
            } else {
                1
            };
            &&& resp.term > s.current_term ==> went_to_term(s, t, resp.term, deadline)
            &&& resp.term <= s.current_term && s.role != NodeRole::Leader ==> t == s
            &&& resp.term < s.current_term && resp.success ==> t == s
            &&& resp.term <= s.current_term && s.role == NodeRole::Leader && !resp.success ==> {
                &&& same_standing(s, t)
                &&& same_data(s, t)
                &&& t.match_index == s.match_index
                &&& t.next_index.contains_key(resp.from)
                &&& next >= 2 ==> t.next_index[resp.from] == next - 1
                &&& next < 2 ==> t.next_index[resp.from] == 1
                &&& t.next_index.remove(resp.from) == s.next_index.remove(resp.from)
                &&& t.outbox.len() == s.outbox.len() + 1
                &&& t.outbox.drop_last() == s.outbox
                &&& t.outbox.last() == (resp.from, node::replication_message(t, resp.from))
            }
        }),
{
    let t = node::after_message(s, MessageView::AppendEntriesReply(resp), deadline);
    if resp.term <= s.current_term && s.role == NodeRole::Leader && !resp.success {
        assert(t.outbox.drop_last() =~= s.outbox);
        assert(t.next_index.remove(resp.from) =~= s.next_index.remove(resp.from));
        lemma_message_is_from_the_log(t, resp.from);
    }
}

// --- snapshots ---

/// A snapshot that decodes, comes in a term that is not behind the node's and does not end
/// before the node's own snapshot point is installed, whatever the log of the node holds: the
/// state is then that of the snapshot, everything through its index is applied and committed,
/// and of the log the entries behind that index are left.
pub proof fn law_snapshot_is_installed(
    s: NodeState,
    req: InstallSnapshotRequestView,
    m: MachineView,
    deadline: u64,
)
    requires
        req.term >= s.current_term,
        req.data == Some(m),
        req.last_included_index >= s.log.snapshot_last_index,
    ensures
        ({
            let t = node::after_message(s, MessageView::InstallSnapshot(req), deadline);
            let covered = req.last_included_index - s.log.snapshot_last_index;
            &&& t.machine == m
            &&& t.last_applied == req.last_included_index
            &&& t.commit_index >= req.last_included_index
            &&& t.commit_index >= s.commit_index
            &&& t.commit_index == req.last_included_index || t.commit_index == s.commit_index
            &&& t.log.snapshot_last_index == req.last_included_index
            &&& t.log.snapshot_last_term == req.last_included_term
            &&& covered <= s.log.entries.len() ==> t.log.entries == s.log.entries.skip(covered)
            &&& covered > s.log.entries.len() ==> t.log.entries.len() == 0
        }),
{
    let t = node::after_message(s, MessageView::InstallSnapshot(req), deadline);
    let covered = req.last_included_index - s.log.snapshot_last_index;
    if covered <= s.log.entries.len() {
        assert(t.log.entries =~= s.log.entries.skip(covered));
    }
}

/// A snapshot of an earlier term, one that does not decode and one that ends before the
/// node's own snapshot point leave log and state alone. Every snapshot is answered, with the
/// term of the node; one that is not of an earlier term makes its sender the leader.
pub proof fn law_other_snapshots_leave_the_state_alone(
    s: NodeState,
    req: InstallSnapshotRequestView,
    deadline: u64,
)
    ensures
        ({
            let t = node::after_message(s, MessageView::InstallSnapshot(req), deadline);
            &&& req.term < s.current_term || req.data is None || req.last_included_index
                < s.log.snapshot_last_index ==> same_data(s, t)
            &&& t.outbox.len() == s.outbox.len() + 1
            &&& t.outbox.drop_last() == s.outbox
            &&& t.outbox.last().0 == req.leader_id
            &&& t.outbox.last().1 is InstallSnapshotReply
            &&& t.outbox.last().1->InstallSnapshotReply_0.term == t.current_term
            &&& t.outbox.last().1->InstallSnapshotReply_0.from == s.config.id
            &&& req.term < s.current_term ==> same_standing(s, t)
            &&& req.term >= s.current_term ==> {
                &&& t.current_term == req.term
                &&& t.leader_id == Some(req.leader_id)
                &&& t.election_deadline == deadline
                &&& req.term > s.current_term ==> t.role == NodeRole::Follower && t.voted_for
                    is None
                &&& req.term == s.current_term ==> t.role == s.role && t.voted_for == s.voted_for
                &&& t.votes_received == s.votes_received
                &&& t.config == s.config
            }
            &&& same_progress(s, t)
        }),
{
    let t = node::after_message(s, MessageView::InstallSnapshot(req), deadline);
    assert(t.outbox.drop_last() =~= s.outbox);
}

/// The answer to a snapshot takes the node to a higher term, and else changes nothing.
pub proof fn law_answer_to_a_snapshot(
    s: NodeState,
    resp: InstallSnapshotResponseView,
    deadline: u64,
)
    ensures
        ({
            let t = node::after_message(s, MessageView::InstallSnapshotReply(resp), deadline);
            &&& resp.term > s.current_term ==> went_to_term(s, t, resp.term, deadline)
            &&& resp.term <= s.current_term ==> t == s
        }),
{
}

// --- limits ---

/// A node handles every message but one that would take an index over the largest number: a
/// success in the leader's term that confirms the largest index, and the vote that makes the
/// node leader of a log that ends at the largest index.
pub proof fn law_messages_fit_but_for_the_largest_index(s: NodeState, msg: MessageView)
    requires
        log::contiguous(s.log),
    ensures
        ({
            let last = s.log.snapshot_last_index + s.log.entries.len();
            &&& msg matches MessageView::AppendEntriesReply(resp) ==> (!node::message_fits(s, msg)
                <==> s.role == NodeRole::Leader && resp.success && resp.term == s.current_term
                && resp.match_index == u64::MAX)
            &&& msg matches MessageView::RequestVoteReply(resp) ==> (!node::message_fits(s, msg)
                <==> s.role == NodeRole::Candidate && resp.vote_granted && resp.term
                == s.current_term && 2 * (s.votes_received + 1) > s.config.peers.len() + 1 && last
                == u64::MAX)
            &&& !(msg is AppendEntriesReply) && !(msg is RequestVoteReply) ==> node::message_fits(
                s,
                msg,
            )
        }),
{
    log::law_ends_and_terms(s.log, 0);
}

/// A node can see any time but one at which it stands for election in the largest term, or,
/// where it is alone, with a log that ends at the largest index. A deadline lies between the
/// shortest and the longest timeout after the time at which it is drawn.
pub proof fn law_times_and_deadlines_fit(s: NodeState, now: u64, deadline: u64)
    requires
        log::contiguous(s.log),
    ensures
        ({
            let last = s.log.snapshot_last_index + s.log.entries.len();
            &&& !node::tick_fits(s, now) <==> s.role != NodeRole::Leader && now
                >= s.election_deadline && (s.current_term == u64::MAX || (s.config.peers.len()
                == 0 && last == u64::MAX))
            &&& node::possible_deadline(s.config, now, deadline) <==> now
                + s.config.election_timeout_min <= deadline && deadline <= now
                + s.config.election_timeout_max
        }),
{
    log::law_ends_and_terms(s.log, 0);
}

// --- applying ---

/// Entries are applied one after the other, each once: to go from one index to another is to
/// go there by way of any index between them, and to go on by one index is to make the change
/// of the entry there, where it holds one that the state does not reflect yet.
pub proof fn law_entries_are_applied_one_by_one(
    l: LogView,
    m: MachineView,
    from: u64,
    mid: u64,
    to: u64,
)
    requires
        log::contiguous(l),
        from <= mid <= to,
    ensures
        node::machine_through(l, m, from, to) == node::machine_through(
            l,
            node::machine_through(l, m, from, mid),
            mid,
            to,
        ),
        node::machine_through(l, m, from, from) == m,
        from < u64::MAX ==> ({
            let next = (from + 1) as u64;
            let after = node::machine_through(l, m, from, next);
            let at = from - l.snapshot_last_index;
            if m.last_applied < next && 0 <= at < l.entries.len() {
                &&& after.last_applied == next
                &&& match l.entries[at].command {
                    CommandView::CrdtOp(op) => after.state == state::state_apply(m.state, op),
                    CommandView::Noop => after.state == m.state,
                }
            } else {
                after == m
            }
        }),
    decreases to,
{
    reveal_with_fuel(node::machine_through, 2);
    if mid < to {
        law_entries_are_applied_one_by_one(l, m, from, mid, (to - 1) as u64);
    }
}

/// A machine makes the change of an entry behind the last that was applied, and remembers the
/// index; an empty entry changes nothing but that. An entry that was applied before changes
/// nothing at all.
pub proof fn law_a_command_is_applied_once(m: MachineView, index: u64, op: CrdtOpView)
    ensures
        index > m.last_applied ==> {
            &&& state_machine::machine_apply(m, index, CommandView::CrdtOp(op)).state
                == state::state_apply(m.state, op)
            &&& state_machine::machine_apply(m, index, CommandView::CrdtOp(op)).last_applied
                == index
            &&& state_machine::machine_apply(m, index, CommandView::Noop).state == m.state
            &&& state_machine::machine_apply(m, index, CommandView::Noop).last_applied == index
        },
        index <= m.last_applied ==> {
            &&& state_machine::machine_apply(m, index, CommandView::CrdtOp(op)) == m
            &&& state_machine::machine_apply(m, index, CommandView::Noop) == m
        },
{
}

} // verus!
