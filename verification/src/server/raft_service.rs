//! What a node answers the other nodes of the cluster.
//!
//! Each call hands one message to the node, empties the outbox and takes the answer out
//! of what was in it.

use crate::raft::log::{Command, CommandView, LogEntry};
use crate::raft::message;
use crate::raft::message::{
    AppendEntriesRequest, AppendEntriesResponse, AppendEntriesResponseView,
    InstallSnapshotRequest, InstallSnapshotResponse, InstallSnapshotResponseView, MessageView,
    RaftMessage, VoteRequest, VoteResponse, VoteResponseView,
};
use crate::raft::node;
use crate::raft::node::{NodeState, RaftNode};
use crate::server::status::Status;
use vstd::prelude::*;

verus! {

/// An entry as it arrives: its command is nothing if it could not be decoded.
#[derive(Debug)]
pub struct ReceivedEntry {
    pub index: u64,
    pub term: u64,
    pub command: Option<Command>,
}

/// What a command that arrived asks for. One that could not be decoded asks for nothing.
pub open spec fn received_command(command: Option<Command>) -> CommandView {
    match command {
        Some(c) => c@,
        None => CommandView::Noop,
    }
}

/// The entries that arrived.
pub fn received_entries(received: Vec<ReceivedEntry>) -> (r: Vec<LogEntry>)
    ensures
        r@.len() == received@.len(),
        forall|i: int|
            0 <= i < r@.len() ==> {
                &&& (#[trigger] r@[i]).index == received@[i].index
                &&& r@[i].term == received@[i].term
                &&& r@[i].command@ == received_command(received@[i].command)
            },
{
    let ghost all = received@;
    let mut rest = received;
    let mut r: Vec<LogEntry> = Vec::new();
    while rest.len() > 0
        invariant
            r@.len() + rest@.len() == all.len(),
            rest@ == all.skip(r@.len() as int),
            forall|i: int|
                0 <= i < r@.len() ==> {
                    &&& (#[trigger] r@[i]).index == all[i].index
                    &&& r@[i].term == all[i].term
                    &&& r@[i].command@ == received_command(all[i].command)
                },
        decreases rest@.len(),
    {
        let ReceivedEntry { index, term, command } = rest.remove(0);
        assert(rest@ =~= all.skip(r@.len() as int + 1));
        let command = match command {
            Some(command) => command,
            None => Command::Noop,
        };
        r.push(LogEntry { index, term, command });
    }
    r
}

/// The first answer to a request to append among some messages.
pub open spec fn first_append_reply(
    outbox: Seq<(Seq<char>, MessageView)>,
) -> Option<AppendEntriesResponseView>
    decreases outbox.len(),
{
    if outbox.len() == 0 {
        None
    } else {
        match outbox[0].1 {
            MessageView::AppendEntriesReply(resp) => Some(resp),
            _ => first_append_reply(outbox.drop_first()),
        }
    }
}

/// The first answer to a request for a vote among some messages.
pub open spec fn first_vote_reply(outbox: Seq<(Seq<char>, MessageView)>) -> Option<VoteResponseView>
    decreases outbox.len(),
{
    if outbox.len() == 0 {
        None
    } else {
        match outbox[0].1 {
            MessageView::RequestVoteReply(resp) => Some(resp),
            _ => first_vote_reply(outbox.drop_first()),
        }
    }
}

/// The first answer to a snapshot among some messages.
pub open spec fn first_snapshot_reply(
    outbox: Seq<(Seq<char>, MessageView)>,
) -> Option<InstallSnapshotResponseView>
    decreases outbox.len(),
{
    if outbox.len() == 0 {
        None
    } else {
        match outbox[0].1 {
            MessageView::InstallSnapshotReply(resp) => Some(resp),
            _ => first_snapshot_reply(outbox.drop_first()),
        }
    }
}

/// The node with its outbox emptied.
pub open spec fn emptied(s: NodeState) -> NodeState {
    NodeState { outbox: Seq::empty(), ..s }
}

proof fn lemma_append_reply_found(outbox: Seq<(Seq<char>, MessageView)>)
    requires
        outbox.len() > 0,
        outbox.last().1 is AppendEntriesReply,
    ensures
        first_append_reply(outbox) is Some,
    decreases outbox.len(),
{
    if !(outbox[0].1 is AppendEntriesReply) {
        assert(outbox.drop_first().last() == outbox.last());
        lemma_append_reply_found(outbox.drop_first());
    }
}

proof fn lemma_vote_reply_found(outbox: Seq<(Seq<char>, MessageView)>)
    requires
        outbox.len() > 0,
        outbox.last().1 is RequestVoteReply,
    ensures
        first_vote_reply(outbox) is Some,
    decreases outbox.len(),
{
    if !(outbox[0].1 is RequestVoteReply) {
        assert(outbox.drop_first().last() == outbox.last());
        lemma_vote_reply_found(outbox.drop_first());
    }
}

proof fn lemma_snapshot_reply_found(outbox: Seq<(Seq<char>, MessageView)>)
    requires
        outbox.len() > 0,
        outbox.last().1 is InstallSnapshotReply,
    ensures
        first_snapshot_reply(outbox) is Some,
    decreases outbox.len(),
{
    if !(outbox[0].1 is InstallSnapshotReply) {
        assert(outbox.drop_first().last() == outbox.last());
        lemma_snapshot_reply_found(outbox.drop_first());
    }
}

/// The answer to a request to append among the messages that a node sends.
pub fn find_append_reply(outbox: Vec<(String, RaftMessage)>) -> (r: Option<AppendEntriesResponse>)
    ensures
        match first_append_reply(message::outbox_view(outbox@)) {
            Some(resp) => r is Some && r->0@ == resp,
            None => r is None,
        },
{
    let mut rest = outbox;
    let ghost sought = first_append_reply(message::outbox_view(outbox@));
    while rest.len() > 0
        invariant
            sought == first_append_reply(message::outbox_view(outbox@)),
            sought == first_append_reply(message::outbox_view(rest@)),
        ensures
            sought is None,
        decreases rest@.len(),
    {
        let ghost before = message::outbox_view(rest@);
        let (_, msg) = rest.remove(0);
        assert(message::outbox_view(rest@) =~= before.drop_first());
        match msg {
            RaftMessage::AppendEntriesReply(resp) => {
                let found = Some(resp);
                assert(sought == Some(found->0@));
                return found;
            },
            _ => {},
        }
    }
    None
}

/// The answer to a request for a vote among the messages that a node sends.
pub fn find_vote_reply(outbox: Vec<(String, RaftMessage)>) -> (r: Option<VoteResponse>)
    ensures
        match first_vote_reply(message::outbox_view(outbox@)) {
            Some(resp) => r is Some && r->0@ == resp,
            None => r is None,
        },
{
    let mut rest = outbox;
    let ghost sought = first_vote_reply(message::outbox_view(outbox@));
    while rest.len() > 0
        invariant
            sought == first_vote_reply(message::outbox_view(outbox@)),
            sought == first_vote_reply(message::outbox_view(rest@)),
        ensures
            sought is None,
        decreases rest@.len(),
    {
        let ghost before = message::outbox_view(rest@);
        let (_, msg) = rest.remove(0);
        assert(message::outbox_view(rest@) =~= before.drop_first());
        match msg {
            RaftMessage::RequestVoteReply(resp) => {
                let found = Some(resp);
                assert(sought == Some(found->0@));
                return found;
            },
            _ => {},
        }
    }
    None
}

/// The answer to a snapshot among the messages that a node sends.
pub fn find_snapshot_reply(outbox: Vec<(String, RaftMessage)>) -> (r: Option<
    InstallSnapshotResponse,
>)
    ensures
        match first_snapshot_reply(message::outbox_view(outbox@)) {
            Some(resp) => r is Some && r->0@ == resp,
            None => r is None,
        },
{
    let mut rest = outbox;
    let ghost sought = first_snapshot_reply(message::outbox_view(outbox@));
    while rest.len() > 0
        invariant
            sought == first_snapshot_reply(message::outbox_view(outbox@)),
            sought == first_snapshot_reply(message::outbox_view(rest@)),
        ensures
            sought is None,
        decreases rest@.len(),
    {
        let ghost before = message::outbox_view(rest@);
        let (_, msg) = rest.remove(0);
        assert(message::outbox_view(rest@) =~= before.drop_first());
        match msg {
            RaftMessage::InstallSnapshotReply(resp) => {
                let found = Some(resp);
                assert(sought == Some(found->0@));
                return found;
            },
            _ => {},
        }
    }
    None
}

/// Takes the answer to a request to append out of the node's outbox and drops the rest.
pub fn take_append_reply(node: &mut RaftNode) -> (r: Result<AppendEntriesResponse, Status>)
    ensures
        final(node)@ == emptied(old(node)@),
        match first_append_reply(old(node)@.outbox) {
            Some(resp) => r is Ok && r->Ok_0@ == resp,
            None => r matches Err(Status::Internal(text)) && text@ == "no response generated"@,
        },
{
    let outbox = node.take_outbox();
    match find_append_reply(outbox) {
        Some(resp) => Ok(resp),
        None => Err(Status::Internal("no response generated".to_owned())),
    }
}

/// Answers a request to append that arrives at the time `now`.
pub fn append_entries(node: &mut RaftNode, req: AppendEntriesRequest, now: u64) -> (r: Result<
    AppendEntriesResponse,
    Status,
>)
    requires
        now + old(node)@.config.election_timeout_max <= u64::MAX,
    ensures
        r is Ok,
        exists|deadline: u64| #[trigger]
            node::possible_deadline(old(node)@.config, now, deadline) && ({
                let after = node::after_message(
                    old(node)@,
                    MessageView::AppendEntries(req@),
                    deadline,
                );
                final(node)@ == emptied(after) && Some(r->Ok_0@) == first_append_reply(after.outbox)
            }),
{
    let ghost before = node@;
    node.handle_message(RaftMessage::AppendEntries(req), now);
    proof {
        let deadline = choose|deadline: u64| #[trigger]
            node::possible_deadline(before.config, now, deadline) && node@ == node::after_message(
                before,
                MessageView::AppendEntries(req@),
                deadline,
            );
        assert(node::possible_deadline(before.config, now, deadline));
        lemma_append_reply_found(node@.outbox);
    }
    take_append_reply(node)
}

/// Takes the answer to a request for a vote out of the node's outbox and drops the rest.
pub fn take_vote_reply(node: &mut RaftNode) -> (r: Result<VoteResponse, Status>)
    ensures
        final(node)@ == emptied(old(node)@),
        match first_vote_reply(old(node)@.outbox) {
            Some(resp) => r is Ok && r->Ok_0@ == resp,
            None => r matches Err(Status::Internal(text)) && text@ == "no response generated"@,
        },
{
    let outbox = node.take_outbox();
    match find_vote_reply(outbox) {
        Some(resp) => Ok(resp),
        None => Err(Status::Internal("no response generated".to_owned())),
    }
}

/// Answers a request for a vote that arrives at the time `now`.
pub fn request_vote(node: &mut RaftNode, req: VoteRequest, now: u64) -> (r: Result<
    VoteResponse,
    Status,
>)
    requires
        now + old(node)@.config.election_timeout_max <= u64::MAX,
    ensures
        r is Ok,
        exists|deadline: u64| #[trigger]
            node::possible_deadline(old(node)@.config, now, deadline) && ({
                let after = node::after_message(
                    old(node)@,
                    MessageView::RequestVote(req@),
                    deadline,
                );
                final(node)@ == emptied(after) && Some(r->Ok_0@) == first_vote_reply(after.outbox)
            }),
{
    let ghost before = node@;
    node.handle_message(RaftMessage::RequestVote(req), now);
    proof {
        let deadline = choose|deadline: u64| #[trigger]
            node::possible_deadline(before.config, now, deadline) && node@ == node::after_message(
                before,
                MessageView::RequestVote(req@),
                deadline,
            );
        assert(node::possible_deadline(before.config, now, deadline));
        lemma_vote_reply_found(node@.outbox);
    }
    take_vote_reply(node)
}

/// Takes the answer to a snapshot out of the node's outbox and drops the rest.
pub fn take_snapshot_reply(node: &mut RaftNode) -> (r: Result<InstallSnapshotResponse, Status>)
    ensures
        final(node)@ == emptied(old(node)@),
        match first_snapshot_reply(old(node)@.outbox) {
            Some(resp) => r is Ok && r->Ok_0@ == resp,
            None => r matches Err(Status::Internal(text)) && text@ == "no response generated"@,
        },
{
    let outbox = node.take_outbox();
    match find_snapshot_reply(outbox) {
        Some(resp) => Ok(resp),
        None => Err(Status::Internal("no response generated".to_owned())),
    }
}

/// Answers a snapshot that arrives at the time `now`.
pub fn install_snapshot(node: &mut RaftNode, req: InstallSnapshotRequest, now: u64) -> (r: Result<
    InstallSnapshotResponse,
    Status,
>)
    requires
        now + old(node)@.config.election_timeout_max <= u64::MAX,
    ensures
        r is Ok,
        exists|deadline: u64| #[trigger]
            node::possible_deadline(old(node)@.config, now, deadline) && ({
                let after = node::after_message(
                    old(node)@,
                    MessageView::InstallSnapshot(req@),
                    deadline,
                );
                final(node)@ == emptied(after) && Some(r->Ok_0@) == first_snapshot_reply(after.outbox)
            }),
{
    let ghost before = node@;
    node.handle_message(RaftMessage::InstallSnapshot(req), now);
    proof {
        let deadline = choose|deadline: u64| #[trigger]
            node::possible_deadline(before.config, now, deadline) && node@ == node::after_message(
                before,
                MessageView::InstallSnapshot(req@),
                deadline,
            );
        assert(node::possible_deadline(before.config, now, deadline));
        lemma_snapshot_reply_found(node@.outbox);
    }
    take_snapshot_reply(node)
}

/// The answer to a request to append that is taken is the first one among the messages, and there is
/// none only if no message is one.
#[verifier::spinoff_prover]
pub proof fn law_first_append_reply_is_taken(outbox: Seq<(Seq<char>, MessageView)>)
    ensures
        first_append_reply(outbox) is None <==> forall|i: int|
            0 <= i < outbox.len() ==> !((#[trigger] outbox[i]).1 is AppendEntriesReply),
        forall|n: int|
            0 <= n < outbox.len() && (#[trigger] outbox[n]).1 is AppendEntriesReply && (forall|i: int|
                0 <= i < n ==> !((#[trigger] outbox[i]).1 is AppendEntriesReply))
                ==> first_append_reply(outbox) == Some(outbox[n].1->AppendEntriesReply_0),
    decreases outbox.len(),
{
    if outbox.len() > 0 {
        let rest = outbox.drop_first();
        law_first_append_reply_is_taken(rest);
        assert forall|i: int| 0 <= i < rest.len() implies #[trigger] rest[i] == outbox[i + 1] by {}
        if !(outbox[0].1 is AppendEntriesReply) {
            if first_append_reply(rest) is None {
                assert forall|i: int| 0 <= i < outbox.len() implies !((
                #[trigger] outbox[i]).1 is AppendEntriesReply) by {
                    if i > 0 {
                        assert(rest[i - 1] == outbox[i]);
                    }
                }
            }
            assert forall|n: int|
                0 <= n < outbox.len() && (#[trigger] outbox[n]).1 is AppendEntriesReply && (forall|
                    i: int,
                | 0 <= i < n ==> !((#[trigger] outbox[i]).1 is AppendEntriesReply)) implies first_append_reply(
                outbox,
            ) == Some(outbox[n].1->AppendEntriesReply_0) by {
                assert(rest[n - 1] == outbox[n]);
                assert forall|i: int| 0 <= i < n - 1 implies !((
                #[trigger] rest[i]).1 is AppendEntriesReply) by {
                    assert(rest[i] == outbox[i + 1]);
                }
            }
        } else {
            assert(outbox[0].1 is AppendEntriesReply);
        }
    }
}

/// The answer to a request for a vote that is taken is the first one among the messages, and there is
/// none only if no message is one.
#[verifier::spinoff_prover]
pub proof fn law_first_vote_reply_is_taken(outbox: Seq<(Seq<char>, MessageView)>)
    ensures
        first_vote_reply(outbox) is None <==> forall|i: int|
            0 <= i < outbox.len() ==> !((#[trigger] outbox[i]).1 is RequestVoteReply),
        forall|n: int|
            0 <= n < outbox.len() && (#[trigger] outbox[n]).1 is RequestVoteReply && (forall|i: int|
                0 <= i < n ==> !((#[trigger] outbox[i]).1 is RequestVoteReply))
                ==> first_vote_reply(outbox) == Some(outbox[n].1->RequestVoteReply_0),
    decreases outbox.len(),
{
    if outbox.len() > 0 {
        let rest = outbox.drop_first();
        law_first_vote_reply_is_taken(rest);
        assert forall|i: int| 0 <= i < rest.len() implies #[trigger] rest[i] == outbox[i + 1] by {}
        if !(outbox[0].1 is RequestVoteReply) {
            if first_vote_reply(rest) is None {
                assert forall|i: int| 0 <= i < outbox.len() implies !((
                #[trigger] outbox[i]).1 is RequestVoteReply) by {
                    if i > 0 {
                        assert(rest[i - 1] == outbox[i]);
                    }
                }
            }
            assert forall|n: int|
                0 <= n < outbox.len() && (#[trigger] outbox[n]).1 is RequestVoteReply && (forall|
                    i: int,
                | 0 <= i < n ==> !((#[trigger] outbox[i]).1 is RequestVoteReply)) implies first_vote_reply(
                outbox,
            ) == Some(outbox[n].1->RequestVoteReply_0) by {
                assert(rest[n - 1] == outbox[n]);
                assert forall|i: int| 0 <= i < n - 1 implies !((
                #[trigger] rest[i]).1 is RequestVoteReply) by {
                    assert(rest[i] == outbox[i + 1]);
                }
            }
        } else {
            assert(outbox[0].1 is RequestVoteReply);
        }
    }
}

/// The answer to a snapshot that is taken is the first one among the messages, and there is
/// none only if no message is one.
#[verifier::spinoff_prover]
pub proof fn law_first_snapshot_reply_is_taken(outbox: Seq<(Seq<char>, MessageView)>)
    ensures
        first_snapshot_reply(outbox) is None <==> forall|i: int|
            0 <= i < outbox.len() ==> !((#[trigger] outbox[i]).1 is InstallSnapshotReply),
        forall|n: int|
            0 <= n < outbox.len() && (#[trigger] outbox[n]).1 is InstallSnapshotReply && (forall|i: int|
                0 <= i < n ==> !((#[trigger] outbox[i]).1 is InstallSnapshotReply))
                ==> first_snapshot_reply(outbox) == Some(outbox[n].1->InstallSnapshotReply_0),
    decreases outbox.len(),
{
    if outbox.len() > 0 {
        let rest = outbox.drop_first();
        law_first_snapshot_reply_is_taken(rest);
        assert forall|i: int| 0 <= i < rest.len() implies #[trigger] rest[i] == outbox[i + 1] by {}
        if !(outbox[0].1 is InstallSnapshotReply) {
            if first_snapshot_reply(rest) is None {
                assert forall|i: int| 0 <= i < outbox.len() implies !((
                #[trigger] outbox[i]).1 is InstallSnapshotReply) by {
                    if i > 0 {
                        assert(rest[i - 1] == outbox[i]);
                    }
                }
            }
            assert forall|n: int|
                0 <= n < outbox.len() && (#[trigger] outbox[n]).1 is InstallSnapshotReply && (forall|
                    i: int,
                | 0 <= i < n ==> !((#[trigger] outbox[i]).1 is InstallSnapshotReply)) implies first_snapshot_reply(
                outbox,
            ) == Some(outbox[n].1->InstallSnapshotReply_0) by {
                assert(rest[n - 1] == outbox[n]);
                assert forall|i: int| 0 <= i < n - 1 implies !((
                #[trigger] rest[i]).1 is InstallSnapshotReply) by {
                    assert(rest[i] == outbox[i + 1]);
                }
            }
        } else {
            assert(outbox[0].1 is InstallSnapshotReply);
        }
    }
}

/// Emptying the outbox changes nothing else.
pub proof fn law_emptying_changes_nothing_else(s: NodeState)
    ensures
        ({
            let t = emptied(s);
            &&& t.outbox.len() == 0
            &&& t == (NodeState { outbox: t.outbox, ..s })
        }),
{
}

/// A command that arrived and decoded is taken as it is, and one that did not decode as one
/// that asks for nothing.
pub proof fn law_what_does_not_decode_asks_for_nothing(command: Option<Command>)
    ensures
        command matches Some(c) ==> received_command(command) == c@,
        command is None ==> received_command(command) is Noop,
{
}

} // verus!
