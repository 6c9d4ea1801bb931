//! What a server sends to the other nodes, and what it does with their answers.

use crate::raft::message;
use crate::raft::message::{
    AppendEntriesRequest, AppendEntriesResponse, InstallSnapshotRequest, InstallSnapshotResponse,
    RaftMessage, VoteRequest, VoteResponse,
};
use crate::raft::node;
use crate::raft::node::RaftNode;
use crate::server::raft_service;
use vstd::prelude::*;

verus! {

/// A call to another node.
#[derive(Debug)]
pub enum Call {
    AppendEntries(AppendEntriesRequest),
    RequestVote(VoteRequest),
    InstallSnapshot(InstallSnapshotRequest),
}

/// The answer to a call.
#[derive(Debug)]
pub enum Answer {
    AppendEntries(AppendEntriesResponse),
    RequestVote(VoteResponse),
    InstallSnapshot(InstallSnapshotResponse),
}

/// The call that carries a message. An answer is not called out: it goes back with the
/// call that asked for it.
pub fn call_for(msg: RaftMessage) -> (r: Option<Call>)
    ensures
        r == match msg {
            RaftMessage::AppendEntries(req) => Some(Call::AppendEntries(req)),
            RaftMessage::RequestVote(req) => Some(Call::RequestVote(req)),
            RaftMessage::InstallSnapshot(req) => Some(Call::InstallSnapshot(req)),
            _ => None,
        },
{
    match msg {
        RaftMessage::AppendEntries(req) => Some(Call::AppendEntries(req)),
        RaftMessage::RequestVote(req) => Some(Call::RequestVote(req)),
        RaftMessage::InstallSnapshot(req) => Some(Call::InstallSnapshot(req)),
        _ => None,
    }
}

/// The message that an answer is to the node that called.
pub fn reply_of(answer: Answer) -> (r: RaftMessage)
    ensures
        r == match answer {
            Answer::AppendEntries(resp) => RaftMessage::AppendEntriesReply(resp),
            Answer::RequestVote(resp) => RaftMessage::RequestVoteReply(resp),
            Answer::InstallSnapshot(resp) => RaftMessage::InstallSnapshotReply(resp),
        },
{
    match answer {
        Answer::AppendEntries(resp) => RaftMessage::AppendEntriesReply(resp),
        Answer::RequestVote(resp) => RaftMessage::RequestVoteReply(resp),
        Answer::InstallSnapshot(resp) => RaftMessage::InstallSnapshotReply(resp),
    }
}

/// Whether no number runs over when the node takes the answer to a call.
pub fn answer_fits(node: &RaftNode, answer: &Answer, now: u64) -> (r: bool)
    ensures
        r == (node::message_fits(node@, answered(*answer)) && now
            + node@.config.election_timeout_max <= u64::MAX),
{
    let msg = match answer {
        Answer::AppendEntries(resp) => RaftMessage::AppendEntriesReply(resp.clone()),
        Answer::RequestVote(resp) => RaftMessage::RequestVoteReply(resp.clone()),
        Answer::InstallSnapshot(resp) => RaftMessage::InstallSnapshotReply(resp.clone()),
    };
    node.message_fits(&msg, now)
}

/// Hands the node the answer to a call. What it has to say to that stays in its outbox.
pub fn take_answer(node: &mut RaftNode, answer: Answer, now: u64)
    requires
        node::message_fits(old(node)@, answered(answer)),
        now + old(node)@.config.election_timeout_max <= u64::MAX,
    ensures
        exists|deadline: u64| #[trigger]
            node::possible_deadline(old(node)@.config, now, deadline) && final(node)@
                == node::after_message(old(node)@, answered(answer), deadline),
{
    node.handle_message(reply_of(answer), now);
}

/// What an answer says to the node that called.
pub open spec fn answered(answer: Answer) -> message::MessageView {
    match answer {
        Answer::AppendEntries(resp) => message::MessageView::AppendEntriesReply(resp@),
        Answer::RequestVote(resp) => message::MessageView::RequestVoteReply(resp@),
        Answer::InstallSnapshot(resp) => message::MessageView::InstallSnapshotReply(resp@),
    }
}

/// Lets the node see the time, and takes what it has to send.
pub fn tick(node: &mut RaftNode, now: u64) -> (r: Vec<(String, RaftMessage)>)
    requires
        node::tick_fits(old(node)@, now),
        now + old(node)@.config.election_timeout_max <= u64::MAX,
    ensures
        exists|deadline: u64| #[trigger]
            node::possible_deadline(old(node)@.config, now, deadline) && ({
                let after = node::after_tick(old(node)@, now, deadline);
                &&& message::outbox_view(r@) == after.outbox
                &&& final(node)@ == raft_service::emptied(after)
            }),
{
    node.tick(now);
    node.take_outbox()
}

} // verus!
