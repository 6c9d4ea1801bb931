//! The messages that nodes send each other.

use crate::raft::log;
use crate::raft::log::{EntryView, LogEntry};
use crate::raft::state_machine::{MachineView, StateMachineSnapshot};
use vstd::prelude::*;

verus! {

/// A leader sends entries, or none as a heartbeat.
#[derive(Debug)]
pub struct AppendEntriesRequest {
    pub term: u64,
    pub leader_id: String,
    pub prev_log_index: u64,
    pub prev_log_term: u64,
    pub entries: Vec<LogEntry>,
    pub leader_commit: u64,
}

/// What [`AppendEntriesRequest`] says.
pub struct AppendEntriesRequestView {
    pub term: u64,
    pub leader_id: Seq<char>,
    pub prev_log_index: u64,
    pub prev_log_term: u64,
    pub entries: Seq<EntryView>,
    pub leader_commit: u64,
}

impl View for AppendEntriesRequest {
    type V = AppendEntriesRequestView;

    open spec fn view(&self) -> AppendEntriesRequestView {
        AppendEntriesRequestView {
            term: self.term,
            leader_id: self.leader_id@,
            prev_log_index: self.prev_log_index,
            prev_log_term: self.prev_log_term,
            entries: log::entry_views(self.entries@),
            leader_commit: self.leader_commit,
        }
    }
}

impl Clone for AppendEntriesRequest {
    fn clone(&self) -> (r: Self)
        ensures
            r@ == self@,
    {
        AppendEntriesRequest {
            term: self.term,
            leader_id: self.leader_id.clone(),
            prev_log_index: self.prev_log_index,
            prev_log_term: self.prev_log_term,
            entries: log::copy_entries(self.entries.as_slice()),
            leader_commit: self.leader_commit,
        }
    }
}

/// A follower answers [`AppendEntriesRequest`].
#[derive(Debug)]
pub struct AppendEntriesResponse {
    pub term: u64,
    pub success: bool,
    pub match_index: u64,
    pub from: String,
}

/// What [`AppendEntriesResponse`] says.
pub struct AppendEntriesResponseView {
    pub term: u64,
    pub success: bool,
    pub match_index: u64,
    pub from: Seq<char>,
}

impl View for AppendEntriesResponse {
    type V = AppendEntriesResponseView;

    open spec fn view(&self) -> AppendEntriesResponseView {
        AppendEntriesResponseView {
            term: self.term,
            success: self.success,
            match_index: self.match_index,
            from: self.from@,
        }
    }
}

impl Clone for AppendEntriesResponse {
    fn clone(&self) -> (r: Self)
        ensures
            r@ == self@,
    {
        AppendEntriesResponse {
            term: self.term,
            success: self.success,
            match_index: self.match_index,
            from: self.from.clone(),
        }
    }
}

/// A candidate asks for a vote.
#[derive(Debug)]
pub struct VoteRequest {
    pub term: u64,
    pub candidate_id: String,
    pub last_log_index: u64,
    pub last_log_term: u64,
}

/// What [`VoteRequest`] says.
pub struct VoteRequestView {
    pub term: u64,
    pub candidate_id: Seq<char>,
    pub last_log_index: u64,
    pub last_log_term: u64,
}

impl View for VoteRequest {
    type V = VoteRequestView;

    open spec fn view(&self) -> VoteRequestView {
        VoteRequestView {
            term: self.term,
            candidate_id: self.candidate_id@,
            last_log_index: self.last_log_index,
            last_log_term: self.last_log_term,
        }
    }
}

impl Clone for VoteRequest {
    fn clone(&self) -> (r: Self)
        ensures
            r@ == self@,
    {
        VoteRequest {
            term: self.term,
            candidate_id: self.candidate_id.clone(),
            last_log_index: self.last_log_index,
            last_log_term: self.last_log_term,
        }
    }
}

/// A node answers [`VoteRequest`].
#[derive(Debug)]
pub struct VoteResponse {
    pub term: u64,
    pub vote_granted: bool,
    pub from: String,
}

/// What [`VoteResponse`] says.
pub struct VoteResponseView {
    pub term: u64,
    pub vote_granted: bool,
    pub from: Seq<char>,
}

impl View for VoteResponse {
    type V = VoteResponseView;

    open spec fn view(&self) -> VoteResponseView {
        VoteResponseView {
            term: self.term,
            vote_granted: self.vote_granted,
            from: self.from@,
        }
    }
}

impl Clone for VoteResponse {
    fn clone(&self) -> (r: Self)
        ensures
            r@ == self@,
    {
        VoteResponse {
            term: self.term,
            vote_granted: self.vote_granted,
            from: self.from.clone(),
        }
    }
}

/// A leader sends a snapshot to a follower that is too far behind. `data` is nothing if
/// the snapshot could not be decoded on arrival.
#[derive(Debug)]
pub struct InstallSnapshotRequest {
    pub term: u64,
    pub leader_id: String,
    pub last_included_index: u64,
    pub last_included_term: u64,
    pub data: Option<StateMachineSnapshot>,
}

/// What [`InstallSnapshotRequest`] says.
pub struct InstallSnapshotRequestView {
    pub term: u64,
    pub leader_id: Seq<char>,
    pub last_included_index: u64,
    pub last_included_term: u64,
    pub data: Option<MachineView>,
}

impl View for InstallSnapshotRequest {
    type V = InstallSnapshotRequestView;

    open spec fn view(&self) -> InstallSnapshotRequestView {
        InstallSnapshotRequestView {
            term: self.term,
            leader_id: self.leader_id@,
            last_included_index: self.last_included_index,
            last_included_term: self.last_included_term,
            data: snapshot_view(self.data),
        }
    }
}

impl Clone for InstallSnapshotRequest {
    fn clone(&self) -> (r: Self)
        ensures
            r@ == self@,
    {
        InstallSnapshotRequest {
            term: self.term,
            leader_id: self.leader_id.clone(),
            last_included_index: self.last_included_index,
            last_included_term: self.last_included_term,
            data: copy_snapshot(&self.data),
        }
    }
}

/// What a snapshot holds, if there is one.
pub open spec fn snapshot_view(data: Option<StateMachineSnapshot>) -> Option<MachineView> {
    match data {
        Some(snapshot) => Some(snapshot@),
        None => None,
    }
}

fn copy_snapshot(data: &Option<StateMachineSnapshot>) -> (r: Option<StateMachineSnapshot>)
    ensures
        snapshot_view(r) == snapshot_view(*data),
{
    match data {
        Some(snapshot) => Some(snapshot.clone()),
        None => None,
    }
}

/// A follower answers [`InstallSnapshotRequest`].
#[derive(Debug)]
pub struct InstallSnapshotResponse {
    pub term: u64,
    pub from: String,
}

/// What [`InstallSnapshotResponse`] says.
pub struct InstallSnapshotResponseView {
    pub term: u64,
    pub from: Seq<char>,
}

impl View for InstallSnapshotResponse {
    type V = InstallSnapshotResponseView;

    open spec fn view(&self) -> InstallSnapshotResponseView {
        InstallSnapshotResponseView {
            term: self.term,
            from: self.from@,
        }
    }
}

impl Clone for InstallSnapshotResponse {
    fn clone(&self) -> (r: Self)
        ensures
            r@ == self@,
    {
        InstallSnapshotResponse {
            term: self.term,
            from: self.from.clone(),
        }
    }
}

/// A message between nodes.
#[derive(Debug)]
pub enum RaftMessage {
    AppendEntries(AppendEntriesRequest),
    AppendEntriesReply(AppendEntriesResponse),
    RequestVote(VoteRequest),
    RequestVoteReply(VoteResponse),
    InstallSnapshot(InstallSnapshotRequest),
    InstallSnapshotReply(InstallSnapshotResponse),
}

/// What a message says.
pub enum MessageView {
    AppendEntries(AppendEntriesRequestView),
    AppendEntriesReply(AppendEntriesResponseView),
    RequestVote(VoteRequestView),
    RequestVoteReply(VoteResponseView),
    InstallSnapshot(InstallSnapshotRequestView),
    InstallSnapshotReply(InstallSnapshotResponseView),
}

impl View for RaftMessage {
    type V = MessageView;

    open spec fn view(&self) -> MessageView {
        match self {
            RaftMessage::AppendEntries(m) => MessageView::AppendEntries(m@),
            RaftMessage::AppendEntriesReply(m) => MessageView::AppendEntriesReply(m@),
            RaftMessage::RequestVote(m) => MessageView::RequestVote(m@),
            RaftMessage::RequestVoteReply(m) => MessageView::RequestVoteReply(m@),
            RaftMessage::InstallSnapshot(m) => MessageView::InstallSnapshot(m@),
            RaftMessage::InstallSnapshotReply(m) => MessageView::InstallSnapshotReply(m@),
        }
    }
}

impl Clone for RaftMessage {
    fn clone(&self) -> (r: Self)
        ensures
            r@ == self@,
    {
        match self {
            RaftMessage::AppendEntries(m) => RaftMessage::AppendEntries(m.clone()),
            RaftMessage::AppendEntriesReply(m) => RaftMessage::AppendEntriesReply(m.clone()),
            RaftMessage::RequestVote(m) => RaftMessage::RequestVote(m.clone()),
            RaftMessage::RequestVoteReply(m) => RaftMessage::RequestVoteReply(m.clone()),
            RaftMessage::InstallSnapshot(m) => RaftMessage::InstallSnapshot(m.clone()),
            RaftMessage::InstallSnapshotReply(m) => RaftMessage::InstallSnapshotReply(m.clone()),
        }
    }
}

/// What a list of messages with their addressees says.
pub open spec fn outbox_view(outbox: Seq<(String, RaftMessage)>) -> Seq<(Seq<char>, MessageView)> {
    Seq::new(outbox.len(), |i: int| (outbox[i].0@, outbox[i].1@))
}

} // verus!
