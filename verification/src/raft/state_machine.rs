//! The state machine that committed entries are applied to.

use crate::crdt::state;
use crate::crdt::state::{CrdtState, StateView};
use crate::raft::log::{Command, CommandView, EntryView};
use vstd::prelude::*;

verus! {

/// The state machine: the replicated state, and the index of the last entry that was
/// applied to it. An entry is applied at most once.
#[derive(Debug)]
pub struct StateMachine {
    state: CrdtState,
    last_applied: u64,
}

/// A copy of the state machine at one point of the log.
#[derive(Debug)]
pub struct StateMachineSnapshot {
    pub state: CrdtState,
    pub last_applied: u64,
}

/// What a state machine, or a snapshot of one, holds.
pub struct MachineView {
    pub state: StateView,
    pub last_applied: u64,
}

impl View for StateMachine {
    type V = MachineView;

    closed spec fn view(&self) -> MachineView {
        MachineView { state: self.state@, last_applied: self.last_applied }
    }
}

impl View for StateMachineSnapshot {
    type V = MachineView;

    open spec fn view(&self) -> MachineView {
        MachineView { state: self.state@, last_applied: self.last_applied }
    }
}

impl Clone for StateMachineSnapshot {
    fn clone(&self) -> (r: Self)
        ensures
            r@ == self@,
    {
        StateMachineSnapshot { state: self.state.clone(), last_applied: self.last_applied }
    }
}

/// The state machine that nothing has been applied to.
pub open spec fn new_machine() -> MachineView {
    MachineView { state: state::empty_state(), last_applied: 0 }
}

/// The state machine after the command at `index`. An index that has been reached
/// changes nothing.
pub open spec fn machine_apply(m: MachineView, index: u64, command: CommandView) -> MachineView {
    if index <= m.last_applied {
        m
    } else {
        MachineView {
            state: match command {
                CommandView::CrdtOp(op) => state::state_apply(m.state, op),
                CommandView::Noop => m.state,
            },
            last_applied: index,
        }
    }
}

impl StateMachine {
    /// The state machine that nothing has been applied to.
    pub fn new() -> (r: Self)
        ensures
            r@ == new_machine(),
    {
        StateMachine { state: CrdtState::new(), last_applied: 0 }
    }

    /// Applies the command at `index`.
    pub fn apply(&mut self, index: u64, command: &Command)
        ensures
            final(self)@ == machine_apply(old(self)@, index, command@),
    {
        if index <= self.last_applied {
            return;
        }
        match command {
            Command::CrdtOp(op) => {
                self.state.apply(op);
            },
            Command::Noop => {},
        }
        self.last_applied = index;
    }

    /// The replicated state.
    pub fn state(&self) -> (r: &CrdtState)
        ensures
            r@ == self@.state,
    {
        &self.state
    }

    /// The index of the last entry that was applied.
    pub fn last_applied(&self) -> (r: u64)
        ensures
            r == self@.last_applied,
    {
        self.last_applied
    }

    /// A copy of the state machine.
    pub fn snapshot(&self) -> (r: StateMachineSnapshot)
        ensures
            r@ == self@,
    {
        StateMachineSnapshot { state: self.state.clone(), last_applied: self.last_applied }
    }

    /// Goes to the point of the log at which a snapshot was taken.
    pub fn restore(&mut self, snapshot: StateMachineSnapshot)
        ensures
            final(self)@ == snapshot@,
    {
        let StateMachineSnapshot { state, last_applied } = snapshot;
        self.state = state;
        self.last_applied = last_applied;
    }
}

impl Default for StateMachine {
    fn default() -> (r: Self)
        ensures
            r@ == new_machine(),
    {
        StateMachine::new()
    }
}

/// The state machine after a list of entries.
pub open spec fn machine_replay(m: MachineView, entries: Seq<EntryView>) -> MachineView
    decreases entries.len(),
{
    if entries.len() == 0 {
        m
    } else {
        machine_apply(
            machine_replay(m, entries.drop_last()),
            entries.last().index,
            entries.last().command,
        )
    }
}

/// Entries that have been applied change nothing: replaying a part of the log that lies
/// before the last applied index leaves the state machine as it is.
pub proof fn law_replay_of_applied_entries_changes_nothing(
    m: MachineView,
    entries: Seq<EntryView>,
)
    requires
        forall|i: int| 0 <= i < entries.len() ==> (#[trigger] entries[i]).index <= m.last_applied,
    ensures
        machine_replay(m, entries) == m,
    decreases entries.len(),
{
    if entries.len() > 0 {
        let front = entries.drop_last();
        assert forall|i: int| 0 <= i < front.len() implies (#[trigger] front[i]).index
            <= m.last_applied by {
            assert(front[i] == entries[i]);
        }
        law_replay_of_applied_entries_changes_nothing(m, front);
        assert(entries[entries.len() - 1] == entries.last());
    }
}

proof fn lemma_replay_in_parts(m: MachineView, first: Seq<EntryView>, second: Seq<EntryView>)
    ensures
        machine_replay(m, first + second) == machine_replay(machine_replay(m, first), second),
    decreases second.len(),
{
    if second.len() == 0 {
        assert(first + second =~= first);
    } else {
        lemma_replay_in_parts(m, first, second.drop_last());
        assert((first + second).drop_last() =~= first + second.drop_last());
    }
}

proof fn lemma_replay_reaches_the_last(m: MachineView, entries: Seq<EntryView>)
    ensures
        machine_replay(m, entries).last_applied >= m.last_applied,
        forall|i: int|
            0 <= i < entries.len() ==> (#[trigger] entries[i]).index <= machine_replay(
                m,
                entries,
            ).last_applied,
    decreases entries.len(),
{
    if entries.len() > 0 {
        let front = entries.drop_last();
        lemma_replay_reaches_the_last(m, front);
        assert forall|i: int| 0 <= i < entries.len() implies (#[trigger] entries[i]).index
            <= machine_replay(m, entries).last_applied by {
            if i < front.len() {
                assert(front[i] == entries[i]);
            }
        }
    }
}

/// Snapshot and replay are safe: a machine that is restored from a snapshot taken after
/// the first part of the log, and then replays the whole log, ends where a machine ends
/// that replays the log from the start.
pub proof fn law_snapshot_then_replay(
    m: MachineView,
    before: Seq<EntryView>,
    after: Seq<EntryView>,
)
    ensures
        machine_replay(machine_replay(m, before), before + after) == machine_replay(
            m,
            before + after,
        ),
{
    let snapshot = machine_replay(m, before);
    lemma_replay_reaches_the_last(m, before);
    law_replay_of_applied_entries_changes_nothing(snapshot, before);
    lemma_replay_in_parts(snapshot, before, after);
    lemma_replay_in_parts(m, before, after);
}

} // verus!
