//! The replicated log.

use crate::crdt::state::{CrdtOp, CrdtOpView};
use vstd::prelude::*;
use vstd::slice::slice_subrange;

verus! {

/// What an entry of the log asks the state machine to do.
#[derive(Debug)]
pub enum Command {
    CrdtOp(CrdtOp),
    Noop,
}

/// What a command says.
pub enum CommandView {
    CrdtOp(CrdtOpView),
    Noop,
}

impl View for Command {
    type V = CommandView;

    open spec fn view(&self) -> CommandView {
        match self {
            Command::CrdtOp(op) => CommandView::CrdtOp(op@),
            Command::Noop => CommandView::Noop,
        }
    }
}

impl Clone for Command {
    fn clone(&self) -> (r: Self)
        ensures
            r@ == self@,
    {
        match self {
            Command::CrdtOp(op) => Command::CrdtOp(op.clone()),
            Command::Noop => Command::Noop,
        }
    }
}

/// An entry of the log.
#[derive(Debug)]
pub struct LogEntry {
    pub index: u64,
    pub term: u64,
    pub command: Command,
}

/// What an entry of the log says.
pub struct EntryView {
    pub index: u64,
    pub term: u64,
    pub command: CommandView,
}

impl View for LogEntry {
    type V = EntryView;

    open spec fn view(&self) -> EntryView {
        EntryView { index: self.index, term: self.term, command: self.command@ }
    }
}

impl Clone for LogEntry {
    fn clone(&self) -> (r: Self)
        ensures
            r@ == self@,
    {
        LogEntry { index: self.index, term: self.term, command: self.command.clone() }
    }
}

/// What a list of entries says.
pub open spec fn entry_views(entries: Seq<LogEntry>) -> Seq<EntryView> {
    Seq::new(entries.len(), |i: int| entries[i]@)
}

/// Copies a list of entries.
pub(crate) fn copy_entries(entries: &[LogEntry]) -> (r: Vec<LogEntry>)
    ensures
        entry_views(r@) == entry_views(entries@),
{
    let n = entries.len();
    let mut r: Vec<LogEntry> = Vec::new();
    let mut i: usize = 0;
    while i < n
        invariant
            i <= n == entries@.len(),
            entry_views(r@) == entry_views(entries@).take(i as int),
        decreases n - i,
    {
        let ghost before = r@;
        r.push(entries[i].clone());
        proof {
            assert(entry_views(r@) =~= entry_views(before).push(entries@[i as int]@));
            assert(entry_views(entries@).take(i + 1) =~= entry_views(entries@).take(
                i as int,
            ).push(entries@[i as int]@));
        }
        i = i + 1;
    }
    assert(entry_views(entries@).take(n as int) =~= entry_views(entries@));
    r
}

/// The log in memory. The entries up to the snapshot point have been compacted away;
/// the first entry that is held stands right behind it.
#[derive(Debug)]
pub struct RaftLog {
    entries: Vec<LogEntry>,
    snapshot_last_index: u64,
    snapshot_last_term: u64,
}

/// What the log holds.
pub struct LogView {
    pub entries: Seq<EntryView>,
    pub snapshot_last_index: u64,
    pub snapshot_last_term: u64,
}

impl View for RaftLog {
    type V = LogView;

    closed spec fn view(&self) -> LogView {
        LogView {
            entries: entry_views(self.entries@),
            snapshot_last_index: self.snapshot_last_index,
            snapshot_last_term: self.snapshot_last_term,
        }
    }
}

/// The log that holds nothing.
pub open spec fn empty_log() -> LogView {
    LogView { entries: Seq::empty(), snapshot_last_index: 0, snapshot_last_term: 0 }
}

/// The index of the last entry, or that of the snapshot if no entry is held.
pub open spec fn last_index(log: LogView) -> u64 {
    if log.entries.len() == 0 {
        log.snapshot_last_index
    } else {
        log.entries.last().index
    }
}

/// The term of the last entry, or that of the snapshot if no entry is held.
pub open spec fn last_term(log: LogView) -> u64 {
    if log.entries.len() == 0 {
        log.snapshot_last_term
    } else {
        log.entries.last().term
    }
}

/// The place in the list of entries that belongs to an index. It lies before the list
/// for an index that the snapshot covers, and behind it for one that is yet to come.
pub open spec fn place(log: LogView, index: u64) -> int {
    index - log.snapshot_last_index - 1
}

/// The entry at an index, if it is held.
pub open spec fn entry_at(log: LogView, index: u64) -> Option<EntryView> {
    if 0 <= place(log, index) < log.entries.len() {
        Some(log.entries[place(log, index)])
    } else {
        None
    }
}

/// The term at an index. It is known for the held entries, for the last entry that the
/// snapshot covers, and is 0 at index 0, where there is no entry.
pub open spec fn term_at(log: LogView, index: u64) -> Option<u64> {
    if index == 0 {
        Some(0)
    } else if index == log.snapshot_last_index {
        Some(log.snapshot_last_term)
    } else {
        match entry_at(log, index) {
            Some(entry) => Some(entry.term),
            None => None,
        }
    }
}

/// The held entries from an index on.
pub open spec fn entries_from(log: LogView, index: u64) -> Seq<EntryView> {
    if place(log, index) < 0 {
        log.entries
    } else if place(log, index) >= log.entries.len() {
        Seq::empty()
    } else {
        log.entries.skip(place(log, index))
    }
}

/// The log with an entry put at its end, whatever its index.
pub open spec fn with_appended(log: LogView, entry: EntryView) -> LogView {
    LogView { entries: log.entries.push(entry), ..log }
}

/// The log after it took in an entry of the leader. An entry that the snapshot covers
/// is dropped, and so is one whose place holds an entry of the same term. An entry of
/// another term is replaced, and everything behind it is dropped.
pub open spec fn with_entry(log: LogView, entry: EntryView) -> LogView {
    let at = place(log, entry.index);
    if at < 0 {
        log
    } else if at < log.entries.len() {
        if log.entries[at].term == entry.term {
            log
        } else {
            LogView { entries: log.entries.take(at).push(entry), ..log }
        }
    } else {
        with_appended(log, entry)
    }
}

/// The log after it took in a list of entries of the leader, one after the other.
pub open spec fn with_entries(log: LogView, entries: Seq<EntryView>) -> LogView
    decreases entries.len(),
{
    if entries.len() == 0 {
        log
    } else {
        with_entry(with_entries(log, entries.drop_last()), entries.last())
    }
}

/// The log without the entries from an index on.
pub open spec fn truncated(log: LogView, index: u64) -> LogView {
    if place(log, index) < 0 {
        LogView { entries: Seq::empty(), ..log }
    } else if place(log, index) < log.entries.len() {
        LogView { entries: log.entries.take(place(log, index)), ..log }
    } else {
        log
    }
}

/// The log with the entries through an index replaced by a snapshot.
pub open spec fn compacted(log: LogView, index: u64, term: u64) -> LogView {
    if place(log, index) < 0 {
        log
    } else {
        LogView {
            entries: if place(log, index) < log.entries.len() {
                log.entries.skip(place(log, index) + 1)
            } else {
                Seq::empty()
            },
            snapshot_last_index: index,
            snapshot_last_term: term,
        }
    }
}

impl RaftLog {
    /// The log that holds nothing.
    pub fn new() -> (r: Self)
        ensures
            r@ == empty_log(),
    {
        let r = RaftLog { entries: Vec::new(), snapshot_last_index: 0, snapshot_last_term: 0 };
        assert(r@.entries =~= Seq::<EntryView>::empty());
        r
    }

    /// The index of the last entry.
    pub fn last_index(&self) -> (r: u64)
        ensures
            r == last_index(self@),
    {
        let n = self.entries.len();
        if n == 0 {
            self.snapshot_last_index
        } else {
            self.entries[n - 1].index
        }
    }

    /// The term of the last entry.
    pub fn last_term(&self) -> (r: u64)
        ensures
            r == last_term(self@),
    {
        let n = self.entries.len();
        if n == 0 {
            self.snapshot_last_term
        } else {
            self.entries[n - 1].term
        }
    }

    /// The term at an index, if it is known.
    pub fn term_at(&self, index: u64) -> (r: Option<u64>)
        ensures
            r == term_at(self@, index),
    {
        if index == 0 {
            return Some(0);
        }
        if index == self.snapshot_last_index {
            return Some(self.snapshot_last_term);
        }
        match self.entry_at(index) {
            Some(entry) => Some(entry.term),
            None => None,
        }
    }

    /// The entry at an index, if it is held.
    pub fn entry_at(&self, index: u64) -> (r: Option<&LogEntry>)
        ensures
            r is Some <==> entry_at(self@, index) is Some,
            r matches Some(entry) ==> Some(entry@) == entry_at(self@, index),
    {
        match self.held_place(index) {
            Some(at) => Some(&self.entries[at]),
            None => None,
        }
    }

    /// The held entries from an index on.
    pub fn entries_from(&self, start_index: u64) -> (r: &[LogEntry])
        ensures
            entry_views(r@) == entries_from(self@, start_index),
    {
        let n = self.entries.len();
        let from: usize = if start_index <= self.snapshot_last_index {
            0
        } else {
            match self.held_place(start_index) {
                Some(at) => at,
                None => n,
            }
        };
        let r = slice_subrange(self.entries.as_slice(), from, n);
        assert(entry_views(r@) =~= entries_from(self@, start_index));
        r
    }

    /// The place of an index that is held.
    fn held_place(&self, index: u64) -> (r: Option<usize>)
        ensures
            r is Some <==> 0 <= place(self@, index) < self@.entries.len(),
            r matches Some(at) ==> at == place(self@, index) && at < self.entries@.len()
                && at < usize::MAX,
    {
        if index <= self.snapshot_last_index {
            return None;
        }
        let at: u64 = index - self.snapshot_last_index - 1;
        if at < self.entries.len() as u64 {
            Some(at as usize)
        } else {
            None
        }
    }

    /// Puts an entry at the end.
    pub fn append(&mut self, entry: LogEntry)
        ensures
            final(self)@ == with_appended(old(self)@, entry@),
    {
        self.entries.push(entry);
        assert(self@.entries =~= old(self)@.entries.push(entry@));
    }

    /// Takes in the entries that a leader sent.
    pub fn append_entries(&mut self, _prev_index: u64, entries: Vec<LogEntry>)
        ensures
            final(self)@ == with_entries(old(self)@, entry_views(entries@)),
    {
        let ghost all = entry_views(entries@);
        let n = entries.len();
        let mut i: usize = 0;
        while i < n
            invariant
                i <= n == entries@.len(),
                all == entry_views(entries@),
                self@ == with_entries(old(self)@, all.take(i as int)),
            decreases n - i,
        {
            proof {
                assert(all.take(i + 1).drop_last() =~= all.take(i as int));
                assert(all.take(i + 1).last() == entries@[i as int]@);
            }
            self.take_in(&entries[i]);
            i = i + 1;
        }
        assert(all.take(n as int) =~= all);
    }

    fn take_in(&mut self, entry: &LogEntry)
        ensures
            final(self)@ == with_entry(old(self)@, entry@),
    {
        if entry.index <= self.snapshot_last_index {
            return;
        }
        match self.held_place(entry.index) {
            Some(at) => {
                if self.entries[at].term != entry.term {
                    self.entries.truncate(at);
                    self.entries.push(entry.clone());
                    assert(self@.entries =~= old(self)@.entries.take(at as int).push(entry@));
                }
            },
            None => {
                self.append(entry.clone());
            },
        }
    }

    /// Drops the entries from an index on.
    pub fn truncate_from(&mut self, index: u64)
        ensures
            final(self)@ == truncated(old(self)@, index),
    {
        if index <= self.snapshot_last_index {
            self.entries.clear();
            assert(self@.entries =~= Seq::<EntryView>::empty());
            return;
        }
        match self.held_place(index) {
            Some(at) => {
                self.entries.truncate(at);
                assert(self@.entries =~= old(self)@.entries.take(at as int));
            },
            None => {},
        }
    }

    /// Replaces the entries through an index by a snapshot.
    pub fn compact(&mut self, through_index: u64, through_term: u64)
        ensures
            final(self)@ == compacted(old(self)@, through_index, through_term),
    {
        if through_index <= self.snapshot_last_index {
            return;
        }
        match self.held_place(through_index) {
            Some(at) => {
                let rest = self.entries.split_off(at + 1);
                self.entries = rest;
            },
            None => {
                self.entries.clear();
            },
        }
        self.snapshot_last_index = through_index;
        self.snapshot_last_term = through_term;
        assert(self@.entries =~= compacted(old(self)@, through_index, through_term).entries);
    }

    /// The index that the snapshot reaches to.
    pub fn snapshot_last_index(&self) -> (r: u64)
        ensures
            r == self@.snapshot_last_index,
    {
        self.snapshot_last_index
    }

    /// The term of the last entry that the snapshot covers.
    pub fn snapshot_last_term(&self) -> (r: u64)
        ensures
            r == self@.snapshot_last_term,
    {
        self.snapshot_last_term
    }

    /// Sets the snapshot point and leaves the entries as they are.
    pub fn set_snapshot_meta(&mut self, last_index: u64, last_term: u64)
        ensures
            final(self)@ == (LogView {
                snapshot_last_index: last_index,
                snapshot_last_term: last_term,
                ..old(self)@
            }),
    {
        self.snapshot_last_index = last_index;
        self.snapshot_last_term = last_term;
    }

    /// How many entries are held.
    pub fn len(&self) -> (r: usize)
        ensures
            r == self@.entries.len(),
    {
        self.entries.len()
    }

    /// Whether no entry is held.
    pub fn is_empty(&self) -> (r: bool)
        ensures
            r == (self@.entries.len() == 0),
    {
        self.entries.len() == 0
    }
}

impl Default for RaftLog {
    fn default() -> (r: Self)
        ensures
            r@ == empty_log(),
    {
        RaftLog::new()
    }
}

// --- laws ---

/// Every entry stands at the place of its index.
pub open spec fn contiguous(log: LogView) -> bool {
    forall|i: int|
        0 <= i < log.entries.len() ==> (#[trigger] log.entries[i]).index == log.snapshot_last_index
            + i + 1
}

/// The entries follow each other without a gap, the first one right behind `prev`.
pub open spec fn follow_each_other(entries: Seq<EntryView>, prev: u64) -> bool {
    forall|i: int| 0 <= i < entries.len() ==> (#[trigger] entries[i]).index == prev + i + 1
}

/// Appending the next entry keeps the log contiguous, and reads give it back.
pub proof fn law_append_reads_back(log: LogView, entry: EntryView)
    requires
        contiguous(log),
        entry.index == last_index(log) + 1,
    ensures
        contiguous(with_appended(log, entry)),
        last_index(with_appended(log, entry)) == entry.index,
        last_term(with_appended(log, entry)) == entry.term,
        entry_at(with_appended(log, entry), entry.index) == Some(entry),
        forall|i: u64|
            i != entry.index ==> #[trigger] entry_at(with_appended(log, entry), i) == entry_at(
                log,
                i,
            ),
{
    lemma_last_place(log);
}

proof fn lemma_last_place(log: LogView)
    requires
        contiguous(log),
    ensures
        last_index(log) == log.snapshot_last_index + log.entries.len(),
{
    if log.entries.len() > 0 {
        assert(log.entries[log.entries.len() - 1].index == last_index(log));
    }
}

/// Truncating keeps the log contiguous, keeps every entry before the index and none
/// from it on.
pub proof fn law_truncate_keeps_what_is_before(log: LogView, index: u64)
    requires
        contiguous(log),
    ensures
        contiguous(truncated(log, index)),
        forall|i: u64|
            #[trigger] entry_at(truncated(log, index), i) == if i < index {
                entry_at(log, i)
            } else {
                None
            },
{
    let after = truncated(log, index);
    assert forall|i: u64| #[trigger] entry_at(after, i) == if i < index {
        entry_at(log, i)
    } else {
        None
    } by {}
}

/// Compacting keeps the log contiguous, keeps every entry behind the index, and leaves
/// the end of the log and the term at the index where they were.
pub proof fn law_compact_keeps_what_is_behind(log: LogView, index: u64, term: u64)
    requires
        contiguous(log),
        log.snapshot_last_index < index,
    ensures
        contiguous(compacted(log, index, term)),
        forall|i: u64|
            #[trigger] entry_at(compacted(log, index, term), i) == if i > index {
                entry_at(log, i)
            } else {
                None
            },
        index <= last_index(log) ==> last_index(compacted(log, index, term)) == last_index(log),
        term_at(compacted(log, index, term), index) == Some(term),
{
    lemma_last_place(log);
    let after = compacted(log, index, term);
    assert forall|i: int| 0 <= i < after.entries.len() implies (
    #[trigger] after.entries[i]).index == after.snapshot_last_index + i + 1 by {
        assert(after.entries[i] == log.entries[i + place(log, index) + 1]);
    }
    assert forall|i: u64| #[trigger] entry_at(after, i) == if i > index {
        entry_at(log, i)
    } else {
        None
    } by {}
    lemma_last_place(after);
}

/// Taking in what a leader sends after an entry that the log reaches keeps the log
/// contiguous. The log then has the leader's term at every index that was sent, and the
/// entries before those are as they were.
pub proof fn law_entries_take_the_leaders_terms(
    log: LogView,
    prev: u64,
    entries: Seq<EntryView>,
)
    requires
        contiguous(log),
        log.snapshot_last_index <= prev <= last_index(log),
        follow_each_other(entries, prev),
    ensures
        contiguous(with_entries(log, entries)),
        with_entries(log, entries).snapshot_last_index == log.snapshot_last_index,
        last_index(with_entries(log, entries)) >= prev + entries.len(),
        forall|i: int|
            0 <= i < entries.len() ==> term_at(
                with_entries(log, entries),
                (#[trigger] entries[i]).index,
            ) == Some(entries[i].term),
        forall|i: u64|
            i <= prev ==> #[trigger] entry_at(with_entries(log, entries), i) == entry_at(log, i),
    decreases entries.len(),
{
    lemma_last_place(log);
    if entries.len() > 0 {
        let front = entries.drop_last();
        let entry = entries.last();
        let mid = with_entries(log, front);
        let after = with_entries(log, entries);
        assert forall|i: int| 0 <= i < front.len() implies (#[trigger] front[i]).index == prev + i
            + 1 by {
            assert(front[i] == entries[i]);
        }
        law_entries_take_the_leaders_terms(log, prev, front);
        lemma_last_place(mid);
        assert(entries[entries.len() - 1].index == prev + entries.len());
        let at = place(mid, entry.index);
        assert(0 <= at <= mid.entries.len());
        assert(contiguous(after));
        lemma_last_place(after);
        assert forall|i: int| 0 <= i < entries.len() implies term_at(
            after,
            (#[trigger] entries[i]).index,
        ) == Some(entries[i].term) by {
            if i < front.len() {
                assert(front[i] == entries[i]);
                assert(term_at(mid, front[i].index) == Some(front[i].term));
                assert(place(mid, entries[i].index) < at);
            }
        }
        assert forall|i: u64| i <= prev implies #[trigger] entry_at(after, i) == entry_at(
            log,
            i,
        ) by {
            assert(entry_at(mid, i) == entry_at(log, i));
        }
    }
}

/// What the log already has is not touched: where it has the term of every entry that
/// is sent, nothing changes. So a request that arrives twice does no more than one.
pub proof fn law_known_entries_change_nothing(log: LogView, entries: Seq<EntryView>)
    requires
        forall|i: int|
            0 <= i < entries.len() ==> {
                let at = place(log, (#[trigger] entries[i]).index);
                at < log.entries.len() && (at >= 0 ==> log.entries[at].term == entries[i].term)
            },
    ensures
        with_entries(log, entries) == log,
    decreases entries.len(),
{
    if entries.len() > 0 {
        let front = entries.drop_last();
        assert forall|i: int| 0 <= i < front.len() implies {
            let at = place(log, (#[trigger] front[i]).index);
            at < log.entries.len() && (at >= 0 ==> log.entries[at].term == front[i].term)
        } by {
            assert(front[i] == entries[i]);
        }
        law_known_entries_change_nothing(log, front);
        assert(entries[entries.len() - 1] == entries.last());
    }
}

/// The log ends with its last entry, and where it holds none, with the last entry that the
/// snapshot covers. The term of an entry is its own; at the snapshot point it is that of the
/// snapshot, and at index 0, where no log has an entry, it is 0.
pub proof fn law_ends_and_terms(log: LogView, index: u64)
    requires
        forall|i: int|
            0 <= i < log.entries.len() ==> (#[trigger] log.entries[i]).index
                == log.snapshot_last_index + i + 1,
    ensures
        last_index(log) == log.snapshot_last_index + log.entries.len(),
        last_term(log) == if log.entries.len() > 0 {
            log.entries[log.entries.len() - 1].term
        } else {
            log.snapshot_last_term
        },
        index == 0 ==> term_at(log, index) == Some(0u64),
        index > 0 && index == log.snapshot_last_index ==> term_at(log, index) == Some(
            log.snapshot_last_term,
        ),
        index > 0 && index < log.snapshot_last_index ==> term_at(log, index) is None,
        index > log.snapshot_last_index + log.entries.len() ==> term_at(log, index) is None,
        forall|i: int|
            0 <= i < log.entries.len() ==> term_at(log, (#[trigger] log.entries[i]).index) == Some(
                log.entries[i].term,
            ),
{
    lemma_last_place(log);
}

/// An entry is found under its index, and under an index nothing but the entry that has it.
pub proof fn law_entry_is_found_under_its_index(log: LogView, index: u64)
    requires
        forall|i: int|
            0 <= i < log.entries.len() ==> (#[trigger] log.entries[i]).index
                == log.snapshot_last_index + i + 1,
    ensures
        forall|i: int|
            0 <= i < log.entries.len() ==> entry_at(log, (#[trigger] log.entries[i]).index) == Some(
                log.entries[i],
            ),
        entry_at(log, index) matches Some(entry) ==> entry.index == index && log.entries.contains(
            entry,
        ),
{
}

/// The entries from an index on are the end of the log: those whose index is no smaller, in
/// their order, and no others.
pub proof fn law_entries_from_an_index(log: LogView, index: u64)
    requires
        forall|i: int|
            0 <= i < log.entries.len() ==> (#[trigger] log.entries[i]).index
                == log.snapshot_last_index + i + 1,
    ensures
        ({
            let tail = entries_from(log, index);
            let n = log.entries.len() - tail.len();
            &&& 0 <= n
            &&& log.entries == log.entries.take(n) + tail
            &&& forall|i: int| 0 <= i < n ==> (#[trigger] log.entries[i]).index < index
            &&& forall|i: int| 0 <= i < tail.len() ==> (#[trigger] tail[i]).index >= index
        }),
{
    let tail = entries_from(log, index);
    let n = log.entries.len() - tail.len();
    assert(log.entries =~= log.entries.take(n) + tail);
    assert forall|i: int| 0 <= i < tail.len() implies (#[trigger] tail[i]).index >= index by {
        assert(tail[i] == log.entries[n + i]);
    }
}

/// Appending puts the entry behind all others and touches nothing else. Truncating at an
/// index keeps the entries with a smaller index, in their order, and no others. Compacting
/// through an index behind the snapshot point keeps the entries with a greater one, and
/// remembers index and term.
pub proof fn law_what_is_kept(log: LogView, entry: EntryView, index: u64, term: u64)
    requires
        forall|i: int|
            0 <= i < log.entries.len() ==> (#[trigger] log.entries[i]).index
                == log.snapshot_last_index + i + 1,
    ensures
        ({
            let appended = with_appended(log, entry);
            &&& appended.entries.len() == log.entries.len() + 1
            &&& appended.entries.last() == entry
            &&& appended.entries.drop_last() == log.entries
            &&& appended.snapshot_last_index == log.snapshot_last_index
            &&& appended.snapshot_last_term == log.snapshot_last_term
        }),
        ({
            let cut = truncated(log, index);
            &&& cut.snapshot_last_index == log.snapshot_last_index
            &&& cut.snapshot_last_term == log.snapshot_last_term
            &&& cut.entries.is_prefix_of(log.entries)
            &&& forall|i: int|
                0 <= i < log.entries.len() ==> (i < cut.entries.len() <==> (
                #[trigger] log.entries[i]).index < index)
        }),
        index > log.snapshot_last_index ==> ({
            let rest = compacted(log, index, term);
            let n = log.entries.len() - rest.entries.len();
            &&& rest.snapshot_last_index == index
            &&& rest.snapshot_last_term == term
            &&& 0 <= n
            &&& log.entries == log.entries.take(n) + rest.entries
            &&& forall|i: int|
                0 <= i < log.entries.len() ==> (i >= n <==> (#[trigger] log.entries[i]).index
                    > index)
        }),
        index <= log.snapshot_last_index ==> compacted(log, index, term) == log,
{
    assert(with_appended(log, entry).entries.drop_last() =~= log.entries);
    let cut = truncated(log, index);
    assert(cut.entries =~= log.entries.subrange(0, cut.entries.len() as int));
    let rest = compacted(log, index, term);
    let n = log.entries.len() - rest.entries.len();
    if index > log.snapshot_last_index {
        assert(log.entries =~= log.entries.take(n) + rest.entries);
    }
}

/// What the leader sends is taken in from the first entry on that the log lacks: the first
/// one, behind the snapshot point, that the log does not reach or where it has another term.
/// From there on the log is what the leader sent, and nothing is left behind it; before,
/// the log stays as it was.
pub proof fn law_entries_are_taken_from_the_first_that_is_lacking(
    log: LogView,
    prev: u64,
    entries: Seq<EntryView>,
    first: int,
)
    requires
        forall|i: int|
            0 <= i < log.entries.len() ==> (#[trigger] log.entries[i]).index
                == log.snapshot_last_index + i + 1,
        forall|i: int| 0 <= i < entries.len() ==> (#[trigger] entries[i]).index == prev + i + 1,
        prev <= log.snapshot_last_index + log.entries.len(),
        0 <= first < entries.len(),
        forall|i: int|
            0 <= i < first ==> (#[trigger] entries[i]).index <= log.snapshot_last_index || (
            entries[i].index <= log.snapshot_last_index + log.entries.len()
                && log.entries[entries[i].index - log.snapshot_last_index - 1].term
                == entries[i].term),
        entries[first].index > log.snapshot_last_index,
        entries[first].index <= log.snapshot_last_index + log.entries.len()
            ==> log.entries[entries[first].index - log.snapshot_last_index - 1].term
            != entries[first].term,
    ensures
        with_entries(log, entries).entries == log.entries.take(
            prev + first - log.snapshot_last_index,
        ) + entries.skip(first),
        with_entries(log, entries).snapshot_last_index == log.snapshot_last_index,
        with_entries(log, entries).snapshot_last_term == log.snapshot_last_term,
    decreases entries.len(),
{
    let front = entries.drop_last();
    let last = entries.last();
    assert(last == entries[entries.len() - 1]);
    let at = prev + first - log.snapshot_last_index;
    assert(entries[first].index == prev + first + 1);
    if first > 0 {
        assert(entries[first - 1].index == prev + first);
    }
    assert(0 <= at <= log.entries.len());
    assert forall|i: int| 0 <= i < front.len() implies #[trigger] front[i] == entries[i] by {}
    if first < front.len() {
        law_entries_are_taken_from_the_first_that_is_lacking(log, prev, front, first);
        let mid = with_entries(log, front);
        assert(place(mid, last.index) == mid.entries.len());
        assert(with_entries(log, entries).entries =~= log.entries.take(at) + entries.skip(first));
    } else {
        assert forall|i: int| 0 <= i < front.len() implies {
            let p = place(log, (#[trigger] front[i]).index);
            p < log.entries.len() && (p >= 0 ==> log.entries[p].term == front[i].term)
        } by {
            assert(front[i] == entries[i]);
        }
        law_known_entries_change_nothing(log, front);
        assert(place(log, last.index) == at);
        assert(with_entries(log, entries).entries =~= log.entries.take(at) + entries.skip(first));
    }
}

/// Entries are taken in one at a time, in their order. One that the snapshot covers is
/// dropped, and so is one where the log has its term already. One where the log has another
/// term takes that place, and nothing is left behind it. One that the log does not reach is
/// put at the end.
pub proof fn law_entries_are_taken_one_at_a_time(
    log: LogView,
    first: Seq<EntryView>,
    second: Seq<EntryView>,
    entry: EntryView,
)
    ensures
        with_entries(log, first + second) == with_entries(with_entries(log, first), second),
        with_entries(log, Seq::empty()) == log,
        ({
            let after = with_entries(log, seq![entry]);
            let behind = entry.index - log.snapshot_last_index;
            let n = log.entries.len();
            &&& after.snapshot_last_index == log.snapshot_last_index
            &&& after.snapshot_last_term == log.snapshot_last_term
            &&& behind <= 0 ==> after.entries == log.entries
            &&& 1 <= behind <= n && log.entries[behind - 1].term == entry.term ==> after.entries
                == log.entries
            &&& 1 <= behind <= n && log.entries[behind - 1].term != entry.term ==> {
                &&& after.entries.len() == behind
                &&& after.entries.last() == entry
                &&& after.entries.drop_last() == log.entries.take(behind - 1)
            }
            &&& behind > n ==> {
                &&& after.entries.len() == n + 1
                &&& after.entries.last() == entry
                &&& after.entries.drop_last() == log.entries
            }
        }),
    decreases second.len(),
{
    if second.len() == 0 {
        assert(first + second =~= first);
    } else {
        law_entries_are_taken_one_at_a_time(log, first, second.drop_last(), entry);
        assert((first + second).drop_last() =~= first + second.drop_last());
    }
    reveal_with_fuel(with_entries, 2);
    assert(seq![entry].drop_last() =~= Seq::<EntryView>::empty());
    let after = with_entries(log, seq![entry]);
    let behind = entry.index - log.snapshot_last_index;
    if 1 <= behind <= log.entries.len() && log.entries[behind - 1].term != entry.term {
        assert(after.entries.drop_last() =~= log.entries.take(behind - 1));
    }
    if behind > log.entries.len() {
        assert(after.entries.drop_last() =~= log.entries);
    }
}

/// Whatever a log holds, its entries are counted from the snapshot point on: the entry at an
/// index is as many places behind the first as the index is behind the one after the snapshot
/// point. What lies from an index on, before it and behind it is told by that place.
pub proof fn law_places_are_counted_from_the_snapshot_point(log: LogView, index: u64, term: u64)
    ensures
        ({
            let base = log.snapshot_last_index;
            let n = log.entries.len() as int;
            let behind = index - base;
            &&& n > 0 ==> last_index(log) == log.entries[n - 1].index && last_term(log)
                == log.entries[n - 1].term
            &&& n == 0 ==> last_index(log) == base && last_term(log) == log.snapshot_last_term
            &&& 1 <= behind <= n ==> entry_at(log, index) == Some(log.entries[behind - 1])
                && term_at(log, index) == Some(log.entries[behind - 1].term)
            &&& !(1 <= behind <= n) ==> entry_at(log, index) is None
            &&& !(1 <= behind <= n) && index > 0 && behind != 0 ==> term_at(log, index) is None
            &&& behind <= 0 ==> entries_from(log, index) == log.entries && truncated(
                log,
                index,
            ).entries.len() == 0 && compacted(log, index, term) == log
            &&& 1 <= behind <= n ==> {
                &&& entries_from(log, index) == log.entries.skip(behind - 1)
                &&& truncated(log, index).entries == log.entries.take(behind - 1)
                &&& compacted(log, index, term).entries == log.entries.skip(behind)
            }
            &&& behind > n && behind >= 1 ==> {
                &&& entries_from(log, index).len() == 0
                &&& truncated(log, index).entries == log.entries
                &&& compacted(log, index, term).entries.len() == 0
            }
            &&& behind >= 1 ==> compacted(log, index, term).snapshot_last_index == index
                && compacted(log, index, term).snapshot_last_term == term
            &&& truncated(log, index).snapshot_last_index == base
            &&& truncated(log, index).snapshot_last_term == log.snapshot_last_term
        }),
{
}

} // verus!
