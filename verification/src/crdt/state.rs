//! The replicated state: registers, sets and sequences under typed keys.

use crate::crdt::lww;
use crate::crdt::lww::{LwwRegister, RegisterView};
use crate::crdt::orset;
use crate::crdt::orset::{OrSet, OrSetOp, OrSetOpView, SetView};
use crate::crdt::sequence;
use crate::crdt::sequence::{
    IdView, RgaSequence, SequenceOp, SequenceOpView, SequenceView,
};
use crate::json;
use crate::json::Json;
use crate::map::{Key, SortedMap, ViewClone};
use crate::order;
use crate::order::Order;
use serde_json::Value;
use vstd::prelude::*;

verus! {

/// A key of the state.
#[derive(Debug, PartialEq, Eq, Hash)]
pub struct StateKey {
    pub namespace: String,
    pub key: String,
}

/// What a key holds.
pub struct KeyView {
    pub namespace: Seq<char>,
    pub key: Seq<char>,
}

impl View for StateKey {
    type V = KeyView;

    open spec fn view(&self) -> KeyView {
        KeyView { namespace: self.namespace@, key: self.key@ }
    }
}

impl StateKey {
    /// The key `key` of the namespace `namespace`.
    pub fn new(namespace: &str, key: &str) -> (r: Self)
        ensures
            r@ == (KeyView { namespace: namespace@, key: key@ }),
    {
        StateKey { namespace: namespace.to_owned(), key: key.to_owned() }
    }
}

impl Clone for StateKey {
    fn clone(&self) -> (r: Self)
        ensures
            r@ == self@,
    {
        StateKey { namespace: self.namespace.clone(), key: self.key.clone() }
    }
}

impl ViewClone for StateKey {
    fn view_clone(&self) -> (r: Self) {
        self.clone()
    }
}

impl Key for StateKey {
    open spec fn before(a: KeyView, b: KeyView) -> bool {
        order::text_less(a.namespace, b.namespace) || (a.namespace == b.namespace
            && order::text_less(a.key, b.key))
    }

    proof fn before_irreflexive(a: KeyView) {
        order::lemma_text_irreflexive(a.namespace);
        order::lemma_text_irreflexive(a.key);
    }

    proof fn before_transitive(a: KeyView, b: KeyView, c: KeyView) {
        if order::text_less(a.namespace, b.namespace) && order::text_less(
            b.namespace,
            c.namespace,
        ) {
            order::lemma_text_transitive(a.namespace, b.namespace, c.namespace);
        }
        if order::text_less(a.key, b.key) && order::text_less(b.key, c.key) {
            order::lemma_text_transitive(a.key, b.key, c.key);
        }
    }

    proof fn before_total(a: KeyView, b: KeyView) {
        order::lemma_text_total(a.namespace, b.namespace);
        order::lemma_text_total(a.key, b.key);
    }

    fn order(&self, other: &Self) -> (r: Order) {
        proof {
            order::lemma_text_irreflexive(self.namespace@);
            if order::text_less(self.namespace@, other.namespace@) && order::text_less(
                other.namespace@,
                self.namespace@,
            ) {
                order::lemma_text_transitive(self.namespace@, other.namespace@, self.namespace@);
            }
        }
        match order::text_order(self.namespace.as_str(), other.namespace.as_str()) {
            Order::Less => Order::Less,
            Order::Greater => Order::Greater,
            Order::Equal => order::text_order(self.key.as_str(), other.key.as_str()),
        }
    }
}

/// A change of the state.
#[derive(Debug)]
#[allow(inconsistent_fields)]
pub enum CrdtOp {
    SetRegister { key: StateKey, value: Value, timestamp: u64, node_id: String },
    AddToSet { key: StateKey, op: OrSetOp },
    RemoveFromSet { key: StateKey, op: OrSetOp },
    InsertIntoSequence { key: StateKey, op: SequenceOp },
    DeleteFromSequence { key: StateKey, op: SequenceOp },
}

/// What a change of the state says.
#[allow(inconsistent_fields)]
pub enum CrdtOpView {
    SetRegister { key: KeyView, write: RegisterView },
    AddToSet { key: KeyView, op: OrSetOpView },
    RemoveFromSet { key: KeyView, op: OrSetOpView },
    InsertIntoSequence { key: KeyView, op: SequenceOpView },
    DeleteFromSequence { key: KeyView, op: SequenceOpView },
}

impl View for CrdtOp {
    type V = CrdtOpView;

    open spec fn view(&self) -> CrdtOpView {
        match self {
            CrdtOp::SetRegister { key, value, timestamp, node_id } => CrdtOpView::SetRegister {
                key: key@,
                write: RegisterView {
                    value: json::json_view(*value),
                    timestamp: *timestamp,
                    node_id: node_id@,
                },
            },
            CrdtOp::AddToSet { key, op } => CrdtOpView::AddToSet { key: key@, op: op@ },
            CrdtOp::RemoveFromSet { key, op } => CrdtOpView::RemoveFromSet { key: key@, op: op@ },
            CrdtOp::InsertIntoSequence { key, op } => CrdtOpView::InsertIntoSequence {
                key: key@,
                op: op@,
            },
            CrdtOp::DeleteFromSequence { key, op } => CrdtOpView::DeleteFromSequence {
                key: key@,
                op: op@,
            },
        }
    }
}

impl Clone for CrdtOp {
    fn clone(&self) -> (r: Self)
        ensures
            r@ == self@,
    {
        match self {
            CrdtOp::SetRegister { key, value, timestamp, node_id } => CrdtOp::SetRegister {
                key: key.clone(),
                value: value.clone(),
                timestamp: *timestamp,
                node_id: node_id.clone(),
            },
            CrdtOp::AddToSet { key, op } => CrdtOp::AddToSet { key: key.clone(), op: op.clone() },
            CrdtOp::RemoveFromSet { key, op } => CrdtOp::RemoveFromSet {
                key: key.clone(),
                op: op.clone(),
            },
            CrdtOp::InsertIntoSequence { key, op } => CrdtOp::InsertIntoSequence {
                key: key.clone(),
                op: op.clone(),
            },
            CrdtOp::DeleteFromSequence { key, op } => CrdtOp::DeleteFromSequence {
                key: key.clone(),
                op: op.clone(),
            },
        }
    }
}

/// The replicated state. A key can name a register, a set and a sequence.
#[derive(Debug)]
pub struct CrdtState {
    registers: SortedMap<StateKey, LwwRegister>,
    sets: SortedMap<StateKey, OrSet>,
    sequences: SortedMap<StateKey, RgaSequence>,
}

/// What the state holds.
pub struct StateView {
    pub registers: Map<KeyView, RegisterView>,
    pub sets: Map<KeyView, SetView>,
    pub sequences: Map<KeyView, SequenceView>,
}

impl View for CrdtState {
    type V = StateView;

    closed spec fn view(&self) -> StateView {
        StateView {
            registers: self.registers@,
            sets: self.sets@,
            sequences: self.sequences@,
        }
    }
}

/// The state in which nothing has been written.
pub open spec fn empty_state() -> StateView {
    StateView { registers: Map::empty(), sets: Map::empty(), sequences: Map::empty() }
}

/// The register of a key, if it has been written to.
pub open spec fn register_at(s: StateView, key: KeyView) -> Option<RegisterView> {
    if s.registers.contains_key(key) {
        Some(s.registers[key])
    } else {
        None
    }
}

/// The set of a key.
pub open spec fn set_at(s: StateView, key: KeyView) -> SetView {
    if s.sets.contains_key(key) {
        s.sets[key]
    } else {
        orset::empty_set()
    }
}

/// The sequence of a key.
pub open spec fn sequence_at(s: StateView, key: KeyView) -> SequenceView {
    if s.sequences.contains_key(key) {
        s.sequences[key]
    } else {
        sequence::empty_sequence()
    }
}

/// The state after a change: the part that the change names, changed as that part's
/// own rules say, and everything else as before.
pub open spec fn state_apply(s: StateView, op: CrdtOpView) -> StateView {
    match op {
        CrdtOpView::SetRegister { key, write } => StateView {
            registers: s.registers.insert(key, lww::written(register_at(s, key), write)),
            ..s
        },
        CrdtOpView::AddToSet { key, op } => StateView {
            sets: s.sets.insert(key, orset::set_apply(set_at(s, key), op)),
            ..s
        },
        CrdtOpView::RemoveFromSet { key, op } => StateView {
            sets: s.sets.insert(key, orset::set_apply(set_at(s, key), op)),
            ..s
        },
        CrdtOpView::InsertIntoSequence { key, op } => StateView {
            sequences: s.sequences.insert(
                key,
                sequence::sequence_apply(sequence_at(s, key), op),
            ),
            ..s
        },
        CrdtOpView::DeleteFromSequence { key, op } => StateView {
            sequences: s.sequences.insert(
                key,
                sequence::sequence_apply(sequence_at(s, key), op),
            ),
            ..s
        },
    }
}

/// The state merged with another replica's, key by key.
pub open spec fn state_merge(s: StateView, other: StateView) -> StateView {
    StateView {
        registers: Map::new(
            |k: KeyView| s.registers.contains_key(k) || other.registers.contains_key(k),
            |k: KeyView|
                if other.registers.contains_key(k) {
                    lww::written(register_at(s, k), other.registers[k])
                } else {
                    s.registers[k]
                },
        ),
        sets: Map::new(
            |k: KeyView| s.sets.contains_key(k) || other.sets.contains_key(k),
            |k: KeyView|
                if other.sets.contains_key(k) {
                    orset::set_merge(set_at(s, k), other.sets[k])
                } else {
                    s.sets[k]
                },
        ),
        sequences: Map::new(
            |k: KeyView| s.sequences.contains_key(k) || other.sequences.contains_key(k),
            |k: KeyView|
                if other.sequences.contains_key(k) {
                    sequence::sequence_merge(sequence_at(s, k), other.sequences[k])
                } else {
                    s.sequences[k]
                },
        ),
    }
}

/// The keys of the first `n` places of a map's order.
spec fn among<T: View>(m: SortedMap<StateKey, T>, n: int, k: KeyView) -> bool {
    m.key_views().take(n).contains(k)
}

proof fn lemma_among_step<T: View>(m: SortedMap<StateKey, T>, n: int)
    requires
        0 <= n < m.key_views().len(),
        m.key_views().no_duplicates(),
    ensures
        !among(m, n, m.key_views()[n]),
        forall|k: KeyView| #[trigger] among(m, n + 1, k) <==> among(m, n, k) || k
            == m.key_views()[n],
{
    let names = m.key_views();
    if among(m, n, names[n]) {
        let j = names.take(n).index_of(names[n]);
        assert(names[j] == names[n]);
    }
    assert forall|k: KeyView| #[trigger] among(m, n + 1, k) <==> among(m, n, k) || k
        == names[n] by {
        if among(m, n + 1, k) {
            let j = names.take(n + 1).index_of(k);
            if j < n {
                assert(names.take(n)[j] == k);
            }
        }
        if among(m, n, k) {
            let j = names.take(n).index_of(k);
            assert(names.take(n + 1)[j] == k);
        }
        assert(names.take(n + 1)[n] == names[n]);
    }
}

proof fn lemma_among_all<T: View>(m: SortedMap<StateKey, T>)
    requires
        m.key_views().to_set() == m@.dom(),
    ensures
        forall|k: KeyView| #[trigger]
            among(m, m.key_views().len() as int, k) <==> m@.contains_key(k),
        forall|k: KeyView| !#[trigger] among(m, 0, k),
{
    let names = m.key_views();
    assert(names.take(names.len() as int) =~= names);
    assert forall|k: KeyView| #[trigger] among(m, names.len() as int, k) <==> m@.contains_key(
        k,
    ) by {
        assert(names.to_set().contains(k) <==> m@.dom().contains(k));
    }
}

fn merge_registers(
    mine: &mut SortedMap<StateKey, LwwRegister>,
    other: &SortedMap<StateKey, LwwRegister>,
)
    ensures
        ({
            let a = StateView { registers: old(mine)@, ..empty_state() };
            let b = StateView { registers: other@, ..empty_state() };
            final(mine)@ == state_merge(a, b).registers
        }),
{
    let n = other.len();
    let ghost before = StateView { registers: mine@, ..empty_state() };
    let ghost after = state_merge(before, StateView { registers: other@, ..empty_state() });
    let mut i: usize = 0;
    proof {
        lemma_among_all(*other);
    }
    while i < n
        invariant
            i <= n == other.key_views().len(),
            other.key_views().no_duplicates(),
            before.registers == old(mine)@,
            after == state_merge(before, StateView { registers: other@, ..empty_state() }),
            forall|k: KeyView| #[trigger]
                mine@.contains_key(k) <==> before.registers.contains_key(k) || among(
                    *other,
                    i as int,
                    k,
                ),
            forall|k: KeyView| #[trigger]
                mine@.contains_key(k) ==> mine@[k] == if among(*other, i as int, k) {
                    after.registers[k]
                } else {
                    before.registers[k]
                },
        decreases n - i,
    {
        let key = other.key_at(i);
        let ghost was = mine@;
        let register = match mine.remove(key) {
            Some(held) => {
                let mut register = held;
                register.merge(other.value_at(i));
                register
            },
            None => other.value_at(i).clone(),
        };
        proof {
            lemma_among_step(*other, i as int);
            assert(register@ == lww::written(register_at(before, key@), other@[key@]));
        }
        mine.insert(key.clone(), register);
        i = i + 1;
    }
    proof {
        lemma_among_all(*other);
        assert(mine@ =~= after.registers);
    }
}

fn merge_sets(mine: &mut SortedMap<StateKey, OrSet>, other: &SortedMap<StateKey, OrSet>)
    ensures
        ({
            let a = StateView { sets: old(mine)@, ..empty_state() };
            let b = StateView { sets: other@, ..empty_state() };
            final(mine)@ == state_merge(a, b).sets
        }),
{
    let n = other.len();
    let ghost before = StateView { sets: mine@, ..empty_state() };
    let ghost after = state_merge(before, StateView { sets: other@, ..empty_state() });
    let mut i: usize = 0;
    proof {
        lemma_among_all(*other);
    }
    while i < n
        invariant
            i <= n == other.key_views().len(),
            other.key_views().no_duplicates(),
            before.sets == old(mine)@,
            after == state_merge(before, StateView { sets: other@, ..empty_state() }),
            forall|k: KeyView| #[trigger]
                mine@.contains_key(k) <==> before.sets.contains_key(k) || among(
                    *other,
                    i as int,
                    k,
                ),
            forall|k: KeyView| #[trigger]
                mine@.contains_key(k) ==> mine@[k] == if among(*other, i as int, k) {
                    after.sets[k]
                } else {
                    before.sets[k]
                },
        decreases n - i,
    {
        let key = other.key_at(i);
        let ghost was = mine@;
        let mut set = match mine.remove(key) {
            Some(set) => set,
            None => OrSet::new(),
        };
        proof {
            lemma_among_step(*other, i as int);
            assert(set@ == set_at(before, key@));
        }
        set.merge(other.value_at(i));
        mine.insert(key.clone(), set);
        i = i + 1;
    }
    proof {
        lemma_among_all(*other);
        assert(mine@ =~= after.sets);
    }
}

fn merge_sequences(
    mine: &mut SortedMap<StateKey, RgaSequence>,
    other: &SortedMap<StateKey, RgaSequence>,
)
    ensures
        ({
            let a = StateView { sequences: old(mine)@, ..empty_state() };
            let b = StateView { sequences: other@, ..empty_state() };
            final(mine)@ == state_merge(a, b).sequences
        }),
{
    let n = other.len();
    let ghost before = StateView { sequences: mine@, ..empty_state() };
    let ghost after = state_merge(before, StateView { sequences: other@, ..empty_state() });
    let mut i: usize = 0;
    proof {
        lemma_among_all(*other);
    }
    while i < n
        invariant
            i <= n == other.key_views().len(),
            other.key_views().no_duplicates(),
            before.sequences == old(mine)@,
            after == state_merge(before, StateView { sequences: other@, ..empty_state() }),
            forall|k: KeyView| #[trigger]
                mine@.contains_key(k) <==> before.sequences.contains_key(k) || among(
                    *other,
                    i as int,
                    k,
                ),
            forall|k: KeyView| #[trigger]
                mine@.contains_key(k) ==> mine@[k] == if among(*other, i as int, k) {
                    after.sequences[k]
                } else {
                    before.sequences[k]
                },
        decreases n - i,
    {
        let key = other.key_at(i);
        let ghost was = mine@;
        let mut seq = match mine.remove(key) {
            Some(seq) => seq,
            None => RgaSequence::new(),
        };
        proof {
            lemma_among_step(*other, i as int);
            assert(seq@ == sequence_at(before, key@));
        }
        seq.merge(other.value_at(i));
        mine.insert(key.clone(), seq);
        i = i + 1;
    }
    proof {
        lemma_among_all(*other);
        assert(mine@ =~= after.sequences);
    }
}

impl CrdtState {
    /// The state in which nothing has been written.
    pub fn new() -> (r: Self)
        ensures
            r@ == empty_state(),
    {
        CrdtState {
            registers: SortedMap::new(),
            sets: SortedMap::new(),
            sequences: SortedMap::new(),
        }
    }

    /// Applies a change.
    pub fn apply(&mut self, op: &CrdtOp)
        ensures
            final(self)@ == state_apply(old(self)@, op@),
    {
        let ghost before = self@;
        let mut taken = CrdtState::new();
        std::mem::swap(&mut taken, self);
        let CrdtState { mut registers, mut sets, mut sequences } = taken;
        match op {
            CrdtOp::SetRegister { key, value, timestamp, node_id } => {
                let register = match registers.remove(key) {
                    Some(held) => {
                        let mut register = held;
                        register.update(value.clone(), *timestamp, node_id.clone());
                        register
                    },
                    None => LwwRegister::new(value.clone(), *timestamp, node_id.clone()),
                };
                registers.insert(key.clone(), register);
                assert(registers@ =~= state_apply(before, op@).registers);
            },
            CrdtOp::AddToSet { key, op: change } => {
                apply_to_set(&mut sets, key, change);
            },
            CrdtOp::RemoveFromSet { key, op: change } => {
                apply_to_set(&mut sets, key, change);
            },
            CrdtOp::InsertIntoSequence { key, op: change } => {
                apply_to_sequence(&mut sequences, key, change);
            },
            CrdtOp::DeleteFromSequence { key, op: change } => {
                apply_to_sequence(&mut sequences, key, change);
            },
        }
        *self = CrdtState { registers, sets, sequences };
    }

    /// The register of a key, if it has been written to.
    pub fn get_register(&self, key: &StateKey) -> (r: Option<&LwwRegister>)
        ensures
            r is Some <==> self@.registers.contains_key(key@),
            r matches Some(register) ==> register@ == self@.registers[key@],
    {
        self.registers.get(key)
    }

    /// The set of a key, if it has one.
    pub fn get_set(&self, key: &StateKey) -> (r: Option<&OrSet>)
        ensures
            r is Some <==> self@.sets.contains_key(key@),
            r matches Some(set) ==> set@ == self@.sets[key@],
    {
        self.sets.get(key)
    }

    /// The sequence of a key, if it has one.
    pub fn get_sequence(&self, key: &StateKey) -> (r: Option<&RgaSequence>)
        ensures
            r is Some <==> self@.sequences.contains_key(key@),
            r matches Some(seq) ==> seq@ == self@.sequences[key@],
    {
        self.sequences.get(key)
    }

    /// Writes a register and hands back the change.
    pub fn set_register(
        &mut self,
        key: StateKey,
        value: Value,
        timestamp: u64,
        node_id: &str,
    ) -> (op: CrdtOp)
        ensures
            op@ == (CrdtOpView::SetRegister {
                key: key@,
                write: RegisterView {
                    value: json::json_view(value),
                    timestamp,
                    node_id: node_id@,
                },
            }),
            final(self)@ == state_apply(old(self)@, op@),
    {
        let op = CrdtOp::SetRegister { key, value, timestamp, node_id: node_id.to_owned() };
        self.apply(&op);
        op
    }

    /// Adds an element to a set and hands back the change.
    pub fn add_to_set(&mut self, key: StateKey, element: String, node_id: &str) -> (op: CrdtOp)
        ensures
            op@ matches CrdtOpView::AddToSet { key: k, op: OrSetOpView::Add { element: e, tag } }
                && k == key@ && e == element@ && tag.node_id == node_id@ && orset::is_random_uuid(
                tag.id,
            ),
            final(self)@ == state_apply(old(self)@, op@),
    {
        let ghost before = self@;
        let mut taken = CrdtState::new();
        std::mem::swap(&mut taken, self);
        let CrdtState { registers, mut sets, sequences } = taken;
        let mut set = match sets.remove(&key) {
            Some(set) => set,
            None => OrSet::new(),
        };
        assert(set@ == set_at(before, key@));
        let change = set.add(element, node_id);
        sets.insert(key.clone(), set);
        assert(sets@ =~= before.sets.insert(key@, orset::set_apply(set_at(before, key@), change@)));
        *self = CrdtState { registers, sets, sequences };
        CrdtOp::AddToSet { key, op: change }
    }

    /// Removes an element from a set and hands back the change; nothing if the
    /// element is not there.
    pub fn remove_from_set(&mut self, key: StateKey, element: &str) -> (op: Option<CrdtOp>)
        ensures
            op is Some <==> set_at(old(self)@, key@).live.contains_key(element@),
            op matches Some(o) ==> {
                &&& o@ == (CrdtOpView::RemoveFromSet {
                    key: key@,
                    op: OrSetOpView::Remove {
                        element: element@,
                        observed_tags: set_at(old(self)@, key@).live[element@],
                    },
                })
                &&& final(self)@ == state_apply(old(self)@, o@)
            },
            op is None ==> final(self)@ == old(self)@,
    {
        let ghost before = self@;
        let mut taken = CrdtState::new();
        std::mem::swap(&mut taken, self);
        let CrdtState { registers, mut sets, sequences } = taken;
        let change = match sets.get_mut(&key) {
            Some(set) => set.remove(element),
            None => None,
        };
        proof {
            if !set_at(before, key@).live.contains_key(element@) {
                assert(sets@ =~= before.sets);
            }
        }
        *self = CrdtState { registers, sets, sequences };
        match change {
            Some(change) => Some(CrdtOp::RemoveFromSet { key, op: change }),
            None => None,
        }
    }

    /// Inserts a value into a sequence and hands back the change.
    pub fn insert_into_sequence(
        &mut self,
        key: StateKey,
        position: usize,
        value: Value,
        timestamp: u64,
        node_id: &str,
    ) -> (op: CrdtOp)
        ensures
            op@ == (CrdtOpView::InsertIntoSequence {
                key: key@,
                op: SequenceOpView::Insert {
                    id: IdView { timestamp, node_id: node_id@ },
                    parent: sequence::parent_at(sequence_at(old(self)@, key@).nodes, position as int),
                    value: json::json_view(value),
                },
            }),
            final(self)@ == state_apply(old(self)@, op@),
    {
        let ghost before = self@;
        let mut taken = CrdtState::new();
        std::mem::swap(&mut taken, self);
        let CrdtState { registers, sets, mut sequences } = taken;
        let mut seq = match sequences.remove(&key) {
            Some(seq) => seq,
            None => RgaSequence::new(),
        };
        assert(seq@ == sequence_at(before, key@));
        let change = seq.insert(position, value, timestamp, node_id);
        sequences.insert(key.clone(), seq);
        assert(sequences@ =~= before.sequences.insert(
            key@,
            sequence::sequence_apply(sequence_at(before, key@), change@),
        ));
        *self = CrdtState { registers, sets, sequences };
        CrdtOp::InsertIntoSequence { key, op: change }
    }

    /// Deletes an element of a sequence and hands back the change; nothing if there is
    /// no element at the position.
    pub fn delete_from_sequence(&mut self, key: StateKey, position: usize) -> (op: Option<CrdtOp>)
        ensures
            op is Some <==> position < sequence::visible(sequence_at(old(self)@, key@).nodes).len(),
            op matches Some(o) ==> {
                &&& o@ == (CrdtOpView::DeleteFromSequence {
                    key: key@,
                    op: SequenceOpView::Delete {
                        id: sequence::visible(sequence_at(old(self)@, key@).nodes)[position as int].id,
                    },
                })
                &&& final(self)@ == state_apply(old(self)@, o@)
            },
            op is None ==> final(self)@ == old(self)@,
    {
        proof {
            reveal(Seq::filter);
        }
        let ghost before = self@;
        let mut taken = CrdtState::new();
        std::mem::swap(&mut taken, self);
        let CrdtState { registers, sets, mut sequences } = taken;
        let change = match sequences.get_mut(&key) {
            Some(seq) => seq.delete(position),
            None => None,
        };
        proof {
            if change is None {
                assert(sequences@ =~= before.sequences);
            }
        }
        *self = CrdtState { registers, sets, sequences };
        match change {
            Some(change) => Some(CrdtOp::DeleteFromSequence { key, op: change }),
            None => None,
        }
    }

    /// Takes in everything that another replica holds.
    pub fn merge(&mut self, other: &CrdtState)
        ensures
            final(self)@ == state_merge(old(self)@, other@),
    {
        let ghost before = self@;
        let mut taken = CrdtState::new();
        std::mem::swap(&mut taken, self);
        let CrdtState { mut registers, mut sets, mut sequences } = taken;
        merge_registers(&mut registers, &other.registers);
        merge_sets(&mut sets, &other.sets);
        merge_sequences(&mut sequences, &other.sequences);
        proof {
            let after = state_merge(before, other@);
            assert(registers@ =~= after.registers);
            assert(sets@ =~= after.sets);
            assert(sequences@ =~= after.sequences);
        }
        *self = CrdtState { registers, sets, sequences };
    }
}

// --- the parts one by one, for storing a state ---

/// What a list of keys says.
pub open spec fn key_views(keys: Seq<StateKey>) -> Seq<KeyView> {
    Seq::new(keys.len(), |i: int| keys[i]@)
}

impl CrdtState {
    /// The keys that have a register.
    pub fn register_keys(&self) -> (r: Vec<StateKey>)
        ensures
            key_views(r@).no_duplicates(),
            key_views(r@).to_set() == self@.registers.dom(),
    {
        let r = self.registers.keys();
        assert(key_views(r@) =~= r@.map_values(|k: StateKey| k@));
        r
    }

    /// The keys that have a set.
    pub fn set_keys(&self) -> (r: Vec<StateKey>)
        ensures
            key_views(r@).no_duplicates(),
            key_views(r@).to_set() == self@.sets.dom(),
    {
        let r = self.sets.keys();
        assert(key_views(r@) =~= r@.map_values(|k: StateKey| k@));
        r
    }

    /// The keys that have a sequence.
    pub fn sequence_keys(&self) -> (r: Vec<StateKey>)
        ensures
            key_views(r@).no_duplicates(),
            key_views(r@).to_set() == self@.sequences.dom(),
    {
        let r = self.sequences.keys();
        assert(key_views(r@) =~= r@.map_values(|k: StateKey| k@));
        r
    }

    /// Puts a set under a key, in the place of the one that is there.
    pub fn restore_set(&mut self, key: StateKey, set: OrSet)
        ensures
            final(self)@ == (StateView {
                sets: old(self)@.sets.insert(key@, set@),
                ..old(self)@
            }),
    {
        let mut taken = CrdtState::new();
        std::mem::swap(&mut taken, self);
        let CrdtState { registers, mut sets, sequences } = taken;
        sets.insert(key, set);
        *self = CrdtState { registers, sets, sequences };
    }

    /// Puts a sequence under a key, in the place of the one that is there.
    pub fn restore_sequence(&mut self, key: StateKey, seq: RgaSequence)
        ensures
            final(self)@ == (StateView {
                sequences: old(self)@.sequences.insert(key@, seq@),
                ..old(self)@
            }),
    {
        let mut taken = CrdtState::new();
        std::mem::swap(&mut taken, self);
        let CrdtState { registers, sets, mut sequences } = taken;
        sequences.insert(key, seq);
        *self = CrdtState { registers, sets, sequences };
    }
}

fn apply_to_set(sets: &mut SortedMap<StateKey, OrSet>, key: &StateKey, change: &OrSetOp)
    ensures
        ({
            let before = StateView { sets: old(sets)@, ..empty_state() };
            final(sets)@ == old(sets)@.insert(
                key@,
                orset::set_apply(set_at(before, key@), change@),
            )
        }),
{
    let mut set = match sets.remove(key) {
        Some(set) => set,
        None => OrSet::new(),
    };
    set.apply(change);
    sets.insert(key.clone(), set);
    assert(sets@ =~= old(sets)@.insert(key@, set@));
}

fn apply_to_sequence(
    sequences: &mut SortedMap<StateKey, RgaSequence>,
    key: &StateKey,
    change: &SequenceOp,
)
    ensures
        ({
            let before = StateView { sequences: old(sequences)@, ..empty_state() };
            final(sequences)@ == old(sequences)@.insert(
                key@,
                sequence::sequence_apply(sequence_at(before, key@), change@),
            )
        }),
{
    let mut seq = match sequences.remove(key) {
        Some(seq) => seq,
        None => RgaSequence::new(),
    };
    seq.apply(change);
    sequences.insert(key.clone(), seq);
    assert(sequences@ =~= old(sequences)@.insert(key@, seq@));
}

impl Clone for CrdtState {
    fn clone(&self) -> (r: Self)
        ensures
            r@ == self@,
    {
        CrdtState {
            registers: self.registers.view_clone(),
            sets: self.sets.view_clone(),
            sequences: self.sequences.view_clone(),
        }
    }
}

impl Default for CrdtState {
    fn default() -> (r: Self)
        ensures
            r@ == empty_state(),
    {
        CrdtState::new()
    }
}

} // verus!
