//! Convergence of replicas of the whole state.
//!
//! A key that a state does not hold counts as one without a register, with an empty set
//! and an empty sequence. Seen so, merging and applying work key by key, and what holds of one
//! register, set or sequence carries over to the state.

use crate::crdt::convergence;
use crate::crdt::lww;
use crate::crdt::lww::RegisterView;
use crate::crdt::orset;
use crate::crdt::orset::OrSetOpView;
use crate::crdt::sequence;
use crate::crdt::sequence::SequenceOpView;
use crate::crdt::state;
use crate::crdt::state::{CrdtOpView, KeyView, StateView};
use crate::json::Json;
use crate::order;
use vstd::prelude::*;

verus! {

/// What holds of every state.
pub open spec fn sound(s: StateView) -> bool {
    &&& forall|k: KeyView| #[trigger] s.sets.contains_key(k) ==> orset::sound(s.sets[k])
    &&& forall|k: KeyView| #[trigger]
        s.sequences.contains_key(k) ==> convergence::sound(s.sequences[k])
}

/// Stamps and ids name one write and one insert over both states.
pub open spec fn states_agree(a: StateView, b: StateView) -> bool {
    &&& forall|k: KeyView|
        #![trigger a.registers.contains_key(k)]
        #![trigger b.registers.contains_key(k)]
        a.registers.contains_key(k) && b.registers.contains_key(k) ==> lww::registers_agree(
            a.registers[k],
            b.registers[k],
        )
    &&& forall|k: KeyView|
        #![trigger a.sequences.contains_key(k)]
        #![trigger b.sequences.contains_key(k)]
        a.sequences.contains_key(k) && b.sequences.contains_key(k) ==> convergence::records_agree(
            convergence::record(a.sequences[k]),
            convergence::record(b.sequences[k]),
        )
}

/// The two states hold the same under a key.
spec fn same_at(a: StateView, b: StateView, k: KeyView) -> bool {
    &&& a.registers.contains_key(k) == b.registers.contains_key(k)
    &&& a.sets.contains_key(k) == b.sets.contains_key(k)
    &&& a.sequences.contains_key(k) == b.sequences.contains_key(k)
    &&& state::register_at(a, k) == state::register_at(b, k)
    &&& state::set_at(a, k) == state::set_at(b, k)
    &&& state::sequence_at(a, k) == state::sequence_at(b, k)
}

proof fn lemma_same_everywhere(a: StateView, b: StateView)
    requires
        forall|k: KeyView| #[trigger] same_at(a, b, k),
    ensures
        a == b,
{
    assert forall|k: KeyView| #[trigger]
        a.registers.contains_key(k) == b.registers.contains_key(k) && (a.registers.contains_key(k)
            ==> a.registers[k] == b.registers[k]) by {
        assert(same_at(a, b, k));
    }
    assert(a.registers =~= b.registers);
    assert forall|k: KeyView| #[trigger]
        a.sets.contains_key(k) == b.sets.contains_key(k) && (a.sets.contains_key(k) ==> a.sets[k]
            == b.sets[k]) by {
        assert(same_at(a, b, k));
    }
    assert(a.sets =~= b.sets);
    assert forall|k: KeyView| #[trigger]
        a.sequences.contains_key(k) == b.sequences.contains_key(k) && (a.sequences.contains_key(k)
            ==> a.sequences[k] == b.sequences[k]) by {
        assert(same_at(a, b, k));
    }
    assert(a.sequences =~= b.sequences);
}

proof fn lemma_sound_parts(s: StateView, k: KeyView)
    requires
        sound(s),
    ensures
        orset::sound(state::set_at(s, k)),
        convergence::sound(state::sequence_at(s, k)),
{
    convergence::lemma_empty_is_sound();
}

/// Merging works key by key.
pub proof fn law_merge_is_keywise(a: StateView, b: StateView, k: KeyView)
    requires
        sound(a),
    ensures
        ({
            let m = state::state_merge(a, b);
            &&& state::register_at(m, k) == lww::merged(
                state::register_at(a, k),
                state::register_at(b, k),
            )
            &&& state::set_at(m, k) == orset::set_merge(state::set_at(a, k), state::set_at(b, k))
            &&& state::sequence_at(m, k) == sequence::sequence_merge(
                state::sequence_at(a, k),
                state::sequence_at(b, k),
            )
        }),
{
    lemma_sound_parts(a, k);
    orset::law_set_merge_with_empty(state::set_at(a, k));
    convergence::law_merge_with_empty(state::sequence_at(a, k));
}

proof fn lemma_records_agree(a: StateView, b: StateView, k: KeyView)
    requires
        states_agree(a, b),
    ensures
        convergence::records_agree(
            convergence::record(state::sequence_at(a, k)),
            convergence::record(state::sequence_at(b, k)),
        ),
{
    if !(a.sequences.contains_key(k) && b.sequences.contains_key(k)) {
        convergence::lemma_empty_is_sound();
    }
}

/// Replicas converge: it does not matter which of two states is merged into the other.
pub proof fn law_state_merge_commutative(a: StateView, b: StateView)
    requires
        sound(a),
        sound(b),
        states_agree(a, b),
    ensures
        state::state_merge(a, b) == state::state_merge(b, a),
{
    let m = state::state_merge(a, b);
    let n = state::state_merge(b, a);
    assert forall|k: KeyView| #[trigger] same_at(m, n, k) by {
        law_merge_is_keywise(a, b, k);
        law_merge_is_keywise(b, a, k);
        lww::law_merged_keeps_the_laws(
            state::register_at(a, k),
            state::register_at(b, k),
            state::register_at(b, k),
        );
        orset::law_set_merge_commutative(state::set_at(a, k), state::set_at(b, k));
        lemma_records_agree(a, b, k);
        lemma_sound_parts(a, k);
        lemma_sound_parts(b, k);
        convergence::law_merge_commutative(state::sequence_at(a, k), state::sequence_at(b, k));
    }
    lemma_same_everywhere(m, n);
}

/// Replicas converge: merges can be grouped in any way.
pub proof fn law_state_merge_associative(a: StateView, b: StateView, c: StateView)
    requires
        sound(a),
        sound(b),
        sound(c),
    ensures
        state::state_merge(state::state_merge(a, b), c) == state::state_merge(
            a,
            state::state_merge(b, c),
        ),
{
    let ab = state::state_merge(a, b);
    let bc = state::state_merge(b, c);
    let m = state::state_merge(ab, c);
    let n = state::state_merge(a, bc);
    law_state_merge_keeps_sound(a, b);
    assert forall|k: KeyView| #[trigger] same_at(m, n, k) by {
        law_merge_is_keywise(a, b, k);
        law_merge_is_keywise(ab, c, k);
        law_merge_is_keywise(b, c, k);
        law_merge_is_keywise(a, bc, k);
        lww::law_merged_keeps_the_laws(
            state::register_at(a, k),
            state::register_at(b, k),
            state::register_at(c, k),
        );
        orset::law_set_merge_associative(
            state::set_at(a, k),
            state::set_at(b, k),
            state::set_at(c, k),
        );
        lemma_sound_parts(a, k);
        lemma_sound_parts(b, k);
        lemma_sound_parts(c, k);
        convergence::law_merge_associative(
            state::sequence_at(a, k),
            state::sequence_at(b, k),
            state::sequence_at(c, k),
        );
    }
    lemma_same_everywhere(m, n);
}

/// Replicas converge: a state that has been merged already, or itself, adds nothing.
pub proof fn law_state_merge_idempotent(a: StateView, b: StateView)
    requires
        sound(a),
        sound(b),
    ensures
        state::state_merge(a, a) == a,
        state::state_merge(state::state_merge(a, b), b) == state::state_merge(a, b),
{
    let aa = state::state_merge(a, a);
    assert forall|k: KeyView| #[trigger] same_at(aa, a, k) by {
        law_merge_is_keywise(a, a, k);
        lww::law_merged_keeps_the_laws(
            state::register_at(a, k),
            state::register_at(b, k),
            state::register_at(b, k),
        );
        orset::law_set_merge_idempotent(state::set_at(a, k), state::set_at(b, k));
        lemma_sound_parts(a, k);
        lemma_sound_parts(b, k);
        convergence::law_merge_idempotent(state::sequence_at(a, k), state::sequence_at(b, k));
    }
    lemma_same_everywhere(aa, a);
    let ab = state::state_merge(a, b);
    let abb = state::state_merge(ab, b);
    law_state_merge_keeps_sound(a, b);
    assert forall|k: KeyView| #[trigger] same_at(abb, ab, k) by {
        law_merge_is_keywise(a, b, k);
        law_merge_is_keywise(ab, b, k);
        lww::law_merged_keeps_the_laws(
            state::register_at(a, k),
            state::register_at(b, k),
            state::register_at(b, k),
        );
        orset::law_set_merge_idempotent(state::set_at(a, k), state::set_at(b, k));
        lemma_sound_parts(a, k);
        lemma_sound_parts(b, k);
        convergence::law_merge_idempotent(state::sequence_at(a, k), state::sequence_at(b, k));
    }
    lemma_same_everywhere(abb, ab);
}

/// Merging sound states gives a sound state.
pub proof fn law_state_merge_keeps_sound(a: StateView, b: StateView)
    requires
        sound(a),
        sound(b),
    ensures
        sound(state::state_merge(a, b)),
{
    let m = state::state_merge(a, b);
    assert forall|k: KeyView| #[trigger] m.sets.contains_key(k) implies orset::sound(
        m.sets[k],
    ) by {
        orset::law_merge_keeps_sound(state::set_at(a, k), state::set_at(b, k));
    }
    assert forall|k: KeyView| #[trigger] m.sequences.contains_key(k) implies convergence::sound(
        m.sequences[k],
    ) by {
        law_merge_is_keywise(a, b, k);
        lemma_sound_parts(a, k);
        lemma_sound_parts(b, k);
        convergence::law_merge_joins(
            state::sequence_at(a, k),
            state::sequence_at(b, k),
        );
    }
}

/// The key that a change names.
pub open spec fn key_of(op: CrdtOpView) -> KeyView {
    match op {
        CrdtOpView::SetRegister { key, .. } => key,
        CrdtOpView::AddToSet { key, .. } => key,
        CrdtOpView::RemoveFromSet { key, .. } => key,
        CrdtOpView::InsertIntoSequence { key, .. } => key,
        CrdtOpView::DeleteFromSequence { key, .. } => key,
    }
}

/// A change leaves a sound state sound, and the state in which nothing has been written is
/// sound.
pub proof fn law_change_keeps_sound(s: StateView, op: CrdtOpView)
    requires
        sound(s),
    ensures
        sound(state::state_apply(s, op)),
        sound(state::empty_state()),
{
    let k = key_of(op);
    lemma_sound_parts(s, k);
    match op {
        CrdtOpView::SetRegister { .. } => {},
        CrdtOpView::AddToSet { op: change, .. } => {
            orset::law_change_keeps_sound(state::set_at(s, k), change);
        },
        CrdtOpView::RemoveFromSet { op: change, .. } => {
            orset::law_change_keeps_sound(state::set_at(s, k), change);
        },
        CrdtOpView::InsertIntoSequence { op: change, .. } => {
            convergence::law_change_is_recorded(state::sequence_at(s, k), change);
        },
        CrdtOpView::DeleteFromSequence { op: change, .. } => {
            convergence::law_change_is_recorded(state::sequence_at(s, k), change);
        },
    }
}

/// A change leaves every other key as it was.
pub proof fn law_apply_is_local(s: StateView, op: CrdtOpView, k: KeyView)
    requires
        k != key_of(op),
    ensures
        ({
            let t = state::state_apply(s, op);
            &&& t.registers.contains_key(k) <==> s.registers.contains_key(k)
            &&& t.sets.contains_key(k) <==> s.sets.contains_key(k)
            &&& t.sequences.contains_key(k) <==> s.sequences.contains_key(k)
            &&& state::register_at(t, k) == state::register_at(s, k)
            &&& state::set_at(t, k) == state::set_at(s, k)
            &&& state::sequence_at(t, k) == state::sequence_at(s, k)
        }),
{
}

/// The state after a list of changes.
pub open spec fn state_replay(s: StateView, ops: Seq<CrdtOpView>) -> StateView
    decreases ops.len(),
{
    if ops.len() == 0 {
        s
    } else {
        state::state_apply(state_replay(s, ops.drop_last()), ops.last())
    }
}

/// The writes to the register of `k`, in their order.
pub open spec fn writes_to(ops: Seq<CrdtOpView>, k: KeyView) -> Seq<RegisterView>
    decreases ops.len(),
{
    if ops.len() == 0 {
        Seq::empty()
    } else {
        let front = writes_to(ops.drop_last(), k);
        match ops.last() {
            CrdtOpView::SetRegister { key, write } => if key == k {
                front.push(write)
            } else {
                front
            },
            _ => front,
        }
    }
}

/// The changes of the set of `k`, in their order.
pub open spec fn set_ops(ops: Seq<CrdtOpView>, k: KeyView) -> Seq<OrSetOpView>
    decreases ops.len(),
{
    if ops.len() == 0 {
        Seq::empty()
    } else {
        let front = set_ops(ops.drop_last(), k);
        match ops.last() {
            CrdtOpView::AddToSet { key, op } => if key == k {
                front.push(op)
            } else {
                front
            },
            CrdtOpView::RemoveFromSet { key, op } => if key == k {
                front.push(op)
            } else {
                front
            },
            _ => front,
        }
    }
}

/// The changes of the sequence of `k`, in their order.
pub open spec fn sequence_ops(ops: Seq<CrdtOpView>, k: KeyView) -> Seq<SequenceOpView>
    decreases ops.len(),
{
    if ops.len() == 0 {
        Seq::empty()
    } else {
        let front = sequence_ops(ops.drop_last(), k);
        match ops.last() {
            CrdtOpView::InsertIntoSequence { key, op } => if key == k {
                front.push(op)
            } else {
                front
            },
            CrdtOpView::DeleteFromSequence { key, op } => if key == k {
                front.push(op)
            } else {
                front
            },
            _ => front,
        }
    }
}

/// Replaying works key by key.
pub proof fn law_replay_is_keywise(s: StateView, ops: Seq<CrdtOpView>, k: KeyView)
    ensures
        ({
            let t = state_replay(s, ops);
            &&& state::register_at(t, k) == lww::register_replay(
                state::register_at(s, k),
                writes_to(ops, k),
            )
            &&& state::set_at(t, k) == orset::set_replay(state::set_at(s, k), set_ops(ops, k))
            &&& state::sequence_at(t, k) == convergence::replay(
                state::sequence_at(s, k),
                sequence_ops(ops, k),
            )
            &&& t.registers.contains_key(k) <==> s.registers.contains_key(k) || writes_to(
                ops,
                k,
            ).len() > 0
            &&& t.sets.contains_key(k) <==> s.sets.contains_key(k) || set_ops(ops, k).len() > 0
            &&& t.sequences.contains_key(k) <==> s.sequences.contains_key(k) || sequence_ops(
                ops,
                k,
            ).len() > 0
        }),
    decreases ops.len(),
{
    if ops.len() > 0 {
        let front = ops.drop_last();
        law_replay_is_keywise(s, front, k);
        let w = writes_to(front, k);
        let x = set_ops(front, k);
        let y = sequence_ops(front, k);
        match ops.last() {
            CrdtOpView::SetRegister { write, .. } => {
                assert(w.push(write).drop_last() =~= w);
            },
            CrdtOpView::AddToSet { op, .. } => {
                assert(x.push(op).drop_last() =~= x);
            },
            CrdtOpView::RemoveFromSet { op, .. } => {
                assert(x.push(op).drop_last() =~= x);
            },
            CrdtOpView::InsertIntoSequence { op, .. } => {
                assert(y.push(op).drop_last() =~= y);
            },
            CrdtOpView::DeleteFromSequence { op, .. } => {
                assert(y.push(op).drop_last() =~= y);
            },
        }
    }
}

proof fn lemma_push_contains<A>(s: Seq<A>, a: A, x: A)
    ensures
        s.push(a).contains(x) <==> s.contains(x) || x == a,
{
    if s.contains(x) {
        assert(s.push(a)[s.index_of(x)] == x);
    }
    assert(s.push(a)[s.len() as int] == a);
    if s.push(a).contains(x) {
        let i = s.push(a).index_of(x);
        if i < s.len() {
            assert(s[i] == x);
        }
    }
}

proof fn lemma_parts_of(
    ops: Seq<CrdtOpView>,
    k: KeyView,
    w: RegisterView,
    x: OrSetOpView,
    y: SequenceOpView,
)
    ensures
        writes_to(ops, k).contains(w) <==> ops.contains(
            CrdtOpView::SetRegister { key: k, write: w },
        ),
        set_ops(ops, k).contains(x) <==> ops.contains(CrdtOpView::AddToSet { key: k, op: x })
            || ops.contains(CrdtOpView::RemoveFromSet { key: k, op: x }),
        sequence_ops(ops, k).contains(y) <==> ops.contains(
            CrdtOpView::InsertIntoSequence { key: k, op: y },
        ) || ops.contains(CrdtOpView::DeleteFromSequence { key: k, op: y }),
    decreases ops.len(),
{
    if ops.len() > 0 {
        let front = ops.drop_last();
        lemma_parts_of(front, k, w, x, y);
        assert(ops =~= front.push(ops.last()));
        lemma_push_contains(front, ops.last(), CrdtOpView::SetRegister { key: k, write: w });
        lemma_push_contains(front, ops.last(), CrdtOpView::AddToSet { key: k, op: x });
        lemma_push_contains(front, ops.last(), CrdtOpView::RemoveFromSet { key: k, op: x });
        lemma_push_contains(front, ops.last(), CrdtOpView::InsertIntoSequence { key: k, op: y });
        lemma_push_contains(front, ops.last(), CrdtOpView::DeleteFromSequence { key: k, op: y });
        match ops.last() {
            CrdtOpView::SetRegister { write, .. } => {
                lemma_push_contains(writes_to(front, k), write, w);
            },
            CrdtOpView::AddToSet { op, .. } => {
                lemma_push_contains(set_ops(front, k), op, x);
            },
            CrdtOpView::RemoveFromSet { op, .. } => {
                lemma_push_contains(set_ops(front, k), op, x);
            },
            CrdtOpView::InsertIntoSequence { op, .. } => {
                lemma_push_contains(sequence_ops(front, k), op, y);
            },
            CrdtOpView::DeleteFromSequence { op, .. } => {
                lemma_push_contains(sequence_ops(front, k), op, y);
            },
        }
    }
}

/// A write among the changes is among the writes to its key.
pub proof fn lemma_write_is_among(ops: Seq<CrdtOpView>, k: KeyView, w: RegisterView)
    requires
        ops.contains(CrdtOpView::SetRegister { key: k, write: w }),
    ensures
        writes_to(ops, k).contains(w),
{
    let some_op = OrSetOpView::Remove { element: Seq::empty(), observed_tags: Set::empty() };
    let some_edit = SequenceOpView::Delete { id: sequence::root_id() };
    lemma_parts_of(ops, k, w, some_op, some_edit);
}

proof fn lemma_same_parts(ops: Seq<CrdtOpView>, others: Seq<CrdtOpView>, k: KeyView)
    requires
        ops.to_set() == others.to_set(),
    ensures
        writes_to(ops, k).to_set() == writes_to(others, k).to_set(),
        set_ops(ops, k).to_set() == set_ops(others, k).to_set(),
        sequence_ops(ops, k).to_set() == sequence_ops(others, k).to_set(),
        writes_to(ops, k).len() > 0 <==> writes_to(others, k).len() > 0,
        set_ops(ops, k).len() > 0 <==> set_ops(others, k).len() > 0,
        sequence_ops(ops, k).len() > 0 <==> sequence_ops(others, k).len() > 0,
{
    let some_write = RegisterView { value: Json::Null, timestamp: 0, node_id: Seq::empty() };
    let some_op = OrSetOpView::Remove { element: Seq::empty(), observed_tags: Set::empty() };
    let some_edit = SequenceOpView::Delete { id: sequence::root_id() };
    assert forall|o: CrdtOpView| ops.contains(o) <==> #[trigger] others.contains(o) by {
        assert(ops.to_set().contains(o) == ops.contains(o));
        assert(others.to_set().contains(o) == others.contains(o));
    }
    assert forall|w: RegisterView|
        writes_to(ops, k).contains(w) <==> #[trigger] writes_to(others, k).contains(w) by {
        lemma_parts_of(ops, k, w, some_op, some_edit);
        lemma_parts_of(others, k, w, some_op, some_edit);
    }
    assert forall|x: OrSetOpView|
        set_ops(ops, k).contains(x) <==> #[trigger] set_ops(others, k).contains(x) by {
        lemma_parts_of(ops, k, some_write, x, some_edit);
        lemma_parts_of(others, k, some_write, x, some_edit);
    }
    assert forall|y: SequenceOpView|
        sequence_ops(ops, k).contains(y) <==> #[trigger] sequence_ops(others, k).contains(y) by {
        lemma_parts_of(ops, k, some_write, some_op, y);
        lemma_parts_of(others, k, some_write, some_op, y);
    }
    assert(writes_to(ops, k).to_set() =~= writes_to(others, k).to_set());
    assert(set_ops(ops, k).to_set() =~= set_ops(others, k).to_set());
    assert(sequence_ops(ops, k).to_set() =~= sequence_ops(others, k).to_set());
    lemma_same_emptiness(writes_to(ops, k), writes_to(others, k));
    lemma_same_emptiness(set_ops(ops, k), set_ops(others, k));
    lemma_same_emptiness(sequence_ops(ops, k), sequence_ops(others, k));
}

proof fn lemma_same_emptiness<A>(a: Seq<A>, b: Seq<A>)
    requires
        a.to_set() == b.to_set(),
    ensures
        a.len() > 0 <==> b.len() > 0,
{
    if a.len() > 0 {
        assert(a.contains(a[0]));
        assert(a.to_set().contains(a[0]));
        assert(b.to_set().contains(a[0]));
        assert(b.contains(a[0]));
    }
    if b.len() > 0 {
        assert(b.contains(b[0]));
        assert(b.to_set().contains(b[0]));
        assert(a.to_set().contains(b[0]));
        assert(a.contains(b[0]));
    }
}

/// Stamps and ids name one write and one insert: a stamp among the changes and in the
/// state that they meet, an id among the changes.
pub open spec fn ops_agree(s: StateView, ops: Seq<CrdtOpView>) -> bool {
    forall|k: KeyView|
        lww::writes_agree(state::register_at(s, k), (#[trigger] writes_to(ops, k)).to_set())
            && convergence::inserts_agree(sequence_ops(ops, k).to_set())
}

/// Replicas converge: those that have seen the same changes, each in an order of its own,
/// hold the same state. A stamp has to name one write, and an id one insert.
pub proof fn law_state_replay_order_independent(
    s: StateView,
    ops: Seq<CrdtOpView>,
    others: Seq<CrdtOpView>,
)
    requires
        sound(s),
        ops.to_set() == others.to_set(),
        ops_agree(s, ops),
    ensures
        state_replay(s, ops) == state_replay(s, others),
{
    let m = state_replay(s, ops);
    let n = state_replay(s, others);
    assert forall|k: KeyView| #[trigger] same_at(m, n, k) by {
        law_replay_is_keywise(s, ops, k);
        law_replay_is_keywise(s, others, k);
        lemma_same_parts(ops, others, k);
        lemma_sound_parts(s, k);
        let w = writes_to(ops, k);
        let x = set_ops(ops, k);
        let y = set_ops(others, k);
        lww::law_register_replay_order_independent(
            state::register_at(s, k),
            w,
            writes_to(others, k),
        );
        orset::law_set_replay_order_independent(state::set_at(s, k), x, y);
        convergence::law_replay_order_independent(
            state::sequence_at(s, k),
            sequence_ops(ops, k),
            sequence_ops(others, k),
        );
    }
    lemma_same_everywhere(m, n);
}

/// A change touches the part that it names, under its key, and nothing else. A register
/// that is written holds the write or what it held, whichever has the greater timestamp; a
/// set or a sequence that was not there starts out empty.
pub proof fn law_change_touches_what_it_names(s: StateView, op: CrdtOpView)
    ensures
        ({
            let t = state::state_apply(s, op);
            match op {
                CrdtOpView::SetRegister { key, write } => {
                    &&& t.sets == s.sets
                    &&& t.sequences == s.sequences
                    &&& t.registers.remove(key) == s.registers.remove(key)
                    &&& t.registers.contains_key(key)
                    &&& !s.registers.contains_key(key) || s.registers[key].timestamp
                        < write.timestamp ==> t.registers[key] == write
                    &&& s.registers.contains_key(key) && s.registers[key].timestamp
                        > write.timestamp ==> t.registers[key] == s.registers[key]
                    &&& s.registers.contains_key(key) && s.registers[key].timestamp
                        == write.timestamp ==> t.registers[key] == if order::text_less(
                        s.registers[key].node_id,
                        write.node_id,
                    ) {
                        write
                    } else {
                        s.registers[key]
                    }
                },
                CrdtOpView::AddToSet { key, op: change } => {
                    &&& t.registers == s.registers
                    &&& t.sequences == s.sequences
                    &&& t.sets.remove(key) == s.sets.remove(key)
                    &&& t.sets.contains_key(key)
                    &&& s.sets.contains_key(key) ==> t.sets[key] == orset::set_apply(
                        s.sets[key],
                        change,
                    )
                    &&& !s.sets.contains_key(key) ==> t.sets[key] == orset::set_apply(
                        orset::empty_set(),
                        change,
                    )
                },
                CrdtOpView::RemoveFromSet { key, op: change } => {
                    &&& t.registers == s.registers
                    &&& t.sequences == s.sequences
                    &&& t.sets.remove(key) == s.sets.remove(key)
                    &&& t.sets.contains_key(key)
                    &&& s.sets.contains_key(key) ==> t.sets[key] == orset::set_apply(
                        s.sets[key],
                        change,
                    )
                    &&& !s.sets.contains_key(key) ==> t.sets[key] == orset::set_apply(
                        orset::empty_set(),
                        change,
                    )
                },
                CrdtOpView::InsertIntoSequence { key, op: change } => {
                    &&& t.registers == s.registers
                    &&& t.sets == s.sets
                    &&& t.sequences.remove(key) == s.sequences.remove(key)
                    &&& t.sequences.contains_key(key)
                    &&& s.sequences.contains_key(key) ==> t.sequences[key]
                        == sequence::sequence_apply(s.sequences[key], change)
                    &&& !s.sequences.contains_key(key) ==> t.sequences[key]
                        == sequence::sequence_apply(sequence::empty_sequence(), change)
                },
                CrdtOpView::DeleteFromSequence { key, op: change } => {
                    &&& t.registers == s.registers
                    &&& t.sets == s.sets
                    &&& t.sequences.remove(key) == s.sequences.remove(key)
                    &&& t.sequences.contains_key(key)
                    &&& s.sequences.contains_key(key) ==> t.sequences[key]
                        == sequence::sequence_apply(s.sequences[key], change)
                    &&& !s.sequences.contains_key(key) ==> t.sequences[key]
                        == sequence::sequence_apply(sequence::empty_sequence(), change)
                },
            }
        }),
{
    let t = state::state_apply(s, op);
    let key = key_of(op);
    assert(t.registers.remove(key) =~= s.registers.remove(key));
    assert(t.sets.remove(key) =~= s.sets.remove(key));
    assert(t.sequences.remove(key) =~= s.sequences.remove(key));
}

/// A set and a sequence start out with nothing in them and nothing remembered, and a state
/// with none of either.
pub proof fn law_nothing_is_there_at_first()
    ensures
        orset::empty_set().live.dom() == Set::<Seq<char>>::empty(),
        forall|e: Seq<char>, t: orset::TagView| !#[trigger]
            orset::empty_set().removed.contains((e, t)),
        sequence::empty_sequence().nodes.len() == 0,
        forall|id: sequence::IdView| !#[trigger]
            sequence::empty_sequence().waiting.contains_key(id),
        forall|id: sequence::IdView| !#[trigger] sequence::empty_sequence().gone.contains(id),
        forall|k: KeyView| !#[trigger] state::empty_state().registers.contains_key(k),
        forall|k: KeyView| !#[trigger] state::empty_state().sets.contains_key(k),
        forall|k: KeyView| !#[trigger] state::empty_state().sequences.contains_key(k),
{
}

/// A merged state has the registers, the sets and the sequences that either state has. What
/// only one of them has it has as it is, and of two registers the one with the greater
/// timestamp.
pub proof fn law_merge_has_what_either_has(a: StateView, b: StateView, k: KeyView)
    requires
        sound(b),
    ensures
        ({
            let m = state::state_merge(a, b);
            &&& m.registers.contains_key(k) <==> a.registers.contains_key(k)
                || b.registers.contains_key(k)
            &&& m.sets.contains_key(k) <==> a.sets.contains_key(k) || b.sets.contains_key(k)
            &&& m.sequences.contains_key(k) <==> a.sequences.contains_key(k)
                || b.sequences.contains_key(k)
            &&& a.registers.contains_key(k) && !b.registers.contains_key(k) ==> m.registers[k]
                == a.registers[k]
            &&& b.registers.contains_key(k) && !a.registers.contains_key(k) ==> m.registers[k]
                == b.registers[k]
            &&& a.registers.contains_key(k) && b.registers.contains_key(k) ==> {
                &&& a.registers[k].timestamp < b.registers[k].timestamp ==> m.registers[k]
                    == b.registers[k]
                &&& a.registers[k].timestamp > b.registers[k].timestamp ==> m.registers[k]
                    == a.registers[k]
                &&& a.registers[k].timestamp == b.registers[k].timestamp ==> m.registers[k]
                    == if order::text_less(a.registers[k].node_id, b.registers[k].node_id) {
                    b.registers[k]
                } else {
                    a.registers[k]
                }
            }
            &&& a.sets.contains_key(k) && !b.sets.contains_key(k) ==> m.sets[k] == a.sets[k]
            &&& b.sets.contains_key(k) && !a.sets.contains_key(k) ==> m.sets[k] == b.sets[k]
            &&& a.sets.contains_key(k) && b.sets.contains_key(k) ==> m.sets[k]
                == orset::set_merge(a.sets[k], b.sets[k])
            &&& a.sequences.contains_key(k) && !b.sequences.contains_key(k) ==> m.sequences[k]
                == a.sequences[k]
            &&& b.sequences.contains_key(k) && !a.sequences.contains_key(k) ==> m.sequences[k]
                == b.sequences[k]
            &&& a.sequences.contains_key(k) && b.sequences.contains_key(k) ==> m.sequences[k]
                == sequence::sequence_merge(a.sequences[k], b.sequences[k])
        }),
{
    lemma_sound_parts(b, k);
    orset::law_set_merge_with_empty(state::set_at(b, k));
    convergence::law_merge_with_empty(state::sequence_at(b, k));
}

} // verus!
