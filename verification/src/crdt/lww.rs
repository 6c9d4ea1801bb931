//! Last-writer-wins register.

use crate::json;
use crate::json::Json;
use crate::map::ViewClone;
use crate::order;
use crate::order::Order;
use serde_json::Value;
use vstd::prelude::*;

verus! {

/// Last-writer-wins register.
///
/// Concurrent writes are resolved by comparing (timestamp, node_id) pairs: the
/// highest timestamp wins and ties are broken by node_id, which makes the order of
/// writes total.
///
/// The caller provides monotonically increasing timestamps.
#[derive(Debug, PartialEq)]
pub struct LwwRegister {
    pub value: Value,
    pub timestamp: u64,
    pub node_id: String,
}

/// What a register holds.
pub struct RegisterView {
    pub value: Json,
    pub timestamp: u64,
    pub node_id: Seq<char>,
}

impl View for LwwRegister {
    type V = RegisterView;

    open spec fn view(&self) -> RegisterView {
        RegisterView {
            value: json::json_view(self.value),
            timestamp: self.timestamp,
            node_id: self.node_id@,
        }
    }
}

/// The stamp (t, n) is lower than the stamp (u, m): the timestamp decides, and the
/// node id where the timestamps are equal.
pub open spec fn stamp_less(t: u64, n: Seq<char>, u: u64, m: Seq<char>) -> bool {
    t < u || (t == u && order::text_less(n, m))
}

/// The write `w` is accepted over the register `r`: its stamp is higher.
pub open spec fn overwrites(w: RegisterView, r: RegisterView) -> bool {
    stamp_less(r.timestamp, r.node_id, w.timestamp, w.node_id)
}

/// The register after the write `w`: whichever of the two has the higher stamp.
pub open spec fn register_merge(r: RegisterView, w: RegisterView) -> RegisterView {
    if overwrites(w, r) {
        w
    } else {
        r
    }
}

impl Clone for LwwRegister {
    fn clone(&self) -> (r: Self)
        ensures
            r@ == self@,
    {
        LwwRegister {
            value: self.value.clone(),
            timestamp: self.timestamp,
            node_id: self.node_id.clone(),
        }
    }
}

impl ViewClone for LwwRegister {
    fn view_clone(&self) -> (r: Self) {
        self.clone()
    }
}

impl LwwRegister {
    /// A register that holds `value`, written at `timestamp` by `node_id`.
    pub fn new(value: Value, timestamp: u64, node_id: String) -> (r: Self)
        ensures
            r@ == (RegisterView {
                value: json::json_view(value),
                timestamp,
                node_id: node_id@,
            }),
    {
        LwwRegister { value, timestamp, node_id }
    }

    /// Writes `value` unless the stamp is not higher than the one held. The result
    /// says whether the write was accepted.
    pub fn update(&mut self, value: Value, timestamp: u64, node_id: String) -> (accepted: bool)
        ensures
            ({
                let w = RegisterView {
                    value: json::json_view(value),
                    timestamp,
                    node_id: node_id@,
                };
                &&& accepted == overwrites(w, old(self)@)
                &&& final(self)@ == register_merge(old(self)@, w)
                &&& timestamp > old(self)@.timestamp ==> accepted && final(self)@ == w
                &&& timestamp < old(self)@.timestamp ==> !accepted && final(self)@ == old(self)@
                &&& timestamp == old(self)@.timestamp ==> accepted == order::text_less(
                    old(self)@.node_id,
                    node_id@,
                )
            }),
    {
        if self.should_accept(timestamp, node_id.as_str()) {
            self.value = value;
            self.timestamp = timestamp;
            self.node_id = node_id;
            true
        } else {
            false
        }
    }

    /// Takes over what `other` holds if its stamp is higher. The result says whether
    /// it was.
    pub fn merge(&mut self, other: &LwwRegister) -> (accepted: bool)
        ensures
            accepted == overwrites(other@, old(self)@),
            final(self)@ == register_merge(old(self)@, other@),
            other@.timestamp > old(self)@.timestamp ==> accepted && final(self)@ == other@,
            other@.timestamp < old(self)@.timestamp ==> !accepted && final(self)@ == old(self)@,
            other@.timestamp == old(self)@.timestamp ==> accepted == order::text_less(
                old(self)@.node_id,
                other@.node_id,
            ),
    {
        if self.should_accept(other.timestamp, other.node_id.as_str()) {
            self.value = other.value.clone();
            self.timestamp = other.timestamp;
            self.node_id = other.node_id.clone();
            true
        } else {
            false
        }
    }

    fn should_accept(&self, timestamp: u64, node_id: &str) -> (r: bool)
        ensures
            r == stamp_less(self.timestamp, self.node_id@, timestamp, node_id@),
    {
        timestamp > self.timestamp || (timestamp == self.timestamp && order::text_order(
            self.node_id.as_str(),
            node_id,
        ) == Order::Less)
    }
}

/// Two registers that were written under the same stamp hold the same value: a stamp
/// names one write.
pub open spec fn registers_agree(a: RegisterView, b: RegisterView) -> bool {
    a.timestamp == b.timestamp && a.node_id == b.node_id ==> a.value == b.value
}

/// Merging is commutative, where a stamp names one write.
pub proof fn law_register_merge_commutative(a: RegisterView, b: RegisterView)
    requires
        registers_agree(a, b),
    ensures
        register_merge(a, b) == register_merge(b, a),
{
    order::lemma_text_total(a.node_id, b.node_id);
    if order::text_less(a.node_id, b.node_id) && order::text_less(b.node_id, a.node_id) {
        order::lemma_text_transitive(a.node_id, b.node_id, a.node_id);
        order::lemma_text_irreflexive(a.node_id);
    }
}

/// Merging is associative.
pub proof fn law_register_merge_associative(a: RegisterView, b: RegisterView, c: RegisterView)
    ensures
        register_merge(register_merge(a, b), c) == register_merge(a, register_merge(b, c)),
{
    lemma_stamps(a, b, c);
}

proof fn lemma_stamps(a: RegisterView, b: RegisterView, c: RegisterView)
    ensures
        overwrites(b, a) && overwrites(c, b) ==> overwrites(c, a),
        !overwrites(b, a) && overwrites(c, a) ==> overwrites(c, b),
{
    let (x, y, z) = (a.node_id, b.node_id, c.node_id);
    if order::text_less(x, y) && order::text_less(y, z) {
        order::lemma_text_transitive(x, y, z);
    }
    order::lemma_text_total(x, y);
    if order::text_less(y, x) && order::text_less(x, z) {
        order::lemma_text_transitive(y, x, z);
    }
}

/// Merging a register with itself changes nothing, nor does merging the same
/// register twice.
pub proof fn law_register_merge_idempotent(a: RegisterView, b: RegisterView)
    ensures
        register_merge(a, a) == a,
        register_merge(register_merge(a, b), b) == register_merge(a, b),
{
    order::lemma_text_irreflexive(b.node_id);
}

/// The register never goes back: after a merge its stamp is at least as high as each
/// of the two that were merged.
pub proof fn law_register_merge_keeps_highest(a: RegisterView, b: RegisterView)
    ensures
        !overwrites(a, register_merge(a, b)),
        !overwrites(b, register_merge(a, b)),
{
    order::lemma_text_irreflexive(a.node_id);
    order::lemma_text_irreflexive(b.node_id);
    if order::text_less(a.node_id, b.node_id) && order::text_less(b.node_id, a.node_id) {
        order::lemma_text_transitive(a.node_id, b.node_id, a.node_id);
    }
}

/// The register of a key after a write. A key without a register takes the write as it
/// is.
pub open spec fn written(r: Option<RegisterView>, w: RegisterView) -> RegisterView {
    match r {
        Some(held) => register_merge(held, w),
        None => w,
    }
}

/// The registers of a key merged, where there are any.
pub open spec fn merged(a: Option<RegisterView>, b: Option<RegisterView>) -> Option<RegisterView> {
    match b {
        Some(w) => Some(written(a, w)),
        None => a,
    }
}

/// The register of a key after a list of writes.
pub open spec fn register_replay(
    r: Option<RegisterView>,
    writes: Seq<RegisterView>,
) -> Option<RegisterView>
    decreases writes.len(),
{
    if writes.len() == 0 {
        r
    } else {
        Some(written(register_replay(r, writes.drop_last()), writes.last()))
    }
}

/// A stamp names one write, among the writes and in the register that they meet.
pub open spec fn writes_agree(r: Option<RegisterView>, writes: Set<RegisterView>) -> bool {
    &&& r matches Some(held) ==> forall|v: RegisterView| #[trigger]
        writes.contains(v) ==> registers_agree(held, v)
    &&& forall|v: RegisterView, w: RegisterView| #[trigger]
        writes.contains(v) && #[trigger] writes.contains(w) ==> registers_agree(v, w)
}

/// The register is what was there or one of the writes, and none of them has a higher
/// stamp.
pub open spec fn is_highest(
    h: RegisterView,
    r: Option<RegisterView>,
    writes: Seq<RegisterView>,
) -> bool {
    &&& r == Some(h) || writes.contains(h)
    &&& r matches Some(held) ==> !overwrites(held, h)
    &&& forall|w: RegisterView| #[trigger] writes.contains(w) ==> !overwrites(w, h)
}

/// The highest write wins: after a list of writes the register holds what was there or
/// one of the writes, and none of them has a higher stamp.
pub proof fn law_highest_write_wins(r: Option<RegisterView>, writes: Seq<RegisterView>)
    ensures
        match register_replay(r, writes) {
            Some(h) => is_highest(h, r, writes),
            None => r is None && writes.len() == 0,
        },
    decreases writes.len(),
{
    if writes.len() == 0 {
        if let Some(held) = r {
            order::lemma_text_irreflexive(held.node_id);
        }
    } else {
        let front = writes.drop_last();
        let last = writes.last();
        let n = register_replay(r, writes)->0;
        law_highest_write_wins(r, front);
        assert(writes[writes.len() - 1] == last);
        match register_replay(r, front) {
            Some(m) => {
                law_register_merge_keeps_highest(m, last);
                if front.contains(m) {
                    assert(writes[front.index_of(m)] == m);
                }
                assert forall|w: RegisterView| #[trigger] writes.contains(w) implies !overwrites(
                    w,
                    n,
                ) by {
                    let i = choose|i: int| 0 <= i < writes.len() && writes[i] == w;
                    if i < front.len() {
                        assert(front[i] == w);
                        assert(front.contains(w));
                        lemma_stamps(m, n, w);
                        lemma_stamps(m, last, w);
                    }
                }
                if let Some(held) = r {
                    lemma_stamps(m, n, held);
                    lemma_stamps(m, last, held);
                }
            },
            None => {
                order::lemma_text_irreflexive(last.node_id);
                assert(front.len() == 0);
            },
        }
    }
}

/// Replicas converge: the outcome of a set of writes does not depend on their order.
pub proof fn law_register_replay_order_independent(
    r: Option<RegisterView>,
    writes: Seq<RegisterView>,
    others: Seq<RegisterView>,
)
    requires
        writes.to_set() == others.to_set(),
        writes_agree(r, writes.to_set()),
    ensures
        register_replay(r, writes) == register_replay(r, others),
{
    law_highest_write_wins(r, writes);
    law_highest_write_wins(r, others);
    assert forall|w: RegisterView| writes.contains(w) <==> #[trigger] others.contains(w) by {
        assert(writes.to_set().contains(w) == writes.contains(w));
        assert(others.to_set().contains(w) == others.contains(w));
    }
    if writes.len() > 0 {
        assert(writes.contains(writes[0]));
    }
    if others.len() > 0 {
        assert(others.contains(others[0]));
    }
    match (register_replay(r, writes), register_replay(r, others)) {
        (Some(a), Some(b)) => {
            assert(writes.contains(a) ==> writes.to_set().contains(a));
            assert(writes.contains(b) ==> writes.to_set().contains(b));
            order::lemma_text_total(a.node_id, b.node_id);
            assert(registers_agree(a, b));
        },
        _ => {},
    }
}

/// Merging is commutative, associative and idempotent also where a key has no register.
pub proof fn law_merged_keeps_the_laws(
    a: Option<RegisterView>,
    b: Option<RegisterView>,
    c: Option<RegisterView>,
)
    ensures
        (a is Some && b is Some ==> registers_agree(a->0, b->0)) ==> merged(a, b) == merged(b, a),
        merged(merged(a, b), c) == merged(a, merged(b, c)),
        merged(a, a) == a,
        merged(merged(a, b), b) == merged(a, b),
{
    if let Some(x) = a {
        law_register_merge_idempotent(x, x);
        if let Some(y) = b {
            if registers_agree(x, y) {
                law_register_merge_commutative(x, y);
            }
            law_register_merge_idempotent(x, y);
            if let Some(z) = c {
                law_register_merge_associative(x, y, z);
            }
        }
    } else if let Some(y) = b {
        law_register_merge_idempotent(y, y);
    }
}

/// The timestamps decide, as numbers: a write with a greater one than the register's is
/// accepted and is what the register then holds, and one with a smaller one is refused and
/// changes nothing. Only at equal timestamps the node ids decide: the greater one wins, and
/// a write under the same node id is refused.
pub proof fn law_greater_timestamp_wins(r: RegisterView, w: RegisterView)
    ensures
        r.timestamp < w.timestamp ==> overwrites(w, r) && register_merge(r, w) == w,
        w.timestamp < r.timestamp ==> !overwrites(w, r) && register_merge(r, w) == r,
        r.timestamp == w.timestamp && order::text_less(r.node_id, w.node_id) ==> overwrites(w, r)
            && register_merge(r, w) == w,
        r.timestamp == w.timestamp && order::text_less(w.node_id, r.node_id) ==> !overwrites(w, r)
            && register_merge(r, w) == r,
        r.timestamp == w.timestamp && r.node_id == w.node_id ==> !overwrites(w, r)
            && register_merge(r, w) == r,
{
    order::lemma_text_irreflexive(r.node_id);
    if order::text_less(r.node_id, w.node_id) && order::text_less(w.node_id, r.node_id) {
        order::lemma_text_transitive(r.node_id, w.node_id, r.node_id);
    }
}

/// A key without a register takes the first write as it is; one that has a register holds
/// the write or the register afterwards, whichever has the greater timestamp.
pub proof fn law_write_to_a_key(r: Option<RegisterView>, w: RegisterView)
    ensures
        r is None ==> written(r, w) == w,
        r matches Some(held) ==> {
            &&& held.timestamp < w.timestamp ==> written(r, w) == w
            &&& w.timestamp < held.timestamp ==> written(r, w) == held
            &&& written(r, w) == w || written(r, w) == held
            &&& written(r, w).timestamp >= w.timestamp
            &&& written(r, w).timestamp >= held.timestamp
        },
        merged(r, None) == r,
        merged(None, r) == r,
        merged(r, Some(w)) == Some(written(r, w)),
{
}

/// The winner of a list of writes has the greatest timestamp of them, as a number, and among
/// the writes with that timestamp none has a greater node id. It is one of the writes or
/// what was there before.
pub proof fn law_winner_has_the_greatest_timestamp(
    r: Option<RegisterView>,
    writes: Seq<RegisterView>,
)
    ensures
        register_replay(r, writes) is Some <==> r is Some || writes.len() > 0,
        register_replay(r, writes) matches Some(h) ==> {
            &&& r == Some(h) || exists|i: int| 0 <= i < writes.len() && #[trigger] writes[i] == h
            &&& forall|i: int|
                0 <= i < writes.len() ==> (#[trigger] writes[i]).timestamp <= h.timestamp && (
                writes[i].timestamp == h.timestamp ==> !order::text_less(
                    h.node_id,
                    writes[i].node_id,
                ))
            &&& r matches Some(held) ==> held.timestamp <= h.timestamp && (held.timestamp
                == h.timestamp ==> !order::text_less(h.node_id, held.node_id))
        },
{
    law_highest_write_wins(r, writes);
    if let Some(h) = register_replay(r, writes) {
        assert forall|i: int| 0 <= i < writes.len() implies (#[trigger] writes[i]).timestamp
            <= h.timestamp && (writes[i].timestamp == h.timestamp ==> !order::text_less(
            h.node_id,
            writes[i].node_id,
        )) by {
            assert(writes.contains(writes[i]));
        }
    }
}

} // verus!
