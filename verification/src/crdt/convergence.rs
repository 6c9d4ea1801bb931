//! Why replicas of a sequence converge: the order of the elements is a function of
//! which elements there are and what each was inserted after.
//!
//! The way from the root to an element, written as the ids on it, is the element's
//! path. The elements of a sequence stand in the order of their paths, where at the first
//! difference the higher id comes first. An element whose parent has not come has no
//! path; it is kept aside. So what a sequence holds is determined by which inserts and
//! which deletions it has received, in whichever order they came.

use crate::crdt::sequence;
use crate::crdt::sequence::{IdView, NodeView, SequenceOpView, SequenceView};
use crate::json::Json;
use crate::order;
use vstd::prelude::*;

verus! {

/// Every element comes after its parent.
pub open spec fn causal(s: Seq<NodeView>) -> bool {
    forall|i: int|
        0 <= i < s.len() ==> (#[trigger] s[i]).parent == sequence::root_id() || (sequence::held(
            s,
            s[i].parent,
        ) && sequence::place_of(s, s[i].parent) < i)
}

/// The ids on the way from the root to the element at `i`.
pub open spec fn path_at(s: Seq<NodeView>, i: int) -> Seq<IdView>
    decreases i,
{
    let p = sequence::place_of(s, s[i].parent);
    if s[i].parent != sequence::root_id() && 0 <= p < i {
        path_at(s, p).push(s[i].id)
    } else {
        seq![s[i].id]
    }
}

/// The ids on the way from the root to `id`; none for the root itself.
pub open spec fn path_to(s: Seq<NodeView>, id: IdView) -> Seq<IdView> {
    if sequence::held(s, id) {
        path_at(s, sequence::place_of(s, id))
    } else {
        Seq::empty()
    }
}

/// The order of ids in which the higher one comes first.
pub open spec fn higher_first() -> spec_fn(IdView, IdView) -> bool {
    |x: IdView, y: IdView| sequence::id_less(y, x)
}

/// The order of paths.
pub open spec fn path_before(a: Seq<IdView>, b: Seq<IdView>) -> bool {
    order::lex_less(a, b, higher_first())
}

/// The elements stand in the order of their paths.
pub open spec fn by_path(s: Seq<NodeView>) -> bool {
    forall|i: int, j: int|
        0 <= i < j < s.len() ==> path_before(#[trigger] path_at(s, i), #[trigger] path_at(s, j))
}

/// The elements are in order: no id twice, no element before its parent, and the elements
/// in the order of their paths.
pub open spec fn well_built(s: Seq<NodeView>) -> bool {
    &&& sequence::distinct_ids(s)
    &&& causal(s)
    &&& by_path(s)
}

/// What is recorded under an id.
pub struct Entry {
    pub parent: IdView,
    pub value: Json,
    pub tombstone: bool,
}

/// What a list of elements holds, without its order.
pub open spec fn contents(s: Seq<NodeView>) -> Map<IdView, Entry> {
    Map::new(
        |id: IdView| sequence::held(s, id),
        |id: IdView|
            {
                let n = s[sequence::place_of(s, id)];
                Entry { parent: n.parent, value: n.value, tombstone: n.tombstone }
            },
    )
}

/// What is recorded under an id that has come.
pub open spec fn entry_of(s: SequenceView, id: IdView) -> Entry {
    if sequence::held(s.nodes, id) {
        contents(s.nodes)[id]
    } else {
        let n = s.waiting[id];
        Entry { parent: n.parent, value: n.value, tombstone: n.tombstone }
    }
}

/// What an insert says of its element.
pub struct Insertion {
    pub parent: IdView,
    pub value: Json,
}

/// The inserts and the deletions that a sequence has received.
pub struct Record {
    pub inserted: Map<IdView, Insertion>,
    pub deleted: Set<IdView>,
}

/// The inserts and the deletions that a sequence has received.
pub open spec fn record(s: SequenceView) -> Record {
    Record {
        inserted: Map::new(
            |id: IdView| sequence::has(s, id),
            |id: IdView|
                Insertion { parent: entry_of(s, id).parent, value: entry_of(s, id).value },
        ),
        deleted: Set::new(
            |id: IdView|
                s.gone.contains(id) || (sequence::has(s, id) && entry_of(s, id).tombstone),
        ),
    }
}

/// The elements that have a place are in order, and what waits or is gone has none.
pub open spec fn orderly(s: SequenceView) -> bool {
    &&& well_built(s.nodes)
    &&& s.waiting.dom().finite()
    &&& s.gone.finite()
    &&& forall|id: IdView| #[trigger]
        s.waiting.contains_key(id) ==> s.waiting[id].id == id && !sequence::known(s.nodes, id)
    &&& forall|id: IdView| #[trigger]
        s.gone.contains(id) ==> id != sequence::root_id() && !sequence::has(s, id)
}

/// What holds of every sequence: its elements are in order, and no element waits whose
/// parent is there.
pub open spec fn sound(s: SequenceView) -> bool {
    &&& orderly(s)
    &&& forall|id: IdView| !#[trigger] sequence::ready(s, id)
}

/// The sequence that has received these inserts and deletions.
pub open spec fn arranged(r: Record) -> SequenceView {
    choose|s: SequenceView| sound(s) && #[trigger] record(s) == r
}

/// An id names one insert: what two replicas record under it is the same.
pub open spec fn records_agree(a: Record, b: Record) -> bool {
    forall|id: IdView|
        #![trigger a.inserted.contains_key(id)]
        #![trigger b.inserted.contains_key(id)]
        a.inserted.contains_key(id) && b.inserted.contains_key(id) ==> a.inserted[id]
            == b.inserted[id]
}

/// Everything that either of two replicas has received.
pub open spec fn joined(a: Record, b: Record) -> Record {
    Record {
        inserted: Map::new(
            |id: IdView| a.inserted.contains_key(id) || b.inserted.contains_key(id),
            |id: IdView|
                if a.inserted.contains_key(id) {
                    a.inserted[id]
                } else {
                    b.inserted[id]
                },
        ),
        deleted: a.deleted.union(b.deleted),
    }
}

// --- order of ids and paths ---

proof fn lemma_higher_first_strict_total()
    ensures
        order::strict_total(higher_first()),
{
    let lt = higher_first();
    assert forall|x: IdView| !#[trigger] lt(x, x) by {
        order::lemma_text_irreflexive(x.node_id);
    }
    assert forall|x: IdView, y: IdView, z: IdView| #[trigger] lt(x, y) && #[trigger] lt(
        y,
        z,
    ) implies lt(x, z) by {
        if order::text_less(z.node_id, y.node_id) && order::text_less(y.node_id, x.node_id) {
            order::lemma_text_transitive(z.node_id, y.node_id, x.node_id);
        }
    }
    assert forall|x: IdView, y: IdView| #[trigger] lt(x, y) || x == y || lt(y, x) by {
        order::lemma_text_total(x.node_id, y.node_id);
    }
}

/// Two sequences that are strictly sorted the same way and have the same elements are
/// equal.
proof fn lemma_sorted_same_elements<T>(a: Seq<T>, b: Seq<T>, lt: spec_fn(T, T) -> bool)
    requires
        forall|x: T| !#[trigger] lt(x, x),
        forall|x: T, y: T, z: T| #[trigger] lt(x, y) && #[trigger] lt(y, z) ==> lt(x, z),
        forall|i: int, j: int| 0 <= i < j < a.len() ==> lt(#[trigger] a[i], #[trigger] a[j]),
        forall|i: int, j: int| 0 <= i < j < b.len() ==> lt(#[trigger] b[i], #[trigger] b[j]),
        forall|x: T| a.contains(x) <==> b.contains(x),
    ensures
        a == b,
{
    lemma_sorted_agree_up_to(a, b, lt, if a.len() < b.len() { a.len() as int } else { b.len() as int });
    if a.len() < b.len() {
        let x = b[a.len() as int];
        assert(b.contains(x));
        assert(a.contains(x));
        let j = choose|j: int| 0 <= j < a.len() && a[j] == x;
        assert(lt(b[j], b[a.len() as int]));
    } else if b.len() < a.len() {
        let x = a[b.len() as int];
        assert(a.contains(x));
        assert(b.contains(x));
        let j = choose|j: int| 0 <= j < b.len() && b[j] == x;
        assert(lt(a[j], a[b.len() as int]));
    }
    assert(a =~= b);
}

proof fn lemma_sorted_agree_up_to<T>(a: Seq<T>, b: Seq<T>, lt: spec_fn(T, T) -> bool, k: int)
    requires
        0 <= k <= a.len(),
        k <= b.len(),
        forall|x: T| !#[trigger] lt(x, x),
        forall|x: T, y: T, z: T| #[trigger] lt(x, y) && #[trigger] lt(y, z) ==> lt(x, z),
        forall|i: int, j: int| 0 <= i < j < a.len() ==> lt(#[trigger] a[i], #[trigger] a[j]),
        forall|i: int, j: int| 0 <= i < j < b.len() ==> lt(#[trigger] b[i], #[trigger] b[j]),
        forall|x: T| a.contains(x) <==> b.contains(x),
    ensures
        forall|i: int| 0 <= i < k ==> a[i] == b[i],
    decreases k,
{
    if k > 0 {
        lemma_sorted_agree_up_to(a, b, lt, k - 1);
        let m = k - 1;
        assert(a.contains(a[m]));
        assert(b.contains(b[m]));
        let i = choose|i: int| 0 <= i < b.len() && b[i] == a[m];
        let j = choose|j: int| 0 <= j < a.len() && a[j] == b[m];
        if i < m {
            assert(lt(a[i], a[m]));
        }
        if j < m {
            assert(lt(b[j], b[m]));
        }
        if m < i && m < j {
            assert(lt(b[m], b[i]));
            assert(lt(a[m], a[j]));
        }
    }
}

// --- paths ---

proof fn lemma_place(s: Seq<NodeView>, i: int)
    requires
        sequence::distinct_ids(s),
        0 <= i < s.len(),
    ensures
        sequence::held(s, s[i].id),
        sequence::place_of(s, s[i].id) == i,
        path_to(s, s[i].id) == path_at(s, i),
{
}

/// The path of an element is that of its parent and then its own id.
proof fn lemma_path_shape(s: Seq<NodeView>, i: int)
    requires
        sequence::distinct_ids(s),
        causal(s),
        0 <= i < s.len(),
    ensures
        path_at(s, i) == path_to(s, s[i].parent).push(s[i].id),
        path_at(s, i).len() <= i + 1,
    decreases i,
{
    let p = s[i].parent;
    if p != sequence::root_id() {
        lemma_path_shape(s, sequence::place_of(s, p));
    } else {
        assert(!sequence::held(s, p));
        assert(path_at(s, i) =~= path_to(s, p).push(s[i].id));
    }
}

/// Every prefix of a path is the path of an element that comes no later.
proof fn lemma_path_prefix(s: Seq<NodeView>, i: int, k: int) -> (j: int)
    requires
        sequence::distinct_ids(s),
        causal(s),
        0 <= i < s.len(),
        0 <= k < path_at(s, i).len(),
    ensures
        0 <= j <= i,
        s[j].id == path_at(s, i)[k],
        path_at(s, j) == path_at(s, i).take(k + 1),
    decreases i,
{
    lemma_path_shape(s, i);
    let full = path_at(s, i);
    let up = path_to(s, s[i].parent);
    if k == full.len() - 1 {
        assert(full.take(k + 1) =~= full);
        i
    } else {
        assert(sequence::held(s, s[i].parent));
        let p = sequence::place_of(s, s[i].parent);
        let j = lemma_path_prefix(s, p, k);
        assert(full.take(k + 1) =~= up.take(k + 1));
        j
    }
}

/// A path leads to one id only.
proof fn lemma_path_injective(s: Seq<NodeView>, x: IdView, y: IdView)
    requires
        sequence::distinct_ids(s),
        causal(s),
        sequence::known(s, x),
        sequence::known(s, y),
        path_to(s, x) == path_to(s, y),
    ensures
        x == y,
{
    if sequence::held(s, x) {
        lemma_path_shape(s, sequence::place_of(s, x));
        assert(path_to(s, x).last() == x);
    }
    if sequence::held(s, y) {
        lemma_path_shape(s, sequence::place_of(s, y));
        assert(path_to(s, y).last() == y);
    }
}

/// An element keeps its path wherever the elements on it keep their parents.
proof fn lemma_same_path(s: Seq<NodeView>, t: Seq<NodeView>, i: int, j: int)
    requires
        sequence::distinct_ids(s),
        causal(s),
        sequence::distinct_ids(t),
        causal(t),
        0 <= i < s.len(),
        0 <= j < t.len(),
        s[i].id == t[j].id,
        forall|a: int, b: int|
            0 <= a < s.len() && 0 <= b < t.len() && (#[trigger] s[a]).id == (#[trigger] t[b]).id
                ==> s[a].parent == t[b].parent,
    ensures
        path_at(s, i) == path_at(t, j),
    decreases i,
{
    lemma_path_shape(s, i);
    lemma_path_shape(t, j);
    let p = s[i].parent;
    assert(p == t[j].parent);
    if p != sequence::root_id() {
        lemma_same_path(s, t, sequence::place_of(s, p), sequence::place_of(t, p));
    } else {
        assert(!sequence::held(s, p));
        assert(!sequence::held(t, p));
    }
}

/// Going from parent to parent leads to exactly the ids whose path begins the path
/// that one starts from.
proof fn lemma_climbs(s: Seq<NodeView>, from: IdView, target: IdView, steps: nat)
    requires
        sequence::distinct_ids(s),
        causal(s),
        sequence::known(s, from),
        sequence::known(s, target),
        steps >= path_to(s, from).len(),
    ensures
        sequence::climbs_to(s, from, target, steps) <==> path_to(s, target).is_prefix_of(
            path_to(s, from),
        ),
    decreases steps,
{
    let goal = path_to(s, target);
    let here = path_to(s, from);
    if from == target {
    } else if from == sequence::root_id() {
        assert(!sequence::held(s, from));
        if goal.is_prefix_of(here) {
            assert(goal =~= here);
            lemma_path_injective(s, from, target);
        }
    } else {
        let i = sequence::place_of(s, from);
        lemma_path_shape(s, i);
        let up = path_to(s, s[i].parent);
        assert(here == up.push(from));
        lemma_climbs(s, s[i].parent, target, (steps - 1) as nat);
        if goal.is_prefix_of(here) {
            if goal.len() == here.len() {
                assert(goal =~= here);
                lemma_path_injective(s, from, target);
            } else {
                assert(goal =~= up.take(goal.len() as int));
            }
        }
        if goal.is_prefix_of(up) {
            assert(goal =~= here.take(goal.len() as int));
        }
    }
}

// --- the place of a new element ---

proof fn lemma_slot_stops(s: Seq<NodeView>, id: IdView, parent: IdView, i: int)
    requires
        0 <= i <= s.len(),
    ensures
        ({
            let p = sequence::slot_from(s, id, parent, i);
            &&& i <= p <= s.len()
            &&& forall|k: int| i <= k < p ==> #[trigger] sequence::goes_after(s, k, id, parent)
            &&& p < s.len() ==> !sequence::goes_after(s, p, id, parent)
        }),
    decreases s.len() - i,
{
    if i < s.len() && sequence::goes_after(s, i, id, parent) {
        lemma_slot_stops(s, id, parent, i + 1);
    }
}

/// What comes before the slot comes before the new element's path.
proof fn lemma_before_slot(s: Seq<NodeView>, id: IdView, parent: IdView, i: int)
    requires
        well_built(s),
        !sequence::known(s, id),
        sequence::known(s, parent),
        0 <= i < sequence::slot(s, id, parent),
    ensures
        path_before(path_at(s, i), path_to(s, parent).push(id)),
{
    lemma_higher_first_strict_total();
    let lt = higher_first();
    let above = path_to(s, parent);
    let full = above.push(id);
    let d = above.len() as int;
    let start = sequence::place_behind(s, parent);
    lemma_slot_stops(s, id, parent, start);
    let here = path_at(s, i);
    if i < start {
        if i == start - 1 {
            assert(order::decided_at(here, full, lt, d));
        } else {
            assert(path_before(path_at(s, i), path_at(s, start - 1)));
            let k = choose|k: int| order::decided_at(here, above, lt, k);
            assert(order::decided_at(here, full, lt, k));
        }
    } else {
        assert(sequence::goes_after(s, i, id, parent));
        lemma_path_shape(s, i);
        if s[i].parent == parent {
            assert(order::decided_at(here, full, lt, d));
        } else {
            let up = path_to(s, s[i].parent);
            if s[i].parent != sequence::root_id() {
                lemma_path_shape(s, sequence::place_of(s, s[i].parent));
            }
            lemma_climbs(s, s[i].parent, parent, s.len());
            assert(above.is_prefix_of(up));
            if above.len() == up.len() {
                assert(above =~= up);
                lemma_path_injective(s, s[i].parent, parent);
            }
            assert(d < up.len());
            let j = lemma_path_prefix(s, i, d);
            lemma_path_shape(s, j);
            assert(path_at(s, j) =~= above.push(here[d]));
            assert(path_to(s, s[j].parent) =~= above);
            lemma_path_injective(s, s[j].parent, parent);
            assert(j != i);
            assert(sequence::goes_after(s, j, id, parent));
            assert(order::decided_at(here, full, lt, d));
        }
    }
}

/// What comes after the slot comes after the new element's path.
proof fn lemma_after_slot(s: Seq<NodeView>, id: IdView, parent: IdView, i: int)
    requires
        well_built(s),
        !sequence::known(s, id),
        sequence::known(s, parent),
        sequence::slot(s, id, parent) <= i < s.len(),
    ensures
        path_before(path_to(s, parent).push(id), path_at(s, i)),
{
    lemma_higher_first_strict_total();
    let lt = higher_first();
    let above = path_to(s, parent);
    let full = above.push(id);
    let d = above.len() as int;
    let start = sequence::place_behind(s, parent);
    let p = sequence::slot(s, id, parent);
    lemma_slot_stops(s, id, parent, start);
    lemma_path_shape(s, p);
    let there = path_at(s, p);
    let up = path_to(s, s[p].parent);
    if s[p].parent == parent {
        assert(s[p].id != id);
        assert(lt(id, s[p].id) || lt(s[p].id, id));
        assert(order::decided_at(full, there, lt, d));
    } else {
        if s[p].parent != sequence::root_id() {
            lemma_path_shape(s, sequence::place_of(s, s[p].parent));
        }
        lemma_climbs(s, s[p].parent, parent, s.len());
        assert(!above.is_prefix_of(up));
        if !sequence::held(s, parent) {
            assert(above =~= up.take(0));
        }
        assert(path_before(path_at(s, start - 1), path_at(s, p)));
        let k = choose|k: int| order::decided_at(above, there, lt, k);
        if k == d {
            assert(above =~= up.take(d));
        }
        assert(order::decided_at(full, there, lt, k));
    }
    if p < i {
        assert(path_before(path_at(s, p), path_at(s, i)));
        order::lemma_lex_transitive(full, there, path_at(s, i), lt);
    }
}

/// Inserting an element whose parent is there keeps the sequence well built.
pub proof fn law_insert_keeps_well_built(
    s: Seq<NodeView>,
    n: NodeView,
)
    requires
        well_built(s),
        sequence::known(s, n.parent),
    ensures
        well_built(sequence::placed(s, n)),
{
    if !sequence::known(s, n.id) {
        lemma_insert_causal(s, n);
        let t = sequence::placed(s, n);
        let p = sequence::slot(s, n.id, n.parent);
        assert forall|i: int, j: int| 0 <= i < j < t.len() implies path_before(
            #[trigger] path_at(t, i),
            #[trigger] path_at(t, j),
        ) by {
            lemma_inserted_path(s, n, i);
            lemma_inserted_path(s, n, j);
            if i == p {
                lemma_after_slot(s, n.id, n.parent, j - 1);
            } else if j == p {
                lemma_before_slot(s, n.id, n.parent, i);
            } else {
                let a = if i < p { i } else { i - 1 };
                let b = if j < p { j } else { j - 1 };
                assert(path_before(path_at(s, a), path_at(s, b)));
            }
        }
    }
}

proof fn lemma_insert_causal(s: Seq<NodeView>, n: NodeView)
    requires
        sequence::distinct_ids(s),
        causal(s),
        !sequence::known(s, n.id),
        sequence::known(s, n.parent),
    ensures
        ({
            let t = sequence::placed(s, n);
            let p = sequence::slot(s, n.id, n.parent);
            &&& 0 <= p <= s.len()
            &&& t == s.insert(p, n)
            &&& sequence::distinct_ids(t)
            &&& causal(t)
        }),
{
    sequence::lemma_slot(s, n.id, n.parent);
    sequence::lemma_insert_distinct(s, n);
    let t = sequence::placed(s, n);
    let p = sequence::slot(s, n.id, n.parent);
    assert forall|i: int| 0 <= i < t.len() implies (#[trigger] t[i]).parent == sequence::root_id()
        || (sequence::held(t, t[i].parent) && sequence::place_of(t, t[i].parent) < i) by {
        let up = t[i].parent;
        if up != sequence::root_id() {
            if i == p {
                let q = sequence::place_of(s, n.parent);
                assert(t[q] == s[q]);
                lemma_place(t, q);
            } else {
                let a = if i < p { i } else { i - 1 };
                assert(t[i] == s[a]);
                let q = sequence::place_of(s, up);
                let r = if q < p { q } else { q + 1 };
                assert(t[r] == s[q]);
                lemma_place(t, r);
            }
        }
    }
}

/// The paths after an insert: those of before, and the new one.
proof fn lemma_inserted_path(
    s: Seq<NodeView>,
    n: NodeView,
    i: int,
)
    requires
        sequence::distinct_ids(s),
        causal(s),
        !sequence::known(s, n.id),
        sequence::known(s, n.parent),
        0 <= i <= s.len(),
    ensures
        ({
            let t = sequence::placed(s, n);
            let p = sequence::slot(s, n.id, n.parent);
            &&& i < p ==> path_at(t, i) == path_at(s, i)
            &&& i == p ==> path_at(t, i) == path_to(s, n.parent).push(n.id)
            &&& i > p ==> path_at(t, i) == path_at(s, i - 1)
        }),
{
    lemma_insert_causal(s, n);
    let t = sequence::placed(s, n);
    let p = sequence::slot(s, n.id, n.parent);
    assert forall|a: int, b: int|
        0 <= a < s.len() && 0 <= b < t.len() && (#[trigger] s[a]).id == (#[trigger] t[b]).id implies s[a].parent
        == t[b].parent by {
        if b < p {
            assert(t[b] == s[b]);
        } else if p < b {
            assert(t[b] == s[b - 1]);
        }
    }
    if i < p {
        assert(t[i] == s[i]);
        lemma_same_path(s, t, i, i);
    } else if p < i {
        assert(t[i] == s[i - 1]);
        lemma_same_path(s, t, i - 1, i);
    } else {
        lemma_path_shape(t, p);
        if sequence::held(s, n.parent) {
            let q = sequence::place_of(s, n.parent);
            assert(t[q] == s[q]);
            lemma_place(t, q);
            lemma_same_path(s, t, q, q);
        } else {
            assert(!sequence::held(t, n.parent));
        }
    }
}

/// Deleting an element keeps the sequence well built.
pub proof fn law_delete_keeps_well_built(s: Seq<NodeView>, id: IdView)
    requires
        well_built(s),
    ensures
        well_built(sequence::with_delete(s, id)),
{
    sequence::lemma_delete_distinct(s, id);
    let t = sequence::with_delete(s, id);
    assert(t.len() == s.len());
    assert forall|i: int| 0 <= i < s.len() implies (#[trigger] t[i]).id == s[i].id && t[i].parent
        == s[i].parent by {}
    assert(causal(t)) by {
        assert forall|i: int|
            0 <= i < t.len() implies (#[trigger] t[i]).parent == sequence::root_id() || (
        sequence::held(t, t[i].parent) && sequence::place_of(t, t[i].parent) < i) by {
            let up = s[i].parent;
            if up != sequence::root_id() {
                let q = sequence::place_of(s, up);
                lemma_place(t, q);
            }
        }
    }
    assert forall|i: int, j: int| 0 <= i < j < t.len() implies path_before(
        #[trigger] path_at(t, i),
        #[trigger] path_at(t, j),
    ) by {
        lemma_same_path(s, t, i, i);
        lemma_same_path(s, t, j, j);
        assert(path_before(path_at(s, i), path_at(s, j)));
    }
}

/// The order is deterministic: two well-built sequences that hold the same are the
/// same sequence.
pub proof fn law_order_is_determined(s: Seq<NodeView>, t: Seq<NodeView>)
    requires
        well_built(s),
        well_built(t),
        contents(s) == contents(t),
    ensures
        s == t,
{
    lemma_higher_first_strict_total();
    let lt = higher_first();
    let before = |a: Seq<IdView>, b: Seq<IdView>| path_before(a, b);
    let ps = Seq::new(s.len(), |i: int| path_at(s, i));
    let pt = Seq::new(t.len(), |i: int| path_at(t, i));
    assert forall|x: Seq<IdView>| !#[trigger] before(x, x) by {
        order::lemma_lex_irreflexive(x, lt);
    }
    assert forall|x: Seq<IdView>, y: Seq<IdView>, z: Seq<IdView>| #[trigger]
        before(x, y) && #[trigger] before(y, z) implies before(x, z) by {
        order::lemma_lex_transitive(x, y, z, lt);
    }
    assert forall|i: int, j: int| 0 <= i < j < ps.len() implies before(
        #[trigger] ps[i],
        #[trigger] ps[j],
    ) by {
        assert(path_before(path_at(s, i), path_at(s, j)));
    }
    assert forall|i: int, j: int| 0 <= i < j < pt.len() implies before(
        #[trigger] pt[i],
        #[trigger] pt[j],
    ) by {
        assert(path_before(path_at(t, i), path_at(t, j)));
    }
    lemma_same_parents(s, t);
    lemma_same_parents(t, s);
    assert forall|x: Seq<IdView>| ps.contains(x) implies pt.contains(x) by {
        let i = choose|i: int| 0 <= i < ps.len() && ps[i] == x;
        let j = lemma_counterpart(s, t, i);
        assert(pt[j] == x);
    }
    assert forall|x: Seq<IdView>| pt.contains(x) implies ps.contains(x) by {
        let i = choose|i: int| 0 <= i < pt.len() && pt[i] == x;
        let j = lemma_counterpart(t, s, i);
        assert(ps[j] == x);
    }
    lemma_sorted_same_elements(ps, pt, before);
    assert forall|i: int| 0 <= i < s.len() implies s[i] == t[i] by {
        assert(ps[i] == pt[i]);
        lemma_path_shape(s, i);
        lemma_path_shape(t, i);
        assert(ps[i].last() == s[i].id);
        assert(pt[i].last() == t[i].id);
        lemma_place(s, i);
        lemma_place(t, i);
        assert(contents(s)[s[i].id] == contents(t)[t[i].id]);
    }
    assert(s =~= t);
}

proof fn lemma_same_parents(s: Seq<NodeView>, t: Seq<NodeView>)
    requires
        sequence::distinct_ids(s),
        sequence::distinct_ids(t),
        contents(s) == contents(t),
    ensures
        forall|a: int, b: int|
            0 <= a < s.len() && 0 <= b < t.len() && (#[trigger] s[a]).id == (#[trigger] t[b]).id
                ==> s[a].parent == t[b].parent,
{
    assert forall|a: int, b: int|
        0 <= a < s.len() && 0 <= b < t.len() && (#[trigger] s[a]).id == (#[trigger] t[b]).id implies s[a].parent
        == t[b].parent by {
        lemma_place(s, a);
        lemma_place(t, b);
        assert(contents(s)[s[a].id].parent == s[a].parent);
        assert(contents(t)[t[b].id].parent == t[b].parent);
    }
}

proof fn lemma_counterpart(s: Seq<NodeView>, t: Seq<NodeView>, i: int) -> (j: int)
    requires
        well_built(s),
        well_built(t),
        contents(s) == contents(t),
        0 <= i < s.len(),
    ensures
        0 <= j < t.len(),
        path_at(t, j) == path_at(s, i),
{
    lemma_place(s, i);
    assert(contents(s).contains_key(s[i].id));
    assert(contents(t).contains_key(s[i].id));
    let j = sequence::place_of(t, s[i].id);
    lemma_same_parents(s, t);
    lemma_same_path(s, t, i, j);
    j
}

// --- what changes and merges do to the contents ---

proof fn lemma_insert_contents(s: Seq<NodeView>, n: NodeView)
    requires
        sequence::distinct_ids(s),
    ensures
        contents(sequence::placed(s, n)) == if sequence::known(s, n.id) {
            contents(s)
        } else {
            contents(s).insert(
                n.id,
                Entry { parent: n.parent, value: n.value, tombstone: n.tombstone },
            )
        },
{
    if !sequence::known(s, n.id) {
        sequence::lemma_slot(s, n.id, n.parent);
        sequence::lemma_insert_distinct(s, n);
        let t = sequence::placed(s, n);
        let p = sequence::slot(s, n.id, n.parent);
        let after = contents(s).insert(
                n.id,
                Entry { parent: n.parent, value: n.value, tombstone: n.tombstone },
            );
        assert(t[p].id == n.id);
        lemma_place(t, p);
        assert forall|x: IdView| contents(t).contains_key(x) <==> after.contains_key(x) by {
            if sequence::held(s, x) {
                let q = sequence::place_of(s, x);
                let r = if q < p { q } else { q + 1 };
                assert(t[r] == s[q]);
            }
            if sequence::held(t, x) {
                let r = sequence::place_of(t, x);
                if r < p {
                    assert(t[r] == s[r]);
                } else if p < r {
                    assert(t[r] == s[r - 1]);
                }
            }
        }
        assert forall|x: IdView| contents(t).contains_key(x) implies #[trigger] contents(t)[x]
            == after[x] by {
            if x != n.id {
                assert(contents(s).contains_key(x));
                let q = sequence::place_of(s, x);
                let r = if q < p { q } else { q + 1 };
                assert(t[r] == s[q]);
                lemma_place(t, r);
            }
        }
        assert(contents(t) =~= after);
    }
}

proof fn lemma_delete_contents(s: Seq<NodeView>, id: IdView)
    requires
        sequence::distinct_ids(s),
    ensures
        contents(sequence::with_delete(s, id)) == if sequence::held(s, id) {
            contents(s).insert(id, Entry { tombstone: true, ..contents(s)[id] })
        } else {
            contents(s)
        },
{
    if sequence::held(s, id) {
        sequence::lemma_delete_distinct(s, id);
        let t = sequence::with_delete(s, id);
        let after = contents(s).insert(id, Entry { tombstone: true, ..contents(s)[id] });
        assert forall|i: int| 0 <= i < s.len() implies (#[trigger] t[i]).id == s[i].id by {}
        assert forall|x: IdView| contents(t).contains_key(x) <==> after.contains_key(x) by {
            if sequence::held(s, x) {
                assert(t[sequence::place_of(s, x)].id == x);
            }
            if sequence::held(t, x) {
                assert(s[sequence::place_of(t, x)].id == x);
            }
        }
        assert forall|x: IdView| contents(t).contains_key(x) implies #[trigger] contents(t)[x]
            == after[x] by {
            let q = sequence::place_of(s, x);
            assert(s[q].id == x);
            lemma_place(t, q);
        }
        assert(contents(t) =~= after);
    }
}

// --- what changes do to the record ---

/// No id stands for the root, and there are finitely many.
pub open spec fn proper(r: Record) -> bool {
    &&& r.inserted.dom().finite()
    &&& r.deleted.finite()
    &&& !r.inserted.contains_key(sequence::root_id())
    &&& !r.deleted.contains(sequence::root_id())
}

pub(crate) proof fn lemma_empty_is_sound()
    ensures
        sound(sequence::empty_sequence()),
        record(sequence::empty_sequence()).inserted == Map::<IdView, Insertion>::empty(),
        record(sequence::empty_sequence()).deleted == Set::<IdView>::empty(),
{
    let s = sequence::empty_sequence();
    assert(record(s).inserted =~= Map::<IdView, Insertion>::empty());
    assert(record(s).deleted =~= Set::<IdView>::empty());
}

/// A waiting element that gets its place changes nothing of what was received.
pub(crate) proof fn lemma_let_in(s: SequenceView, id: IdView)
    requires
        orderly(s),
        sequence::ready(s, id),
    ensures
        orderly(sequence::let_in(s, id)),
        record(sequence::let_in(s, id)) == record(s),
        sequence::let_in(s, id).waiting.len() < s.waiting.len(),
{
    let t = sequence::let_in(s, id);
    let n = s.waiting[id];
    law_insert_keeps_well_built(s.nodes, n);
    lemma_insert_contents(s.nodes, n);
    assert forall|x: IdView| #[trigger]
        sequence::held(t.nodes, x) <==> sequence::held(s.nodes, x) || x == id by {
        assert(sequence::held(t.nodes, x) == contents(t.nodes).contains_key(x));
        assert(sequence::held(s.nodes, x) == contents(s.nodes).contains_key(x));
    }
    assert forall|x: IdView| #[trigger] sequence::has(t, x) == sequence::has(s, x) by {}
    assert forall|x: IdView| sequence::has(s, x) implies #[trigger] entry_of(t, x) == entry_of(
        s,
        x,
    ) by {
        assert(sequence::held(s.nodes, x) == contents(s.nodes).contains_key(x));
    }
    assert(record(t).inserted =~= record(s).inserted);
    assert(record(t).deleted =~= record(s).deleted);
    assert forall|x: IdView| #[trigger] t.waiting.contains_key(x) implies t.waiting[x].id == x
        && !sequence::known(t.nodes, x) by {
        assert(s.waiting.contains_key(x));
    }
    assert forall|x: IdView| #[trigger] t.gone.contains(x) implies x != sequence::root_id()
        && !sequence::has(t, x) by {
        assert(s.gone.contains(x));
    }
}

/// Giving the waiting elements their places makes a sequence sound and changes nothing of
/// what was received.
pub(crate) proof fn lemma_settled(s: SequenceView)
    requires
        orderly(s),
    ensures
        sound(sequence::settled(s)),
        record(sequence::settled(s)) == record(s),
    decreases s.waiting.len(),
{
    if exists|id: IdView| sequence::ready(s, id) {
        let id = choose|id: IdView| sequence::ready(s, id);
        lemma_let_in(s, id);
        lemma_settled(sequence::let_in(s, id));
    }
}

/// The record with an insert.
pub open spec fn with_insertion(r: Record, id: IdView, insertion: Insertion) -> Record {
    if id == sequence::root_id() || r.inserted.contains_key(id) {
        r
    } else {
        Record { inserted: r.inserted.insert(id, insertion), deleted: r.deleted }
    }
}

/// The record with a deletion.
pub open spec fn with_deletion(r: Record, id: IdView) -> Record {
    if id == sequence::root_id() {
        r
    } else {
        Record { inserted: r.inserted, deleted: r.deleted.insert(id) }
    }
}

pub(crate) proof fn lemma_insert_is_orderly(s: SequenceView, n: NodeView)
    requires
        sound(s),
        n.id != sequence::root_id(),
        !sequence::has(s, n.id),
        sequence::known(s.nodes, n.parent),
        !n.tombstone,
    ensures
        ({
            let node = NodeView { tombstone: s.gone.contains(n.id), ..n };
            let t = SequenceView {
                nodes: sequence::placed(s.nodes, node),
                waiting: s.waiting,
                gone: s.gone.remove(n.id),
            };
            &&& orderly(t)
            &&& record(t) == with_insertion(
                record(s),
                n.id,
                Insertion { parent: n.parent, value: n.value },
            )
        }),
{
    let node = NodeView { tombstone: s.gone.contains(n.id), ..n };
    let t = SequenceView {
        nodes: sequence::placed(s.nodes, node),
        waiting: s.waiting,
        gone: s.gone.remove(n.id),
    };
    let after = with_insertion(record(s), n.id, Insertion { parent: n.parent, value: n.value });
    law_insert_keeps_well_built(s.nodes, node);
    lemma_insert_contents(s.nodes, node);
    assert forall|x: IdView| #[trigger]
        sequence::held(t.nodes, x) <==> sequence::held(s.nodes, x) || x == n.id by {
        assert(sequence::held(t.nodes, x) == contents(t.nodes).contains_key(x));
        assert(sequence::held(s.nodes, x) == contents(s.nodes).contains_key(x));
    }
    assert forall|x: IdView| #[trigger] sequence::has(t, x) <==> sequence::has(s, x) || x
        == n.id by {}
    assert forall|x: IdView| sequence::has(s, x) implies #[trigger] entry_of(t, x) == entry_of(
        s,
        x,
    ) by {
        assert(sequence::held(s.nodes, x) == contents(s.nodes).contains_key(x));
    }
    assert(entry_of(t, n.id) == (Entry {
        parent: n.parent,
        value: n.value,
        tombstone: node.tombstone,
    }));
    assert(record(t).inserted =~= after.inserted);
    assert(record(t).deleted =~= after.deleted);
    assert forall|x: IdView| #[trigger] t.waiting.contains_key(x) implies t.waiting[x].id == x
        && !sequence::known(t.nodes, x) by {
        assert(s.waiting.contains_key(x));
    }
    assert forall|x: IdView| #[trigger] t.gone.contains(x) implies x != sequence::root_id()
        && !sequence::has(t, x) by {
        assert(s.gone.contains(x));
    }
}

/// An insert leaves a sequence sound, and adds one insert to what it has received.
pub proof fn law_insert_is_recorded(s: SequenceView, n: NodeView)
    requires
        sound(s),
        !n.tombstone,
    ensures
        sound(sequence::with_insert(s, n)),
        record(sequence::with_insert(s, n)) == with_insertion(
            record(s),
            n.id,
            Insertion { parent: n.parent, value: n.value },
        ),
{
    let t = sequence::with_insert(s, n);
    let after = with_insertion(record(s), n.id, Insertion { parent: n.parent, value: n.value });
    if n.id != sequence::root_id() && !sequence::has(s, n.id) {
        let node = NodeView { tombstone: s.gone.contains(n.id), ..n };
        if sequence::known(s.nodes, n.parent) {
            lemma_insert_is_orderly(s, n);
            lemma_settled(
                SequenceView {
                    nodes: sequence::placed(s.nodes, node),
                    waiting: s.waiting,
                    gone: s.gone.remove(n.id),
                },
            );
        } else {
            assert forall|x: IdView| #[trigger] sequence::has(t, x) <==> sequence::has(s, x) || x
                == n.id by {}
            assert forall|x: IdView| sequence::has(s, x) implies #[trigger] entry_of(t, x)
                == entry_of(s, x) by {}
            assert(record(t).inserted =~= after.inserted);
            assert(record(t).deleted =~= after.deleted);
            assert forall|x: IdView| #[trigger] t.waiting.contains_key(x) implies t.waiting[x].id
                == x && !sequence::known(t.nodes, x) by {
                if x != n.id {
                    assert(s.waiting.contains_key(x));
                }
            }
            assert forall|x: IdView| #[trigger] t.gone.contains(x) implies x
                != sequence::root_id() && !sequence::has(t, x) by {
                assert(s.gone.contains(x));
            }
            assert forall|x: IdView| !#[trigger] sequence::ready(t, x) by {
                assert(!sequence::ready(s, x));
            }
        }
    }
}

/// A deletion leaves a sequence sound, and adds one deletion to what it has received.
pub proof fn law_delete_is_recorded(s: SequenceView, id: IdView)
    requires
        sound(s),
    ensures
        sound(sequence::without(s, id)),
        record(sequence::without(s, id)) == with_deletion(record(s), id),
{
    let t = sequence::without(s, id);
    let after = with_deletion(record(s), id);
    if id != sequence::root_id() {
        if sequence::held(s.nodes, id) {
            law_delete_keeps_well_built(s.nodes, id);
            lemma_delete_contents(s.nodes, id);
            assert(contents(s.nodes).contains_key(id));
        }
        assert forall|x: IdView| #[trigger]
            sequence::held(t.nodes, x) <==> sequence::held(s.nodes, x) by {
            assert(sequence::held(t.nodes, x) == contents(t.nodes).contains_key(x));
            assert(sequence::held(s.nodes, x) == contents(s.nodes).contains_key(x));
        }
        assert forall|x: IdView| #[trigger] sequence::has(t, x) <==> sequence::has(s, x) by {}
        assert forall|x: IdView| sequence::has(s, x) implies #[trigger] entry_of(t, x) == (Entry {
            tombstone: entry_of(s, x).tombstone || x == id,
            ..entry_of(s, x)
        }) by {
            assert(sequence::held(s.nodes, x) == contents(s.nodes).contains_key(x));
        }
        assert(record(t).inserted =~= after.inserted);
        assert(record(t).deleted =~= after.deleted);
        assert forall|x: IdView| #[trigger] t.waiting.contains_key(x) implies t.waiting[x].id == x
            && !sequence::known(t.nodes, x) by {
            assert(s.waiting.contains_key(x));
        }
        assert forall|x: IdView| #[trigger] t.gone.contains(x) implies x != sequence::root_id()
            && !sequence::has(t, x) by {
            assert(s.gone.contains(x) || x == id);
        }
        assert forall|x: IdView| !#[trigger] sequence::ready(t, x) by {
            assert(!sequence::ready(s, x));
        }
    }
}

/// The record after a change.
pub open spec fn record_apply(r: Record, op: SequenceOpView) -> Record {
    match op {
        SequenceOpView::Insert { id, parent, value } => with_insertion(
            r,
            id,
            Insertion { parent, value },
        ),
        SequenceOpView::Delete { id } => with_deletion(r, id),
    }
}

/// A change leaves a sequence sound, and is added to what it has received.
pub proof fn law_change_is_recorded(s: SequenceView, op: SequenceOpView)
    requires
        sound(s),
    ensures
        sound(sequence::sequence_apply(s, op)),
        record(sequence::sequence_apply(s, op)) == record_apply(record(s), op),
{
    match op {
        SequenceOpView::Insert { id, parent, value } => {
            law_insert_is_recorded(s, NodeView { id, parent, value, tombstone: false });
        },
        SequenceOpView::Delete { id } => {
            law_delete_is_recorded(s, id);
        },
    }
}

// --- what was received determines the sequence ---

proof fn lemma_same_places(a: SequenceView, b: SequenceView, i: int)
    requires
        sound(a),
        sound(b),
        record(a) == record(b),
        0 <= i < a.nodes.len(),
    ensures
        sequence::held(b.nodes, a.nodes[i].id),
    decreases i,
{
    let n = a.nodes[i];
    lemma_place(a.nodes, i);
    assert(sequence::has(a, n.id));
    assert(record(a).inserted.contains_key(n.id));
    assert(record(b).inserted.contains_key(n.id));
    assert(sequence::has(b, n.id));
    assert(record(a).inserted[n.id].parent == n.parent);
    assert(record(b).inserted[n.id].parent == entry_of(b, n.id).parent);
    if n.parent != sequence::root_id() {
        let q = sequence::place_of(a.nodes, n.parent);
        assert(a.nodes[q].id == n.parent);
        lemma_same_places(a, b, q);
    }
    if !sequence::held(b.nodes, n.id) {
        assert(sequence::ready(b, n.id));
    }
}

proof fn lemma_inserted(s: SequenceView, id: IdView)
    ensures
        record(s).inserted.contains_key(id) == sequence::has(s, id),
        sequence::has(s, id) ==> record(s).inserted[id].parent == entry_of(s, id).parent
            && record(s).inserted[id].value == entry_of(s, id).value,
{
}

proof fn lemma_deleted(s: SequenceView, id: IdView)
    requires
        sound(s),
    ensures
        record(s).deleted.contains(id) <==> if sequence::has(s, id) {
            entry_of(s, id).tombstone
        } else {
            s.gone.contains(id)
        },
        s.gone.contains(id) ==> !sequence::has(s, id),
{
}

/// What a sequence has received determines it: two sequences that have received the same
/// inserts and deletions are the same, in their order, in what waits and in what is gone.
pub proof fn law_record_determines(a: SequenceView, b: SequenceView)
    requires
        sound(a),
        sound(b),
        record(a) == record(b),
    ensures
        a == b,
{
    assert forall|x: IdView| #[trigger] sequence::has(a, x) <==> sequence::has(b, x) by {
        assert(record(a).inserted.contains_key(x) == sequence::has(a, x));
        assert(record(b).inserted.contains_key(x) == sequence::has(b, x));
    }
    assert forall|x: IdView| #[trigger]
        sequence::held(a.nodes, x) <==> sequence::held(b.nodes, x) by {
        if sequence::held(a.nodes, x) {
            lemma_same_places(a, b, sequence::place_of(a.nodes, x));
        }
        if sequence::held(b.nodes, x) {
            lemma_same_places(b, a, sequence::place_of(b.nodes, x));
        }
    }
    assert forall|x: IdView| #[trigger] sequence::has(a, x) implies entry_of(a, x) == entry_of(
        b,
        x,
    ) by {
        lemma_inserted(a, x);
        lemma_inserted(b, x);
        lemma_deleted(a, x);
        lemma_deleted(b, x);
    }
    assert forall|x: IdView| contents(a.nodes).contains_key(x) implies #[trigger] contents(
        a.nodes,
    )[x] == contents(b.nodes)[x] by {
        assert(sequence::has(a, x));
        assert(sequence::held(a.nodes, x));
        assert(entry_of(a, x) == contents(a.nodes)[x]);
        assert(entry_of(b, x) == contents(b.nodes)[x]);
    }
    assert(contents(a.nodes) =~= contents(b.nodes));
    law_order_is_determined(a.nodes, b.nodes);
    assert forall|x: IdView| #[trigger] a.waiting.contains_key(x) <==> b.waiting.contains_key(x) by {
        assert(sequence::has(a, x) == sequence::has(b, x));
        assert(sequence::held(a.nodes, x) == sequence::held(b.nodes, x));
    }
    assert forall|x: IdView| a.waiting.contains_key(x) implies #[trigger] a.waiting[x]
        == b.waiting[x] by {
        assert(sequence::has(a, x));
        assert(!sequence::known(a.nodes, x));
        assert(b.waiting.contains_key(x));
        assert(!sequence::known(b.nodes, x));
        assert(entry_of(a, x) == entry_of(b, x));
    }
    assert(a.waiting =~= b.waiting);
    assert forall|x: IdView| a.gone.contains(x) <==> b.gone.contains(x) by {
        lemma_deleted(a, x);
        lemma_deleted(b, x);
        assert(sequence::has(a, x) == sequence::has(b, x));
    }
    assert(a.gone =~= b.gone);
}

proof fn lemma_record_is_proper(s: SequenceView)
    requires
        sound(s),
    ensures
        proper(record(s)),
{
    let r = record(s);
    let ids = s.nodes.map_values(|n: NodeView| n.id).to_set();
    let all = ids.union(s.waiting.dom());
    assert forall|x: IdView| r.inserted.dom().contains(x) implies all.contains(x) by {
        if sequence::held(s.nodes, x) {
            let i = sequence::place_of(s.nodes, x);
            assert(s.nodes.map_values(|n: NodeView| n.id)[i] == x);
        }
    }
    vstd::set_lib::lemma_len_subset(r.inserted.dom(), all);
    let most = s.gone.union(r.inserted.dom());
    assert forall|x: IdView| r.deleted.contains(x) implies most.contains(x) by {}
    vstd::set_lib::lemma_len_subset(r.deleted, most);
    assert(!sequence::held(s.nodes, sequence::root_id()));
    if s.waiting.contains_key(sequence::root_id()) {
        assert(!sequence::known(s.nodes, sequence::root_id()));
    }
    if s.gone.contains(sequence::root_id()) {
        assert(sequence::root_id() != sequence::root_id());
    }
}

/// Whatever finitely many inserts and deletions are received, there is a sequence that
/// has received them.
pub proof fn law_arrangement_exists(r: Record)
    requires
        proper(r),
    ensures
        sound(arranged(r)),
        record(arranged(r)) == r,
    decreases r.inserted.len() + r.deleted.len(),
{
    if r.deleted.len() > 0 {
        let id = r.deleted.choose();
        let less = Record { inserted: r.inserted, deleted: r.deleted.remove(id) };
        law_arrangement_exists(less);
        let s = arranged(less);
        law_delete_is_recorded(s, id);
        let t = sequence::without(s, id);
        assert(less.deleted.insert(id) =~= r.deleted);
        assert(record(t) == r);
    } else if r.inserted.len() > 0 {
        let id = r.inserted.dom().choose();
        let less = Record { inserted: r.inserted.remove(id), deleted: r.deleted };
        law_arrangement_exists(less);
        let s = arranged(less);
        let n = NodeView {
            id,
            parent: r.inserted[id].parent,
            value: r.inserted[id].value,
            tombstone: false,
        };
        law_insert_is_recorded(s, n);
        let t = sequence::with_insert(s, n);
        assert(less.inserted.insert(id, r.inserted[id]) =~= r.inserted);
        assert(record(t) == r);
    } else {
        let s = sequence::empty_sequence();
        lemma_empty_is_sound();
        assert(r.deleted =~= Set::<IdView>::empty());
        assert(r.inserted.dom() =~= Set::<IdView>::empty());
        assert(r.inserted =~= Map::<IdView, Insertion>::empty());
        assert(record(s) == r);
    }
}

/// A sequence is the arrangement of what it has received.
proof fn lemma_arranged_again(s: SequenceView)
    requires
        sound(s),
    ensures
        arranged(record(s)) == s,
{
    let t = arranged(record(s));
    assert(sound(t) && record(t) == record(s));
    law_record_determines(s, t);
}

// --- merging ---

/// Merging loses nothing: the merged sequence has received what either replica has, and
/// is sound.
pub proof fn law_merge_joins(a: SequenceView, b: SequenceView)
    requires
        sound(a),
        sound(b),
    ensures
        sound(sequence::sequence_merge(a, b)),
        record(sequence::sequence_merge(a, b)) == joined(record(a), record(b)),
{
    lemma_record_is_proper(a);
    lemma_record_is_proper(b);
    let r = joined(record(a), record(b));
    assert(r.inserted.dom() =~= record(a).inserted.dom().union(record(b).inserted.dom()));
    law_arrangement_exists(r);
}

/// Merging is commutative: two replicas that merge each other hold the same sequence.
pub proof fn law_merge_commutative(a: SequenceView, b: SequenceView)
    requires
        records_agree(record(a), record(b)),
    ensures
        sequence::sequence_merge(a, b) == sequence::sequence_merge(b, a),
{
    let x = joined(record(a), record(b));
    let y = joined(record(b), record(a));
    assert(x.inserted =~= y.inserted);
    assert(x.deleted =~= y.deleted);
}

/// Merging is associative.
pub proof fn law_merge_associative(a: SequenceView, b: SequenceView, c: SequenceView)
    requires
        sound(a),
        sound(b),
        sound(c),
    ensures
        sequence::sequence_merge(sequence::sequence_merge(a, b), c) == sequence::sequence_merge(
            a,
            sequence::sequence_merge(b, c),
        ),
{
    law_merge_joins(a, b);
    law_merge_joins(b, c);
    let x = joined(joined(record(a), record(b)), record(c));
    let y = joined(record(a), joined(record(b), record(c)));
    assert(x.inserted =~= y.inserted);
    assert(x.deleted =~= y.deleted);
}

/// Merging a sequence with itself changes nothing, nor does merging the same replica
/// twice.
pub proof fn law_merge_idempotent(a: SequenceView, b: SequenceView)
    requires
        sound(a),
        sound(b),
    ensures
        sequence::sequence_merge(a, a) == a,
        sequence::sequence_merge(sequence::sequence_merge(a, b), b) == sequence::sequence_merge(
            a,
            b,
        ),
{
    let ab = sequence::sequence_merge(a, b);
    law_merge_joins(a, b);
    let x = joined(record(a), record(a));
    assert(x.inserted =~= record(a).inserted);
    assert(x.deleted =~= record(a).deleted);
    lemma_arranged_again(a);
    let y = joined(record(ab), record(b));
    assert(y.inserted =~= record(ab).inserted);
    assert(y.deleted =~= record(ab).deleted);
    lemma_arranged_again(ab);
}

/// A sequence that has received nothing adds nothing.
pub proof fn law_merge_with_empty(a: SequenceView)
    requires
        sound(a),
    ensures
        sequence::sequence_merge(a, sequence::empty_sequence()) == a,
        sequence::sequence_merge(sequence::empty_sequence(), a) == a,
{
    lemma_empty_is_sound();
    let none = record(sequence::empty_sequence());
    let x = joined(record(a), none);
    let y = joined(none, record(a));
    assert(x.inserted =~= record(a).inserted);
    assert(x.deleted =~= record(a).deleted);
    assert(y.inserted =~= record(a).inserted);
    assert(y.deleted =~= record(a).deleted);
    lemma_arranged_again(a);
}

// --- replaying changes ---

/// The sequence after a list of changes.
pub open spec fn replay(s: SequenceView, ops: Seq<SequenceOpView>) -> SequenceView
    decreases ops.len(),
{
    if ops.len() == 0 {
        s
    } else {
        sequence::sequence_apply(replay(s, ops.drop_last()), ops.last())
    }
}

/// `op` inserts the element `id`.
pub open spec fn inserts(op: SequenceOpView, id: IdView) -> bool {
    op matches SequenceOpView::Insert { id: i, .. } && i == id
}

/// An id names one insert among the changes.
pub open spec fn inserts_agree(ops: Set<SequenceOpView>) -> bool {
    forall|x: SequenceOpView, y: SequenceOpView, id: IdView|
        #![trigger ops.contains(x), ops.contains(y), inserts(x, id)]
        ops.contains(x) && ops.contains(y) && inserts(x, id) && inserts(y, id) ==> x == y
}

/// The element `id` is inserted by one of the changes.
pub open spec fn is_inserted(ops: Set<SequenceOpView>, id: IdView) -> bool {
    exists|x: SequenceOpView| ops.contains(x) && inserts(x, id)
}

/// What one of the changes says of the element `id`.
pub open spec fn insertion_of(ops: Set<SequenceOpView>, id: IdView) -> Insertion {
    let x = choose|x: SequenceOpView| ops.contains(x) && inserts(x, id);
    Insertion { parent: x->Insert_parent, value: x->Insert_value }
}

/// What has been received after a set of changes.
pub open spec fn replayed(r: Record, ops: Set<SequenceOpView>) -> Record {
    Record {
        inserted: Map::new(
            |id: IdView|
                r.inserted.contains_key(id) || (id != sequence::root_id() && is_inserted(ops, id)),
            |id: IdView|
                if r.inserted.contains_key(id) {
                    r.inserted[id]
                } else {
                    insertion_of(ops, id)
                },
        ),
        deleted: Set::new(
            |id: IdView|
                r.deleted.contains(id) || (id != sequence::root_id() && ops.contains(
                    SequenceOpView::Delete { id },
                )),
        ),
    }
}

/// Replaying changes keeps the sequence sound, and what it then has received is a
/// function of the set of changes.
pub proof fn law_replay_is_recorded(s: SequenceView, ops: Seq<SequenceOpView>)
    requires
        sound(s),
        inserts_agree(ops.to_set()),
    ensures
        sound(replay(s, ops)),
        record(replay(s, ops)) == replayed(record(s), ops.to_set()),
    decreases ops.len(),
{
    let r = record(s);
    let all = ops.to_set();
    let now = replayed(r, all);
    if ops.len() == 0 {
        assert forall|x: SequenceOpView| !all.contains(x) by {}
        assert(now.inserted =~= r.inserted);
        assert(now.deleted =~= r.deleted);
    } else {
        let op = ops.last();
        let front = ops.drop_last();
        let some = front.to_set();
        let t = replay(s, front);
        lemma_last_op(ops);
        assert(inserts_agree(some)) by {
            assert forall|x: SequenceOpView, y: SequenceOpView, id: IdView|
                #![trigger some.contains(x), some.contains(y), inserts(x, id)]
                some.contains(x) && some.contains(y) && inserts(x, id) && inserts(
                    y,
                    id,
                ) implies x == y by {
                assert(all.contains(x) && all.contains(y));
            }
        }
        law_replay_is_recorded(s, front);
        law_change_is_recorded(t, op);
        let was = replayed(r, some);
        let left = record_apply(was, op);
        assert(all.contains(op));
        assert forall|id: IdView| is_inserted(all, id) <==> #[trigger] is_inserted(some, id)
            || inserts(op, id) by {
            if is_inserted(some, id) {
                let x = choose|x: SequenceOpView| some.contains(x) && inserts(x, id);
                assert(all.contains(x));
            }
            if is_inserted(all, id) {
                let x = choose|x: SequenceOpView| all.contains(x) && inserts(x, id);
                if x != op {
                    assert(some.contains(x));
                }
            }
        }
        assert forall|id: IdView| #[trigger]
            left.inserted.contains_key(id) <==> now.inserted.contains_key(id) by {
            assert(is_inserted(all, id) <==> is_inserted(some, id) || inserts(op, id));
        }
        assert forall|id: IdView| left.inserted.contains_key(id) implies #[trigger] left.inserted[id]
            == now.inserted[id] by {
            assert(is_inserted(all, id) <==> is_inserted(some, id) || inserts(op, id));
            if !r.inserted.contains_key(id) {
                let y = choose|y: SequenceOpView| all.contains(y) && inserts(y, id);
                assert(all.contains(y) && inserts(y, id));
                if is_inserted(some, id) {
                    let x = choose|x: SequenceOpView| some.contains(x) && inserts(x, id);
                    assert(some.contains(x) && inserts(x, id));
                    assert(all.contains(x));
                    assert(x == y);
                } else {
                    assert(y == op);
                }
            }
        }
        assert(left.inserted =~= now.inserted);
        assert(left.deleted =~= now.deleted);
    }
}

proof fn lemma_last_op(ops: Seq<SequenceOpView>)
    requires
        ops.len() > 0,
    ensures
        forall|x: SequenceOpView| #[trigger]
            ops.to_set().contains(x) <==> x == ops.last() || ops.drop_last().to_set().contains(x),
{
    let front = ops.drop_last();
    assert forall|x: SequenceOpView| #[trigger] ops.to_set().contains(x) <==> x == ops.last()
        || front.to_set().contains(x) by {
        if ops.contains(x) {
            let i = choose|i: int| 0 <= i < ops.len() && ops[i] == x;
            if i < front.len() {
                assert(front[i] == x);
            }
        }
        if front.contains(x) {
            let i = choose|i: int| 0 <= i < front.len() && front[i] == x;
            assert(ops[i] == x);
        }
        assert(ops[ops.len() - 1] == ops.last());
    }
}

/// Replicas converge: two replicas that start from the same sequence and apply the same
/// changes, each in an order of its own, hold the same sequence. An id has to name one
/// insert.
pub proof fn law_replay_order_independent(
    s: SequenceView,
    ops: Seq<SequenceOpView>,
    others: Seq<SequenceOpView>,
)
    requires
        sound(s),
        ops.to_set() == others.to_set(),
        inserts_agree(ops.to_set()),
    ensures
        replay(s, ops) == replay(s, others),
{
    law_replay_is_recorded(s, ops);
    law_replay_is_recorded(s, others);
    law_record_determines(replay(s, ops), replay(s, others));
}

// --- telling what was received ---

/// A change that says nothing but what was received.
pub open spec fn is_told_by(op: SequenceOpView, r: Record) -> bool {
    match op {
        SequenceOpView::Insert { id, parent, value } => r.inserted.contains_key(id)
            && r.inserted[id] == (Insertion { parent, value }),
        SequenceOpView::Delete { id } => r.deleted.contains(id),
    }
}

/// Changes that say nothing but what was received.
pub open spec fn tells_only(ops: Seq<SequenceOpView>, r: Record) -> bool {
    forall|x: SequenceOpView| #[trigger] ops.contains(x) ==> is_told_by(x, r)
}

/// Changes that say exactly what was received.
pub open spec fn tells_all(ops: Seq<SequenceOpView>, r: Record) -> bool {
    &&& tells_only(ops, r)
    &&& forall|id: IdView| #[trigger]
        r.inserted.contains_key(id) ==> ops.contains(
            SequenceOpView::Insert {
                id,
                parent: r.inserted[id].parent,
                value: r.inserted[id].value,
            },
        )
    &&& forall|id: IdView| #[trigger]
        r.deleted.contains(id) ==> ops.contains(SequenceOpView::Delete { id })
}

/// The changes tell of an element and, if it is deleted, of its deletion.
pub open spec fn tells_of(ops: Seq<SequenceOpView>, n: NodeView) -> bool {
    &&& ops.contains(SequenceOpView::Insert { id: n.id, parent: n.parent, value: n.value })
    &&& n.tombstone ==> ops.contains(SequenceOpView::Delete { id: n.id })
}

/// The element and, if it is deleted, its deletion have been received.
pub open spec fn is_recorded(r: Record, n: NodeView) -> bool {
    &&& r.inserted.contains_key(n.id)
    &&& r.inserted[n.id] == (Insertion { parent: n.parent, value: n.value })
    &&& n.tombstone ==> r.deleted.contains(n.id)
}

pub(crate) proof fn lemma_node_is_recorded(s: SequenceView, i: int)
    requires
        sound(s),
        0 <= i < s.nodes.len(),
    ensures
        is_recorded(record(s), s.nodes[i]),
{
    lemma_place(s.nodes, i);
    assert(sequence::has(s, s.nodes[i].id));
}

pub(crate) proof fn lemma_waiting_is_recorded(s: SequenceView, id: IdView)
    requires
        sound(s),
        s.waiting.contains_key(id),
    ensures
        is_recorded(record(s), s.waiting[id]),
{
    assert(sequence::has(s, id));
    assert(!sequence::known(s.nodes, id));
}

pub(crate) proof fn lemma_tell_more(ops: Seq<SequenceOpView>, op: SequenceOpView, r: Record)
    requires
        tells_only(ops, r),
        is_told_by(op, r),
    ensures
        tells_only(ops.push(op), r),
        ops.push(op).contains(op),
        forall|x: SequenceOpView| #[trigger] ops.contains(x) ==> ops.push(op).contains(x),
{
    let more = ops.push(op);
    assert(more[ops.len() as int] == op);
    assert forall|x: SequenceOpView| #[trigger] ops.contains(x) implies more.contains(x) by {
        assert(more[ops.index_of(x)] == x);
    }
    assert forall|x: SequenceOpView| #[trigger] more.contains(x) implies is_told_by(x, r) by {
        let i = more.index_of(x);
        if i < ops.len() {
            assert(ops[i] == x);
            assert(ops.contains(x));
        }
    }
}

pub(crate) proof fn lemma_all_is_told(s: SequenceView, ops: Seq<SequenceOpView>)
    requires
        sound(s),
        tells_only(ops, record(s)),
        forall|i: int| 0 <= i < s.nodes.len() ==> tells_of(ops, #[trigger] s.nodes[i]),
        forall|id: IdView| #[trigger]
            s.waiting.contains_key(id) ==> tells_of(ops, s.waiting[id]),
        forall|id: IdView| #[trigger]
            s.gone.contains(id) ==> ops.contains(SequenceOpView::Delete { id }),
    ensures
        tells_all(ops, record(s)),
{
    let r = record(s);
    assert forall|id: IdView| #[trigger] r.inserted.contains_key(id) implies ops.contains(
        SequenceOpView::Insert { id, parent: r.inserted[id].parent, value: r.inserted[id].value },
    ) && (entry_of(s, id).tombstone ==> ops.contains(SequenceOpView::Delete { id })) by {
        assert(sequence::has(s, id));
        if sequence::held(s.nodes, id) {
            let i = sequence::place_of(s.nodes, id);
            assert(tells_of(ops, s.nodes[i]));
        } else {
            assert(s.waiting.contains_key(id));
            assert(s.waiting[id].id == id);
        }
    }
    assert forall|id: IdView| #[trigger] r.deleted.contains(id) implies ops.contains(
        SequenceOpView::Delete { id },
    ) by {
        if !s.gone.contains(id) {
            assert(r.inserted.contains_key(id));
        }
    }
}

/// Changes that tell all that a replica has received do what a merge does.
pub proof fn law_changes_do_what_a_merge_does(
    s: SequenceView,
    other: SequenceView,
    ops: Seq<SequenceOpView>,
)
    requires
        sound(s),
        sound(other),
        tells_all(ops, record(other)),
    ensures
        sound(replay(s, ops)),
        replay(s, ops) == sequence::sequence_merge(s, other),
{
    let r = record(other);
    let all = ops.to_set();
    assert forall|x: SequenceOpView| all.contains(x) == #[trigger] ops.contains(x) by {}
    assert(inserts_agree(all)) by {
        assert forall|x: SequenceOpView, y: SequenceOpView, id: IdView|
            #![trigger all.contains(x), all.contains(y), inserts(x, id)]
            all.contains(x) && all.contains(y) && inserts(x, id) && inserts(
                y,
                id,
            ) implies x == y by {
            assert(ops.contains(x) && ops.contains(y));
            assert(is_told_by(x, r) && is_told_by(y, r));
        }
    }
    law_replay_is_recorded(s, ops);
    law_merge_joins(s, other);
    lemma_record_is_proper(other);
    let a = replayed(record(s), all);
    let b = joined(record(s), r);
    assert forall|id: IdView| #[trigger] is_inserted(all, id) == r.inserted.contains_key(id) by {
        if is_inserted(all, id) {
            let x = choose|x: SequenceOpView| all.contains(x) && inserts(x, id);
            assert(ops.contains(x));
            assert(is_told_by(x, r));
        }
        if r.inserted.contains_key(id) {
            let x = SequenceOpView::Insert {
                id,
                parent: r.inserted[id].parent,
                value: r.inserted[id].value,
            };
            assert(all.contains(x) && inserts(x, id));
        }
    }
    assert forall|id: IdView| #[trigger]
        a.inserted.contains_key(id) <==> b.inserted.contains_key(id) by {
        assert(is_inserted(all, id) == r.inserted.contains_key(id));
    }
    assert forall|id: IdView| a.inserted.contains_key(id) implies #[trigger] a.inserted[id]
        == b.inserted[id] by {
        assert(is_inserted(all, id) == r.inserted.contains_key(id));
        if !record(s).inserted.contains_key(id) {
            let x = choose|x: SequenceOpView| all.contains(x) && inserts(x, id);
            assert(all.contains(x) && inserts(x, id));
            assert(ops.contains(x));
            assert(is_told_by(x, r));
        }
    }
    assert(a.inserted =~= b.inserted);
    assert forall|id: IdView| a.deleted.contains(id) <==> b.deleted.contains(id) by {
        let x = SequenceOpView::Delete { id };
        if ops.contains(x) {
            assert(is_told_by(x, r));
        }
    }
    assert(a.deleted =~= b.deleted);
    law_record_determines(replay(s, ops), sequence::sequence_merge(s, other));
}

/// Changes that tell all that a sequence has received make the same sequence of an empty
/// one.
pub proof fn law_changes_rebuild(s: SequenceView, ops: Seq<SequenceOpView>)
    requires
        sound(s),
        tells_all(ops, record(s)),
    ensures
        replay(sequence::empty_sequence(), ops) == s,
{
    lemma_empty_is_sound();
    law_changes_do_what_a_merge_does(sequence::empty_sequence(), s, ops);
    law_merge_with_empty(s);
}

// --- the tree of parents ---

/// The element at `j` is the one at `i` or was inserted below it.
pub open spec fn is_below(s: Seq<NodeView>, i: int, j: int) -> bool {
    sequence::climbs_to(s, s[j].id, s[i].id, s.len() + 1)
}

/// The elements stand as a walk through the tree of their parents meets them: every
/// element right of its parent, everything below an element right behind it without
/// anything else between, and of the elements under one parent the higher id first.
pub open spec fn is_preorder(s: Seq<NodeView>) -> bool {
    &&& forall|j: int|
        0 <= j < s.len() && (#[trigger] s[j]).parent != sequence::root_id() ==> sequence::held(
            s,
            s[j].parent,
        ) && sequence::place_of(s, s[j].parent) < j
    &&& forall|i: int, j: int, k: int|
        #![trigger is_below(s, i, k), is_below(s, i, j)]
        0 <= i < j < k < s.len() && is_below(s, i, k) ==> is_below(s, i, j)
    &&& forall|i: int, j: int|
        0 <= i < j < s.len() && (#[trigger] s[i]).parent == (#[trigger] s[j]).parent
            ==> sequence::id_less(s[j].id, s[i].id)
}

proof fn lemma_below_by_path(s: Seq<NodeView>, i: int, j: int)
    requires
        well_built(s),
        0 <= i < s.len(),
        0 <= j < s.len(),
    ensures
        is_below(s, i, j) <==> path_at(s, i).is_prefix_of(path_at(s, j)),
{
    lemma_place(s, i);
    lemma_place(s, j);
    lemma_path_shape(s, j);
    lemma_climbs(s, s[j].id, s[i].id, s.len() + 1);
}

/// The elements of a sequence are a walk through the tree of their parents.
pub proof fn law_order_is_preorder(s: Seq<NodeView>)
    requires
        well_built(s),
    ensures
        is_preorder(s),
{
    lemma_higher_first_strict_total();
    let lt = higher_first();
    assert forall|i: int, j: int, k: int|
        #![trigger is_below(s, i, k), is_below(s, i, j)]
        0 <= i < j < k < s.len() && is_below(s, i, k) implies is_below(s, i, j) by {
        lemma_below_by_path(s, i, j);
        lemma_below_by_path(s, i, k);
        let a = path_at(s, i);
        let b = path_at(s, j);
        let c = path_at(s, k);
        assert(path_before(path_at(s, i), path_at(s, j)));
        assert(path_before(path_at(s, j), path_at(s, k)));
        let x = choose|x: int| order::decided_at(a, b, lt, x);
        let y = choose|y: int| order::decided_at(b, c, lt, y);
        assert(order::decided_at(a, b, lt, x));
        assert(order::decided_at(b, c, lt, y));
        if x < a.len() {
            assert(c[x] == a[x]);
            if y < x {
                assert(b[y] == a[y]);
                assert(c[y] == a[y]);
                assert(lt(b[y], c[y]));
            } else if y == x {
                assert(lt(a[x], b[x]));
                if y < b.len() {
                    assert(lt(b[x], c[x]));
                    assert(lt(a[x], a[x]));
                }
            } else {
                assert(b[x] == c[x]);
                assert(lt(a[x], a[x]));
            }
        }
        assert(a =~= b.take(a.len() as int));
    }
    assert forall|i: int, j: int|
        0 <= i < j < s.len() && (#[trigger] s[i]).parent == (#[trigger] s[j]).parent implies
        sequence::id_less(s[j].id, s[i].id) by {
        lemma_path_shape(s, i);
        lemma_path_shape(s, j);
        assert(path_before(path_at(s, i), path_at(s, j)));
        let up = path_to(s, s[i].parent);
        let x = choose|x: int| order::decided_at(path_at(s, i), path_at(s, j), lt, x);
        assert(order::decided_at(path_at(s, i), path_at(s, j), lt, x));
        if x < up.len() {
            assert(path_at(s, i)[x] == up[x]);
            assert(path_at(s, j)[x] == up[x]);
        }
        assert(x == up.len());
    }
}

/// An insert under a parent that is there: an element that has come already changes
/// nothing. A new one is put into the elements as they stood, which thereby stay in their
/// order, and is followed only by elements that had waited for it, each in its turn. The
/// order is a walk through the tree of parents before and after.
pub proof fn law_insert_into_the_tree(
    s: SequenceView,
    id: IdView,
    parent: IdView,
    value: Json,
)
    requires
        sound(s),
        sequence::known(s.nodes, parent),
    ensures
        ({
            let t = sequence::sequence_apply(s, SequenceOpView::Insert { id, parent, value });
            let n = NodeView { id, parent, value, tombstone: s.gone.contains(id) };
            let p = sequence::slot(s.nodes, id, parent);
            &&& is_preorder(s.nodes)
            &&& is_preorder(t.nodes)
            &&& id == sequence::root_id() || sequence::has(s, id) ==> t == s
            &&& id != sequence::root_id() && !sequence::has(s, id) ==> {
                &&& sequence::held(t.nodes, id)
                &&& is_preorder(s.nodes.insert(p, n))
                &&& keeps_order(s.nodes, s.nodes.insert(p, n))
                &&& keeps_order(s.nodes.insert(p, n), t.nodes)
                &&& keeps_order(s.nodes, t.nodes)
                &&& nothing_waits_for(s, id) ==> t.nodes == s.nodes.insert(p, n)
            }
        }),
{
    let op = SequenceOpView::Insert { id, parent, value };
    let t = sequence::sequence_apply(s, op);
    let n = NodeView { id, parent, value, tombstone: s.gone.contains(id) };
    let p = sequence::slot(s.nodes, id, parent);
    law_change_is_recorded(s, op);
    law_order_is_preorder(s.nodes);
    law_order_is_preorder(t.nodes);
    if id != sequence::root_id() && !sequence::has(s, id) {
        let bare = NodeView { id, parent, value, tombstone: false };
        let mid = SequenceView {
            nodes: sequence::placed(s.nodes, n),
            waiting: s.waiting,
            gone: s.gone.remove(id),
        };
        sequence::lemma_slot(s.nodes, id, parent);
        assert(mid.nodes == s.nodes.insert(p, n));
        lemma_insert_is_orderly(s, bare);
        law_order_is_preorder(mid.nodes);
        lemma_placed_keeps_order(s.nodes, n);
        lemma_settled_keeps_order(mid);
        assert(t == sequence::settled(mid));
        lemma_keeps_order_transitive(s.nodes, mid.nodes, t.nodes);
        assert(mid.nodes[p].id == id);
        if nothing_waits_for(s, id) {
            lemma_nothing_moves_in(s, n);
        }
    }
}

/// No element waits for `id`.
pub open spec fn nothing_waits_for(s: SequenceView, id: IdView) -> bool {
    forall|x: IdView| #[trigger] s.waiting.contains_key(x) ==> s.waiting[x].parent != id
}

/// Every element of the first list is in the second, as it was, and of two of them the
/// same one stands first.
pub open spec fn keeps_order(s: Seq<NodeView>, t: Seq<NodeView>) -> bool {
    &&& forall|i: int|
        0 <= i < s.len() ==> sequence::held(t, (#[trigger] s[i]).id) && t[sequence::place_of(
            t,
            s[i].id,
        )] == s[i]
    &&& forall|i: int, j: int|
        0 <= i < j < s.len() ==> sequence::place_of(t, (#[trigger] s[i]).id)
            < sequence::place_of(t, (#[trigger] s[j]).id)
}

proof fn lemma_keeps_order_transitive(a: Seq<NodeView>, b: Seq<NodeView>, c: Seq<NodeView>)
    requires
        keeps_order(a, b),
        keeps_order(b, c),
    ensures
        keeps_order(a, c),
{
    assert forall|i: int| 0 <= i < a.len() implies sequence::held(c, (#[trigger] a[i]).id)
        && c[sequence::place_of(c, a[i].id)] == a[i] by {
        let x = sequence::place_of(b, a[i].id);
        assert(b[x] == a[i]);
    }
    assert forall|i: int, j: int| 0 <= i < j < a.len() implies sequence::place_of(
        c,
        (#[trigger] a[i]).id,
    ) < sequence::place_of(c, (#[trigger] a[j]).id) by {
        let x = sequence::place_of(b, a[i].id);
        let y = sequence::place_of(b, a[j].id);
        assert(b[x] == a[i]);
        assert(b[y] == a[j]);
    }
}

proof fn lemma_placed_keeps_order(s: Seq<NodeView>, n: NodeView)
    requires
        sequence::distinct_ids(s),
    ensures
        keeps_order(s, sequence::placed(s, n)),
{
    let t = sequence::placed(s, n);
    sequence::lemma_slot(s, n.id, n.parent);
    sequence::lemma_insert_distinct(s, n);
    let p = sequence::slot(s, n.id, n.parent);
    let known = sequence::known(s, n.id);
    assert forall|i: int| 0 <= i < s.len() implies sequence::held(t, (#[trigger] s[i]).id)
        && t[sequence::place_of(t, s[i].id)] == s[i] && sequence::place_of(t, s[i].id) == (
    if known || i < p {
        i
    } else {
        i + 1
    }) by {
        let q = if known || i < p {
            i
        } else {
            i + 1
        };
        assert(t[q] == s[i]);
        lemma_place(t, q);
    }
}

proof fn lemma_settled_keeps_order(s: SequenceView)
    requires
        orderly(s),
    ensures
        keeps_order(s.nodes, sequence::settled(s).nodes),
    decreases s.waiting.len(),
{
    if exists|id: IdView| sequence::ready(s, id) {
        let id = choose|id: IdView| sequence::ready(s, id);
        let t = sequence::let_in(s, id);
        lemma_let_in(s, id);
        lemma_settled_keeps_order(t);
        lemma_placed_keeps_order(s.nodes, s.waiting[id]);
        lemma_keeps_order_transitive(s.nodes, t.nodes, sequence::settled(s).nodes);
    } else {
        assert forall|i: int| 0 <= i < s.nodes.len() implies sequence::held(
            s.nodes,
            (#[trigger] s.nodes[i]).id,
        ) && sequence::place_of(s.nodes, s.nodes[i].id) == i by {
            lemma_place(s.nodes, i);
        }
    }
}

/// Where nothing waits for a new element, only that element gets a place.
proof fn lemma_nothing_moves_in(s: SequenceView, n: NodeView)
    requires
        sound(s),
        !sequence::known(s.nodes, n.id),
        nothing_waits_for(s, n.id),
    ensures
        ({
            let mid = SequenceView {
                nodes: sequence::placed(s.nodes, n),
                waiting: s.waiting,
                gone: s.gone.remove(n.id),
            };
            sequence::settled(mid) == mid
        }),
{
    let mid = SequenceView {
        nodes: sequence::placed(s.nodes, n),
        waiting: s.waiting,
        gone: s.gone.remove(n.id),
    };
    lemma_insert_contents(s.nodes, n);
    assert forall|x: IdView| !#[trigger] sequence::ready(mid, x) by {
        if sequence::ready(mid, x) {
            let up = s.waiting[x].parent;
            assert(s.waiting.contains_key(x));
            assert(up != n.id);
            assert(sequence::held(mid.nodes, up) == contents(mid.nodes).contains_key(up));
            assert(sequence::held(s.nodes, up) == contents(s.nodes).contains_key(up));
            assert(sequence::ready(s, x));
        }
    }
}

// --- positions ---

/// The visible element at `a` has a place, before which `a` elements are visible.
proof fn lemma_visible_has_place(s: Seq<NodeView>, a: int) -> (q: int)
    requires
        0 <= a < sequence::visible(s).len(),
    ensures
        0 <= q < s.len(),
        s[q] == sequence::visible(s)[a],
        sequence::visible(s.take(q)).len() == a,
        sequence::visible(s.take(q + 1)).len() == a + 1,
    decreases s.len(),
{
    reveal(Seq::filter);
    let n = s.len() - 1;
    let front = s.drop_last();
    assert(s.take(n) =~= front);
    assert(s.take(n + 1) =~= s);
    if a < sequence::visible(front).len() {
        let q = lemma_visible_has_place(front, a);
        assert(front.take(q) =~= s.take(q));
        assert(front.take(q + 1) =~= s.take(q + 1));
        q
    } else {
        n
    }
}

/// An insert at a position refers to the root or to an element that is there.
pub proof fn law_position_names_known_parent(s: Seq<NodeView>, position: int)
    ensures
        sequence::known(s, sequence::parent_at(s, position)),
{
    let v = sequence::visible(s);
    if position > 0 && v.len() > 0 {
        let a = if position <= v.len() { position - 1 } else { v.len() - 1 };
        let q = lemma_visible_has_place(s, a);
        assert(s[q].id == sequence::parent_at(s, position));
    }
}

/// A new element with the highest id comes right behind its parent.
proof fn lemma_highest_comes_first(s: Seq<NodeView>, id: IdView, parent: IdView)
    requires
        well_built(s),
        sequence::known(s, parent),
        forall|i: int| 0 <= i < s.len() ==> sequence::id_less((#[trigger] s[i]).id, id),
    ensures
        sequence::slot(s, id, parent) == sequence::place_behind(s, parent),
{
    lemma_higher_first_strict_total();
    let lt = higher_first();
    let i = sequence::place_behind(s, parent);
    if i < s.len() && sequence::goes_after(s, i, id, parent) {
        if s[i].parent == parent {
            assert(lt(id, s[i].id));
            assert(lt(s[i].id, id));
            assert(lt(id, id));
        } else {
            let above = path_to(s, parent);
            let up = path_to(s, s[i].parent);
            let d = above.len() as int;
            lemma_path_shape(s, i);
            if s[i].parent != sequence::root_id() {
                lemma_path_shape(s, sequence::place_of(s, s[i].parent));
            }
            lemma_climbs(s, s[i].parent, parent, s.len());
            if above.len() == up.len() {
                assert(above =~= up);
                lemma_path_injective(s, s[i].parent, parent);
            }
            let j = lemma_path_prefix(s, i, d);
            lemma_path_shape(s, j);
            assert(path_at(s, j) =~= above.push(path_at(s, i)[d]));
            assert(path_to(s, s[j].parent) =~= above);
            lemma_path_injective(s, s[j].parent, parent);
            assert(j != i);
        }
    }
}

proof fn lemma_placed_is_seen_at_its_position(
    s: Seq<NodeView>,
    position: int,
    id: IdView,
    value: Json,
)
    requires
        well_built(s),
        0 <= position <= sequence::visible(s).len(),
        id != sequence::root_id(),
        forall|i: int| 0 <= i < s.len() ==> sequence::id_less((#[trigger] s[i]).id, id),
    ensures
        ({
            let parent = sequence::parent_at(s, position);
            let n = NodeView { id, parent, value, tombstone: false };
            sequence::visible(sequence::placed(s, n)) == sequence::visible(s).insert(position, n)
        }),
{
    lemma_higher_first_strict_total();
    let lt = higher_first();
    let parent = sequence::parent_at(s, position);
    let node = NodeView { id, parent, value, tombstone: false };
    law_position_names_known_parent(s, position);
    lemma_highest_comes_first(s, id, parent);
    if sequence::held(s, id) {
        assert(lt(id, s[sequence::place_of(s, id)].id));
    }
    let p = sequence::slot(s, id, parent);
    if position > 0 {
        let q = lemma_visible_has_place(s, position - 1);
        lemma_place(s, q);
        assert(p == q + 1);
    } else {
        assert(!sequence::held(s, sequence::root_id()));
        assert(p == 0);
        reveal(Seq::filter);
        assert(s.take(0) =~= Seq::<NodeView>::empty());
    }
    assert(sequence::visible(s.take(p)).len() == position);
    let seen = |n: NodeView| !n.tombstone;
    let front = s.take(p);
    let back = s.skip(p);
    assert(s =~= front + back);
    assert(s.insert(p, node) =~= front.push(node) + back);
    Seq::filter_distributes_over_add(front, back, seen);
    Seq::filter_distributes_over_add(front.push(node), back, seen);
    assert(front.push(node).filter(seen) == front.filter(seen).push(node)) by {
        reveal(Seq::filter);
        assert(front.push(node).drop_last() =~= front);
    }
    assert(front.filter(seen).push(node) + back.filter(seen) =~= (front.filter(seen) + back.filter(
        seen,
    )).insert(position, node));
}

/// A value that is inserted at a position of the sequence with an id that is higher than
/// those that are there is then seen at that position, and everything else as before. It
/// must not have been deleted before it came, and nothing must wait for it.
pub proof fn law_insert_is_seen_at_its_position(
    s: SequenceView,
    position: int,
    id: IdView,
    value: Json,
)
    requires
        sound(s),
        0 <= position <= sequence::visible(s.nodes).len(),
        id != sequence::root_id(),
        forall|i: int|
            0 <= i < s.nodes.len() ==> sequence::id_less((#[trigger] s.nodes[i]).id, id),
        !s.waiting.contains_key(id),
        !s.gone.contains(id),
        nothing_waits_for(s, id),
    ensures
        ({
            let parent = sequence::parent_at(s.nodes, position);
            let op = SequenceOpView::Insert { id, parent, value };
            sequence::visible(sequence::sequence_apply(s, op).nodes) == sequence::visible(
                s.nodes,
            ).insert(position, NodeView { id, parent, value, tombstone: false })
        }),
{
    let parent = sequence::parent_at(s.nodes, position);
    let n = NodeView { id, parent, value, tombstone: false };
    lemma_higher_first_strict_total();
    let lt = higher_first();
    if sequence::held(s.nodes, id) {
        assert(lt(id, s.nodes[sequence::place_of(s.nodes, id)].id));
    }
    law_position_names_known_parent(s.nodes, position);
    lemma_placed_is_seen_at_its_position(s.nodes, position, id, value);
    lemma_nothing_moves_in(s, n);
}

/// A deletion takes exactly the element at its position out of sight.
pub proof fn law_delete_removes_its_position(s: SequenceView, position: int)
    requires
        sound(s),
        0 <= position < sequence::visible(s.nodes).len(),
    ensures
        ({
            let op = SequenceOpView::Delete { id: sequence::visible(s.nodes)[position].id };
            sequence::visible(sequence::sequence_apply(s, op).nodes) == sequence::visible(
                s.nodes,
            ).remove(position)
        }),
{
    let q = lemma_visible_has_place(s.nodes, position);
    lemma_place(s.nodes, q);
    lemma_deleted_is_out_of_sight(s.nodes, position);
}

proof fn lemma_deleted_is_out_of_sight(s: Seq<NodeView>, position: int)
    requires
        sequence::distinct_ids(s),
        0 <= position < sequence::visible(s).len(),
    ensures
        sequence::visible(sequence::with_delete(s, sequence::visible(s)[position].id))
            == sequence::visible(s).remove(position),
{
    let q = lemma_visible_has_place(s, position);
    let id = s[q].id;
    lemma_place(s, q);
    let seen = |n: NodeView| !n.tombstone;
    let gone = NodeView { tombstone: true, ..s[q] };
    let front = s.take(q);
    let back = s.skip(q + 1);
    assert(s =~= front.push(s[q]) + back);
    assert(sequence::with_delete(s, id) =~= front.push(gone) + back);
    Seq::filter_distributes_over_add(front.push(s[q]), back, seen);
    Seq::filter_distributes_over_add(front.push(gone), back, seen);
    assert(front.push(s[q]) =~= s.take(q + 1));
    assert(front.push(gone).filter(seen) == front.filter(seen)) by {
        reveal(Seq::filter);
        assert(front.push(gone).drop_last() =~= front);
    }
    assert(front.push(s[q]).filter(seen) == front.filter(seen).push(s[q])) by {
        reveal(Seq::filter);
        assert(front.push(s[q]).drop_last() =~= front);
    }
    assert(front.filter(seen) + back.filter(seen) =~= (front.filter(seen).push(s[q]) + back.filter(
        seen,
    )).remove(position));
}

/// Of the elements that were inserted after the same one, the one with the greater
/// timestamp stands first, and at equal timestamps the one with the greater node id.
pub proof fn law_later_siblings_stand_first(s: Seq<NodeView>, i: int, j: int)
    requires
        well_built(s),
        0 <= i < j < s.len(),
        s[i].parent == s[j].parent,
    ensures
        s[i].id.timestamp >= s[j].id.timestamp,
        s[i].id.timestamp == s[j].id.timestamp ==> order::text_less(
            s[j].id.node_id,
            s[i].id.node_id,
        ),
{
    law_order_is_preorder(s);
}

/// What is seen of a sequence is what was inserted and not deleted, with the value that was
/// inserted; and all of it that was inserted after the root or after something that has its
/// place is seen.
pub proof fn law_seen_is_what_was_inserted_and_not_deleted(s: SequenceView, n: NodeView)
    requires
        sound(s),
    ensures
        sequence::visible(s.nodes).contains(n) ==> {
            &&& record(s).inserted.contains_key(n.id)
            &&& record(s).inserted[n.id].parent == n.parent
            &&& record(s).inserted[n.id].value == n.value
            &&& !record(s).deleted.contains(n.id)
        },
        record(s).inserted.contains_key(n.id) && record(s).inserted[n.id].parent == n.parent
            && record(s).inserted[n.id].value == n.value && !record(s).deleted.contains(n.id)
            && !n.tombstone && sequence::known(s.nodes, n.parent) ==> sequence::visible(
            s.nodes,
        ).contains(n),
{
    sequence::law_seen_are_the_elements_that_are_not_deleted(s.nodes, s.nodes, n);
    if s.nodes.contains(n) {
        let i = s.nodes.index_of(n);
        lemma_place(s.nodes, i);
        assert(sequence::held(s.nodes, n.id));
    }
    if sequence::has(s, n.id) && sequence::known(s.nodes, n.parent) && record(
        s,
    ).inserted[n.id].parent == n.parent {
        assert(!sequence::ready(s, n.id));
        if sequence::held(s.nodes, n.id) {
            let i = sequence::place_of(s.nodes, n.id);
            assert(s.nodes[i].id == n.id);
        }
    }
}

/// A sequence has received the inserts of the elements that have their place or wait for it,
/// and the deletions of those of them that are deleted and of those that were deleted before
/// they came.
pub proof fn law_what_a_sequence_has_received(s: SequenceView, id: IdView)
    requires
        sound(s),
    ensures
        forall|i: int|
            0 <= i < s.nodes.len() && (#[trigger] s.nodes[i]).id == id ==> {
                &&& record(s).inserted.contains_key(id)
                &&& record(s).inserted[id].parent == s.nodes[i].parent
                &&& record(s).inserted[id].value == s.nodes[i].value
                &&& record(s).deleted.contains(id) <==> s.nodes[i].tombstone
            },
        s.waiting.contains_key(id) ==> {
            &&& record(s).inserted.contains_key(id)
            &&& record(s).inserted[id].parent == s.waiting[id].parent
            &&& record(s).inserted[id].value == s.waiting[id].value
            &&& record(s).deleted.contains(id) <==> s.waiting[id].tombstone
        },
        !s.waiting.contains_key(id) && (forall|i: int|
            0 <= i < s.nodes.len() ==> (#[trigger] s.nodes[i]).id != id) ==> {
            &&& !record(s).inserted.contains_key(id)
            &&& record(s).deleted.contains(id) <==> s.gone.contains(id)
        },
{
    assert forall|i: int| 0 <= i < s.nodes.len() && (#[trigger] s.nodes[i]).id == id implies {
        &&& record(s).inserted.contains_key(id)
        &&& record(s).inserted[id].parent == s.nodes[i].parent
        &&& record(s).inserted[id].value == s.nodes[i].value
        &&& record(s).deleted.contains(id) <==> s.nodes[i].tombstone
    } by {
        lemma_place(s.nodes, i);
    }
}

/// What a change adds to what a sequence has received: an insert, unless the element has come
/// already, its parent and its value; a deletion, its id. The root can be neither inserted nor
/// deleted. Nothing else comes, and nothing goes.
pub proof fn law_change_adds_what_it_says(s: SequenceView, op: SequenceOpView, id: IdView)
    requires
        sound(s),
    ensures
        ({
            let root = IdView { timestamp: 0, node_id: Seq::empty() };
            let before = record(s);
            let after = record(sequence::sequence_apply(s, op));
            &&& sound(sequence::sequence_apply(s, op))
            &&& after.inserted.contains_key(id) <==> before.inserted.contains_key(id) || (
            op matches SequenceOpView::Insert { id: new, .. } && new == id && id != root)
            &&& before.inserted.contains_key(id) ==> after.inserted[id] == before.inserted[id]
            &&& op matches SequenceOpView::Insert { id: new, parent, value } ==> (new == id && id
                != root && !before.inserted.contains_key(id) ==> after.inserted[id].parent
                == parent && after.inserted[id].value == value)
            &&& after.deleted.contains(id) <==> before.deleted.contains(id) || (
            op matches SequenceOpView::Delete { id: old_id } && old_id == id && id != root)
        }),
{
    law_change_is_recorded(s, op);
    assert(sequence::root_id().node_id =~= Seq::<char>::empty());
}

/// A merged sequence has received what either has received, and nothing else. Where both
/// have received an insert under one id, that of the first counts.
pub proof fn law_merge_has_received_what_either_has(a: SequenceView, b: SequenceView, id: IdView)
    requires
        sound(a),
        sound(b),
    ensures
        ({
            let m = record(sequence::sequence_merge(a, b));
            &&& sound(sequence::sequence_merge(a, b))
            &&& m.inserted.contains_key(id) <==> record(a).inserted.contains_key(id) || record(
                b,
            ).inserted.contains_key(id)
            &&& record(a).inserted.contains_key(id) ==> m.inserted[id] == record(a).inserted[id]
            &&& record(b).inserted.contains_key(id) && !record(a).inserted.contains_key(id)
                ==> m.inserted[id] == record(b).inserted[id]
            &&& m.deleted.contains(id) <==> record(a).deleted.contains(id) || record(
                b,
            ).deleted.contains(id)
        }),
{
    law_merge_joins(a, b);
}

} // verus!
