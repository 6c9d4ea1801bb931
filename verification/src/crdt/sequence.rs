//! Replicated growable array.

use crate::crdt::convergence;
use crate::crdt::lww;
use crate::json;
use crate::json::Json;
use crate::map::{Key, SortedMap, ViewClone};
use crate::order;
use crate::order::Order;
use serde_json::Value;
use vstd::prelude::*;

verus! {

/// The name of an element: when and where it was inserted. Ids are ordered by
/// timestamp and, where that is equal, by node id.
#[derive(Debug, PartialEq, Eq, PartialOrd, Ord, Hash)]
pub struct ElementId {
    pub timestamp: u64,
    pub node_id: String,
}

/// What an element id holds.
pub struct IdView {
    pub timestamp: u64,
    pub node_id: Seq<char>,
}

impl View for ElementId {
    type V = IdView;

    open spec fn view(&self) -> IdView {
        IdView { timestamp: self.timestamp, node_id: self.node_id@ }
    }
}

/// The id that stands for the place before all elements.
pub open spec fn root_id() -> IdView {
    IdView { timestamp: 0, node_id: Seq::empty() }
}

/// `a` is lower than `b`: the timestamp decides, and the node id where the
/// timestamps are equal.
pub open spec fn id_less(a: IdView, b: IdView) -> bool {
    lww::stamp_less(a.timestamp, a.node_id, b.timestamp, b.node_id)
}

impl Clone for ElementId {
    fn clone(&self) -> (r: Self)
        ensures
            r@ == self@,
    {
        ElementId { timestamp: self.timestamp, node_id: self.node_id.clone() }
    }
}

impl ElementId {
    /// The id that stands for the place before all elements.
    pub fn root() -> (r: Self)
        ensures
            r@ == root_id(),
    {
        let r = ElementId { timestamp: 0, node_id: String::new() };
        assert(r@.node_id =~= Seq::<char>::empty());
        r
    }

    fn is_root(&self) -> (r: bool)
        ensures
            r == (self@ == root_id()),
    {
        let r = self.timestamp == 0 && self.node_id.as_str().is_empty();
        assert(r ==> self@.node_id =~= Seq::<char>::empty());
        r
    }

    fn same(&self, other: &ElementId) -> (r: bool)
        ensures
            r == (self@ == other@),
    {
        self.timestamp == other.timestamp && self.node_id == other.node_id
    }
}

impl ViewClone for ElementId {
    fn view_clone(&self) -> (r: Self) {
        self.clone()
    }
}

impl Key for ElementId {
    open spec fn before(a: IdView, b: IdView) -> bool {
        id_less(a, b)
    }

    proof fn before_irreflexive(a: IdView) {
        order::lemma_text_irreflexive(a.node_id);
    }

    proof fn before_transitive(a: IdView, b: IdView, c: IdView) {
        if order::text_less(a.node_id, b.node_id) && order::text_less(b.node_id, c.node_id) {
            order::lemma_text_transitive(a.node_id, b.node_id, c.node_id);
        }
    }

    proof fn before_total(a: IdView, b: IdView) {
        order::lemma_text_total(a.node_id, b.node_id);
    }

    fn order(&self, other: &Self) -> (r: Order) {
        if self.timestamp < other.timestamp {
            Order::Less
        } else if other.timestamp < self.timestamp {
            Order::Greater
        } else {
            order::text_order(self.node_id.as_str(), other.node_id.as_str())
        }
    }
}

#[derive(Debug)]
struct RgaNode {
    id: ElementId,
    parent: ElementId,
    value: Value,
    tombstone: bool,
}

/// An element of a sequence: its id, the id of the element that it was inserted
/// after, its value, and whether it has been deleted.
pub struct NodeView {
    pub id: IdView,
    pub parent: IdView,
    pub value: Json,
    pub tombstone: bool,
}

impl View for RgaNode {
    type V = NodeView;

    closed spec fn view(&self) -> NodeView {
        NodeView {
            id: self.id@,
            parent: self.parent@,
            value: json::json_view(self.value),
            tombstone: self.tombstone,
        }
    }
}

impl ViewClone for RgaNode {
    fn view_clone(&self) -> (r: Self) {
        RgaNode {
            id: self.id.clone(),
            parent: self.parent.clone(),
            value: self.value.clone(),
            tombstone: self.tombstone,
        }
    }
}

/// RGA (replicated growable array): a sequence of ordered elements.
///
/// Each element is named by a unique (timestamp, node_id) pair. An insert refers to a
/// parent: the element after which the new one should appear. Of concurrent inserts
/// after the same parent the one with the higher id comes first.
///
/// A deleted element stays behind as a tombstone, which keeps the structure that
/// merging relies on. An element whose parent has not come yet is kept aside until it
/// comes, and a deletion that comes before its element is remembered. So it does not
/// matter in which order changes arrive.
#[derive(Debug)]
pub struct RgaSequence {
    nodes: Vec<RgaNode>,
    waiting: SortedMap<ElementId, RgaNode>,
    gone: SortedMap<ElementId, bool>,
}

/// What a sequence holds: its elements in order, the elements that wait for their parent,
/// and the ids of elements that were deleted before they came.
pub struct SequenceView {
    pub nodes: Seq<NodeView>,
    pub waiting: Map<IdView, NodeView>,
    pub gone: Set<IdView>,
}

impl View for RgaSequence {
    type V = SequenceView;

    closed spec fn view(&self) -> SequenceView {
        parts_view(self.nodes@, self.waiting, self.gone)
    }
}

spec fn views(nodes: Seq<RgaNode>) -> Seq<NodeView> {
    nodes.map_values(|n: RgaNode| n@)
}

spec fn parts_view(
    nodes: Seq<RgaNode>,
    waiting: SortedMap<ElementId, RgaNode>,
    gone: SortedMap<ElementId, bool>,
) -> SequenceView {
    SequenceView { nodes: views(nodes), waiting: waiting@, gone: gone@.dom() }
}

/// A change of a sequence, as it is sent to other replicas.
#[derive(Debug)]
pub enum SequenceOp {
    Insert { id: ElementId, parent: ElementId, value: Value },
    Delete { id: ElementId },
}

/// What a change of a sequence says.
pub enum SequenceOpView {
    Insert { id: IdView, parent: IdView, value: Json },
    Delete { id: IdView },
}

impl View for SequenceOp {
    type V = SequenceOpView;

    open spec fn view(&self) -> SequenceOpView {
        match self {
            SequenceOp::Insert { id, parent, value } => SequenceOpView::Insert {
                id: id@,
                parent: parent@,
                value: json::json_view(*value),
            },
            SequenceOp::Delete { id } => SequenceOpView::Delete { id: id@ },
        }
    }
}

impl Clone for SequenceOp {
    fn clone(&self) -> (r: Self)
        ensures
            r@ == self@,
    {
        match self {
            SequenceOp::Insert { id, parent, value } => SequenceOp::Insert {
                id: id.clone(),
                parent: parent.clone(),
                value: value.clone(),
            },
            SequenceOp::Delete { id } => SequenceOp::Delete { id: id.clone() },
        }
    }
}

/// The sequence has an element `id`.
pub open spec fn held(s: Seq<NodeView>, id: IdView) -> bool {
    exists|i: int| 0 <= i < s.len() && #[trigger] s[i].id == id
}

/// `id` is the root or an element of the sequence.
pub open spec fn known(s: Seq<NodeView>, id: IdView) -> bool {
    id == root_id() || held(s, id)
}

/// Where the element `id` is.
pub open spec fn place_of(s: Seq<NodeView>, id: IdView) -> int {
    choose|i: int| 0 <= i < s.len() && #[trigger] s[i].id == id
}

/// No id occurs twice and none is the root's.
pub open spec fn distinct_ids(s: Seq<NodeView>) -> bool {
    &&& forall|i: int, j: int|
        0 <= i < j < s.len() ==> (#[trigger] s[i]).id != (#[trigger] s[j]).id
    &&& forall|i: int| 0 <= i < s.len() ==> (#[trigger] s[i]).id != root_id()
}

/// `target` is reached from `from` by going from element to parent at most `steps`
/// times. The way ends at the root and at an id that is not in the sequence.
pub open spec fn climbs_to(s: Seq<NodeView>, from: IdView, target: IdView, steps: nat) -> bool
    decreases steps,
{
    from == target || (from != root_id() && held(s, from) && steps > 0 && climbs_to(
        s,
        s[place_of(s, from)].parent,
        target,
        (steps - 1) as nat,
    ))
}

/// A new element `id` under `parent` has to come after the element at `i`: that is a
/// sibling with a higher id, or lies below `parent` without being a sibling.
pub open spec fn goes_after(s: Seq<NodeView>, i: int, id: IdView, parent: IdView) -> bool {
    if s[i].parent == parent {
        id_less(id, s[i].id)
    } else {
        climbs_to(s, s[i].parent, parent, s.len())
    }
}

/// The place right behind `parent`; the beginning for the root.
pub open spec fn place_behind(s: Seq<NodeView>, parent: IdView) -> int {
    if held(s, parent) {
        place_of(s, parent) + 1
    } else {
        0
    }
}

/// The first place from `i` on whose element a new `id` under `parent` does not have
/// to come after.
pub open spec fn slot_from(s: Seq<NodeView>, id: IdView, parent: IdView, i: int) -> int
    decreases s.len() - i,
{
    if i < s.len() && goes_after(s, i, id, parent) {
        slot_from(s, id, parent, i + 1)
    } else {
        i
    }
}

/// The place of a new element.
pub open spec fn slot(s: Seq<NodeView>, id: IdView, parent: IdView) -> int {
    slot_from(s, id, parent, place_behind(s, parent))
}

/// The elements with a new one; one that is there already stays as it is.
pub open spec fn placed(s: Seq<NodeView>, n: NodeView) -> Seq<NodeView> {
    if known(s, n.id) {
        s
    } else {
        s.insert(slot(s, n.id, n.parent), n)
    }
}

/// The elements with the element `id` deleted, if it is there.
pub open spec fn with_delete(s: Seq<NodeView>, id: IdView) -> Seq<NodeView> {
    if held(s, id) {
        let i = place_of(s, id);
        s.update(i, NodeView { tombstone: true, ..s[i] })
    } else {
        s
    }
}

/// The sequence without elements.
pub open spec fn empty_sequence() -> SequenceView {
    SequenceView { nodes: Seq::empty(), waiting: Map::empty(), gone: Set::empty() }
}

/// The element `id` has come: it has its place or waits for its parent.
pub open spec fn has(s: SequenceView, id: IdView) -> bool {
    held(s.nodes, id) || s.waiting.contains_key(id)
}

/// The element `id` waits although its parent is there.
pub open spec fn ready(s: SequenceView, id: IdView) -> bool {
    s.waiting.contains_key(id) && known(s.nodes, s.waiting[id].parent)
}

/// The sequence after the waiting element `id` got its place.
pub open spec fn let_in(s: SequenceView, id: IdView) -> SequenceView {
    SequenceView {
        nodes: placed(s.nodes, s.waiting[id]),
        waiting: s.waiting.remove(id),
        gone: s.gone,
    }
}

/// The sequence after every element whose parent is there got its place, and those that
/// wait for one of these too.
pub open spec fn settled(s: SequenceView) -> SequenceView
    decreases s.waiting.len(),
{
    if s.waiting.dom().finite() && exists|id: IdView| ready(s, id) {
        settled(let_in(s, choose|id: IdView| ready(s, id)))
    } else {
        s
    }
}

/// The sequence with a new element; one that has come already stays as it is.
pub open spec fn with_insert(s: SequenceView, n: NodeView) -> SequenceView {
    if n.id == root_id() || has(s, n.id) {
        s
    } else {
        let node = NodeView { tombstone: n.tombstone || s.gone.contains(n.id), ..n };
        if known(s.nodes, n.parent) {
            settled(
                SequenceView {
                    nodes: placed(s.nodes, node),
                    waiting: s.waiting,
                    gone: s.gone.remove(n.id),
                },
            )
        } else {
            SequenceView {
                nodes: s.nodes,
                waiting: s.waiting.insert(n.id, node),
                gone: s.gone.remove(n.id),
            }
        }
    }
}

/// The sequence with the element `id` deleted, whether it has come or not.
pub open spec fn without(s: SequenceView, id: IdView) -> SequenceView {
    if id == root_id() {
        s
    } else if held(s.nodes, id) {
        SequenceView { nodes: with_delete(s.nodes, id), ..s }
    } else if s.waiting.contains_key(id) {
        SequenceView {
            waiting: s.waiting.insert(id, NodeView { tombstone: true, ..s.waiting[id] }),
            ..s
        }
    } else {
        SequenceView { gone: s.gone.insert(id), ..s }
    }
}

/// The sequence after a change.
pub open spec fn sequence_apply(s: SequenceView, op: SequenceOpView) -> SequenceView {
    match op {
        SequenceOpView::Insert { id, parent, value } => with_insert(
            s,
            NodeView { id, parent, value, tombstone: false },
        ),
        SequenceOpView::Delete { id } => without(s, id),
    }
}

/// The sequence with everything that another replica holds.
pub open spec fn sequence_merge(s: SequenceView, other: SequenceView) -> SequenceView {
    convergence::arranged(convergence::joined(convergence::record(s), convergence::record(other)))
}

/// The elements that have not been deleted, in order.
pub open spec fn visible(s: Seq<NodeView>) -> Seq<NodeView> {
    s.filter(|n: NodeView| !n.tombstone)
}

/// The id after which an insert at the visible position `position` goes: the root
/// for the beginning, the last visible element for a position beyond the end.
pub open spec fn parent_at(s: Seq<NodeView>, position: int) -> IdView {
    let v = visible(s);
    if position <= 0 || v.len() == 0 {
        root_id()
    } else if position <= v.len() {
        v[position - 1].id
    } else {
        v.last().id
    }
}

proof fn lemma_visible_push(s: Seq<NodeView>, i: int)
    requires
        0 <= i < s.len(),
    ensures
        visible(s.take(i + 1)) == if s[i].tombstone {
            visible(s.take(i))
        } else {
            visible(s.take(i)).push(s[i])
        },
{
    reveal(Seq::filter);
    assert(s.take(i + 1).drop_last() =~= s.take(i));
}

proof fn lemma_slot_bounds(s: Seq<NodeView>, id: IdView, parent: IdView, i: int)
    requires
        0 <= i <= s.len(),
    ensures
        i <= slot_from(s, id, parent, i) <= s.len(),
    decreases s.len() - i,
{
    if i < s.len() && goes_after(s, i, id, parent) {
        lemma_slot_bounds(s, id, parent, i + 1);
    }
}

pub(crate) proof fn lemma_slot(s: Seq<NodeView>, id: IdView, parent: IdView)
    ensures
        place_behind(s, parent) <= slot(s, id, parent) <= s.len(),
        0 <= slot(s, id, parent),
{
    lemma_slot_bounds(s, id, parent, place_behind(s, parent));
}

pub(crate) proof fn lemma_insert_distinct(s: Seq<NodeView>, n: NodeView)
    requires
        distinct_ids(s),
    ensures
        distinct_ids(placed(s, n)),
{
    lemma_slot(s, n.id, n.parent);
    if !known(s, n.id) {
        let p = slot(s, n.id, n.parent);
        let t = placed(s, n);
        assert forall|i: int, j: int| 0 <= i < j < t.len() implies (#[trigger] t[i]).id != (
        #[trigger] t[j]).id by {
            let a = if i < p { i } else { i - 1 };
            let b = if j < p { j } else { j - 1 };
            if i != p {
                assert(t[i] == s[a]);
            }
            if j != p {
                assert(t[j] == s[b]);
            }
        }
        assert forall|i: int| 0 <= i < t.len() implies (#[trigger] t[i]).id != root_id() by {
            if i < p {
                assert(t[i] == s[i]);
            } else if p < i {
                assert(t[i] == s[i - 1]);
            }
        }
    }
}

pub(crate) proof fn lemma_delete_distinct(s: Seq<NodeView>, id: IdView)
    requires
        distinct_ids(s),
    ensures
        distinct_ids(with_delete(s, id)),
{
    let t = with_delete(s, id);
    assert(t.len() == s.len());
    assert forall|i: int| 0 <= i < t.len() implies (#[trigger] t[i]).id == s[i].id by {}
}

fn find(nodes: &Vec<RgaNode>, id: &ElementId) -> (r: Option<usize>)
    requires
        distinct_ids(views(nodes@)),
    ensures
        r is Some <==> held(views(nodes@), id@),
        r matches Some(i) ==> {
            &&& i < nodes@.len()
            &&& views(nodes@)[i as int].id == id@
            &&& place_of(views(nodes@), id@) == i
        },
{
    let n = nodes.len();
    let mut i: usize = 0;
    while i < n
        invariant
            i <= n == nodes@.len(),
            distinct_ids(views(nodes@)),
            forall|j: int| 0 <= j < i ==> (#[trigger] views(nodes@)[j]).id != id@,
        decreases n - i,
    {
        assert(views(nodes@)[i as int] == nodes@[i as int]@);
        if nodes[i].id.same(id) {
            assert(held(views(nodes@), id@));
            return Some(i);
        }
        i = i + 1;
    }
    None
}

fn is_known(nodes: &Vec<RgaNode>, id: &ElementId) -> (r: bool)
    requires
        distinct_ids(views(nodes@)),
    ensures
        r == known(views(nodes@), id@),
{
    id.is_root() || find(nodes, id).is_some()
}

fn is_descendant_of(nodes: &Vec<RgaNode>, at: usize, ancestor: &ElementId) -> (r: bool)
    requires
        distinct_ids(views(nodes@)),
        at < nodes@.len(),
    ensures
        r == climbs_to(
            views(nodes@),
            views(nodes@)[at as int].parent,
            ancestor@,
            nodes@.len(),
        ),
{
    let ghost s = views(nodes@);
    assert(s[at as int] == nodes@[at as int]@);
    let mut current: &ElementId = &nodes[at].parent;
    let mut left: usize = nodes.len();
    loop
        invariant
            s == views(nodes@),
            distinct_ids(s),
            climbs_to(s, s[at as int].parent, ancestor@, nodes@.len()) == climbs_to(
                s,
                current@,
                ancestor@,
                left as nat,
            ),
        decreases left,
    {
        if current.same(ancestor) {
            return true;
        }
        if current.is_root() || left == 0 {
            return false;
        }
        match find(nodes, current) {
            Some(i) => {
                assert(s[i as int] == nodes@[i as int]@);
                current = &nodes[i].parent;
                left = left - 1;
            },
            None => {
                return false;
            },
        }
    }
}

fn comes_after(nodes: &Vec<RgaNode>, at: usize, id: &ElementId, parent: &ElementId) -> (r: bool)
    requires
        distinct_ids(views(nodes@)),
        at < nodes@.len(),
    ensures
        r == goes_after(views(nodes@), at as int, id@, parent@),
{
    assert(views(nodes@)[at as int] == nodes@[at as int]@);
    let existing = &nodes[at];
    if existing.parent.same(parent) {
        id.order(&existing.id) == Order::Less
    } else {
        is_descendant_of(nodes, at, parent)
    }
}

fn place(nodes: &mut Vec<RgaNode>, node: RgaNode)
    requires
        distinct_ids(views(old(nodes)@)),
        !known(views(old(nodes)@), node@.id),
    ensures
        views(final(nodes)@) == placed(views(old(nodes)@), node@),
{
    let ghost before = views(nodes@);
    let n = nodes.len();
    let mut at: usize = match find(nodes, &node.parent) {
        Some(i) => i + 1,
        None => 0,
    };
    while at < n && comes_after(nodes, at, &node.id, &node.parent)
        invariant
            at <= n == nodes@.len(),
            before == views(nodes@),
            distinct_ids(before),
            slot(before, node.id@, node.parent@) == slot_from(
                before,
                node.id@,
                node.parent@,
                at as int,
            ),
        decreases nodes@.len() - at,
    {
        at = at + 1;
    }
    nodes.insert(at, node);
    assert(views(nodes@) =~= before.insert(at as int, node@));
}

/// The waiting element that comes first among those whose parent is there.
fn first_ready(nodes: &Vec<RgaNode>, waiting: &SortedMap<ElementId, RgaNode>) -> (r: Option<
    ElementId,
>)
    requires
        distinct_ids(views(nodes@)),
    ensures
        match r {
            Some(id) => waiting@.contains_key(id@) && known(
                views(nodes@),
                waiting@[id@].parent,
            ),
            None => forall|id: IdView| #[trigger]
                waiting@.contains_key(id) ==> !known(views(nodes@), waiting@[id].parent),
        },
{
    let n = waiting.len();
    let mut i: usize = 0;
    while i < n
        invariant
            i <= n == waiting.key_views().len(),
            distinct_ids(views(nodes@)),
            waiting.key_views().to_set() == waiting@.dom(),
            forall|j: int|
                0 <= j < i ==> !known(
                    views(nodes@),
                    waiting@[#[trigger] waiting.key_views()[j]].parent,
                ),
        decreases n - i,
    {
        if is_known(nodes, &waiting.value_at(i).parent) {
            return Some(waiting.key_at(i).clone());
        }
        i = i + 1;
    }
    proof {
        assert forall|id: IdView| #[trigger] waiting@.contains_key(id) implies !known(
            views(nodes@),
            waiting@[id].parent,
        ) by {
            assert(waiting.key_views().to_set().contains(id));
            let j = waiting.key_views().index_of(id);
            assert(waiting.key_views()[j] == id);
        }
    }
    None
}

/// Gives every element whose parent is there its place.
fn settle(
    nodes: &mut Vec<RgaNode>,
    waiting: &mut SortedMap<ElementId, RgaNode>,
    gone: &SortedMap<ElementId, bool>,
)
    requires
        convergence::orderly(parts_view(old(nodes)@, *old(waiting), *gone)),
    ensures
        parts_view(final(nodes)@, *final(waiting), *gone) == settled(
            parts_view(old(nodes)@, *old(waiting), *gone),
        ),
        convergence::sound(parts_view(final(nodes)@, *final(waiting), *gone)),
{
    let ghost before = parts_view(nodes@, *waiting, *gone);
    loop
        invariant
            before == parts_view(old(nodes)@, *old(waiting), *gone),
            convergence::orderly(before),
            convergence::orderly(parts_view(nodes@, *waiting, *gone)),
            convergence::record(parts_view(nodes@, *waiting, *gone)) == convergence::record(
                before,
            ),
        decreases waiting@.len(),
    {
        let ghost s = parts_view(nodes@, *waiting, *gone);
        match first_ready(nodes, waiting) {
            Some(id) => {
                proof {
                    assert(ready(s, id@));
                    convergence::lemma_let_in(s, id@);
                }
                if let Some(node) = waiting.remove(&id) {
                    place(nodes, node);
                }
                assert(parts_view(nodes@, *waiting, *gone) == let_in(s, id@));
            },
            None => {
                proof {
                    assert forall|id: IdView| !ready(s, id) by {
                        assert(s.waiting.contains_key(id) ==> !known(
                            views(nodes@),
                            waiting@[id].parent,
                        ));
                    }
                    convergence::lemma_settled(before);
                    convergence::law_record_determines(s, settled(before));
                }
                return;
            },
        }
    }
}

impl RgaSequence {
    #[verifier::type_invariant]
    spec fn inv(self) -> bool {
        convergence::sound(self@)
    }

    /// The empty sequence.
    pub fn new() -> (r: Self)
        ensures
            r@ == empty_sequence(),
    {
        let nodes: Vec<RgaNode> = Vec::new();
        let waiting: SortedMap<ElementId, RgaNode> = SortedMap::new();
        let gone: SortedMap<ElementId, bool> = SortedMap::new();
        proof {
            assert(views(nodes@) =~= Seq::<NodeView>::empty());
            assert(gone@.dom() =~= Set::<IdView>::empty());
            convergence::lemma_empty_is_sound();
        }
        RgaSequence { nodes, waiting, gone }
    }

    /// Inserts a value after the element at the given visible position; position 0 is
    /// the beginning, and a position beyond the end is the end.
    pub fn insert(
        &mut self,
        position: usize,
        value: Value,
        timestamp: u64,
        node_id: &str,
    ) -> (op: SequenceOp)
        ensures
            op@ == (SequenceOpView::Insert {
                id: IdView { timestamp, node_id: node_id@ },
                parent: parent_at(old(self)@.nodes, position as int),
                value: json::json_view(value),
            }),
            final(self)@ == sequence_apply(old(self)@, op@),
            convergence::sound(final(self)@),
    {
        let parent = self.id_at_visible_position(position);
        let id = ElementId { timestamp, node_id: node_id.to_owned() };
        let op = SequenceOp::Insert {
            id: id.clone(),
            parent: parent.clone(),
            value: value.clone(),
        };
        self.apply_insert(id, parent, value);
        op
    }

    /// Deletes the element at the given visible position.
    pub fn delete(&mut self, position: usize) -> (op: Option<SequenceOp>)
        ensures
            op is Some <==> position < visible(old(self)@.nodes).len(),
            op matches Some(o) ==> {
                &&& o@ == (SequenceOpView::Delete {
                    id: visible(old(self)@.nodes)[position as int].id,
                })
                &&& final(self)@ == sequence_apply(old(self)@, o@)
            },
            op is None ==> final(self)@ == old(self)@,
            convergence::sound(final(self)@),
    {
        proof {
            use_type_invariant(&*self);
        }
        match self.visible_place(position) {
            Some(i) => {
                let id = self.nodes[i].id.clone();
                let op = SequenceOp::Delete { id: id.clone() };
                self.apply_delete(&id);
                Some(op)
            },
            None => None,
        }
    }

    /// Applies a change that some replica made. An insert of an element that has come
    /// already changes nothing.
    pub fn apply(&mut self, op: &SequenceOp)
        ensures
            final(self)@ == sequence_apply(old(self)@, op@),
            convergence::sound(final(self)@),
    {
        match op {
            SequenceOp::Insert { id, parent, value } => {
                self.apply_insert(id.clone(), parent.clone(), value.clone());
            },
            SequenceOp::Delete { id } => {
                self.apply_delete(id);
            },
        }
    }

    /// Takes in every element and every deletion of another replica.
    pub fn merge(&mut self, other: &RgaSequence)
        ensures
            final(self)@ == sequence_merge(old(self)@, other@),
            convergence::sound(final(self)@),
    {
        proof {
            use_type_invariant(&*self);
            use_type_invariant(other);
        }
        let ghost before = self@;
        let changes = other.changes();
        let ghost ops = op_views(changes@);
        let n = changes.len();
        let mut i: usize = 0;
        assert(ops.take(0) =~= Seq::<SequenceOpView>::empty());
        while i < n
            invariant
                i <= n == changes@.len(),
                ops == op_views(changes@),
                self@ == convergence::replay(before, ops.take(i as int)),
            decreases n - i,
        {
            self.apply(&changes[i]);
            proof {
                assert(ops.take(i + 1).drop_last() =~= ops.take(i as int));
                assert(ops.take(i + 1).last() == changes@[i as int]@);
            }
            i = i + 1;
        }
        proof {
            assert(ops.take(n as int) =~= ops);
            convergence::law_changes_do_what_a_merge_does(before, other@, ops);
        }
    }

    /// The values of the elements that have not been deleted, in order.
    pub fn values(&self) -> (r: Vec<&Value>)
        ensures
            r@.len() == visible(self@.nodes).len(),
            forall|i: int|
                0 <= i < r@.len() ==> json::json_view(*#[trigger] r@[i]) == visible(
                    self@.nodes,
                )[i].value,
    {
        let mut r: Vec<&Value> = Vec::new();
        let n = self.nodes.len();
        let ghost s = self@.nodes;
        let mut i: usize = 0;
        assert(s.take(0) =~= Seq::<NodeView>::empty());
        proof {
            reveal(Seq::filter);
        }
        while i < n
            invariant
                i <= n == self.nodes@.len(),
                s == views(self.nodes@),
                r@.len() == visible(s.take(i as int)).len(),
                forall|j: int|
                    0 <= j < r@.len() ==> json::json_view(*#[trigger] r@[j]) == visible(
                        s.take(i as int),
                    )[j].value,
            decreases n - i,
        {
            proof {
                lemma_visible_push(s, i as int);
                assert(s[i as int] == self.nodes@[i as int]@);
            }
            if !self.nodes[i].tombstone {
                r.push(&self.nodes[i].value);
            }
            i = i + 1;
        }
        assert(s.take(n as int) =~= s);
        r
    }

    /// The number of elements that have not been deleted.
    pub fn len(&self) -> (r: usize)
        ensures
            r == visible(self@.nodes).len(),
    {
        let mut r: usize = 0;
        let n = self.nodes.len();
        let ghost s = self@.nodes;
        let mut i: usize = 0;
        assert(s.take(0) =~= Seq::<NodeView>::empty());
        proof {
            reveal(Seq::filter);
        }
        while i < n
            invariant
                i <= n == self.nodes@.len(),
                s == views(self.nodes@),
                r == visible(s.take(i as int)).len(),
                r <= i,
            decreases n - i,
        {
            proof {
                lemma_visible_push(s, i as int);
                assert(s[i as int] == self.nodes@[i as int]@);
            }
            if !self.nodes[i].tombstone {
                r = r + 1;
            }
            i = i + 1;
        }
        assert(s.take(n as int) =~= s);
        r
    }

    /// Whether every element has been deleted, or none was ever there.
    pub fn is_empty(&self) -> (r: bool)
        ensures
            r == (visible(self@.nodes).len() == 0),
    {
        self.len() == 0
    }

    /// Where the element at the given visible position is.
    fn visible_place(&self, position: usize) -> (r: Option<usize>)
        ensures
            r is Some <==> position < visible(self@.nodes).len(),
            r matches Some(i) ==> {
                &&& i < self.nodes@.len()
                &&& self.nodes@[i as int]@ == visible(self@.nodes)[position as int]
            },
    {
        let n = self.nodes.len();
        let ghost s = self@.nodes;
        let mut seen: usize = 0;
        let mut i: usize = 0;
        assert(s.take(0) =~= Seq::<NodeView>::empty());
        proof {
            reveal(Seq::filter);
        }
        while i < n
            invariant
                i <= n == self.nodes@.len(),
                s == views(self.nodes@),
                s == self@.nodes,
                seen == visible(s.take(i as int)).len(),
                seen <= i,
                seen <= position,
            decreases n - i,
        {
            proof {
                lemma_visible_push(s, i as int);
                assert(s[i as int] == self.nodes@[i as int]@);
            }
            if !self.nodes[i].tombstone {
                if seen == position {
                    proof {
                        lemma_visible_prefix(s, i + 1);
                    }
                    return Some(i);
                }
                seen = seen + 1;
            }
            i = i + 1;
        }
        assert(s.take(n as int) =~= s);
        None
    }

    fn id_at_visible_position(&self, position: usize) -> (r: ElementId)
        ensures
            r@ == parent_at(self@.nodes, position as int),
    {
        if position == 0 {
            return ElementId::root();
        }
        let count = self.len();
        if count == 0 {
            return ElementId::root();
        }
        let last = if position <= count {
            position - 1
        } else {
            count - 1
        };
        match self.visible_place(last) {
            Some(i) => self.nodes[i].id.clone(),
            None => ElementId::root(),
        }
    }

    fn apply_insert(&mut self, id: ElementId, parent: ElementId, value: Value)
        ensures
            final(self)@ == with_insert(
                old(self)@,
                (NodeView {
                    id: id@,
                    parent: parent@,
                    value: json::json_view(value),
                    tombstone: false,
                }),
            ),
            convergence::sound(final(self)@),
    {
        proof {
            use_type_invariant(&*self);
        }
        if is_known(&self.nodes, &id) || self.waiting.contains_key(&id) {
            return;
        }
        let ghost before = self@;
        let ghost n = NodeView {
            id: id@,
            parent: parent@,
            value: json::json_view(value),
            tombstone: false,
        };
        proof {
            convergence::law_insert_is_recorded(before, n);
        }
        let mut taken = RgaSequence::new();
        std::mem::swap(&mut taken, self);
        let RgaSequence { mut nodes, mut waiting, mut gone } = taken;
        let tombstone = gone.remove(&id).is_some();
        assert(gone@.dom() =~= before.gone.remove(id@));
        let parent_is_there = is_known(&nodes, &parent);
        let node = RgaNode { id: id.clone(), parent, value, tombstone };
        if parent_is_there {
            proof {
                convergence::lemma_insert_is_orderly(before, n);
            }
            place(&mut nodes, node);
            settle(&mut nodes, &mut waiting, &gone);
        } else {
            waiting.insert(id, node);
        }
        assert(parts_view(nodes@, waiting, gone) == with_insert(before, n));
        *self = RgaSequence { nodes, waiting, gone };
    }

    fn apply_delete(&mut self, id: &ElementId)
        ensures
            final(self)@ == without(old(self)@, id@),
            convergence::sound(final(self)@),
    {
        proof {
            use_type_invariant(&*self);
        }
        if id.is_root() {
            return;
        }
        let ghost before = self@;
        proof {
            convergence::law_delete_is_recorded(before, id@);
        }
        let place = find(&self.nodes, id);
        let mut taken = RgaSequence::new();
        std::mem::swap(&mut taken, self);
        let RgaSequence { mut nodes, mut waiting, mut gone } = taken;
        match place {
            Some(i) => {
                nodes[i].tombstone = true;
                assert(views(nodes@) =~= with_delete(before.nodes, id@));
            },
            None => match waiting.remove(id) {
                Some(held) => {
                    let mut node = held;
                    node.tombstone = true;
                    waiting.insert(id.clone(), node);
                    assert(waiting@ =~= without(before, id@).waiting);
                },
                None => {
                    assert(waiting@ =~= before.waiting);
                    gone.insert(id.clone(), true);
                    assert(gone@.dom() =~= before.gone.insert(id@));
                },
            },
        }
        assert(parts_view(nodes@, waiting, gone) == without(before, id@));
        *self = RgaSequence { nodes, waiting, gone };
    }

    /// Changes that tell all that the sequence holds. An empty sequence that applies them
    /// holds the same.
    pub fn changes(&self) -> (r: Vec<SequenceOp>)
        ensures
            convergence::tells_all(op_views(r@), convergence::record(self@)),
    {
        proof {
            use_type_invariant(self);
        }
        let ghost s = self@;
        let mut r: Vec<SequenceOp> = Vec::new();
        let n = self.nodes.len();
        let mut i: usize = 0;
        while i < n
            invariant
                i <= n == self.nodes@.len(),
                s == self@,
                convergence::sound(s),
                convergence::tells_only(op_views(r@), convergence::record(s)),
                forall|j: int|
                    0 <= j < i ==> convergence::tells_of(op_views(r@), #[trigger] s.nodes[j]),
            decreases n - i,
        {
            let node = &self.nodes[i];
            proof {
                assert(s.nodes[i as int] == node@);
                convergence::lemma_node_is_recorded(s, i as int);
            }
            tell(&mut r, node, Ghost(s));
            i = i + 1;
        }
        let m = self.waiting.len();
        let mut k: usize = 0;
        while k < m
            invariant
                n == self.nodes@.len() == s.nodes.len(),
                k <= m == self.waiting.key_views().len(),
                self.waiting.key_views().to_set() == self.waiting@.dom(),
                s == self@,
                convergence::sound(s),
                convergence::tells_only(op_views(r@), convergence::record(s)),
                forall|j: int|
                    0 <= j < n ==> convergence::tells_of(op_views(r@), #[trigger] s.nodes[j]),
                forall|j: int|
                    0 <= j < k ==> convergence::tells_of(
                        op_views(r@),
                        s.waiting[#[trigger] self.waiting.key_views()[j]],
                    ),
            decreases m - k,
        {
            let node = self.waiting.value_at(k);
            proof {
                let id = self.waiting.key_views()[k as int];
                assert(self.waiting.key_views().to_set().contains(id));
                convergence::lemma_waiting_is_recorded(s, id);
            }
            tell(&mut r, node, Ghost(s));
            k = k + 1;
        }
        let g = self.gone.len();
        let mut q: usize = 0;
        while q < g
            invariant
                n == self.nodes@.len() == s.nodes.len(),
                m == self.waiting.key_views().len(),
                q <= g == self.gone.key_views().len(),
                self.gone.key_views().to_set() == self.gone@.dom(),
                s == self@,
                convergence::sound(s),
                convergence::tells_only(op_views(r@), convergence::record(s)),
                forall|j: int|
                    0 <= j < n ==> convergence::tells_of(op_views(r@), #[trigger] s.nodes[j]),
                forall|j: int|
                    0 <= j < m ==> convergence::tells_of(
                        op_views(r@),
                        s.waiting[#[trigger] self.waiting.key_views()[j]],
                    ),
                forall|j: int|
                    0 <= j < q ==> op_views(r@).contains(
                        SequenceOpView::Delete { id: #[trigger] self.gone.key_views()[j] },
                    ),
            decreases g - q,
        {
            let ghost was = op_views(r@);
            let id = self.gone.key_at(q);
            proof {
                assert(self.gone.key_views().to_set().contains(id@));
                assert(s.gone.contains(id@));
            }
            r.push(SequenceOp::Delete { id: id.clone() });
            proof {
                let op = SequenceOpView::Delete { id: id@ };
                assert(op_views(r@) =~= was.push(op));
                convergence::lemma_tell_more(was, op, convergence::record(s));
            }
            q = q + 1;
        }
        proof {
            assert forall|id: IdView| #[trigger] s.waiting.contains_key(id) implies
                convergence::tells_of(op_views(r@), s.waiting[id]) by {
                assert(self.waiting.key_views().to_set().contains(id));
                let j = self.waiting.key_views().index_of(id);
                assert(self.waiting.key_views()[j] == id);
            }
            assert forall|id: IdView| #[trigger] s.gone.contains(id) implies op_views(
                r@,
            ).contains(SequenceOpView::Delete { id }) by {
                assert(self.gone.key_views().to_set().contains(id));
                let j = self.gone.key_views().index_of(id);
                assert(self.gone.key_views()[j] == id);
            }
            convergence::lemma_all_is_told(s, op_views(r@));
        }
        r
    }
}

/// What a list of changes says.
pub open spec fn op_views(ops: Seq<SequenceOp>) -> Seq<SequenceOpView> {
    Seq::new(ops.len(), |i: int| ops[i]@)
}

/// Adds the changes that tell of an element to a list.
fn tell(r: &mut Vec<SequenceOp>, node: &RgaNode, Ghost(s): Ghost<SequenceView>)
    requires
        convergence::tells_only(op_views(old(r)@), convergence::record(s)),
        convergence::is_recorded(convergence::record(s), node@),
    ensures
        convergence::tells_only(op_views(final(r)@), convergence::record(s)),
        convergence::tells_of(op_views(final(r)@), node@),
        forall|x: SequenceOpView| #[trigger]
            op_views(old(r)@).contains(x) ==> op_views(final(r)@).contains(x),
{
    let ghost was = op_views(r@);
    r.push(
        SequenceOp::Insert {
            id: node.id.clone(),
            parent: node.parent.clone(),
            value: node.value.clone(),
        },
    );
    let ghost then = op_views(r@);
    proof {
        let op = SequenceOpView::Insert {
            id: node@.id,
            parent: node@.parent,
            value: node@.value,
        };
        assert(then =~= was.push(op));
        convergence::lemma_tell_more(was, op, convergence::record(s));
    }
    if node.tombstone {
        r.push(SequenceOp::Delete { id: node.id.clone() });
        proof {
            let op = SequenceOpView::Delete { id: node@.id };
            assert(op_views(r@) =~= then.push(op));
            convergence::lemma_tell_more(then, op, convergence::record(s));
        }
    }
}

proof fn lemma_visible_prefix(s: Seq<NodeView>, k: int)
    requires
        0 <= k <= s.len(),
    ensures
        visible(s.take(k)).len() <= visible(s).len(),
        forall|j: int|
            0 <= j < visible(s.take(k)).len() ==> visible(s.take(k))[j] == #[trigger] visible(s)[j],
    decreases s.len() - k,
{
    if k == s.len() {
        assert(s.take(k) =~= s);
    } else {
        lemma_visible_push(s, k);
        lemma_visible_prefix(s, k + 1);
        assert forall|j: int| 0 <= j < visible(s.take(k)).len() implies visible(s.take(k))[j]
            == #[trigger] visible(s)[j] by {
            assert(visible(s.take(k + 1))[j] == visible(s.take(k))[j]);
        }
    }
}

impl Clone for RgaSequence {
    fn clone(&self) -> (r: Self)
        ensures
            r@ == self@,
    {
        proof {
            use_type_invariant(self);
        }
        let n = self.nodes.len();
        let mut nodes: Vec<RgaNode> = Vec::new();
        let mut i: usize = 0;
        while i < n
            invariant
                i <= n == self.nodes@.len(),
                nodes@.len() == i,
                forall|j: int| 0 <= j < i ==> (#[trigger] nodes@[j])@ == self.nodes@[j]@,
            decreases n - i,
        {
            nodes.push(self.nodes[i].view_clone());
            i = i + 1;
        }
        assert(views(nodes@) =~= views(self.nodes@));
        RgaSequence {
            nodes,
            waiting: self.waiting.view_clone(),
            gone: self.gone.view_clone(),
        }
    }
}

impl ViewClone for RgaSequence {
    fn view_clone(&self) -> (r: Self) {
        self.clone()
    }
}

impl Default for RgaSequence {
    fn default() -> (r: Self)
        ensures
            r@ == empty_sequence(),
    {
        RgaSequence::new()
    }
}

/// Ids are ordered by their timestamps, as numbers, and at equal timestamps by their node
/// ids. The root is the id with timestamp 0 and no node id; no id is lower.
pub proof fn law_ids_are_ordered_by_timestamp(a: IdView, b: IdView)
    ensures
        a.timestamp < b.timestamp ==> id_less(a, b) && !id_less(b, a),
        a.timestamp == b.timestamp ==> (id_less(a, b) <==> order::text_less(
            a.node_id,
            b.node_id,
        )),
        root_id().timestamp == 0,
        root_id().node_id.len() == 0,
{
}

/// What is seen of a sequence are its elements without the deleted ones, each in its place:
/// of one element it is that element or nothing, and of one part after another it is what is
/// seen of the one and then what is seen of the other.
pub proof fn law_seen_are_the_elements_that_are_not_deleted(
    a: Seq<NodeView>,
    b: Seq<NodeView>,
    n: NodeView,
)
    ensures
        visible(Seq::empty()) == Seq::<NodeView>::empty(),
        !n.tombstone ==> visible(seq![n]) == seq![n],
        n.tombstone ==> visible(seq![n]) == Seq::<NodeView>::empty(),
        visible(a + b) == visible(a) + visible(b),
        visible(a).contains(n) <==> a.contains(n) && !n.tombstone,
    decreases a.len(),
{
    let seen = |n: NodeView| !n.tombstone;
    Seq::filter_distributes_over_add(a, b, seen);
    reveal_with_fuel(Seq::filter, 2);
    assert(seq![n].drop_last() =~= Seq::<NodeView>::empty());
    assert(Seq::<NodeView>::empty().push(n) =~= seq![n]);
    if a.len() > 0 {
        let front = a.drop_last();
        let last = a.last();
        law_seen_are_the_elements_that_are_not_deleted(front, b, n);
        assert(a =~= front.push(last));
        let before = visible(front);
        assert(visible(a) == if last.tombstone {
            before
        } else {
            before.push(last)
        });
        if front.contains(n) {
            assert(a[front.index_of(n)] == n);
        }
        if a.contains(n) {
            let i = a.index_of(n);
            if i < front.len() {
                assert(front[i] == n);
            }
        }
        if before.contains(n) && !last.tombstone {
            assert(before.push(last)[before.index_of(n)] == n);
        }
        if !last.tombstone {
            assert(before.push(last)[before.len() as int] == last);
            if visible(a).contains(n) {
                let i = visible(a).index_of(n);
                if i < before.len() {
                    assert(before[i] == n);
                }
            }
        }
        assert(a[a.len() - 1] == last);
    }
}

/// An insert at a position names the element that is seen before it, one at the beginning
/// the root, and one beyond the end does what one at the end does.
pub proof fn law_insert_names_the_element_before(s: Seq<NodeView>, position: int)
    ensures
        parent_at(s, 0) == root_id(),
        0 < position <= visible(s).len() ==> parent_at(s, position) == visible(s)[position - 1].id,
        position > visible(s).len() ==> parent_at(s, position) == parent_at(
            s,
            visible(s).len() as int,
        ),
{
}

} // verus!
