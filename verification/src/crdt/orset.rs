//! Observed-remove set.

use crate::map::{SortedMap, ViewClone};
use vstd::prelude::*;

verus! {

/// The mark of one add: a unique id and the node that added.
#[derive(Debug, PartialEq, Eq, Hash)]
pub struct Tag {
    pub id: String,
    pub node_id: String,
}

/// What a tag holds.
pub struct TagView {
    pub id: Seq<char>,
    pub node_id: Seq<char>,
}

impl View for Tag {
    type V = TagView;

    open spec fn view(&self) -> TagView {
        TagView { id: self.id@, node_id: self.node_id@ }
    }
}

impl Clone for Tag {
    fn clone(&self) -> (r: Self)
        ensures
            r@ == self@,
    {
        Tag { id: self.id.clone(), node_id: self.node_id.clone() }
    }
}

impl Tag {
    fn same(&self, other: &Tag) -> (r: bool)
        ensures
            r == (self@ == other@),
    {
        self.id == other.id && self.node_id == other.node_id
    }
}

/// A set of tags.
#[derive(Debug)]
pub struct TagSet {
    tags: Vec<Tag>,
}

impl View for TagSet {
    type V = Set<TagView>;

    closed spec fn view(&self) -> Set<TagView> {
        self.listed().to_set()
    }
}

impl TagSet {
    /// The tags in the order in which they are kept.
    pub closed spec fn listed(&self) -> Seq<TagView> {
        self.tags@.map_values(|t: Tag| t@)
    }

    #[verifier::type_invariant]
    spec fn inv(self) -> bool {
        self.listed().no_duplicates()
    }

    /// The empty set.
    pub fn new() -> (r: Self)
        ensures
            r@ == Set::<TagView>::empty(),
    {
        let tags: Vec<Tag> = Vec::new();
        assert(tags@.map_values(|t: Tag| t@) =~= Seq::<TagView>::empty());
        let r = TagSet { tags };
        assert(r@ =~= Set::<TagView>::empty());
        r
    }

    fn find(&self, tag: &Tag) -> (r: Option<usize>)
        ensures
            r is Some <==> self@.contains(tag@),
            r matches Some(i) ==> i < self.tags@.len() && self.listed()[i as int] == tag@,
    {
        let n = self.tags.len();
        let mut i: usize = 0;
        while i < n
            invariant
                i <= n == self.tags@.len(),
                forall|j: int| 0 <= j < i ==> #[trigger] self.listed()[j] != tag@,
            decreases n - i,
        {
            assert(self.listed()[i as int] == self.tags@[i as int]@);
            if self.tags[i].same(tag) {
                assert(self.listed().contains(tag@));
                return Some(i);
            }
            i = i + 1;
        }
        None
    }

    /// Whether `tag` is in the set.
    pub fn contains(&self, tag: &Tag) -> (r: bool)
        ensures
            r == self@.contains(tag@),
    {
        self.find(tag).is_some()
    }

    /// Puts `tag` in.
    pub fn insert(&mut self, tag: Tag)
        ensures
            final(self)@ == old(self)@.insert(tag@),
    {
        proof {
            use_type_invariant(&*self);
        }
        let ghost before = self.listed();
        if self.contains(&tag) {
            assert(self@.insert(tag@) =~= self@);
            return;
        }
        let mut taken = TagSet::new();
        std::mem::swap(&mut taken, self);
        let TagSet { mut tags } = taken;
        tags.push(tag);
        proof {
            assert(tags@.map_values(|t: Tag| t@) =~= before.push(tag@));
            assert(!before.contains(tag@));
            assert(before.push(tag@).no_duplicates());
            assert(before.push(tag@).to_set() =~= before.to_set().insert(tag@)) by {
                assert forall|x: TagView| before.push(tag@).contains(x) <==> before.contains(x) || x
                    == tag@ by {
                    if before.contains(x) {
                        let i = before.index_of(x);
                        assert(before.push(tag@)[i] == x);
                    }
                    assert(before.push(tag@)[before.len() as int] == tag@);
                }
            }
        }
        *self = TagSet { tags };
    }

    /// Takes `tag` out.
    pub fn remove(&mut self, tag: &Tag)
        ensures
            final(self)@ == old(self)@.remove(tag@),
    {
        proof {
            use_type_invariant(&*self);
        }
        let ghost before = self.listed();
        match self.find(tag) {
            Some(i) => {
                let mut taken = TagSet::new();
                std::mem::swap(&mut taken, self);
                let TagSet { mut tags } = taken;
                tags.remove(i);
                proof {
                    let after = before.remove(i as int);
                    assert(tags@.map_values(|t: Tag| t@) =~= after);
                    assert forall|a: int, b: int|
                        0 <= a < after.len() && 0 <= b < after.len() && a != b implies after[a]
                        != after[b] by {
                        let x = if a < i { a } else { a + 1 };
                        let y = if b < i { b } else { b + 1 };
                        assert(before[x] != before[y]);
                    }
                    assert(after.to_set() =~= before.to_set().remove(tag@)) by {
                        assert forall|x: TagView| after.contains(x) <==> before.contains(x) && x
                            != tag@ by {
                            if before.contains(x) && x != tag@ {
                                let j = before.index_of(x);
                                if j < i {
                                    assert(after[j] == x);
                                } else {
                                    assert(after[j - 1] == x);
                                }
                            }
                            if after.contains(x) {
                                let j = after.index_of(x);
                                if j < i {
                                    assert(before[j] == x);
                                } else {
                                    assert(before[j + 1] == x);
                                }
                            }
                        }
                    }
                }
                *self = TagSet { tags };
            },
            None => {
                assert(self@.remove(tag@) =~= self@);
            },
        }
    }

    /// The number of tags.
    pub fn len(&self) -> (n: usize)
        ensures
            n == self@.len(),
            n == self.listed().len(),
            self.listed().to_set() == self@,
            self@.finite(),
    {
        proof {
            use_type_invariant(self);
            self.listed().unique_seq_to_set();
        }
        self.tags.len()
    }

    /// Whether there are no tags.
    pub fn is_empty(&self) -> (r: bool)
        ensures
            r == (self@ == Set::<TagView>::empty()),
    {
        let n = self.len();
        proof {
            if n == 0 {
                assert(self@ =~= Set::<TagView>::empty());
            } else {
                assert(self.listed().to_set().contains(self.listed()[0]));
            }
        }
        n == 0
    }

    /// The tag at place `i` of the list.
    pub fn tag_at(&self, i: usize) -> (r: &Tag)
        requires
            i < self.listed().len(),
        ensures
            r@ == self.listed()[i as int],
    {
        &self.tags[i]
    }

    /// Puts every tag of `other` in.
    pub fn insert_all(&mut self, other: &TagSet)
        ensures
            final(self)@ == old(self)@.union(other@),
    {
        let n = other.len();
        let mut i: usize = 0;
        assert(other.listed().take(0).to_set() =~= Set::<TagView>::empty());
        assert(self@.union(Set::<TagView>::empty()) =~= self@);
        while i < n
            invariant
                i <= n == other.listed().len(),
                other.listed().to_set() == other@,
                self@ == old(self)@.union(other.listed().take(i as int).to_set()),
            decreases n - i,
        {
            self.insert(other.tag_at(i).clone());
            proof {
                lemma_take_set(other.listed(), i as int);
                assert(self@ =~= old(self)@.union(other.listed().take(i + 1).to_set()));
            }
            i = i + 1;
        }
        assert(other.listed().take(n as int) =~= other.listed());
    }

    /// Takes every tag of `other` out.
    pub fn remove_all(&mut self, other: &TagSet)
        ensures
            final(self)@ == old(self)@.difference(other@),
    {
        let n = other.len();
        let mut i: usize = 0;
        assert(other.listed().take(0).to_set() =~= Set::<TagView>::empty());
        assert(self@.difference(Set::<TagView>::empty()) =~= self@);
        while i < n
            invariant
                i <= n == other.listed().len(),
                other.listed().to_set() == other@,
                self@ == old(self)@.difference(other.listed().take(i as int).to_set()),
            decreases n - i,
        {
            self.remove(other.tag_at(i));
            proof {
                lemma_take_set(other.listed(), i as int);
                assert(self@ =~= old(self)@.difference(other.listed().take(i + 1).to_set()));
            }
            i = i + 1;
        }
        assert(other.listed().take(n as int) =~= other.listed());
    }
}

proof fn lemma_take_set(s: Seq<TagView>, i: int)
    requires
        0 <= i < s.len(),
    ensures
        s.take(i + 1).to_set() == s.take(i).to_set().insert(s[i]),
{
    let a = s.take(i + 1);
    let b = s.take(i);
    assert forall|x: TagView| a.contains(x) <==> b.contains(x) || x == s[i] by {
        if a.contains(x) {
            let j = a.index_of(x);
            if j < i {
                assert(b[j] == x);
            }
        }
        if b.contains(x) {
            assert(a[b.index_of(x)] == x);
        }
        assert(a[i] == s[i]);
    }
    assert(a.to_set() =~= b.to_set().insert(s[i]));
}

impl Clone for TagSet {
    fn clone(&self) -> (r: Self)
        ensures
            r@ == self@,
    {
        let mut r = TagSet::new();
        r.insert_all(self);
        assert(r@ =~= self@);
        r
    }
}

impl ViewClone for TagSet {
    fn view_clone(&self) -> (r: Self) {
        self.clone()
    }
}

/// A change of a set, as it is sent to other replicas.
#[derive(Debug)]
pub enum OrSetOp {
    Add { element: String, tag: Tag },
    Remove { element: String, observed_tags: TagSet },
}

/// What a change of a set says.
pub enum OrSetOpView {
    Add { element: Seq<char>, tag: TagView },
    Remove { element: Seq<char>, observed_tags: Set<TagView> },
}

impl View for OrSetOp {
    type V = OrSetOpView;

    open spec fn view(&self) -> OrSetOpView {
        match self {
            OrSetOp::Add { element, tag } => OrSetOpView::Add { element: element@, tag: tag@ },
            OrSetOp::Remove { element, observed_tags } => OrSetOpView::Remove {
                element: element@,
                observed_tags: observed_tags@,
            },
        }
    }
}

impl Clone for OrSetOp {
    fn clone(&self) -> (r: Self)
        ensures
            r@ == self@,
    {
        match self {
            OrSetOp::Add { element, tag } => OrSetOp::Add {
                element: element.clone(),
                tag: tag.clone(),
            },
            OrSetOp::Remove { element, observed_tags } => OrSetOp::Remove {
                element: element.clone(),
                observed_tags: observed_tags.clone(),
            },
        }
    }
}

/// Observed-remove set.
///
/// Each add makes a unique tag. A remove takes away only the tags that it observed.
/// So if two nodes concurrently add and remove the same element the add wins: its tag
/// was never observed by the remover.
///
/// Tags that were taken away are remembered, so that an add that comes after a remove
/// that observed it adds nothing.
#[derive(Debug)]
pub struct OrSet {
    elements: SortedMap<String, TagSet>,
    removed: SortedMap<String, TagSet>,
}

/// What a set holds: the tags of each of its elements, and which tags have been taken
/// away from which elements.
pub struct SetView {
    pub live: Map<Seq<char>, Set<TagView>>,
    pub removed: Set<(Seq<char>, TagView)>,
}

impl View for OrSet {
    type V = SetView;

    closed spec fn view(&self) -> SetView {
        SetView { live: self.elements@, removed: pairs(self.removed@) }
    }
}

/// The pairs of an element and one of its tags.
pub open spec fn pairs(m: Map<Seq<char>, Set<TagView>>) -> Set<(Seq<char>, TagView)> {
    Set::new(|p: (Seq<char>, TagView)| m.contains_key(p.0) && m[p.0].contains(p.1))
}

/// The set without elements, from which nothing has been taken away.
pub open spec fn empty_set() -> SetView {
    SetView { live: Map::empty(), removed: Set::empty() }
}

/// The tags of `e`; none if it is no element.
pub open spec fn tags_of(s: SetView, e: Seq<char>) -> Set<TagView> {
    if s.live.contains_key(e) {
        s.live[e]
    } else {
        Set::empty()
    }
}

/// The tags that have been taken away from `e`.
pub open spec fn removed_from(s: SetView, e: Seq<char>) -> Set<TagView> {
    Set::new(|t: TagView| s.removed.contains((e, t)))
}

/// There is a tag among the tags.
pub open spec fn any(tags: Set<TagView>) -> bool {
    exists|t: TagView| tags.contains(t)
}

/// Every element has a tag, and none that has been taken away.
pub open spec fn sound(s: SetView) -> bool {
    &&& forall|e: Seq<char>| #[trigger] s.live.contains_key(e) ==> any(s.live[e])
    &&& forall|e: Seq<char>, t: TagView| #[trigger]
        tags_of(s, e).contains(t) ==> !s.removed.contains((e, t))
}

/// The elements with the tags of one of them changed; one without tags is no element.
pub open spec fn with_tags(
    live: Map<Seq<char>, Set<TagView>>,
    e: Seq<char>,
    tags: Set<TagView>,
) -> Map<Seq<char>, Set<TagView>> {
    if any(tags) {
        live.insert(e, tags)
    } else {
        live.remove(e)
    }
}

/// The set after a change: an add gives the element a tag that has not been taken away
/// from it, a remove takes the observed tags away, and the element with them if no tag is
/// left.
pub open spec fn set_apply(s: SetView, op: OrSetOpView) -> SetView {
    match op {
        OrSetOpView::Add { element, tag } => if s.removed.contains((element, tag)) {
            s
        } else {
            SetView {
                live: s.live.insert(element, tags_of(s, element).insert(tag)),
                removed: s.removed,
            }
        },
        OrSetOpView::Remove { element, observed_tags } => SetView {
            live: with_tags(s.live, element, tags_of(s, element).difference(observed_tags)),
            removed: s.removed.union(
                Set::new(
                    |p: (Seq<char>, TagView)| p.0 == element && observed_tags.contains(p.1),
                ),
            ),
        },
    }
}

/// The tags that an element has after a merge: those that one of the replicas holds and
/// none has taken away.
pub open spec fn merged_tags(s: SetView, other: SetView, e: Seq<char>) -> Set<TagView> {
    tags_of(s, e).union(tags_of(other, e)).difference(removed_from(s, e)).difference(
        removed_from(other, e),
    )
}

/// The set with everything that another replica holds, and without what it has taken
/// away.
pub open spec fn set_merge(s: SetView, other: SetView) -> SetView {
    SetView {
        live: Map::new(
            |e: Seq<char>| any(merged_tags(s, other, e)),
            |e: Seq<char>| merged_tags(s, other, e),
        ),
        removed: s.removed.union(other.removed),
    }
}

/// A character of a lower-case hexadecimal number.
pub open spec fn is_hex_digit(c: char) -> bool {
    ('0' <= c && c <= '9') || ('a' <= c && c <= 'f')
}

/// The text of a random UUID: groups of 8, 4, 4, 4 and 12 lower-case hexadecimal
/// digits with hyphens between them, the version digit being 4 and the variant digit one
/// of 8, 9, a and b.
pub open spec fn is_random_uuid(s: Seq<char>) -> bool {
    &&& s.len() == 36
    &&& s[14] == '4'
    &&& s[19] == '8' || s[19] == '9' || s[19] == 'a' || s[19] == 'b'
    &&& forall|i: int|
        0 <= i < 36 ==> if i == 8 || i == 13 || i == 18 || i == 23 {
            #[trigger] s[i] == '-'
        } else {
            is_hex_digit(s[i])
        }
}

/// `uuid::Uuid::new_v4` and its `to_string`: a random UUID in its hyphenated form.
/// That two calls give different ids is overwhelmingly likely and not claimed.
#[verifier::external_body]
fn random_id() -> (r: String)
    ensures
        is_random_uuid(r@),
{
    uuid::Uuid::new_v4().to_string()
}

impl OrSet {
    #[verifier::type_invariant]
    spec fn inv(self) -> bool {
        sound(self@)
    }

    /// The empty set.
    pub fn new() -> (r: Self)
        ensures
            r@ == empty_set(),
    {
        let elements: SortedMap<String, TagSet> = SortedMap::new();
        let removed: SortedMap<String, TagSet> = SortedMap::new();
        assert(pairs(removed@) =~= Set::<(Seq<char>, TagView)>::empty());
        OrSet { elements, removed }
    }

    /// Adds `element` under a new tag of `node_id`.
    pub fn add(&mut self, element: String, node_id: &str) -> (op: OrSetOp)
        ensures
            op@ matches OrSetOpView::Add { element: e, tag } && e == element@ && tag.node_id
                == node_id@ && is_random_uuid(tag.id),
            final(self)@ == set_apply(old(self)@, op@),
            sound(final(self)@),
    {
        let tag = Tag { id: random_id(), node_id: node_id.to_owned() };
        let op = OrSetOp::Add { element, tag };
        self.apply(&op);
        op
    }

    /// Removes `element` and hands back the change, which names the tags that it had;
    /// nothing if it is no element.
    pub fn remove(&mut self, element: &str) -> (op: Option<OrSetOp>)
        ensures
            op is Some <==> old(self)@.live.contains_key(element@),
            op matches Some(o) ==> {
                &&& o@ == (OrSetOpView::Remove {
                    element: element@,
                    observed_tags: old(self)@.live[element@],
                })
                &&& final(self)@ == set_apply(old(self)@, o@)
            },
            op is None ==> final(self)@ == old(self)@,
            sound(final(self)@),
    {
        proof {
            use_type_invariant(&*self);
        }
        let name = element.to_owned();
        let observed_tags = match self.elements.get(&name) {
            Some(tags) => tags.clone(),
            None => return None,
        };
        self.take_away(&name, &observed_tags);
        Some(OrSetOp::Remove { element: name, observed_tags })
    }

    /// Applies a change that some replica made.
    pub fn apply(&mut self, op: &OrSetOp)
        ensures
            final(self)@ == set_apply(old(self)@, op@),
            sound(final(self)@),
    {
        match op {
            OrSetOp::Add { element, tag } => self.add_tag(element, tag),
            OrSetOp::Remove { element, observed_tags } => self.take_away(element, observed_tags),
        }
    }

    fn add_tag(&mut self, element: &String, tag: &Tag)
        ensures
            final(self)@ == set_apply(
                old(self)@,
                (OrSetOpView::Add { element: element@, tag: tag@ }),
            ),
            sound(final(self)@),
    {
        proof {
            use_type_invariant(&*self);
        }
        let ghost before = self@;
        let ghost op = OrSetOpView::Add { element: element@, tag: tag@ };
        let known = match self.removed.get(element) {
            Some(tags) => tags.contains(tag),
            None => false,
        };
        if known {
            return;
        }
        let mut taken = OrSet::new();
        std::mem::swap(&mut taken, self);
        let OrSet { mut elements, removed } = taken;
        let mut tags = match elements.remove(element) {
            Some(tags) => tags,
            None => TagSet::new(),
        };
        tags.insert(tag.clone());
        elements.insert(element.clone(), tags);
        proof {
            assert(tags_of(before, element@).insert(tag@).contains(tag@));
            assert(elements@ =~= set_apply(before, op).live);
            law_change_keeps_sound(before, op);
        }
        *self = OrSet { elements, removed };
    }

    fn take_away(&mut self, element: &String, observed_tags: &TagSet)
        ensures
            final(self)@ == set_apply(
                old(self)@,
                (OrSetOpView::Remove { element: element@, observed_tags: observed_tags@ }),
            ),
            sound(final(self)@),
    {
        proof {
            use_type_invariant(&*self);
        }
        let ghost before = self@;
        let ghost op = OrSetOpView::Remove { element: element@, observed_tags: observed_tags@ };
        let mut taken = OrSet::new();
        std::mem::swap(&mut taken, self);
        let OrSet { mut elements, mut removed } = taken;
        match elements.remove(element) {
            Some(held) => {
                let mut tags = held;
                tags.remove_all(observed_tags);
                proof {
                    lemma_any(tags@);
                }
                if !tags.is_empty() {
                    elements.insert(element.clone(), tags);
                }
            },
            None => {},
        }
        assert(elements@ =~= set_apply(before, op).live);
        let ghost was = removed@;
        let mut gone = match removed.remove(element) {
            Some(tags) => tags,
            None => TagSet::new(),
        };
        gone.insert_all(observed_tags);
        removed.insert(element.clone(), gone);
        proof {
            assert forall|p: (Seq<char>, TagView)|
                pairs(removed@).contains(p) <==> set_apply(before, op).removed.contains(p) by {
                assert(pairs(was).contains(p) == before.removed.contains(p));
            }
            assert(pairs(removed@) =~= set_apply(before, op).removed);
            law_change_keeps_sound(before, op);
        }
        *self = OrSet { elements, removed };
    }

    /// Takes in every tag of another replica, and takes away what it has taken away.
    pub fn merge(&mut self, other: &OrSet)
        ensures
            final(self)@ == set_merge(old(self)@, other@),
            sound(final(self)@),
    {
        proof {
            use_type_invariant(&*self);
            use_type_invariant(other);
        }
        let ghost before = self@;
        let changes = other.changes();
        let ghost ops = op_views(changes@);
        let n = changes.len();
        let mut i: usize = 0;
        assert(ops.take(0) =~= Seq::<OrSetOpView>::empty());
        while i < n
            invariant
                i <= n == changes@.len(),
                ops == op_views(changes@),
                self@ == set_replay(before, ops.take(i as int)),
            decreases n - i,
        {
            self.apply(&changes[i]);
            proof {
                assert(ops.take(i + 1).drop_last() =~= ops.take(i as int));
                assert(ops.take(i + 1).last() == changes@[i as int]@);
            }
            i = i + 1;
        }
        proof {
            assert(ops.take(n as int) =~= ops);
            law_changes_do_what_a_merge_does(before, other@, ops);
        }
    }

    /// Whether `element` is in the set.
    pub fn contains(&self, element: &str) -> (r: bool)
        ensures
            r == self@.live.contains_key(element@),
    {
        let name = element.to_owned();
        self.elements.contains_key(&name)
    }

    /// The elements, each once, in text order.
    pub fn elements(&self) -> (r: Vec<&str>)
        ensures
            forall|i: int| 0 <= i < r@.len() ==> self@.live.contains_key(#[trigger] r@[i]@),
            forall|e: Seq<char>| #[trigger]
                self@.live.contains_key(e) ==> exists|i: int| 0 <= i < r@.len() && r@[i]@ == e,
            forall|i: int, j: int|
                0 <= i < j < r@.len() ==> crate::order::text_less(
                    #[trigger] r@[i]@,
                    #[trigger] r@[j]@,
                ),
            r@.len() == self@.live.len(),
    {
        let n = self.elements.len();
        let ghost names = self.elements.key_views();
        let mut r: Vec<&str> = Vec::new();
        let mut i: usize = 0;
        while i < n
            invariant
                i <= n == names.len(),
                names == self.elements.key_views(),
                r@.len() == i,
                forall|j: int| 0 <= j < i ==> #[trigger] r@[j]@ == names[j],
                forall|j: int| 0 <= j < i ==> self@.live.contains_key(#[trigger] names[j]),
            decreases n - i,
        {
            r.push(self.elements.key_at(i).as_str());
            i = i + 1;
        }
        proof {
            assert forall|e: Seq<char>| #[trigger] self@.live.contains_key(e) implies exists|i: int|
                0 <= i < r@.len() && r@[i]@ == e by {
                assert(names.to_set().contains(e));
                let j = names.index_of(e);
                assert(r@[j]@ == e);
            }
        }
        r
    }

    /// The number of elements.
    pub fn len(&self) -> (n: usize)
        ensures
            n == self@.live.len(),
    {
        self.elements.len()
    }

    /// Whether there are no elements.
    pub fn is_empty(&self) -> (r: bool)
        ensures
            r == (self@.live == Map::<Seq<char>, Set<TagView>>::empty()),
    {
        self.elements.is_empty()
    }

    /// The tags of `element`, if it is in the set.
    pub fn tags(&self, element: &str) -> (r: Option<&TagSet>)
        ensures
            r is Some <==> self@.live.contains_key(element@),
            r matches Some(tags) ==> tags@ == self@.live[element@],
    {
        let name = element.to_owned();
        self.elements.get(&name)
    }

    /// Changes that tell all that the set holds and has taken away. An empty set that
    /// applies them holds the same.
    pub fn changes(&self) -> (r: Vec<OrSetOp>)
        ensures
            tells_all(op_views(r@), self@),
    {
        proof {
            use_type_invariant(self);
        }
        let ghost s = self@;
        let mut r: Vec<OrSetOp> = Vec::new();
        let m = self.removed.len();
        let mut i: usize = 0;
        while i < m
            invariant
                i <= m == self.removed.key_views().len(),
                self.removed.key_views().to_set() == self.removed@.dom(),
                s == self@,
                tells_only(op_views(r@), s),
                forall|j: int|
                    0 <= j < i ==> op_views(r@).contains(
                        OrSetOpView::Remove {
                            element: #[trigger] self.removed.key_views()[j],
                            observed_tags: self.removed@[self.removed.key_views()[j]],
                        },
                    ),
            decreases m - i,
        {
            let ghost was = op_views(r@);
            let element = self.removed.key_at(i);
            let observed_tags = self.removed.value_at(i);
            r.push(
                OrSetOp::Remove { element: element.clone(), observed_tags: observed_tags.clone() },
            );
            proof {
                let op = OrSetOpView::Remove { element: element@, observed_tags: observed_tags@ };
                assert(op_views(r@) =~= was.push(op));
                assert forall|t: TagView| #[trigger] observed_tags@.contains(t) implies s.removed.contains(
                    (element@, t),
                ) by {
                    assert(pairs(self.removed@).contains((element@, t)));
                }
                lemma_tell_more(was, op, s);
            }
            i = i + 1;
        }
        let n = self.elements.len();
        let mut k: usize = 0;
        while k < n
            invariant
                m == self.removed.key_views().len(),
                k <= n == self.elements.key_views().len(),
                self.elements.key_views().to_set() == self.elements@.dom(),
                s == self@,
                tells_only(op_views(r@), s),
                forall|j: int|
                    0 <= j < m ==> op_views(r@).contains(
                        OrSetOpView::Remove {
                            element: #[trigger] self.removed.key_views()[j],
                            observed_tags: self.removed@[self.removed.key_views()[j]],
                        },
                    ),
                forall|j: int, t: TagView|
                    0 <= j < k && #[trigger] self.elements@[self.elements.key_views()[j]].contains(
                        t,
                    ) ==> op_views(r@).contains(
                        OrSetOpView::Add { element: self.elements.key_views()[j], tag: t },
                    ),
            decreases n - k,
        {
            let ghost was = op_views(r@);
            let element = self.elements.key_at(k);
            let tags = self.elements.value_at(k);
            tell_tags(&mut r, element, tags, Ghost(s));
            proof {
                assert forall|j: int, t: TagView|
                    0 <= j < k + 1
                        && #[trigger] self.elements@[self.elements.key_views()[j]].contains(
                        t,
                    ) implies op_views(r@).contains(
                    OrSetOpView::Add { element: self.elements.key_views()[j], tag: t },
                ) by {
                    if j < k {
                        assert(was.contains(
                            OrSetOpView::Add { element: self.elements.key_views()[j], tag: t },
                        ));
                    }
                }
            }
            k = k + 1;
        }
        proof {
            assert forall|e: Seq<char>, t: TagView| #[trigger]
                tags_of(s, e).contains(t) implies op_views(r@).contains(
                OrSetOpView::Add { element: e, tag: t },
            ) by {
                assert(self.elements.key_views().to_set().contains(e));
                let j = self.elements.key_views().index_of(e);
                assert(self.elements@[self.elements.key_views()[j]].contains(t));
            }
            assert forall|e: Seq<char>, t: TagView| #[trigger]
                s.removed.contains((e, t)) implies takes_away(op_views(r@).to_set(), e, t) by {
                assert(pairs(self.removed@).contains((e, t)));
                let names = self.removed.key_views();
                assert(self.removed@.dom().contains(e));
                assert(names.to_set().contains(e));
                let j = names.index_of(e);
                assert(names[j] == e);
                let op = OrSetOpView::Remove { element: e, observed_tags: self.removed@[e] };
                assert(op_views(r@).contains(op));
                assert(op_views(r@).to_set().contains(op));
            }
        }
        r
    }
}

/// Adds the changes that tell of the tags of an element to a list.
fn tell_tags(r: &mut Vec<OrSetOp>, element: &String, tags: &TagSet, Ghost(s): Ghost<SetView>)
    requires
        tells_only(op_views(old(r)@), s),
        tags@ == tags_of(s, element@),
    ensures
        tells_only(op_views(final(r)@), s),
        forall|x: OrSetOpView| #[trigger]
            op_views(old(r)@).contains(x) ==> op_views(final(r)@).contains(x),
        forall|t: TagView| #[trigger]
            tags@.contains(t) ==> op_views(final(r)@).contains(
                OrSetOpView::Add { element: element@, tag: t },
            ),
{
    let n = tags.len();
    let mut i: usize = 0;
    while i < n
        invariant
            i <= n == tags.listed().len(),
            tags.listed().to_set() == tags@,
            tags@ == tags_of(s, element@),
            tells_only(op_views(r@), s),
            forall|x: OrSetOpView| #[trigger]
                op_views(old(r)@).contains(x) ==> op_views(r@).contains(x),
            forall|j: int|
                0 <= j < i ==> op_views(r@).contains(
                    OrSetOpView::Add { element: element@, tag: #[trigger] tags.listed()[j] },
                ),
        decreases n - i,
    {
        let ghost was = op_views(r@);
        let tag = tags.tag_at(i);
        r.push(OrSetOp::Add { element: element.clone(), tag: tag.clone() });
        proof {
            let op = OrSetOpView::Add { element: element@, tag: tag@ };
            assert(op_views(r@) =~= was.push(op));
            assert(tags.listed().to_set().contains(tag@));
            lemma_tell_more(was, op, s);
        }
        i = i + 1;
    }
    proof {
        assert forall|t: TagView| #[trigger] tags@.contains(t) implies op_views(r@).contains(
            OrSetOpView::Add { element: element@, tag: t },
        ) by {
            assert(tags.listed().to_set().contains(t));
            let j = tags.listed().index_of(t);
            assert(tags.listed()[j] == t);
        }
    }
}

/// What a list of changes says.
pub open spec fn op_views(ops: Seq<OrSetOp>) -> Seq<OrSetOpView> {
    Seq::new(ops.len(), |i: int| ops[i]@)
}

impl Clone for OrSet {
    fn clone(&self) -> (r: Self)
        ensures
            r@ == self@,
    {
        proof {
            use_type_invariant(self);
        }
        OrSet { elements: self.elements.view_clone(), removed: self.removed.view_clone() }
    }
}

impl ViewClone for OrSet {
    fn view_clone(&self) -> (r: Self) {
        self.clone()
    }
}

impl Default for OrSet {
    fn default() -> (r: Self)
        ensures
            r@ == empty_set(),
    {
        OrSet::new()
    }
}

/// A change that says nothing but what a set holds and has taken away.
pub open spec fn is_told_by(op: OrSetOpView, s: SetView) -> bool {
    match op {
        OrSetOpView::Add { element, tag } => tags_of(s, element).contains(tag),
        OrSetOpView::Remove { element, observed_tags } => forall|t: TagView| #[trigger]
            observed_tags.contains(t) ==> s.removed.contains((element, t)),
    }
}

/// Changes that say nothing but what a set holds and has taken away.
pub open spec fn tells_only(ops: Seq<OrSetOpView>, s: SetView) -> bool {
    forall|x: OrSetOpView| #[trigger] ops.contains(x) ==> is_told_by(x, s)
}

/// Changes that say exactly what a set holds and has taken away.
pub open spec fn tells_all(ops: Seq<OrSetOpView>, s: SetView) -> bool {
    &&& tells_only(ops, s)
    &&& forall|e: Seq<char>, t: TagView| #[trigger]
        tags_of(s, e).contains(t) ==> ops.contains(OrSetOpView::Add { element: e, tag: t })
    &&& forall|e: Seq<char>, t: TagView| #[trigger]
        s.removed.contains((e, t)) ==> takes_away(ops.to_set(), e, t)
}

proof fn lemma_tell_more(ops: Seq<OrSetOpView>, op: OrSetOpView, s: SetView)
    requires
        tells_only(ops, s),
        is_told_by(op, s),
    ensures
        tells_only(ops.push(op), s),
        ops.push(op).contains(op),
        forall|x: OrSetOpView| #[trigger] ops.contains(x) ==> ops.push(op).contains(x),
{
    let more = ops.push(op);
    assert(more[ops.len() as int] == op);
    assert forall|x: OrSetOpView| #[trigger] ops.contains(x) implies more.contains(x) by {
        assert(more[ops.index_of(x)] == x);
    }
    assert forall|x: OrSetOpView| #[trigger] more.contains(x) implies is_told_by(x, s) by {
        let i = more.index_of(x);
        if i < ops.len() {
            assert(ops[i] == x);
            assert(ops.contains(x));
        }
    }
}

proof fn lemma_any(tags: Set<TagView>)
    ensures
        any(tags) <==> tags != Set::<TagView>::empty(),
{
    if !any(tags) {
        assert(tags =~= Set::<TagView>::empty());
    }
}

/// Two sound sets that have the same tags and have taken the same away are the same.
proof fn lemma_same_tags(a: SetView, b: SetView)
    requires
        sound(a),
        sound(b),
        forall|e: Seq<char>, t: TagView| #[trigger]
            tags_of(a, e).contains(t) <==> tags_of(b, e).contains(t),
        forall|e: Seq<char>, t: TagView| #[trigger]
            a.removed.contains((e, t)) <==> b.removed.contains((e, t)),
    ensures
        a == b,
{
    assert forall|e: Seq<char>| #[trigger] tags_of(a, e) == tags_of(b, e) by {
        assert(tags_of(a, e) =~= tags_of(b, e));
    }
    assert forall|e: Seq<char>| #[trigger] a.live.contains_key(e) <==> b.live.contains_key(e) by {
        assert(tags_of(a, e) == tags_of(b, e));
        assert(b.live.contains_key(e) ==> any(b.live[e]));
    }
    assert forall|e: Seq<char>| a.live.contains_key(e) implies #[trigger] a.live[e] == b.live[e] by {
        assert(tags_of(a, e) == tags_of(b, e));
    }
    assert(a.live =~= b.live);
    assert forall|p: (Seq<char>, TagView)| a.removed.contains(p) <==> b.removed.contains(p) by {
        assert(a.removed.contains((p.0, p.1)) <==> b.removed.contains((p.0, p.1)));
    }
    assert(a.removed =~= b.removed);
}

/// What a change does to the tags.
proof fn lemma_change(s: SetView, op: OrSetOpView, e: Seq<char>, t: TagView)
    ensures
        match op {
            OrSetOpView::Add { element, tag } => {
                &&& tags_of(set_apply(s, op), e).contains(t) <==> tags_of(s, e).contains(t) || (e
                    == element && t == tag && !s.removed.contains((e, t)))
                &&& set_apply(s, op).removed.contains((e, t)) <==> s.removed.contains((e, t))
            },
            OrSetOpView::Remove { element, observed_tags } => {
                &&& tags_of(set_apply(s, op), e).contains(t) <==> tags_of(s, e).contains(t) && !(e
                    == element && observed_tags.contains(t))
                &&& set_apply(s, op).removed.contains((e, t)) <==> s.removed.contains((e, t)) || (e
                    == element && observed_tags.contains(t))
            },
        },
{
    match op {
        OrSetOpView::Add { element, tag } => {
            assert(tags_of(s, element).insert(tag).contains(tag));
        },
        OrSetOpView::Remove { element, observed_tags } => {
            let left = tags_of(s, element).difference(observed_tags);
            assert(left.contains(t) ==> any(left));
        },
    }
}

/// A change leaves a sound set sound.
pub proof fn law_change_keeps_sound(s: SetView, op: OrSetOpView)
    requires
        sound(s),
    ensures
        sound(set_apply(s, op)),
{
    let t = set_apply(s, op);
    assert forall|e: Seq<char>, x: TagView| #[trigger]
        tags_of(t, e).contains(x) implies !t.removed.contains((e, x)) by {
        lemma_change(s, op, e, x);
    }
    if let OrSetOpView::Add { element, tag } = op {
        assert(tags_of(s, element).insert(tag).contains(tag));
    }
}

/// A merge gives a sound set.
pub proof fn law_merge_keeps_sound(a: SetView, b: SetView)
    ensures
        sound(set_merge(a, b)),
{
}

proof fn lemma_merged(a: SetView, b: SetView, e: Seq<char>, t: TagView)
    ensures
        tags_of(set_merge(a, b), e).contains(t) <==> {
            &&& tags_of(a, e).contains(t) || tags_of(b, e).contains(t)
            &&& !a.removed.contains((e, t))
            &&& !b.removed.contains((e, t))
        },
        set_merge(a, b).removed.contains((e, t)) <==> a.removed.contains((e, t))
            || b.removed.contains((e, t)),
{
    let m = merged_tags(a, b, e);
    assert(m.contains(t) ==> any(m));
}

/// Merging is commutative.
pub proof fn law_set_merge_commutative(a: SetView, b: SetView)
    ensures
        set_merge(a, b) == set_merge(b, a),
{
    law_merge_keeps_sound(a, b);
    law_merge_keeps_sound(b, a);
    assert forall|e: Seq<char>, t: TagView| #[trigger]
        tags_of(set_merge(a, b), e).contains(t) <==> tags_of(set_merge(b, a), e).contains(t) by {
        lemma_merged(a, b, e, t);
        lemma_merged(b, a, e, t);
    }
    lemma_same_tags(set_merge(a, b), set_merge(b, a));
}

/// Merging is associative.
pub proof fn law_set_merge_associative(a: SetView, b: SetView, c: SetView)
    ensures
        set_merge(set_merge(a, b), c) == set_merge(a, set_merge(b, c)),
{
    let left = set_merge(set_merge(a, b), c);
    let right = set_merge(a, set_merge(b, c));
    law_merge_keeps_sound(set_merge(a, b), c);
    law_merge_keeps_sound(a, set_merge(b, c));
    assert forall|e: Seq<char>, t: TagView| #[trigger]
        tags_of(left, e).contains(t) <==> tags_of(right, e).contains(t) by {
        lemma_merged(a, b, e, t);
        lemma_merged(set_merge(a, b), c, e, t);
        lemma_merged(b, c, e, t);
        lemma_merged(a, set_merge(b, c), e, t);
    }
    lemma_same_tags(left, right);
}

/// Merging a set with itself changes nothing, nor does merging the same replica twice.
pub proof fn law_set_merge_idempotent(a: SetView, b: SetView)
    requires
        sound(a),
    ensures
        set_merge(a, a) == a,
        set_merge(set_merge(a, b), b) == set_merge(a, b),
{
    let ab = set_merge(a, b);
    law_merge_keeps_sound(a, a);
    law_merge_keeps_sound(a, b);
    law_merge_keeps_sound(ab, b);
    assert forall|e: Seq<char>, t: TagView| #[trigger]
        tags_of(set_merge(a, a), e).contains(t) <==> tags_of(a, e).contains(t) by {
        lemma_merged(a, a, e, t);
    }
    lemma_same_tags(set_merge(a, a), a);
    assert forall|e: Seq<char>, t: TagView| #[trigger]
        tags_of(set_merge(ab, b), e).contains(t) <==> tags_of(ab, e).contains(t) by {
        lemma_merged(a, b, e, t);
        lemma_merged(ab, b, e, t);
    }
    lemma_same_tags(set_merge(ab, b), ab);
}

/// A set from which nothing was taken and to which nothing was added adds nothing.
pub proof fn law_set_merge_with_empty(a: SetView)
    requires
        sound(a),
    ensures
        set_merge(a, empty_set()) == a,
        set_merge(empty_set(), a) == a,
{
    law_merge_keeps_sound(a, empty_set());
    assert forall|e: Seq<char>, t: TagView| #[trigger]
        tags_of(set_merge(a, empty_set()), e).contains(t) <==> tags_of(a, e).contains(t) by {
        lemma_merged(a, empty_set(), e, t);
    }
    lemma_same_tags(set_merge(a, empty_set()), a);
    law_set_merge_commutative(a, empty_set());
}

/// An element that is added under a tag that was not taken away is in the set, and the
/// add changes no other element.
pub proof fn law_add_is_observable(s: SetView, element: Seq<char>, tag: TagView)
    requires
        !s.removed.contains((element, tag)),
    ensures
        ({
            let t = set_apply(s, OrSetOpView::Add { element, tag });
            &&& t.live.contains_key(element)
            &&& t.live[element].contains(tag)
            &&& t.live.remove(element) == s.live.remove(element)
            &&& t.removed == s.removed
        }),
{
    let t = set_apply(s, OrSetOpView::Add { element, tag });
    assert(tags_of(s, element).insert(tag).contains(tag));
    assert(t.live.remove(element) =~= s.live.remove(element));
}

/// A remove that observed all tags of an element takes it out, and changes no other
/// element.
pub proof fn law_remove_takes_observed_element_out(s: SetView, element: Seq<char>)
    requires
        s.live.contains_key(element),
    ensures
        set_apply(s, OrSetOpView::Remove { element, observed_tags: s.live[element] }).live
            == s.live.remove(element),
{
    let left = s.live[element].difference(s.live[element]);
    if any(left) {
        let t = choose|t: TagView| left.contains(t);
        assert(left.contains(t));
    }
}

/// A tag that a remove observed is not there after both, in whichever order they come.
pub proof fn law_observed_add_loses(
    s: SetView,
    element: Seq<char>,
    tag: TagView,
    observed_tags: Set<TagView>,
)
    requires
        sound(s),
        observed_tags.contains(tag),
    ensures
        ({
            let add = OrSetOpView::Add { element, tag };
            let remove = OrSetOpView::Remove { element, observed_tags };
            &&& !tags_of(set_apply(set_apply(s, add), remove), element).contains(tag)
            &&& set_apply(set_apply(s, add), remove) == set_apply(set_apply(s, remove), add)
            &&& set_apply(set_apply(s, remove), add) == set_apply(s, remove)
        }),
{
    let add = OrSetOpView::Add { element, tag };
    let remove = OrSetOpView::Remove { element, observed_tags };
    let a = set_apply(set_apply(s, add), remove);
    let b = set_apply(set_apply(s, remove), add);
    law_change_keeps_sound(s, add);
    law_change_keeps_sound(s, remove);
    law_change_keeps_sound(set_apply(s, add), remove);
    law_change_keeps_sound(set_apply(s, remove), add);
    lemma_change(set_apply(s, add), remove, element, tag);
    law_changes_commute(s, add, remove);
}

/// The order of two changes does not matter.
pub proof fn law_changes_commute(s: SetView, x: OrSetOpView, y: OrSetOpView)
    requires
        sound(s),
    ensures
        set_apply(set_apply(s, x), y) == set_apply(set_apply(s, y), x),
{
    let a = set_apply(set_apply(s, x), y);
    let b = set_apply(set_apply(s, y), x);
    law_change_keeps_sound(s, x);
    law_change_keeps_sound(s, y);
    law_change_keeps_sound(set_apply(s, x), y);
    law_change_keeps_sound(set_apply(s, y), x);
    assert forall|e: Seq<char>, t: TagView| #[trigger]
        tags_of(a, e).contains(t) <==> tags_of(b, e).contains(t) by {
        lemma_change(s, x, e, t);
        lemma_change(s, y, e, t);
        lemma_change(set_apply(s, x), y, e, t);
        lemma_change(set_apply(s, y), x, e, t);
    }
    assert forall|e: Seq<char>, t: TagView| #[trigger]
        a.removed.contains((e, t)) <==> b.removed.contains((e, t)) by {
        lemma_change(s, x, e, t);
        lemma_change(s, y, e, t);
        lemma_change(set_apply(s, x), y, e, t);
        lemma_change(set_apply(s, y), x, e, t);
    }
    lemma_same_tags(a, b);
}

/// Add wins: if a remove did not observe the tag of an add, the element is in the set
/// after both, in whichever order they are applied, and the outcome is the same.
pub proof fn law_concurrent_add_wins(
    s: SetView,
    element: Seq<char>,
    tag: TagView,
    observed_tags: Set<TagView>,
)
    requires
        sound(s),
        !s.removed.contains((element, tag)),
        !observed_tags.contains(tag),
    ensures
        ({
            let add = OrSetOpView::Add { element, tag };
            let remove = OrSetOpView::Remove { element, observed_tags };
            &&& set_apply(set_apply(s, add), remove).live.contains_key(element)
            &&& set_apply(set_apply(s, add), remove).live[element].contains(tag)
            &&& set_apply(set_apply(s, add), remove) == set_apply(set_apply(s, remove), add)
        }),
{
    let add = OrSetOpView::Add { element, tag };
    let remove = OrSetOpView::Remove { element, observed_tags };
    lemma_change(s, add, element, tag);
    lemma_change(set_apply(s, add), remove, element, tag);
    law_changes_commute(s, add, remove);
}

/// The set after a list of changes.
pub open spec fn set_replay(s: SetView, ops: Seq<OrSetOpView>) -> SetView
    decreases ops.len(),
{
    if ops.len() == 0 {
        s
    } else {
        set_apply(set_replay(s, ops.drop_last()), ops.last())
    }
}

/// One of the changes removes `tag` from `element`.
pub open spec fn takes_away(ops: Set<OrSetOpView>, element: Seq<char>, tag: TagView) -> bool {
    exists|observed_tags: Set<TagView>| #[trigger]
        ops.contains(OrSetOpView::Remove { element, observed_tags }) && observed_tags.contains(tag)
}

/// What a set holds after changes, in whichever order they came: the tags that were there
/// or were added, without those that have been taken away. Taken away are those that were
/// before and those that one of the changes observed and removed.
pub proof fn law_set_replay_contents(
    s: SetView,
    ops: Seq<OrSetOpView>,
    element: Seq<char>,
    tag: TagView,
)
    requires
        sound(s),
    ensures
        sound(set_replay(s, ops)),
        tags_of(set_replay(s, ops), element).contains(tag) <==> {
            &&& tags_of(s, element).contains(tag) || ops.to_set().contains(
                OrSetOpView::Add { element, tag },
            )
            &&& !s.removed.contains((element, tag))
            &&& !takes_away(ops.to_set(), element, tag)
        },
        set_replay(s, ops).removed.contains((element, tag)) <==> s.removed.contains((element, tag))
            || takes_away(ops.to_set(), element, tag),
    decreases ops.len(),
{
    let all = ops.to_set();
    if ops.len() == 0 {
    } else {
        let front = ops.drop_last();
        let some = front.to_set();
        let op = ops.last();
        let t = set_replay(s, front);
        law_set_replay_contents(s, front, element, tag);
        assert forall|x: OrSetOpView| all.contains(x) <==> x == op || some.contains(x) by {
            if all.contains(x) {
                let i = choose|i: int| 0 <= i < ops.len() && ops[i] == x;
                if i < front.len() {
                    assert(front[i] == x);
                }
            }
            if some.contains(x) {
                let i = choose|i: int| 0 <= i < front.len() && front[i] == x;
                assert(ops[i] == x);
            }
            assert(ops[ops.len() - 1] == op);
        }
        assert(takes_away(all, element, tag) <==> takes_away(some, element, tag) || (
        op matches OrSetOpView::Remove { element: e, observed_tags: o } && e == element
            && o.contains(tag))) by {
            if takes_away(all, element, tag) {
                let o = choose|o: Set<TagView>| #[trigger]
                    all.contains(OrSetOpView::Remove { element, observed_tags: o }) && o.contains(
                        tag,
                    );
                assert(op == (OrSetOpView::Remove { element, observed_tags: o }) || some.contains(
                    OrSetOpView::Remove { element, observed_tags: o },
                ));
            }
            if takes_away(some, element, tag) {
                let o = choose|o: Set<TagView>| #[trigger]
                    some.contains(OrSetOpView::Remove { element, observed_tags: o }) && o.contains(
                        tag,
                    );
                assert(all.contains(OrSetOpView::Remove { element, observed_tags: o }));
            }
            if let OrSetOpView::Remove { element: e, observed_tags: o } = op {
                assert(all.contains(op));
            }
        }
        lemma_change(t, op, element, tag);
        law_change_keeps_sound(t, op);
    }
}

/// Replicas converge: two replicas that start from the same set and apply the same
/// changes, each in an order of its own, hold the same set.
pub proof fn law_set_replay_order_independent(
    s: SetView,
    ops: Seq<OrSetOpView>,
    others: Seq<OrSetOpView>,
)
    requires
        sound(s),
        ops.to_set() == others.to_set(),
    ensures
        set_replay(s, ops) == set_replay(s, others),
{
    let a = set_replay(s, ops);
    let b = set_replay(s, others);
    lemma_replay_sound(s, ops);
    lemma_replay_sound(s, others);
    assert forall|e: Seq<char>, t: TagView| #[trigger]
        tags_of(a, e).contains(t) <==> tags_of(b, e).contains(t) by {
        law_set_replay_contents(s, ops, e, t);
        law_set_replay_contents(s, others, e, t);
    }
    assert forall|e: Seq<char>, t: TagView| #[trigger]
        a.removed.contains((e, t)) <==> b.removed.contains((e, t)) by {
        law_set_replay_contents(s, ops, e, t);
        law_set_replay_contents(s, others, e, t);
    }
    lemma_same_tags(a, b);
}

proof fn lemma_replay_sound(s: SetView, ops: Seq<OrSetOpView>)
    requires
        sound(s),
    ensures
        sound(set_replay(s, ops)),
    decreases ops.len(),
{
    if ops.len() > 0 {
        lemma_replay_sound(s, ops.drop_last());
        law_change_keeps_sound(set_replay(s, ops.drop_last()), ops.last());
    }
}

/// Changes that tell all that a replica holds and has taken away do what a merge does.
pub proof fn law_changes_do_what_a_merge_does(s: SetView, other: SetView, ops: Seq<OrSetOpView>)
    requires
        sound(s),
        sound(other),
        tells_all(ops, other),
    ensures
        set_replay(s, ops) == set_merge(s, other),
        sound(set_merge(s, other)),
{
    let a = set_replay(s, ops);
    let b = set_merge(s, other);
    lemma_replay_sound(s, ops);
    law_merge_keeps_sound(s, other);
    assert forall|e: Seq<char>, t: TagView|
        takes_away(ops.to_set(), e, t) == #[trigger] other.removed.contains((e, t)) by {
        if other.removed.contains((e, t)) {
            assert(takes_away(ops.to_set(), e, t));
        }
        if takes_away(ops.to_set(), e, t) {
            let o = choose|o: Set<TagView>| #[trigger]
                ops.to_set().contains(OrSetOpView::Remove { element: e, observed_tags: o })
                    && o.contains(t);
            let op = OrSetOpView::Remove { element: e, observed_tags: o };
            assert(ops.contains(op));
            assert(is_told_by(op, other));
            assert(op->Remove_observed_tags.contains(t));
            assert(other.removed.contains((op->Remove_element, t)));
        }
    }
    assert forall|e: Seq<char>, t: TagView|
        ops.to_set().contains(OrSetOpView::Add { element: e, tag: t }) == #[trigger] tags_of(
            other,
            e,
        ).contains(t) by {
        let op = OrSetOpView::Add { element: e, tag: t };
        if ops.to_set().contains(op) {
            assert(ops.contains(op));
            assert(is_told_by(op, other));
        }
    }
    assert forall|e: Seq<char>, t: TagView| #[trigger]
        tags_of(a, e).contains(t) <==> tags_of(b, e).contains(t) by {
        law_set_replay_contents(s, ops, e, t);
        lemma_merged(s, other, e, t);
        assert(takes_away(ops.to_set(), e, t) == other.removed.contains((e, t)));
        assert(ops.to_set().contains(OrSetOpView::Add { element: e, tag: t }) == tags_of(
            other,
            e,
        ).contains(t));
    }
    assert forall|e: Seq<char>, t: TagView| #[trigger]
        a.removed.contains((e, t)) <==> b.removed.contains((e, t)) by {
        law_set_replay_contents(s, ops, e, t);
        lemma_merged(s, other, e, t);
        assert(takes_away(ops.to_set(), e, t) == other.removed.contains((e, t)));
    }
    lemma_same_tags(a, b);
}

/// Changes that tell all that a set holds and has taken away make the same set of an empty
/// one.
pub proof fn law_changes_rebuild(s: SetView, ops: Seq<OrSetOpView>)
    requires
        sound(s),
        tells_all(ops, s),
    ensures
        set_replay(empty_set(), ops) == s,
{
    law_changes_do_what_a_merge_does(empty_set(), s, ops);
    law_set_merge_with_empty(s);
}

/// What a change does, tag by tag. An add gives its element its tag, unless that tag was
/// taken away from it; a remove takes the tags that it observed from its element and
/// remembers that. No other tag of any element comes or goes. An element is in the set
/// exactly as long as it has a tag.
pub proof fn law_change_tag_by_tag(s: SetView, op: OrSetOpView, e: Seq<char>, t: TagView)
    requires
        forall|x: Seq<char>| #[trigger]
            s.live.contains_key(x) ==> exists|y: TagView| #[trigger] s.live[x].contains(y),
    ensures
        ({
            let after = set_apply(s, op);
            let had = s.live.contains_key(e) && s.live[e].contains(t);
            let has = after.live.contains_key(e) && after.live[e].contains(t);
            &&& match op {
                OrSetOpView::Add { element, tag } => {
                    &&& has <==> had || (e == element && t == tag && !s.removed.contains((e, t)))
                    &&& after.removed == s.removed
                },
                OrSetOpView::Remove { element, observed_tags } => {
                    &&& has <==> had && !(e == element && observed_tags.contains(t))
                    &&& after.removed.contains((e, t)) <==> s.removed.contains((e, t)) || (e
                        == element && observed_tags.contains(t))
                },
            }
            &&& after.live.contains_key(e) ==> exists|y: TagView| #[trigger]
                after.live[e].contains(y)
        }),
{
    let after = set_apply(s, op);
    match op {
        OrSetOpView::Add { element, tag } => {
            if after.live.contains_key(e) {
                if e == element && !s.removed.contains((element, tag)) {
                    assert(after.live[e].contains(tag));
                } else {
                    assert(s.live.contains_key(e));
                }
            }
        },
        OrSetOpView::Remove { element, observed_tags } => {
            let left = tags_of(s, element).difference(observed_tags);
            if left.contains(t) {
                assert(any(left));
            }
            if after.live.contains_key(e) {
                if e == element {
                    let y = choose|y: TagView| left.contains(y);
                    assert(after.live[e].contains(y));
                } else {
                    assert(s.live.contains_key(e));
                }
            }
        },
    }
}

/// What a merge does, tag by tag: an element has a tag that either replica had and neither
/// has taken away, and what either has taken away stays taken away. An element is in the
/// merged set exactly if it has such a tag.
pub proof fn law_merge_tag_by_tag(a: SetView, b: SetView, e: Seq<char>, t: TagView)
    ensures
        ({
            let m = set_merge(a, b);
            let in_a = a.live.contains_key(e) && a.live[e].contains(t);
            let in_b = b.live.contains_key(e) && b.live[e].contains(t);
            let has = m.live.contains_key(e) && m.live[e].contains(t);
            &&& has <==> (in_a || in_b) && !a.removed.contains((e, t)) && !b.removed.contains(
                (e, t),
            )
            &&& m.removed.contains((e, t)) <==> a.removed.contains((e, t)) || b.removed.contains(
                (e, t),
            )
            &&& m.live.contains_key(e) ==> exists|y: TagView| #[trigger] m.live[e].contains(y)
        }),
{
    let m = set_merge(a, b);
    let tags = merged_tags(a, b, e);
    if tags.contains(t) {
        assert(any(tags));
    }
    if m.live.contains_key(e) {
        let y = choose|y: TagView| tags.contains(y);
        assert(m.live[e].contains(y));
    }
}

} // verus!
