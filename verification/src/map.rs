//! A map that keeps its keys in order.

use crate::order;
use crate::order::Order;
use vstd::prelude::*;

verus! {

/// A value that can be copied so that the copy has the same view.
pub trait ViewClone: View + Sized {
    /// A copy with the same view.
    fn view_clone(&self) -> (r: Self)
        ensures
            r@ == self@,
    ;
}

/// A type whose views are strictly and totally ordered.
pub trait Key: ViewClone {
    /// `a` comes before `b`.
    spec fn before(a: Self::V, b: Self::V) -> bool;

    /// Nothing comes before itself.
    proof fn before_irreflexive(a: Self::V)
        ensures
            !Self::before(a, a),
    ;

    /// The order is transitive.
    proof fn before_transitive(a: Self::V, b: Self::V, c: Self::V)
        requires
            Self::before(a, b),
            Self::before(b, c),
        ensures
            Self::before(a, c),
    ;

    /// Of two different keys one comes first.
    proof fn before_total(a: Self::V, b: Self::V)
        ensures
            Self::before(a, b) || a == b || Self::before(b, a),
    ;

    /// Compares two keys.
    fn order(&self, other: &Self) -> (r: Order)
        ensures
            r == Order::Less <==> Self::before(self@, other@),
            r == Order::Equal <==> self@ == other@,
            r == Order::Greater <==> Self::before(other@, self@),
    ;
}

impl ViewClone for String {
    fn view_clone(&self) -> (r: Self) {
        self.clone()
    }
}

impl ViewClone for bool {
    fn view_clone(&self) -> (r: Self) {
        *self
    }
}

impl ViewClone for u64 {
    fn view_clone(&self) -> (r: Self) {
        *self
    }
}

impl Key for String {
    open spec fn before(a: Seq<char>, b: Seq<char>) -> bool {
        order::text_less(a, b)
    }

    proof fn before_irreflexive(a: Seq<char>) {
        order::lemma_text_irreflexive(a);
    }

    proof fn before_transitive(a: Seq<char>, b: Seq<char>, c: Seq<char>) {
        order::lemma_text_transitive(a, b, c);
    }

    proof fn before_total(a: Seq<char>, b: Seq<char>) {
        order::lemma_text_total(a, b);
    }

    fn order(&self, other: &Self) -> (r: Order) {
        order::text_order(self.as_str(), other.as_str())
    }
}

/// A map with its keys in increasing order. Its view is the map from the keys'
/// views to the values' views.
#[derive(Debug, PartialEq)]
pub struct SortedMap<K: Key, V: View> {
    keys: Vec<K>,
    values: Vec<V>,
}

impl<K: Key, V: View> View for SortedMap<K, V> {
    type V = Map<K::V, V::V>;

    closed spec fn view(&self) -> Map<K::V, V::V> {
        Map::new(
            |k: K::V| self.key_views().contains(k),
            |k: K::V| self.values@[self.key_views().index_of(k)]@,
        )
    }
}

impl<K: Key, V: View> SortedMap<K, V> {
    /// The views of the keys, in order.
    pub closed spec fn key_views(&self) -> Seq<K::V> {
        self.keys@.map_values(|k: K| k@)
    }

    #[verifier::type_invariant]
    spec fn inv(self) -> bool {
        &&& self.keys@.len() == self.values@.len()
        &&& forall|i: int, j: int|
            0 <= i < j < self.keys@.len() ==> K::before(self.keys@[i]@, self.keys@[j]@)
    }

    proof fn lemma_distinct(self)
        requires
            self.inv(),
        ensures
            self.key_views().no_duplicates(),
            self.key_views().len() == self.keys@.len(),
            forall|i: int|
                0 <= i < self.keys@.len() ==> {
                    &&& #[trigger] self.key_views()[i] == self.keys@[i]@
                    &&& self.key_views().index_of(self.key_views()[i]) == i
                    &&& self@.contains_key(self.key_views()[i])
                    &&& self@[self.key_views()[i]] == self.values@[i]@
                },
    {
        let ks = self.key_views();
        assert forall|i: int, j: int|
            0 <= i < ks.len() && 0 <= j < ks.len() && i != j implies ks[i] != ks[j] by {
            K::before_irreflexive(ks[i]);
            if i < j {
                assert(K::before(self.keys@[i]@, self.keys@[j]@));
            } else {
                assert(K::before(self.keys@[j]@, self.keys@[i]@));
            }
        }
        assert forall|i: int| 0 <= i < ks.len() implies {
            &&& #[trigger] ks[i] == self.keys@[i]@
            &&& ks.index_of(ks[i]) == i
            &&& self@.contains_key(ks[i])
            &&& self@[ks[i]] == self.values@[i]@
        } by {
            assert(ks.contains(ks[i]));
            assert(ks[ks.index_of(ks[i])] == ks[i]);
        }
    }

    /// The empty map.
    pub fn new() -> (r: Self)
        ensures
            r@ == Map::<K::V, V::V>::empty(),
            r.key_views() == Seq::<K::V>::empty(),
    {
        let r = SortedMap { keys: Vec::new(), values: Vec::new() };
        assert(r.key_views() =~= Seq::<K::V>::empty());
        assert(r@ =~= Map::<K::V, V::V>::empty());
        r
    }

    /// Where `key` is (`Ok`), or where it would have to be put (`Err`).
    fn find(&self, key: &K) -> (r: Result<usize, usize>)
        ensures
            match r {
                Ok(i) => i < self.keys@.len() && self.keys@[i as int]@ == key@,
                Err(i) => {
                    &&& i <= self.keys@.len()
                    &&& forall|j: int| 0 <= j < i ==> K::before(#[trigger] self.keys@[j]@, key@)
                    &&& forall|j: int|
                        i <= j < self.keys@.len() ==> K::before(key@, #[trigger] self.keys@[j]@)
                },
            },
    {
        proof {
            use_type_invariant(self);
        }
        let mut lo: usize = 0;
        let mut hi: usize = self.keys.len();
        while lo < hi
            invariant
                lo <= hi <= self.keys@.len(),
                self.inv(),
                forall|j: int| 0 <= j < lo ==> K::before(#[trigger] self.keys@[j]@, key@),
                forall|j: int|
                    hi <= j < self.keys@.len() ==> K::before(key@, #[trigger] self.keys@[j]@),
            decreases hi - lo,
        {
            let mid: usize = lo + (hi - lo) / 2;
            match self.keys[mid].order(key) {
                Order::Equal => {
                    return Ok(mid);
                },
                Order::Less => {
                    proof {
                        assert forall|j: int| 0 <= j < mid + 1 implies K::before(
                            #[trigger] self.keys@[j]@,
                            key@,
                        ) by {
                            if j < mid {
                                K::before_transitive(self.keys@[j]@, self.keys@[mid as int]@, key@);
                            }
                        }
                    }
                    lo = mid + 1;
                },
                Order::Greater => {
                    proof {
                        assert forall|j: int| mid <= j < self.keys@.len() implies K::before(
                            key@,
                            #[trigger] self.keys@[j]@,
                        ) by {
                            if mid < j {
                                K::before_transitive(key@, self.keys@[mid as int]@, self.keys@[j]@);
                            }
                        }
                    }
                    hi = mid;
                },
            }
        }
        Err(lo)
    }

    proof fn lemma_absent(self, key: K::V, at: int)
        requires
            self.inv(),
            0 <= at <= self.keys@.len(),
            forall|j: int| 0 <= j < at ==> K::before(#[trigger] self.keys@[j]@, key),
            forall|j: int| at <= j < self.keys@.len() ==> K::before(key, #[trigger] self.keys@[j]@),
        ensures
            !self@.contains_key(key),
    {
        K::before_irreflexive(key);
        if self.key_views().contains(key) {
            let j = self.key_views().index_of(key);
            assert(self.keys@[j]@ == key);
        }
    }

    /// The number of keys; the keys in order are those of the map, each once.
    pub fn len(&self) -> (n: usize)
        ensures
            n == self.key_views().len(),
            n == self@.len(),
            self.key_views().no_duplicates(),
            self.key_views().to_set() == self@.dom(),
            self@.dom().finite(),
            forall|i: int, j: int|
                0 <= i < j < n ==> K::before(#[trigger] self.key_views()[i], #[trigger] self.key_views()[j]),
    {
        proof {
            use_type_invariant(self);
            self.lemma_distinct();
            assert(self.key_views().to_set() =~= self@.dom());
            self.key_views().unique_seq_to_set();
        }
        self.keys.len()
    }

    /// The key at place `i` of the order.
    pub fn key_at(&self, i: usize) -> (r: &K)
        requires
            i < self.key_views().len(),
        ensures
            r@ == self.key_views()[i as int],
            self@.contains_key(r@),
    {
        proof {
            use_type_invariant(self);
            self.lemma_distinct();
        }
        &self.keys[i]
    }

    /// The value of the key at place `i` of the order.
    pub fn value_at(&self, i: usize) -> (r: &V)
        requires
            i < self.key_views().len(),
        ensures
            r@ == self@[self.key_views()[i as int]],
    {
        proof {
            use_type_invariant(self);
            self.lemma_distinct();
        }
        &self.values[i]
    }

    /// The value of `key`, if it has one.
    pub fn get(&self, key: &K) -> (r: Option<&V>)
        ensures
            r is Some <==> self@.contains_key(key@),
            r matches Some(v) ==> v@ == self@[key@],
    {
        proof {
            use_type_invariant(self);
            self.lemma_distinct();
        }
        match self.find(key) {
            Ok(i) => {
                assert(self.key_views()[i as int] == key@);
                Some(&self.values[i])
            },
            Err(at) => {
                proof {
                    self.lemma_absent(key@, at as int);
                }
                None
            },
        }
    }

    /// Whether `key` has a value.
    pub fn contains_key(&self, key: &K) -> (r: bool)
        ensures
            r == self@.contains_key(key@),
    {
        self.get(key).is_some()
    }

    /// The value of `key` for update, if it has one.
    pub fn get_mut(&mut self, key: &K) -> (r: Option<&mut V>)
        ensures
            r is Some <==> old(self)@.contains_key(key@),
            r matches Some(v) ==> {
                &&& v@ == old(self)@[key@]
                &&& final(self)@ == old(self)@.insert(key@, final(v)@)
            },
            r is None ==> final(self)@ == old(self)@,
    {
        proof {
            use_type_invariant(&*self);
            self.lemma_distinct();
        }
        match self.find(key) {
            Ok(i) => {
                assert(self.key_views()[i as int] == key@);
                Some(&mut self.values[i])
            },
            Err(at) => {
                proof {
                    self.lemma_absent(key@, at as int);
                }
                None
            },
        }
    }

    /// Gives `key` the value `value` and hands back the value it had.
    pub fn insert(&mut self, key: K, value: V) -> (r: Option<V>)
        ensures
            final(self)@ == old(self)@.insert(key@, value@),
            r is Some <==> old(self)@.contains_key(key@),
            r matches Some(v) ==> v@ == old(self)@[key@],
    {
        proof {
            use_type_invariant(&*self);
            self.lemma_distinct();
        }
        let ghost before = *self;
        match self.find(&key) {
            Ok(i) => {
                let mut held = value;
                std::mem::swap(&mut held, &mut self.values[i]);
                proof {
                    assert(before.key_views()[i as int] == key@);
                    assert(self.key_views() =~= before.key_views());
                    self.lemma_distinct();
                    before.lemma_distinct();
                    assert(self@ =~= before@.insert(key@, value@));
                }
                Some(held)
            },
            Err(at) => {
                proof {
                    self.lemma_absent(key@, at as int);
                }
                let mut taken = SortedMap { keys: Vec::new(), values: Vec::new() };
                std::mem::swap(&mut taken, self);
                let SortedMap { mut keys, mut values } = taken;
                keys.insert(at, key);
                values.insert(at, value);
                *self = SortedMap { keys, values };
                proof {
                    self.lemma_distinct();
                    before.lemma_distinct();
                    lemma_insert_at(before, *self, at as int, key, value);
                }
                None
            },
        }
    }

    /// Takes `key` out and hands back the value it had.
    pub fn remove(&mut self, key: &K) -> (r: Option<V>)
        ensures
            final(self)@ == old(self)@.remove(key@),
            r is Some <==> old(self)@.contains_key(key@),
            r matches Some(v) ==> v@ == old(self)@[key@],
    {
        proof {
            use_type_invariant(&*self);
            self.lemma_distinct();
        }
        let ghost before = *self;
        match self.find(key) {
            Ok(i) => {
                let mut taken = SortedMap { keys: Vec::new(), values: Vec::new() };
                std::mem::swap(&mut taken, self);
                let SortedMap { mut keys, mut values } = taken;
                keys.remove(i);
                let value = values.remove(i);
                *self = SortedMap { keys, values };
                proof {
                    assert(before.key_views()[i as int] == key@);
                    self.lemma_distinct();
                    before.lemma_distinct();
                    lemma_remove_at(before, *self, i as int);
                }
                Some(value)
            },
            Err(at) => {
                proof {
                    self.lemma_absent(key@, at as int);
                    assert(self@.remove(key@) =~= self@);
                }
                None
            },
        }
    }

    /// Takes everything out.
    pub fn clear(&mut self)
        ensures
            final(self)@ == Map::<K::V, V::V>::empty(),
    {
        *self = SortedMap::new();
    }

    /// Whether there are no keys.
    pub fn is_empty(&self) -> (r: bool)
        ensures
            r == (self@ == Map::<K::V, V::V>::empty()),
    {
        let n = self.len();
        proof {
            if n == 0 {
                assert(self@ =~= Map::<K::V, V::V>::empty());
            } else {
                assert(self@.dom().contains(self.key_views()[0]));
            }
        }
        n == 0
    }

    /// Copies of the keys, in order.
    pub fn keys(&self) -> (r: Vec<K>)
        ensures
            r@.map_values(|k: K| k@) == self.key_views(),
            self.key_views().no_duplicates(),
            self.key_views().to_set() == self@.dom(),
            forall|i: int, j: int|
                0 <= i < j < r@.len() ==> K::before(#[trigger] r@[i]@, #[trigger] r@[j]@),
    {
        let n = self.len();
        let mut r: Vec<K> = Vec::new();
        let mut i: usize = 0;
        while i < n
            invariant
                i <= n == self.key_views().len(),
                r@.len() == i,
                forall|j: int| 0 <= j < i ==> #[trigger] r@[j]@ == self.key_views()[j],
            decreases n - i,
        {
            r.push(self.key_at(i).view_clone());
            i = i + 1;
        }
        assert(r@.map_values(|k: K| k@) =~= self.key_views());
        r
    }
}

proof fn lemma_insert_at<K: Key, V: View>(
    before: SortedMap<K, V>,
    after: SortedMap<K, V>,
    at: int,
    key: K,
    value: V,
)
    requires
        before.inv(),
        after.inv(),
        0 <= at <= before.keys@.len(),
        after.keys@ == before.keys@.insert(at, key),
        after.values@ == before.values@.insert(at, value),
    ensures
        after@ == before@.insert(key@, value@),
{
    before.lemma_distinct();
    after.lemma_distinct();
    let old_keys = before.key_views();
    let new_keys = after.key_views();
    assert(new_keys =~= old_keys.insert(at, key@));
    assert(new_keys[at] == key@);
    assert forall|k: K::V| after@.contains_key(k) <==> before@.insert(key@, value@).contains_key(
        k,
    ) by {
        if old_keys.contains(k) {
            let j = old_keys.index_of(k);
            if j < at {
                assert(new_keys[j] == k);
            } else {
                assert(new_keys[j + 1] == k);
            }
        }
        if new_keys.contains(k) && k != key@ {
            let j = new_keys.index_of(k);
            if j < at {
                assert(old_keys[j] == k);
            } else {
                assert(old_keys[j - 1] == k);
            }
        }
    }
    assert forall|k: K::V| after@.contains_key(k) implies #[trigger] after@[k] == before@.insert(
        key@,
        value@,
    )[k] by {
        let j = new_keys.index_of(k);
        assert(new_keys[j] == k);
        if j < at {
            assert(old_keys[j] == k);
        } else if at < j {
            assert(old_keys[j - 1] == k);
        }
    }
    assert(after@ =~= before@.insert(key@, value@));
}

proof fn lemma_remove_at<K: Key, V: View>(
    before: SortedMap<K, V>,
    after: SortedMap<K, V>,
    at: int,
)
    requires
        before.inv(),
        after.inv(),
        0 <= at < before.keys@.len(),
        after.keys@ == before.keys@.remove(at),
        after.values@ == before.values@.remove(at),
    ensures
        after@ == before@.remove(before.key_views()[at]),
{
    before.lemma_distinct();
    after.lemma_distinct();
    let old_keys = before.key_views();
    let new_keys = after.key_views();
    let gone = old_keys[at];
    assert(new_keys =~= old_keys.remove(at));
    assert forall|k: K::V| after@.contains_key(k) <==> before@.remove(gone).contains_key(k) by {
        if old_keys.contains(k) && k != gone {
            let j = old_keys.index_of(k);
            if j < at {
                assert(new_keys[j] == k);
            } else {
                assert(new_keys[j - 1] == k);
            }
        }
        if new_keys.contains(k) {
            let j = new_keys.index_of(k);
            if j < at {
                assert(old_keys[j] == k);
            } else {
                assert(old_keys[j + 1] == k);
            }
        }
    }
    assert forall|k: K::V| after@.contains_key(k) implies #[trigger] after@[k] == before@.remove(
        gone,
    )[k] by {
        let j = new_keys.index_of(k);
        assert(new_keys[j] == k);
        if j < at {
            assert(old_keys[j] == k);
        } else {
            assert(old_keys[j + 1] == k);
        }
    }
    assert(after@ =~= before@.remove(gone));
}

impl<K: Key, V: ViewClone> ViewClone for SortedMap<K, V> {
    fn view_clone(&self) -> (r: Self) {
        let n = self.len();
        let mut r: SortedMap<K, V> = SortedMap::new();
        let mut i: usize = 0;
        while i < n
            invariant
                i <= n == self.key_views().len(),
                self.key_views().no_duplicates(),
                self.key_views().to_set() == self@.dom(),
                forall|k: K::V| #[trigger]
                    r@.contains_key(k) <==> (exists|j: int| 0 <= j < i && self.key_views()[j] == k),
                forall|k: K::V| #[trigger] r@.contains_key(k) ==> r@[k] == self@[k],
            decreases n - i,
        {
            let key = self.key_at(i).view_clone();
            let value = self.value_at(i).view_clone();
            let ghost before = r@;
            r.insert(key, value);
            proof {
                assert forall|k: K::V| #[trigger]
                    r@.contains_key(k) implies exists|j: int|
                    0 <= j < i + 1 && self.key_views()[j] == k by {
                    if k == self.key_views()[i as int] {
                    } else {
                        assert(before.contains_key(k));
                    }
                }
                assert forall|k: K::V|
                    (exists|j: int|
                        0 <= j < i + 1 && self.key_views()[j] == k) implies #[trigger] r@.contains_key(
                    k,
                ) by {
                    let j = choose|j: int| 0 <= j < i + 1 && self.key_views()[j] == k;
                    if j < i {
                        assert(before.contains_key(k));
                    }
                }
                assert forall|k: K::V| #[trigger] r@.contains_key(k) implies r@[k] == self@[k] by {
                    if k != self.key_views()[i as int] {
                        assert(before.contains_key(k));
                    }
                }
            }
            i = i + 1;
        }
        proof {
            assert forall|k: K::V| #[trigger] r@.contains_key(k) <==> self@.contains_key(k) by {
                if self@.contains_key(k) {
                    assert(self.key_views().to_set().contains(k));
                    assert(self.key_views().contains(k));
                    let j = self.key_views().index_of(k);
                    assert(self.key_views()[j] == k);
                }
                if r@.contains_key(k) {
                    let j = choose|j: int| 0 <= j < i && self.key_views()[j] == k;
                    assert(self.key_views().contains(k));
                    assert(self.key_views().to_set().contains(k));
                }
            }
            assert(r@ =~= self@);
        }
        r
    }
}

} // verus!
