//! The document store.

use crate::json;
use crate::json::Json;
use crate::map::{SortedMap, ViewClone};
use crate::order;
use crate::storage::error::StorageError;
use serde_json::Value;
use vstd::prelude::*;
use vstd::string::*;

verus! {

/// A document of the store.
#[derive(Debug, PartialEq)]
pub struct Document {
    pub value: Value,
    pub version: u64,
    pub last_modified_by: String,
}

/// What a document of the store says.
pub struct DocumentView {
    pub value: Json,
    pub version: u64,
    pub last_modified_by: Seq<char>,
}

impl View for Document {
    type V = DocumentView;

    open spec fn view(&self) -> DocumentView {
        DocumentView {
            value: json::json_view(self.value),
            version: self.version,
            last_modified_by: self.last_modified_by@,
        }
    }
}

impl Clone for Document {
    fn clone(&self) -> (r: Self)
        ensures
            r@ == self@,
    {
        Document {
            value: self.value.clone(),
            version: self.version,
            last_modified_by: self.last_modified_by.clone(),
        }
    }
}

impl ViewClone for Document {
    fn view_clone(&self) -> (r: Self) {
        self.clone()
    }
}

/// The document store. Every write gets the next version.
#[derive(Debug)]
pub struct MemStore {
    data: SortedMap<String, Document>,
    version: u64,
}

/// What the store holds.
pub struct StoreView {
    pub data: Map<Seq<char>, DocumentView>,
    pub version: u64,
}

impl View for MemStore {
    type V = StoreView;

    closed spec fn view(&self) -> StoreView {
        StoreView { data: self.data@, version: self.version }
    }
}

/// The store that holds nothing.
pub open spec fn empty_store() -> StoreView {
    StoreView { data: Map::empty(), version: 0 }
}

/// No document is of a later version than the store.
pub open spec fn versions_within(data: Map<Seq<char>, DocumentView>, version: u64) -> bool {
    forall|k: Seq<char>| #[trigger] data.contains_key(k) ==> data[k].version <= version
}

/// `version` is the highest version of the documents, or 0 if there is none.
pub open spec fn is_highest_version(data: Map<Seq<char>, DocumentView>, version: u64) -> bool {
    &&& versions_within(data, version)
    &&& version == 0 || exists|k: Seq<char>| #[trigger]
        data.contains_key(k) && data[k].version == version
}

/// The store after a document was put.
pub open spec fn with_document(
    s: StoreView,
    key: Seq<char>,
    value: Json,
    modified_by: Seq<char>,
) -> StoreView {
    let version = (s.version + 1) as u64;
    StoreView {
        data: s.data.insert(
            key,
            DocumentView { value, version, last_modified_by: modified_by },
        ),
        version,
    }
}

/// What a list of path segments says.
pub open spec fn segments(path: Seq<&str>) -> Seq<Seq<char>> {
    Seq::new(path.len(), |i: int| path[i]@)
}

/// What stands at the end of a path into a document, if every step leads on.
pub open spec fn at_path(document: Json, path: Seq<Seq<char>>) -> Option<Json>
    decreases path.len(),
{
    if path.len() == 0 {
        Some(document)
    } else {
        match json::json_field(document, path[0]) {
            Some(inner) => at_path(inner, path.drop_first()),
            None => None,
        }
    }
}

/// The complaint that a path leads through something that has no fields.
pub open spec fn not_an_object(segment: Seq<char>) -> Seq<char> {
    "path segment '"@ + segment + "' is not an object"@
}

/// The document with the value at the end of a path set, or the text of the complaint:
/// the first step that does not lead on, or that what should hold the last one has no
/// fields. An empty path sets nothing.
pub open spec fn with_path(document: Json, path: Seq<Seq<char>>, value: Json) -> Result<
    Json,
    Seq<char>,
>
    decreases path.len(),
{
    if path.len() == 0 {
        Ok(document)
    } else if path.len() == 1 {
        if document is Object {
            Ok(json::json_with_field(document, path[0], value))
        } else {
            Err(not_an_object(path[0]))
        }
    } else {
        match json::json_field(document, path[0]) {
            None => Err(path[0]),
            Some(inner) => match with_path(inner, path.drop_first(), value) {
                Ok(changed) => Ok(json::json_with_field(document, path[0], changed)),
                Err(complaint) => Err(complaint),
            },
        }
    }
}

proof fn lemma_same_field(document: Json, name: Seq<char>)
    requires
        json::json_field(document, name) is Some,
    ensures
        json::json_with_field(document, name, json::json_field(document, name)->0) == document,
{
    if let Json::Object(fields) = document {
        assert(fields.insert(name, fields[name]) =~= fields);
    }
}

fn complain(segment: &str) -> (r: String)
    ensures
        r@ == not_an_object(segment@),
{
    let mut r = "path segment '".to_owned();
    r.append(segment);
    r.append("' is not an object");
    r
}

fn read_path<'a>(document: &'a Value, path: &[&str], from: usize) -> (r: Option<&'a Value>)
    requires
        from <= path@.len(),
    ensures
        match r {
            Some(value) => at_path(
                json::json_view(*document),
                segments(path@).skip(from as int),
            ) == Some(json::json_view(*value)),
            None => at_path(
                json::json_view(*document),
                segments(path@).skip(from as int),
            ) is None,
        },
    decreases path@.len() - from,
{
    let ghost rest = segments(path@).skip(from as int);
    if from == path.len() {
        return Some(document);
    }
    assert(rest.drop_first() =~= segments(path@).skip(from + 1));
    match json::field(document, path[from]) {
        Some(inner) => read_path(inner, path, from + 1),
        None => None,
    }
}

fn write_path(document: &mut Value, path: &[&str], from: usize, value: Value) -> (r: Result<
    (),
    StorageError,
>)
    requires
        from <= path@.len(),
    ensures
        ({
            let before = json::json_view(*old(document));
            let rest = segments(path@).skip(from as int);
            match with_path(before, rest, json::json_view(value)) {
                Ok(after) => r is Ok && json::json_view(*final(document)) == after,
                Err(complaint) => {
                    &&& r matches Err(StorageError::KeyNotFound(text)) && text@ == complaint
                    &&& json::json_view(*final(document)) == before
                },
            }
        }),
    decreases path@.len() - from,
{
    let ghost rest = segments(path@).skip(from as int);
    let n = path.len();
    if from == n {
        return Ok(());
    }
    assert(rest.drop_first() =~= segments(path@).skip(from + 1));
    if from == n - 1 {
        if json::set_field(document, path[from], value) {
            Ok(())
        } else {
            Err(StorageError::KeyNotFound(complain(path[from])))
        }
    } else {
        proof {
            if json::json_field(json::json_view(*document), rest[0]) is Some {
                lemma_same_field(json::json_view(*document), rest[0]);
            }
        }
        match json::field_mut(document, path[from]) {
            Some(inner) => write_path(inner, path, from + 1, value),
            None => Err(StorageError::KeyNotFound(path[from].to_owned())),
        }
    }
}

impl MemStore {
    #[verifier::type_invariant]
    spec fn inv(self) -> bool {
        versions_within(self.data@, self.version)
    }

    /// The store that holds nothing.
    pub fn new() -> (r: Self)
        ensures
            r@ == empty_store(),
    {
        MemStore { data: SortedMap::new(), version: 0 }
    }

    /// The document under a key.
    pub fn get(&self, key: &str) -> (r: Option<Document>)
        ensures
            r is Some <==> self@.data.contains_key(key@),
            r matches Some(document) ==> document@ == self@.data[key@],
    {
        match self.data.get(&key.to_owned()) {
            Some(document) => Some(document.clone()),
            None => None,
        }
    }

    /// Puts a document under a key. The result is its version.
    pub fn put(&mut self, key: String, value: Value, modified_by: String) -> (r: u64)
        requires
            old(self)@.version < u64::MAX,
        ensures
            r == old(self)@.version + 1,
            final(self)@ == with_document(
                old(self)@,
                key@,
                json::json_view(value),
                modified_by@,
            ),
    {
        proof {
            use_type_invariant(&*self);
        }
        let ghost before = self@;
        let mut taken = MemStore::new();
        std::mem::swap(&mut taken, self);
        let MemStore { mut data, version } = taken;
        let version: u64 = version + 1;
        data.insert(key, Document { value, version, last_modified_by: modified_by });
        assert(versions_within(data@, version)) by {
            assert forall|k: Seq<char>| #[trigger] data@.contains_key(k) implies data@[k].version
                <= version by {
                if k != key@ {
                    assert(before.data.contains_key(k));
                }
            }
        }
        *self = MemStore { data, version };
        version
    }

    /// Removes the document under a key. The result says whether there was one.
    pub fn delete(&mut self, key: &str) -> (r: bool)
        ensures
            r == old(self)@.data.contains_key(key@),
            final(self)@ == (StoreView { data: old(self)@.data.remove(key@), ..old(self)@ }),
    {
        proof {
            use_type_invariant(&*self);
        }
        let ghost before = self@;
        let mut taken = MemStore::new();
        std::mem::swap(&mut taken, self);
        let MemStore { mut data, version } = taken;
        let removed = data.remove(&key.to_owned());
        assert(versions_within(data@, version)) by {
            assert forall|k: Seq<char>| #[trigger] data@.contains_key(k) implies data@[k].version
                <= version by {
                assert(before.data.contains_key(k));
            }
        }
        *self = MemStore { data, version };
        removed.is_some()
    }

    /// What stands at the end of a path into the document under a key.
    pub fn get_nested(&self, key: &str, path: &[&str]) -> (r: Option<Value>)
        ensures
            ({
                let found = if self@.data.contains_key(key@) {
                    at_path(self@.data[key@].value, segments(path@))
                } else {
                    None
                };
                match r {
                    Some(value) => found == Some(json::json_view(value)),
                    None => found is None,
                }
            }),
    {
        assert(segments(path@).skip(0) =~= segments(path@));
        match self.data.get(&key.to_owned()) {
            Some(document) => match read_path(&document.value, path, 0) {
                Some(value) => Some(value.clone()),
                None => None,
            },
            None => None,
        }
    }

    /// Sets what stands at the end of a path into the document under a key. The result
    /// is the version of the document. An error leaves the store as it was.
    pub fn put_nested(
        &mut self,
        key: &str,
        path: &[&str],
        value: Value,
        modified_by: String,
    ) -> (r: Result<u64, StorageError>)
        requires
            old(self)@.version < u64::MAX,
        ensures
            ({
                let before = old(self)@;
                if !before.data.contains_key(key@) {
                    &&& r matches Err(StorageError::KeyNotFound(text)) && text@ == key@
                    &&& final(self)@ == before
                } else {
                    match with_path(
                        before.data[key@].value,
                        segments(path@),
                        json::json_view(value),
                    ) {
                        Ok(after) => {
                            &&& r matches Ok(version) && version == before.version + 1
                            &&& final(self)@ == with_document(
                                before,
                                key@,
                                after,
                                modified_by@,
                            )
                        },
                        Err(complaint) => {
                            &&& r matches Err(StorageError::KeyNotFound(text)) && text@ == complaint
                            &&& final(self)@ == before
                        },
                    }
                }
            }),
            r is Ok <==> old(self)@.data.contains_key(key@) && (path@.len() == 0 || ({
                let holder = at_path(old(self)@.data[key@].value, segments(path@).drop_last());
                holder is Some && holder->0 is Object
            })),
    {
        proof {
            if self@.data.contains_key(key@) {
                law_path_is_set_exactly_when_it_leads_into_an_object(
                    self@.data[key@].value,
                    segments(path@),
                    json::json_view(value),
                );
            }
        }
        proof {
            use_type_invariant(&*self);
        }
        let ghost before = self@;
        assert(segments(path@).skip(0) =~= segments(path@));
        let mut taken = MemStore::new();
        std::mem::swap(&mut taken, self);
        let MemStore { mut data, mut version } = taken;
        let r = match data.get_mut(&key.to_owned()) {
            Some(document) => match write_path(&mut document.value, path, 0, value) {
                Ok(()) => {
                    version = version + 1;
                    document.version = version;
                    document.last_modified_by = modified_by;
                    Ok(version)
                },
                Err(e) => Err(e),
            },
            None => Err(StorageError::KeyNotFound(key.to_owned())),
        };
        proof {
            if r is Err {
                assert(data@ =~= before.data);
            }
            assert forall|k: Seq<char>| #[trigger] data@.contains_key(k) implies data@[k].version
                <= version by {
                if k != key@ {
                    assert(before.data.contains_key(k));
                }
            }
        }
        *self = MemStore { data, version };
        r
    }

    /// The keys, in order.
    pub fn keys(&self) -> (r: Vec<String>)
        ensures
            order::texts(r@).no_duplicates(),
            order::texts(r@).to_set() == self@.data.dom(),
            forall|i: int, j: int|
                0 <= i < j < r@.len() ==> order::text_less(
                    #[trigger] r@[i]@,
                    #[trigger] r@[j]@,
                ),
    {
        let r = self.data.keys();
        assert(order::texts(r@) =~= r@.map_values(|k: String| k@));
        r
    }

    /// How many documents there are.
    pub fn len(&self) -> (r: usize)
        ensures
            r == self@.data.dom().len(),
    {
        self.data.len()
    }

    /// Whether there is no document.
    pub fn is_empty(&self) -> (r: bool)
        ensures
            r == (self@.data == Map::<Seq<char>, DocumentView>::empty()),
    {
        self.data.is_empty()
    }

    /// A copy of all documents.
    pub fn snapshot(&self) -> (r: SortedMap<String, Document>)
        ensures
            r@ == self@.data,
    {
        self.data.view_clone()
    }

    /// Puts these documents in the place of all others. Versions go on from the highest
    /// one among them.
    pub fn restore(&mut self, data: SortedMap<String, Document>)
        ensures
            final(self)@.data == data@,
            is_highest_version(data@, final(self)@.version),
    {
        let n = data.len();
        let mut highest: u64 = 0;
        let mut i: usize = 0;
        let ghost names = data.key_views();
        while i < n
            invariant
                i <= n == names.len(),
                names == data.key_views(),
                forall|j: int| 0 <= j < i ==> data@[#[trigger] names[j]].version <= highest,
                forall|j: int| 0 <= j < names.len() ==> data@.contains_key(#[trigger] names[j]),
                highest == 0 || exists|j: int|
                    0 <= j < names.len() && data@[#[trigger] names[j]].version == highest,
            decreases n - i,
        {
            let version = data.value_at(i).version;
            assert(data@[names[i as int]].version == version);
            if version > highest {
                highest = version;
            }
            i = i + 1;
        }
        proof {
            assert forall|k: Seq<char>| #[trigger] data@.contains_key(k) implies data@[k].version
                <= highest by {
                assert(names.to_set().contains(k));
                assert(names.contains(k));
                let j = names.index_of(k);
                assert(data@[names[j]].version <= highest);
            }
            if highest != 0 {
                let j = choose|j: int|
                    0 <= j < names.len() && data@[#[trigger] names[j]].version == highest;
                assert(data@.contains_key(names[j]));
            }
        }
        *self = MemStore { data, version: highest };
    }

    /// The version of the last write.
    pub fn current_version(&self) -> (r: u64)
        ensures
            r == self@.version,
    {
        self.version
    }

    /// Removes everything and starts over.
    pub fn clear(&mut self)
        ensures
            final(self)@ == empty_store(),
    {
        *self = MemStore::new();
    }
}

impl Default for MemStore {
    fn default() -> (r: Self)
        ensures
            r@ == empty_store(),
    {
        MemStore::new()
    }
}

// --- laws ---

/// What is put is read back, under a version of its own, and nothing else changes.
pub proof fn law_put_is_read_back(
    s: StoreView,
    key: Seq<char>,
    value: Json,
    modified_by: Seq<char>,
)
    requires
        versions_within(s.data, s.version),
        s.version < u64::MAX,
    ensures
        ({
            let t = with_document(s, key, value, modified_by);
            &&& t.data.contains_key(key)
            &&& t.data[key].value == value
            &&& t.version == s.version + 1
            &&& t.data[key].version == t.version
            &&& t.data[key].last_modified_by == modified_by
            &&& t.data.remove(key) == s.data.remove(key)
            &&& versions_within(t.data, t.version)
            &&& forall|k: Seq<char>| #[trigger]
                s.data.contains_key(k) ==> s.data[k].version < t.data[key].version
        }),
{
    let t = with_document(s, key, value, modified_by);
    assert(t.data.remove(key) =~= s.data.remove(key));
}

/// What is set at the end of a path is read back from there.
pub proof fn law_path_is_read_back(document: Json, path: Seq<Seq<char>>, value: Json)
    requires
        path.len() > 0,
        with_path(document, path, value) is Ok,
    ensures
        at_path(with_path(document, path, value)->Ok_0, path) == Some(value),
    decreases path.len(),
{
    reveal_with_fuel(at_path, 2);
    if path.len() > 1 {
        let inner = json::json_field(document, path[0])->0;
        law_path_is_read_back(inner, path.drop_first(), value);
    } else {
        assert(path.drop_first() =~= Seq::<Seq<char>>::empty());
    }
}

/// Setting what stands at the end of a path leaves alone what other paths lead to, as
/// long as neither path goes on where the other ends.
pub proof fn law_other_paths_are_left_alone(
    document: Json,
    path: Seq<Seq<char>>,
    value: Json,
    other: Seq<Seq<char>>,
    fork: int,
)
    requires
        with_path(document, path, value) is Ok,
        0 <= fork < path.len(),
        fork < other.len(),
        path.take(fork) == other.take(fork),
        path[fork] != other[fork],
    ensures
        at_path(with_path(document, path, value)->Ok_0, other) == at_path(document, other),
    decreases path.len(),
{
    if fork > 0 {
        assert(path[0] == path.take(fork)[0]);
        assert(other[0] == other.take(fork)[0]);
        let inner = json::json_field(document, path[0])->0;
        assert(path.drop_first().take(fork - 1) =~= path.take(fork).drop_first());
        assert(other.drop_first().take(fork - 1) =~= other.take(fork).drop_first());
        law_other_paths_are_left_alone(
            inner,
            path.drop_first(),
            value,
            other.drop_first(),
            fork - 1,
        );
    }
}

/// A path that is one step longer leads to the field, of that name, of what the path leads
/// to. The empty path leads to the document itself.
pub proof fn law_path_leads_on_step_by_step(document: Json, path: Seq<Seq<char>>, name: Seq<char>)
    ensures
        at_path(document, Seq::empty()) == Some(document),
        at_path(document, path.push(name)) == match at_path(document, path) {
            Some(Json::Object(fields)) => if fields.contains_key(name) {
                Some(fields[name])
            } else {
                None
            },
            _ => None,
        },
    decreases path.len(),
{
    reveal_with_fuel(at_path, 2);
    if path.len() == 0 {
        assert(path.push(name).drop_first() =~= Seq::<Seq<char>>::empty());
    } else {
        assert(path.push(name).drop_first() =~= path.drop_first().push(name));
        if let Some(inner) = json::json_field(document, path[0]) {
            law_path_leads_on_step_by_step(inner, path.drop_first(), name);
        }
    }
}

/// A value can be set at the end of a path exactly if all but the last segment of the path
/// lead to an object, whatever stood under the last segment before. Where they lead to
/// something else, the complaint names the last segment; where they do not lead on, it is
/// the first segment that is not there. The empty path sets nothing.
pub proof fn law_path_is_set_exactly_when_it_leads_into_an_object(
    document: Json,
    path: Seq<Seq<char>>,
    value: Json,
)
    ensures
        path.len() == 0 ==> with_path(document, path, value) == Ok::<Json, Seq<char>>(document),
        path.len() > 0 ==> ({
            let holder = at_path(document, path.drop_last());
            &&& with_path(document, path, value) is Ok <==> holder is Some && holder->0 is Object
            &&& holder is Some && !(holder->0 is Object) ==> with_path(document, path, value)
                == Err::<Json, Seq<char>>(
                "path segment '"@ + path.last() + "' is not an object"@,
            )
        }),
        forall|k: int|
            0 <= k < path.len() - 1 && at_path(document, #[trigger] path.take(k)) is Some
                && at_path(document, path.take(k + 1)) is None ==> with_path(document, path, value)
                == Err::<Json, Seq<char>>(path[k]),
    decreases path.len(),
{
    reveal_with_fuel(at_path, 2);
    if path.len() == 1 {
        assert(path.drop_last() =~= Seq::<Seq<char>>::empty());
    } else if path.len() > 1 {
        let rest = path.drop_first();
        assert(path.drop_last().drop_first() =~= rest.drop_last());
        assert(path.drop_last()[0] == path[0]);
        let inner = json::json_field(document, path[0]);
        if inner is Some {
            law_path_is_set_exactly_when_it_leads_into_an_object(inner->0, rest, value);
        }
        assert forall|k: int|
            0 <= k < path.len() - 1 && at_path(document, #[trigger] path.take(k)) is Some
                && at_path(document, path.take(k + 1)) is None implies with_path(
            document,
            path,
            value,
        ) == Err::<Json, Seq<char>>(path[k]) by {
            assert(path.take(k + 1).drop_first() =~= rest.take(k));
            assert(path.take(k + 1)[0] == path[0]);
            if k == 0 {
                assert(rest.take(0) =~= Seq::<Seq<char>>::empty());
            } else {
                assert(path.take(k).drop_first() =~= rest.take(k - 1));
                assert(path.take(k)[0] == path[0]);
                assert(rest[k - 1] == path[k]);
            }
        }
    }
}

/// Behind the end of a path that was set, every path leads where it leads in the value; and
/// what lies on the way is still an object.
pub proof fn law_value_is_read_below_its_path(
    document: Json,
    path: Seq<Seq<char>>,
    value: Json,
    below: Seq<Seq<char>>,
    k: int,
)
    requires
        path.len() > 0,
        with_path(document, path, value) is Ok,
        0 <= k < path.len(),
    ensures
        at_path(with_path(document, path, value)->Ok_0, path + below) == at_path(value, below),
        at_path(with_path(document, path, value)->Ok_0, path.take(k)) is Some,
        at_path(with_path(document, path, value)->Ok_0, path.take(k))->0 is Object,
    decreases path.len(),
{
    reveal_with_fuel(at_path, 2);
    let after = with_path(document, path, value)->Ok_0;
    assert((path + below).drop_first() =~= path.drop_first() + below);
    assert((path + below)[0] == path[0]);
    if path.len() > 1 {
        let inner = json::json_field(document, path[0])->0;
        let d = if k > 0 {
            k - 1
        } else {
            0
        };
        law_value_is_read_below_its_path(inner, path.drop_first(), value, below, d);
        if k > 0 {
            assert(path.take(k).drop_first() =~= path.drop_first().take(k - 1));
            assert(path.take(k)[0] == path[0]);
        }
    } else {
        assert(path.drop_first() + below =~= below);
    }
}

/// The versions of a store that was restored go on from the greatest version among its
/// documents, and from 0 where there is none.
pub proof fn law_restored_version_is_the_greatest(data: Map<Seq<char>, DocumentView>, version: u64)
    requires
        is_highest_version(data, version),
    ensures
        forall|k: Seq<char>| #[trigger] data.contains_key(k) ==> data[k].version <= version,
        version > 0 ==> exists|k: Seq<char>| #[trigger]
            data.contains_key(k) && data[k].version == version,
        data == Map::<Seq<char>, DocumentView>::empty() ==> version == 0,
{
}

} // verus!
