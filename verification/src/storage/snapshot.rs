//! Snapshot files.
//!
//! A snapshot file holds
//!
//! * four bytes that mark it as one,
//! * four bytes: the CRC-32 of the payload,
//! * eight bytes: the length of the payload, the lowest byte first,
//! * the payload: the encoded snapshot.
//!
//! Its name carries the term and the index of the snapshot, so that the order of the
//! names is the order of the snapshots.

use crate::map::SortedMap;
use crate::order;
use crate::order::Order;
use crate::storage::checksum;
use crate::storage::error::StorageError;
use crate::storage::store::{Document, DocumentView};
use vstd::bytes::{u32_from_le_bytes, u32_to_le_bytes, u64_from_le_bytes, u64_to_le_bytes};
use vstd::prelude::*;
use vstd::slice::{slice_subrange, slice_to_vec};
use vstd::string::*;
use vstd::utf8;

verus! {

/// A snapshot of the store, taken at one point of the log.
#[derive(Debug)]
pub struct Snapshot {
    pub last_included_index: u64,
    pub last_included_term: u64,
    pub data: SortedMap<String, Document>,
}

/// What a snapshot holds.
pub struct SnapshotView {
    pub last_included_index: u64,
    pub last_included_term: u64,
    pub data: Map<Seq<char>, DocumentView>,
}

impl View for Snapshot {
    type V = SnapshotView;

    open spec fn view(&self) -> SnapshotView {
        SnapshotView {
            last_included_index: self.last_included_index,
            last_included_term: self.last_included_term,
            data: self.data@,
        }
    }
}

// --- contents ---

/// The bytes that a snapshot file begins with: the letters CSNP.
pub open spec fn magic() -> Seq<u8> {
    seq![67u8, 83u8, 78u8, 80u8]
}

/// The file around a payload.
pub open spec fn framed(payload: Seq<u8>) -> Seq<u8> {
    magic() + checksum::u32_bytes(checksum::crc32(payload)) + checksum::u64_bytes(
        payload.len() as u64,
    ) + payload
}

/// What can be wrong with a snapshot file.
pub enum Fault {
    Short,
    Magic,
    Checksum,
}

/// The payload of a snapshot file, or what is wrong with the file. What stands behind the
/// payload is not looked at.
pub open spec fn unframed(bytes: Seq<u8>) -> Result<Seq<u8>, Fault> {
    if bytes.len() < 4 {
        Err(Fault::Short)
    } else if bytes.subrange(0, 4) != magic() {
        Err(Fault::Magic)
    } else if bytes.len() < 16 || bytes.len() - 16 < checksum::u64_of(bytes.subrange(8, 16)) {
        Err(Fault::Short)
    } else {
        let payload = bytes.subrange(16, 16 + checksum::u64_of(bytes.subrange(8, 16)));
        if checksum::crc32(payload) != checksum::u32_of(bytes.subrange(4, 8)) {
            Err(Fault::Checksum)
        } else {
            Ok(payload)
        }
    }
}

/// The error that reports a fault.
pub open spec fn reports(e: StorageError, fault: Fault) -> bool {
    match fault {
        Fault::Short => e matches StorageError::Io(text) && text@ == "failed to fill whole buffer"@,
        Fault::Magic => e matches StorageError::Snapshot(text) && text@ == "invalid magic bytes"@,
        Fault::Checksum => e matches StorageError::Snapshot(text) && text@ == "crc mismatch"@,
    }
}

// --- names ---

/// The last `n` hexadecimal digits of a number.
pub open spec fn hex(x: u64, n: nat) -> Seq<char>
    decreases n,
{
    if n == 0 {
        Seq::empty()
    } else {
        hex(x / 16, (n - 1) as nat).push("0123456789abcdef"@[x as int % 16])
    }
}

/// The name of the file of a snapshot: its term and its index in hexadecimal, each in
/// sixteen digits.
pub open spec fn file_name(term: u64, index: u64) -> Seq<char> {
    "snapshot-"@ + hex(term, 16) + "-"@ + hex(index, 16) + ".snap"@
}

/// The name is that of a snapshot file: it ends in `.snap` with something before it.
pub open spec fn names_snapshot(name: Seq<char>) -> bool {
    name.len() > 5 && name.skip(name.len() - 5) == ".snap"@
}

/// The names stand in descending order.
pub open spec fn descending(names: Seq<Seq<char>>) -> bool {
    forall|i: int, j: int|
        0 <= i < j < names.len() ==> !order::text_less(#[trigger] names[i], #[trigger] names[j])
}

/// The names of snapshot files among some names, the newest snapshot first.
pub open spec fn newest_first(r: Seq<Seq<char>>, names: Seq<Seq<char>>) -> bool {
    &&& descending(r)
    &&& r.to_multiset() == names.filter(|name: Seq<char>| names_snapshot(name)).to_multiset()
}

fn push_hex(text: &mut String, x: u64, n: usize)
    requires
        n <= 16,
    ensures
        final(text)@ == old(text)@ + hex(x, n as nat),
    decreases n,
{
    if n > 0 {
        let digits = "0123456789abcdef";
        proof {
            reveal_strlit("0123456789abcdef");
        }
        push_hex(text, x / 16, n - 1);
        let d: usize = (x % 16) as usize;
        let ghost before = text@;
        text.append(digits.substring_char(d, d + 1));
        proof {
            assert(digits@.subrange(d as int, d + 1) =~= seq![digits@[d as int]]);
            assert(text@ =~= before.push(digits@[d as int]));
        }
        assert(text@ =~= old(text)@ + hex(x, n as nat));
    } else {
        assert(text@ =~= old(text)@ + hex(x, 0));
    }
}

fn is_snapshot_name(name: &str) -> (r: bool)
    ensures
        r == names_snapshot(name@),
{
    let n = name.unicode_len();
    n > 5 && order::text_equal(name.substring_char(n - 5, n), ".snap")
}

/// The load at `i` gave the snapshot, and those before it failed.
pub open spec fn loaded_first(
    loads: Seq<Result<Snapshot, StorageError>>,
    i: int,
    snapshot: Snapshot,
) -> bool {
    &&& 0 <= i < loads.len()
    &&& loads[i] == Ok::<Snapshot, StorageError>(snapshot)
    &&& forall|j: int| 0 <= j < i ==> #[trigger] loads[j] is Err
}

/// What is kept in a directory of snapshots, and under which names. Reading and writing
/// the files is left to the caller.
#[derive(Debug)]
pub struct SnapshotManager {}

impl SnapshotManager {
    /// The name and the contents of the file of a snapshot that is encoded as `payload`.
    pub fn save(snapshot: &Snapshot, payload: &[u8]) -> (r: (String, Vec<u8>))
        ensures
            r.0@ == file_name(snapshot@.last_included_term, snapshot@.last_included_index),
            r.1@ == framed(payload@),
    {
        let mut name = "snapshot-".to_owned();
        push_hex(&mut name, snapshot.last_included_term, 16);
        name.append("-");
        push_hex(&mut name, snapshot.last_included_index, 16);
        name.append(".snap");
        let mut contents: Vec<u8> = Vec::new();
        contents.push(67);
        contents.push(83);
        contents.push(78);
        contents.push(80);
        assert(contents@ =~= magic());
        let mut crc = u32_to_le_bytes(crc32fast::hash(payload));
        contents.append(&mut crc);
        let mut len = u64_to_le_bytes(payload.len() as u64);
        contents.append(&mut len);
        let mut body = slice_to_vec(payload);
        contents.append(&mut body);
        (name, contents)
    }

    /// The payload of a snapshot file.
    pub fn load_snapshot(contents: &[u8]) -> (r: Result<Vec<u8>, StorageError>)
        ensures
            match unframed(contents@) {
                Ok(payload) => r matches Ok(bytes) && bytes@ == payload,
                Err(fault) => r matches Err(e) && reports(e, fault),
            },
    {
        let n = contents.len();
        if n < 4 {
            return Err(StorageError::Io("failed to fill whole buffer".to_owned()));
        }
        assert(contents@.subrange(0, 4) =~= seq![
            contents@[0],
            contents@[1],
            contents@[2],
            contents@[3],
        ]);
        if contents[0] != 67 || contents[1] != 83 || contents[2] != 78 || contents[3] != 80 {
            proof {
                let found = contents@.subrange(0, 4);
                assert(found[0] == contents@[0] && found[1] == contents@[1] && found[2]
                    == contents@[2] && found[3] == contents@[3]);
                assert(magic()[0] == 67 && magic()[1] == 83 && magic()[2] == 78 && magic()[3]
                    == 80);
            }
            return Err(StorageError::Snapshot("invalid magic bytes".to_owned()));
        }
        assert(contents@.subrange(0, 4) =~= magic());
        if n < 16 {
            return Err(StorageError::Io("failed to fill whole buffer".to_owned()));
        }
        let crc = u32_from_le_bytes(slice_subrange(contents, 4, 8));
        let len = u64_from_le_bytes(slice_subrange(contents, 8, 16));
        if ((n - 16) as u64) < len {
            return Err(StorageError::Io("failed to fill whole buffer".to_owned()));
        }
        let payload = slice_subrange(contents, 16, 16 + len as usize);
        if crc32fast::hash(payload) != crc {
            return Err(StorageError::Snapshot("crc mismatch".to_owned()));
        }
        Ok(slice_to_vec(payload))
    }

    /// The snapshot files among the files of a directory, the newest snapshot first.
    pub fn candidates(names: &Vec<String>) -> (r: Vec<String>)
        ensures
            newest_first(order::texts(r@), order::texts(names@)),
    {
        let ghost all = order::texts(names@);
        let ghost wanted = |name: Seq<char>| names_snapshot(name);
        let n = names.len();
        let mut r: Vec<String> = Vec::new();
        let mut i: usize = 0;
        proof {
            reveal(Seq::filter);
            assert(all.take(0).filter(wanted) =~= order::texts(r@));
        }
        while i < n
            invariant
                i <= n == names@.len(),
                all == order::texts(names@),
                wanted == (|name: Seq<char>| names_snapshot(name)),
                descending(order::texts(r@)),
                order::texts(r@).to_multiset() == all.take(i as int).filter(wanted).to_multiset(),
            decreases n - i,
        {
            proof {
                reveal(Seq::filter);
                assert(all.take(i + 1).drop_last() =~= all.take(i as int));
                assert(all.take(i + 1).last() == names@[i as int]@);
                all.take(i as int).filter(wanted).to_multiset_ensures();
            }
            if is_snapshot_name(names[i].as_str()) {
                SnapshotManager::insert_descending(&mut r, names[i].clone());
            }
            i = i + 1;
        }
        assert(all.take(n as int) =~= all);
        r
    }

    fn insert_descending(list: &mut Vec<String>, name: String)
        requires
            descending(order::texts(old(list)@)),
        ensures
            descending(order::texts(final(list)@)),
            order::texts(final(list)@).to_multiset() == order::texts(
                old(list)@,
            ).to_multiset().insert(name@),
    {
        let ghost before = order::texts(list@);
        let n = list.len();
        let mut at: usize = 0;
        while at < n && order::text_order(list[at].as_str(), name.as_str()) == Order::Greater
            invariant
                at <= n == list@.len(),
                before == order::texts(list@),
                forall|j: int| 0 <= j < at ==> order::text_less(name@, #[trigger] before[j]),
            decreases n - at,
        {
            at = at + 1;
        }
        list.insert(at, name);
        proof {
            let after = order::texts(list@);
            assert(after =~= before.insert(at as int, name@));
            assert(after.remove(at as int) =~= before);
            after.to_multiset_ensures();
            before.to_multiset_ensures();
            assert(after[at as int] == name@);
            assert(after.contains(name@));
            assert(after.to_multiset() =~= before.to_multiset().insert(name@));
            assert forall|i: int, j: int| 0 <= i < j < after.len() implies !order::text_less(
                #[trigger] after[i],
                #[trigger] after[j],
            ) by {
                if i < at && j == at {
                    assert(order::text_less(name@, before[i]));
                    if order::text_less(before[i], name@) {
                        order::lemma_text_transitive(name@, before[i], name@);
                        order::lemma_text_irreflexive(name@);
                    }
                } else if i == at {
                    assert(after[j] == before[j - 1]);
                    if order::text_less(name@, before[j - 1]) {
                        if j - 1 > at {
                            assert(!order::text_less(before[at as int], before[j - 1]));
                            order::lemma_text_total(before[at as int], name@);
                            if order::text_less(before[at as int], name@) {
                                order::lemma_text_transitive(
                                    before[at as int],
                                    name@,
                                    before[j - 1],
                                );
                            }
                        }
                    }
                } else {
                    let x = if i < at {
                        i
                    } else {
                        i - 1
                    };
                    let y = if j < at {
                        j
                    } else {
                        j - 1
                    };
                    assert(after[i] == before[x] && after[j] == before[y]);
                }
            }
        }
    }

    /// The latest snapshot: the first that loaded, of those that were tried, the newest
    /// first. A damaged one is passed over.
    #[verifier::loop_isolation(false)]
    pub fn load_latest(loads: Vec<Result<Snapshot, StorageError>>) -> (r: Option<Snapshot>)
        ensures
            r is Some ==> exists|i: int| #[trigger] loaded_first(loads@, i, r->0),
            r is None ==> forall|i: int| 0 <= i < loads@.len() ==> #[trigger] loads@[i] is Err,
    {
        let ghost all = loads@;
        let mut rest = loads;
        let ghost mut passed: int = 0;
        while rest.len() > 0
            invariant
                0 <= passed <= all.len(),
                rest@ == all.skip(passed),
                forall|j: int| 0 <= j < passed ==> #[trigger] all[j] is Err,
            decreases rest@.len(),
        {
            let load = rest.remove(0);
            assert(load == all[passed]);
            match load {
                Ok(snapshot) => {
                    let found = Some(snapshot);
                    assert(loaded_first(loads@, passed, found->0));
                    return found;
                },
                Err(_) => {},
            }
            proof {
                assert(rest@ =~= all.skip(passed + 1));
                passed = passed + 1;
            }
        }
        None
    }

    /// The snapshot files to remove so that the newest `keep` are left.
    pub fn cleanup_old(names: &Vec<String>, keep: usize) -> (r: Vec<String>)
        ensures
            exists|all: Seq<Seq<char>>| #[trigger]
                newest_first(all, order::texts(names@)) && order::texts(r@) == if keep
                    < all.len() {
                    all.skip(keep as int)
                } else {
                    Seq::empty()
                },
    {
        let mut all = SnapshotManager::candidates(names);
        let ghost listed = order::texts(all@);
        if keep < all.len() {
            let r = all.split_off(keep);
            assert(order::texts(r@) =~= listed.skip(keep as int));
            r
        } else {
            let r: Vec<String> = Vec::new();
            assert(order::texts(r@) =~= Seq::<Seq<char>>::empty());
            r
        }
    }
}

// --- laws ---

/// What is saved is loaded again.
pub proof fn law_saved_payload_is_loaded(payload: Seq<u8>)
    requires
        payload.len() <= u64::MAX,
    ensures
        unframed(framed(payload)) == Ok::<Seq<u8>, Fault>(payload),
{
    let crc = checksum::crc32(payload);
    checksum::law_numbers_read_back(crc, payload.len() as u64);
    let bytes = framed(payload);
    assert(bytes.subrange(0, 4) =~= magic());
    assert(bytes.subrange(4, 8) =~= checksum::u32_bytes(crc));
    assert(bytes.subrange(8, 16) =~= checksum::u64_bytes(payload.len() as u64));
    assert(bytes.subrange(16, bytes.len() as int) =~= payload);
}

/// A file that is cut off anywhere is not loaded.
pub proof fn law_cut_off_file_is_not_loaded(payload: Seq<u8>, cut: int)
    requires
        payload.len() <= u64::MAX,
        0 <= cut < framed(payload).len(),
    ensures
        unframed(framed(payload).take(cut)) == Err::<Seq<u8>, Fault>(Fault::Short),
{
    let crc = checksum::crc32(payload);
    checksum::law_numbers_read_back(crc, payload.len() as u64);
    let bytes = framed(payload);
    let short = bytes.take(cut);
    if cut >= 4 {
        assert(short.subrange(0, 4) =~= magic());
    }
    if cut >= 16 {
        assert(short.subrange(8, 16) =~= checksum::u64_bytes(payload.len() as u64));
    }
}

/// A file whose payload was changed, but not its length, is loaded only if the checksum
/// of the changed payload happens to be the same.
pub proof fn law_changed_payload_is_detected(payload: Seq<u8>, changed: Seq<u8>)
    requires
        payload.len() <= u64::MAX,
        changed.len() == payload.len(),
        checksum::crc32(changed) != checksum::crc32(payload),
    ensures
        unframed(framed(payload).take(16) + changed) == Err::<Seq<u8>, Fault>(Fault::Checksum),
{
    let crc = checksum::crc32(payload);
    checksum::law_numbers_read_back(crc, payload.len() as u64);
    let bytes = framed(payload).take(16) + changed;
    assert(bytes.subrange(0, 4) =~= magic());
    assert(bytes.subrange(4, 8) =~= checksum::u32_bytes(crc));
    assert(bytes.subrange(8, 16) =~= checksum::u64_bytes(payload.len() as u64));
    assert(bytes.subrange(16, bytes.len() as int) =~= changed);
}

proof fn lemma_hex_shape(x: u64, n: nat)
    ensures
        hex(x, n).len() == n,
        forall|i: int| 0 <= i < n ==> is_digit(#[trigger] hex(x, n)[i]),
    decreases n,
{
    reveal_strlit("0123456789abcdef");
    if n > 0 {
        lemma_hex_shape(x / 16, (n - 1) as nat);
        let d = x as int % 16;
        assert(is_digit("0123456789abcdef"@[d]));
        assert forall|i: int| 0 <= i < n implies is_digit(#[trigger] hex(x, n)[i]) by {
            if i < n - 1 {
                assert(hex(x, n)[i] == hex(x / 16, (n - 1) as nat)[i]);
            }
        }
    }
}

spec fn is_digit(c: char) -> bool {
    ('0' <= c && c <= '9') || ('a' <= c && c <= 'f')
}

/// The number has at most `n` hexadecimal digits.
spec fn has_digits(x: u64, n: nat) -> bool
    decreases n,
{
    if n == 0 {
        x == 0
    } else {
        has_digits(x / 16, (n - 1) as nat)
    }
}

proof fn lemma_sixteen_digits(x: u64)
    ensures
        has_digits(x, 16),
{
    reveal_with_fuel(has_digits, 17);
}

/// Where the digits of a smaller number first differ from those of a larger one.
proof fn lemma_hex_order(x: u64, y: u64, n: nat) -> (k: int)
    requires
        x < y,
        has_digits(x, n),
        has_digits(y, n),
    ensures
        0 <= k < n,
        forall|i: int| 0 <= i < k ==> hex(x, n)[i] == hex(y, n)[i],
        hex(x, n)[k] < hex(y, n)[k],
    decreases n,
{
    reveal_strlit("0123456789abcdef");
    lemma_hex_shape(x, n);
    lemma_hex_shape(y, n);
    if n == 0 {
        0
    } else {
        let m = (n - 1) as nat;
        lemma_hex_shape(x / 16, m);
        lemma_hex_shape(y / 16, m);
        if x / 16 == y / 16 {
            assert(x % 16 < y % 16);
            m as int
        } else {
            let k = lemma_hex_order(x / 16, y / 16, m);
            assert(hex(x, n)[k] == hex(x / 16, m)[k]);
            assert(hex(y, n)[k] == hex(y / 16, m)[k]);
            k
        }
    }
}

proof fn lemma_name_shape(term: u64, index: u64)
    ensures
        ({
            let name = file_name(term, index);
            &&& name.len() == 47
            &&& utf8::is_ascii_chars(name)
            &&& name.take(9) == "snapshot-"@
            &&& name.subrange(9, 25) == hex(term, 16)
            &&& name[25] == '-'
            &&& name.subrange(26, 42) == hex(index, 16)
            &&& name.skip(42) == ".snap"@
        }),
{
    reveal_strlit("snapshot-");
    reveal_strlit("-");
    reveal_strlit(".snap");
    lemma_hex_shape(term, 16);
    lemma_hex_shape(index, 16);
    let name = file_name(term, index);
    assert(name.take(9) =~= "snapshot-"@);
    assert(name.subrange(9, 25) =~= hex(term, 16));
    assert(name.subrange(26, 42) =~= hex(index, 16));
    assert(name.skip(42) =~= ".snap"@);
    assert forall|i: int| 0 <= i < name.len() implies '\0' <= #[trigger] name[i] <= '\u{7f}' by {
        if 9 <= i < 25 {
            assert(name[i] == hex(term, 16)[i - 9]);
        } else if 26 <= i < 42 {
            assert(name[i] == hex(index, 16)[i - 26]);
        }
    }
}

/// The order of the names is the order of the snapshots: by term, and by index within a
/// term.
pub proof fn law_names_are_in_order(term: u64, index: u64, later_term: u64, later_index: u64)
    requires
        term < later_term || (term == later_term && index < later_index),
    ensures
        order::text_less(file_name(term, index), file_name(later_term, later_index)),
{
    let a = file_name(term, index);
    let b = file_name(later_term, later_index);
    lemma_name_shape(term, index);
    lemma_name_shape(later_term, later_index);
    lemma_sixteen_digits(term);
    lemma_sixteen_digits(later_term);
    lemma_sixteen_digits(index);
    lemma_sixteen_digits(later_index);
    lemma_hex_shape(term, 16);
    lemma_hex_shape(later_term, 16);
    lemma_hex_shape(index, 16);
    lemma_hex_shape(later_index, 16);
    let at = if term < later_term {
        9 + lemma_hex_order(term, later_term, 16)
    } else {
        26 + lemma_hex_order(index, later_index, 16)
    };
    assert forall|i: int| 0 <= i < at implies a[i] == b[i] by {
        if i < 9 {
            assert(a[i] == a.take(9)[i]);
            assert(b[i] == b.take(9)[i]);
        } else if i < 25 {
            assert(a[i] == a.subrange(9, 25)[i - 9]);
            assert(b[i] == b.subrange(9, 25)[i - 9]);
        } else if i >= 26 {
            assert(a[i] == a.subrange(26, 42)[i - 26]);
            assert(b[i] == b.subrange(26, 42)[i - 26]);
        }
    }
    if at < 25 {
        assert(a[at] == a.subrange(9, 25)[at - 9]);
        assert(b[at] == b.subrange(9, 25)[at - 9]);
    } else {
        assert(a[at] == a.subrange(26, 42)[at - 26]);
        assert(b[at] == b.subrange(26, 42)[at - 26]);
    }
    assert(a[at] < b[at]);
    utf8::is_ascii_chars_encode_utf8(a);
    utf8::is_ascii_chars_encode_utf8(b);
    let x = utf8::encode_utf8(a);
    let y = utf8::encode_utf8(b);
    assert forall|i: int| 0 <= i < at implies x[i] == y[i] by {
        assert(a[i] as u8 == x[i] && b[i] as u8 == y[i]);
    }
    assert(a[at] as u8 == x[at] && b[at] as u8 == y[at]);
    assert('\0' <= a[at] <= '\u{7f}' && '\0' <= b[at] <= '\u{7f}');
    assert(order::decided_at(x, y, order::byte_order(), at));
}

/// A file that is saved is found among the snapshots, one that is still being written,
/// under its name with `.tmp` behind it, is not.
pub proof fn law_only_finished_files_are_found(term: u64, index: u64)
    ensures
        names_snapshot(file_name(term, index)),
        !names_snapshot(file_name(term, index) + ".tmp"@),
{
    reveal_strlit(".tmp");
    reveal_strlit(".snap");
    lemma_name_shape(term, index);
    let tmp = file_name(term, index) + ".tmp"@;
    let end = tmp.skip(tmp.len() - 5);
    assert(end[4] == 'p' && end[3] == 'm');
    assert(".snap"@[3] == 'a');
}

/// What a snapshot file is made of: the letters CSNP, the checksum of the payload, its
/// length, and the payload. The numbers are written with their lowest byte first.
pub proof fn law_layout_of_a_file(payload: Seq<u8>)
    requires
        payload.len() <= u64::MAX,
    ensures
        ({
            let bytes = framed(payload);
            &&& bytes.len() == 16 + payload.len()
            &&& bytes[0] == 0x43 && bytes[1] == 0x53 && bytes[2] == 0x4e && bytes[3] == 0x50
            &&& bytes.subrange(4, 8) == vstd::bytes::spec_u32_to_le_bytes(
                checksum::crc32(payload),
            )
            &&& bytes.subrange(8, 16) == vstd::bytes::spec_u64_to_le_bytes(payload.len() as u64)
            &&& bytes.skip(16) == payload
        }),
{
    let bytes = framed(payload);
    checksum::law_numbers_read_back(checksum::crc32(payload), payload.len() as u64);
    assert(bytes.subrange(4, 8) =~= checksum::u32_bytes(checksum::crc32(payload)));
    assert(bytes.subrange(8, 16) =~= checksum::u64_bytes(payload.len() as u64));
    assert(bytes.skip(16) =~= payload);
}

/// A file is loaded exactly if it begins with the letters CSNP, has as many bytes behind its
/// sixteen first ones as it tells, and its checksum is that of these bytes. They are what is
/// loaded. Otherwise the file is reported to be short where it is, and else by what is wrong
/// with it.
pub proof fn law_file_is_loaded_exactly_when_whole(bytes: Seq<u8>)
    ensures
        ({
            let marked = bytes.len() >= 4 && bytes[0] == 0x43 && bytes[1] == 0x53 && bytes[2]
                == 0x4e && bytes[3] == 0x50;
            let n = vstd::bytes::spec_u64_from_le_bytes(bytes.subrange(8, 16));
            let complete = bytes.len() >= 16 && 16 + n <= bytes.len();
            let crc = vstd::bytes::spec_u32_from_le_bytes(bytes.subrange(4, 8));
            let right = checksum::crc32(bytes.subrange(16, 16 + n)) == crc;
            &&& unframed(bytes) is Ok <==> marked && complete && right
            &&& unframed(bytes) matches Ok(payload) ==> {
                &&& payload.len() == n
                &&& forall|i: int| 0 <= i < n ==> #[trigger] payload[i] == bytes[16 + i]
            }
            &&& unframed(bytes) == Err::<Seq<u8>, Fault>(Fault::Magic) <==> bytes.len() >= 4
                && !marked
            &&& unframed(bytes) == Err::<Seq<u8>, Fault>(Fault::Checksum) <==> marked && complete
                && !right
            &&& unframed(bytes) == Err::<Seq<u8>, Fault>(Fault::Short) <==> bytes.len() < 4 || (
            marked && !complete)
        }),
{
    if bytes.len() >= 4 {
        let found = bytes.subrange(0, 4);
        assert(found[0] == bytes[0] && found[1] == bytes[1] && found[2] == bytes[2] && found[3]
            == bytes[3]);
        assert(magic()[0] == 67 && magic()[1] == 83 && magic()[2] == 78 && magic()[3] == 80);
        if bytes[0] == 0x43 && bytes[1] == 0x53 && bytes[2] == 0x4e && bytes[3] == 0x50 {
            assert(found =~= magic());
        }
    }
}

/// The number that a text of hexadecimal digits writes.
pub open spec fn number_in(text: Seq<char>) -> int
    decreases text.len(),
{
    if text.len() == 0 {
        0
    } else {
        let c = text.last();
        16 * number_in(text.drop_last()) + if c <= '9' {
            c as int - '0' as int
        } else {
            10 + c as int - 'a' as int
        }
    }
}

proof fn lemma_hex_value(x: u64, n: nat)
    requires
        has_digits(x, n),
    ensures
        number_in(hex(x, n)) == x,
    decreases n,
{
    reveal_strlit("0123456789abcdef");
    if n > 0 {
        let m = (n - 1) as nat;
        lemma_hex_value(x / 16, m);
        let d = x as int % 16;
        let digit = "0123456789abcdef"@[d];
        assert(hex(x, n).drop_last() =~= hex(x / 16, m));
        assert(hex(x, n).last() == digit);
        assert(digit as int == if d < 10 {
            '0' as int + d
        } else {
            'a' as int + d - 10
        });
    }
}

/// The name of a snapshot file writes its term and its index out, each in sixteen lower-case
/// hexadecimal digits, between `snapshot-`, `-` and `.snap`.
pub proof fn law_name_tells_term_and_index(term: u64, index: u64)
    ensures
        ({
            let name = file_name(term, index);
            &&& name.len() == 47
            &&& name.take(9) == "snapshot-"@
            &&& number_in(name.subrange(9, 25)) == term
            &&& name[25] == '-'
            &&& number_in(name.subrange(26, 42)) == index
            &&& name.skip(42) == ".snap"@
            &&& forall|i: int|
                9 <= i < 42 && i != 25 ==> ('0' <= #[trigger] name[i] && name[i] <= '9') || ('a'
                    <= name[i] && name[i] <= 'f')
        }),
{
    let name = file_name(term, index);
    lemma_name_shape(term, index);
    lemma_sixteen_digits(term);
    lemma_sixteen_digits(index);
    lemma_hex_value(term, 16);
    lemma_hex_value(index, 16);
    lemma_hex_shape(term, 16);
    lemma_hex_shape(index, 16);
    assert forall|i: int| 9 <= i < 42 && i != 25 implies ('0' <= #[trigger] name[i] && name[i]
        <= '9') || ('a' <= name[i] && name[i] <= 'f') by {
        if i < 25 {
            assert(name[i] == name.subrange(9, 25)[i - 9]);
            assert(is_digit(hex(term, 16)[i - 9]));
        } else {
            assert(name[i] == name.subrange(26, 42)[i - 26]);
            assert(is_digit(hex(index, 16)[i - 26]));
        }
    }
}

/// Among the names of a directory those of snapshots are the ones that end in `.snap` behind
/// something else. Each of them is listed, as often as it is there, and nothing else; and of
/// two snapshots the one of the later term, or of the later index in the same term, comes
/// first.
pub proof fn law_newest_snapshots_come_first(
    r: Seq<Seq<char>>,
    names: Seq<Seq<char>>,
    name: Seq<char>,
)
    requires
        newest_first(r, names),
    ensures
        names_snapshot(name) <==> name.len() > 5 && name[name.len() - 5] == '.' && name[name.len()
            - 4] == 's' && name[name.len() - 3] == 'n' && name[name.len() - 2] == 'a'
            && name[name.len() - 1] == 'p',
        names_snapshot(name) ==> r.to_multiset().count(name) == names.to_multiset().count(name),
        r.contains(name) <==> names.contains(name) && names_snapshot(name),
        forall|i: int, j: int, term: u64, index: u64, other_term: u64, other_index: u64|
            #![trigger r[i], r[j], file_name(term, index), file_name(other_term, other_index)]
            0 <= i < j < r.len() && r[i] == file_name(term, index) && r[j] == file_name(
                other_term,
                other_index,
            ) ==> term > other_term || (term == other_term && index >= other_index),
{
    reveal_strlit(".snap");
    let wanted = |name: Seq<char>| names_snapshot(name);
    if name.len() > 5 {
        let end = name.skip(name.len() - 5);
        assert(end[0] == name[name.len() - 5] && end[1] == name[name.len() - 4] && end[2]
            == name[name.len() - 3] && end[3] == name[name.len() - 2] && end[4]
            == name[name.len() - 1]);
        if end[0] == '.' && end[1] == 's' && end[2] == 'n' && end[3] == 'a' && end[4] == 'p' {
            assert(end =~= ".snap"@);
        }
    }
    lemma_filter_counts(names, wanted, name);
    r.to_multiset_ensures();
    names.to_multiset_ensures();
    names.filter(wanted).to_multiset_ensures();
    assert forall|i: int, j: int, term: u64, index: u64, other_term: u64, other_index: u64|
        #![trigger r[i], r[j], file_name(term, index), file_name(other_term, other_index)]
        0 <= i < j < r.len() && r[i] == file_name(term, index) && r[j] == file_name(
            other_term,
            other_index,
        ) implies term > other_term || (term == other_term && index >= other_index) by {
        if term < other_term || (term == other_term && index < other_index) {
            law_names_are_in_order(term, index, other_term, other_index);
        }
    }
}

proof fn lemma_filter_counts(
    names: Seq<Seq<char>>,
    wanted: spec_fn(Seq<char>) -> bool,
    name: Seq<char>,
)
    ensures
        names.filter(wanted).to_multiset().count(name) == if wanted(name) {
            names.to_multiset().count(name)
        } else {
            0
        },
    decreases names.len(),
{
    reveal(Seq::filter);
    names.to_multiset_ensures();
    names.filter(wanted).to_multiset_ensures();
    if names.len() > 0 {
        let front = names.drop_last();
        let last = names.last();
        lemma_filter_counts(front, wanted, name);
        front.to_multiset_ensures();
        front.filter(wanted).to_multiset_ensures();
        assert(names =~= front.push(last));
    }
}

/// The snapshot that is taken is the first that could be loaded.
pub proof fn law_first_that_loads_is_taken(
    loads: Seq<Result<Snapshot, StorageError>>,
    i: int,
    snapshot: Snapshot,
)
    ensures
        loaded_first(loads, i, snapshot) <==> 0 <= i < loads.len() && loads[i] is Ok
            && loads[i]->Ok_0 == snapshot && forall|j: int|
            0 <= j < i ==> !(#[trigger] loads[j] is Ok),
{
}

/// The faults of a file are told apart: what is short is an error of reading, and of the
/// others each has its own words.
pub proof fn law_faults_are_told_apart(e: StorageError)
    ensures
        reports(e, Fault::Short) ==> e is Io,
        reports(e, Fault::Magic) ==> e is Snapshot,
        reports(e, Fault::Checksum) ==> e is Snapshot,
        !(reports(e, Fault::Magic) && reports(e, Fault::Checksum)),
{
    reveal_strlit("invalid magic bytes");
    reveal_strlit("crc mismatch");
    assert("invalid magic bytes"@.len() == 19);
    assert("crc mismatch"@.len() == 12);
}

} // verus!
