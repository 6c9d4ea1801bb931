//! The write-ahead log.
//!
//! The log is a file of frames. A frame is
//!
//! * four bytes: the CRC-32 of the length and the payload,
//! * four bytes: the length of the payload, the lowest byte first,
//! * the payload: an entry as bincode encodes it.
//!
//! Here the file is a string of bytes: what has been read of it comes in, and what has
//! to be written to it goes out.
//!
//! A crash can leave a torn frame at the end of the file. It is not read, and nothing behind
//! it is; so it has to be cut off before the file is written to again.

use crate::storage::checksum;
use crate::storage::error::StorageError;
use vstd::bytes::{u32_from_le_bytes, u32_to_le_bytes};
use vstd::prelude::*;
use vstd::slice::slice_subrange;

verus! {

/// The bytes of a frame before its payload.
pub const HEADER_SIZE: usize = 8;

/// The longest payload that is read back.
pub const MAX_PAYLOAD: usize = 67_108_864;

/// An entry of the write-ahead log.
#[derive(Debug, PartialEq)]
pub struct WalEntry {
    pub index: u64,
    pub term: u64,
    pub data: Vec<u8>,
}

/// What an entry of the write-ahead log says.
pub struct WalEntryView {
    pub index: u64,
    pub term: u64,
    pub data: Seq<u8>,
}

impl View for WalEntry {
    type V = WalEntryView;

    open spec fn view(&self) -> WalEntryView {
        WalEntryView { index: self.index, term: self.term, data: self.data@ }
    }
}

impl Clone for WalEntry {
    fn clone(&self) -> (r: Self)
        ensures
            r@ == self@,
    {
        WalEntry {
            index: self.index,
            term: self.term,
            data: vstd::slice::slice_to_vec(self.data.as_slice()),
        }
    }
}

/// What a list of entries says.
pub open spec fn wal_views(entries: Seq<WalEntry>) -> Seq<WalEntryView> {
    Seq::new(entries.len(), |i: int| entries[i]@)
}

/// An entry, as a value.
pub open spec fn record(index: u64, term: u64, data: Seq<u8>) -> WalEntryView {
    WalEntryView { index, term, data }
}

// --- the payload ---

/// The payload of an entry: index, term and length in eight bytes each, and the data.
pub open spec fn payload(entry: WalEntryView) -> Seq<u8> {
    checksum::u64_bytes(entry.index) + checksum::u64_bytes(entry.term) + checksum::u64_bytes(
        entry.data.len() as u64,
    ) + entry.data
}

/// The entry that a payload encodes. What stands behind the data is not looked at.
pub open spec fn decoded(bytes: Seq<u8>) -> Option<WalEntryView> {
    if bytes.len() < 24 || bytes.len() - 24 < checksum::u64_of(bytes.subrange(16, 24)) {
        None
    } else {
        let n = checksum::u64_of(bytes.subrange(16, 24));
        Some(
            WalEntryView {
                index: checksum::u64_of(bytes.subrange(0, 8)),
                term: checksum::u64_of(bytes.subrange(8, 16)),
                data: bytes.subrange(24, 24 + n),
            },
        )
    }
}

/// The length that the bytes carry, if they carry one, is one that every machine can hold.
pub open spec fn length_is_common(bytes: Seq<u8>) -> bool {
    bytes.len() >= 24 ==> checksum::u64_of(bytes.subrange(16, 24)) <= u32::MAX
}

/// The text in which `bincode::deserialize` complains of bytes that do not decode and whose
/// length every machine can hold.
pub uninterp spec fn decode_complaint(bytes: Seq<u8>) -> Seq<char>;

/// `bincode::serialize` of two numbers and some bytes: the numbers and the length of the
/// bytes in eight bytes each, the lowest first, and then the bytes. It does not fail on
/// such values.
#[verifier::external_body]
fn encode(index: u64, term: u64, data: &Vec<u8>) -> (r: Result<Vec<u8>, String>)
    ensures
        r is Ok,
        r->Ok_0@ == payload(record(index, term, data@)),
{
    bincode::serialize(&(index, term, data)).map_err(|e| e.to_string())
}

/// `bincode::deserialize` to two numbers and some bytes: it reads what [`encode`] writes,
/// takes no offence at bytes that are left over, and fails where bytes are missing. The
/// text of its complaint is a function of the bytes. Of the text for a length above
/// `u32::MAX` nothing is said: it is another one where addresses have 32 bits.
#[verifier::external_body]
fn decode(bytes: &[u8]) -> (r: Result<(u64, u64, Vec<u8>), String>)
    ensures
        match r {
            Ok(fields) => decoded(bytes@) == Some(record(fields.0, fields.1, fields.2@)),
            Err(complaint) => {
                &&& decoded(bytes@) is None
                &&& length_is_common(bytes@) ==> complaint@ == decode_complaint(bytes@)
            },
        },
{
    bincode::deserialize(bytes).map_err(|e| e.to_string())
}

// --- frames ---

/// The frame around a payload.
pub open spec fn frame_of(payload: Seq<u8>) -> Seq<u8> {
    let len = checksum::u32_bytes(payload.len() as u32);
    checksum::u32_bytes(checksum::crc32(len + payload)) + len + payload
}

/// The frame of an entry.
pub open spec fn frame(entry: WalEntryView) -> Seq<u8> {
    frame_of(payload(entry))
}

/// The file that holds a list of entries.
pub open spec fn file_of(entries: Seq<WalEntryView>) -> Seq<u8>
    decreases entries.len(),
{
    if entries.len() == 0 {
        Seq::empty()
    } else {
        file_of(entries.drop_last()) + frame(entries.last())
    }
}

/// The checksum that the frame at the start of some bytes carries.
pub open spec fn stored_crc(bytes: Seq<u8>) -> u32 {
    checksum::u32_of(bytes.subrange(0, 4))
}

/// The length that the frame at the start of some bytes carries.
pub open spec fn stored_len(bytes: Seq<u8>) -> u32 {
    checksum::u32_of(bytes.subrange(4, 8))
}

/// The bytes begin with a whole frame whose checksum is right.
pub open spec fn begins_with_frame(bytes: Seq<u8>) -> bool {
    &&& bytes.len() >= HEADER_SIZE
    &&& 0 < stored_len(bytes) <= MAX_PAYLOAD
    &&& bytes.len() - HEADER_SIZE >= stored_len(bytes)
    &&& stored_crc(bytes) == checksum::crc32(bytes.subrange(4, HEADER_SIZE + stored_len(bytes)))
}

/// Why a file cannot be read: a frame whose checksum is right does not decode. The reason
/// is the decoder's complaint, where that is the same on every machine.
pub struct WalDamage {
    pub offset: int,
    pub reason: Option<Seq<char>>,
}

/// The decoder's complaint of a payload, where it is the same on every machine.
pub open spec fn reason_of(payload: Seq<u8>) -> Option<Seq<char>> {
    if length_is_common(payload) {
        Some(decode_complaint(payload))
    } else {
        None
    }
}

/// What is read from an offset on: the entries of the frames that follow each other, up
/// to the first that is cut off or whose checksum is wrong.
pub open spec fn read_from(bytes: Seq<u8>, offset: int) -> Result<Seq<WalEntryView>, WalDamage>
    decreases bytes.len() - offset,
{
    let rest = bytes.skip(offset);
    if !(0 <= offset <= bytes.len()) || !begins_with_frame(rest) {
        Ok(Seq::empty())
    } else {
        let end = HEADER_SIZE + stored_len(rest);
        match decoded(rest.subrange(HEADER_SIZE as int, end)) {
            None => Err(
                WalDamage {
                    offset,
                    reason: reason_of(rest.subrange(HEADER_SIZE as int, end)),
                },
            ),
            Some(entry) => preceded(seq![entry], read_from(bytes, offset + end)),
        }
    }
}

/// A reading with entries in front of it.
pub open spec fn preceded(
    entries: Seq<WalEntryView>,
    rest: Result<Seq<WalEntryView>, WalDamage>,
) -> Result<Seq<WalEntryView>, WalDamage> {
    match rest {
        Ok(more) => Ok(entries + more),
        Err(damage) => Err(damage),
    }
}

/// What a file holds.
pub open spec fn read_all(bytes: Seq<u8>) -> Result<Seq<WalEntryView>, WalDamage> {
    read_from(bytes, 0)
}

/// The entries or the error are what was read.
pub open spec fn reading(
    r: Result<Vec<WalEntry>, StorageError>,
    what: Result<Seq<WalEntryView>, WalDamage>,
) -> bool {
    match (r, what) {
        (Ok(entries), Ok(views)) => wal_views(entries@) == views,
        (Err(e), Err(damage)) => is_damage(e, damage),
        _ => false,
    }
}

/// The error reports the damage: where it is and, where that is the same on every machine,
/// why.
pub open spec fn is_damage(e: StorageError, damage: WalDamage) -> bool {
    e matches StorageError::CorruptedEntry { offset, reason } && offset == damage.offset && (
    damage.reason is Some ==> damage.reason == Some(reason@))
}

/// Where the frames end that follow each other from an offset on: the first that is cut
/// off or whose checksum is wrong ends them.
pub open spec fn frames_end(bytes: Seq<u8>, offset: int) -> int
    decreases bytes.len() - offset,
{
    let rest = bytes.skip(offset);
    if !(0 <= offset <= bytes.len()) || !begins_with_frame(rest) {
        offset
    } else {
        frames_end(bytes, offset + HEADER_SIZE + stored_len(rest))
    }
}

/// The entries through an index.
pub open spec fn kept(entries: Seq<WalEntryView>, last_index: u64) -> Seq<WalEntryView>
    decreases entries.len(),
{
    if entries.len() == 0 {
        Seq::empty()
    } else {
        let front = kept(entries.drop_last(), last_index);
        if entries.last().index <= last_index {
            front.push(entries.last())
        } else {
            front
        }
    }
}

/// The write-ahead log: what is still to be written, and how large the file is then.
#[derive(Debug)]
pub struct Wal {
    pending: Vec<u8>,
    size: u64,
    entry_count: u64,
}

/// What the write-ahead log holds in memory.
pub struct WalView {
    pub pending: Seq<u8>,
    pub size: u64,
    pub entry_count: u64,
}

impl View for Wal {
    type V = WalView;

    closed spec fn view(&self) -> WalView {
        WalView { pending: self.pending@, size: self.size, entry_count: self.entry_count }
    }
}

impl Wal {
    /// Opens the log whose file holds `contents`.
    pub fn open(contents: &[u8]) -> (r: Result<Self, StorageError>)
        ensures
            match read_all(contents@) {
                Ok(entries) => r matches Ok(wal) && wal@ == (WalView {
                    pending: Seq::empty(),
                    size: contents@.len() as u64,
                    entry_count: entries.len() as u64,
                }),
                Err(damage) => r matches Err(e) && is_damage(e, damage),
            },
    {
        let entry_count = Wal::count_entries(contents)?;
        Ok(Wal { pending: Vec::new(), size: contents.len() as u64, entry_count })
    }

    /// Adds an entry to what is to be written.
    pub fn append(&mut self, entry: &WalEntry) -> (r: Result<(), StorageError>)
        requires
            entry@.data.len() + 32 <= usize::MAX,
            old(self)@.size + entry@.data.len() + 32 <= u64::MAX,
            old(self)@.entry_count < u64::MAX,
        ensures
            r is Ok,
            final(self)@ == (WalView {
                pending: old(self)@.pending + frame(entry@),
                size: (old(self)@.size + frame(entry@).len()) as u64,
                entry_count: (old(self)@.entry_count + 1) as u64,
            }),
    {
        let mut payload = match encode(entry.index, entry.term, &entry.data) {
            Ok(payload) => payload,
            Err(complaint) => return Err(StorageError::Serialize(complaint)),
        };
        let ghost bytes = payload@;
        proof {
            checksum::law_numbers_read_back(0, entry.index);
            checksum::law_numbers_read_back(0, entry.term);
            checksum::law_numbers_read_back(0, entry.data@.len() as u64);
        }
        let payload_len: usize = payload.len();
        let len: u32 = #[verifier::truncate]
        (payload_len as u32);
        let mut to_checksum = u32_to_le_bytes(len);
        to_checksum.append(&mut payload);
        let crc = crc32fast::hash(to_checksum.as_slice());
        let mut framed = u32_to_le_bytes(crc);
        framed.append(&mut to_checksum);
        proof {
            assert(framed@ =~= frame(entry@));
        }
        self.pending.append(&mut framed);
        self.size = self.size + (HEADER_SIZE + payload_len) as u64;
        self.entry_count = self.entry_count + 1;
        Ok(())
    }

    /// Hands out what is to be written at the end of the file.
    pub fn sync(&mut self) -> (r: Vec<u8>)
        ensures
            r@ == old(self)@.pending,
            final(self)@ == (WalView { pending: Seq::empty(), ..old(self)@ }),
    {
        let mut taken: Vec<u8> = Vec::new();
        std::mem::swap(&mut taken, &mut self.pending);
        taken
    }

    /// The entries that the file holds when it is `contents`.
    pub fn replay(&self, contents: &[u8]) -> (r: Result<Vec<WalEntry>, StorageError>)
        ensures
            reading(r, read_all(contents@)),
    {
        Wal::read_entries(contents)
    }

    /// How many entries the log has.
    pub fn entry_count(&self) -> (r: u64)
        ensures
            r == self@.entry_count,
    {
        self.entry_count
    }

    /// How many bytes the log has.
    pub fn size_bytes(&self) -> (r: u64)
        ensures
            r == self@.size,
    {
        self.size
    }

    /// Drops the entries behind an index from a log whose file holds `contents`. The
    /// result is what the file has to hold instead. Whatever was still to be written is
    /// dropped with them.
    pub fn truncate_after(&mut self, contents: &[u8], last_index: u64) -> (r: Result<
        Vec<u8>,
        StorageError,
    >)
        ensures
            match read_all(contents@) {
                Ok(entries) => {
                    &&& r matches Ok(bytes) && bytes@ == file_of(kept(entries, last_index))
                    &&& final(self)@ == (WalView {
                        pending: Seq::empty(),
                        size: file_of(kept(entries, last_index)).len() as u64,
                        entry_count: kept(entries, last_index).len() as u64,
                    })
                },
                Err(damage) => {
                    &&& r matches Err(e) && is_damage(e, damage)
                    &&& final(self)@ == old(self)@
                },
            },
    {
        let entries = Wal::read_entries(contents)?;
        let ghost views = wal_views(entries@);
        let n = entries.len();
        let file_len: usize = contents.len();
        let mut fresh = Wal { pending: Vec::new(), size: 0, entry_count: 0 };
        let mut i: usize = 0;
        proof {
            lemma_file_is_no_longer(contents@);
            assert(views.take(n as int) =~= views);
            assert(kept(views.take(0), last_index) =~= Seq::<WalEntryView>::empty());
        }
        while i < n
            invariant
                i <= n == entries@.len(),
                views == wal_views(entries@),
                file_of(views).len() <= file_len,
                fresh@.pending == file_of(kept(views.take(i as int), last_index)),
                fresh@.size == fresh@.pending.len(),
                fresh@.entry_count == kept(views.take(i as int), last_index).len(),
            decreases n - i,
        {
            proof {
                assert(views.take(i + 1).drop_last() =~= views.take(i as int));
                assert(views.take(i + 1).last() == entries@[i as int]@);
                lemma_kept_is_no_longer(views, i as int, last_index);
                lemma_frame_len(entries@[i as int]@);
            }
            if entries[i].index <= last_index {
                proof {
                    let front = kept(views.take(i as int), last_index);
                    assert(front.push(entries@[i as int]@).drop_last() =~= front);
                }
                fresh.append(&entries[i])?;
            }
            i = i + 1;
        }
        let bytes = fresh.sync();
        *self = fresh;
        Ok(bytes)
    }

    /// The entries in the bytes of a file.
    pub fn read_entries(contents: &[u8]) -> (r: Result<Vec<WalEntry>, StorageError>)
        ensures
            reading(r, read_all(contents@)),
    {
        let mut entries: Vec<WalEntry> = Vec::new();
        let file_len: usize = contents.len();
        let mut offset: usize = 0;
        assert(wal_views(entries@) =~= Seq::<WalEntryView>::empty());
        proof {
            lemma_preceded_by_none(read_all(contents@));
        }
        loop
            invariant
                file_len == contents@.len(),
                offset <= file_len,
                preceded(wal_views(entries@), read_from(contents@, offset as int)) == read_all(
                    contents@,
                ),
            decreases file_len - offset,
        {
            let ghost rest = contents@.skip(offset as int);
            let remaining: usize = file_len - offset;
            if remaining < HEADER_SIZE {
                assert(wal_views(entries@) + Seq::<WalEntryView>::empty() =~= wal_views(
                    entries@,
                ));
                return Ok(entries);
            }
            proof {
                assert(contents@.subrange(offset as int, offset + 4) =~= rest.subrange(0, 4));
                assert(contents@.subrange(offset + 4, offset + 8) =~= rest.subrange(4, 8));
            }
            let crc = u32_from_le_bytes(slice_subrange(contents, offset, offset + 4));
            let len: usize = u32_from_le_bytes(
                slice_subrange(contents, offset + 4, offset + HEADER_SIZE),
            ) as usize;
            if len == 0 || len > MAX_PAYLOAD || remaining - HEADER_SIZE < len {
                assert(wal_views(entries@) + Seq::<WalEntryView>::empty() =~= wal_views(
                    entries@,
                ));
                return Ok(entries);
            }
            let start: usize = offset + HEADER_SIZE;
            let end: usize = start + len;
            proof {
                assert(contents@.subrange(offset + 4, end as int) =~= rest.subrange(
                    4,
                    HEADER_SIZE + len,
                ));
                assert(contents@.subrange(start as int, end as int) =~= rest.subrange(
                    HEADER_SIZE as int,
                    HEADER_SIZE + len,
                ));
            }
            if crc32fast::hash(slice_subrange(contents, offset + 4, end)) != crc {
                assert(wal_views(entries@) + Seq::<WalEntryView>::empty() =~= wal_views(
                    entries@,
                ));
                return Ok(entries);
            }
            match decode(slice_subrange(contents, start, end)) {
                Ok((index, term, data)) => {
                    let ghost before = wal_views(entries@);
                    let ghost entry = WalEntryView { index, term, data: data@ };
                    entries.push(WalEntry { index, term, data });
                    proof {
                        assert(wal_views(entries@) =~= before.push(entry));
                        lemma_preceded_in_parts(
                            before,
                            entry,
                            read_from(contents@, end as int),
                        );
                    }
                },
                Err(complaint) => {
                    return Err(
                        StorageError::CorruptedEntry { offset: offset as u64, reason: complaint },
                    );
                },
            }
            offset = end;
        }
    }

    /// How many bytes of a file are whole frames whose checksum is right. What is behind
    /// them was torn or damaged, and has to be cut off before anything is written to the
    /// file, or else nothing that is written is ever read.
    pub fn sound_len(contents: &[u8]) -> (n: usize)
        ensures
            n == frames_end(contents@, 0),
            n <= contents@.len(),
    {
        let file_len: usize = contents.len();
        let mut offset: usize = 0;
        loop
            invariant
                file_len == contents@.len(),
                offset <= file_len,
                frames_end(contents@, offset as int) == frames_end(contents@, 0),
            decreases file_len - offset,
        {
            let ghost rest = contents@.skip(offset as int);
            let remaining: usize = file_len - offset;
            if remaining < HEADER_SIZE {
                return offset;
            }
            proof {
                assert(contents@.subrange(offset as int, offset + 4) =~= rest.subrange(0, 4));
                assert(contents@.subrange(offset + 4, offset + 8) =~= rest.subrange(4, 8));
            }
            let crc = u32_from_le_bytes(slice_subrange(contents, offset, offset + 4));
            let len: usize = u32_from_le_bytes(
                slice_subrange(contents, offset + 4, offset + HEADER_SIZE),
            ) as usize;
            if len == 0 || len > MAX_PAYLOAD || remaining - HEADER_SIZE < len {
                return offset;
            }
            let end: usize = offset + HEADER_SIZE + len;
            proof {
                assert(contents@.subrange(offset + 4, end as int) =~= rest.subrange(
                    4,
                    HEADER_SIZE + len,
                ));
            }
            if crc32fast::hash(slice_subrange(contents, offset + 4, end)) != crc {
                return offset;
            }
            offset = end;
        }
    }

    fn count_entries(contents: &[u8]) -> (r: Result<u64, StorageError>)
        ensures
            match read_all(contents@) {
                Ok(entries) => r matches Ok(n) && n == entries.len(),
                Err(damage) => r matches Err(e) && is_damage(e, damage),
            },
    {
        Ok(Wal::read_entries(contents)?.len() as u64)
    }
}

proof fn lemma_preceded_by_none(r: Result<Seq<WalEntryView>, WalDamage>)
    ensures
        preceded(Seq::empty(), r) == r,
{
    if let Ok(entries) = r {
        assert(Seq::<WalEntryView>::empty() + entries =~= entries);
    }
}

proof fn lemma_preceded_in_parts(
    before: Seq<WalEntryView>,
    entry: WalEntryView,
    rest: Result<Seq<WalEntryView>, WalDamage>,
)
    ensures
        preceded(before.push(entry), rest) == preceded(before, preceded(seq![entry], rest)),
{
    if let Ok(entries) = rest {
        assert(before.push(entry) + entries =~= before + (seq![entry] + entries));
    }
}

proof fn lemma_frame_len(entry: WalEntryView)
    ensures
        payload(entry).len() == 24 + entry.data.len(),
        frame(entry).len() == 32 + entry.data.len(),
{
    checksum::law_numbers_read_back(payload(entry).len() as u32, entry.index);
    checksum::law_numbers_read_back(0, entry.term);
    checksum::law_numbers_read_back(0, entry.data.len() as u64);
    let len = checksum::u32_bytes(payload(entry).len() as u32);
    checksum::law_numbers_read_back(checksum::crc32(len + payload(entry)), 0);
}

proof fn lemma_file_of_parts(a: Seq<WalEntryView>, b: Seq<WalEntryView>)
    ensures
        file_of(a + b) == file_of(a) + file_of(b),
    decreases b.len(),
{
    if b.len() == 0 {
        assert(a + b =~= a);
        assert(file_of(a) + file_of(b) =~= file_of(a));
    } else {
        lemma_file_of_parts(a, b.drop_last());
        assert((a + b).drop_last() =~= a + b.drop_last());
        assert(file_of(a) + (file_of(b.drop_last()) + frame(b.last())) =~= (file_of(a) + file_of(
            b.drop_last(),
        )) + frame(b.last()));
    }
}

proof fn lemma_read_is_no_longer(bytes: Seq<u8>, offset: int)
    requires
        0 <= offset <= bytes.len(),
    ensures
        read_from(bytes, offset) matches Ok(entries) ==> file_of(entries).len() <= bytes.len()
            - offset,
    decreases bytes.len() - offset,
{
    let rest = bytes.skip(offset);
    if begins_with_frame(rest) {
        let end = HEADER_SIZE + stored_len(rest);
        let inside = rest.subrange(HEADER_SIZE as int, end);
        if let Some(entry) = decoded(inside) {
            lemma_read_is_no_longer(bytes, offset + end);
            if let Ok(more) = read_from(bytes, offset + end) {
                lemma_file_of_parts(seq![entry], more);
                assert(seq![entry].drop_last() =~= Seq::<WalEntryView>::empty());
                reveal_with_fuel(file_of, 2);
                assert(file_of(seq![entry]) =~= frame(entry));
                lemma_frame_len(entry);
            }
        }
    }
}

proof fn lemma_file_is_no_longer(bytes: Seq<u8>)
    ensures
        read_all(bytes) matches Ok(entries) ==> file_of(entries).len() <= bytes.len(),
{
    lemma_read_is_no_longer(bytes, 0);
}

proof fn lemma_kept_is_no_longer(entries: Seq<WalEntryView>, i: int, last_index: u64)
    requires
        0 <= i < entries.len(),
    ensures
        file_of(kept(entries.take(i), last_index)).len() + 32 + entries[i].data.len() <= file_of(
            entries,
        ).len(),
        kept(entries.take(i), last_index).len() * 32 <= file_of(entries).len(),
{
    lemma_kept_within(entries.take(i), last_index);
    assert(entries.take(i + 1).drop_last() =~= entries.take(i));
    assert(entries.take(i + 1).last() == entries[i]);
    lemma_frame_len(entries[i]);
    lemma_file_of_parts(entries.take(i + 1), entries.skip(i + 1));
    assert(entries.take(i + 1) + entries.skip(i + 1) =~= entries);
}

proof fn lemma_kept_within(entries: Seq<WalEntryView>, last_index: u64)
    ensures
        file_of(kept(entries, last_index)).len() <= file_of(entries).len(),
        kept(entries, last_index).len() * 32 <= file_of(entries).len(),
    decreases entries.len(),
{
    if entries.len() > 0 {
        lemma_kept_within(entries.drop_last(), last_index);
        lemma_frame_len(entries.last());
        let front = kept(entries.drop_last(), last_index);
        assert(front.push(entries.last()).drop_last() =~= front);
    }
}

// --- laws ---

/// The entry is small enough to be read back.
pub open spec fn fits_frame(entry: WalEntryView) -> bool {
    entry.data.len() + 24 <= MAX_PAYLOAD
}

/// A payload decodes to the entry that it encodes.
pub proof fn law_payload_reads_back(entry: WalEntryView)
    requires
        entry.data.len() <= u64::MAX,
    ensures
        decoded(payload(entry)) == Some(entry),
{
    checksum::law_numbers_read_back(0, entry.index);
    checksum::law_numbers_read_back(0, entry.term);
    checksum::law_numbers_read_back(0, entry.data.len() as u64);
    let bytes = payload(entry);
    assert(bytes.subrange(0, 8) =~= checksum::u64_bytes(entry.index));
    assert(bytes.subrange(8, 16) =~= checksum::u64_bytes(entry.term));
    assert(bytes.subrange(16, 24) =~= checksum::u64_bytes(entry.data.len() as u64));
    assert(bytes.subrange(24, bytes.len() as int) =~= entry.data);
}

proof fn lemma_frame_is_read(bytes: Seq<u8>, offset: int, entry: WalEntryView)
    requires
        fits_frame(entry),
        0 <= offset,
        offset + frame(entry).len() <= bytes.len(),
        bytes.subrange(offset, offset + frame(entry).len()) == frame(entry),
    ensures
        read_from(bytes, offset) == preceded(
            seq![entry],
            read_from(bytes, offset + frame(entry).len()),
        ),
{
    let rest = bytes.skip(offset);
    let inside = payload(entry);
    let whole = frame(entry);
    let len = checksum::u32_bytes(inside.len() as u32);
    let crc = checksum::crc32(len + inside);
    lemma_frame_len(entry);
    checksum::law_numbers_read_back(inside.len() as u32, 0);
    checksum::law_numbers_read_back(crc, 0);
    assert(rest.take(whole.len() as int) =~= bytes.subrange(offset, offset + whole.len()));
    assert(rest.subrange(0, 4) =~= whole.subrange(0, 4));
    assert(whole.subrange(0, 4) =~= checksum::u32_bytes(crc));
    assert(rest.subrange(4, 8) =~= whole.subrange(4, 8));
    assert(whole.subrange(4, 8) =~= len);
    assert(stored_len(rest) == inside.len());
    assert(rest.subrange(4, HEADER_SIZE + inside.len()) =~= whole.subrange(
        4,
        HEADER_SIZE + inside.len(),
    ));
    assert(whole.subrange(4, HEADER_SIZE + inside.len()) =~= len + inside);
    assert(rest.subrange(HEADER_SIZE as int, HEADER_SIZE + inside.len()) =~= whole.subrange(
        HEADER_SIZE as int,
        HEADER_SIZE + inside.len(),
    ));
    assert(whole.subrange(HEADER_SIZE as int, HEADER_SIZE + inside.len()) =~= inside);
    law_payload_reads_back(entry);
    assert(begins_with_frame(rest));
}

proof fn lemma_read_from_shift(front: Seq<u8>, tail: Seq<u8>, offset: int)
    requires
        0 <= offset <= tail.len(),
    ensures
        match read_from(tail, offset) {
            Ok(entries) => read_from(front + tail, front.len() + offset) == Ok::<
                Seq<WalEntryView>,
                WalDamage,
            >(entries),
            Err(damage) => read_from(front + tail, front.len() + offset) == Err::<
                Seq<WalEntryView>,
                WalDamage,
            >(WalDamage { offset: front.len() + damage.offset, ..damage }),
        },
    decreases tail.len() - offset,
{
    let rest = tail.skip(offset);
    assert((front + tail).skip(front.len() + offset) =~= rest);
    if begins_with_frame(rest) {
        let end = HEADER_SIZE + stored_len(rest);
        lemma_read_from_shift(front, tail, offset + end);
    }
}

/// What is written is read back: behind the entries that were appended, reading goes on
/// with whatever else the file holds.
pub proof fn law_appended_entries_are_replayed(entries: Seq<WalEntryView>, tail: Seq<u8>)
    requires
        forall|i: int| 0 <= i < entries.len() ==> fits_frame(#[trigger] entries[i]),
    ensures
        match read_all(tail) {
            Ok(more) => read_all(file_of(entries) + tail) == Ok::<Seq<WalEntryView>, WalDamage>(
                entries + more,
            ),
            Err(damage) => read_all(file_of(entries) + tail) == Err::<
                Seq<WalEntryView>,
                WalDamage,
            >(WalDamage { offset: file_of(entries).len() + damage.offset, ..damage }),
        },
    decreases entries.len(),
{
    if entries.len() == 0 {
        assert(file_of(entries) + tail =~= tail);
        if let Ok(more) = read_all(tail) {
            assert(entries + more =~= more);
        }
    } else {
        let front = entries.drop_last();
        let last = entries.last();
        let behind = frame(last) + tail;
        assert forall|i: int| 0 <= i < front.len() implies fits_frame(#[trigger] front[i]) by {
            assert(front[i] == entries[i]);
        }
        law_appended_entries_are_replayed(front, behind);
        assert(file_of(entries) + tail =~= file_of(front) + behind);
        assert(entries[entries.len() - 1] == last);
        assert(behind.subrange(0, frame(last).len() as int) =~= frame(last));
        lemma_frame_is_read(behind, 0, last);
        lemma_read_from_shift(frame(last), tail, 0);
        if let Ok(more) = read_all(tail) {
            assert(front + (seq![last] + more) =~= entries + more);
        }
    }
}

/// Replay gives back what was appended.
pub proof fn law_replay_gives_back_what_was_appended(entries: Seq<WalEntryView>)
    requires
        forall|i: int| 0 <= i < entries.len() ==> fits_frame(#[trigger] entries[i]),
    ensures
        read_all(file_of(entries)) == Ok::<Seq<WalEntryView>, WalDamage>(entries),
{
    law_appended_entries_are_replayed(entries, Seq::empty());
    assert(file_of(entries) + Seq::<u8>::empty() =~= file_of(entries));
    assert(entries + Seq::<WalEntryView>::empty() =~= entries);
}

/// A torn write loses nothing that was written before it: where the last frame is cut
/// off anywhere, the entries before it are read.
pub proof fn law_torn_write_keeps_what_came_before(
    entries: Seq<WalEntryView>,
    torn: WalEntryView,
    cut: int,
)
    requires
        forall|i: int| 0 <= i < entries.len() ==> fits_frame(#[trigger] entries[i]),
        fits_frame(torn),
        0 <= cut < frame(torn).len(),
    ensures
        read_all(file_of(entries) + frame(torn).take(cut)) == Ok::<Seq<WalEntryView>, WalDamage>(
            entries,
        ),
{
    let tail = frame(torn).take(cut);
    lemma_frame_len(torn);
    if cut >= HEADER_SIZE {
        let inside = payload(torn);
        let len = checksum::u32_bytes(inside.len() as u32);
        checksum::law_numbers_read_back(inside.len() as u32, 0);
        checksum::law_numbers_read_back(checksum::crc32(len + inside), 0);
        assert(tail.subrange(4, 8) =~= len);
    }
    assert(tail.skip(0) =~= tail);
    law_appended_entries_are_replayed(entries, tail);
    assert(entries + Seq::<WalEntryView>::empty() =~= entries);
}

/// Corruption is detected: reading stops before a frame that is not whole or whose
/// checksum is wrong, and keeps everything in front of it.
pub proof fn law_damage_keeps_what_came_before(entries: Seq<WalEntryView>, tail: Seq<u8>)
    requires
        forall|i: int| 0 <= i < entries.len() ==> fits_frame(#[trigger] entries[i]),
        !begins_with_frame(tail),
    ensures
        read_all(file_of(entries) + tail) == Ok::<Seq<WalEntryView>, WalDamage>(entries),
{
    assert(tail.skip(0) =~= tail);
    law_appended_entries_are_replayed(entries, tail);
    assert(entries + Seq::<WalEntryView>::empty() =~= entries);
}

proof fn lemma_frames_end(bytes: Seq<u8>, offset: int)
    requires
        0 <= offset <= bytes.len(),
    ensures
        offset <= frames_end(bytes, offset) <= bytes.len(),
    decreases bytes.len() - offset,
{
    let rest = bytes.skip(offset);
    if begins_with_frame(rest) {
        lemma_frames_end(bytes, offset + HEADER_SIZE + stored_len(rest));
    }
}

proof fn lemma_read_after_cut(bytes: Seq<u8>, tail: Seq<u8>, offset: int)
    requires
        0 <= offset <= bytes.len(),
    ensures
        ({
            let end = frames_end(bytes, offset);
            let cut = bytes.take(end) + tail;
            read_from(cut, offset) == match read_from(bytes, offset) {
                Ok(old_entries) => preceded(old_entries, read_from(cut, end)),
                Err(damage) => Err(damage),
            }
        }),
    decreases bytes.len() - offset,
{
    let end = frames_end(bytes, offset);
    let cut = bytes.take(end) + tail;
    let rest = bytes.skip(offset);
    lemma_frames_end(bytes, offset);
    if !begins_with_frame(rest) {
        lemma_preceded_by_none(read_from(cut, end));
    } else {
        let len = HEADER_SIZE + stored_len(rest);
        let more = cut.skip(offset);
        lemma_frames_end(bytes, offset + len);
        assert(more.subrange(0, 4) =~= rest.subrange(0, 4));
        assert(more.subrange(4, 8) =~= rest.subrange(4, 8));
        assert(more.subrange(4, len) =~= rest.subrange(4, len));
        assert(more.subrange(HEADER_SIZE as int, len) =~= rest.subrange(HEADER_SIZE as int, len));
        assert(begins_with_frame(more));
        lemma_read_after_cut(bytes, tail, offset + len);
        if let Some(entry) = decoded(rest.subrange(HEADER_SIZE as int, len)) {
            if let Ok(others) = read_from(bytes, offset + len) {
                if let Ok(behind) = read_from(cut, end) {
                    assert(seq![entry] + (others + behind) =~= (seq![entry] + others) + behind);
                }
            }
        }
    }
}

/// Cutting off what is behind the whole frames changes nothing of what is read.
pub proof fn law_cut_file_reads_the_same(bytes: Seq<u8>)
    ensures
        read_all(bytes.take(frames_end(bytes, 0))) == read_all(bytes),
{
    law_synced_after_a_cut_is_replayed(bytes, Seq::empty());
    assert(bytes.take(frames_end(bytes, 0)) + Seq::<u8>::empty() =~= bytes.take(
        frames_end(bytes, 0),
    ));
    if let Ok(entries) = read_all(bytes) {
        assert(entries + Seq::<WalEntryView>::empty() =~= entries);
    }
}

/// The log is crash-durable: whatever a crash left behind the whole frames of a file, once
/// that is cut off, what is synced is replayed behind what was there.
pub proof fn law_synced_after_a_cut_is_replayed(bytes: Seq<u8>, entries: Seq<WalEntryView>)
    requires
        forall|i: int| 0 <= i < entries.len() ==> fits_frame(#[trigger] entries[i]),
    ensures
        read_all(bytes.take(frames_end(bytes, 0)) + file_of(entries)) == match read_all(bytes) {
            Ok(before) => Ok(before + entries),
            Err(damage) => Err(damage),
        },
{
    let end = frames_end(bytes, 0);
    lemma_frames_end(bytes, 0);
    lemma_read_after_cut(bytes, file_of(entries), 0);
    law_replay_gives_back_what_was_appended(entries);
    lemma_read_from_shift(bytes.take(end), file_of(entries), 0);
}

/// What is kept is in the same order, is not behind the index, and nothing else of that
/// kind is missing.
pub proof fn law_kept_entries(entries: Seq<WalEntryView>, last_index: u64)
    ensures
        kept(entries, last_index) == entries.filter(|e: WalEntryView| e.index <= last_index),
    decreases entries.len(),
{
    reveal(Seq::filter);
    if entries.len() > 0 {
        law_kept_entries(entries.drop_last(), last_index);
    }
}

/// Replay after a truncation gives the entries through the index.
pub proof fn law_replay_after_truncation(entries: Seq<WalEntryView>, last_index: u64)
    requires
        forall|i: int| 0 <= i < entries.len() ==> fits_frame(#[trigger] entries[i]),
    ensures
        read_all(file_of(kept(entries, last_index))) == Ok::<Seq<WalEntryView>, WalDamage>(
            kept(entries, last_index),
        ),
{
    lemma_kept_fit(entries, last_index);
    law_replay_gives_back_what_was_appended(kept(entries, last_index));
}

proof fn lemma_kept_fit(entries: Seq<WalEntryView>, last_index: u64)
    requires
        forall|i: int| 0 <= i < entries.len() ==> fits_frame(#[trigger] entries[i]),
    ensures
        forall|i: int|
            0 <= i < kept(entries, last_index).len() ==> fits_frame(
                #[trigger] kept(entries, last_index)[i],
            ),
    decreases entries.len(),
{
    if entries.len() > 0 {
        let front = entries.drop_last();
        assert forall|i: int| 0 <= i < front.len() implies fits_frame(#[trigger] front[i]) by {
            assert(front[i] == entries[i]);
        }
        lemma_kept_fit(front, last_index);
        assert(fits_frame(entries[entries.len() - 1]));
        let some = kept(front, last_index);
        let all = kept(entries, last_index);
        assert forall|i: int| 0 <= i < all.len() implies fits_frame(#[trigger] all[i]) by {
            if i < some.len() {
                assert(all[i] == some[i]);
            }
        }
    }
}

/// What a frame is made of: the checksum of everything behind it, the length of the payload,
/// and the payload, which is index, term and length of the data, and the data. All numbers
/// are written with their lowest byte first.
pub proof fn law_layout_of_a_frame(entry: WalEntryView)
    requires
        entry.data.len() + 24 <= u32::MAX,
    ensures
        ({
            let bytes = frame(entry);
            &&& bytes.len() == 32 + entry.data.len()
            &&& bytes.subrange(0, 4) == vstd::bytes::spec_u32_to_le_bytes(
                checksum::crc32(bytes.skip(4)),
            )
            &&& bytes.subrange(4, 8) == vstd::bytes::spec_u32_to_le_bytes(
                (24 + entry.data.len()) as u32,
            )
            &&& bytes.subrange(8, 16) == vstd::bytes::spec_u64_to_le_bytes(entry.index)
            &&& bytes.subrange(16, 24) == vstd::bytes::spec_u64_to_le_bytes(entry.term)
            &&& bytes.subrange(24, 32) == vstd::bytes::spec_u64_to_le_bytes(
                entry.data.len() as u64,
            )
            &&& bytes.skip(32) == entry.data
        }),
{
    let bytes = frame(entry);
    let inside = payload(entry);
    let len = checksum::u32_bytes(inside.len() as u32);
    checksum::law_numbers_read_back(0, entry.index);
    checksum::law_numbers_read_back(0, entry.term);
    checksum::law_numbers_read_back(0, entry.data.len() as u64);
    checksum::law_numbers_read_back(inside.len() as u32, 0);
    checksum::law_numbers_read_back(checksum::crc32(len + inside), 0);
    assert(bytes.skip(4) =~= len + inside);
    assert(bytes.subrange(0, 4) =~= checksum::u32_bytes(checksum::crc32(len + inside)));
    assert(bytes.subrange(4, 8) =~= len);
    assert(bytes.subrange(8, 16) =~= checksum::u64_bytes(entry.index));
    assert(bytes.subrange(16, 24) =~= checksum::u64_bytes(entry.term));
    assert(bytes.subrange(24, 32) =~= checksum::u64_bytes(entry.data.len() as u64));
    assert(bytes.skip(32) =~= entry.data);
}

/// The bytes begin with a frame that is read: the header is there, the length that it tells
/// is neither 0 nor above 64 MiB, that many bytes follow, and the checksum is that of all
/// that stands behind it.
pub open spec fn is_readable(bytes: Seq<u8>) -> bool {
    &&& bytes.len() >= 8
    &&& ({
        let n = vstd::bytes::spec_u32_from_le_bytes(bytes.subrange(4, 8));
        &&& 1 <= n <= 64 * 1024 * 1024
        &&& 8 + n <= bytes.len()
        &&& vstd::bytes::spec_u32_from_le_bytes(bytes.subrange(0, 4)) == checksum::crc32(
            bytes.subrange(4, 8 + n),
        )
    })
}

/// A payload encodes an entry exactly if it has the three numbers and as many bytes behind
/// them as the third one tells. These are the data.
pub proof fn law_what_a_payload_encodes(bytes: Seq<u8>)
    ensures
        decoded(bytes) is Some <==> bytes.len() >= 24 && 24
            + vstd::bytes::spec_u64_from_le_bytes(bytes.subrange(16, 24)) <= bytes.len(),
        decoded(bytes) matches Some(entry) ==> {
            &&& entry.index == vstd::bytes::spec_u64_from_le_bytes(bytes.subrange(0, 8))
            &&& entry.term == vstd::bytes::spec_u64_from_le_bytes(bytes.subrange(8, 16))
            &&& entry.data.len() == vstd::bytes::spec_u64_from_le_bytes(bytes.subrange(16, 24))
            &&& forall|i: int|
                0 <= i < entry.data.len() ==> #[trigger] entry.data[i] == bytes[24 + i]
        },
{
}

proof fn lemma_frames_end_shift(bytes: Seq<u8>, start: int, offset: int)
    requires
        0 <= start,
        0 <= offset,
        start + offset <= bytes.len(),
    ensures
        frames_end(bytes, start + offset) == start + frames_end(bytes.skip(start), offset),
    decreases bytes.len() - start - offset,
{
    let tail = bytes.skip(start);
    assert(bytes.skip(start + offset) =~= tail.skip(offset));
    let rest = tail.skip(offset);
    if begins_with_frame(rest) {
        lemma_frames_end_shift(bytes, start, offset + HEADER_SIZE + stored_len(rest));
    }
}

/// A file is read frame by frame: where no readable frame is left, reading ends, and with it
/// what is sound of the file. A readable frame gives its entry in front of what the rest of
/// the file gives. One that does not decode is reported where it stands.
pub proof fn law_file_is_read_frame_by_frame(bytes: Seq<u8>)
    ensures
        !is_readable(bytes) ==> read_all(bytes) == Ok::<Seq<WalEntryView>, WalDamage>(Seq::empty())
            && frames_end(bytes, 0) == 0,
        is_readable(bytes) ==> ({
            let end = 8 + vstd::bytes::spec_u32_from_le_bytes(bytes.subrange(4, 8));
            let rest = bytes.skip(end);
            &&& frames_end(bytes, 0) == end + frames_end(rest, 0)
            &&& match decoded(bytes.subrange(8, end)) {
                None => {
                    let inside = bytes.subrange(8, end);
                    let told = vstd::bytes::spec_u64_from_le_bytes(inside.subrange(16, 24));
                    &&& read_all(bytes) is Err
                    &&& read_all(bytes)->Err_0.offset == 0
                    &&& inside.len() < 24 || told <= u32::MAX ==> read_all(bytes)->Err_0.reason
                        == Some(decode_complaint(inside))
                },
                Some(entry) => match read_all(rest) {
                    Ok(more) => read_all(bytes) == Ok::<Seq<WalEntryView>, WalDamage>(
                        seq![entry] + more,
                    ),
                    Err(damage) => read_all(bytes) is Err && read_all(bytes)->Err_0.offset == end
                        + damage.offset && read_all(bytes)->Err_0.reason == damage.reason,
                },
            }
        }),
{
    assert(bytes.skip(0) =~= bytes);
    if is_readable(bytes) {
        let end = 8 + vstd::bytes::spec_u32_from_le_bytes(bytes.subrange(4, 8));
        let rest = bytes.skip(end);
        assert(bytes =~= bytes.take(end) + rest);
        lemma_read_from_shift(bytes.take(end), rest, 0);
        lemma_frames_end_shift(bytes, end, 0);
    }
}

/// A file holds its entries one behind the other, each as its frame.
pub proof fn law_file_is_one_frame_behind_the_other(
    a: Seq<WalEntryView>,
    b: Seq<WalEntryView>,
    entry: WalEntryView,
)
    ensures
        file_of(Seq::empty()) == Seq::<u8>::empty(),
        file_of(seq![entry]) == frame(entry),
        file_of(a + b) == file_of(a) + file_of(b),
{
    lemma_file_of_parts(a, b);
    assert(seq![entry].drop_last() =~= Seq::<WalEntryView>::empty());
    reveal_with_fuel(file_of, 2);
    assert(file_of(seq![entry]) =~= frame(entry));
}

/// Damage is reported with the place where it is and, where the decoder's words are known,
/// with these.
pub proof fn law_damage_is_reported_where_it_is(e: StorageError, damage: WalDamage)
    requires
        is_damage(e, damage),
    ensures
        e is CorruptedEntry,
        e->CorruptedEntry_offset == damage.offset,
        damage.reason matches Some(reason) ==> e->CorruptedEntry_reason@ == reason,
{
}

} // verus!
