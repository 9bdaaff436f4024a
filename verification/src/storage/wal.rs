//! Write-ahead log.
//!
//! An entry is stored as
//! `[crc32: 4 bytes] [length: 4 bytes] [type: 1 byte] [data: length bytes]`, with
//! the integers in little-endian order and the checksum taken over the type byte
//! and the data. A checkpoint entry marks that all earlier entries are in an
//! SSTable and are ignored when the log is replayed.

use crate::bytes::{copy_range, push_bytes, push_le, read_le};
use crate::storage::error::StorageError;
use vstd::prelude::*;

verus! {

pub const ENTRY_LOG: u8 = 0x01;

pub const ENTRY_METRIC: u8 = 0x02;

pub const ENTRY_SPAN: u8 = 0x03;

pub const ENTRY_CHECKPOINT: u8 = 0xFF;

/// Bytes before an entry's data: checksum, length and type.
pub const HEADER_SIZE: usize = 9;

/// A remainder after `n` more bits, the least significant first, by the polynomial of
/// IEEE 802.3.
pub open spec fn crc_bits(c: u32, n: nat) -> u32
    decreases n,
{
    if n == 0 {
        c
    } else if c % 2 == 1 {
        crc_bits((c >> 1u32) ^ 0xEDB8_8320u32, (n - 1) as nat)
    } else {
        crc_bits(c >> 1u32, (n - 1) as nat)
    }
}

/// The remainder of a byte sequence.
pub open spec fn crc_remainder(data: Seq<u8>) -> u32
    decreases data.len(),
{
    if data.len() == 0 {
        0xFFFF_FFFF
    } else {
        crc_bits(crc_remainder(data.drop_last()) ^ (data.last() as u32), 8)
    }
}

/// The CRC-32 checksum of a byte sequence.
pub open spec fn crc32(data: Seq<u8>) -> u32 {
    crc_remainder(data) ^ 0xFFFF_FFFFu32
}

/// `crc32fast::hash`: the CRC-32 checksum of IEEE 802.3.
#[verifier::external_body]
fn crc32_of(data: &[u8]) -> (crc: u32)
    ensures
        crc == crc32(data@),
{
    crc32fast::hash(data)
}

// ── Model ───────────────────────────────────────────────────────────────────

/// A log entry as mathematical values.
pub struct EntryModel {
    pub entry_type: u8,
    pub data: Seq<u8>,
}

/// The checksum that an entry carries.
pub open spec fn entry_crc(e: EntryModel) -> u32 {
    crc32(seq![e.entry_type] + e.data)
}

/// The bytes that store an entry. The length field holds the low 32 bits of the
/// data's length.
pub open spec fn entry_bytes(e: EntryModel) -> Seq<u8> {
    crate::bytes::le_bytes(entry_crc(e) as nat, 4) + crate::bytes::le_bytes(e.data.len(), 4)
        + seq![e.entry_type] + e.data
}

/// What stands at one offset of a log.
pub enum Slot {
    /// The log ends here, or an entry starts here that the file does not hold in full.
    End,
    /// An entry whose checksum does not match its bytes.
    Corrupt { expected: u32, actual: u32 },
    /// A whole entry, and the offset of what follows it.
    Entry { entry: EntryModel, next: nat },
}

/// What stands at `offset` in the log `file`.
pub open spec fn slot_at(file: Seq<u8>, offset: nat) -> Slot {
    if file.len() < offset + HEADER_SIZE {
        Slot::End
    } else {
        let start = offset + HEADER_SIZE;
        let crc = crate::bytes::le_value(file.subrange(offset as int, (offset + 4) as int));
        let len = crate::bytes::le_value(file.subrange((offset + 4) as int, (offset + 8) as int));
        if file.len() < start + len {
            Slot::End
        } else {
            let entry = EntryModel {
                entry_type: file[(offset + 8) as int],
                data: file.subrange(start as int, (start + len) as int),
            };
            if entry_crc(entry) as nat != crc {
                Slot::Corrupt { expected: crc as u32, actual: entry_crc(entry) }
            } else {
                Slot::Entry { entry, next: (start + len) as nat }
            }
        }
    }
}

/// A corruption found in a log: where, and the two checksums.
pub struct FaultModel {
    pub offset: nat,
    pub expected: u32,
    pub actual: u32,
}

/// The live entries after one more entry: a checkpoint drops all earlier ones.
pub open spec fn add_entry(live: Seq<EntryModel>, e: EntryModel) -> Seq<EntryModel> {
    if e.entry_type == ENTRY_CHECKPOINT {
        Seq::empty()
    } else {
        live.push(e)
    }
}

/// Replays the log `file` from `offset`, with `live` already recovered: the live
/// entries up to the end or to the first corruption, and that corruption.
pub open spec fn replay_from(file: Seq<u8>, offset: nat, live: Seq<EntryModel>) -> (
    Seq<EntryModel>,
    Option<FaultModel>,
)
    decreases file.len() - offset,
{
    match slot_at(file, offset) {
        Slot::End => (live, None),
        Slot::Corrupt { expected, actual } => (live, Some(FaultModel { offset, expected, actual })),
        Slot::Entry { entry, next } => if next > offset && offset <= file.len() {
            replay_from(file, next, add_entry(live, entry))
        } else {
            (live, None)
        },
    }
}

/// The result of replaying a whole log.
pub open spec fn replay_of(file: Seq<u8>) -> (Seq<EntryModel>, Option<FaultModel>) {
    replay_from(file, 0, Seq::empty())
}

/// The bytes of a log that holds the given entries and nothing else.
pub open spec fn log_bytes(entries: Seq<EntryModel>) -> Seq<u8>
    decreases entries.len(),
{
    if entries.len() == 0 {
        Seq::empty()
    } else {
        log_bytes(entries.drop_last()) + entry_bytes(entries.last())
    }
}

/// The entries that a log still owes: those after its last checkpoint.
pub open spec fn live_entries(entries: Seq<EntryModel>) -> Seq<EntryModel>
    decreases entries.len(),
{
    if entries.len() == 0 {
        Seq::empty()
    } else {
        add_entry(live_entries(entries.drop_last()), entries.last())
    }
}

/// Whether every entry's length fits in the length field.
pub open spec fn lengths_fit(entries: Seq<EntryModel>) -> bool {
    forall|i: int| 0 <= i < entries.len() ==> (#[trigger] entries[i]).data.len() <= u32::MAX
}

// ── Writer ──────────────────────────────────────────────────────────────────

/// The bytes that store one entry.
pub fn encode_entry(entry_type: u8, data: &[u8]) -> (out: Vec<u8>)
    ensures
        out@ == entry_bytes(EntryModel { entry_type, data: data@ }),
{
    let mut body: Vec<u8> = Vec::new();
    body.push(entry_type);
    push_bytes(&mut body, data);
    assert(body@ =~= seq![entry_type] + data@);
    let crc = crc32_of(body.as_slice());
    let mut out: Vec<u8> = Vec::new();
    push_le(&mut out, crc as u64, 4);
    push_le(&mut out, data.len() as u64, 4);
    push_bytes(&mut out, body.as_slice());
    assert(out@ =~= entry_bytes(EntryModel { entry_type, data: data@ }));
    out
}

/// The append position of an open log file.
pub struct Wal {
    path: String,
    offset: u64,
}

impl Wal {
    /// The log's file.
    pub closed spec fn path_view(&self) -> Seq<char> {
        self.path@
    }

    /// Where the next entry goes.
    pub closed spec fn next_offset(&self) -> u64 {
        self.offset
    }

    /// A log whose file already holds `len` bytes; entries go behind them.
    pub fn open(path: String, len: u64) -> (wal: Wal)
        ensures
            wal.path_view() == path@,
            wal.next_offset() == len,
    {
        Wal { path, offset: len }
    }

    /// Appends an entry: its offset in the log, and the bytes to write there.
    pub fn append(&mut self, entry_type: u8, data: &[u8]) -> (out: (u64, Vec<u8>))
        requires
            old(self).next_offset() + HEADER_SIZE + data@.len() <= u64::MAX,
        ensures
            out.0 == old(self).next_offset(),
            out.1@ == entry_bytes(EntryModel { entry_type, data: data@ }),
            final(self).next_offset() == old(self).next_offset() + out.1@.len(),
            final(self).path_view() == old(self).path_view(),
    {
        let start = self.offset;
        let out = encode_entry(entry_type, data);
        proof {
            lemma_entry_len(EntryModel { entry_type, data: data@ });
        }
        self.offset = start + (9 + data.len() as u64);
        (start, out)
    }

    /// Appends a checkpoint: all earlier entries are in an SSTable.
    pub fn checkpoint(&mut self) -> (out: (u64, Vec<u8>))
        requires
            old(self).next_offset() + HEADER_SIZE <= u64::MAX,
        ensures
            out.0 == old(self).next_offset(),
            out.1@ == entry_bytes(
                EntryModel { entry_type: ENTRY_CHECKPOINT, data: Seq::empty() },
            ),
            final(self).next_offset() == old(self).next_offset() + out.1@.len(),
            final(self).path_view() == old(self).path_view(),
    {
        let empty: Vec<u8> = Vec::new();
        assert(empty@ =~= Seq::<u8>::empty());
        self.append(ENTRY_CHECKPOINT, empty.as_slice())
    }

    /// Moves behind an entry with `len` bytes of data that was written.
    pub fn advance(&mut self, len: usize)
        requires
            old(self).next_offset() + HEADER_SIZE + len <= u64::MAX,
        ensures
            final(self).next_offset() == old(self).next_offset() + HEADER_SIZE + len,
            final(self).path_view() == old(self).path_view(),
    {
        self.offset = self.offset + (9 + len as u64);
    }

    /// Where the next entry goes.
    pub fn position(&self) -> (offset: u64)
        ensures
            offset == self.next_offset(),
    {
        self.offset
    }

    /// The log's file.
    pub fn path(&self) -> (p: &str)
        ensures
            p@ == self.path_view(),
    {
        self.path.as_str()
    }
}

// ── Reader ──────────────────────────────────────────────────────────────────

/// A decoded log entry.
#[derive(Debug)]
pub struct WalEntry {
    pub entry_type: u8,
    pub data: Vec<u8>,
}

impl View for WalEntry {
    type V = EntryModel;

    open spec fn view(&self) -> EntryModel {
        EntryModel { entry_type: self.entry_type, data: self.data@ }
    }
}

/// The views of a list of entries.
pub open spec fn entry_views(v: Seq<WalEntry>) -> Seq<EntryModel> {
    v.map_values(|e: WalEntry| e@)
}

/// What a log still holds.
#[derive(Debug)]
pub struct Recovery {
    /// The live entries before the end or the first corruption.
    pub entries: Vec<WalEntry>,
    /// The first corruption, where there is one.
    pub corruption: Option<StorageError>,
}

/// Whether `e` reports the corruption `f`.
pub open spec fn reports(e: StorageError, f: FaultModel) -> bool {
    e matches StorageError::WalCrcMismatch { offset, expected, actual } && offset == f.offset
        && expected == f.expected && actual == f.actual
}

/// Replays a log file's bytes: the valid entries behind the last checkpoint, up to
/// the first corruption. A tail that is cut off inside an entry ends the replay
/// without being a corruption.
pub fn recover(file: &[u8]) -> (out: Recovery)
    ensures
        entry_views(out.entries@) == replay_of(file@).0,
        match (out.corruption, replay_of(file@).1) {
            (None, None) => true,
            (Some(e), Some(f)) => reports(e, f),
            _ => false,
        },
{
    let mut entries: Vec<WalEntry> = Vec::new();
    let mut offset: usize = 0;
    assert(entry_views(entries@) =~= Seq::<EntryModel>::empty());
    loop
        invariant
            offset <= file@.len(),
            replay_of(file@) == replay_from(file@, offset as nat, entry_views(entries@)),
        decreases file@.len() - offset,
    {
        if file.len() - offset < HEADER_SIZE {
            return Recovery { entries, corruption: None };
        }
        let expected: u32 = {
            proof {
                crate::bytes::pow256_values();
            }
            read_le(file, offset, 4) as u32
        };
        proof {
            crate::bytes::pow256_values();
        }
        let len: u64 = read_le(file, offset + 4, 4);
        let entry_type = file[offset + 8];
        let start: usize = offset + HEADER_SIZE;
        if ((file.len() - start) as u64) < len {
            return Recovery { entries, corruption: None };
        }
        let end: usize = start + len as usize;
        let data = copy_range(file, start, end);
        let mut body: Vec<u8> = Vec::new();
        body.push(entry_type);
        push_bytes(&mut body, data.as_slice());
        assert(body@ =~= seq![entry_type] + data@);
        let actual = crc32_of(body.as_slice());
        if actual != expected {
            let e = StorageError::WalCrcMismatch { offset: offset as u64, expected, actual };
            return Recovery { entries, corruption: Some(e) };
        }
        let ghost before = entry_views(entries@);
        let ghost e = EntryModel { entry_type, data: data@ };
        if entry_type == ENTRY_CHECKPOINT {
            entries.clear();
        } else {
            entries.push(WalEntry { entry_type, data });
        }
        assert(entry_views(entries@) =~= add_entry(before, e));
        offset = end;
    }
}

// ── Laws ────────────────────────────────────────────────────────────────────

proof fn lemma_entry_len(e: EntryModel)
    ensures
        entry_bytes(e).len() == HEADER_SIZE + e.data.len(),
{
    crate::bytes::le_round_trip(entry_crc(e) as nat, 4);
    crate::bytes::le_round_trip(e.data.len(), 4);
}

/// An entry that a log holds in full at `offset` is the one that stands there.
proof fn lemma_slot_of_entry(file: Seq<u8>, offset: nat, e: EntryModel)
    requires
        e.data.len() <= u32::MAX,
        offset + entry_bytes(e).len() <= file.len(),
        file.subrange(offset as int, (offset + entry_bytes(e).len()) as int) == entry_bytes(e),
    ensures
        slot_at(file, offset) == (Slot::Entry { entry: e, next: offset + entry_bytes(e).len() }),
{
    let b = entry_bytes(e);
    crate::bytes::le_round_trip(entry_crc(e) as nat, 4);
    crate::bytes::le_round_trip(e.data.len(), 4);
    crate::bytes::pow256_values();
    let part = file.subrange(offset as int, (offset + b.len()) as int);
    assert(file.subrange(offset as int, (offset + 4) as int) =~= part.subrange(0, 4));
    assert(b.subrange(0, 4) =~= crate::bytes::le_bytes(entry_crc(e) as nat, 4));
    assert(file.subrange((offset + 4) as int, (offset + 8) as int) =~= part.subrange(4, 8));
    assert(b.subrange(4, 8) =~= crate::bytes::le_bytes(e.data.len(), 4));
    assert(file[(offset + 8) as int] == part[8]);
    assert(file.subrange((offset + 9) as int, (offset + 9 + e.data.len()) as int) =~= part.subrange(
        9,
        9 + e.data.len() as int,
    ));
    assert(b.subrange(9, 9 + e.data.len() as int) =~= e.data);
}

/// Replaying a log whose first part holds `entries` reaches the end of that part
/// with exactly the live ones.
proof fn lemma_replay_reaches(entries: Seq<EntryModel>, file: Seq<u8>)
    requires
        lengths_fit(entries),
        log_bytes(entries).len() <= file.len(),
        file.take(log_bytes(entries).len() as int) == log_bytes(entries),
    ensures
        replay_of(file) == replay_from(file, log_bytes(entries).len(), live_entries(entries)),
    decreases entries.len(),
{
    if entries.len() > 0 {
        let front = entries.drop_last();
        let e = entries.last();
        let n = log_bytes(front).len();
        let whole = log_bytes(entries).len();
        lemma_entry_len(e);
        assert(file.take(n as int) =~= file.take(whole as int).take(n as int));
        assert(log_bytes(entries).take(n as int) =~= log_bytes(front));
        assert forall|i: int| 0 <= i < front.len() implies (#[trigger] front[i]).data.len()
            <= u32::MAX by {
            assert(front[i] == entries[i]);
        }
        lemma_replay_reaches(front, file);
        assert(file.subrange(n as int, whole as int) =~= file.take(whole as int).skip(n as int));
        assert(log_bytes(entries).skip(n as int) =~= entry_bytes(e));
        assert(e.data.len() <= u32::MAX) by {
            assert(entries[entries.len() - 1] == e);
        }
        lemma_slot_of_entry(file, n, e);
    }
}

/// Replaying what was written gives it back: the entries behind the last
/// checkpoint, in order, and no corruption.
pub proof fn replay_returns_what_was_written(entries: Seq<EntryModel>)
    requires
        lengths_fit(entries),
    ensures
        replay_of(log_bytes(entries)) == (live_entries(entries), None::<FaultModel>),
{
    let file = log_bytes(entries);
    assert(file.take(file.len() as int) == file);
    lemma_replay_reaches(entries, file);
}

/// A write that was cut off loses only itself: a log that ends inside its last
/// entry replays to the entries before it.
pub proof fn torn_tail_keeps_earlier_entries(entries: Seq<EntryModel>, last: EntryModel, cut: nat)
    requires
        lengths_fit(entries),
        last.data.len() <= u32::MAX,
        cut < entry_bytes(last).len(),
    ensures
        replay_of(log_bytes(entries) + entry_bytes(last).take(cut as int)) == (
            live_entries(entries),
            None::<FaultModel>,
        ),
{
    let file = log_bytes(entries) + entry_bytes(last).take(cut as int);
    let n = log_bytes(entries).len();
    assert(file.take(n as int) =~= log_bytes(entries));
    lemma_replay_reaches(entries, file);
    lemma_entry_len(last);
    if cut >= HEADER_SIZE {
        crate::bytes::le_round_trip(entry_crc(last) as nat, 4);
        crate::bytes::le_round_trip(last.data.len(), 4);
        crate::bytes::pow256_values();
        assert(file.subrange((n + 4) as int, (n + 8) as int) =~= crate::bytes::le_bytes(
            last.data.len(),
            4,
        ));
    }
}

/// A checkpoint drops every entry before it, and no entry behind it.
pub proof fn checkpoint_drops_earlier_entries(
    before: Seq<EntryModel>,
    checkpoint: EntryModel,
    after: Seq<EntryModel>,
)
    requires
        checkpoint.entry_type == ENTRY_CHECKPOINT,
    ensures
        live_entries(before.push(checkpoint) + after) == live_entries(after),
    decreases after.len(),
{
    let all = before.push(checkpoint) + after;
    if after.len() == 0 {
        assert(all.drop_last() =~= before);
        assert(all.last() == checkpoint);
    } else {
        checkpoint_drops_earlier_entries(before, checkpoint, after.drop_last());
        assert(all.drop_last() =~= before.push(checkpoint) + after.drop_last());
        assert(all.last() == after.last());
    }
}

} // verus!
