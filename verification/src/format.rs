//! The file layout: an 8-byte header, the records, the table of slots.
//!
//! ```text
//! [0..4)   table_offset   u32, little-endian
//! [4..8)   table_len      u32, little-endian
//! [8..table_offset)       records: key_len, key, value_len, value
//! [table_offset..)        table_len slots, each a u32: a record's offset, or 0 for none
//! ```

use byteorder::{ByteOrder, LittleEndian};
use vstd::prelude::*;

verus! {

/// The bytes before the first record.
pub const HEADER_LEN: u32 = 8;

/// Why a file, or a record in it, cannot be read.
#[derive(Clone, Copy, Debug, PartialEq, Eq, Structural)]
pub enum FormatError {
    /// The file is shorter than its header.
    TruncatedHeader,
    /// The table is said to begin inside the header.
    BadTableOffset,
    /// The table is said to run past the end of the file.
    TruncatedTable,
    /// A slot points outside the records.
    BadSlot,
    /// A record's lengths lead past the end of the records.
    BadRecord,
    /// The source ended before the bytes that were asked of it.
    UnexpectedEof,
}

/// The integer that four bytes stand for in little-endian order.
pub open spec fn le_value(b: Seq<u8>) -> u32
    recommends
        b.len() == 4,
{
    (b[0] as int + 0x100 * b[1] as int + 0x1_0000 * b[2] as int + 0x100_0000 * b[3] as int) as u32
}

/// The four bytes that stand for an integer in little-endian order.
pub open spec fn le_bytes(n: u32) -> Seq<u8> {
    seq![
        (n as int % 0x100) as u8,
        (n as int / 0x100 % 0x100) as u8,
        (n as int / 0x1_0000 % 0x100) as u8,
        (n as int / 0x100_0000) as u8,
    ]
}

/// Decoding what was encoded gives the integer back.
pub proof fn lemma_le_round_trip(n: u32)
    ensures
        le_bytes(n).len() == 4,
        le_value(le_bytes(n)) == n,
{
}

/// Calls `byteorder::LittleEndian::read_u32`: `u32::from_le_bytes` of the
/// first four bytes of `buf`. It panics on a shorter slice, which `requires`
/// leaves out.
#[verifier::external_body]
pub(crate) fn read_u32_le(buf: &[u8]) -> (n: u32)
    requires
        buf@.len() >= 4,
    ensures
        n == le_value(buf@.subrange(0, 4)),
{
    LittleEndian::read_u32(buf)
}

/// Calls `byteorder::LittleEndian::write_u32` on a buffer of four bytes, which
/// it fills with `n.to_le_bytes()`.
#[verifier::external_body]
pub(crate) fn u32_le(n: u32) -> (b: [u8; 4])
    ensures
        b@ == le_bytes(n),
{
    let mut b = [0u8; 4];
    LittleEndian::write_u32(&mut b, n);
    b
}

/// A key with its value.
pub struct Record {
    pub key: Seq<u8>,
    pub value: Seq<u8>,
}

/// A record as it stands in the file.
pub open spec fn record_bytes(key: Seq<u8>, value: Seq<u8>) -> Seq<u8> {
    le_bytes(key.len() as u32) + key + le_bytes(value.len() as u32) + value
}

/// The size of a record in the file.
pub open spec fn record_size(key: Seq<u8>, value: Seq<u8>) -> int {
    (key.len() + value.len() + 8) as int
}

/// The records one after the other, as they stand in the file.
pub open spec fn records_bytes(records: Seq<Record>) -> Seq<u8>
    decreases records.len(),
{
    if records.len() == 0 {
        Seq::empty()
    } else {
        records_bytes(records.drop_last()) + record_bytes(
            records.last().key,
            records.last().value,
        )
    }
}

/// The size of all the records together.
pub open spec fn records_size(records: Seq<Record>) -> int
    decreases records.len(),
{
    if records.len() == 0 {
        0int
    } else {
        records_size(records.drop_last()) + record_size(records.last().key, records.last().value)
    }
}

/// Where record `i` begins in the file.
pub open spec fn record_offset(records: Seq<Record>, i: int) -> int {
    HEADER_LEN + records_size(records.take(i))
}

/// The slots one after the other, as they stand in the file.
pub open spec fn table_bytes(slots: Seq<u32>) -> Seq<u8>
    decreases slots.len(),
{
    if slots.len() == 0 {
        Seq::empty()
    } else {
        table_bytes(slots.drop_last()) + le_bytes(slots.last())
    }
}

/// The header of a file whose table of `table_len` slots begins at `table_offset`.
pub open spec fn header_bytes(table_offset: u32, table_len: u32) -> Seq<u8> {
    le_bytes(table_offset) + le_bytes(table_len)
}

/// The whole file that holds these records and this table.
pub open spec fn file_image(records: Seq<Record>, slots: Seq<u32>) -> Seq<u8> {
    header_bytes((HEADER_LEN + records_size(records)) as u32, slots.len() as u32) + records_bytes(
        records,
    ) + table_bytes(slots)
}

/// Where the table lies, as the header says.
#[derive(Clone, Copy, Debug, PartialEq, Eq, Structural)]
pub struct Header {
    pub table_offset: u32,
    pub table_len: u32,
}

impl Header {
    /// The size of the table in bytes.
    pub open spec fn table_size(self) -> int {
        4 * self.table_len
    }
}

/// The header that the first eight bytes spell.
pub open spec fn header_of(bytes: Seq<u8>) -> Header {
    Header {
        table_offset: le_value(bytes.subrange(0, 4)),
        table_len: le_value(bytes.subrange(4, 8)),
    }
}

/// Slot `k` of a table given by its bytes.
pub open spec fn slot_of(table: Seq<u8>, k: int) -> u32 {
    le_value(table.subrange(4 * k, 4 * k + 4))
}

/// The slots that the bytes of a table spell.
pub open spec fn slots_of(table: Seq<u8>) -> Seq<u32> {
    Seq::new((table.len() / 4) as nat, |k: int| slot_of(table, k))
}

/// A slot is free, or points into the records.
pub open spec fn slot_ok(slot: u32, table_offset: u32) -> bool {
    slot == 0 || HEADER_LEN <= slot < table_offset
}

/// Every slot is free or points into the records.
pub open spec fn slots_ok(slots: Seq<u32>, table_offset: u32) -> bool {
    forall|k: int| 0 <= k < slots.len() ==> slot_ok(#[trigger] slots[k], table_offset)
}

/// What the first eight bytes of a file give: where the table lies, or the
/// reason why they are no header.
pub open spec fn read_header(bytes: Seq<u8>) -> Result<Header, FormatError> {
    if bytes.len() < HEADER_LEN {
        Err(FormatError::TruncatedHeader)
    } else if header_of(bytes).table_offset < HEADER_LEN {
        Err(FormatError::BadTableOffset)
    } else {
        Ok(header_of(bytes))
    }
}

/// Reads the header from the first eight bytes of a file. Fails where there
/// are fewer bytes, or where the table would begin inside the header.
pub fn parse_header(bytes: &[u8]) -> (res: Result<Header, FormatError>)
    ensures
        res == read_header(bytes@),
{
    if bytes.len() < 8 {
        return Err(FormatError::TruncatedHeader);
    }
    let table_offset = read_u32_le(bytes);
    let rest = vstd::slice::slice_subrange(bytes, 4, 8);
    let table_len = read_u32_le(rest);
    assert(rest@.subrange(0, 4) == bytes@.subrange(4, 8));
    if table_offset < HEADER_LEN {
        Err(FormatError::BadTableOffset)
    } else {
        Ok(Header { table_offset, table_len })
    }
}

/// What a header and the bytes of the table that it points at give: the
/// slots, or the reason why they are not valid.
pub open spec fn open_parts(header: Header, table: Seq<u8>) -> Result<Seq<u32>, FormatError> {
    if header.table_offset < HEADER_LEN {
        Err(FormatError::BadTableOffset)
    } else if table.len() != header.table_size() {
        Err(FormatError::TruncatedTable)
    } else if !slots_ok(slots_of(table), header.table_offset) {
        Err(FormatError::BadSlot)
    } else {
        Ok(slots_of(table))
    }
}

/// Reads the slots of the table that `header` points at from the table's
/// bytes. Fails where the header is not valid, where the bytes are not four
/// for each slot, or where a slot points outside the records.
pub fn parse_table(header: Header, bytes: &[u8]) -> (res: Result<Vec<u32>, FormatError>)
    ensures
        match res {
            Ok(table) => open_parts(header, bytes@) == Ok::<Seq<u32>, FormatError>(table@),
            Err(e) => open_parts(header, bytes@) == Err::<Seq<u32>, FormatError>(e),
        },
{
    if header.table_offset < HEADER_LEN {
        return Err(FormatError::BadTableOffset);
    }
    let len = bytes.len();
    if len as u64 != 4 * (header.table_len as u64) {
        return Err(FormatError::TruncatedTable);
    }
    let n = len / 4;
    let mut table: Vec<u32> = Vec::new();
    let mut k: usize = 0;
    while k < n
        invariant
            k <= n,
            n == header.table_len,
            header.table_offset >= HEADER_LEN,
            len == bytes@.len(),
            len == 4 * n,
            table@ == slots_of(bytes@).take(k as int),
            slots_ok(table@, header.table_offset),
        decreases n - k,
    {
        let chunk = vstd::slice::slice_subrange(bytes, 4 * k, 4 * k + 4);
        let slot = read_u32_le(chunk);
        assert(chunk@.subrange(0, 4) == bytes@.subrange(4 * k, 4 * k + 4));
        assert(slot == slots_of(bytes@)[k as int]);
        if slot != 0 && (slot < HEADER_LEN || slot >= header.table_offset) {
            assert(!slot_ok(slots_of(bytes@)[k as int], header.table_offset));
            return Err(FormatError::BadSlot);
        }
        table.push(slot);
        k += 1;
        assert(table@ == slots_of(bytes@).take(k as int));
    }
    assert(slots_of(bytes@).take(n as int) == slots_of(bytes@));
    Ok(table)
}

/// What a look at one record gives.
pub enum Probe {
    /// The record holds the key; this is its value.
    Hit(Seq<u8>),
    /// The record holds another key.
    Mismatch,
    /// The record's lengths lead past the end of the records.
    Malformed,
}

/// What a look at the record at `off` gives for `key`, in a file whose
/// records end at `end`.
pub open spec fn probe(file: Seq<u8>, end: int, off: int, key: Seq<u8>) -> Probe {
    if off + 4 > end {
        Probe::Malformed
    } else {
        let key_len = le_value(file.subrange(off, off + 4));
        if off + 4 + key_len > end {
            Probe::Malformed
        } else if file.subrange(off + 4, off + 4 + key_len) != key {
            Probe::Mismatch
        } else if off + 8 + key_len > end {
            Probe::Malformed
        } else {
            let value_len = le_value(file.subrange(off + 4 + key_len, off + 8 + key_len));
            if off + 8 + key_len + value_len > end {
                Probe::Malformed
            } else {
                Probe::Hit(file.subrange(off + 8 + key_len, off + 8 + key_len + value_len))
            }
        }
    }
}

/// What a look at the record that a slot points at gives; a free slot holds no key.
pub open spec fn probe_slot(file: Seq<u8>, end: int, slot: u32, key: Seq<u8>) -> Probe {
    if slot == 0 {
        Probe::Mismatch
    } else {
        probe(file, end, slot as int, key)
    }
}

/// The two slots that may point at the record of `key`: the one that the
/// first hash names, then the one that the second names.
pub open spec fn candidates(table: Seq<u32>, key: Seq<u8>) -> (u32, u32)
    recommends
        table.len() > 0,
{
    let (h1, h2) = crate::fingerprint(key);
    (table[h1 as int % table.len() as int], table[h2 as int % table.len() as int])
}

/// The answer to a lookup of `key`: the value of the record that one of the
/// key's two slots points at, `None` where neither points at a record with
/// this key, an error where a record that had to be looked at is malformed.
pub open spec fn lookup(file: Seq<u8>, end: int, table: Seq<u32>, key: Seq<u8>) -> Result<
    Option<Seq<u8>>,
    FormatError,
> {
    if table.len() == 0 {
        Ok(None)
    } else {
        let (first, second) = candidates(table, key);
        match probe_slot(file, end, first, key) {
            Probe::Hit(value) => Ok(Some(value)),
            Probe::Malformed => Err(FormatError::BadRecord),
            Probe::Mismatch => match probe_slot(file, end, second, key) {
                Probe::Hit(value) => Ok(Some(value)),
                Probe::Malformed => Err(FormatError::BadRecord),
                Probe::Mismatch => Ok(None),
            },
        }
    }
}

/// Probe bound: the answer depends on no slot but the key's two.
pub proof fn lemma_lookup_reads_two_slots(
    file: Seq<u8>,
    end: int,
    table: Seq<u32>,
    other: Seq<u32>,
    key: Seq<u8>,
)
    requires
        table.len() == other.len(),
        table.len() > 0 ==> candidates(table, key) == candidates(other, key),
    ensures
        lookup(file, end, table, key) == lookup(file, end, other, key),
{
}

/// What opening a file gives: where its table lies and the slots in it, or
/// the reason why the file is not valid.
pub open spec fn open_file(file: Seq<u8>) -> Result<(Header, Seq<u32>), FormatError> {
    let header = header_of(file);
    let table_end = header.table_offset + header.table_size();
    let slots = slots_of(file.subrange(header.table_offset as int, table_end));
    if file.len() < HEADER_LEN {
        Err(FormatError::TruncatedHeader)
    } else if header.table_offset < HEADER_LEN {
        Err(FormatError::BadTableOffset)
    } else if table_end > file.len() {
        Err(FormatError::TruncatedTable)
    } else if !slots_ok(slots, header.table_offset) {
        Err(FormatError::BadSlot)
    } else {
        Ok((header, slots))
    }
}

/// Opening a file is reading its header, then the table where the header
/// says it lies.
pub proof fn lemma_open_in_parts(file: Seq<u8>)
    requires
        file.len() >= HEADER_LEN,
        header_of(file).table_offset + header_of(file).table_size() <= file.len(),
    ensures
        open_file(file) == match open_parts(
            header_of(file),
            file.subrange(
                header_of(file).table_offset as int,
                header_of(file).table_offset + header_of(file).table_size(),
            ),
        ) {
            Ok(slots) => Ok::<(Header, Seq<u32>), FormatError>((header_of(file), slots)),
            Err(e) => Err::<(Header, Seq<u32>), FormatError>(e),
        },
{
}

/// An answer as contracts speak of it.
pub open spec fn answer_view(res: Result<Option<Vec<u8>>, FormatError>) -> Result<
    Option<Seq<u8>>,
    FormatError,
> {
    match res {
        Ok(Some(value)) => Ok(Some(value@)),
        Ok(None) => Ok(None),
        Err(e) => Err(e),
    }
}

/// Whether two byte strings are the same.
pub fn bytes_equal(a: &[u8], b: &[u8]) -> (same: bool)
    ensures
        same == (a@ == b@),
{
    if a.len() != b.len() {
        return false;
    }
    let mut i: usize = 0;
    while i < a.len()
        invariant
            i <= a@.len(),
            a@.len() == b@.len(),
            a@.take(i as int) == b@.take(i as int),
        decreases a@.len() - i,
    {
        if a[i] != b[i] {
            return false;
        }
        i += 1;
        assert(a@.take(i as int) =~= a@.take(i - 1).push(a@[i - 1]));
        assert(b@.take(i as int) =~= b@.take(i - 1).push(b@[i - 1]));
    }
    assert(a@.take(a@.len() as int) =~= a@);
    assert(b@.take(b@.len() as int) =~= b@);
    true
}

} // verus!
