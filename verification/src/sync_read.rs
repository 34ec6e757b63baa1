//! The writer, and the reader that fetches from its source piece by piece.
//!
//! Neither touches a file. The writer hands out the bytes to be written: each
//! record as it is appended, then the table and the header. The reader says
//! which bytes it needs next and is handed them.

use crate::cuckoo::{
    first_placement, homes, is_cuckoo_table, placement, try_assemble_cuckoo, AssemblyError, Cells,
    Entry,
};
use crate::farmhash_fingerprint;
use crate::fingerprint;
use crate::format::{
    answer_view, bytes_equal, candidates, file_image, header_bytes, le_value, lookup, open_parts,
    parse_table, probe_slot, read_u32_le, record_bytes, record_offset, record_size, records_bytes,
    records_size, table_bytes, u32_le, FormatError, Header, Probe, Record, HEADER_LEN,
};
use vstd::prelude::*;
use vstd::slice::{slice_subrange, slice_to_vec};

verus! {

/// What the writer remembers of a record: the hashes of its key, and where it begins.
#[derive(Copy, Clone, Debug)]
pub struct LogEntry {
    pub key_hash: (u32, u32),
    pub offset: u32,
}

impl Entry for LogEntry {
    open spec fn h1_spec(&self) -> usize {
        self.key_hash.0 as usize
    }

    open spec fn h2_spec(&self) -> usize {
        self.key_hash.1 as usize
    }

    fn h1(&self) -> usize {
        self.key_hash.0 as usize
    }

    fn h2(&self) -> usize {
        self.key_hash.1 as usize
    }
}

/// Why the writer could not go on.
#[derive(Clone, Debug)]
pub enum WriteError {
    /// The file would grow past what a 32-bit offset can address.
    TooLarge,
    /// No table of two to five cells per record holds all the keys.
    Placement(AssemblyError),
}

/// What ends a file: the table, to be written after the last record, and the
/// header, to be written over the first eight bytes.
#[derive(Clone, Debug)]
pub struct Trailer {
    pub table: Vec<u8>,
    pub header: Vec<u8>,
}

/// The log after these records were appended.
pub open spec fn log_of(records: Seq<Record>) -> Seq<LogEntry> {
    Seq::new(
        records.len(),
        |i: int|
            LogEntry {
                key_hash: fingerprint(records[i].key),
                offset: record_offset(records, i) as u32,
            },
    )
}

/// The table sizes that are tried for `n` records, in order.
pub open spec fn index_caps(n: nat) -> Seq<usize> {
    seq![(2 * n) as usize, (3 * n) as usize, (4 * n) as usize, (5 * n) as usize]
}

/// The cells of the index over these records, where one can be built.
pub open spec fn index_cells(records: Seq<Record>) -> Option<Cells> {
    first_placement(log_of(records), index_caps(records.len()), 0)
}

/// The slots that stand for the cells: the offset of the entry in each, 0 for a free cell.
pub open spec fn slots_from(cells: Cells, log: Seq<LogEntry>) -> Seq<u32> {
    Seq::new(
        cells.len(),
        |c: int|
            match cells[c] {
                Some(i) => log[i as int].offset,
                None => 0u32,
            },
    )
}

/// The index over these records as it is written to the file, where one can be built.
pub open spec fn index_slots(records: Seq<Record>) -> Option<Seq<u32>> {
    match index_cells(records) {
        Some(cells) => Some(slots_from(cells, log_of(records))),
        None => None,
    }
}

/// The file that comes of appending these records and finishing: the header,
/// the bytes of each append in order, the table. `None` where the writer
/// fails.
pub open spec fn written(records: Seq<Record>) -> Option<Seq<u8>> {
    match index_slots(records) {
        Some(slots) => if HEADER_LEN + records_size(records) + 4 * slots.len() <= u32::MAX {
            Some(file_image(records, slots))
        } else {
            None
        },
        None => None,
    }
}

/// Appends `bytes` to `out`.
fn push_bytes(out: &mut Vec<u8>, bytes: &[u8])
    ensures
        final(out)@ == old(out)@ + bytes@,
{
    out.extend_from_slice(bytes);
    assert(out@ =~= old(out)@ + bytes@);
}

/// Builds a file: takes the records in, remembers where each begins, and at
/// the end computes the index.
pub struct Writer {
    offset: u32,
    log: Vec<LogEntry>,
    records: Ghost<Seq<Record>>,
}

impl Writer {
    /// The records appended so far, in order.
    pub closed spec fn records(&self) -> Seq<Record> {
        self.records@
    }

    /// The log and the offset agree with the records appended so far.
    pub closed spec fn wf(&self) -> bool {
        &&& self.log@ == log_of(self.records@)
        &&& self.offset == HEADER_LEN + records_size(self.records@)
    }

    /// Where the next record will begin.
    pub open spec fn end(&self) -> int {
        HEADER_LEN + records_size(self.records())
    }

    /// A writer for a new file. The first record will begin after the eight
    /// bytes that are kept for the header.
    pub fn new() -> (w: Writer)
        ensures
            w.wf(),
            w.records() == Seq::<Record>::empty(),
    {
        let w = Writer { offset: HEADER_LEN, log: Vec::new(), records: Ghost(Seq::empty()) };
        assert(w.log@ =~= log_of(w.records@));
        w
    }

    /// Takes a record in and returns its bytes, which belong at the end of
    /// what was written so far. Fails, and changes nothing, where the record
    /// would end past what a 32-bit offset can address.
    pub fn append(&mut self, key: &[u8], value: &[u8]) -> (res: Result<Vec<u8>, WriteError>)
        requires
            old(self).wf(),
        ensures
            final(self).wf(),
            match res {
                Ok(bytes) => {
                    &&& old(self).end() + record_size(key@, value@) <= u32::MAX
                    &&& bytes@ == record_bytes(key@, value@)
                    &&& records_bytes(final(self).records()) == records_bytes(
                        old(self).records(),
                    ) + bytes@
                    &&& final(self).records() == old(self).records().push(
                        Record { key: key@, value: value@ },
                    )
                },
                Err(e) => {
                    &&& old(self).end() + record_size(key@, value@) > u32::MAX
                    &&& e is TooLarge
                    &&& final(self).records() == old(self).records()
                },
            },
    {
        let room = u32::MAX - self.offset;
        if room < 8 || key.len() > (room - 8) as usize {
            return Err(WriteError::TooLarge);
        }
        let key_len = key.len() as u32;
        if value.len() > (room - 8 - key_len) as usize {
            return Err(WriteError::TooLarge);
        }
        let value_len = value.len() as u32;
        let ghost before = self.records@;
        let ghost after = before.push(Record { key: key@, value: value@ });
        self.log.push(LogEntry { key_hash: farmhash_fingerprint(key), offset: self.offset });
        self.offset = self.offset + (key_len + value_len + 8);
        self.records = Ghost(after);
        proof {
            assert(after.drop_last() =~= before);
            assert(after.take(before.len() as int) =~= before);
            assert forall|i: int| 0 <= i < before.len() implies after.take(i) == before.take(
                i,
            ) by {
                assert(after.take(i) =~= before.take(i));
            }
            assert(self.log@ =~= log_of(after));
        }
        let mut bytes: Vec<u8> = Vec::new();
        let key_len_bytes = u32_le(key_len);
        push_bytes(&mut bytes, key_len_bytes.as_slice());
        push_bytes(&mut bytes, key);
        let value_len_bytes = u32_le(value_len);
        push_bytes(&mut bytes, value_len_bytes.as_slice());
        push_bytes(&mut bytes, value);
        assert(bytes@ =~= record_bytes(key@, value@));
        Ok(bytes)
    }

    /// Builds the index over all the records and returns what ends the file:
    /// a table of two to five slots per record, the smallest of these sizes
    /// that holds all the keys, and the header that points at it. Fails where
    /// none of the four sizes holds them, or where the table would end past
    /// what a 32-bit offset can address.
    pub fn finish(self) -> (res: Result<Trailer, WriteError>)
        requires
            self.wf(),
        ensures
            match res {
                Ok(trailer) => {
                    &&& index_slots(self.records()) matches Some(slots)
                    &&& self.end() + 4 * slots.len() <= u32::MAX
                    &&& trailer.table@ == table_bytes(slots)
                    &&& trailer.header@ == header_bytes(self.end() as u32, slots.len() as u32)
                    &&& written(self.records()) == Some(
                        trailer.header@ + records_bytes(self.records()) + trailer.table@,
                    )
                },
                Err(WriteError::Placement(e)) => {
                    &&& index_slots(self.records()) is None
                    &&& written(self.records()) is None
                    &&& e.attempts@.len() == 4
                    &&& forall|k: int|
                        0 <= k < 4 ==> placement(
                            homes(
                                log_of(self.records()),
                                index_caps(self.records().len())[k] as int,
                            ),
                            index_caps(self.records().len())[k] as nat,
                        ) == Err::<Cells, int>(#[trigger] e.attempts@[k].index as int)
                },
                Err(WriteError::TooLarge) => {
                    &&& index_slots(self.records()) matches Some(slots)
                    &&& self.end() + 4 * slots.len() > u32::MAX
                    &&& written(self.records()) is None
                },
            },
    {
        let n = self.log.len();
        proof {
            lemma_size_bounds_count(self.records@);
        }
        let caps: [usize; 4] = [2 * n, 3 * n, 4 * n, 5 * n];
        assert(caps@ =~= index_caps(n as nat));
        let table = match try_assemble_cuckoo(self.log.as_slice(), caps.as_slice()) {
            Ok(table) => table,
            Err(e) => {
                return Err(WriteError::Placement(e));
            },
        };
        let ghost slots = slots_from(table@, self.log@);
        if table.len() as u64 > (u32::MAX - self.offset) as u64 / 4 {
            return Err(WriteError::TooLarge);
        }
        let mut out: Vec<u8> = Vec::new();
        let mut c: usize = 0;
        while c < table.len()
            invariant
                c <= table@.len(),
                slots == slots_from(table@, self.log@),
                is_cuckoo_table(self.log@, table@),
                out@ == table_bytes(slots.take(c as int)),
            decreases table@.len() - c,
        {
            let slot = match table[c] {
                Some(i) => self.log[i].offset,
                None => 0,
            };
            let slot_bytes = u32_le(slot);
            push_bytes(&mut out, slot_bytes.as_slice());
            c += 1;
            assert(slots.take(c as int).drop_last() =~= slots.take(c - 1));
        }
        assert(slots.take(table@.len() as int) =~= slots);
        let mut header: Vec<u8> = Vec::new();
        let offset_bytes = u32_le(self.offset);
        push_bytes(&mut header, offset_bytes.as_slice());
        let len_bytes = u32_le(table.len() as u32);
        push_bytes(&mut header, len_bytes.as_slice());
        assert(header@ =~= header_bytes(self.offset, table@.len() as u32));
        Ok(Trailer { table: out, header })
    }
}

/// Every record takes at least eight bytes, so the records are at most an
/// eighth of their size in number.
pub proof fn lemma_size_bounds_count(records: Seq<Record>)
    ensures
        8 * records.len() <= records_size(records),
    decreases records.len(),
{
    if records.len() > 0 {
        lemma_size_bounds_count(records.drop_last());
    }
}

/// What the bytes that a reader asks for are.
#[derive(Clone, Copy, Debug, PartialEq, Eq, Structural)]
pub enum Stage {
    /// The length of a record's key.
    KeyLen,
    /// A record's key.
    Key,
    /// The length of a record's value.
    ValueLen,
}

/// A request for bytes of the source.
#[derive(Clone, Copy, Debug, PartialEq, Eq, Structural)]
pub struct Fetch {
    /// Where the bytes begin.
    pub at: u32,
    /// How many bytes.
    pub len: u32,
    /// What the bytes are.
    pub stage: Stage,
    /// The slot to go on with where this record holds another key; 0 for none.
    pub next: u32,
}

/// Where a lookup stands.
#[derive(Clone, Copy, Debug, PartialEq, Eq, Structural)]
pub enum Step {
    /// The reader needs these bytes: read them and hand them to `resume`.
    Fetch(Fetch),
    /// The key is present: its value is the `len` bytes at `at`.
    Found { at: u32, len: u32 },
    /// The key is absent.
    Absent,
}

/// Turns to the record that `slot` points at, with `next` as the slot to go
/// on with; a free slot is passed over.
pub open spec fn start_spec(end: u32, slot: u32, next: u32) -> Result<Step, FormatError> {
    let (slot, next) = if slot == 0 {
        (next, 0u32)
    } else {
        (slot, next)
    };
    if slot == 0 {
        Ok(Step::Absent)
    } else if slot + 4 > end {
        Err(FormatError::BadRecord)
    } else {
        Ok(Step::Fetch(Fetch { at: slot, len: 4, stage: Stage::KeyLen, next }))
    }
}

/// The first step of a lookup of `key`.
pub open spec fn begin_spec(table: Seq<u32>, end: u32, key: Seq<u8>) -> Result<
    Step,
    FormatError,
> {
    if table.len() == 0 {
        Ok(Step::Absent)
    } else {
        start_spec(end, candidates(table, key).0, candidates(table, key).1)
    }
}

/// The bytes are as many as `fetch` asks for, and four where it asks for a length.
pub open spec fn served(fetch: Fetch, bytes: Seq<u8>) -> bool {
    bytes.len() == fetch.len && (fetch.stage is Key || fetch.len == 4)
}

/// The step after the bytes of `fetch` came in.
pub open spec fn resume_spec(end: u32, key: Seq<u8>, fetch: Fetch, bytes: Seq<u8>) -> Result<
    Step,
    FormatError,
> {
    if !served(fetch, bytes) {
        Err(FormatError::UnexpectedEof)
    } else {
        match fetch.stage {
            Stage::KeyLen => {
                let key_len = le_value(bytes);
                if fetch.at + 4 + key_len > end {
                    Err(FormatError::BadRecord)
                } else {
                    Ok(
                        Step::Fetch(
                            Fetch {
                                at: (fetch.at + 4) as u32,
                                len: key_len,
                                stage: Stage::Key,
                                next: fetch.next,
                            },
                        ),
                    )
                }
            },
            Stage::Key => {
                if bytes != key {
                    start_spec(end, fetch.next, 0)
                } else if fetch.at + fetch.len + 4 > end {
                    Err(FormatError::BadRecord)
                } else {
                    Ok(
                        Step::Fetch(
                            Fetch {
                                at: (fetch.at + fetch.len) as u32,
                                len: 4,
                                stage: Stage::ValueLen,
                                next: 0,
                            },
                        ),
                    )
                }
            },
            Stage::ValueLen => {
                let value_len = le_value(bytes);
                if fetch.at + 4 + value_len > end {
                    Err(FormatError::BadRecord)
                } else {
                    Ok(Step::Found { at: (fetch.at + 4) as u32, len: value_len })
                }
            },
        }
    }
}

/// How many keys a lookup may still compare from this step on.
pub open spec fn compares_left(step: Step) -> nat {
    match step {
        Step::Fetch(fetch) => match fetch.stage {
            Stage::ValueLen => 0,
            _ => if fetch.next == 0 {
                1
            } else {
                2
            },
        },
        _ => 0,
    }
}

/// How many fetches a lookup may still make from this step on.
pub open spec fn fetches_left(step: Step) -> nat {
    match step {
        Step::Fetch(fetch) => match fetch.stage {
            Stage::KeyLen => if fetch.next == 0 {
                3
            } else {
                5
            },
            Stage::Key => if fetch.next == 0 {
                2
            } else {
                4
            },
            Stage::ValueLen => 1,
        },
        _ => 0,
    }
}

/// The answer that a lookup comes to from `step` on, when each fetch is
/// served from `source`.
pub open spec fn run(end: u32, source: Seq<u8>, key: Seq<u8>, step: Result<Step, FormatError>)
    -> Result<Option<Seq<u8>>, FormatError>
    decreases
        (match step {
            Ok(s) => fetches_left(s),
            Err(_) => 0,
        }),
{
    match step {
        Err(e) => Err(e),
        Ok(Step::Absent) => Ok(None),
        Ok(Step::Found { at, len }) => if at + len > source.len() {
            Err(FormatError::UnexpectedEof)
        } else {
            Ok(Some(source.subrange(at as int, at + len)))
        },
        Ok(Step::Fetch(fetch)) => if fetch.at + fetch.len > source.len() {
            Err(FormatError::UnexpectedEof)
        } else {
            run(
                end,
                source,
                key,
                resume_spec(end, key, fetch, source.subrange(fetch.at as int, fetch.at + fetch.len)),
            )
        },
    }
}

/// Answers lookups from a source that it does not hold: it says which bytes
/// it needs, and goes on when they are handed to it.
pub struct Reader {
    table_offset: u32,
    table: Vec<u32>,
}

impl Reader {
    /// Where the records end and the table begins.
    pub closed spec fn table_offset(&self) -> u32 {
        self.table_offset
    }

    /// The slots of the table.
    pub closed spec fn table(&self) -> Seq<u32> {
        self.table@
    }

    /// A reader for the file with this header, given the bytes of its table:
    /// those that begin at `header.table_offset`, four for each of the
    /// `header.table_len` slots. Fails where they are not valid.
    pub fn new(header: Header, table: &[u8]) -> (res: Result<Reader, FormatError>)
        ensures
            match res {
                Ok(reader) => {
                    &&& open_parts(header, table@) == Ok::<Seq<u32>, FormatError>(reader.table())
                    &&& reader.table_offset() == header.table_offset
                },
                Err(e) => open_parts(header, table@) == Err::<Seq<u32>, FormatError>(e),
            },
    {
        match parse_table(header, table) {
            Ok(table) => Ok(Reader { table_offset: header.table_offset, table }),
            Err(e) => Err(e),
        }
    }

    /// Begins a lookup of `key`: picks the key's two slots and turns to the
    /// record that the first of them points at, or to the second's where the
    /// first is free.
    pub fn begin(&self, key: &[u8]) -> (res: Result<Step, FormatError>)
        ensures
            res == begin_spec(self.table(), self.table_offset(), key@),
    {
        if self.table.len() == 0 {
            return Ok(Step::Absent);
        }
        let (h1, h2) = farmhash_fingerprint(key);
        let s1 = self.table[h1 as usize % self.table.len()];
        let s2 = self.table[h2 as usize % self.table.len()];
        self.start(s1, s2)
    }

    /// Turns to the record that `slot` points at, or to the one that `next`
    /// points at where `slot` is free.
    fn start(&self, slot: u32, next: u32) -> (res: Result<Step, FormatError>)
        ensures
            res == start_spec(self.table_offset(), slot, next),
    {
        let (slot, next) = if slot == 0 {
            (next, 0)
        } else {
            (slot, next)
        };
        if slot == 0 {
            Ok(Step::Absent)
        } else if slot as u64 + 4 > self.table_offset as u64 {
            Err(FormatError::BadRecord)
        } else {
            Ok(Step::Fetch(Fetch { at: slot, len: 4, stage: Stage::KeyLen, next }))
        }
    }

    /// Goes on with a lookup of `key` after the bytes that `fetch` asked for
    /// came in: a key's length leads to the key, a key that differs to the
    /// next slot, the key itself to its value's length, and that to the value.
    /// Fails where the bytes are not as many as were asked for, or where the
    /// record would end past the records.
    pub fn resume(&self, key: &[u8], fetch: Fetch, bytes: &[u8]) -> (res: Result<
        Step,
        FormatError,
    >)
        ensures
            res == resume_spec(self.table_offset(), key@, fetch, bytes@),
    {
        let end = self.table_offset as u64;
        let is_key = match fetch.stage {
            Stage::Key => true,
            _ => false,
        };
        if bytes.len() as u64 != fetch.len as u64 || (!is_key && fetch.len != 4) {
            return Err(FormatError::UnexpectedEof);
        }
        match fetch.stage {
            Stage::KeyLen => {
                let key_len = read_u32_le(bytes);
                assert(bytes@.subrange(0, 4) == bytes@);
                if fetch.at as u64 + 4 + key_len as u64 > end {
                    Err(FormatError::BadRecord)
                } else {
                    Ok(
                        Step::Fetch(
                            Fetch {
                                at: fetch.at + 4,
                                len: key_len,
                                stage: Stage::Key,
                                next: fetch.next,
                            },
                        ),
                    )
                }
            },
            Stage::Key => {
                if !bytes_equal(bytes, key) {
                    self.start(fetch.next, 0)
                } else if fetch.at as u64 + fetch.len as u64 + 4 > end {
                    Err(FormatError::BadRecord)
                } else {
                    Ok(
                        Step::Fetch(
                            Fetch {
                                at: fetch.at + fetch.len,
                                len: 4,
                                stage: Stage::ValueLen,
                                next: 0,
                            },
                        ),
                    )
                }
            },
            Stage::ValueLen => {
                let value_len = read_u32_le(bytes);
                assert(bytes@.subrange(0, 4) == bytes@);
                if fetch.at as u64 + 4 + value_len as u64 > end {
                    Err(FormatError::BadRecord)
                } else {
                    Ok(Step::Found { at: fetch.at + 4, len: value_len })
                }
            },
        }
    }

    /// Looks `key` up in a source that lies in memory, by serving each fetch
    /// of the lookup from it: the value of the key's record, `None` where
    /// there is none, an error where a record that had to be looked at is
    /// malformed or the source ends before the bytes that are asked of it.
    pub fn read(&mut self, source: &[u8], key: &[u8]) -> (res: Result<
        Option<Vec<u8>>,
        FormatError,
    >)
        ensures
            *final(self) == *old(self),
            answer_view(res) == run(
                old(self).table_offset(),
                source@,
                key@,
                begin_spec(old(self).table(), old(self).table_offset(), key@),
            ),
            old(self).table_offset() <= source@.len() ==> answer_view(res) == lookup(
                source@,
                old(self).table_offset() as int,
                old(self).table(),
                key@,
            ),
    {
        let ghost end = self.table_offset;
        proof {
            if end <= source@.len() {
                lemma_run_is_lookup(self.table@, end, source@, key@);
            }
        }
        let mut step = self.begin(key);
        loop
            invariant
                end == self.table_offset(),
                end <= source@.len() ==> run(
                    end,
                    source@,
                    key@,
                    begin_spec(self.table(), end, key@),
                ) == lookup(source@, end as int, self.table(), key@),
                run(end, source@, key@, step) == run(
                    end,
                    source@,
                    key@,
                    begin_spec(self.table(), end, key@),
                ),
            decreases
                    (match step {
                        Ok(s) => fetches_left(s),
                        Err(_) => 0,
                    }),
        {
            match step {
                Err(e) => {
                    return Err(e);
                },
                Ok(Step::Absent) => {
                    return Ok(None);
                },
                Ok(Step::Found { at, len }) => {
                    if at as u64 + len as u64 > source.len() as u64 {
                        return Err(FormatError::UnexpectedEof);
                    }
                    let from = at as usize;
                    return Ok(Some(slice_to_vec(slice_subrange(source, from, from + len as usize))));
                },
                Ok(Step::Fetch(fetch)) => {
                    if fetch.at as u64 + fetch.len as u64 > source.len() as u64 {
                        return Err(FormatError::UnexpectedEof);
                    }
                    let from = fetch.at as usize;
                    let bytes = slice_subrange(source, from, from + fetch.len as usize);
                    step = self.resume(key, fetch, bytes);
                },
            }
        }
    }
}

/// The answer that a look at one record stands for, where `rest` is the
/// answer in case the record holds another key.
pub open spec fn probe_answer(found: Probe, rest: Result<Option<Seq<u8>>, FormatError>) -> Result<
    Option<Seq<u8>>,
    FormatError,
> {
    match found {
        Probe::Hit(value) => Ok(Some(value)),
        Probe::Malformed => Err(FormatError::BadRecord),
        Probe::Mismatch => rest,
    }
}

/// Served from a source that holds all the records, the fetches that begin
/// at a slot come to what a look at the slot's record gives, and go on
/// with the next slot where that record holds another key.
pub proof fn lemma_run_probes(end: u32, source: Seq<u8>, key: Seq<u8>, slot: u32, next: u32)
    requires
        end <= source.len(),
    ensures
        run(end, source, key, start_spec(end, slot, next)) == probe_answer(
            probe_slot(source, end as int, slot, key),
            probe_answer(probe_slot(source, end as int, next, key), Ok(None)),
        ),
    decreases
            (if next == 0 {
                0nat
            } else {
                1nat
            }),
{
    if slot == 0 {
        if next != 0 {
            lemma_run_probes(end, source, key, next, 0);
        }
    } else if slot + 4 <= end {
        let first = Fetch { at: slot, len: 4, stage: Stage::KeyLen, next };
        let key_len = le_value(source.subrange(slot as int, slot + 4));
        assert(run(end, source, key, Ok(Step::Fetch(first))) == run(
            end,
            source,
            key,
            resume_spec(end, key, first, source.subrange(slot as int, slot + 4)),
        ));
        if slot + 4 + key_len <= end {
            let second = Fetch { at: (slot + 4) as u32, len: key_len, stage: Stage::Key, next };
            let held = source.subrange(slot + 4, slot + 4 + key_len);
            assert(run(end, source, key, Ok(Step::Fetch(second))) == run(
                end,
                source,
                key,
                resume_spec(end, key, second, held),
            ));
            if held != key {
                if next != 0 {
                    lemma_run_probes(end, source, key, next, 0);
                }
            } else if slot + 8 + key_len <= end {
                let third = Fetch {
                    at: (slot + 4 + key_len) as u32,
                    len: 4,
                    stage: Stage::ValueLen,
                    next: 0,
                };
                assert(run(end, source, key, Ok(Step::Fetch(third))) == run(
                    end,
                    source,
                    key,
                    resume_spec(
                        end,
                        key,
                        third,
                        source.subrange(slot + 4 + key_len, slot + 8 + key_len),
                    ),
                ));
            }
        }
    }
}

/// Reader equivalence: on a source that holds all the records, the lookup
/// that fetches piece by piece gives what the lookup in the whole file gives.
pub proof fn lemma_run_is_lookup(table: Seq<u32>, end: u32, source: Seq<u8>, key: Seq<u8>)
    requires
        end <= source.len(),
    ensures
        run(end, source, key, begin_spec(table, end, key)) == lookup(
            source,
            end as int,
            table,
            key,
        ),
{
    if table.len() > 0 {
        lemma_run_probes(end, source, key, candidates(table, key).0, candidates(table, key).1);
    }
}

/// Probe bound: a lookup begins with at most two keys to compare and five
/// pieces to fetch before the value.
pub proof fn lemma_begin_bounded(table: Seq<u32>, end: u32, key: Seq<u8>)
    ensures
        begin_spec(table, end, key) matches Ok(step) ==> compares_left(step) <= 2 && fetches_left(
            step,
        ) <= 5,
{
}

/// Probe bound: every fetch uses up one of the fetches that are left, and a
/// fetch of a key uses up one of the compares.
pub proof fn lemma_resume_bounded(end: u32, key: Seq<u8>, fetch: Fetch, bytes: Seq<u8>)
    ensures
        resume_spec(end, key, fetch, bytes) matches Ok(step) ==> {
            &&& fetches_left(step) < fetches_left(Step::Fetch(fetch))
            &&& compares_left(step) <= compares_left(Step::Fetch(fetch))
            &&& fetch.stage is Key ==> compares_left(step) < compares_left(Step::Fetch(fetch))
        },
{
}

} // verus!
