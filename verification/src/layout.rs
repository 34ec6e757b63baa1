//! What the bytes of a well-built file spell: each part of the image reads
//! back as what it was made from.

use crate::format::{
    file_image, header_bytes, header_of, le_bytes, lemma_le_round_trip, probe, record_bytes,
    record_offset, record_size, records_bytes, records_size, slot_of, slots_of, table_bytes,
    Header, Probe, Record, HEADER_LEN,
};
use vstd::prelude::*;

verus! {

/// The records take as many bytes as their sizes add up to.
pub proof fn lemma_records_len(records: Seq<Record>)
    ensures
        records_bytes(records).len() == records_size(records),
        0 <= records_size(records),
    decreases records.len(),
{
    if records.len() > 0 {
        lemma_records_len(records.drop_last());
    }
}

/// The first records of a file take no more room than all of them.
pub proof fn lemma_records_size_grows(records: Seq<Record>, i: int)
    requires
        0 <= i <= records.len(),
    ensures
        records_size(records.take(i)) <= records_size(records),
        i < records.len() ==> records_size(records.take(i)) + record_size(
            records[i].key,
            records[i].value,
        ) <= records_size(records),
    decreases records.len(),
{
    if i == records.len() {
        assert(records.take(i) =~= records);
    } else {
        let front = records.drop_last();
        assert(front.take(i) =~= records.take(i));
        lemma_records_size_grows(front, i);
    }
}

/// A part of the front of two joined strings is a part of the first.
pub proof fn lemma_part_of_front(a: Seq<u8>, b: Seq<u8>, from: int, to: int)
    requires
        0 <= from <= to <= a.len(),
    ensures
        (a + b).subrange(from, to) == a.subrange(from, to),
{
    assert((a + b).subrange(from, to) =~= a.subrange(from, to));
}

/// A part of the back of two joined strings is a part of the second.
pub proof fn lemma_part_of_back(a: Seq<u8>, b: Seq<u8>, from: int, to: int)
    requires
        0 <= from <= to <= b.len(),
    ensures
        (a + b).subrange(a.len() + from, a.len() + to) == b.subrange(from, to),
{
    assert((a + b).subrange(a.len() + from, a.len() + to) =~= b.subrange(from, to));
}

/// Record `i` stands in the records' bytes where its offset says.
pub proof fn lemma_record_stands(records: Seq<Record>, i: int)
    requires
        0 <= i < records.len(),
    ensures
        0 <= records_size(records.take(i)),
        records_size(records.take(i)) + record_size(records[i].key, records[i].value)
            <= records_bytes(records).len(),
        records_bytes(records).subrange(
            records_size(records.take(i)),
            records_size(records.take(i)) + record_size(records[i].key, records[i].value),
        ) == record_bytes(records[i].key, records[i].value),
    decreases records.len(),
{
    let front = records.drop_last();
    let last = record_bytes(records.last().key, records.last().value);
    let from = records_size(records.take(i));
    let to = from + record_size(records[i].key, records[i].value);
    lemma_records_len(records);
    lemma_records_len(front);
    lemma_records_len(records.take(i));
    assert(records_bytes(records) == records_bytes(front) + last);
    if i == records.len() - 1 {
        assert(records.take(i) =~= front);
        assert(last.len() == to - from);
        lemma_part_of_back(records_bytes(front), last, 0, to - from);
        assert(last.subrange(0, to - from) =~= last);
    } else {
        assert(front.take(i) =~= records.take(i));
        assert(front[i] == records[i]);
        lemma_record_stands(front, i);
        lemma_part_of_front(records_bytes(front), last, from, to);
    }
}

/// A table takes four bytes for each slot, and each slot reads back.
pub proof fn lemma_table_reads_back(slots: Seq<u32>)
    ensures
        table_bytes(slots).len() == 4 * slots.len(),
        slots_of(table_bytes(slots)) == slots,
    decreases slots.len(),
{
    if slots.len() > 0 {
        let front = slots.drop_last();
        lemma_table_reads_back(front);
        lemma_le_round_trip(slots.last());
        let bytes = table_bytes(slots);
        assert forall|k: int| 0 <= k < slots.len() implies slot_of(bytes, k) == slots[k] by {
            if k < front.len() {
                assert(bytes.subrange(4 * k, 4 * k + 4) =~= table_bytes(front).subrange(
                    4 * k,
                    4 * k + 4,
                ));
                assert(slots_of(table_bytes(front))[k] == front[k]);
            } else {
                assert(bytes.subrange(4 * k, 4 * k + 4) =~= le_bytes(slots.last()));
            }
        }
        assert(slots_of(bytes) =~= slots);
    } else {
        assert(slots_of(table_bytes(slots)) =~= slots);
    }
}

/// The header of a file reads back, whatever follows it.
pub proof fn lemma_header_reads_back(table_offset: u32, table_len: u32, rest: Seq<u8>)
    ensures
        header_of(header_bytes(table_offset, table_len) + rest) == (Header {
            table_offset,
            table_len,
        }),
        header_bytes(table_offset, table_len).len() == HEADER_LEN,
{
    let file = header_bytes(table_offset, table_len) + rest;
    lemma_le_round_trip(table_offset);
    lemma_le_round_trip(table_len);
    assert(file.subrange(0, 4) =~= le_bytes(table_offset));
    assert(file.subrange(4, 8) =~= le_bytes(table_len));
}

/// A look at a place where a record stands finds the record: a hit with its
/// value for its own key, another key for every other.
pub proof fn lemma_probe_finds_record(
    file: Seq<u8>,
    end: int,
    off: int,
    key: Seq<u8>,
    value: Seq<u8>,
    asked: Seq<u8>,
)
    requires
        0 <= off,
        off + record_size(key, value) <= end <= file.len(),
        key.len() <= u32::MAX,
        value.len() <= u32::MAX,
        file.subrange(off, off + record_size(key, value)) == record_bytes(key, value),
    ensures
        probe(file, end, off, asked) == if asked == key {
            Probe::Hit(value)
        } else {
            Probe::Mismatch
        },
{
    let record = record_bytes(key, value);
    let key_len = key.len() as int;
    let value_len = value.len() as int;
    lemma_le_round_trip(key.len() as u32);
    lemma_le_round_trip(value.len() as u32);
    assert(file.subrange(off, off + 4) =~= record.subrange(0, 4));
    assert(record.subrange(0, 4) =~= le_bytes(key.len() as u32));
    assert(file.subrange(off + 4, off + 4 + key_len) =~= record.subrange(4, 4 + key_len));
    assert(record.subrange(4, 4 + key_len) =~= key);
    assert(file.subrange(off + 4 + key_len, off + 8 + key_len) =~= record.subrange(
        4 + key_len,
        8 + key_len,
    ));
    assert(record.subrange(4 + key_len, 8 + key_len) =~= le_bytes(value.len() as u32));
    assert(file.subrange(off + 8 + key_len, off + 8 + key_len + value_len) =~= record.subrange(
        8 + key_len,
        8 + key_len + value_len,
    ));
    assert(record.subrange(8 + key_len, 8 + key_len + value_len) =~= value);
}

/// Record `i` of a file stands at its offset, before the table.
pub proof fn lemma_image_holds_record(records: Seq<Record>, slots: Seq<u32>, i: int)
    requires
        0 <= i < records.len(),
    ensures
        HEADER_LEN <= record_offset(records, i),
        record_offset(records, i) + record_size(records[i].key, records[i].value) <= HEADER_LEN
            + records_size(records) <= file_image(records, slots).len(),
        file_image(records, slots).subrange(
            record_offset(records, i),
            record_offset(records, i) + record_size(records[i].key, records[i].value),
        ) == record_bytes(records[i].key, records[i].value),
{
    let file = file_image(records, slots);
    let from = record_offset(records, i);
    let to = from + record_size(records[i].key, records[i].value);
    let header = header_bytes((HEADER_LEN + records_size(records)) as u32, slots.len() as u32);
    lemma_records_len(records);
    lemma_records_size_grows(records, i);
    lemma_record_stands(records, i);
    assert(header.len() == 8);
    assert(file == (header + records_bytes(records)) + table_bytes(slots));
    lemma_part_of_front(header + records_bytes(records), table_bytes(slots), from, to);
    lemma_part_of_back(header, records_bytes(records), from - 8, to - 8);
}

/// The table of a file stands after the records and reads back.
pub proof fn lemma_image_holds_table(records: Seq<Record>, slots: Seq<u32>)
    ensures
        file_image(records, slots).len() == HEADER_LEN + records_size(records) + 4 * slots.len(),
        slots_of(
            file_image(records, slots).subrange(
                HEADER_LEN + records_size(records),
                HEADER_LEN + records_size(records) + 4 * slots.len(),
            ),
        ) == slots,
{
    let file = file_image(records, slots);
    let from = HEADER_LEN + records_size(records);
    let front = header_bytes((HEADER_LEN + records_size(records)) as u32, slots.len() as u32)
        + records_bytes(records);
    lemma_records_len(records);
    lemma_table_reads_back(slots);
    assert(front.len() == from);
    lemma_part_of_back(front, table_bytes(slots), 0, 4 * slots.len() as int);
    assert(table_bytes(slots).subrange(0, 4 * slots.len() as int) =~= table_bytes(slots));
}

} // verus!
