//! What is written can be read: a lookup in the file that a writer produced
//! gives each key's value, and nothing for any other key.

use crate::cuckoo::{
    first_placement, homes, is_cuckoo_table, lemma_first_placement_seats_all,
    lemma_three_way_collision_fails, placement, Entry,
};
use crate::fingerprint;
use crate::format::{
    candidates, lookup, open_file, probe, probe_slot, record_offset, records_size, FormatError,
    Header, Probe, Record, HEADER_LEN,
};
use crate::layout::{
    lemma_header_reads_back, lemma_image_holds_record, lemma_image_holds_table,
    lemma_probe_finds_record, lemma_records_len,
};
use crate::sync_read::{
    index_caps, index_cells, index_slots, lemma_size_bounds_count, log_of, slots_from, written,
};
use vstd::prelude::*;

verus! {

/// No two records have the same key.
pub open spec fn keys_distinct(records: Seq<Record>) -> bool {
    forall|i: int, j: int|
        0 <= i < j < records.len() ==> (#[trigger] records[i]).key != (#[trigger] records[j]).key
}

/// No record has this key.
pub open spec fn key_absent(records: Seq<Record>, key: Seq<u8>) -> bool {
    forall|i: int| 0 <= i < records.len() ==> (#[trigger] records[i]).key != key
}

/// In the index of a file that was written, every slot is free or holds
/// the offset of a record, and the offset of every record stands in the slot
/// that one of the two hashes of its key names.
pub proof fn lemma_index_points_at_records(records: Seq<Record>)
    requires
        written(records) is Some,
    ensures
        index_slots(records) matches Some(slots) && {
            &&& records.len() > 0 ==> slots.len() > 0
            &&& forall|c: int|
                0 <= c < slots.len() ==> #[trigger] slots[c] == 0 || exists|j: int|
                    0 <= j < records.len() && slots[c] == #[trigger] record_offset(records, j)
            &&& forall|i: int|
                0 <= i < records.len() ==> {
                    let hashes = fingerprint((#[trigger] records[i]).key);
                    ||| slots[hashes.0 as int % slots.len() as int] == record_offset(records, i)
                    ||| slots[hashes.1 as int % slots.len() as int] == record_offset(records, i)
                }
        },
{
    let n = records.len();
    let log = log_of(records);
    let caps = index_caps(n);
    let cells = index_cells(records).unwrap();
    let slots = slots_from(cells, log);
    lemma_size_bounds_count(records);
    lemma_first_placement_seats_all(log, caps, 0);
    assert(is_cuckoo_table(log, cells));
    assert forall|j: int| 0 <= j < n implies HEADER_LEN <= #[trigger] record_offset(records, j)
        <= u32::MAX by {
        lemma_image_holds_record(records, slots, j);
    }
    assert forall|c: int| 0 <= c < slots.len() implies #[trigger] slots[c] == 0 || exists|j: int|
        0 <= j < records.len() && slots[c] == #[trigger] record_offset(records, j) by {
        if let Some(j) = cells[c] {
            assert(slots[c] == record_offset(records, j as int));
        }
    }
    assert forall|i: int| 0 <= i < records.len() implies {
        let hashes = fingerprint((#[trigger] records[i]).key);
        ||| slots[hashes.0 as int % slots.len() as int] == record_offset(records, i)
        ||| slots[hashes.1 as int % slots.len() as int] == record_offset(records, i)
    } by {
        let hashes = fingerprint(records[i].key);
        assert(log[i].h1_spec() == hashes.0);
        assert(log[i].h2_spec() == hashes.1);
        let c1 = log[i].h1_spec() as int % cells.len() as int;
        let c2 = log[i].h2_spec() as int % cells.len() as int;
        assert(cells[c1] == Some(i as usize) || cells[c2] == Some(i as usize));
        assert(log[i].offset == record_offset(records, i));
    }
}

/// Load factor: the index of a file that was written has two, three, four or
/// five slots for each record, so at least twice as many slots as records.
pub proof fn lemma_index_has_room(records: Seq<Record>)
    requires
        written(records) is Some,
    ensures
        index_slots(records) matches Some(slots) && {
            ||| slots.len() == 2 * records.len()
            ||| slots.len() == 3 * records.len()
            ||| slots.len() == 4 * records.len()
            ||| slots.len() == 5 * records.len()
        },
{
    lemma_size_bounds_count(records);
    lemma_first_placement_seats_all(log_of(records), index_caps(records.len()), 0);
}

/// Format stability: a file that was written opens, as the table that
/// was written, at the offset where the records end.
pub proof fn lemma_written_opens(records: Seq<Record>)
    requires
        written(records) is Some,
    ensures
        index_slots(records) matches Some(slots) && open_file(written(records).unwrap()) == Ok::<
            (Header, Seq<u32>),
            FormatError,
        >(
            (
                Header {
                    table_offset: (HEADER_LEN + records_size(records)) as u32,
                    table_len: slots.len() as u32,
                },
                slots,
            ),
        ),
{
    let slots = index_slots(records).unwrap();
    let file = written(records).unwrap();
    let end = (HEADER_LEN + records_size(records)) as u32;
    lemma_records_len(records);
    lemma_image_holds_table(records, slots);
    lemma_header_reads_back(
        end,
        slots.len() as u32,
        crate::format::records_bytes(records) + crate::format::table_bytes(slots),
    );
    assert(file =~= crate::format::header_bytes(end, slots.len() as u32) + (
    crate::format::records_bytes(records) + crate::format::table_bytes(slots)));
    lemma_index_points_at_records(records);
    assert forall|c: int| 0 <= c < slots.len() implies crate::format::slot_ok(
        #[trigger] slots[c],
        end,
    ) by {
        if slots[c] != 0 {
            let j = choose|j: int|
                0 <= j < records.len() && slots[c] == #[trigger] record_offset(records, j);
            lemma_image_holds_record(records, slots, j);
        }
    }
}

/// In a file that was written, a look at the record that a slot points
/// at finds the record's value for the record's key, and another key for
/// every other.
pub proof fn lemma_probe_in_written(records: Seq<Record>, j: int, asked: Seq<u8>)
    requires
        written(records) is Some,
        0 <= j < records.len(),
    ensures
        record_offset(records, j) != 0,
        probe(
            written(records).unwrap(),
            HEADER_LEN + records_size(records),
            record_offset(records, j),
            asked,
        ) == if asked == records[j].key {
            Probe::Hit(records[j].value)
        } else {
            Probe::Mismatch
        },
{
    let slots = index_slots(records).unwrap();
    lemma_image_holds_record(records, slots, j);
    lemma_probe_finds_record(
        written(records).unwrap(),
        HEADER_LEN + records_size(records),
        record_offset(records, j),
        records[j].key,
        records[j].value,
        asked,
    );
}

/// A slot is free or holds the offset of a record.
pub open spec fn points_at_record(records: Seq<Record>, slot: u32) -> bool {
    slot == 0 || exists|j: int|
        0 <= j < records.len() && slot == #[trigger] record_offset(records, j)
}

/// In a file that was written, a look at the record that a slot points at
/// gives the value of the record for the key of the record, and finds another key
/// where no record has the key that is asked for, or the one that has it stands
/// elsewhere.
pub proof fn lemma_slot_in_written(records: Seq<Record>, slot: u32, asked: Seq<u8>, i: int)
    requires
        written(records) is Some,
        points_at_record(records, slot),
        0 <= i < records.len() ==> keys_distinct(records) && records[i].key == asked,
        !(0 <= i < records.len()) ==> key_absent(records, asked),
    ensures
        probe_slot(written(records).unwrap(), HEADER_LEN + records_size(records), slot, asked)
            == if 0 <= i < records.len() && slot == record_offset(records, i) {
            Probe::Hit(records[i].value)
        } else {
            Probe::Mismatch
        },
{
    if 0 <= i < records.len() {
        lemma_probe_in_written(records, i, asked);
    }
    if slot != 0 {
        let j = choose|j: int|
            0 <= j < records.len() && slot == #[trigger] record_offset(records, j);
        lemma_probe_in_written(records, j, asked);
        if 0 <= i < records.len() && j != i {
            if j < i {
                assert(records[j].key != records[i].key);
            } else {
                assert(records[i].key != records[j].key);
            }
        }
    }
}

/// In the index of a file that was written, each of the two slots of a key
/// is free or holds the offset of a record, and the offset of the record
/// that has the key stands in one of them.
pub proof fn lemma_candidates_in_written(records: Seq<Record>, key: Seq<u8>, i: int)
    requires
        written(records) is Some,
        records.len() > 0,
        0 <= i < records.len() ==> records[i].key == key,
    ensures
        index_slots(records) matches Some(slots) && {
            &&& slots.len() > 0
            &&& points_at_record(records, candidates(slots, key).0)
            &&& points_at_record(records, candidates(slots, key).1)
            &&& 0 <= i < records.len() ==> {
                ||| candidates(slots, key).0 == record_offset(records, i)
                ||| candidates(slots, key).1 == record_offset(records, i)
            }
        },
{
    let slots = index_slots(records).unwrap();
    lemma_index_points_at_records(records);
    let hashes = fingerprint(key);
    let c1 = hashes.0 as int % slots.len() as int;
    let c2 = hashes.1 as int % slots.len() as int;
    assert(candidates(slots, key).0 == slots[c1]);
    assert(candidates(slots, key).1 == slots[c2]);
    if 0 <= i < records.len() {
        assert(fingerprint(records[i].key) == hashes);
    }
}

/// The answer of a lookup, from what a look at each of the key's two slots gives.
pub proof fn lemma_lookup_by_probes(file: Seq<u8>, end: int, table: Seq<u32>, key: Seq<u8>)
    requires
        table.len() > 0,
    ensures
        lookup(file, end, table, key) == match probe_slot(
            file,
            end,
            candidates(table, key).0,
            key,
        ) {
            Probe::Hit(value) => Ok::<Option<Seq<u8>>, FormatError>(Some(value)),
            Probe::Malformed => Err::<Option<Seq<u8>>, FormatError>(FormatError::BadRecord),
            Probe::Mismatch => match probe_slot(file, end, candidates(table, key).1, key) {
                Probe::Hit(value) => Ok::<Option<Seq<u8>>, FormatError>(Some(value)),
                Probe::Malformed => Err::<Option<Seq<u8>>, FormatError>(FormatError::BadRecord),
                Probe::Mismatch => Ok::<Option<Seq<u8>>, FormatError>(None),
            },
        },
{
}

/// Round trip: in the file that comes of writing records with distinct
/// keys, in whatever order, a lookup of the key of any of them gives its
/// value. Keys and values are any byte strings, the empty one among them.
pub proof fn lemma_round_trip(records: Seq<Record>, i: int)
    requires
        keys_distinct(records),
        written(records) is Some,
        0 <= i < records.len(),
    ensures
        open_file(written(records).unwrap()) matches Ok((header, table)) && lookup(
            written(records).unwrap(),
            header.table_offset as int,
            table,
            records[i].key,
        ) == Ok::<Option<Seq<u8>>, FormatError>(Some(records[i].value)),
{
    let file = written(records).unwrap();
    let slots = index_slots(records).unwrap();
    let end = HEADER_LEN + records_size(records);
    let key = records[i].key;
    lemma_written_opens(records);
    lemma_candidates_in_written(records, key, i);
    lemma_slot_in_written(records, candidates(slots, key).0, key, i);
    lemma_slot_in_written(records, candidates(slots, key).1, key, i);
    lemma_lookup_by_probes(file, end, slots, key);
}

/// Round trip: in a file that was written, a lookup of a key that no
/// record has gives nothing.
pub proof fn lemma_absent_key_misses(records: Seq<Record>, key: Seq<u8>)
    requires
        written(records) is Some,
        key_absent(records, key),
    ensures
        open_file(written(records).unwrap()) matches Ok((header, table)) && lookup(
            written(records).unwrap(),
            header.table_offset as int,
            table,
            key,
        ) == Ok::<Option<Seq<u8>>, FormatError>(None),
{
    let file = written(records).unwrap();
    let slots = index_slots(records).unwrap();
    let end = HEADER_LEN + records_size(records);
    lemma_written_opens(records);
    if slots.len() > 0 {
        if records.len() > 0 {
            lemma_candidates_in_written(records, key, -1);
        } else {
            lemma_index_points_at_records(records);
        }
        lemma_slot_in_written(records, candidates(slots, key).0, key, -1);
        lemma_slot_in_written(records, candidates(slots, key).1, key, -1);
        lemma_lookup_by_probes(file, end, slots, key);
    }
}

/// Three records with one key cannot be indexed: the writer that took them
/// in fails when it finishes.
pub proof fn lemma_key_thrice_fails(records: Seq<Record>, a: int, b: int, c: int)
    requires
        0 <= a < b < c < records.len(),
        records[a].key == records[b].key,
        records[b].key == records[c].key,
        HEADER_LEN + records_size(records) <= u32::MAX,
    ensures
        written(records) is None,
{
    let log = log_of(records);
    let caps = index_caps(records.len());
    lemma_size_bounds_count(records);
    assert forall|k: int| 0 <= k < 4 implies placement(
        homes(log, #[trigger] caps[k] as int),
        caps[k] as nat,
    ) is Err by {
        lemma_three_way_collision_fails(log, caps[k] as nat, a, b, c);
    }
    assert(first_placement(log, caps, 4) is None);
    assert(first_placement(log, caps, 3) is None);
    assert(first_placement(log, caps, 2) is None);
    assert(first_placement(log, caps, 1) is None);
}

} // verus!
