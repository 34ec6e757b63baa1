use rokv::multihash::{Item, MultihashTable};

fn item(key: &str, hashes: &[u32]) -> Item {
    Item { key: key.to_string(), hashes: hashes.to_vec() }
}

#[test]
fn a_single_cell_holds_a_single_item() {
    let mut table = MultihashTable::new(1, 1, 1);
    assert!(table.insert(item("a", &[7])));
    assert!(!table.insert(item("b", &[9])));
    assert!(!table.insert(item("c", &[0])));
}

#[test]
fn items_fill_their_buckets_and_no_more() {
    // Three buckets of two cells; every item may sit in bucket 0 or 1.
    let mut table = MultihashTable::new(2, 2, 3);
    for key in ["a", "b", "c", "d"] {
        assert!(table.insert(item(key, &[3, 4])));
    }
    assert!(!table.insert(item("e", &[0, 1])));
    // Bucket 2 is still free for an item that may sit there.
    assert!(table.insert(item("f", &[0, 2])));
    assert!(table.insert(item("g", &[5, 5])));
    assert!(!table.insert(item("h", &[2, 2])));
}

#[test]
fn an_item_pushed_out_moves_to_its_other_bucket() {
    // Two buckets of one cell. "a" may sit in either and takes bucket 0;
    // "b" may only sit in bucket 0 and so has to push "a" over to bucket 1.
    let mut table = MultihashTable::new(2, 1, 2);
    assert!(table.insert(item("a", &[0, 1])));
    assert!(table.insert(item("b", &[0, 2])));
    assert!(!table.insert(item("c", &[0, 0])));
}
