use rokv::format::{parse_header, parse_table, FormatError, Header};
use rokv::sync_read::{Step, WriteError, Writer};
use rokv::{farmhash_fingerprint, mmap, split_halves, sync_read};

fn build(records: &[(&[u8], &[u8])]) -> Result<Vec<u8>, WriteError> {
    let mut file = vec![0u8; 8];
    let mut w = Writer::new();
    for (key, value) in records {
        file.extend(w.append(key, value)?);
    }
    let trailer = w.finish()?;
    file.extend_from_slice(&trailer.table);
    file[..8].copy_from_slice(&trailer.header);
    Ok(file)
}

fn open_piecewise(file: &[u8]) -> Result<sync_read::Reader, FormatError> {
    let header = parse_header(&file[..8.min(file.len())])?;
    let start = (header.table_offset as usize).min(file.len());
    let end = (start + 4 * header.table_len as usize).min(file.len());
    sync_read::Reader::new(header, &file[start..end])
}

fn both(file: &[u8], key: &[u8]) -> Option<Vec<u8>> {
    let whole = mmap::Reader::new(file).unwrap().read(key).unwrap();
    let piecewise = open_piecewise(file).unwrap().read(file, key).unwrap();
    assert_eq!(whole, piecewise);
    whole
}

fn u32_at(file: &[u8], at: usize) -> u32 {
    u32::from_le_bytes([file[at], file[at + 1], file[at + 2], file[at + 3]])
}

struct Lcg(u64);

impl Lcg {
    fn next(&mut self) -> u64 {
        self.0 = self
            .0
            .wrapping_mul(6364136223846793005)
            .wrapping_add(1442695040888963407);
        self.0 >> 33
    }
}

#[test]
fn fingerprint_is_the_two_halves_of_the_farmhash_fingerprint() {
    let h = farmhash::fingerprint64(b"hello world");
    assert_eq!(h, 6381520714923946011);
    assert_eq!(
        farmhash_fingerprint(b"hello world"),
        ((h & 0xFFFF_FFFF) as u32, (h >> 32) as u32)
    );
    assert_eq!(split_halves(0x0123_4567_89AB_CDEF), (0x89AB_CDEF, 0x0123_4567));
}

#[test]
fn record_is_two_length_prefixed_strings() {
    let mut w = Writer::new();
    let bytes = w.append(b"hello", b"worlds").unwrap();
    assert_eq!(
        bytes,
        [&[5u8, 0, 0, 0][..], b"hello", &[6, 0, 0, 0], b"worlds"].concat()
    );
    let bytes = w.append(&[7u8; 0x0102], b"").unwrap();
    assert_eq!(&bytes[..4], &[2, 1, 0, 0]);
    assert_eq!(&bytes[4 + 0x0102..], &[0, 0, 0, 0]);
}

#[test]
fn miss_only_file() {
    let file = build(&[(b"a", b"1"), (b"b", b"2"), (b"c", b"3")]).unwrap();
    assert_eq!(both(&file, b"d"), None);
    assert_eq!(both(&file, b"a"), Some(b"1".to_vec()));
}

#[test]
fn header_points_at_the_table() {
    let records: Vec<(Vec<u8>, Vec<u8>)> = (0..5)
        .map(|i| (format!("key-{}", i).into_bytes(), format!("value-{}", i * 7).into_bytes()))
        .collect();
    let borrowed: Vec<(&[u8], &[u8])> =
        records.iter().map(|(k, v)| (&k[..], &v[..])).collect();
    let file = build(&borrowed).unwrap();

    let table_offset = u32_at(&file, 0) as usize;
    let table_len = u32_at(&file, 4) as usize;
    assert_eq!(table_offset, 8 + records.iter().map(|(k, v)| k.len() + v.len() + 8).sum::<usize>());
    assert!(table_len >= 2 * records.len());
    assert_eq!(file.len(), table_offset + 4 * table_len);

    let mut at = 8;
    let mut offsets = Vec::new();
    for (key, value) in &records {
        offsets.push(at as u32);
        assert_eq!(u32_at(&file, at) as usize, key.len());
        assert_eq!(&file[at + 4..at + 4 + key.len()], &key[..]);
        at += 4 + key.len();
        assert_eq!(u32_at(&file, at) as usize, value.len());
        assert_eq!(&file[at + 4..at + 4 + value.len()], &value[..]);
        at += 4 + value.len();
    }
    assert_eq!(at, table_offset);

    let mut slots: Vec<u32> = (0..table_len)
        .map(|k| u32_at(&file, table_offset + 4 * k))
        .filter(|&slot| slot != 0)
        .collect();
    slots.sort();
    assert_eq!(slots, offsets);
}

#[test]
fn empty_key_and_empty_value_round_trip() {
    let file = build(&[(b"", b"nothing"), (b"void", b""), (b"x", b"y")]).unwrap();
    assert_eq!(both(&file, b""), Some(b"nothing".to_vec()));
    assert_eq!(both(&file, b"void"), Some(Vec::new()));
    assert_eq!(both(&file, b"x"), Some(b"y".to_vec()));
    assert_eq!(both(&file, b"y"), None);
}

#[test]
fn any_bytes_round_trip() {
    let all: Vec<u8> = (0..=255).collect();
    let file = build(&[
        (&[0, 0, 0, 0], &[0xFF, 0x00, 0x80]),
        (&[0], &all),
        (&all, &[0]),
        (&[0xFF, 0xFE], &[]),
    ])
    .unwrap();
    assert_eq!(both(&file, &[0, 0, 0, 0]), Some(vec![0xFF, 0x00, 0x80]));
    assert_eq!(both(&file, &[0]), Some(all.clone()));
    assert_eq!(both(&file, &all), Some(vec![0]));
    assert_eq!(both(&file, &[0xFF, 0xFE]), Some(Vec::new()));
    assert_eq!(both(&file, &[0, 0]), None);
}

#[test]
fn file_without_records_answers_nothing() {
    let file = build(&[]).unwrap();
    assert_eq!(file, vec![8, 0, 0, 0, 0, 0, 0, 0]);
    assert_eq!(both(&file, b"anything"), None);
    assert_eq!(both(&file, b""), None);
}

#[test]
fn a_key_twice_is_found_and_thrice_fails() {
    let file = build(&[(b"hello", b"a"), (b"hello", b"b")]).unwrap();
    assert!(both(&file, b"hello").is_some());
    let err = build(&[(b"x", b"0"), (b"hello", b"a"), (b"hello", b"b"), (b"hello", b"c")])
        .unwrap_err();
    match err {
        WriteError::Placement(e) => {
            assert_eq!(e.attempts.len(), 4);
            assert!(e.attempts.iter().all(|a| a.index == 3));
        }
        WriteError::TooLarge => panic!("the file is small"),
    }
}

#[test]
fn readers_agree_on_random_keys() {
    let mut rng = Lcg(42);
    let mut keys: Vec<Vec<u8>> = Vec::new();
    while keys.len() < 1000 {
        let len = (rng.next() % 24) as usize;
        let key: Vec<u8> = (0..len).map(|_| rng.next() as u8).collect();
        if !keys.contains(&key) {
            keys.push(key);
        }
    }
    let values: Vec<Vec<u8>> = keys
        .iter()
        .map(|_| (0..rng.next() % 40).map(|_| rng.next() as u8).collect())
        .collect();
    let records: Vec<(&[u8], &[u8])> =
        keys.iter().zip(&values).map(|(k, v)| (&k[..], &v[..])).collect();
    let file = build(&records).unwrap();

    let mut whole = mmap::Reader::new(&file).unwrap();
    let mut piecewise = open_piecewise(&file).unwrap();
    for (key, value) in keys.iter().zip(&values) {
        assert_eq!(whole.read(key).unwrap().as_ref(), Some(value));
        assert_eq!(piecewise.read(&file, key).unwrap().as_ref(), Some(value));
    }
    for _ in 0..1000 {
        let key: Vec<u8> = (0..25 + rng.next() % 8).map(|_| rng.next() as u8).collect();
        assert_eq!(whole.read(&key).unwrap(), None);
        assert_eq!(piecewise.read(&file, &key).unwrap(), None);
    }
}

#[test]
fn million_record_stress() {
    let mut file = vec![0u8; 8];
    let mut w = Writer::new();
    for i in 0..1_000_000 {
        file.extend(
            w.append(format!("key-{}", i).as_bytes(), format!("value-{}", i).as_bytes())
                .unwrap(),
        );
    }
    let trailer = w.finish().unwrap();
    file.extend_from_slice(&trailer.table);
    file[..8].copy_from_slice(&trailer.header);

    let mut whole = mmap::Reader::new(&file).unwrap();
    let mut piecewise = open_piecewise(&file).unwrap();
    let mut rng = Lcg(7);
    for _ in 0..10_000 {
        let i = rng.next() % 1_000_000;
        let key = format!("key-{}", i);
        let value = format!("value-{}", i).into_bytes();
        assert_eq!(whole.read(key.as_bytes()).unwrap().as_ref(), Some(&value));
        assert_eq!(piecewise.read(&file, key.as_bytes()).unwrap().as_ref(), Some(&value));
        let garbage = format!("garbage-{}", i);
        assert_eq!(whole.read(garbage.as_bytes()).unwrap(), None);
        assert_eq!(piecewise.read(&file, garbage.as_bytes()).unwrap(), None);
    }
}

#[test]
fn a_lookup_fetches_at_most_five_pieces_and_compares_two_keys() {
    let mut rng = Lcg(3);
    let keys: Vec<String> = (0..200).map(|i| format!("k{}", i)).collect();
    let records: Vec<(&[u8], &[u8])> =
        keys.iter().map(|k| (k.as_bytes(), &b"v"[..])).collect();
    let file = build(&records).unwrap();
    let reader = open_piecewise(&file).unwrap();
    let mut most_keys = 0;
    for _ in 0..2000 {
        let key = format!("k{}", rng.next() % 400);
        let mut step = reader.begin(key.as_bytes()).unwrap();
        let mut fetched = 0;
        let mut keys_read = 0;
        while let Step::Fetch(fetch) = step {
            fetched += 1;
            if fetch.stage == sync_read::Stage::Key {
                keys_read += 1;
            }
            let from = fetch.at as usize;
            step = reader
                .resume(key.as_bytes(), fetch, &file[from..from + fetch.len as usize])
                .unwrap();
        }
        assert!(fetched <= 5 && keys_read <= 2);
        most_keys = most_keys.max(keys_read);
    }
    assert_eq!(most_keys, 2);
}

#[test]
fn files_that_are_not_valid_do_not_open() {
    let good = build(&[(b"a", b"1"), (b"b", b"2")]).unwrap();
    let error = |file: &[u8]| mmap::Reader::new(file).err();

    assert_eq!(error(&good), None);
    assert_eq!(error(&good[..7]), Some(FormatError::TruncatedHeader));
    assert_eq!(error(&[]), Some(FormatError::TruncatedHeader));
    assert_eq!(error(&good[..good.len() - 1]), Some(FormatError::TruncatedTable));

    let mut bad = good.clone();
    bad[0] = 7;
    assert_eq!(error(&bad), Some(FormatError::BadTableOffset));

    let mut bad = good.clone();
    bad[4] += 1;
    assert_eq!(error(&bad), Some(FormatError::TruncatedTable));

    let table_offset = u32_at(&good, 0) as usize;
    let mut bad = good.clone();
    bad[table_offset..table_offset + 4].copy_from_slice(&(table_offset as u32).to_le_bytes());
    assert_eq!(error(&bad), Some(FormatError::BadSlot));
    bad[table_offset..table_offset + 4].copy_from_slice(&7u32.to_le_bytes());
    assert_eq!(error(&bad), Some(FormatError::BadSlot));
    assert_eq!(open_piecewise(&bad).err(), Some(FormatError::BadSlot));
}

#[test]
fn header_and_table_are_checked_when_read_in_parts() {
    assert_eq!(parse_header(&[9, 0, 0, 0, 2, 1, 0, 0]), Ok(Header { table_offset: 9, table_len: 258 }));
    assert_eq!(parse_header(&[9, 0, 0, 0, 2, 1, 0]), Err(FormatError::TruncatedHeader));
    assert_eq!(parse_header(&[7, 0, 0, 0, 0, 0, 0, 0]), Err(FormatError::BadTableOffset));

    let header = Header { table_offset: 20, table_len: 2 };
    assert_eq!(parse_table(header, &[8, 0, 0, 0, 0, 0, 0, 0]), Ok(vec![8, 0]));
    assert_eq!(parse_table(header, &[19, 0, 0, 0, 0, 1, 0, 0]), Err(FormatError::BadSlot));
    assert_eq!(parse_table(header, &[20, 0, 0, 0, 0, 0, 0, 0]), Err(FormatError::BadSlot));
    assert_eq!(parse_table(header, &[8, 0, 0, 0]), Err(FormatError::TruncatedTable));
    assert_eq!(
        parse_table(Header { table_offset: 3, table_len: 0 }, &[]),
        Err(FormatError::BadTableOffset)
    );
}

#[test]
fn records_that_run_past_the_table_are_malformed() {
    let good = build(&[(b"hello", b"world")]).unwrap();
    // The record begins at 8: key length at 8, key at 12, value length at 17.
    let mut long_key = good.clone();
    long_key[8] = 200;
    assert_eq!(
        mmap::Reader::new(&long_key).unwrap().read(b"hello"),
        Err(FormatError::BadRecord)
    );
    assert_eq!(
        open_piecewise(&long_key).unwrap().read(&long_key, b"hello"),
        Err(FormatError::BadRecord)
    );

    let mut long_value = good.clone();
    long_value[17] = 6;
    assert_eq!(
        mmap::Reader::new(&long_value).unwrap().read(b"hello"),
        Err(FormatError::BadRecord)
    );
    assert_eq!(
        open_piecewise(&long_value).unwrap().read(&long_value, b"hello"),
        Err(FormatError::BadRecord)
    );
}

#[test]
fn a_source_that_ends_early_is_an_error() {
    let file = build(&[(b"hello", b"world")]).unwrap();
    let mut reader = open_piecewise(&file).unwrap();
    assert_eq!(reader.read(&file[..20], b"hello"), Err(FormatError::UnexpectedEof));
    assert_eq!(reader.read(&file[..10], b"hello"), Err(FormatError::UnexpectedEof));

    let step = reader.begin(b"hello").unwrap();
    let fetch = match step {
        Step::Fetch(fetch) => fetch,
        other => panic!("{:?}", other),
    };
    assert_eq!(reader.resume(b"hello", fetch, &file[8..11]), Err(FormatError::UnexpectedEof));
    assert_eq!(reader.resume(b"hello", fetch, &file[8..13]), Err(FormatError::UnexpectedEof));
}
