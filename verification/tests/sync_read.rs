use rokv::format::{parse_header, FormatError};
use rokv::sync_read::{Reader, Step, WriteError, Writer};

fn finish_into(mut file: Vec<u8>, w: Writer) -> Result<Vec<u8>, WriteError> {
    let trailer = w.finish()?;
    file.extend_from_slice(&trailer.table);
    file[..8].copy_from_slice(&trailer.header);
    Ok(file)
}

fn open(file: &[u8]) -> Result<Reader, FormatError> {
    let header = parse_header(&file[..8])?;
    let start = header.table_offset as usize;
    let end = start + 4 * header.table_len as usize;
    Reader::new(header, &file[start..end])
}

#[test]
fn sync_read_smoke_test() {
    let mut file = vec![0u8; 8];
    let mut w = Writer::new();
    file.extend(w.append(b"hello", b"world").unwrap());
    let file = finish_into(file, w).unwrap();

    let mut r = open(&file).unwrap();
    assert_eq!(r.read(&file, b"hello").unwrap(), Some(b"world".to_vec()));
    assert_eq!(r.read(&file, b"foo").unwrap(), None);
}

#[test]
fn writer_fails_on_duplicate_keys() {
    // Cuckoo hashing can handle a single unreconcilable collision, but once
    // there are 3 duplicate items it will explode.
    let mut w = Writer::new();
    w.append(b"hello", b"a").unwrap();
    w.append(b"hello", b"b").unwrap();
    w.append(b"hello", b"c").unwrap();
    assert!(w.finish().is_err());
}

#[test]
fn writer_smoke_test() {
    let mut w = Writer::new();
    for i in 0..1_000_000 {
        w.append(
            format!("key-{}", i).as_bytes(),
            format!("value-{}", i).as_bytes(),
        )
        .unwrap();
    }
    w.finish().unwrap();
}

#[test]
fn lookup_asks_for_the_record_piece_by_piece() {
    let mut file = vec![0u8; 8];
    let mut w = Writer::new();
    file.extend(w.append(b"hello", b"world").unwrap());
    let file = finish_into(file, w).unwrap();
    let r = open(&file).unwrap();

    let mut step = r.begin(b"hello").unwrap();
    let mut asked = Vec::new();
    let found = loop {
        match step {
            Step::Fetch(fetch) => {
                asked.push((fetch.at, fetch.len));
                let from = fetch.at as usize;
                let bytes = &file[from..from + fetch.len as usize];
                step = r.resume(b"hello", fetch, bytes).unwrap();
            }
            other => break other,
        }
    };
    assert_eq!(asked, vec![(8, 4), (12, 5), (17, 4)]);
    assert_eq!(found, Step::Found { at: 21, len: 5 });
}
