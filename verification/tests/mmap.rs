use rokv::mmap::Reader;
use rokv::sync_read::Writer;

#[test]
fn mmap_smoke_test() {
    let mut file = vec![0u8; 8];
    {
        let mut w = Writer::new();
        file.extend(w.append(b"hello", b"world").unwrap());
        let trailer = w.finish().unwrap();
        file.extend_from_slice(&trailer.table);
        file[..8].copy_from_slice(&trailer.header);
    }

    let mut r = Reader::new(&file).unwrap();
    assert_eq!(r.read(b"hello").unwrap(), Some(b"world".to_vec()));
    assert_eq!(r.read(b"foo").unwrap(), None);
}
