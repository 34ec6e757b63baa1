//! The reader over a file that lies in memory as a whole, such as a mapped one.

use crate::farmhash_fingerprint;
use crate::format::{
    answer_view, bytes_equal, lookup, open_file, parse_header, parse_table, probe, read_u32_le,
    FormatError, Header, Probe,
};
use vstd::prelude::*;
use vstd::slice::{slice_subrange, slice_to_vec};

verus! {

/// Answers lookups from the bytes of a file.
pub struct Reader<'a> {
    buf: &'a [u8],
    table_offset: u32,
    table: Vec<u32>,
}

/// What a look at one record gives, as the reader returns it.
pub open spec fn probe_view(res: Result<Option<Vec<u8>>, FormatError>) -> Probe {
    match res {
        Ok(Some(value)) => Probe::Hit(value@),
        Ok(None) => Probe::Mismatch,
        Err(_) => Probe::Malformed,
    }
}

impl<'a> Reader<'a> {
    /// The bytes of the file.
    pub closed spec fn file(&self) -> Seq<u8> {
        self.buf@
    }

    /// Where the records end and the table begins.
    pub closed spec fn table_offset(&self) -> u32 {
        self.table_offset
    }

    /// The slots of the table.
    pub closed spec fn table(&self) -> Seq<u32> {
        self.table@
    }

    /// The reader holds what opening its file gives.
    pub open spec fn wf(&self) -> bool {
        &&& open_file(self.file()) matches Ok((header, slots))
        &&& header.table_offset == self.table_offset()
        &&& slots == self.table()
    }

    /// Opens a file given by its bytes: reads the header and copies the
    /// table out. Fails where the file is not valid.
    pub fn new(buf: &'a [u8]) -> (res: Result<Reader<'a>, FormatError>)
        ensures
            match res {
                Ok(reader) => reader.wf() && reader.file() == buf@,
                Err(e) => open_file(buf@) == Err::<(Header, Seq<u32>), FormatError>(e),
            },
    {
        let header = match parse_header(buf) {
            Ok(header) => header,
            Err(e) => {
                return Err(e);
            },
        };
        let start = header.table_offset as usize;
        if start > buf.len() || header.table_len as u64 > ((buf.len() - start) as u64) / 4 {
            return Err(FormatError::TruncatedTable);
        }
        let size = 4 * (header.table_len as usize);
        let table = match parse_table(header, slice_subrange(buf, start, start + size)) {
            Ok(table) => table,
            Err(e) => {
                return Err(e);
            },
        };
        Ok(Reader { buf, table_offset: header.table_offset, table })
    }

    /// Looks `key` up: the value of its record, `None` where the file holds
    /// no record with this key, an error where a record that had to be looked
    /// at is malformed. At most two slots and two records are looked at.
    pub fn read(&mut self, key: &[u8]) -> (res: Result<Option<Vec<u8>>, FormatError>)
        requires
            old(self).wf(),
        ensures
            *final(self) == *old(self),
            answer_view(res) == lookup(
                old(self).file(),
                old(self).table_offset() as int,
                old(self).table(),
                key@,
            ),
    {
        if self.table.len() == 0 {
            return Ok(None);
        }
        let (h1, h2) = farmhash_fingerprint(key);
        let s1 = self.table[h1 as usize % self.table.len()];
        if s1 > 0 {
            match self.try_read(key, s1) {
                Ok(Some(v)) => {
                    return Ok(Some(v));
                },
                Ok(None) => {},
                Err(e) => {
                    return Err(e);
                },
            }
        }
        let s2 = self.table[h2 as usize % self.table.len()];
        if s2 > 0 {
            match self.try_read(key, s2) {
                Ok(Some(v)) => {
                    return Ok(Some(v));
                },
                Ok(None) => {},
                Err(e) => {
                    return Err(e);
                },
            }
        }
        Ok(None)
    }

    /// Looks at the record at `offset`: its value where it holds `key`,
    /// `None` where it holds another key.
    fn try_read(&self, key: &[u8], offset: u32) -> (res: Result<Option<Vec<u8>>, FormatError>)
        requires
            self.wf(),
        ensures
            probe_view(res) == probe(self.file(), self.table_offset() as int, offset as int, key@),
            res matches Err(e) ==> e == FormatError::BadRecord,
    {
        let end = self.table_offset as usize;
        let at = offset as usize;
        if at > end || end - at < 4 {
            return Err(FormatError::BadRecord);
        }
        let key_len = read_u32_le(slice_subrange(self.buf, at, at + 4)) as usize;
        assert(self.buf@.subrange(at as int, at + 4).subrange(0, 4) == self.buf@.subrange(
            at as int,
            at + 4,
        ));
        let key_at = at + 4;
        if end - key_at < key_len {
            return Err(FormatError::BadRecord);
        }
        let value_len_at = key_at + key_len;
        if !bytes_equal(slice_subrange(self.buf, key_at, value_len_at), key) {
            return Ok(None);
        }
        if end - value_len_at < 4 {
            return Err(FormatError::BadRecord);
        }
        let value_len = read_u32_le(slice_subrange(self.buf, value_len_at, value_len_at + 4)) as usize;
        assert(self.buf@.subrange(value_len_at as int, value_len_at + 4).subrange(0, 4)
            == self.buf@.subrange(value_len_at as int, value_len_at + 4));
        let value_at = value_len_at + 4;
        if end - value_at < value_len {
            return Err(FormatError::BadRecord);
        }
        Ok(Some(slice_to_vec(slice_subrange(self.buf, value_at, value_at + value_len))))
    }
}

} // verus!
