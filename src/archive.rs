use vstd::prelude::*;
use crate::bytes::{le_i32, read_i32_le};
use crate::error::NwaError;
use crate::file::{spec_decode_file, NWAFile};

verus! {

/// One entry of an archive's index: where a sub-stream lies in the archive,
/// and its number.
#[derive(Clone, Copy, Debug, PartialEq, Eq, Structural)]
pub struct IndexEntry {
    pub size: i32,
    pub offset: i32,
    pub count: i32,
}

/// The entry whose fields (size, offset, number) start at byte `at`.
pub open spec fn entry_at(s: Seq<u8>, at: int) -> IndexEntry {
    IndexEntry {
        size: le_i32(s, at) as i32,
        offset: le_i32(s, at + 4) as i32,
        count: le_i32(s, at + 8) as i32,
    }
}

/// Reading the first `n` entries of an index whose entries are `entry_len`
/// bytes each and follow a four-byte entry count.
pub open spec fn parse_entries(s: Seq<u8>, entry_len: int, n: nat) -> Result<
    Seq<IndexEntry>,
    NwaError,
>
    decreases n,
{
    if n == 0 {
        Ok(Seq::empty())
    } else {
        match parse_entries(s, entry_len, (n - 1) as nat) {
            Err(e) => Err(e),
            Ok(v) => {
                let at = 4 + (n - 1) * entry_len;
                if s.len() < at + entry_len {
                    Err(NwaError::UnexpectedEof)
                } else if entry_at(s, at).offset <= 0 || entry_at(s, at).size <= 0 {
                    Err(NwaError::BadIndexEntry)
                } else {
                    Ok(v.push(entry_at(s, at)))
                }
            },
        }
    }
}

/// What reading the index at the start of an archive gives.
pub open spec fn spec_read_index(s: Seq<u8>, entry_len: int) -> Result<Seq<IndexEntry>, NwaError> {
    if s.len() < 4 {
        Err(NwaError::UnexpectedEof)
    } else if le_i32(s, 0) <= 0 {
        Err(NwaError::BadIndexCount)
    } else {
        parse_entries(s, entry_len, le_i32(s, 0) as nat)
    }
}

proof fn lemma_parse_entries_err_after(s: Seq<u8>, entry_len: int, a: nat, b: nat)
    requires
        a <= b,
        parse_entries(s, entry_len, a) is Err,
    ensures
        parse_entries(s, entry_len, b) == parse_entries(s, entry_len, a),
    decreases b - a,
{
    if a < b {
        lemma_parse_entries_err_after(s, entry_len, a, (b - 1) as nat);
    }
}

/// Reads an archive's index: a little-endian entry count, then that many
/// entries of `entry_len` bytes, each starting with its size, offset and
/// number. Every entry must have a positive offset and size.
pub fn read_index(archive: &[u8], entry_len: usize) -> (r: Result<Vec<IndexEntry>, NwaError>)
    requires
        12 <= entry_len,
    ensures
        match r {
            Ok(v) => spec_read_index(archive@, entry_len as int) == Ok::<
                Seq<IndexEntry>,
                NwaError,
            >(v@),
            Err(e) => spec_read_index(archive@, entry_len as int) == Err::<
                Seq<IndexEntry>,
                NwaError,
            >(e),
        },
{
    if archive.len() < 4 {
        return Err(NwaError::UnexpectedEof);
    }
    let count = read_i32_le(archive, 0);
    if count <= 0 {
        return Err(NwaError::BadIndexCount);
    }
    let mut index: Vec<IndexEntry> = Vec::new();
    let mut i: i32 = 0;
    let len = archive.len();
    while i < count
        invariant
            0 <= i <= count,
            count as int == le_i32(archive@, 0),
            len == archive@.len(),
            12 <= entry_len,
            parse_entries(archive@, entry_len as int, i as nat) == Ok::<
                Seq<IndexEntry>,
                NwaError,
            >(index@),
        decreases count - i,
    {
        proof {
            assert((i as u128) * (entry_len as u128) <= 0x8000_0000u128 * 0x1_0000_0000_0000_0000)
                by (nonlinear_arith)
                requires
                    0 <= i < 0x8000_0000,
                    entry_len < 0x1_0000_0000_0000_0000,
            ;
        }
        let at: u128 = 4 + (i as u128) * (entry_len as u128);
        if (len as u128) < at + entry_len as u128 {
            proof {
                lemma_parse_entries_err_after(
                    archive@,
                    entry_len as int,
                    (i + 1) as nat,
                    count as nat,
                );
            }
            return Err(NwaError::UnexpectedEof);
        }
        let at = at as usize;
        let entry = IndexEntry {
            size: read_i32_le(archive, at),
            offset: read_i32_le(archive, at + 4),
            count: read_i32_le(archive, at + 8),
        };
        if entry.offset <= 0 || entry.size <= 0 {
            proof {
                lemma_parse_entries_err_after(
                    archive@,
                    entry_len as int,
                    (i + 1) as nat,
                    count as nat,
                );
            }
            return Err(NwaError::BadIndexEntry);
        }
        index.push(entry);
        i = i + 1;
    }
    Ok(index)
}

/// The bytes of an entry: `size` bytes from its offset. An entry that
/// reaches past the end of the archive cannot be read.
pub open spec fn entry_bytes(archive: Seq<u8>, e: IndexEntry) -> Result<Seq<u8>, NwaError> {
    if e.offset < 0 || e.size < 0 || e.offset + e.size > archive.len() {
        Err(NwaError::UnexpectedEof)
    } else {
        Ok(archive.subrange(e.offset as int, e.offset + e.size))
    }
}

/// The bytes of one entry of an archive.
pub fn entry_slice<'a>(archive: &'a [u8], e: &IndexEntry) -> (r: Result<&'a [u8], NwaError>)
    ensures
        match r {
            Ok(b) => entry_bytes(archive@, *e) == Ok::<Seq<u8>, NwaError>(b@),
            Err(err) => entry_bytes(archive@, *e) == Err::<Seq<u8>, NwaError>(err),
        },
{
    let len = archive.len();
    if e.offset < 0 || e.size < 0 || (e.offset as u64) + (e.size as u64) > len as u64 {
        return Err(NwaError::UnexpectedEof);
    }
    let start = e.offset as usize;
    let end = start + e.size as usize;
    Ok(vstd::slice::slice_subrange(archive, start, end))
}

/// What decoding one entry of an archive gives.
pub open spec fn spec_decode_entry(archive: Seq<u8>, e: IndexEntry) -> Result<Seq<u8>, NwaError> {
    match entry_bytes(archive, e) {
        Err(err) => Err(err),
        Ok(b) => spec_decode_file(b),
    }
}

/// Decodes one entry of an archive as a stream of its own: the result
/// depends on that entry's bytes alone, so a corrupt entry leaves every
/// other entry's decoding as it is.
pub fn decode_entry(archive: &[u8], e: &IndexEntry) -> (r: Result<NWAFile, NwaError>)
    ensures
        match r {
            Ok(f) => spec_decode_entry(archive@, *e) == Ok::<Seq<u8>, NwaError>(f.bytes()),
            Err(err) => spec_decode_entry(archive@, *e) == Err::<Seq<u8>, NwaError>(err),
        },
{
    let bytes = entry_slice(archive, e)?;
    NWAFile::new(bytes)
}

} // verus!
