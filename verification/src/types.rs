//! The ARF data model: the header and file-directory records with their exact
//! little-endian byte encodings, the archived-file value the codec exchanges
//! with its callers, and the error taxonomy.
use vstd::bytes::*;
use vstd::prelude::*;
use vstd::slice::slice_subrange;

verus! {

/// Single-byte payload key this producer writes into every directory entry.
pub const FILE_XOR_KEY: u8 = 0x69;

/// Four-byte magic tag that opens every ARF archive: `AR\0\0`.
pub open spec fn magic_spec() -> Seq<u8> {
    seq![0x41u8, 0x52u8, 0x00u8, 0x00u8]
}

/// Fixed filename key this producer always emits (the format would permit a
/// per-archive key; this writer does not use that freedom).
pub open spec fn archive_key_spec() -> Seq<u8> {
    seq![0x69u8, 0x13u8, 0x37u8, 0x42u8]
}

/// Exec value of `archive_key_spec`.
pub fn archive_key() -> (r: [u8; 4])
    ensures
        r@ == archive_key_spec(),
{
    let r: [u8; 4] = [0x69, 0x13, 0x37, 0x42];
    assert(r@ =~= archive_key_spec());
    r
}

/// How an operation fails: a stream that is not an ARF archive at all, or a
/// stream that ends (or a filesystem that errs) before the archive does.
#[derive(Clone, Copy, Debug, PartialEq, Eq, Structural)]
pub enum ArfError {
    FormatError,
    IoError,
}

/// One archived file: a relative path (UTF-8 bytes, `/` separators) and its
/// contents.
#[derive(Clone, Debug)]
pub struct ArfFile {
    pub name: Vec<u8>,
    pub data: Vec<u8>,
}

/// The (name, contents) pair of byte sequences an `ArfFile` stands for.
pub open spec fn file_view(f: ArfFile) -> (Seq<u8>, Seq<u8>) {
    (f.name@, f.data@)
}

/// The sequence of (name, contents) pairs a vector of `ArfFile`s stands for.
pub open spec fn file_views(files: Seq<ArfFile>) -> Seq<(Seq<u8>, Seq<u8>)> {
    files.map_values(|f: ArfFile| file_view(f))
}

/// Fresh copy of a byte vector.
pub fn copy_bytes(src: &Vec<u8>) -> (r: Vec<u8>)
    ensures
        r@ == src@,
{
    let n: usize = src.len();
    let mut out: Vec<u8> = Vec::new();
    let mut i: usize = 0;
    while i < n
        invariant
            n == src@.len(),
            i <= n,
            out@ == src@.subrange(0, i as int),
        decreases n - i,
    {
        out.push(src[i]);
        assert(out@ =~= src@.subrange(0, i as int + 1));
        i += 1;
    }
    assert(out@ =~= src@);
    out
}

/// Fresh copy of the bytes `start..end` of `src`.
pub fn copy_range(src: &Vec<u8>, start: usize, end: usize) -> (r: Vec<u8>)
    requires
        start <= end <= src@.len(),
    ensures
        r@ == src@.subrange(start as int, end as int),
{
    let n: usize = src.len();
    let mut out: Vec<u8> = Vec::new();
    let mut i: usize = start;
    while i < end
        invariant
            n == src@.len(),
            start <= i <= end <= n,
            out@ == src@.subrange(start as int, i as int),
        decreases end - i,
    {
        out.push(src[i]);
        assert(out@ =~= src@.subrange(start as int, i as int + 1));
        i += 1;
    }
    out
}

/// Fixed-size record at offset 0 of every archive.
#[derive(Clone, Copy, Debug)]
pub struct ArfHeader {
    pub file_count: u32,
    pub xor_key: [u8; 4],
    pub directory_offset: u32,
}

/// The sixteen bytes a header is written as: magic, count, key, offset.
pub open spec fn spec_encode_header(h: ArfHeader) -> Seq<u8> {
    magic_spec() + spec_u32_to_le_bytes(h.file_count) + h.xor_key@ + spec_u32_to_le_bytes(
        h.directory_offset,
    )
}

impl ArfHeader {
    /// Serialize the header into its 16-byte form.
    pub fn encode(&self) -> (r: Vec<u8>)
        ensures
            r@ == spec_encode_header(*self),
            r@.len() == 16,
    {
        proof {
            lemma_auto_spec_u32_to_from_le_bytes();
        }
        let mut out: Vec<u8> = Vec::new();
        out.push(0x41);
        out.push(0x52);
        out.push(0x00);
        out.push(0x00);
        let mut count_bytes = u32_to_le_bytes(self.file_count);
        out.append(&mut count_bytes);
        out.push(self.xor_key[0]);
        out.push(self.xor_key[1]);
        out.push(self.xor_key[2]);
        out.push(self.xor_key[3]);
        let mut offset_bytes = u32_to_le_bytes(self.directory_offset);
        out.append(&mut offset_bytes);
        assert(out@ =~= spec_encode_header(*self));
        out
    }

    /// Parse the 16-byte header at the start of `data`, validating the magic:
    /// too short for the magic is an I/O failure, a wrong magic is a format
    /// failure, too short for the remaining fields is I/O again.
    pub fn parse(data: &Vec<u8>) -> (r: Result<ArfHeader, ArfError>)
        ensures
            data@.len() < 4 ==> r == Err::<ArfHeader, ArfError>(ArfError::IoError),
            data@.len() >= 4 && data@.subrange(0, 4) != magic_spec() ==> r == Err::<
                ArfHeader,
                ArfError,
            >(ArfError::FormatError),
            data@.len() >= 4 && data@.subrange(0, 4) == magic_spec() && data@.len() < 16 ==> r
                == Err::<ArfHeader, ArfError>(ArfError::IoError),
            data@.len() >= 16 && data@.subrange(0, 4) == magic_spec() ==> (r matches Ok(h)
                && h.file_count == spec_u32_from_le_bytes(data@.subrange(4, 8)) && h.xor_key@
                == data@.subrange(8, 12) && h.directory_offset == spec_u32_from_le_bytes(
                data@.subrange(12, 16),
            )),
    {
        if data.len() < 4 {
            return Err(ArfError::IoError);
        }
        if data[0] != 0x41 || data[1] != 0x52 || data[2] != 0x00 || data[3] != 0x00 {
            proof {
                if data@[0] != 0x41 {
                    assert(data@.subrange(0, 4)[0] != magic_spec()[0]);
                } else if data@[1] != 0x52 {
                    assert(data@.subrange(0, 4)[1] != magic_spec()[1]);
                } else if data@[2] != 0x00 {
                    assert(data@.subrange(0, 4)[2] != magic_spec()[2]);
                } else {
                    assert(data@.subrange(0, 4)[3] != magic_spec()[3]);
                }
            }
            return Err(ArfError::FormatError);
        }
        assert(data@.subrange(0, 4) =~= magic_spec());
        if data.len() < 16 {
            return Err(ArfError::IoError);
        }
        let file_count = u32_from_le_bytes(slice_subrange(data.as_slice(), 4, 8));
        let xor_key: [u8; 4] = [data[8], data[9], data[10], data[11]];
        let directory_offset = u32_from_le_bytes(slice_subrange(data.as_slice(), 12, 16));
        assert(xor_key@ =~= data@.subrange(8, 12));
        Ok(ArfHeader { file_count, xor_key, directory_offset })
    }
}

/// Fixed-size 16-byte record of the file directory.
#[derive(Clone, Copy, Debug)]
pub struct ArfFileDirectoryEntry {
    pub id: u16,
    pub unknown: u16,
    pub offset: u32,
    pub length: u32,
    pub file_xor_key: u8,
    pub padding: [u8; 3],
}

/// The sixteen bytes a directory entry is written as, little-endian.
pub open spec fn spec_encode_entry(e: ArfFileDirectoryEntry) -> Seq<u8> {
    spec_u16_to_le_bytes(e.id) + spec_u16_to_le_bytes(e.unknown) + spec_u32_to_le_bytes(e.offset)
        + spec_u32_to_le_bytes(e.length) + seq![e.file_xor_key] + e.padding@
}

impl ArfFileDirectoryEntry {
    /// Serialize the entry into its 16-byte form.
    pub fn encode(&self) -> (r: Vec<u8>)
        ensures
            r@ == spec_encode_entry(*self),
            r@.len() == 16,
    {
        proof {
            lemma_auto_spec_u16_to_from_le_bytes();
            lemma_auto_spec_u32_to_from_le_bytes();
        }
        let mut out: Vec<u8> = Vec::new();
        let mut id_bytes = u16_to_le_bytes(self.id);
        out.append(&mut id_bytes);
        let mut unknown_bytes = u16_to_le_bytes(self.unknown);
        out.append(&mut unknown_bytes);
        let mut offset_bytes = u32_to_le_bytes(self.offset);
        out.append(&mut offset_bytes);
        let mut length_bytes = u32_to_le_bytes(self.length);
        out.append(&mut length_bytes);
        out.push(self.file_xor_key);
        out.push(self.padding[0]);
        out.push(self.padding[1]);
        out.push(self.padding[2]);
        assert(out@ =~= spec_encode_entry(*self));
        out
    }

    /// Decode the 16-byte entry that starts at `pos`.
    pub fn parse(data: &Vec<u8>, pos: usize) -> (r: ArfFileDirectoryEntry)
        requires
            pos + 16 <= data@.len(),
        ensures
            r.id == spec_u16_from_le_bytes(data@.subrange(pos as int, pos as int + 2)),
            r.unknown == spec_u16_from_le_bytes(data@.subrange(pos as int + 2, pos as int + 4)),
            r.offset == spec_u32_from_le_bytes(data@.subrange(pos as int + 4, pos as int + 8)),
            r.length == spec_u32_from_le_bytes(data@.subrange(pos as int + 8, pos as int + 12)),
            r.file_xor_key == data@[pos as int + 12],
            r.padding@ == data@.subrange(pos as int + 13, pos as int + 16),
    {
        let n: usize = data.len();
        assert(pos + 16 <= n);
        let id = u16_from_le_bytes(slice_subrange(data.as_slice(), pos, pos + 2));
        let unknown = u16_from_le_bytes(slice_subrange(data.as_slice(), pos + 2, pos + 4));
        let offset = u32_from_le_bytes(slice_subrange(data.as_slice(), pos + 4, pos + 8));
        let length = u32_from_le_bytes(slice_subrange(data.as_slice(), pos + 8, pos + 12));
        let file_xor_key = data[pos + 12];
        let padding: [u8; 3] = [data[pos + 13], data[pos + 14], data[pos + 15]];
        assert(padding@ =~= data@.subrange(pos as int + 13, pos as int + 16));
        ArfFileDirectoryEntry { id, unknown, offset, length, file_xor_key, padding }
    }
}

} // verus!
