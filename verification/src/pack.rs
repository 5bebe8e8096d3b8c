//! Pack side of the codec: the layout computation (directory offset and
//! per-file payload offsets) and the writer that serializes header, filename
//! directory, file directory and payloads into one byte vector.
use crate::types::{
    archive_key, archive_key_spec, copy_bytes, file_views, magic_spec, spec_encode_entry,
    ArfFile, ArfFileDirectoryEntry, ArfHeader, FILE_XOR_KEY,
};
use crate::xor::{xor_prefix20, xor_prefix20_spec, xor_stride4, xor_stride4_spec};
use vstd::bytes::*;
use vstd::prelude::*;

verus! {

/// What the pack operation takes: the files to bundle, in enumeration order.
pub struct PackOpts {
    pub files: Vec<ArfFile>,
}

/// Byte length of the first `i` filename-directory records: one length byte
/// plus the name bytes for each file.
pub open spec fn names_prefix_len(fv: Seq<(Seq<u8>, Seq<u8>)>, i: int) -> int
    decreases i,
{
    if i <= 0 {
        0
    } else {
        names_prefix_len(fv, i - 1) + 1 + fv[i - 1].0.len()
    }
}

/// Where the file directory begins: right after the 16-byte header and the
/// whole filename directory.
pub open spec fn spec_directory_offset(fv: Seq<(Seq<u8>, Seq<u8>)>) -> int {
    16 + names_prefix_len(fv, fv.len() as int)
}

/// Total payload bytes of the first `i` files.
pub open spec fn payload_prefix_len(fv: Seq<(Seq<u8>, Seq<u8>)>, i: int) -> int
    decreases i,
{
    if i <= 0 {
        0
    } else {
        payload_prefix_len(fv, i - 1) + fv[i - 1].1.len()
    }
}

/// Absolute offset of file `i`'s payload: the directory offset, then the
/// 16-byte-per-file directory, then every earlier payload.
pub open spec fn spec_entry_offset(fv: Seq<(Seq<u8>, Seq<u8>)>, i: int) -> int {
    spec_directory_offset(fv) + 16 * fv.len() + payload_prefix_len(fv, i)
}

/// Total byte size of the packed archive.
pub open spec fn spec_archive_size(fv: Seq<(Seq<u8>, Seq<u8>)>) -> int {
    spec_entry_offset(fv, fv.len() as int)
}

/// The inputs the packer accepts: filenames of at most 255 bytes (the length
/// prefix is one byte), an id that fits sixteen bits for every file, and an
/// archive small enough that every offset fits thirty-two bits.
pub open spec fn pack_ok(fv: Seq<(Seq<u8>, Seq<u8>)>) -> bool {
    &&& fv.len() <= 0x10000
    &&& (forall|i: int| 0 <= i < fv.len() ==> (#[trigger] fv[i].0.len()) <= 255)
    &&& spec_archive_size(fv) <= 0xFFFF_FFFF
}

/// One filename record: the length byte, then the XOR-obscured name.
pub open spec fn spec_name_record(name: Seq<u8>) -> Seq<u8> {
    seq![name.len() as u8] + xor_stride4_spec(name, archive_key_spec())
}

/// Filename-directory records for files `i..`, in file order.
pub open spec fn spec_name_records_from(fv: Seq<(Seq<u8>, Seq<u8>)>, i: int) -> Seq<u8>
    decreases fv.len() - i,
{
    if i < 0 || i >= fv.len() {
        Seq::empty()
    } else {
        spec_name_record(fv[i].0) + spec_name_records_from(fv, i + 1)
    }
}

/// The sixteen bytes of directory entry `i`: sequential id, zero reserved
/// field, absolute payload offset, payload length, payload key, zero padding.
pub open spec fn spec_entry_bytes(fv: Seq<(Seq<u8>, Seq<u8>)>, i: int) -> Seq<u8> {
    spec_u16_to_le_bytes(i as u16) + spec_u16_to_le_bytes(0u16) + spec_u32_to_le_bytes(
        spec_entry_offset(fv, i) as u32,
    ) + spec_u32_to_le_bytes(fv[i].1.len() as u32) + seq![FILE_XOR_KEY] + seq![0u8, 0u8, 0u8]
}

/// File-directory records for files `i..`, in file order.
pub open spec fn spec_dir_records_from(fv: Seq<(Seq<u8>, Seq<u8>)>, i: int) -> Seq<u8>
    decreases fv.len() - i,
{
    if i < 0 || i >= fv.len() {
        Seq::empty()
    } else {
        spec_entry_bytes(fv, i) + spec_dir_records_from(fv, i + 1)
    }
}

/// Payload region for files `i..`: each file's bytes with the prefix-20 XOR
/// applied, concatenated in file order.
pub open spec fn spec_payload_records_from(fv: Seq<(Seq<u8>, Seq<u8>)>, i: int) -> Seq<u8>
    decreases fv.len() - i,
{
    if i < 0 || i >= fv.len() {
        Seq::empty()
    } else {
        xor_prefix20_spec(fv[i].1, FILE_XOR_KEY) + spec_payload_records_from(fv, i + 1)
    }
}

/// The header a pack of `fv` writes.
pub open spec fn spec_header_bytes(fv: Seq<(Seq<u8>, Seq<u8>)>) -> Seq<u8> {
    magic_spec() + spec_u32_to_le_bytes(fv.len() as u32) + archive_key_spec()
        + spec_u32_to_le_bytes(spec_directory_offset(fv) as u32)
}

/// The whole archive: header, filename directory, file directory, payloads,
/// in that fixed order.
pub open spec fn spec_pack(fv: Seq<(Seq<u8>, Seq<u8>)>) -> Seq<u8> {
    spec_header_bytes(fv) + spec_name_records_from(fv, 0) + spec_dir_records_from(fv, 0)
        + spec_payload_records_from(fv, 0)
}

/// Filename-directory records for files `..i` (what a writer loop has
/// produced after `i` steps).
pub open spec fn names_prefix_bytes(fv: Seq<(Seq<u8>, Seq<u8>)>, i: int) -> Seq<u8>
    decreases i,
{
    if i <= 0 {
        Seq::empty()
    } else {
        names_prefix_bytes(fv, i - 1) + spec_name_record(fv[i - 1].0)
    }
}

/// File-directory records for files `..i`.
pub open spec fn dir_prefix_bytes(fv: Seq<(Seq<u8>, Seq<u8>)>, i: int) -> Seq<u8>
    decreases i,
{
    if i <= 0 {
        Seq::empty()
    } else {
        dir_prefix_bytes(fv, i - 1) + spec_entry_bytes(fv, i - 1)
    }
}

/// Payload region for files `..i`.
pub open spec fn payload_prefix_bytes(fv: Seq<(Seq<u8>, Seq<u8>)>, i: int) -> Seq<u8>
    decreases i,
{
    if i <= 0 {
        Seq::empty()
    } else {
        payload_prefix_bytes(fv, i - 1) + xor_prefix20_spec(fv[i - 1].1, FILE_XOR_KEY)
    }
}

/// The prefix sums grow with `i`.
pub proof fn lemma_names_prefix_len_mono(fv: Seq<(Seq<u8>, Seq<u8>)>, i: int, j: int)
    requires
        0 <= i <= j,
    ensures
        0 <= names_prefix_len(fv, i) <= names_prefix_len(fv, j),
    decreases j,
{
    if j > i {
        lemma_names_prefix_len_mono(fv, i, j - 1);
    } else if j == i && i > 0 {
        lemma_names_prefix_len_mono(fv, i - 1, i - 1);
    }
}

/// The payload prefix sums grow with `i`.
pub proof fn lemma_payload_prefix_len_mono(fv: Seq<(Seq<u8>, Seq<u8>)>, i: int, j: int)
    requires
        0 <= i <= j,
    ensures
        0 <= payload_prefix_len(fv, i) <= payload_prefix_len(fv, j),
    decreases j,
{
    if j > i {
        lemma_payload_prefix_len_mono(fv, i, j - 1);
    } else if j == i && i > 0 {
        lemma_payload_prefix_len_mono(fv, i - 1, i - 1);
    }
}

/// A writer that has emitted the first `i` filename records and then the rest
/// has emitted them all.
proof fn lemma_names_prefix_suffix(fv: Seq<(Seq<u8>, Seq<u8>)>, i: int)
    requires
        0 <= i <= fv.len(),
    ensures
        names_prefix_bytes(fv, i) + spec_name_records_from(fv, i) == spec_name_records_from(fv, 0),
    decreases i,
{
    if i == 0 {
        assert(names_prefix_bytes(fv, 0) + spec_name_records_from(fv, 0) =~= spec_name_records_from(
            fv,
            0,
        ));
    } else {
        lemma_names_prefix_suffix(fv, i - 1);
        assert((names_prefix_bytes(fv, i - 1) + spec_name_record(fv[i - 1].0))
            + spec_name_records_from(fv, i) =~= names_prefix_bytes(fv, i - 1) + (spec_name_record(
            fv[i - 1].0,
        ) + spec_name_records_from(fv, i)));
    }
}

/// As `lemma_names_prefix_suffix`, for the file directory.
proof fn lemma_dir_prefix_suffix(fv: Seq<(Seq<u8>, Seq<u8>)>, i: int)
    requires
        0 <= i <= fv.len(),
    ensures
        dir_prefix_bytes(fv, i) + spec_dir_records_from(fv, i) == spec_dir_records_from(fv, 0),
    decreases i,
{
    if i == 0 {
        assert(dir_prefix_bytes(fv, 0) + spec_dir_records_from(fv, 0) =~= spec_dir_records_from(
            fv,
            0,
        ));
    } else {
        lemma_dir_prefix_suffix(fv, i - 1);
        assert((dir_prefix_bytes(fv, i - 1) + spec_entry_bytes(fv, i - 1))
            + spec_dir_records_from(fv, i) =~= dir_prefix_bytes(fv, i - 1) + (spec_entry_bytes(
            fv,
            i - 1,
        ) + spec_dir_records_from(fv, i)));
    }
}

/// As `lemma_names_prefix_suffix`, for the payload region.
proof fn lemma_payload_prefix_suffix(fv: Seq<(Seq<u8>, Seq<u8>)>, i: int)
    requires
        0 <= i <= fv.len(),
    ensures
        payload_prefix_bytes(fv, i) + spec_payload_records_from(fv, i)
            == spec_payload_records_from(fv, 0),
    decreases i,
{
    if i == 0 {
        assert(payload_prefix_bytes(fv, 0) + spec_payload_records_from(fv, 0)
            =~= spec_payload_records_from(fv, 0));
    } else {
        lemma_payload_prefix_suffix(fv, i - 1);
        assert((payload_prefix_bytes(fv, i - 1) + xor_prefix20_spec(fv[i - 1].1, FILE_XOR_KEY))
            + spec_payload_records_from(fv, i) =~= payload_prefix_bytes(fv, i - 1) + (
        xor_prefix20_spec(fv[i - 1].1, FILE_XOR_KEY) + spec_payload_records_from(fv, i)));
    }
}

/// Directory entry `e` is the one a pack of `fv` writes for file `i`.
pub open spec fn entry_matches(fv: Seq<(Seq<u8>, Seq<u8>)>, i: int, e: ArfFileDirectoryEntry) -> bool {
    &&& e.id == i as u16
    &&& e.unknown == 0
    &&& e.offset == spec_entry_offset(fv, i)
    &&& e.length == fv[i].1.len()
    &&& e.file_xor_key == FILE_XOR_KEY
    &&& e.padding@ == seq![0u8, 0u8, 0u8]
}

/// An entry with the layout's field values encodes to exactly the bytes the
/// layout prescribes.
proof fn lemma_entry_bytes_match(fv: Seq<(Seq<u8>, Seq<u8>)>, i: int, e: ArfFileDirectoryEntry)
    requires
        pack_ok(fv),
        0 <= i < fv.len(),
        entry_matches(fv, i, e),
    ensures
        spec_encode_entry(e) == spec_entry_bytes(fv, i),
{
    lemma_payload_prefix_len_mono(fv, i, fv.len() as int);
    lemma_names_prefix_len_mono(fv, 0, fv.len() as int);
    assert(0 <= spec_entry_offset(fv, i) <= 0xFFFF_FFFF);
    assert(spec_entry_offset(fv, i) as u32 == e.offset);
    assert(fv[i].1.len() as u32 == e.length);
}

/// Directory Builder: compute the header and the file directory for `files`.
/// The header carries the file count, the fixed archive key, and the
/// directory offset `16 + sum(1 + len(name_i))`; entry `i` carries the
/// sequential id `i`, the payload length, the fixed payload key, and the
/// offset `directory_offset + 16*count + sum of earlier payload lengths`.
pub fn build_directory(files: &Vec<ArfFile>) -> (r: (ArfHeader, Vec<ArfFileDirectoryEntry>))
    requires
        pack_ok(file_views(files@)),
    ensures
        r.0.file_count == file_views(files@).len(),
        r.0.xor_key@ == archive_key_spec(),
        r.0.directory_offset == spec_directory_offset(file_views(files@)),
        r.1@.len() == file_views(files@).len(),
        forall|i: int|
            0 <= i < file_views(files@).len() ==> entry_matches(file_views(files@), i, #[trigger] r.1@[i]),
    {
    let ghost fv = file_views(files@);
    let count: usize = files.len();

    let mut name_total: u32 = 0;
    let mut i: usize = 0;
    while i < count
        invariant
            pack_ok(fv),
            fv == file_views(files@),
            count == files@.len() == fv.len(),
            i <= count,
            name_total == names_prefix_len(fv, i as int),
        decreases count - i,
    {
        proof {
            lemma_names_prefix_len_mono(fv, i as int + 1, fv.len() as int);
            lemma_payload_prefix_len_mono(fv, 0, fv.len() as int);
            assert(fv[i as int].0.len() <= 255);
        }
        name_total = name_total + 1 + files[i].name.len() as u32;
        i += 1;
    }
    proof {
        lemma_payload_prefix_len_mono(fv, 0, fv.len() as int);
    }
    let directory_offset: u32 = 16 + name_total;
    assert(directory_offset == spec_directory_offset(fv));

    let mut entries: Vec<ArfFileDirectoryEntry> = Vec::new();
    let mut data_offset: u32 = directory_offset + 16 * (count as u32);
    assert(data_offset == spec_entry_offset(fv, 0));
    let mut j: usize = 0;
    while j < count
        invariant
            pack_ok(fv),
            fv == file_views(files@),
            count == files@.len() == fv.len(),
            j <= count,
            entries@.len() == j,
            data_offset == spec_entry_offset(fv, j as int),
            forall|k: int| 0 <= k < j ==> entry_matches(fv, k, #[trigger] entries@[k]),
        decreases count - j,
    {
        proof {
            lemma_payload_prefix_len_mono(fv, j as int + 1, fv.len() as int);
            lemma_names_prefix_len_mono(fv, 0, fv.len() as int);
            lemma_payload_prefix_len_mono(fv, 0, j as int);
        }
        let length: u32 = files[j].data.len() as u32;
        let padding: [u8; 3] = [0, 0, 0];
        assert(padding@ =~= seq![0u8, 0u8, 0u8]);
        let entry = ArfFileDirectoryEntry {
            id: j as u16,
            unknown: 0,
            offset: data_offset,
            length,
            file_xor_key: FILE_XOR_KEY,
            padding,
        };
        entries.push(entry);
        data_offset = data_offset + length;
        j += 1;
    }

    let header = ArfHeader { file_count: count as u32, xor_key: archive_key(), directory_offset };
    (header, entries)
}

/// Archive Writer over the whole pack operation: serialize `files` into one
/// ARF archive, exactly the bytes `spec_pack` prescribes.
pub fn pack_arf(files: &Vec<ArfFile>) -> (r: Vec<u8>)
    requires
        pack_ok(file_views(files@)),
    ensures
        r@ == spec_pack(file_views(files@)),
{
    let ghost fv = file_views(files@);
    let count: usize = files.len();
    let (header, entries) = build_directory(files);

    let mut out = header.encode();
    assert(out@ =~= spec_header_bytes(fv));

    let key = archive_key();
    let mut i: usize = 0;
    while i < count
        invariant
            pack_ok(fv),
            fv == file_views(files@),
            count == files@.len() == fv.len(),
            i <= count,
            key@ == archive_key_spec(),
            out@ == spec_header_bytes(fv) + names_prefix_bytes(fv, i as int),
        decreases count - i,
    {
        let name_len: usize = files[i].name.len();
        assert(fv[i as int].0.len() <= 255);
        out.push(name_len as u8);
        let mut name_buf = copy_bytes(&files[i].name);
        xor_stride4(&mut name_buf, key);
        out.append(&mut name_buf);
        proof {
            assert(out@ =~= spec_header_bytes(fv) + names_prefix_bytes(fv, i as int + 1));
        }
        i += 1;
    }
    proof {
        lemma_names_prefix_suffix(fv, fv.len() as int);
        assert(out@ == spec_header_bytes(fv) + spec_name_records_from(fv, 0));
    }

    let ghost head_names = spec_header_bytes(fv) + spec_name_records_from(fv, 0);
    let mut j: usize = 0;
    while j < count
        invariant
            pack_ok(fv),
            fv == file_views(files@),
            count == files@.len() == fv.len(),
            j <= count,
            entries@.len() == fv.len(),
            forall|k: int| 0 <= k < fv.len() ==> entry_matches(fv, k, #[trigger] entries@[k]),
            out@ == head_names + dir_prefix_bytes(fv, j as int),
            head_names == spec_header_bytes(fv) + spec_name_records_from(fv, 0),
        decreases count - j,
    {
        let mut entry_bytes = entries[j].encode();
        out.append(&mut entry_bytes);
        proof {
            lemma_entry_bytes_match(fv, j as int, entries@[j as int]);
            assert(out@ =~= head_names + dir_prefix_bytes(fv, j as int + 1));
        }
        j += 1;
    }
    proof {
        lemma_dir_prefix_suffix(fv, fv.len() as int);
        assert(out@ =~= head_names + spec_dir_records_from(fv, 0));
    }

    let ghost head_dir = head_names + spec_dir_records_from(fv, 0);
    let mut k: usize = 0;
    while k < count
        invariant
            pack_ok(fv),
            fv == file_views(files@),
            count == files@.len() == fv.len(),
            k <= count,
            out@ == head_dir + payload_prefix_bytes(fv, k as int),
            head_dir == spec_header_bytes(fv) + spec_name_records_from(fv, 0)
                + spec_dir_records_from(fv, 0),
        decreases count - k,
    {
        let mut payload = copy_bytes(&files[k].data);
        xor_prefix20(&mut payload, FILE_XOR_KEY);
        out.append(&mut payload);
        proof {
            assert(out@ =~= head_dir + payload_prefix_bytes(fv, k as int + 1));
        }
        k += 1;
    }
    proof {
        lemma_payload_prefix_suffix(fv, fv.len() as int);
        assert(out@ =~= head_dir + spec_payload_records_from(fv, 0));
        assert(out@ =~= spec_pack(fv));
    }
    out
}

/// Packing no files gives the 16-byte header-only archive: file count zero
/// and the directory beginning right at offset 16.
pub proof fn lemma_pack_empty()
    ensures
        spec_pack(Seq::<(Seq<u8>, Seq<u8>)>::empty()) == magic_spec() + spec_u32_to_le_bytes(0u32)
            + archive_key_spec() + spec_u32_to_le_bytes(16u32),
        spec_pack(Seq::<(Seq<u8>, Seq<u8>)>::empty()).len() == 16,
{
    let fv = Seq::<(Seq<u8>, Seq<u8>)>::empty();
    lemma_auto_spec_u32_to_from_le_bytes();
    assert(spec_pack(fv) =~= spec_header_bytes(fv));
    assert(spec_header_bytes(fv) =~= magic_spec() + spec_u32_to_le_bytes(0u32) + archive_key_spec()
        + spec_u32_to_le_bytes(16u32));
}

} // verus!
