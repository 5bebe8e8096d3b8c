//! Unpack side of the codec: the reader that parses header, filename
//! directory and file directory in strict format order, and the extractor
//! that reverses both XOR passes and yields the archived files.
use crate::pack::{
    names_prefix_len, pack_ok, payload_prefix_len, spec_dir_records_from, spec_entry_bytes,
    spec_header_bytes, spec_name_record, spec_name_records_from, spec_pack,
    spec_payload_records_from,
};
use crate::types::{
    archive_key_spec, copy_bytes, copy_range, file_views, magic_spec, ArfError, ArfFile,
    ArfFileDirectoryEntry, ArfHeader, FILE_XOR_KEY,
};
use crate::xor::{
    lemma_xor_prefix20_self_inverse, lemma_xor_stride4_self_inverse, xor_prefix20,
    xor_prefix20_spec, xor_stride4, xor_stride4_spec,
};
use vstd::bytes::{
    lemma_auto_spec_u16_to_from_le_bytes, lemma_auto_spec_u32_to_from_le_bytes,
    spec_u32_from_le_bytes, spec_u32_to_le_bytes,
};
use vstd::prelude::*;

verus! {

/// What the unpack operation takes: the raw bytes of one archive.
pub struct UnpackOpts {
    pub archive: Vec<u8>,
}

/// Parse `n` filename records at `pos`, decoding each name with the stride-4
/// XOR as it is read. `None` is a truncated stream; otherwise the names and
/// the position just past the last record.
pub open spec fn spec_parse_names(data: Seq<u8>, pos: int, n: int, key: Seq<u8>) -> Option<
    (Seq<Seq<u8>>, int),
>
    decreases n,
{
    if n <= 0 {
        Some((Seq::empty(), pos))
    } else if 0 <= pos && pos < data.len() {
        let len = data[pos] as int;
        if pos + 1 + len <= data.len() {
            let name = xor_stride4_spec(data.subrange(pos + 1, pos + 1 + len), key);
            match spec_parse_names(data, pos + 1 + len, n - 1, key) {
                Some(rest) => Some((seq![name] + rest.0, rest.1)),
                None => None,
            }
        } else {
            None
        }
    } else {
        None
    }
}

/// Parse `n` 16-byte directory records at `pos`, keeping what the extractor
/// reads of each: the payload length and the payload key. The id, reserved
/// and offset fields are preserved but unused; pairing is by position.
pub open spec fn spec_parse_entries(data: Seq<u8>, pos: int, n: int) -> Option<
    (Seq<(u32, u8)>, int),
>
    decreases n,
{
    if n <= 0 {
        Some((Seq::empty(), pos))
    } else if 0 <= pos && pos + 16 <= data.len() {
        let length = spec_u32_from_le_bytes(data.subrange(pos + 8, pos + 12));
        let key = data[pos + 12];
        match spec_parse_entries(data, pos + 16, n - 1) {
            Some(rest) => Some((seq![(length, key)] + rest.0, rest.1)),
            None => None,
        }
    } else {
        None
    }
}

/// Parse the payloads of entries `i..` at `pos`: each entry's `length` bytes
/// with the prefix-20 XOR reversed under that entry's key.
pub open spec fn spec_parse_payloads(
    data: Seq<u8>,
    pos: int,
    entries: Seq<(u32, u8)>,
    i: int,
) -> Option<Seq<Seq<u8>>>
    decreases entries.len() - i,
{
    if i < 0 || i >= entries.len() {
        Some(Seq::empty())
    } else {
        let len = entries[i].0 as int;
        if 0 <= pos && pos + len <= data.len() {
            match spec_parse_payloads(data, pos + len, entries, i + 1) {
                Some(rest) => Some(
                    seq![xor_prefix20_spec(data.subrange(pos, pos + len), entries[i].1)] + rest,
                ),
                None => None,
            }
        } else {
            None
        }
    }
}

/// What unpacking a byte stream yields: the archived (name, contents) pairs,
/// a format failure on a wrong magic, or an I/O failure on a stream that ends
/// before the archive does. Trailing bytes after the last payload are
/// ignored, as is the header's directory offset: the reader is sequential.
pub open spec fn spec_unpack(data: Seq<u8>) -> Result<Seq<(Seq<u8>, Seq<u8>)>, ArfError> {
    if data.len() < 4 {
        Err(ArfError::IoError)
    } else if data.subrange(0, 4) != magic_spec() {
        Err(ArfError::FormatError)
    } else if data.len() < 16 {
        Err(ArfError::IoError)
    } else {
        let count = spec_u32_from_le_bytes(data.subrange(4, 8)) as int;
        let key = data.subrange(8, 12);
        match spec_parse_names(data, 16, count, key) {
            None => Err(ArfError::IoError),
            Some(np) => match spec_parse_entries(data, np.1, count) {
                None => Err(ArfError::IoError),
                Some(ep) => match spec_parse_payloads(data, ep.1, ep.0, 0) {
                    None => Err(ArfError::IoError),
                    Some(payloads) => Ok(
                        Seq::new(count as nat, |i: int| (np.0[i], payloads[i])),
                    ),
                },
            },
        }
    }
}

/// The byte sequences a vector of name buffers stands for.
pub open spec fn names_views(names: Seq<Vec<u8>>) -> Seq<Seq<u8>> {
    names.map_values(|v: Vec<u8>| v@)
}

/// The (length, key) pairs the extractor reads out of parsed entries.
pub open spec fn entry_pairs(entries: Seq<ArfFileDirectoryEntry>) -> Seq<(u32, u8)> {
    entries.map_values(|e: ArfFileDirectoryEntry| (e.length, e.file_xor_key))
}

/// The decoded payloads a vector of extracted files holds.
pub open spec fn payload_views(files: Seq<ArfFile>) -> Seq<Seq<u8>> {
    files.map_values(|f: ArfFile| f.data@)
}

/// A stream whose first four bytes are not the magic tag fails as a format
/// error, whatever else it holds.
pub proof fn lemma_unpack_bad_magic(data: Seq<u8>)
    requires
        data.len() >= 4,
        data.subrange(0, 4) != magic_spec(),
    ensures
        spec_unpack(data) == Err::<Seq<(Seq<u8>, Seq<u8>)>, ArfError>(ArfError::FormatError),
{
}

/// Archive Reader and Extractor in one pass: parse the archive and yield the
/// files it holds, names and payloads decoded. The result is exactly what
/// `spec_unpack` says of the bytes, error cases included.
#[verifier::loop_isolation(false)]
pub fn unpack_arf(archive: &Vec<u8>) -> (r: Result<Vec<ArfFile>, ArfError>)
    ensures
        (r matches Ok(files) ==> spec_unpack(archive@) == Ok::<
            Seq<(Seq<u8>, Seq<u8>)>,
            ArfError,
        >(file_views(files@))),
        (r matches Err(e) ==> spec_unpack(archive@) == Err::<
            Seq<(Seq<u8>, Seq<u8>)>,
            ArfError,
        >(e)),
{
    let ghost data = archive@;
    let n: usize = archive.len();
    let header = match ArfHeader::parse(archive) {
        Ok(h) => h,
        Err(e) => {
            return Err(e);
        },
    };
    assert(data.len() >= 16 && data.subrange(0, 4) == magic_spec());
    let count: usize = header.file_count as usize;
    let key = header.xor_key;
    let ghost keyseq = data.subrange(8, 12);
    assert(key@ == keyseq);
    let ghost names_full = spec_parse_names(data, 16, count as int, keyseq);

    // Filename directory.
    let mut names: Vec<Vec<u8>> = Vec::new();
    let mut pos: usize = 16;
    let mut i: usize = 0;
    while i < count
        invariant
            data == archive@,
            n == data.len(),
            16 <= pos <= n,
            i <= count,
            key@ == keyseq,
            names@.len() == i,
            names_full == spec_parse_names(data, 16, count as int, keyseq),
            names_full == (match spec_parse_names(data, pos as int, count - i, keyseq) {
                Some(p) => Some((names_views(names@) + p.0, p.1)),
                None => None::<(Seq<Seq<u8>>, int)>,
            }),
        decreases count - i,
    {
        if pos >= n {
            assert(spec_parse_names(data, pos as int, count - i, keyseq) is None);
            return Err(ArfError::IoError);
        }
        let len: usize = archive[pos] as usize;
        if len > n - pos - 1 {
            assert(spec_parse_names(data, pos as int, count - i, keyseq) is None);
            return Err(ArfError::IoError);
        }
        let mut name_buf = copy_range(archive, pos + 1, pos + 1 + len);
        xor_stride4(&mut name_buf, key);
        proof {
            let rest = spec_parse_names(data, pos as int + 1 + len, count - i - 1, keyseq);
            if rest is Some {
                let p = rest.unwrap();
                assert(names_views(names@.push(name_buf)) =~= names_views(names@) + seq![
                    name_buf@,
                ]);
                assert((names_views(names@) + seq![name_buf@]) + p.0 =~= names_views(names@) + (
                seq![name_buf@] + p.0));
            }
        }
        names.push(name_buf);
        pos = pos + 1 + len;
        i += 1;
    }
    proof {
        assert(names_views(names@) + Seq::<Seq<u8>>::empty() =~= names_views(names@));
    }
    assert(names_full == Some((names_views(names@), pos as int)));

    // File directory.
    let ghost entries_full = spec_parse_entries(data, pos as int, count as int);
    let ghost names_end = pos as int;
    let mut entries: Vec<ArfFileDirectoryEntry> = Vec::new();
    let mut j: usize = 0;
    while j < count
        invariant
            data == archive@,
            n == data.len(),
            0 <= pos <= n,
            j <= count,
            entries@.len() == j,
            entries_full == spec_parse_entries(data, names_end, count as int),
            entries_full == (match spec_parse_entries(data, pos as int, count - j) {
                Some(p) => Some((entry_pairs(entries@) + p.0, p.1)),
                None => None::<(Seq<(u32, u8)>, int)>,
            }),
        decreases count - j,
    {
        if n - pos < 16 {
            assert(spec_parse_entries(data, pos as int, count - j) is None);
            return Err(ArfError::IoError);
        }
        let entry = ArfFileDirectoryEntry::parse(archive, pos);
        proof {
            let rest = spec_parse_entries(data, pos as int + 16, count - j - 1);
            if rest is Some {
                let p = rest.unwrap();
                assert(entry_pairs(entries@.push(entry)) =~= entry_pairs(entries@) + seq![
                    (entry.length, entry.file_xor_key),
                ]);
                assert((entry_pairs(entries@) + seq![(entry.length, entry.file_xor_key)]) + p.0
                    =~= entry_pairs(entries@) + (seq![(entry.length, entry.file_xor_key)] + p.0));
            }
        }
        entries.push(entry);
        pos = pos + 16;
        j += 1;
    }
    proof {
        assert(entry_pairs(entries@) + Seq::<(u32, u8)>::empty() =~= entry_pairs(entries@));
    }
    assert(entries_full == Some((entry_pairs(entries@), pos as int)));

    // Payload region: the k-th filename pairs with the k-th entry, by
    // position, not by the entry's id field.
    let ghost pairs = entry_pairs(entries@);
    let ghost payloads_start = pos as int;
    let ghost payloads_full = spec_parse_payloads(data, payloads_start, pairs, 0);
    let mut files: Vec<ArfFile> = Vec::new();
    let mut k: usize = 0;
    while k < count
        invariant
            data == archive@,
            n == data.len(),
            0 <= pos <= n,
            k <= count,
            count == names@.len() == entries@.len() == pairs.len(),
            pairs == entry_pairs(entries@),
            files@.len() == k,
            payloads_full == spec_parse_payloads(data, payloads_start, pairs, 0),
            payloads_full == (match spec_parse_payloads(data, pos as int, pairs, k as int) {
                Some(rest) => Some(payload_views(files@) + rest),
                None => None::<Seq<Seq<u8>>>,
            }),
            forall|m: int| 0 <= m < k ==> (#[trigger] files@[m]).name@ == names_views(names@)[m],
        decreases count - k,
    {
        let len: usize = entries[k].length as usize;
        if len > n - pos {
            assert(spec_parse_payloads(data, pos as int, pairs, k as int) is None);
            return Err(ArfError::IoError);
        }
        let mut buf = copy_range(archive, pos, pos + len);
        xor_prefix20(&mut buf, entries[k].file_xor_key);
        let name_k = copy_bytes(&names[k]);
        let file = ArfFile { name: name_k, data: buf };
        proof {
            assert(pairs[k as int] == (entries@[k as int].length, entries@[k as int].file_xor_key));
            let rest = spec_parse_payloads(data, pos as int + len, pairs, k as int + 1);
            if rest is Some {
                let rs = rest.unwrap();
                assert(payload_views(files@.push(file)) =~= payload_views(files@) + seq![buf@]);
                assert((payload_views(files@) + seq![buf@]) + rs =~= payload_views(files@) + (
                seq![buf@] + rs));
            }
        }
        files.push(file);
        pos = pos + len;
        k += 1;
    }
    proof {
        assert(payload_views(files@) + Seq::<Seq<u8>>::empty() =~= payload_views(files@));
    }
    assert(payloads_full == Some(payload_views(files@)));

    proof {
        let zipped = Seq::new(count as nat, |i: int| (names_views(names@)[i], payload_views(files@)[i]));
        assert(spec_unpack(data) == Ok::<Seq<(Seq<u8>, Seq<u8>)>, ArfError>(zipped));
        assert(file_views(files@) =~= zipped);
    }
    Ok(files)
}

/// The names of files `i..`, in file order.
pub open spec fn names_from(fv: Seq<(Seq<u8>, Seq<u8>)>, i: int) -> Seq<Seq<u8>>
    decreases fv.len() - i,
{
    if i < 0 || i >= fv.len() {
        Seq::empty()
    } else {
        seq![fv[i].0] + names_from(fv, i + 1)
    }
}

/// The (length, key) pairs the directory of a pack of `fv` holds for files
/// `i..`.
pub open spec fn pairs_from(fv: Seq<(Seq<u8>, Seq<u8>)>, i: int) -> Seq<(u32, u8)>
    decreases fv.len() - i,
{
    if i < 0 || i >= fv.len() {
        Seq::empty()
    } else {
        seq![(fv[i].1.len() as u32, FILE_XOR_KEY)] + pairs_from(fv, i + 1)
    }
}

/// The contents of files `i..`, in file order.
pub open spec fn payloads_from(fv: Seq<(Seq<u8>, Seq<u8>)>, i: int) -> Seq<Seq<u8>>
    decreases fv.len() - i,
{
    if i < 0 || i >= fv.len() {
        Seq::empty()
    } else {
        seq![fv[i].1] + payloads_from(fv, i + 1)
    }
}

proof fn lemma_names_from_index(fv: Seq<(Seq<u8>, Seq<u8>)>, i: int, j: int)
    requires
        0 <= i <= j < fv.len(),
    ensures
        names_from(fv, i).len() == fv.len() - i,
        names_from(fv, i)[j - i] == fv[j].0,
    decreases fv.len() - i,
{
    lemma_names_from_len(fv, i);
    if j > i {
        lemma_names_from_index(fv, i + 1, j);
    }
}

proof fn lemma_names_from_len(fv: Seq<(Seq<u8>, Seq<u8>)>, i: int)
    requires
        0 <= i <= fv.len(),
    ensures
        names_from(fv, i).len() == fv.len() - i,
    decreases fv.len() - i,
{
    if i < fv.len() {
        lemma_names_from_len(fv, i + 1);
    }
}

proof fn lemma_pairs_from_index(fv: Seq<(Seq<u8>, Seq<u8>)>, i: int, j: int)
    requires
        0 <= i <= j < fv.len(),
    ensures
        pairs_from(fv, i).len() == fv.len() - i,
        pairs_from(fv, i)[j - i] == (fv[j].1.len() as u32, FILE_XOR_KEY),
    decreases fv.len() - i,
{
    lemma_pairs_from_len(fv, i);
    if j > i {
        lemma_pairs_from_index(fv, i + 1, j);
    }
}

proof fn lemma_pairs_from_len(fv: Seq<(Seq<u8>, Seq<u8>)>, i: int)
    requires
        0 <= i <= fv.len(),
    ensures
        pairs_from(fv, i).len() == fv.len() - i,
    decreases fv.len() - i,
{
    if i < fv.len() {
        lemma_pairs_from_len(fv, i + 1);
    }
}

proof fn lemma_payloads_from_index(fv: Seq<(Seq<u8>, Seq<u8>)>, i: int, j: int)
    requires
        0 <= i <= j < fv.len(),
    ensures
        payloads_from(fv, i).len() == fv.len() - i,
        payloads_from(fv, i)[j - i] == fv[j].1,
    decreases fv.len() - i,
{
    lemma_payloads_from_len(fv, i);
    if j > i {
        lemma_payloads_from_index(fv, i + 1, j);
    }
}

proof fn lemma_payloads_from_len(fv: Seq<(Seq<u8>, Seq<u8>)>, i: int)
    requires
        0 <= i <= fv.len(),
    ensures
        payloads_from(fv, i).len() == fv.len() - i,
    decreases fv.len() - i,
{
    if i < fv.len() {
        lemma_payloads_from_len(fv, i + 1);
    }
}

/// Byte length of the filename records for files `i..`.
proof fn lemma_name_records_len(fv: Seq<(Seq<u8>, Seq<u8>)>, i: int)
    requires
        0 <= i <= fv.len(),
    ensures
        spec_name_records_from(fv, i).len() == names_prefix_len(fv, fv.len() as int)
            - names_prefix_len(fv, i),
    decreases fv.len() - i,
{
    if i < fv.len() {
        lemma_name_records_len(fv, i + 1);
    }
}

/// Byte length of the directory records for files `i..`.
proof fn lemma_dir_records_len(fv: Seq<(Seq<u8>, Seq<u8>)>, i: int)
    requires
        0 <= i <= fv.len(),
    ensures
        spec_dir_records_from(fv, i).len() == 16 * (fv.len() - i),
    decreases fv.len() - i,
{
    lemma_auto_spec_u16_to_from_le_bytes();
    lemma_auto_spec_u32_to_from_le_bytes();
    if i < fv.len() {
        lemma_dir_records_len(fv, i + 1);
    }
}

/// Byte length of the payload region for files `i..`.
proof fn lemma_payload_records_len(fv: Seq<(Seq<u8>, Seq<u8>)>, i: int)
    requires
        0 <= i <= fv.len(),
    ensures
        spec_payload_records_from(fv, i).len() == payload_prefix_len(fv, fv.len() as int)
            - payload_prefix_len(fv, i),
    decreases fv.len() - i,
{
    if i < fv.len() {
        lemma_payload_records_len(fv, i + 1);
    }
}

/// If `data` holds `piece` at `pos`, any slice of `piece` is a slice of
/// `data`.
proof fn lemma_slice_within(data: Seq<u8>, piece: Seq<u8>, pos: int, a: int, b: int)
    requires
        0 <= pos,
        pos + piece.len() <= data.len(),
        data.subrange(pos, pos + piece.len()) == piece,
        0 <= a <= b <= piece.len(),
    ensures
        data.subrange(pos + a, pos + b) == piece.subrange(a, b),
{
    assert forall|j: int| 0 <= j < b - a implies data.subrange(pos + a, pos + b)[j]
        == piece.subrange(a, b)[j] by {
        assert(piece[a + j] == data.subrange(pos, pos + piece.len())[a + j]);
    }
    assert(data.subrange(pos + a, pos + b) =~= piece.subrange(a, b));
}

/// If `data` holds `piece` at `pos`, byte `a` of `piece` stands at `pos + a`.
proof fn lemma_byte_within(data: Seq<u8>, piece: Seq<u8>, pos: int, a: int)
    requires
        0 <= pos,
        pos + piece.len() <= data.len(),
        data.subrange(pos, pos + piece.len()) == piece,
        0 <= a < piece.len(),
    ensures
        data[pos + a] == piece[a],
{
    assert(piece[a] == data.subrange(pos, pos + piece.len())[a]);
}

/// Parsing the filename records a pack wrote gives the original names back:
/// the length byte delimits each record and the stride-4 XOR is self-inverse.
proof fn lemma_parse_names_pack(fv: Seq<(Seq<u8>, Seq<u8>)>, data: Seq<u8>, pos: int, i: int)
    requires
        pack_ok(fv),
        0 <= i <= fv.len(),
        0 <= pos,
        pos + spec_name_records_from(fv, i).len() <= data.len(),
        data.subrange(pos, pos + spec_name_records_from(fv, i).len()) == spec_name_records_from(
            fv,
            i,
        ),
    ensures
        spec_parse_names(data, pos, fv.len() - i, archive_key_spec()) == Some(
            (names_from(fv, i), pos + spec_name_records_from(fv, i).len()),
        ),
    decreases fv.len() - i,
{
    let records = spec_name_records_from(fv, i);
    if i == fv.len() {
        assert(names_from(fv, i) =~= Seq::<Seq<u8>>::empty());
    } else {
        let name = fv[i].0;
        let len = name.len() as int;
        let record = spec_name_record(name);
        let rest = spec_name_records_from(fv, i + 1);
        assert(fv[i].0.len() <= 255);
        assert(record.len() == 1 + len);
        assert(records.len() == 1 + len + rest.len());
        lemma_byte_within(data, records, pos, 0);
        assert(records[0] == name.len() as u8);
        assert(data[pos] as int == len);
        lemma_slice_within(data, records, pos, 1, 1 + len);
        assert(records.subrange(1, 1 + len) =~= xor_stride4_spec(name, archive_key_spec()));
        lemma_xor_stride4_self_inverse(name, archive_key_spec());
        assert(xor_stride4_spec(data.subrange(pos + 1, pos + 1 + len), archive_key_spec()) == name);
        lemma_slice_within(data, records, pos, 1 + len, records.len() as int);
        assert(records.subrange(1 + len, records.len() as int) =~= rest);
        lemma_parse_names_pack(fv, data, pos + 1 + len, i + 1);
        assert(spec_parse_names(data, pos + 1 + len, fv.len() - i - 1, archive_key_spec()) == Some(
            (names_from(fv, i + 1), pos + 1 + len + rest.len()),
        ));
        assert(seq![name] + names_from(fv, i + 1) == names_from(fv, i));
        assert(spec_parse_names(data, pos, fv.len() - i, archive_key_spec()) == Some(
            (names_from(fv, i), pos + records.len()),
        ));
    }
}

/// Parsing the 16-byte directory records a pack wrote gives each file's
/// payload length and payload key back.
proof fn lemma_parse_entries_pack(fv: Seq<(Seq<u8>, Seq<u8>)>, data: Seq<u8>, pos: int, i: int)
    requires
        pack_ok(fv),
        0 <= i <= fv.len(),
        0 <= pos,
        pos + 16 * (fv.len() - i) <= data.len(),
        data.subrange(pos, pos + 16 * (fv.len() - i)) == spec_dir_records_from(fv, i),
    ensures
        spec_parse_entries(data, pos, fv.len() - i) == Some(
            (pairs_from(fv, i), pos + 16 * (fv.len() - i)),
        ),
    decreases fv.len() - i,
{
    lemma_auto_spec_u16_to_from_le_bytes();
    lemma_auto_spec_u32_to_from_le_bytes();
    if i == fv.len() {
    } else {
        let records = spec_dir_records_from(fv, i);
        let entry = spec_entry_bytes(fv, i);
        let rest = spec_dir_records_from(fv, i + 1);
        lemma_dir_records_len(fv, i + 1);
        lemma_dir_records_len(fv, i);
        assert(entry.len() == 16);
        let len32 = (fv[i].1.len() as u32);
        lemma_slice_within(data, records, pos, 8, 12);
        assert(records.subrange(8, 12) =~= spec_u32_to_le_bytes(len32));
        assert(spec_u32_from_le_bytes(data.subrange(pos + 8, pos + 12)) == len32);
        lemma_byte_within(data, records, pos, 12);
        assert(records[12] == entry[12]);
        assert(entry[12] == FILE_XOR_KEY);
        lemma_slice_within(data, records, pos, 16, records.len() as int);
        assert(records.subrange(16, records.len() as int) =~= rest);
        assert(data.subrange(pos + 16, pos + 16 + 16 * (fv.len() - i - 1)) == rest);
        lemma_parse_entries_pack(fv, data, pos + 16, i + 1);
        assert(seq![(len32, FILE_XOR_KEY)] + pairs_from(fv, i + 1) == pairs_from(fv, i));
    }
}

/// Parsing the payload region a pack wrote gives the original contents back:
/// the prefix-20 XOR is self-inverse.
proof fn lemma_parse_payloads_pack(
    fv: Seq<(Seq<u8>, Seq<u8>)>,
    data: Seq<u8>,
    pairs: Seq<(u32, u8)>,
    pos: int,
    i: int,
)
    requires
        pack_ok(fv),
        0 <= i <= fv.len(),
        0 <= pos,
        pairs.len() == fv.len(),
        forall|j: int|
            i <= j < fv.len() ==> #[trigger] pairs[j] == (fv[j].1.len() as u32, FILE_XOR_KEY),
        pos + spec_payload_records_from(fv, i).len() <= data.len(),
        data.subrange(pos, pos + spec_payload_records_from(fv, i).len())
            == spec_payload_records_from(fv, i),
    ensures
        spec_parse_payloads(data, pos, pairs, i) == Some(payloads_from(fv, i)),
    decreases fv.len() - i,
{
    if i == fv.len() {
    } else {
        let records = spec_payload_records_from(fv, i);
        let payload = fv[i].1;
        let len = payload.len() as int;
        let rest = spec_payload_records_from(fv, i + 1);
        crate::pack::lemma_payload_prefix_len_mono(fv, i + 1, fv.len() as int);
        crate::pack::lemma_payload_prefix_len_mono(fv, 0, i as int);
        crate::pack::lemma_names_prefix_len_mono(fv, 0, fv.len() as int);
        lemma_payload_records_len(fv, i);
        lemma_payload_records_len(fv, i + 1);
        assert(payload.len() <= 0xFFFF_FFFF);
        assert(pairs[i].0 as int == len);
        assert(records.len() == len + rest.len());
        lemma_slice_within(data, records, pos, 0, len);
        assert(records.subrange(0, len) =~= xor_prefix20_spec(payload, FILE_XOR_KEY));
        lemma_xor_prefix20_self_inverse(payload, FILE_XOR_KEY);
        lemma_slice_within(data, records, pos, len, records.len() as int);
        assert(records.subrange(len, records.len() as int) =~= rest);
        lemma_parse_payloads_pack(fv, data, pairs, pos + len, i + 1);
        assert(seq![payload] + payloads_from(fv, i + 1) == payloads_from(fv, i));
    }
}

/// Round-trip: unpacking a packed archive yields exactly the files that went
/// in, same names, same contents, same order.
pub proof fn lemma_pack_unpack_roundtrip(fv: Seq<(Seq<u8>, Seq<u8>)>)
    requires
        pack_ok(fv),
    ensures
        spec_unpack(spec_pack(fv)) == Ok::<Seq<(Seq<u8>, Seq<u8>)>, ArfError>(fv),
{
    lemma_auto_spec_u32_to_from_le_bytes();
    let data = spec_pack(fv);
    let h = spec_header_bytes(fv);
    let names = spec_name_records_from(fv, 0);
    let dir = spec_dir_records_from(fv, 0);
    let payloads = spec_payload_records_from(fv, 0);
    assert(h.len() == 16);
    lemma_name_records_len(fv, 0);
    lemma_dir_records_len(fv, 0);
    lemma_payload_records_len(fv, 0);
    crate::pack::lemma_names_prefix_len_mono(fv, 0, fv.len() as int);
    crate::pack::lemma_payload_prefix_len_mono(fv, 0, fv.len() as int);
    assert(data.len() == 16 + names.len() + dir.len() + payloads.len());

    assert(data.subrange(0, 4) =~= magic_spec());
    assert(data.subrange(4, 8) =~= spec_u32_to_le_bytes(fv.len() as u32));
    assert(data.subrange(8, 12) =~= archive_key_spec());
    let count = spec_u32_from_le_bytes(data.subrange(4, 8)) as int;
    assert(count == fv.len());

    let pos1 = 16 + names.len() as int;
    assert(data.subrange(16, pos1) =~= names);
    lemma_parse_names_pack(fv, data, 16, 0);
    assert(spec_parse_names(data, 16, count, data.subrange(8, 12)) == Some(
        (names_from(fv, 0), pos1),
    ));

    let pos2 = pos1 + dir.len() as int;
    assert(data.subrange(pos1, pos1 + 16 * (fv.len() - 0)) =~= dir);
    lemma_parse_entries_pack(fv, data, pos1, 0);
    assert(spec_parse_entries(data, pos1, count) == Some((pairs_from(fv, 0), pos2)));

    if fv.len() > 0 {
        lemma_pairs_from_len(fv, 0);
        assert forall|j: int| 0 <= j < fv.len() implies #[trigger] pairs_from(fv, 0)[j] == (
        fv[j].1.len() as u32,
        FILE_XOR_KEY,
        ) by {
            lemma_pairs_from_index(fv, 0, j);
        }
    }
    assert(data.subrange(pos2, pos2 + payloads.len() as int) =~= payloads);
    lemma_parse_payloads_pack(fv, data, pairs_from(fv, 0), pos2, 0);
    assert(spec_parse_payloads(data, pos2, pairs_from(fv, 0), 0) == Some(payloads_from(fv, 0)));

    let result = Seq::new(count as nat, |i: int| (names_from(fv, 0)[i], payloads_from(fv, 0)[i]));
    assert(spec_unpack(data) == Ok::<Seq<(Seq<u8>, Seq<u8>)>, ArfError>(result));
    assert forall|i: int| 0 <= i < fv.len() implies result[i] == fv[i] by {
        lemma_names_from_index(fv, 0, i);
        lemma_payloads_from_index(fv, 0, i);
        assert(result[i].0 == fv[i].0 && result[i].1 == fv[i].1);
        assert(result[i] == (fv[i].0, fv[i].1));
    }
    assert(result =~= fv);
}

} // verus!
