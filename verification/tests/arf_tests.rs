use arf::pack::{build_directory, pack_arf, PackOpts};
use arf::types::{archive_key, ArfError, ArfFile, ArfFileDirectoryEntry, ArfHeader, FILE_XOR_KEY};
use arf::unpack::{unpack_arf, UnpackOpts};
use arf::xor::{xor_prefix20, xor_stride4};
use arf::{Command, ProcessOutput};

const KEY: [u8; 4] = [0x69, 0x13, 0x37, 0x42];

#[test]
fn xor_stride4_exact_hello() {
    let mut buf = b"hello".to_vec();
    xor_stride4(&mut buf, KEY);
    // Only the first 4 bytes (the largest multiple-of-4 prefix) are XOR'd.
    assert_eq!(buf, vec![0x01, 0x76, 0x5b, 0x2e, 0x6f]);
}

#[test]
fn xor_stride4_self_inverse() {
    let original: Vec<u8> = (0u8..=50).collect();
    let mut buf = original.clone();
    xor_stride4(&mut buf, KEY);
    assert_ne!(buf, original);
    xor_stride4(&mut buf, KEY);
    assert_eq!(buf, original);
}

#[test]
fn xor_stride4_short_name_unchanged() {
    // A buffer shorter than 4 bytes has an affected prefix of length 0.
    let mut buf = b"abc".to_vec();
    xor_stride4(&mut buf, KEY);
    assert_eq!(buf, b"abc".to_vec());
    let mut empty: Vec<u8> = Vec::new();
    xor_stride4(&mut empty, KEY);
    assert_eq!(empty, Vec::<u8>::new());
}

#[test]
fn xor_prefix20_boundary() {
    let original: Vec<u8> = vec![0u8; 30];
    let mut buf = original.clone();
    xor_prefix20(&mut buf, 0x69);
    for i in 0..20 {
        assert_eq!(buf[i], 0x69);
    }
    for i in 20..30 {
        assert_eq!(buf[i], 0x00);
    }
}

#[test]
fn xor_prefix20_self_inverse() {
    let original: Vec<u8> = (0u8..=99).collect();
    let mut buf = original.clone();
    xor_prefix20(&mut buf, 0xa5);
    assert_ne!(buf, original);
    xor_prefix20(&mut buf, 0xa5);
    assert_eq!(buf, original);
}

#[test]
fn xor_prefix20_short_payload_fully_xored() {
    // A payload shorter than 20 bytes is XOR'd over its whole length.
    let mut buf = b"hello".to_vec();
    xor_prefix20(&mut buf, 0x69);
    assert_eq!(buf, vec![0x01, 0x0c, 0x05, 0x05, 0x06]);
}

#[test]
fn pack_empty_archive() {
    let files: Vec<ArfFile> = Vec::new();
    let archive = pack_arf(&files);
    // Header only: magic, file_count 0, archive key, directory_offset 16.
    assert_eq!(
        archive,
        vec![
            0x41, 0x52, 0x00, 0x00, // magic "AR\0\0"
            0x00, 0x00, 0x00, 0x00, // file_count = 0
            0x69, 0x13, 0x37, 0x42, // xor_key
            0x10, 0x00, 0x00, 0x00, // directory_offset = 16
        ]
    );
}

#[test]
fn unpack_empty_archive() {
    let files: Vec<ArfFile> = Vec::new();
    let archive = pack_arf(&files);
    let out = unpack_arf(&archive).unwrap();
    assert_eq!(out.len(), 0);
}

#[test]
fn unpack_bad_magic() {
    let mut archive = pack_arf(&Vec::new());
    archive[1] = 0x58;
    assert_eq!(unpack_arf(&archive).unwrap_err(), ArfError::FormatError);
}

#[test]
fn unpack_truncated() {
    // Too short even for the magic.
    assert_eq!(unpack_arf(&vec![0x41, 0x52]).unwrap_err(), ArfError::IoError);
    // Magic fine, header cut off.
    let archive = vec![0x41, 0x52, 0x00, 0x00, 0x01, 0x00];
    assert_eq!(unpack_arf(&archive).unwrap_err(), ArfError::IoError);
    // Whole header, but the promised filename directory is missing.
    let archive = vec![
        0x41, 0x52, 0x00, 0x00, 0x02, 0x00, 0x00, 0x00, 0x69, 0x13, 0x37, 0x42, 0x20, 0x00, 0x00,
        0x00,
    ];
    assert_eq!(unpack_arf(&archive).unwrap_err(), ArfError::IoError);
}

fn two_files() -> Vec<ArfFile> {
    vec![
        ArfFile { name: b"a.txt".to_vec(), data: b"hello".to_vec() },
        ArfFile { name: b"sub/b.bin".to_vec(), data: vec![0u8; 30] },
    ]
}

#[test]
fn directory_layout_two_files() {
    let files = two_files();
    let (header, entries) = build_directory(&files);
    assert_eq!(header.file_count, 2);
    assert_eq!(header.xor_key, [0x69, 0x13, 0x37, 0x42]);
    // 16 + (1 + 5) + (1 + 9)
    assert_eq!(header.directory_offset, 32);
    assert_eq!(entries.len(), 2);
    assert_eq!(entries[0].id, 0);
    assert_eq!(entries[0].unknown, 0);
    // directory_offset + 16 * 2 entries
    assert_eq!(entries[0].offset, 64);
    assert_eq!(entries[0].length, 5);
    assert_eq!(entries[0].file_xor_key, 0x69);
    assert_eq!(entries[0].padding, [0, 0, 0]);
    assert_eq!(entries[1].id, 1);
    assert_eq!(entries[1].offset, 69);
    assert_eq!(entries[1].length, 30);
    assert_eq!(entries[1].file_xor_key, 0x69);
}

#[test]
fn pack_two_files_bytes() {
    let files = two_files();
    let archive = pack_arf(&files);
    assert_eq!(archive.len(), 99);
    // Header.
    assert_eq!(&archive[0..4], &[0x41, 0x52, 0x00, 0x00]);
    assert_eq!(&archive[4..8], &[0x02, 0x00, 0x00, 0x00]);
    assert_eq!(&archive[8..12], &[0x69, 0x13, 0x37, 0x42]);
    assert_eq!(&archive[12..16], &[0x20, 0x00, 0x00, 0x00]);
    // Filename records, names XOR'd over their multiple-of-4 prefix.
    assert_eq!(archive[16], 5);
    // "a.txt" with its first 4 bytes XOR'd against the archive key.
    assert_eq!(&archive[17..22], &[0x08, 0x3d, 0x43, 0x3a, 0x74]);
    assert_eq!(archive[22], 9);
    assert_eq!(
        &archive[23..32],
        &[0x1a, 0x66, 0x55, 0x6d, 0x0b, 0x3d, 0x55, 0x2b, 0x6e]
    );
    // Directory entries.
    assert_eq!(
        &archive[32..48],
        &[
            0x00, 0x00, // id 0
            0x00, 0x00, // unknown
            0x40, 0x00, 0x00, 0x00, // offset 64
            0x05, 0x00, 0x00, 0x00, // length 5
            0x69, // file_xor_key
            0x00, 0x00, 0x00, // padding
        ]
    );
    assert_eq!(
        &archive[48..64],
        &[0x01, 0x00, 0x00, 0x00, 0x45, 0x00, 0x00, 0x00, 0x1e, 0x00, 0x00, 0x00, 0x69, 0x00,
            0x00, 0x00]
    );
    // Payloads: first 20 bytes of each XOR'd with 0x69.
    assert_eq!(&archive[64..69], &[0x01, 0x0c, 0x05, 0x05, 0x06]);
    for i in 69..89 {
        assert_eq!(archive[i], 0x69);
    }
    for i in 89..99 {
        assert_eq!(archive[i], 0x00);
    }
}

#[test]
fn roundtrip_two_files() {
    let files = two_files();
    let archive = pack_arf(&files);
    let out = unpack_arf(&archive).unwrap();
    assert_eq!(out.len(), files.len());
    for (got, want) in out.iter().zip(files.iter()) {
        assert_eq!(got.name, want.name);
        assert_eq!(got.data, want.data);
    }
}

#[test]
fn roundtrip_edge_cases() {
    // Empty content, content exactly at the 20-byte XOR boundary, a name
    // shorter than the 4-byte stride, and a long name.
    let files = vec![
        ArfFile { name: b"x".to_vec(), data: Vec::new() },
        ArfFile { name: b"twenty.bin".to_vec(), data: (0u8..20).collect() },
        ArfFile { name: b"a/b/c/deep.txt".to_vec(), data: vec![0xff; 21] },
        ArfFile { name: vec![b'n'; 255], data: b"?".to_vec() },
    ];
    let archive = pack_arf(&files);
    let out = unpack_arf(&archive).unwrap();
    assert_eq!(out.len(), files.len());
    for (got, want) in out.iter().zip(files.iter()) {
        assert_eq!(got.name, want.name);
        assert_eq!(got.data, want.data);
    }
}

#[test]
fn unpack_ignores_trailing_bytes() {
    let files = two_files();
    let mut archive = pack_arf(&files);
    archive.push(0xab);
    archive.push(0xcd);
    let out = unpack_arf(&archive).unwrap();
    assert_eq!(out.len(), 2);
    assert_eq!(out[0].data, b"hello".to_vec());
}

#[test]
fn header_encode_parse() {
    let header = ArfHeader { file_count: 7, xor_key: [1, 2, 3, 4], directory_offset: 123 };
    let bytes = header.encode();
    assert_eq!(bytes.len(), 16);
    let parsed = ArfHeader::parse(&bytes).unwrap();
    assert_eq!(parsed.file_count, 7);
    assert_eq!(parsed.xor_key, [1, 2, 3, 4]);
    assert_eq!(parsed.directory_offset, 123);
}

#[test]
fn entry_encode_parse() {
    let entry = ArfFileDirectoryEntry {
        id: 3,
        unknown: 9,
        offset: 0x01020304,
        length: 0x0a0b0c0d,
        file_xor_key: 0x5a,
        padding: [7, 8, 9],
    };
    let bytes = entry.encode();
    assert_eq!(bytes.len(), 16);
    assert_eq!(
        bytes,
        vec![0x03, 0x00, 0x09, 0x00, 0x04, 0x03, 0x02, 0x01, 0x0d, 0x0c, 0x0b, 0x0a, 0x5a, 0x07,
            0x08, 0x09]
    );
    let parsed = ArfFileDirectoryEntry::parse(&bytes, 0);
    assert_eq!(parsed.id, 3);
    assert_eq!(parsed.unknown, 9);
    assert_eq!(parsed.offset, 0x01020304);
    assert_eq!(parsed.length, 0x0a0b0c0d);
    assert_eq!(parsed.file_xor_key, 0x5a);
    assert_eq!(parsed.padding, [7, 8, 9]);
}

#[test]
fn constants_match_format() {
    assert_eq!(archive_key(), [0x69, 0x13, 0x37, 0x42]);
    assert_eq!(FILE_XOR_KEY, 0x69);
}

#[test]
fn process_pack_then_unpack() {
    let files = two_files();
    let packed = match Command::Pack(PackOpts { files: two_files() }).process().unwrap() {
        ProcessOutput::Packed(bytes) => bytes,
        ProcessOutput::Unpacked(_) => panic!("pack produced files"),
    };
    assert_eq!(packed, pack_arf(&files));
    let unpacked = match Command::Unpack(UnpackOpts { archive: packed }).process().unwrap() {
        ProcessOutput::Unpacked(out) => out,
        ProcessOutput::Packed(_) => panic!("unpack produced bytes"),
    };
    assert_eq!(unpacked.len(), 2);
    for (got, want) in unpacked.iter().zip(files.iter()) {
        assert_eq!(got.name, want.name);
        assert_eq!(got.data, want.data);
    }
}

#[test]
fn process_unpack_bad_magic() {
    let archive = vec![0u8; 32];
    let err = Command::Unpack(UnpackOpts { archive }).process().unwrap_err();
    assert_eq!(err, ArfError::FormatError);
}
