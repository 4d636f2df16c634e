use std::io::Read;

use jag::{Archive, ArchiveError, entry_hash};

fn be24(v: usize) -> [u8; 3] {
    [(v >> 16) as u8, (v >> 8) as u8, v as u8]
}

fn be32(v: u32) -> [u8; 4] {
    [(v >> 24) as u8, (v >> 16) as u8, (v >> 8) as u8, v as u8]
}

/// An uncompressed archive holding the given raw entries.
fn build_raw_archive(entries: &[(&str, &[u8])]) -> Vec<u8> {
    let mut section = Vec::new();
    section.push((entries.len() >> 8) as u8);
    section.push(entries.len() as u8);
    for (name, data) in entries {
        section.extend_from_slice(&be32(entry_hash(name)));
        section.extend_from_slice(&be24(data.len()));
        section.extend_from_slice(&be24(data.len()));
    }
    for (_, data) in entries {
        section.extend_from_slice(data);
    }
    let mut out = Vec::new();
    out.extend_from_slice(&be24(section.len()));
    out.extend_from_slice(&be24(section.len()));
    out.extend_from_slice(&section);
    out
}

/// Compresses with bzip2 at level 1 and strips the 4-byte magic, as the
/// wire format stores compressed regions.
fn headerless_bzip2(data: &[u8]) -> Vec<u8> {
    let mut encoder = bzip2::read::BzEncoder::new(data, bzip2::Compression::new(1));
    let mut full = Vec::new();
    encoder.read_to_end(&mut full).unwrap();
    assert_eq!(&full[0..4], &[0x42, 0x5a, 0x68, 0x31]);
    full.split_off(4)
}

#[test]
fn test_truncated_header() {
    for len in 0..6 {
        let buffer = vec![0u8; len];
        assert!(matches!(Archive::decode(&buffer), Err(ArchiveError::TruncatedInput)));
    }
}

#[test]
fn test_truncated_header_leaves_store_untouched() {
    let mut archive = Archive::new();
    archive.insert("kept", vec![5u8, 6, 7]);

    let buffer = vec![0u8, 0, 0];
    assert_eq!(archive.read_archive(&buffer), Err(ArchiveError::TruncatedInput));
    assert_eq!(archive.len(), 1);
    assert_eq!(archive.get("kept"), Some(&vec![5u8, 6, 7]));
}

#[test]
fn test_truncated_entry_count() {
    // A valid outer header (equal sizes, so no decompression) over a
    // payload of one byte: too short for the 2-byte entry count.
    let mut buffer = Vec::new();
    buffer.extend_from_slice(&be24(1));
    buffer.extend_from_slice(&be24(1));
    buffer.push(0);
    assert!(matches!(Archive::decode(&buffer), Err(ArchiveError::TruncatedInput)));
}

#[test]
fn test_truncated_descriptor() {
    // Entry count 1 but no descriptor bytes behind it.
    let mut buffer = Vec::new();
    buffer.extend_from_slice(&be24(2));
    buffer.extend_from_slice(&be24(2));
    buffer.extend_from_slice(&[0, 1]);
    assert!(matches!(Archive::decode(&buffer), Err(ArchiveError::TruncatedInput)));
}

#[test]
fn test_truncated_data_block() {
    // One raw entry claiming 4 data bytes, with only 2 present.
    let mut section = Vec::new();
    section.extend_from_slice(&[0, 1]);
    section.extend_from_slice(&be32(entry_hash("x")));
    section.extend_from_slice(&be24(4));
    section.extend_from_slice(&be24(4));
    section.extend_from_slice(&[7, 7]);
    let mut buffer = Vec::new();
    buffer.extend_from_slice(&be24(section.len()));
    buffer.extend_from_slice(&be24(section.len()));
    buffer.extend_from_slice(&section);
    assert!(matches!(Archive::decode(&buffer), Err(ArchiveError::TruncatedInput)));
}

#[test]
fn test_container_decompression_error() {
    // Differing outer sizes signal a compressed payload; garbage bytes
    // must surface as DecompressionError, not a crash.
    let mut buffer = Vec::new();
    buffer.extend_from_slice(&be24(10));
    buffer.extend_from_slice(&be24(4));
    buffer.extend_from_slice(&[0xde, 0xad, 0xbe, 0xef]);
    assert!(matches!(Archive::decode(&buffer), Err(ArchiveError::DecompressionError)));
}

#[test]
fn test_entry_decompression_error() {
    // One entry whose sizes differ but whose block is not a bzip2 stream.
    let mut section = Vec::new();
    section.extend_from_slice(&[0, 1]);
    section.extend_from_slice(&be32(entry_hash("bad")));
    section.extend_from_slice(&be24(100));
    section.extend_from_slice(&be24(3));
    section.extend_from_slice(&[1, 2, 3]);
    let mut buffer = Vec::new();
    buffer.extend_from_slice(&be24(section.len()));
    buffer.extend_from_slice(&be24(section.len()));
    buffer.extend_from_slice(&section);
    assert!(matches!(Archive::decode(&buffer), Err(ArchiveError::DecompressionError)));
}

#[test]
fn test_decode_raw_wire_format() {
    let buffer = build_raw_archive(&[("a.dat", b"alpha"), ("b.dat", b"bravo!")]);
    let archive = Archive::decode(&buffer).unwrap();

    assert_eq!(archive.len(), 2);
    assert_eq!(archive.get("a.dat"), Some(&b"alpha".to_vec()));
    assert_eq!(archive.get("b.dat"), Some(&b"bravo!".to_vec()));
}

#[test]
fn test_decode_compressed_entry_against_bzip2() {
    // Ground truth through the real compressor: a block stored without
    // its magic must come back byte-identical after decoding.
    let original: Vec<u8> = (0..200u16).map(|i| (i % 7) as u8).collect();
    let stripped = headerless_bzip2(&original);

    let mut section = Vec::new();
    section.extend_from_slice(&[0, 1]);
    section.extend_from_slice(&be32(entry_hash("packed.bin")));
    section.extend_from_slice(&be24(original.len()));
    section.extend_from_slice(&be24(stripped.len()));
    section.extend_from_slice(&stripped);
    let mut buffer = Vec::new();
    buffer.extend_from_slice(&be24(section.len()));
    buffer.extend_from_slice(&be24(section.len()));
    buffer.extend_from_slice(&section);

    let archive = Archive::decode(&buffer).unwrap();
    assert_eq!(archive.get("packed.bin"), Some(&original));
}

#[test]
fn test_decode_compressed_container_against_bzip2() {
    let inner = build_raw_archive(&[("one", b"first entry"), ("two", b"second entry")]);
    let section = inner[6..].to_vec();
    let stripped = headerless_bzip2(&section);

    let mut buffer = Vec::new();
    buffer.extend_from_slice(&be24(section.len()));
    buffer.extend_from_slice(&be24(stripped.len()));
    buffer.extend_from_slice(&stripped);

    let archive = Archive::decode(&buffer).unwrap();
    assert_eq!(archive.len(), 2);
    assert_eq!(archive.get("one"), Some(&b"first entry".to_vec()));
    assert_eq!(archive.get("two"), Some(&b"second entry".to_vec()));
}

#[test]
fn test_duplicate_hash_last_wins() {
    // Two descriptors under one hash: the later entry replaces the
    // earlier one, the store keeps a single value.
    let buffer = build_raw_archive(&[("same", b"old"), ("same", b"newer")]);
    let archive = Archive::decode(&buffer).unwrap();

    assert_eq!(archive.len(), 1);
    assert_eq!(archive.get("same"), Some(&b"newer".to_vec()));
}

#[test]
fn test_round_trip_empty() {
    let archive = Archive::new();

    // An empty store still yields a syntactically valid archive: the
    // entry section is just the zero entry count.
    assert_eq!(archive.generate_data_block(), Some(vec![0u8, 0u8]));

    let bytes = archive.encode().unwrap();
    let back = Archive::decode(&bytes).unwrap();

    assert_eq!(back.len(), 0);
}

#[test]
fn test_round_trip_mixed_entries() {
    let mut archive = Archive::new();
    // Highly compressible, incompressible, and empty payloads.
    archive.insert("repetitive.txt", vec![b'z'; 4096]);
    archive.insert("tiny.bin", vec![1u8, 2, 3]);
    archive.insert("empty.bin", Vec::new());
    let mixed: Vec<u8> = (0..1024u32).map(|i| (i.wrapping_mul(2654435761) >> 13) as u8).collect();
    archive.insert("mixed.bin", mixed.clone());

    let bytes = archive.encode().unwrap();
    let back = Archive::decode(&bytes).unwrap();

    assert_eq!(back.len(), 4);
    assert_eq!(back.get("repetitive.txt"), Some(&vec![b'z'; 4096]));
    assert_eq!(back.get("tiny.bin"), Some(&vec![1u8, 2, 3]));
    assert_eq!(back.get("empty.bin"), Some(&Vec::new()));
    assert_eq!(back.get("mixed.bin"), Some(&mixed));
}

#[test]
fn test_round_trip_nine_entries() {
    // The shape of a classic title-screen archive: nine entries, one of
    // them logo.tga, all byte-exact after a full round trip.
    let names = [
        "logo.tga", "index.dat", "title.dat", "model.dat", "anim.dat", "sounds.dat", "map.dat",
        "land.dat", "media.dat",
    ];
    let mut archive = Archive::new();
    let logo: Vec<u8> = (0..2048u32).map(|i| (i * 31 % 251) as u8).collect();
    archive.insert("logo.tga", logo.clone());
    for (k, name) in names.iter().enumerate().skip(1) {
        archive.insert(name, vec![k as u8; 100 * k]);
    }

    let bytes = archive.encode().unwrap();
    let mut back = Archive::decode(&bytes).unwrap();

    assert_eq!(back.len(), 9);
    assert_eq!(back.contains_key("logo.tga"), true);
    assert_eq!(back.get("logo.tga"), Some(&logo));

    back.clear();
    assert_eq!(back.len(), 0);
}

#[test]
fn test_merge_overwrites_existing() {
    let mut archive = Archive::new();
    archive.insert("keep.dat", vec![1u8]);
    archive.insert("shared.dat", vec![2u8]);

    let buffer = build_raw_archive(&[("shared.dat", b"incoming"), ("fresh.dat", b"new")]);
    archive.read_archive(&buffer).unwrap();

    assert_eq!(archive.len(), 3);
    assert_eq!(archive.get("keep.dat"), Some(&vec![1u8]));
    assert_eq!(archive.get("shared.dat"), Some(&b"incoming".to_vec()));
    assert_eq!(archive.get("fresh.dat"), Some(&b"new".to_vec()));
}

#[test]
fn test_encode_is_order_independent() {
    // Entries go out in ascending key order, so the wire form depends
    // only on the store's contents, not on insertion history.
    let mut first = Archive::new();
    first.insert("x.dat", vec![1u8, 2, 3]);
    first.insert("y.dat", vec![4u8, 5]);

    let mut second = Archive::new();
    second.insert("y.dat", vec![4u8, 5]);
    second.insert("x.dat", vec![1u8, 2, 3]);

    assert_eq!(first.encode().unwrap(), second.encode().unwrap());
}

#[test]
fn test_encode_rejects_oversized_entry() {
    let mut archive = Archive::new();
    archive.insert("huge.bin", vec![0u8; 0x100_0000]);

    assert_eq!(archive.encode(), None);
    assert_eq!(archive.generate_data_block(), None);
}

#[test]
fn test_generate_data_block_entry_count() {
    let mut archive = Archive::new();
    archive.insert("a", vec![9u8]);
    archive.insert("b", vec![8u8]);

    let section = archive.generate_data_block().unwrap();
    assert_eq!(&section[0..2], &[0u8, 2]);
}
