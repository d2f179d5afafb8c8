use b3hash::codec::{parse_hashfile, serialize_hashed_files};
use b3hash::create_hashfile_with_threads;
use b3hash::hex::{hex_decode_digest, hex_encode_digest};
use b3hash::types::{Digest, HashedFile, ParseError};

fn digest_of(data: &[u8]) -> Digest {
    Digest { bytes: *blake3::hash(data).as_bytes() }
}

fn record(path: &str, content: &[u8], size: u64) -> HashedFile {
    HashedFile { hash: digest_of(content), path: path.as_bytes().to_vec(), size }
}

#[test]
fn serialized_line_layout() {
    let files = vec![record("a.txt", b"hello", 5)];
    let doc = serialize_hashed_files(&files);
    let mut expected: Vec<u8> = Vec::new();
    expected.extend_from_slice(blake3::hash(b"hello").to_hex().as_bytes());
    expected.push(b' ');
    expected.extend_from_slice(b"a.txt");
    expected.push(b'\n');
    assert_eq!(doc, expected);
}

#[test]
fn document_round_trip() {
    // a path with a space still round-trips: the digest part never holds
    // one, so the first delimiter on the line is always the right one
    let files = vec![
        record("a.txt", b"hello", 5),
        record("dir with space/b.txt", b"world", 5),
    ];
    let doc = create_hashfile_with_threads(files);
    let entries = parse_hashfile(&doc).expect("canonical document must parse");
    assert_eq!(entries.len(), 2);
    assert_eq!(entries[0].path, b"a.txt".to_vec());
    assert_eq!(entries[0].hash.bytes, *blake3::hash(b"hello").as_bytes());
    assert_eq!(entries[1].path, b"dir with space/b.txt".to_vec());
    assert_eq!(entries[1].hash.bytes, *blake3::hash(b"world").as_bytes());
}

#[test]
fn missing_delimiter_is_a_hard_failure() {
    let doc = b"deadbeef\n".to_vec();
    assert_eq!(parse_hashfile(&doc).err(), Some(ParseError::MissingDelimiter));
}

#[test]
fn short_digest_is_invalid() {
    let doc = b"abc path.txt\n".to_vec();
    assert_eq!(parse_hashfile(&doc).err(), Some(ParseError::InvalidDigest));
}

#[test]
fn non_hex_digest_is_invalid() {
    let mut doc = vec![b'z'; 64];
    doc.push(b' ');
    doc.extend_from_slice(b"path.txt");
    doc.push(b'\n');
    assert_eq!(parse_hashfile(&doc).err(), Some(ParseError::InvalidDigest));
}

#[test]
fn first_bad_line_aborts_parsing() {
    let good = record("ok.txt", b"fine", 4);
    let mut doc = serialize_hashed_files(&vec![good]);
    doc.extend_from_slice(b"nodelimiter\n");
    assert_eq!(parse_hashfile(&doc).err(), Some(ParseError::MissingDelimiter));
}

#[test]
fn empty_document_parses_to_no_entries() {
    let doc: Vec<u8> = Vec::new();
    let entries = parse_hashfile(&doc).expect("empty document is well formed");
    assert_eq!(entries.len(), 0);
}

#[test]
fn final_line_without_line_feed_still_parses() {
    let files = vec![record("a.txt", b"hello", 5)];
    let mut doc = serialize_hashed_files(&files);
    assert_eq!(doc.pop(), Some(b'\n'));
    let entries = parse_hashfile(&doc).expect("line feed on the last line is optional");
    assert_eq!(entries.len(), 1);
    assert_eq!(entries[0].path, b"a.txt".to_vec());
}

#[test]
fn hex_encoding_is_lowercase_and_exact() {
    let mut bytes = [0u8; 32];
    for (i, b) in bytes.iter_mut().enumerate() {
        *b = (i as u8) * 8 + 7;
    }
    let d = Digest { bytes };
    let mut out: Vec<u8> = Vec::new();
    hex_encode_digest(&d, &mut out);
    let mut expected = String::new();
    for b in bytes.iter() {
        expected.push_str(&format!("{:02x}", b));
    }
    assert_eq!(out, expected.into_bytes());
}

#[test]
fn hex_decoding_accepts_both_cases() {
    let lower = b"00ff10ab00ff10ab00ff10ab00ff10ab00ff10ab00ff10ab00ff10ab00ff10ab".to_vec();
    let upper = b"00FF10AB00FF10AB00FF10AB00FF10AB00FF10AB00FF10AB00FF10AB00FF10AB".to_vec();
    let dl = hex_decode_digest(&lower, 0).expect("lowercase digits decode");
    let du = hex_decode_digest(&upper, 0).expect("uppercase digits decode");
    assert_eq!(dl.bytes, du.bytes);
    assert_eq!(&dl.bytes[0..4], &[0x00, 0xff, 0x10, 0xab]);
}
