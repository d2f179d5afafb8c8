use b3hash::hash_directory;
use b3hash::types::{Digest, HashedFile};

fn digest_of(data: &[u8]) -> Digest {
    Digest { bytes: *blake3::hash(data).as_bytes() }
}

fn record(path: &str, content: &[u8], size: u64) -> HashedFile {
    HashedFile { hash: digest_of(content), path: path.as_bytes().to_vec(), size }
}

#[test]
fn determinism_same_records_any_order() {
    let a = vec![
        record("a.txt", b"hello", 5),
        record("b/sub.txt", b"world", 5),
        record("zed.bin", b"\x00\x01", 2),
    ];
    let b = vec![
        record("zed.bin", b"\x00\x01", 2),
        record("b/sub.txt", b"world", 5),
        record("a.txt", b"hello", 5),
    ];
    let snap_a = hash_directory(b"root".to_vec(), a);
    let snap_b = hash_directory(b"root".to_vec(), b);
    assert_eq!(snap_a.hash.bytes, snap_b.hash.bytes);
    assert_eq!(snap_a.size, snap_b.size);
    assert_eq!(snap_a.files.len(), snap_b.files.len());
    for (x, y) in snap_a.files.iter().zip(snap_b.files.iter()) {
        assert_eq!(x.path, y.path);
        assert_eq!(x.hash.bytes, y.hash.bytes);
        assert_eq!(x.size, y.size);
    }
}

#[test]
fn aggregate_digest_is_blake3_of_concatenation() {
    let files = vec![record("b.txt", b"bb", 2), record("a.txt", b"aa", 2)];
    let snap = hash_directory(b"root".to_vec(), files);
    // sorted order: a.txt before b.txt
    let mut expected_input: Vec<u8> = Vec::new();
    expected_input.extend_from_slice(blake3::hash(b"aa").as_bytes());
    expected_input.extend_from_slice(b"a.txt");
    expected_input.extend_from_slice(blake3::hash(b"bb").as_bytes());
    expected_input.extend_from_slice(b"b.txt");
    let expected = blake3::hash(&expected_input);
    assert_eq!(snap.hash.bytes, *expected.as_bytes());
}

#[test]
fn records_sorted_in_byte_lexicographic_path_order() {
    let files = vec![
        record("b", b"1", 1),
        record("a/b", b"2", 1),
        record("a-b/c", b"3", 1),
    ];
    let snap = hash_directory(b"r".to_vec(), files);
    let order: Vec<&[u8]> = snap.files.iter().map(|f| f.path.as_slice()).collect();
    // '-' (0x2d) sorts before '/' (0x2f), which sorts before 'b'
    assert_eq!(order, vec![b"a-b/c".as_slice(), b"a/b".as_slice(), b"b".as_slice()]);
}

#[test]
fn total_size_is_the_sum() {
    let files = vec![
        record("x", b"0123456789", 10),
        record("y", b"01234567890123456789", 20),
        record("z", &[7u8; 30], 30),
    ];
    let snap = hash_directory(b"r".to_vec(), files);
    assert_eq!(snap.size, 60);
}

#[test]
fn total_size_saturates_at_u64_max() {
    let files = vec![record("x", b"a", u64::MAX), record("y", b"b", 2)];
    let snap = hash_directory(b"r".to_vec(), files);
    assert_eq!(snap.size, u64::MAX);
}

#[test]
fn duplicate_paths_still_order_deterministically() {
    // records that tie on path are ordered by digest, then size, so even
    // degenerate inputs fingerprint the same both ways around
    let a = vec![record("same", b"one", 3), record("same", b"two", 3)];
    let b = vec![record("same", b"two", 3), record("same", b"one", 3)];
    let snap_a = hash_directory(b"r".to_vec(), a);
    let snap_b = hash_directory(b"r".to_vec(), b);
    assert_eq!(snap_a.hash.bytes, snap_b.hash.bytes);
    assert_eq!(snap_a.files[0].hash.bytes, snap_b.files[0].hash.bytes);
}

#[test]
fn empty_directory_fingerprint() {
    let snap = hash_directory(b"root".to_vec(), Vec::new());
    assert_eq!(snap.files.len(), 0);
    assert_eq!(snap.size, 0);
    assert_eq!(snap.hash.bytes, *blake3::hash(b"").as_bytes());
    assert_eq!(snap.dir_name, b"root".to_vec());
}
