use b3hash::codec::parse_hashfile;
use b3hash::create_hashfile_with_threads;
use b3hash::types::{digest_eq, Digest, FileCheck, HashedFile};
use b3hash::validate_hashfile_with_threads;

fn digest_of(data: &[u8]) -> Digest {
    Digest { bytes: *blake3::hash(data).as_bytes() }
}

fn record(path: &str, content: &[u8], size: u64) -> HashedFile {
    HashedFile { hash: digest_of(content), path: path.as_bytes().to_vec(), size }
}

#[test]
fn persist_then_validate_reports_nothing() {
    let files = vec![record("a.txt", b"hello", 5), record("b/sub.txt", b"world", 5)];
    let doc = create_hashfile_with_threads(files);
    let entries = parse_hashfile(&doc).expect("canonical document must parse");
    // the directory is unchanged: every fresh digest equals the recorded one
    let checks: Vec<FileCheck> = entries
        .iter()
        .map(|e| FileCheck::Present(Digest { bytes: e.hash.bytes }))
        .collect();
    assert!(validate_hashfile_with_threads(&entries, &checks).is_none());
}

#[test]
fn mutation_is_reported_for_exactly_the_changed_file() {
    let files = vec![record("a.txt", b"hello", 5), record("b/sub.txt", b"world", 5)];
    let doc = create_hashfile_with_threads(files);
    let entries = parse_hashfile(&doc).expect("canonical document must parse");
    let checks: Vec<FileCheck> = entries
        .iter()
        .map(|e| {
            if e.path == b"a.txt".to_vec() {
                // a.txt was overwritten with "hellx" after persisting
                FileCheck::Present(digest_of(b"hellx"))
            } else {
                FileCheck::Present(Digest { bytes: e.hash.bytes })
            }
        })
        .collect();
    let failed = validate_hashfile_with_threads(&entries, &checks).expect("one file changed");
    assert_eq!(failed, vec![b"a.txt".to_vec()]);
}

#[test]
fn deletion_is_reported_for_exactly_the_deleted_file() {
    let files = vec![record("a.txt", b"hello", 5), record("b/sub.txt", b"world", 5)];
    let doc = create_hashfile_with_threads(files);
    let entries = parse_hashfile(&doc).expect("canonical document must parse");
    let checks: Vec<FileCheck> = entries
        .iter()
        .map(|e| {
            if e.path == b"b/sub.txt".to_vec() {
                // b/sub.txt was deleted after persisting
                FileCheck::Missing
            } else {
                FileCheck::Present(Digest { bytes: e.hash.bytes })
            }
        })
        .collect();
    let failed = validate_hashfile_with_threads(&entries, &checks).expect("one file missing");
    assert_eq!(failed, vec![b"b/sub.txt".to_vec()]);
}

#[test]
fn modified_and_missing_fold_into_one_category() {
    let files = vec![
        record("a.txt", b"hello", 5),
        record("b.txt", b"bonjour", 7),
        record("c.txt", b"hola", 4),
    ];
    let doc = create_hashfile_with_threads(files);
    let entries = parse_hashfile(&doc).expect("canonical document must parse");
    let checks: Vec<FileCheck> = entries
        .iter()
        .map(|e| {
            if e.path == b"a.txt".to_vec() {
                FileCheck::Present(digest_of(b"tampered"))
            } else if e.path == b"b.txt".to_vec() {
                FileCheck::Missing
            } else {
                FileCheck::Present(Digest { bytes: e.hash.bytes })
            }
        })
        .collect();
    let failed = validate_hashfile_with_threads(&entries, &checks).expect("two files failed");
    assert_eq!(failed, vec![b"a.txt".to_vec(), b"b.txt".to_vec()]);
}

#[test]
fn empty_document_validates_clean() {
    let entries = Vec::new();
    let checks = Vec::new();
    assert!(validate_hashfile_with_threads(&entries, &checks).is_none());
}

#[test]
fn digest_comparison_is_bytewise() {
    let d1 = digest_of(b"same");
    let d2 = digest_of(b"same");
    let d3 = digest_of(b"other");
    assert!(digest_eq(&d1, &d2));
    assert!(!digest_eq(&d1, &d3));
}
