use b3hash::fs::{join_path, DirWalk};
use b3hash::hash_directory;
use b3hash::types::{Digest, DirEntry, EntryKind, HashedFile};
use b3hash::util::{normalize_separators, strip_root};

fn entry(name: &str, kind: EntryKind) -> DirEntry {
    DirEntry { name: name.as_bytes().to_vec(), kind }
}

/// Drives a walk over a simulated directory tree: `list` maps a directory
/// path to its entries, as the operating system would.
fn walk(root: &str, list: &dyn Fn(&[u8]) -> Vec<DirEntry>) -> Vec<Vec<u8>> {
    let mut w = DirWalk::new(root.as_bytes().to_vec());
    while let Some(dir) = w.next_folder() {
        let entries = list(&dir);
        w.push_entries(&dir, &entries);
    }
    w.into_files()
}

#[test]
fn hidden_entries_are_skipped_at_every_depth() {
    let files = walk("r", &|dir: &[u8]| match dir {
        b"r" => vec![
            entry("visible", EntryKind::Dir),
            entry(".git", EntryKind::Dir),
            entry("file.txt", EntryKind::File),
            entry(".hidden.txt", EntryKind::File),
        ],
        b"r/visible" => vec![
            entry(".hidden", EntryKind::Dir),
            entry("inner.txt", EntryKind::File),
        ],
        other => panic!("walk listed an excluded directory: {:?}", other),
    });
    // `.git` and `.hidden` are never listed at all; only visible files appear
    assert_eq!(files.len(), 2);
    assert!(files.contains(&b"r/file.txt".to_vec()));
    assert!(files.contains(&b"r/visible/inner.txt".to_vec()));
}

#[test]
fn entries_of_other_kinds_are_ignored() {
    let files = walk("root", &|dir: &[u8]| match dir {
        b"root" => vec![
            entry("link", EntryKind::Other),
            entry("real.txt", EntryKind::File),
        ],
        _ => Vec::new(),
    });
    assert_eq!(files, vec![b"root/real.txt".to_vec()]);
}

#[test]
fn hidden_file_scenario_yields_one_record() {
    // directory {a.txt: "hello", .secret: "x"}
    let files = walk("d", &|dir: &[u8]| match dir {
        b"d" => vec![entry("a.txt", EntryKind::File), entry(".secret", EntryKind::File)],
        _ => Vec::new(),
    });
    assert_eq!(files, vec![b"d/a.txt".to_vec()]);

    let records: Vec<HashedFile> = files
        .iter()
        .map(|abs| HashedFile {
            hash: Digest { bytes: *blake3::hash(b"hello").as_bytes() },
            path: strip_root(abs, 1),
            size: 5,
        })
        .collect();
    let snap = hash_directory(b"d".to_vec(), records);
    assert_eq!(snap.files.len(), 1);
    assert_eq!(snap.files[0].path, b"a.txt".to_vec());
    // the aggregate is computed over the one visible record alone
    let mut input: Vec<u8> = Vec::new();
    input.extend_from_slice(blake3::hash(b"hello").as_bytes());
    input.extend_from_slice(b"a.txt");
    assert_eq!(snap.hash.bytes, *blake3::hash(&input).as_bytes());
}

#[test]
fn worklist_is_popped_from_the_back() {
    let mut w = DirWalk::new(b"r".to_vec());
    let first = w.next_folder().expect("the root is pending");
    assert_eq!(first, b"r".to_vec());
    w.push_entries(&first, &vec![entry("a", EntryKind::Dir), entry("b", EntryKind::Dir)]);
    let second = w.next_folder().expect("two directories are pending");
    assert_eq!(second, b"r/b".to_vec());
    w.push_entries(&second, &Vec::new());
    let third = w.next_folder().expect("one directory is pending");
    assert_eq!(third, b"r/a".to_vec());
    w.push_entries(&third, &Vec::new());
    assert!(w.next_folder().is_none());
}

#[test]
fn join_and_strip_are_inverse() {
    let dir = b"root/sub".to_vec();
    let name = b"file.txt".to_vec();
    let joined = join_path(&dir, &name);
    assert_eq!(joined, b"root/sub/file.txt".to_vec());
    assert_eq!(strip_root(&joined, b"root/sub".len()), name);
}

#[test]
fn separators_normalize_to_forward_slash() {
    let path = b"dir\\sub\\file.txt".to_vec();
    assert_eq!(normalize_separators(&path), b"dir/sub/file.txt".to_vec());
    let unchanged = b"dir/sub/file.txt".to_vec();
    assert_eq!(normalize_separators(&unchanged), unchanged);
}
