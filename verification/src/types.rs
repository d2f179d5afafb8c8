use vstd::prelude::*;

verus! {

/// A 256-bit content digest, stored as its raw bytes.
pub struct Digest {
    pub bytes: [u8; 32],
}

impl View for Digest {
    type V = Seq<u8>;

    open spec fn view(&self) -> Seq<u8> {
        self.bytes@
    }
}

/// Compares two digests byte for byte.
///
/// A plain byte-for-byte comparison of fixed-width data runs in time
/// independent of where the contents differ on common targets, which is
/// why validation uses it instead of an early-exit string comparison.
pub fn digest_eq(a: &Digest, b: &Digest) -> (r: bool)
    ensures
        r == (a@ == b@),
{
    let mut i: usize = 0;
    while i < 32
        invariant
            i <= 32,
            forall|j: int| 0 <= j < i ==> a@[j] == b@[j],
        decreases 32 - i,
    {
        if a.bytes[i] != b.bytes[i] {
            assert(a@[i as int] != b@[i as int]);
            return false;
        }
        i = i + 1;
    }
    assert(a@ =~= b@);
    true
}

/// One hashed file: its content digest, its path relative to the hashed
/// root (separated by forward slashes), and its size in bytes.
pub struct HashedFile {
    pub hash: Digest,
    pub path: Vec<u8>,
    /// Size of the hashed file, in bytes.
    pub size: u64,
}

/// The mathematical value of a `HashedFile`.
pub struct HashedFileView {
    pub hash: Seq<u8>,
    pub path: Seq<u8>,
    pub size: u64,
}

impl View for HashedFile {
    type V = HashedFileView;

    open spec fn view(&self) -> HashedFileView {
        HashedFileView { hash: self.hash@, path: self.path@, size: self.size }
    }
}

/// The views of a sequence of hashed files, in order.
pub open spec fn rec_views(s: Seq<HashedFile>) -> Seq<HashedFileView> {
    s.map_values(|f: HashedFile| f@)
}

/// The fingerprint of a whole directory: its name, its hashed files in
/// canonical order, the digest aggregated over them, and their total size.
pub struct HashedDirectory {
    pub dir_name: Vec<u8>,
    pub files: Vec<HashedFile>,
    pub hash: Digest,
    /// Cumulative size of all hashed files, in bytes.
    pub size: u64,
}

/// One parsed line of a persisted hashfile document: the recorded digest
/// and the path it was recorded for.
pub struct HashfileEntry {
    pub hash: Digest,
    pub path: Vec<u8>,
}

/// The mathematical value of a `HashfileEntry`: its digest bytes and path bytes.
pub open spec fn entry_view(e: HashfileEntry) -> (Seq<u8>, Seq<u8>) {
    (e.hash@, e.path@)
}

/// The views of a sequence of parsed entries, in order.
pub open spec fn entry_views(s: Seq<HashfileEntry>) -> Seq<(Seq<u8>, Seq<u8>)> {
    s.map_values(|e: HashfileEntry| entry_view(e))
}

/// The outcome of re-examining one recorded file on disk: the file is
/// gone, or it is present with the given freshly computed digest.
pub enum FileCheck {
    Missing,
    Present(Digest),
}

/// The mathematical value of a `FileCheck`: `None` for a missing file,
/// otherwise the fresh digest bytes.
pub open spec fn check_view(c: FileCheck) -> Option<Seq<u8>> {
    match c {
        FileCheck::Missing => None,
        FileCheck::Present(d) => Some(d@),
    }
}

/// The views of a sequence of file checks, in order.
pub open spec fn check_views(s: Seq<FileCheck>) -> Seq<Option<Seq<u8>>> {
    s.map_values(|c: FileCheck| check_view(c))
}

/// Why a persisted hashfile document failed to parse.
#[derive(Clone, Copy, PartialEq, Eq, Structural, Debug)]
pub enum ParseError {
    /// A line held no delimiter between digest and path.
    MissingDelimiter,
    /// The digest part of a line was not exactly 64 hexadecimal digits.
    InvalidDigest,
}

/// What kind of directory entry a listing reported.
#[derive(Clone, Copy, PartialEq, Eq, Structural, Debug)]
pub enum EntryKind {
    File,
    Dir,
    Other,
}

/// One entry of a directory listing: the entry's own name (its final
/// path component) and its kind.
pub struct DirEntry {
    pub name: Vec<u8>,
    pub kind: EntryKind,
}

} // verus!
