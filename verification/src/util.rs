use vstd::prelude::*;

verus! {

/// Appends every byte of `src` to `dst`, in order.
pub(crate) fn append_bytes(dst: &mut Vec<u8>, src: &[u8])
    ensures
        final(dst)@ == old(dst)@ + src@,
{
    let ghost orig = dst@;
    let n = src.len();
    let mut i: usize = 0;
    while i < n
        invariant
            n == src@.len(),
            i <= n,
            dst@ == orig + src@.take(i as int),
        decreases n - i,
    {
        dst.push(src[i]);
        proof {
            assert(orig + src@.take(i + 1) =~= (orig + src@.take(i as int)).push(src@[i as int]));
        }
        i = i + 1;
    }
    assert(src@.take(n as int) =~= src@);
}

/// Copies a byte string into a fresh vector.
pub(crate) fn clone_bytes(src: &[u8]) -> (r: Vec<u8>)
    ensures
        r@ == src@,
{
    let mut r: Vec<u8> = Vec::new();
    append_bytes(&mut r, src);
    assert(r@ =~= src@);
    r
}

/// Copies the bytes `src[start .. end]` into a fresh vector.
pub(crate) fn copy_range(src: &Vec<u8>, start: usize, end: usize) -> (r: Vec<u8>)
    requires
        start <= end <= src@.len(),
    ensures
        r@ == src@.subrange(start as int, end as int),
{
    let mut r: Vec<u8> = Vec::new();
    let mut i: usize = start;
    while i < end
        invariant
            start <= i <= end,
            end <= src@.len(),
            r@ == src@.subrange(start as int, i as int),
        decreases end - i,
    {
        r.push(src[i]);
        proof {
            assert(src@.subrange(start as int, i + 1) =~= src@.subrange(
                start as int,
                i as int,
            ).push(src@[i as int]));
        }
        i = i + 1;
    }
    r
}

/// Strips a root prefix of `root_len` bytes, plus the one separator byte
/// after it, from an absolute path, leaving the path relative to the root.
pub fn strip_root(path: &Vec<u8>, root_len: usize) -> (r: Vec<u8>)
    requires
        root_len < path@.len(),
    ensures
        r@ == path@.subrange(root_len + 1, path@.len() as int),
{
    let n = path.len();
    copy_range(path, root_len + 1, n)
}

/// A copy of `path` with every backslash replaced by a forward slash, so
/// that hosts whose native separator is the backslash serialize the same
/// relative paths as everyone else.
pub fn normalize_separators(path: &Vec<u8>) -> (r: Vec<u8>)
    ensures
        r@.len() == path@.len(),
        forall|i: int|
            0 <= i < path@.len() ==> r@[i] == (if path@[i] == 92u8 {
                47u8
            } else {
                path@[i]
            }),
{
    let n = path.len();
    let mut r: Vec<u8> = Vec::new();
    let mut i: usize = 0;
    while i < n
        invariant
            n == path@.len(),
            i <= n,
            r@.len() == i,
            forall|j: int|
                0 <= j < i ==> r@[j] == (if path@[j] == 92u8 {
                    47u8
                } else {
                    path@[j]
                }),
        decreases n - i,
    {
        let b = path[i];
        if b == 92u8 {
            r.push(47u8);
        } else {
            r.push(b);
        }
        i = i + 1;
    }
    r
}

} // verus!
