use vstd::prelude::*;
use vstd::multiset::Multiset;
use vstd::relations::{sorted_by, total_ordering};
use vstd::seq_lib::lemma_sorted_unique;
use crate::types::{rec_views, HashedFile, HashedFileView};

verus! {

/// Byte-lexicographic "less than or equal" on byte sequences.
pub open spec fn lex_le(a: Seq<u8>, b: Seq<u8>) -> bool
    decreases a.len(),
{
    if a.len() == 0 {
        true
    } else if b.len() == 0 {
        false
    } else if a[0] < b[0] {
        true
    } else if a[0] > b[0] {
        false
    } else {
        lex_le(a.drop_first(), b.drop_first())
    }
}

/// The byte-lexicographic order relates every value to itself.
pub proof fn lemma_lex_le_refl(a: Seq<u8>)
    ensures
        lex_le(a, a),
    decreases a.len(),
{
    if a.len() > 0 {
        lemma_lex_le_refl(a.drop_first());
    }
}

/// Any two byte sequences are related one way or the other.
pub proof fn lemma_lex_le_connected(a: Seq<u8>, b: Seq<u8>)
    ensures
        lex_le(a, b) || lex_le(b, a),
    decreases a.len(),
{
    if a.len() > 0 && b.len() > 0 && a[0] == b[0] {
        lemma_lex_le_connected(a.drop_first(), b.drop_first());
    }
}

/// Byte sequences related both ways are equal.
pub proof fn lemma_lex_le_antisym(a: Seq<u8>, b: Seq<u8>)
    requires
        lex_le(a, b),
        lex_le(b, a),
    ensures
        a == b,
    decreases a.len(),
{
    if a.len() == 0 {
        assert(b.len() == 0);
        assert(a =~= b);
    } else {
        assert(b.len() > 0);
        assert(a[0] == b[0]);
        lemma_lex_le_antisym(a.drop_first(), b.drop_first());
        assert(a.drop_first() == b.drop_first());
        assert(a.drop_first().len() == a.len() - 1);
        assert(b.drop_first().len() == b.len() - 1);
        assert(a.len() == b.len());
        assert forall|i: int| 0 <= i < a.len() implies a[i] == b[i] by {
            if i > 0 {
                assert(a[i] == a.drop_first()[i - 1]);
                assert(b[i] == b.drop_first()[i - 1]);
            }
        }
        assert(a =~= b);
    }
}

/// The byte-lexicographic order is transitive.
pub proof fn lemma_lex_le_trans(a: Seq<u8>, b: Seq<u8>, c: Seq<u8>)
    requires
        lex_le(a, b),
        lex_le(b, c),
    ensures
        lex_le(a, c),
    decreases a.len(),
{
    if a.len() > 0 {
        assert(b.len() > 0);
        assert(c.len() > 0);
        assert(a[0] <= b[0]);
        assert(b[0] <= c[0]);
        if a[0] == b[0] && b[0] == c[0] {
            lemma_lex_le_trans(a.drop_first(), b.drop_first(), c.drop_first());
        }
    }
}

/// Dropping an equal prefix from both sides does not change how two byte
/// sequences compare.
pub proof fn lemma_lex_le_skip(a: Seq<u8>, b: Seq<u8>, i: int)
    requires
        0 <= i <= a.len(),
        i <= b.len(),
        forall|j: int| 0 <= j < i ==> a[j] == b[j],
    ensures
        lex_le(a, b) == lex_le(a.skip(i), b.skip(i)),
    decreases i,
{
    if i == 0 {
        assert(a.skip(0) =~= a);
        assert(b.skip(0) =~= b);
    } else {
        assert(a[0] == b[0]);
        assert forall|j: int| 0 <= j < i - 1 implies a.drop_first()[j] == b.drop_first()[j] by {
            assert(a[j + 1] == b[j + 1]);
        }
        lemma_lex_le_skip(a.drop_first(), b.drop_first(), i - 1);
        assert(a.drop_first().skip(i - 1) =~= a.skip(i));
        assert(b.drop_first().skip(i - 1) =~= b.skip(i));
    }
}

/// Compares two byte strings in byte-lexicographic order.
pub fn lex_le_bytes(a: &[u8], b: &[u8]) -> (r: bool)
    ensures
        r == lex_le(a@, b@),
{
    let alen = a.len();
    let blen = b.len();
    let mut i: usize = 0;
    while i < alen && i < blen
        invariant
            alen == a@.len(),
            blen == b@.len(),
            i <= alen,
            i <= blen,
            forall|j: int| 0 <= j < i ==> a@[j] == b@[j],
        decreases alen - i,
    {
        let x = a[i];
        let y = b[i];
        if x < y {
            proof {
                lemma_lex_le_skip(a@, b@, i as int);
                assert(a@.skip(i as int)[0] == x);
                assert(b@.skip(i as int)[0] == y);
            }
            return true;
        }
        if x > y {
            proof {
                lemma_lex_le_skip(a@, b@, i as int);
                assert(a@.skip(i as int)[0] == x);
                assert(b@.skip(i as int)[0] == y);
            }
            return false;
        }
        i = i + 1;
    }
    proof {
        lemma_lex_le_skip(a@, b@, i as int);
        assert(a@.skip(i as int).len() == alen - i);
        assert(b@.skip(i as int).len() == blen - i);
    }
    alen <= blen
}

/// Compares two byte strings for equality.
pub fn bytes_eq(a: &[u8], b: &[u8]) -> (r: bool)
    ensures
        r == (a@ == b@),
{
    let alen = a.len();
    let blen = b.len();
    if alen != blen {
        return false;
    }
    let mut i: usize = 0;
    while i < alen
        invariant
            alen == a@.len(),
            alen == b@.len(),
            i <= alen,
            forall|j: int| 0 <= j < i ==> a@[j] == b@[j],
        decreases alen - i,
    {
        if a[i] != b[i] {
            assert(a@[i as int] != b@[i as int]);
            return false;
        }
        i = i + 1;
    }
    assert(a@ =~= b@);
    true
}

/// Canonical total order on file records: by path, then by digest, then
/// by size, each in byte-lexicographic (or numeric) order.
pub open spec fn record_le(a: HashedFileView, b: HashedFileView) -> bool {
    if a.path != b.path {
        lex_le(a.path, b.path)
    } else if a.hash != b.hash {
        lex_le(a.hash, b.hash)
    } else {
        a.size <= b.size
    }
}

/// The canonical record order as a relation value, for use with `sort_by`.
pub open spec fn record_leq() -> spec_fn(HashedFileView, HashedFileView) -> bool {
    |a: HashedFileView, b: HashedFileView| record_le(a, b)
}

/// The canonical record order is a total order.
pub proof fn lemma_record_le_total_ordering()
    ensures
        total_ordering(record_leq()),
{
    let leq = record_leq();
    assert forall|x: HashedFileView| #[trigger] leq(x, x) by {
        assert(record_le(x, x));
    }
    assert forall|x: HashedFileView, y: HashedFileView|
        #[trigger] leq(x, y) && #[trigger] leq(y, x) implies x == y by {
        if x.path != y.path {
            lemma_lex_le_antisym(x.path, y.path);
        } else if x.hash != y.hash {
            lemma_lex_le_antisym(x.hash, y.hash);
        }
    }
    assert forall|x: HashedFileView, y: HashedFileView, z: HashedFileView|
        #[trigger] leq(x, y) && #[trigger] leq(y, z) implies leq(x, z) by {
        lemma_record_le_trans(x, y, z);
    }
    assert forall|x: HashedFileView, y: HashedFileView| #[trigger] leq(x, y) || #[trigger] leq(
        y,
        x,
    ) by {
        if x.path != y.path {
            lemma_lex_le_connected(x.path, y.path);
        } else if x.hash != y.hash {
            lemma_lex_le_connected(x.hash, y.hash);
        }
    }
}

/// The canonical record order is transitive.
proof fn lemma_record_le_trans(x: HashedFileView, y: HashedFileView, z: HashedFileView)
    requires
        record_le(x, y),
        record_le(y, z),
    ensures
        record_le(x, z),
{
    if x.path == y.path && y.path == z.path {
        if x.hash == y.hash && y.hash == z.hash {
        } else if x.hash == y.hash {
        } else if y.hash == z.hash {
        } else {
            lemma_lex_le_trans(x.hash, y.hash, z.hash);
            if x.hash == z.hash {
                lemma_lex_le_antisym(x.hash, y.hash);
            }
        }
    } else {
        lemma_lex_le_refl(x.path);
        lemma_lex_le_refl(y.path);
        lemma_lex_le_trans(x.path, y.path, z.path);
        if x.path == z.path {
            if x.path != y.path {
                lemma_lex_le_antisym(x.path, y.path);
            } else {
                lemma_lex_le_antisym(y.path, z.path);
            }
        }
    }
}

/// Compares two records in the canonical record order.
fn record_le_exec(a: &HashedFile, b: &HashedFile) -> (r: bool)
    ensures
        r == record_le(a@, b@),
{
    if !bytes_eq(a.path.as_slice(), b.path.as_slice()) {
        return lex_le_bytes(a.path.as_slice(), b.path.as_slice());
    }
    if !bytes_eq(a.hash.bytes.as_slice(), b.hash.bytes.as_slice()) {
        return lex_le_bytes(a.hash.bytes.as_slice(), b.hash.bytes.as_slice());
    }
    a.size <= b.size
}

/// Returns the first position of `out` whose record does not precede `f`
/// in the canonical record order, or the length if every record does.
fn find_insert_pos(out: &Vec<HashedFile>, f: &HashedFile) -> (idx: usize)
    ensures
        idx <= out@.len(),
        forall|k: int| 0 <= k < idx ==> record_le(#[trigger] rec_views(out@)[k], f@),
        idx < out@.len() ==> !record_le(rec_views(out@)[idx as int], f@),
{
    let n = out.len();
    let mut i: usize = 0;
    while i < n
        invariant
            i <= n,
            n == out@.len(),
            forall|k: int| 0 <= k < i ==> record_le(#[trigger] rec_views(out@)[k], f@),
        decreases n - i,
    {
        if !record_le_exec(&out[i], f) {
            return i;
        }
        i = i + 1;
    }
    i
}

/// Inserts one record into a sorted vector, keeping it sorted.
fn insert_record(out: &mut Vec<HashedFile>, f: HashedFile)
    requires
        sorted_by(rec_views(old(out)@), record_leq()),
    ensures
        sorted_by(rec_views(final(out)@), record_leq()),
        rec_views(final(out)@).to_multiset() == rec_views(old(out)@).to_multiset().insert(f@),
{
    broadcast use vstd::seq_lib::group_to_multiset_ensures;
    broadcast use vstd::multiset::group_multiset_axioms;

    let ghost fv = f@;
    let ghost pre = rec_views(out@);
    let idx = find_insert_pos(out, &f);
    out.insert(idx, f);
    proof {
        let post = rec_views(out@);
        assert(post =~= pre.insert(idx as int, fv));
        pre.insert_ensures(idx as int, fv);
        lemma_record_le_total_ordering();
        assert forall|i: int, j: int| 0 <= i < j < post.len() implies #[trigger] record_leq()(
            post[i],
            post[j],
        ) by {
            let leq = record_leq();
            if i < idx && j < idx {
                assert(leq(pre[i], pre[j]));
            } else if i < idx && j == idx {
                assert(record_le(pre[i], fv));
            } else if i < idx && j > idx {
                assert(leq(pre[i], pre[j - 1]));
            } else if i == idx && j > idx {
                // every earlier record precedes f, and the record now at j
                // did not precede f, so f precedes it by totality
                assert(post[j] == pre[j - 1]);
                assert(!record_le(pre[idx as int], fv));
                assert(leq(fv, pre[idx as int]) || leq(pre[idx as int], fv));
                assert(record_le(fv, pre[idx as int]));
                if j - 1 > idx {
                    assert(leq(pre[idx as int], pre[j - 1]));
                    lemma_record_le_trans(fv, pre[idx as int], pre[j - 1]);
                }
            } else if i > idx && j > idx {
                assert(leq(pre[i - 1], pre[j - 1]));
            }
        }
        assert(pre.insert(idx as int, fv).to_multiset() =~= pre.to_multiset().insert(fv));
    }
}

/// Sorts records into the canonical record order.
///
/// The result is exactly the canonical sorting of the input sequence, so
/// any two inputs holding the same records in any order sort to the same
/// output.
pub fn sort_records(files: Vec<HashedFile>) -> (r: Vec<HashedFile>)
    ensures
        rec_views(r@) == rec_views(files@).sort_by(record_leq()),
{
    broadcast use vstd::seq_lib::group_to_multiset_ensures;
    broadcast use vstd::multiset::group_multiset_axioms;

    let ghost all = rec_views(files@);
    let mut input = files;
    let mut out: Vec<HashedFile> = Vec::new();
    proof {
        assert(rec_views(out@) =~= Seq::<HashedFileView>::empty());
        assert(rec_views(out@).to_multiset().add(rec_views(input@).to_multiset()) =~= all.to_multiset());
    }
    while input.len() > 0
        invariant
            sorted_by(rec_views(out@), record_leq()),
            rec_views(out@).to_multiset().add(rec_views(input@).to_multiset())
                == all.to_multiset(),
        decreases input@.len(),
    {
        let ghost before = rec_views(input@);
        let f = match input.pop() {
            Some(f) => f,
            None => {
                proof {
                    assert(false);
                }
                return out;
            },
        };
        proof {
            broadcast use vstd::multiset::group_multiset_axioms;

            let after = rec_views(input@);
            after.to_multiset_ensures();
            assert(before =~= after.push(f@));
            assert(after.push(f@).to_multiset() =~= after.to_multiset().insert(f@));
            assert(before.to_multiset() == after.to_multiset().insert(f@));
        }
        insert_record(&mut out, f);
        proof {
            assert(rec_views(out@).to_multiset().add(rec_views(input@).to_multiset())
                =~= all.to_multiset());
        }
    }
    proof {
        assert(rec_views(input@).to_multiset() =~= Multiset::<HashedFileView>::empty());
        assert(rec_views(out@).to_multiset() =~= all.to_multiset());
        lemma_record_le_total_ordering();
        all.lemma_sort_by_ensures(record_leq());
        lemma_sorted_unique(rec_views(out@), all.sort_by(record_leq()), record_leq());
        assert(rec_views(out@) == all.sort_by(record_leq()));
    }
    out
}

} // verus!
