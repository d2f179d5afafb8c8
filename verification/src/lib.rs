pub mod codec;
pub mod fs;
pub mod hashing;
pub mod hex;
pub mod sort;
pub mod types;
pub mod util;

use vstd::prelude::*;
use vstd::seq_lib::lemma_sorted_unique;
use crate::codec::{doc_of, pairs_of, parse_doc_s, serialize_hashed_files};
use crate::hashing::{blake3_hash, blake3_of, concat_records};
use crate::sort::{lemma_record_le_total_ordering, lex_le, record_le, record_leq, sort_records};
use crate::types::{
    check_views, entry_views, rec_views, FileCheck, HashedDirectory, HashedFile, HashedFileView,
    HashfileEntry, ParseError,
};
use crate::util::{append_bytes, clone_bytes};

verus! {

/// Byte value of the delimiter between a hex digest and its path
/// on one line of a persisted hashfile document.
pub const DELIM: u8 = 32;

/// Byte value of the line feed that terminates each document line.
pub const NEWLINE: u8 = 10;

/// Byte value of the marker that makes a directory entry hidden
/// when its name starts with it.
pub const HIDDEN_ENTRY_PREFIX: u8 = 46;

/// Byte value of the canonical path separator used in all
/// relative paths this library produces.
pub const SEPARATOR: u8 = 47;

/// Well-known name of the persisted hashfile document, written into the
/// working directory rather than the hashed tree.
pub const HASH_RESULTS_FILENAME: &'static str = ".b3hash_v1";

/// The sum of the record sizes, unbounded.
pub open spec fn sum_sizes(s: Seq<HashedFileView>) -> int
    decreases s.len(),
{
    if s.len() == 0 {
        0
    } else {
        sum_sizes(s.drop_last()) + s.last().size
    }
}

/// A nonnegative total clamped into the `u64` range.
pub open spec fn clamp_u64(v: int) -> int {
    if v > u64::MAX {
        u64::MAX as int
    } else {
        v
    }
}

/// Builds a directory fingerprint from the given name and records,
/// however the records are ordered: the records in canonical sorted
/// order, the aggregate digest of their concatenated digest and path
/// bytes, and their total size, saturating at the `u64` maximum.
pub fn hash_directory(dir_name: Vec<u8>, files: Vec<HashedFile>) -> (r: HashedDirectory)
    ensures
        r.dir_name@ == dir_name@,
        rec_views(r.files@) == rec_views(files@).sort_by(record_leq()),
        r.hash@ == blake3_of(concat_records(rec_views(r.files@))),
        r.size as int == clamp_u64(sum_sizes(rec_views(r.files@))),
{
    let sorted = sort_records(files);
    let ghost views = rec_views(sorted@);
    let n = sorted.len();

    let mut buf: Vec<u8> = Vec::new();
    let mut i: usize = 0;
    while i < n
        invariant
            i <= n,
            n == sorted@.len(),
            views == rec_views(sorted@),
            buf@ == concat_records(views.take(i as int)),
        decreases n - i,
    {
        let f = &sorted[i];
        append_bytes(&mut buf, f.hash.bytes.as_slice());
        append_bytes(&mut buf, f.path.as_slice());
        proof {
            assert(f@ == views[i as int]);
            assert(views.take(i + 1).drop_last() =~= views.take(i as int));
            assert(views.take(i + 1).last() == views[i as int]);
            assert(buf@ =~= concat_records(views.take(i + 1)));
        }
        i = i + 1;
    }
    let hash = blake3_hash(&buf);

    let mut size: u64 = 0;
    let mut j: usize = 0;
    while j < n
        invariant
            j <= n,
            n == sorted@.len(),
            views == rec_views(sorted@),
            size as int == clamp_u64(sum_sizes(views.take(j as int))),
        decreases n - j,
    {
        let f = &sorted[j];
        let s = f.size;
        proof {
            assert(rec_views(sorted@)[j as int] == sorted@[j as int]@);
            assert(views.take(j + 1).drop_last() =~= views.take(j as int));
            assert(views.take(j + 1).last() == views[j as int]);
            assert(views[j as int].size == s);
        }
        if size > u64::MAX - s {
            size = u64::MAX;
        } else {
            size = size + s;
        }
        j = j + 1;
    }
    proof {
        assert(views.take(n as int) =~= views);
        assert(buf@ == concat_records(views));
    }
    HashedDirectory { dir_name, files: sorted, hash, size }
}

/// Builds the canonical persisted document for the given records,
/// however they are ordered: the records are sorted into canonical order
/// and serialized one line each. Hashing workers may hand their records
/// over in any completion order; the document comes out the same.
pub fn create_hashfile_with_threads(files: Vec<HashedFile>) -> (r: Vec<u8>)
    ensures
        r@ == doc_of(rec_views(files@).sort_by(record_leq())),
{
    let sorted = sort_records(files);
    serialize_hashed_files(&sorted)
}

/// Whether one recorded entry fails its on-disk check: the file is gone,
/// or its fresh digest differs from the recorded one.
pub open spec fn check_fails(e: (Seq<u8>, Seq<u8>), c: Option<Seq<u8>>) -> bool {
    match c {
        None => true,
        Some(d) => d != e.0,
    }
}

/// The paths of the entries that fail their checks, in entry order.
pub open spec fn failing_paths(es: Seq<(Seq<u8>, Seq<u8>)>, cs: Seq<Option<Seq<u8>>>) -> Seq<
    Seq<u8>,
>
    decreases es.len(),
{
    if es.len() == 0 || cs.len() == 0 {
        Seq::empty()
    } else {
        failing_paths(es.drop_last(), cs.drop_last()) + (if check_fails(es.last(), cs.last()) {
            seq![es.last().1]
        } else {
            Seq::empty()
        })
    }
}

/// Compares parsed hashfile entries against the outcome of re-examining
/// each on disk, in the same order. Returns nothing when every file
/// verified, else the recorded paths of exactly the files that are
/// missing or whose fresh digest differs. Re-examination may have run on
/// any number of threads; only the entry order matters. Digests are
/// compared byte for byte, which takes time independent of their
/// contents.
pub fn validate_hashfile_with_threads(entries: &Vec<HashfileEntry>, checks: &Vec<FileCheck>) -> (r:
    Option<Vec<Vec<u8>>>)
    requires
        entries@.len() == checks@.len(),
    ensures
        ({
            let failing = failing_paths(entry_views(entries@), check_views(checks@));
            match r {
                None => failing.len() == 0,
                Some(v) => failing.len() > 0 && crate::fs::paths_view(v@) == failing,
            }
        }),
{
    let ghost es = entry_views(entries@);
    let ghost cs = check_views(checks@);
    let n = entries.len();
    let mut failed: Vec<Vec<u8>> = Vec::new();
    let mut i: usize = 0;
    proof {
        assert(crate::fs::paths_view(failed@) =~= Seq::<Seq<u8>>::empty());
        assert(es.take(0) =~= Seq::<(Seq<u8>, Seq<u8>)>::empty());
    }
    while i < n
        invariant
            i <= n,
            n == entries@.len(),
            n == checks@.len(),
            es == entry_views(entries@),
            cs == check_views(checks@),
            crate::fs::paths_view(failed@) == failing_paths(es.take(i as int), cs.take(i as int)),
        decreases n - i,
    {
        let ghost pre = crate::fs::paths_view(failed@);
        let e = &entries[i];
        let c = &checks[i];
        let fails = match c {
            FileCheck::Missing => true,
            FileCheck::Present(d) => !crate::types::digest_eq(&e.hash, d),
        };
        proof {
            assert(es[i as int] == (e.hash@, e.path@));
            assert(cs[i as int] == crate::types::check_view(checks@[i as int]));
            assert(fails == check_fails(es[i as int], cs[i as int]));
            assert(es.take(i + 1).drop_last() =~= es.take(i as int));
            assert(cs.take(i + 1).drop_last() =~= cs.take(i as int));
            assert(es.take(i + 1).last() == es[i as int]);
            assert(cs.take(i + 1).last() == cs[i as int]);
        }
        if fails {
            let p = clone_bytes(e.path.as_slice());
            failed.push(p);
            proof {
                assert(crate::fs::paths_view(failed@) =~= pre.push(e.path@));
                assert(crate::fs::paths_view(failed@) =~= failing_paths(
                    es.take(i + 1),
                    cs.take(i + 1),
                ));
            }
        } else {
            proof {
                assert(crate::fs::paths_view(failed@) =~= failing_paths(
                    es.take(i + 1),
                    cs.take(i + 1),
                ));
            }
        }
        i = i + 1;
    }
    proof {
        assert(es.take(n as int) =~= es);
        assert(cs.take(n as int) =~= cs);
    }
    if failed.len() == 0 {
        proof {
            assert(crate::fs::paths_view(failed@).len() == failed@.len());
        }
        None
    } else {
        proof {
            assert(crate::fs::paths_view(failed@).len() == failed@.len());
        }
        Some(failed)
    }
}

/// Determinism: two record collections holding the same records, in any
/// order, sort to the same canonical sequence, so they aggregate over the
/// same bytes and serialize to the same document.
pub proof fn lemma_fingerprint_deterministic(a: Seq<HashedFileView>, b: Seq<HashedFileView>)
    requires
        a.to_multiset() == b.to_multiset(),
    ensures
        a.sort_by(record_leq()) == b.sort_by(record_leq()),
        blake3_of(concat_records(a.sort_by(record_leq()))) == blake3_of(
            concat_records(b.sort_by(record_leq())),
        ),
        doc_of(a.sort_by(record_leq())) == doc_of(b.sort_by(record_leq())),
{
    lemma_record_le_total_ordering();
    a.lemma_sort_by_ensures(record_leq());
    b.lemma_sort_by_ensures(record_leq());
    lemma_sorted_unique(a.sort_by(record_leq()), b.sort_by(record_leq()), record_leq());
}

/// Whether a record sequence is in byte-lexicographic path order.
pub open spec fn sorted_by_path(s: Seq<HashedFileView>) -> bool {
    forall|i: int, j: int| 0 <= i < j < s.len() ==> lex_le(
        #[trigger] s[i].path,
        #[trigger] s[j].path,
    )
}

/// Sort invariant: the canonical sorting of any record collection — the
/// record sequence of every snapshot and of every serialized document —
/// is in byte-lexicographic path order.
pub proof fn lemma_records_sorted(s: Seq<HashedFileView>)
    ensures
        sorted_by_path(s.sort_by(record_leq())),
{
    lemma_record_le_total_ordering();
    s.lemma_sort_by_ensures(record_leq());
    let srt = s.sort_by(record_leq());
    assert forall|i: int, j: int| 0 <= i < j < srt.len() implies lex_le(
        #[trigger] srt[i].path,
        #[trigger] srt[j].path,
    ) by {
        assert(record_leq()(srt[i], srt[j]));
        assert(record_le(srt[i], srt[j]));
        if srt[i].path == srt[j].path {
            crate::sort::lemma_lex_le_refl(srt[i].path);
        }
    }
}

/// Self-validation: parsing the canonical document of any records gives
/// their digest/path pairs back, and checking every entry against its own
/// recorded digest — the directory unchanged — fails nowhere.
pub proof fn lemma_self_validation(s: Seq<HashedFileView>, cs: Seq<Option<Seq<u8>>>)
    requires
        forall|i: int| 0 <= i < s.len() ==> (#[trigger] s[i]).hash.len() == 32,
        forall|i: int| 0 <= i < s.len() ==> !(#[trigger] s[i]).path.contains(NEWLINE),
        cs.len() == s.len(),
        forall|i: int| 0 <= i < s.len() ==> cs[i] == Some((#[trigger] s[i]).hash),
    ensures
        parse_doc_s(doc_of(s)) == Ok::<Seq<(Seq<u8>, Seq<u8>)>, ParseError>(pairs_of(s)),
        failing_paths(pairs_of(s), cs).len() == 0,
{
    crate::codec::lemma_round_trip(s);
    lemma_all_match_no_failures(pairs_of(s), cs);
}

/// Entries checked against their own recorded digests never fail.
proof fn lemma_all_match_no_failures(es: Seq<(Seq<u8>, Seq<u8>)>, cs: Seq<Option<Seq<u8>>>)
    requires
        cs.len() == es.len(),
        forall|i: int| 0 <= i < es.len() ==> cs[i] == Some((#[trigger] es[i]).0),
    ensures
        failing_paths(es, cs).len() == 0,
    decreases es.len(),
{
    if es.len() > 0 {
        assert(cs.last() == Some(es.last().0));
        assert(!check_fails(es.last(), cs.last()));
        assert forall|i: int| 0 <= i < es.drop_last().len() implies cs.drop_last()[i] == Some(
            (#[trigger] es.drop_last()[i]).0,
        ) by {
            assert(es.drop_last()[i] == es[i]);
            assert(cs.drop_last()[i] == cs[i]);
        }
        lemma_all_match_no_failures(es.drop_last(), cs.drop_last());
    }
}

} // verus!
