use vstd::prelude::*;
use crate::hex::{hex_decode_digest, hex_decode_s, hex_encode_digest, hex_of, is_hex_digit};
use crate::types::{entry_views, rec_views, HashedFile, HashedFileView, HashfileEntry, ParseError};
use crate::util::{append_bytes, copy_range};
use crate::{DELIM, NEWLINE};

verus! {

/// One serialized document line for a record: the lowercase hex digest,
/// the delimiter, the relative path, and a line feed.
pub open spec fn line_of(v: HashedFileView) -> Seq<u8> {
    hex_of(v.hash) + seq![DELIM] + v.path + seq![NEWLINE]
}

/// The canonical serialized document for a record sequence: its lines in
/// record order, nothing else.
pub open spec fn doc_of(s: Seq<HashedFileView>) -> Seq<u8>
    decreases s.len(),
{
    if s.len() == 0 {
        Seq::empty()
    } else {
        line_of(s[0]) + doc_of(s.drop_first())
    }
}

/// Appending one record to a sequence appends one line to its document.
pub proof fn lemma_doc_of_snoc(s: Seq<HashedFileView>)
    requires
        s.len() > 0,
    ensures
        doc_of(s) == doc_of(s.drop_last()) + line_of(s.last()),
    decreases s.len(),
{
    if s.len() == 1 {
        assert(s.drop_first() =~= Seq::<HashedFileView>::empty());
        assert(s.drop_last() =~= Seq::<HashedFileView>::empty());
        assert(doc_of(s) =~= doc_of(s.drop_last()) + line_of(s.last()));
    } else {
        let tail = s.drop_first();
        lemma_doc_of_snoc(tail);
        assert(tail.drop_last() =~= s.drop_last().drop_first());
        assert(tail.last() == s.last());
        assert(s.drop_last().len() > 0);
        assert(s.drop_last()[0] == s[0]);
        assert(doc_of(s) == line_of(s[0]) + (doc_of(tail.drop_last()) + line_of(s.last())));
        assert(doc_of(s.drop_last()) == line_of(s[0]) + doc_of(s.drop_last().drop_first()));
        assert(doc_of(s) =~= doc_of(s.drop_last()) + line_of(s.last()));
    }
}

/// Serializes records into the canonical document layout, in the order
/// given: one line per record, digest first, then the delimiter, then the
/// path, closed by a line feed.
pub fn serialize_hashed_files(files: &Vec<HashedFile>) -> (r: Vec<u8>)
    ensures
        r@ == doc_of(rec_views(files@)),
{
    let mut buf: Vec<u8> = Vec::new();
    let n = files.len();
    let mut i: usize = 0;
    while i < n
        invariant
            n == files@.len(),
            i <= n,
            buf@ == doc_of(rec_views(files@).take(i as int)),
        decreases n - i,
    {
        let ghost views = rec_views(files@);
        let ghost before = buf@;
        let f = &files[i];
        hex_encode_digest(&f.hash, &mut buf);
        buf.push(DELIM);
        append_bytes(&mut buf, f.path.as_slice());
        buf.push(NEWLINE);
        proof {
            assert(f@ == views[i as int]);
            assert(buf@ =~= before + line_of(views[i as int]));
            let grown = views.take(i + 1);
            assert(grown.drop_last() =~= views.take(i as int));
            assert(grown.last() == views[i as int]);
            lemma_doc_of_snoc(grown);
            assert(buf@ == doc_of(views.take(i + 1)));
        }
        i = i + 1;
    }
    assert(rec_views(files@).take(n as int) =~= rec_views(files@));
    buf
}

/// The position of the first occurrence of `b` in `data` at or after
/// `pos`, or the length of `data` if there is none.
pub open spec fn scan_for(data: Seq<u8>, pos: int, b: u8) -> int
    decreases data.len() - pos,
{
    if pos < 0 || pos >= data.len() {
        data.len() as int
    } else if data[pos] == b {
        pos
    } else {
        scan_for(data, pos + 1, b)
    }
}

/// What `scan_for` returns: a position in range, holding `b` unless it is
/// the length, with no occurrence of `b` before it.
pub proof fn lemma_scan_for(data: Seq<u8>, pos: int, b: u8)
    requires
        0 <= pos <= data.len(),
    ensures
        pos <= scan_for(data, pos, b) <= data.len(),
        scan_for(data, pos, b) < data.len() ==> data[scan_for(data, pos, b)] == b,
        forall|j: int| pos <= j < scan_for(data, pos, b) ==> data[j] != b,
    decreases data.len() - pos,
{
    if pos < data.len() && data[pos] != b {
        lemma_scan_for(data, pos + 1, b);
    }
}

/// Any position with `scan_for`'s characteristic properties is the one
/// `scan_for` returns.
pub proof fn lemma_scan_for_unique(data: Seq<u8>, pos: int, b: u8, r: int)
    requires
        0 <= pos <= data.len(),
        pos <= r <= data.len(),
        r < data.len() ==> data[r] == b,
        forall|j: int| pos <= j < r ==> data[j] != b,
    ensures
        scan_for(data, pos, b) == r,
{
    lemma_scan_for(data, pos, b);
    let s = scan_for(data, pos, b);
    if s < r {
        assert(data[s] != b);
    }
    if r < s {
        assert(data[r] != b);
    }
}

/// The parse of one document line (without its line feed): the digest
/// bytes and the path, or the reason the line is malformed.
pub open spec fn parse_line_s(line: Seq<u8>) -> Result<(Seq<u8>, Seq<u8>), ParseError> {
    let d = scan_for(line, 0, DELIM);
    if d == line.len() {
        Err(ParseError::MissingDelimiter)
    } else {
        let hexpart = line.take(d);
        if hexpart.len() == 64 && (forall|j: int|
            0 <= j < 64 ==> is_hex_digit(#[trigger] hexpart[j])) {
            Ok((hex_decode_s(hexpart), line.skip(d + 1)))
        } else {
            Err(ParseError::InvalidDigest)
        }
    }
}

/// The parse of the document suffix starting at `pos`: the entries of the
/// remaining lines, or the first parse failure. A final line without a
/// line feed is still a line; an empty suffix holds no entries.
pub open spec fn parse_from(data: Seq<u8>, pos: int) -> Result<
    Seq<(Seq<u8>, Seq<u8>)>,
    ParseError,
>
    decreases data.len() - pos
        via parse_from_dec
{
    if pos < 0 || pos >= data.len() {
        Ok(Seq::empty())
    } else {
        let e = scan_for(data, pos, NEWLINE);
        let next = if e >= data.len() {
            data.len() as int
        } else {
            e + 1
        };
        match parse_line_s(data.subrange(pos, e)) {
            Err(err) => Err(err),
            Ok(ent) => match parse_from(data, next) {
                Err(err) => Err(err),
                Ok(rest) => Ok(seq![ent] + rest),
            },
        }
    }
}

#[via_fn]
proof fn parse_from_dec(data: Seq<u8>, pos: int) {
    if 0 <= pos < data.len() {
        lemma_scan_for(data, pos, NEWLINE);
    }
}

/// The parse of a whole persisted document: the recorded entries in
/// document order, or the first parse failure.
pub open spec fn parse_doc_s(data: Seq<u8>) -> Result<Seq<(Seq<u8>, Seq<u8>)>, ParseError> {
    parse_from(data, 0)
}

/// The position of the first occurrence of `b` in `data[from .. to]`, or
/// `to` if there is none.
fn scan_exec(data: &Vec<u8>, from: usize, to: usize, b: u8) -> (r: usize)
    requires
        from <= to <= data@.len(),
    ensures
        from <= r <= to,
        r < to ==> data@[r as int] == b,
        forall|j: int| from <= j < r ==> data@[j] != b,
{
    let mut i: usize = from;
    while i < to
        invariant
            from <= i <= to,
            to <= data@.len(),
            forall|j: int| from <= j < i ==> data@[j] != b,
        decreases to - i,
    {
        if data[i] == b {
            return i;
        }
        i = i + 1;
    }
    i
}

/// Glues already-parsed entries onto the parse of the rest of a document.
pub open spec fn glue(
    prefix: Seq<(Seq<u8>, Seq<u8>)>,
    r: Result<Seq<(Seq<u8>, Seq<u8>)>, ParseError>,
) -> Result<Seq<(Seq<u8>, Seq<u8>)>, ParseError> {
    match r {
        Ok(s) => Ok(prefix + s),
        Err(e) => Err(e),
    }
}

/// Parses a persisted document into its recorded entries.
///
/// The result is exactly what `parse_doc_s` says of the document's bytes:
/// the entries of every line in order, or the first line's failure.
pub fn parse_hashfile(data: &Vec<u8>) -> (r: Result<Vec<HashfileEntry>, ParseError>)
    ensures
        match r {
            Ok(entries) => parse_doc_s(data@) == Ok::<Seq<(Seq<u8>, Seq<u8>)>, ParseError>(
                entry_views(entries@),
            ),
            Err(e) => parse_doc_s(data@) == Err::<Seq<(Seq<u8>, Seq<u8>)>, ParseError>(e),
        },
{
    let n = data.len();
    let mut entries: Vec<HashfileEntry> = Vec::new();
    let mut pos: usize = 0;
    proof {
        assert(entry_views(entries@) =~= Seq::<(Seq<u8>, Seq<u8>)>::empty());
        if parse_from(data@, 0) is Ok {
            assert(glue(entry_views(entries@), parse_from(data@, 0)) == parse_from(data@, 0));
        }
    }
    while pos < n
        invariant
            n == data@.len(),
            pos <= n,
            glue(entry_views(entries@), parse_from(data@, pos as int)) == parse_from(data@, 0),
        decreases n - pos,
    {
        let e = scan_exec(data, pos, n, NEWLINE);
        proof {
            lemma_scan_for_unique(data@, pos as int, NEWLINE, e as int);
        }
        let ghost line = data@.subrange(pos as int, e as int);
        let d = scan_exec(data, pos, e, DELIM);
        proof {
            assert forall|j: int| 0 <= j < d - pos implies line[j] != DELIM by {
                assert(line[j] == data@[pos + j]);
            }
            if d < e {
                assert(line[d - pos] == data@[d as int]);
            }
            lemma_scan_for_unique(line, 0, DELIM, d - pos);
        }
        if d == e {
            proof {
                assert(parse_line_s(line) == Err::<(Seq<u8>, Seq<u8>), ParseError>(
                    ParseError::MissingDelimiter,
                ));
                assert(parse_from(data@, pos as int) == Err::<
                    Seq<(Seq<u8>, Seq<u8>)>,
                    ParseError,
                >(ParseError::MissingDelimiter));
            }
            return Err(ParseError::MissingDelimiter);
        }
        if d - pos != 64 {
            proof {
                assert(line.take(d - pos).len() != 64);
                assert(parse_line_s(line) == Err::<(Seq<u8>, Seq<u8>), ParseError>(
                    ParseError::InvalidDigest,
                ));
                assert(parse_from(data@, pos as int) == Err::<
                    Seq<(Seq<u8>, Seq<u8>)>,
                    ParseError,
                >(ParseError::InvalidDigest));
            }
            return Err(ParseError::InvalidDigest);
        }
        let ghost hexpart = line.take(d - pos);
        proof {
            assert(hexpart =~= data@.subrange(pos as int, pos + 64));
        }
        let dg = match hex_decode_digest(data, pos) {
            Some(dg) => dg,
            None => {
                proof {
                    let j = choose|j: int|
                        0 <= j < 64 && !is_hex_digit(#[trigger] data@[pos + j]);
                    assert(hexpart[j] == data@[pos + j]);
                    assert(parse_line_s(line) == Err::<(Seq<u8>, Seq<u8>), ParseError>(
                        ParseError::InvalidDigest,
                    ));
                    assert(parse_from(data@, pos as int) == Err::<
                        Seq<(Seq<u8>, Seq<u8>)>,
                        ParseError,
                    >(ParseError::InvalidDigest));
                }
                return Err(ParseError::InvalidDigest);
            },
        };
        let path = copy_range(data, d + 1, e);
        let ghost ent = (dg@, path@);
        proof {
            assert forall|j: int| 0 <= j < 64 implies is_hex_digit(#[trigger] hexpart[j]) by {
                assert(hexpart[j] == data@[pos + j]);
            }
            assert(line.skip(d - pos + 1) =~= data@.subrange(d + 1, e as int));
            assert(parse_line_s(line) == Ok::<(Seq<u8>, Seq<u8>), ParseError>(ent));
        }
        let ghost prev = entry_views(entries@);
        entries.push(HashfileEntry { hash: dg, path });
        let next = if e == n {
            n
        } else {
            e + 1
        };
        proof {
            assert(entry_views(entries@) =~= prev.push(ent));
            assert(parse_from(data@, pos as int) == (match parse_from(data@, next as int) {
                Err(err) => Err::<Seq<(Seq<u8>, Seq<u8>)>, ParseError>(err),
                Ok(rest) => Ok::<Seq<(Seq<u8>, Seq<u8>)>, ParseError>(seq![ent] + rest),
            }));
            match parse_from(data@, next as int) {
                Err(err) => {
                    assert(glue(entry_views(entries@), parse_from(data@, next as int))
                        == parse_from(data@, 0));
                },
                Ok(rest) => {
                    assert(prev + (seq![ent] + rest) =~= prev.push(ent) + rest);
                    assert(entry_views(entries@) == prev.push(ent));
                    assert(glue(entry_views(entries@), parse_from(data@, next as int))
                        == parse_from(data@, 0));
                },
            }
        }
        pos = next;
    }
    proof {
        assert(parse_from(data@, pos as int) == Ok::<Seq<(Seq<u8>, Seq<u8>)>, ParseError>(
            Seq::empty(),
        ));
        assert(entry_views(entries@) + Seq::<(Seq<u8>, Seq<u8>)>::empty() =~= entry_views(
            entries@,
        ));
    }
    Ok(entries)
}

/// The digest/path pairs a record sequence stands for, in order.
pub open spec fn pairs_of(s: Seq<HashedFileView>) -> Seq<(Seq<u8>, Seq<u8>)> {
    s.map_values(|v: HashedFileView| (v.hash, v.path))
}

/// Parsing a document suffix is parsing that suffix as a document of its
/// own.
proof fn lemma_parse_from_shift(data: Seq<u8>, pos: int)
    requires
        0 <= pos <= data.len(),
    ensures
        parse_from(data, pos) == parse_from(data.skip(pos), 0),
    decreases data.len() - pos,
{
    let suf = data.skip(pos);
    if pos >= data.len() {
        assert(suf.len() == 0);
    } else {
        lemma_scan_for(data, pos, NEWLINE);
        let e = scan_for(data, pos, NEWLINE);
        assert forall|j: int| 0 <= j < e - pos implies suf[j] != NEWLINE by {
            assert(suf[j] == data[pos + j]);
        }
        if e < data.len() {
            assert(suf[e - pos] == data[e]);
        }
        lemma_scan_for_unique(suf, 0, NEWLINE, e - pos);
        let next = if e >= data.len() {
            data.len() as int
        } else {
            e + 1
        };
        assert(data.subrange(pos, e) =~= suf.subrange(0, e - pos));
        lemma_parse_from_shift(data, next);
        lemma_parse_from_shift(suf, next - pos);
        assert(suf.skip(next - pos) =~= data.skip(next));
    }
}

/// Round trip: serializing records and parsing the document back yields
/// exactly the records' digest/path pairs, for records whose digests are
/// 256 bits wide and whose paths hold no line feed.
pub proof fn lemma_round_trip(s: Seq<HashedFileView>)
    requires
        forall|i: int| 0 <= i < s.len() ==> (#[trigger] s[i]).hash.len() == 32,
        forall|i: int| 0 <= i < s.len() ==> !(#[trigger] s[i]).path.contains(NEWLINE),
    ensures
        parse_doc_s(doc_of(s)) == Ok::<Seq<(Seq<u8>, Seq<u8>)>, ParseError>(pairs_of(s)),
    decreases s.len(),
{
    let doc = doc_of(s);
    if s.len() == 0 {
        assert(doc.len() == 0);
        assert(pairs_of(s) =~= Seq::<(Seq<u8>, Seq<u8>)>::empty());
    } else {
        let v = s[0];
        assert(v.hash.len() == 32);
        crate::hex::lemma_hex_of_digits(v.hash);
        let hex = hex_of(v.hash);
        assert(hex.len() == 64);
        let bare = hex + seq![DELIM] + v.path;
        let line = line_of(v);
        let ll = line.len() as int;
        assert(ll == 66 + v.path.len());
        let tail_doc = doc_of(s.drop_first());
        assert(doc == line + tail_doc);
        assert(doc.len() == ll + tail_doc.len());

        // the first line feed in the document closes the first line
        assert(line[ll - 1] == NEWLINE);
        assert(doc[ll - 1] == NEWLINE);
        assert forall|j: int| 0 <= j < ll - 1 implies doc[j] != NEWLINE by {
            assert(doc[j] == line[j]);
            assert(line[j] == bare[j]);
            if j < 64 {
                assert(bare[j] == hex[j]);
                assert(is_hex_digit(hex[j]));
            } else if j == 64 {
                assert(bare[j] == DELIM);
            } else {
                assert(bare[j] == v.path[j - 65]);
                assert(!s[0].path.contains(NEWLINE));
                assert(v.path[j - 65] != NEWLINE);
            }
        }
        lemma_scan_for_unique(doc, 0, NEWLINE, ll - 1);
        assert(doc.subrange(0, ll - 1) =~= bare);

        // the first line parses back to this record's digest and path
        assert(bare[64] == DELIM);
        assert forall|j: int| 0 <= j < 64 implies bare[j] != DELIM by {
            assert(bare[j] == hex[j]);
            assert(is_hex_digit(hex[j]));
        }
        lemma_scan_for_unique(bare, 0, DELIM, 64);
        assert(bare.take(64) =~= hex);
        assert(bare.skip(65) =~= v.path);
        assert(parse_line_s(bare) == Ok::<(Seq<u8>, Seq<u8>), ParseError>((v.hash, v.path)));

        // the rest of the document is the document of the remaining records
        assert(ll - 1 < doc.len());
        lemma_parse_from_shift(doc, ll);
        assert(doc.skip(ll) =~= tail_doc);
        assert forall|i: int| 0 <= i < s.drop_first().len() implies (#[trigger] s.drop_first()[
            i
        ]).hash.len() == 32 && !s.drop_first()[i].path.contains(NEWLINE) by {
            assert(s.drop_first()[i] == s[i + 1]);
        }
        lemma_round_trip(s.drop_first());
        assert(parse_from(doc, 0) == Ok::<Seq<(Seq<u8>, Seq<u8>)>, ParseError>(
            seq![(v.hash, v.path)] + pairs_of(s.drop_first()),
        ));
        assert(seq![(v.hash, v.path)] + pairs_of(s.drop_first()) =~= pairs_of(s));
    }
}

} // verus!
