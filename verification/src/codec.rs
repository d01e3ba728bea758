//! The bincode wire format of log records, record blocks and block indexes.
//!
//! A record travels as the tuple `(tag, key, value)` with `tag` 0 for a put and 1
//! for a tombstone; bincode writes that tuple exactly as it writes the record struct
//! (an enum's variant index is a `u32`, fields follow one another). A block is a
//! sequence of such tuples; an index is a sequence of `(start key, offset)` pairs,
//! which bincode writes exactly as the ordered map of those pairs.

use vstd::prelude::*;

use crate::ints::{le_bytes, le_value, lemma_le_roundtrip, lemma_pow256_values, pow256};
use crate::model::opt_bytes;

verus! {

/// A record as plain values: variant tag, key bytes, value bytes.
pub type WireRecord = (u32, Seq<u8>, Option<Seq<u8>>);

/// A record as the encoder and decoder hold it.
pub type WireRecordExec = (u32, Vec<u8>, Option<Vec<u8>>);

/// The plain values of a record tuple.
pub open spec fn wire_view(r: WireRecordExec) -> WireRecord {
    (r.0, r.1@, opt_bytes(r.2))
}

/// The plain values of a vector of record tuples.
pub open spec fn wire_seq(v: Seq<WireRecordExec>) -> Seq<WireRecord> {
    Seq::new(v.len(), |i: int| wire_view(v[i]))
}

/// The plain values of an index vector.
pub open spec fn index_seq(v: Seq<(Vec<u8>, u64)>) -> Seq<(Seq<u8>, u64)> {
    Seq::new(v.len(), |i: int| (v[i].0@, v[i].1))
}

/// A byte string: its length as 8 little-endian bytes, then its bytes.
pub open spec fn enc_bytes(b: Seq<u8>) -> Seq<u8> {
    le_bytes(b.len(), 8) + b
}

/// An optional byte string: tag byte 0, or tag byte 1 and the string.
pub open spec fn enc_opt_bytes(o: Option<Seq<u8>>) -> Seq<u8> {
    match o {
        None => seq![0u8],
        Some(b) => seq![1u8] + enc_bytes(b),
    }
}

/// A record: 4-byte tag, key, optional value.
pub open spec fn enc_record(r: WireRecord) -> Seq<u8> {
    le_bytes(r.0 as nat, 4) + enc_bytes(r.1) + enc_opt_bytes(r.2)
}

/// Records one after another.
pub open spec fn concat_records(rs: Seq<WireRecord>) -> Seq<u8>
    decreases rs.len(),
{
    if rs.len() == 0 {
        Seq::empty()
    } else {
        enc_record(rs[0]) + concat_records(rs.skip(1))
    }
}

/// A block: the record count as 8 bytes, then the records.
pub open spec fn enc_records(rs: Seq<WireRecord>) -> Seq<u8> {
    le_bytes(rs.len(), 8) + concat_records(rs)
}

/// An index entry: start key, then offset as 8 bytes.
pub open spec fn enc_index_entry(p: (Seq<u8>, u64)) -> Seq<u8> {
    enc_bytes(p.0) + le_bytes(p.1 as nat, 8)
}

/// Index entries one after another.
pub open spec fn concat_index(ps: Seq<(Seq<u8>, u64)>) -> Seq<u8>
    decreases ps.len(),
{
    if ps.len() == 0 {
        Seq::empty()
    } else {
        enc_index_entry(ps[0]) + concat_index(ps.skip(1))
    }
}

/// An index: the entry count as 8 bytes, then the entries.
pub open spec fn enc_index(ps: Seq<(Seq<u8>, u64)>) -> Seq<u8> {
    le_bytes(ps.len(), 8) + concat_index(ps)
}

/// Reads a byte string at the front of `b`: the string and the bytes used.
pub open spec fn parse_bytes(b: Seq<u8>) -> Option<(Seq<u8>, nat)> {
    if b.len() < 8 {
        None
    } else {
        let n = le_value(b.subrange(0, 8));
        if b.len() - 8 < n {
            None
        } else {
            Some((b.subrange(8, 8 + n as int), 8 + n))
        }
    }
}

/// Reads an optional byte string at the front of `b`.
pub open spec fn parse_opt_bytes(b: Seq<u8>) -> Option<(Option<Seq<u8>>, nat)> {
    if b.len() < 1 {
        None
    } else if b[0] == 0 {
        Some((None, 1))
    } else if b[0] == 1 {
        match parse_bytes(b.skip(1)) {
            Some((x, c)) => Some((Some(x), 1 + c)),
            None => None,
        }
    } else {
        None
    }
}

/// Reads a record tuple at the front of `b`.
pub open spec fn parse_record(b: Seq<u8>) -> Option<(WireRecord, nat)> {
    if b.len() < 4 {
        None
    } else {
        let t = le_value(b.subrange(0, 4));
        match parse_bytes(b.skip(4)) {
            None => None,
            Some((k, c1)) => match parse_opt_bytes(b.skip(4 + c1 as int)) {
                None => None,
                Some((v, c2)) => Some(((t as u32, k, v), 4 + c1 + c2)),
            },
        }
    }
}

/// Reads `count` record tuples one after another.
pub open spec fn parse_record_list(b: Seq<u8>, count: nat) -> Option<(Seq<WireRecord>, nat)>
    decreases count,
{
    if count == 0 {
        Some((Seq::empty(), 0))
    } else {
        match parse_record(b) {
            None => None,
            Some((r, c)) => match parse_record_list(b.skip(c as int), (count - 1) as nat) {
                None => None,
                Some((rs, c2)) => Some((seq![r] + rs, c + c2)),
            },
        }
    }
}

/// Reads a block at the front of `b`; bytes after it are ignored.
pub open spec fn parse_records(b: Seq<u8>) -> Option<Seq<WireRecord>> {
    if b.len() < 8 {
        None
    } else {
        match parse_record_list(b.skip(8), le_value(b.subrange(0, 8))) {
            Some((rs, _)) => Some(rs),
            None => None,
        }
    }
}

/// Reads an index entry at the front of `b`.
pub open spec fn parse_index_entry(b: Seq<u8>) -> Option<((Seq<u8>, u64), nat)> {
    match parse_bytes(b) {
        None => None,
        Some((k, c)) => if b.len() - c < 8 {
            None
        } else {
            Some(((k, le_value(b.subrange(c as int, c as int + 8)) as u64), c + 8))
        },
    }
}

/// Reads `count` index entries one after another.
pub open spec fn parse_index_list(b: Seq<u8>, count: nat) -> Option<(Seq<(Seq<u8>, u64)>, nat)>
    decreases count,
{
    if count == 0 {
        Some((Seq::empty(), 0))
    } else {
        match parse_index_entry(b) {
            None => None,
            Some((p, c)) => match parse_index_list(b.skip(c as int), (count - 1) as nat) {
                None => None,
                Some((ps, c2)) => Some((seq![p] + ps, c + c2)),
            },
        }
    }
}

/// Reads an index at the front of `b`; bytes after it are ignored.
pub open spec fn parse_index(b: Seq<u8>) -> Option<Seq<(Seq<u8>, u64)>> {
    if b.len() < 8 {
        None
    } else {
        match parse_index_list(b.skip(8), le_value(b.subrange(0, 8))) {
            Some((ps, _)) => Some(ps),
            None => None,
        }
    }
}

/// Lengths that the 8-byte length fields can carry.
pub open spec fn fits_u64(n: nat) -> bool {
    n < 0x1_0000_0000_0000_0000
}

/// A record whose key and value lengths the format can carry.
pub open spec fn wire_record_fits(r: WireRecord) -> bool {
    &&& fits_u64(r.1.len())
    &&& match r.2 {
        Some(v) => fits_u64(v.len()),
        None => true,
    }
}

/// Reading a byte string back from its encoding.
pub proof fn lemma_parse_bytes_enc(b: Seq<u8>, rest: Seq<u8>)
    requires
        fits_u64(b.len()),
    ensures
        parse_bytes(enc_bytes(b) + rest) == Some((b, 8 + b.len())),
        enc_bytes(b).len() == 8 + b.len(),
{
    lemma_pow256_values();
    lemma_le_roundtrip(b.len(), 8);
    let x = enc_bytes(b) + rest;
    assert(x.subrange(0, 8) =~= le_bytes(b.len(), 8));
    assert(x.subrange(8, 8 + b.len() as int) =~= b);
}

/// Reading an optional byte string back from its encoding.
pub proof fn lemma_parse_opt_bytes_enc(o: Option<Seq<u8>>, rest: Seq<u8>)
    requires
        match o {
            Some(v) => fits_u64(v.len()),
            None => true,
        },
    ensures
        parse_opt_bytes(enc_opt_bytes(o) + rest) == Some((o, enc_opt_bytes(o).len())),
{
    let x = enc_opt_bytes(o) + rest;
    match o {
        None => {},
        Some(v) => {
            assert(x.skip(1) =~= enc_bytes(v) + rest);
            lemma_parse_bytes_enc(v, rest);
        },
    }
}

/// Reading a record tuple back from its encoding.
pub proof fn lemma_parse_record_enc(r: WireRecord, rest: Seq<u8>)
    requires
        wire_record_fits(r),
    ensures
        parse_record(enc_record(r) + rest) == Some((r, enc_record(r).len())),
{
    lemma_pow256_values();
    lemma_le_roundtrip(r.0 as nat, 4);
    let x = enc_record(r) + rest;
    let kb = enc_bytes(r.1);
    let ob = enc_opt_bytes(r.2);
    assert(x.subrange(0, 4) =~= le_bytes(r.0 as nat, 4));
    assert(x.skip(4) =~= kb + (ob + rest));
    lemma_parse_bytes_enc(r.1, ob + rest);
    assert(x.skip(4 + kb.len() as int) =~= ob + rest);
    lemma_parse_opt_bytes_enc(r.2, rest);
}

/// Reading a list of record tuples back from their encodings.
#[verifier::rlimit(30)]
pub proof fn lemma_parse_record_list_enc(rs: Seq<WireRecord>, rest: Seq<u8>)
    requires
        forall|i: int| 0 <= i < rs.len() ==> wire_record_fits(#[trigger] rs[i]),
    ensures
        parse_record_list(concat_records(rs) + rest, rs.len()) == Some(
            (rs, concat_records(rs).len()),
        ),
    decreases rs.len(),
{
    if rs.len() > 0 {
        let tail = rs.skip(1);
        assert forall|i: int| 0 <= i < tail.len() implies wire_record_fits(#[trigger] tail[i]) by {
            assert(tail[i] == rs[i + 1]);
        }
        let x = concat_records(rs) + rest;
        let e = enc_record(rs[0]);
        assert(x =~= e + (concat_records(tail) + rest));
        assert(wire_record_fits(rs[0]));
        lemma_parse_record_enc(rs[0], concat_records(tail) + rest);
        assert(x.skip(e.len() as int) =~= concat_records(tail) + rest);
        lemma_parse_record_list_enc(tail, rest);
        assert(seq![rs[0]] + tail =~= rs);
    }
}

/// Reading a block back from its encoding.
pub proof fn lemma_parse_records_enc(rs: Seq<WireRecord>, rest: Seq<u8>)
    requires
        fits_u64(rs.len()),
        forall|i: int| 0 <= i < rs.len() ==> wire_record_fits(#[trigger] rs[i]),
    ensures
        parse_records(enc_records(rs) + rest) == Some(rs),
{
    lemma_pow256_values();
    lemma_le_roundtrip(rs.len(), 8);
    let x = enc_records(rs) + rest;
    assert(x.subrange(0, 8) =~= le_bytes(rs.len(), 8));
    assert(x.skip(8) =~= concat_records(rs) + rest);
    lemma_parse_record_list_enc(rs, rest);
}

/// Reading an index entry back from its encoding.
pub proof fn lemma_parse_index_entry_enc(p: (Seq<u8>, u64), rest: Seq<u8>)
    requires
        fits_u64(p.0.len()),
    ensures
        parse_index_entry(enc_index_entry(p) + rest) == Some((p, enc_index_entry(p).len())),
{
    lemma_pow256_values();
    lemma_le_roundtrip(p.1 as nat, 8);
    let x = enc_index_entry(p) + rest;
    let kb = enc_bytes(p.0);
    assert(x =~= kb + (le_bytes(p.1 as nat, 8) + rest));
    lemma_parse_bytes_enc(p.0, le_bytes(p.1 as nat, 8) + rest);
    assert(x.subrange(kb.len() as int, kb.len() as int + 8) =~= le_bytes(p.1 as nat, 8));
}

/// Reading a list of index entries back from their encodings.
pub proof fn lemma_parse_index_list_enc(ps: Seq<(Seq<u8>, u64)>, rest: Seq<u8>)
    requires
        forall|i: int| 0 <= i < ps.len() ==> fits_u64(#[trigger] ps[i].0.len()),
    ensures
        parse_index_list(concat_index(ps) + rest, ps.len()) == Some((ps, concat_index(ps).len())),
    decreases ps.len(),
{
    if ps.len() > 0 {
        let tail = ps.skip(1);
        assert forall|i: int| 0 <= i < tail.len() implies fits_u64(#[trigger] tail[i].0.len()) by {
            assert(tail[i] == ps[i + 1]);
        }
        let x = concat_index(ps) + rest;
        let e = enc_index_entry(ps[0]);
        assert(x =~= e + (concat_index(tail) + rest));
        assert(fits_u64(ps[0].0.len()));
        lemma_parse_index_entry_enc(ps[0], concat_index(tail) + rest);
        assert(x.skip(e.len() as int) =~= concat_index(tail) + rest);
        lemma_parse_index_list_enc(tail, rest);
        assert(seq![ps[0]] + tail =~= ps);
    }
}

/// Reading an index back from its encoding.
pub proof fn lemma_parse_index_enc(ps: Seq<(Seq<u8>, u64)>, rest: Seq<u8>)
    requires
        fits_u64(ps.len()),
        forall|i: int| 0 <= i < ps.len() ==> fits_u64(#[trigger] ps[i].0.len()),
    ensures
        parse_index(enc_index(ps) + rest) == Some(ps),
{
    lemma_pow256_values();
    lemma_le_roundtrip(ps.len(), 8);
    let x = enc_index(ps) + rest;
    assert(x.subrange(0, 8) =~= le_bytes(ps.len(), 8));
    assert(x.skip(8) =~= concat_index(ps) + rest);
    lemma_parse_index_list_enc(ps, rest);
}

/// A parsed byte string takes its length plus 8 bytes of the input.
pub proof fn lemma_parse_bytes_bound(b: Seq<u8>)
    ensures
        parse_bytes(b) matches Some((x, c)) ==> c == 8 + x.len() && c <= b.len(),
{
}

/// A parsed record tuple takes at least its key and value lengths of the input.
pub proof fn lemma_parse_record_bound(b: Seq<u8>)
    ensures
        parse_record(b) matches Some((w, c)) ==> w.1.len() + match w.2 {
            Some(v) => v.len(),
            None => 0,
        } <= c && c <= b.len(),
{
    if b.len() >= 4 {
        lemma_parse_bytes_bound(b.skip(4));
        match parse_bytes(b.skip(4)) {
            Some((k, c1)) => {
                let rest = b.skip(4 + c1 as int);
                lemma_parse_bytes_bound(rest.skip(1));
            },
            None => {},
        }
    }
}

/// `bincode::serialize` on a record tuple `(tag, key, value)`. Claims, as bincode's serializer shows
/// (fixed-width little-endian integers, `u64` sequence lengths, a tag byte for
/// `Option`, tuple fields one after another, writing into a `Vec` that cannot fail),
/// that it succeeds with exactly `enc_record` of the tuple.
#[verifier::external_body]
pub(crate) fn bincode_serialize_record(tag: u32, key: &Vec<u8>, value: &Option<Vec<u8>>) -> (r: Result<
    Vec<u8>,
    bincode::Error,
>)
    ensures
        match r {
            Ok(b) => b@ == enc_record((tag, key@, opt_bytes(*value))),
            Err(_) => false,
        },
{
    bincode::serialize(&(tag, key, value))
}

/// `bincode::serialized_size` on a record tuple. Claims that it succeeds with the
/// length of `enc_record` of the tuple (its size checker has no limit by default).
#[verifier::external_body]
pub(crate) fn bincode_serialized_size_record(tag: u32, key: &Vec<u8>, value: &Option<Vec<u8>>) -> (r:
    Result<u64, bincode::Error>)
    ensures
        match r {
            Ok(n) => n as nat == enc_record((tag, key@, opt_bytes(*value))).len(),
            Err(_) => false,
        },
{
    bincode::serialized_size(&(tag, key, value))
}

/// `bincode::serialize` on a vector of record tuples. Claims that it succeeds with
/// the count as 8 bytes followed by each tuple's encoding.
#[verifier::external_body]
pub(crate) fn bincode_serialize_block(records: &Vec<WireRecordExec>) -> (r: Result<Vec<u8>, bincode::Error>)
    ensures
        match r {
            Ok(b) => b@ == enc_records(wire_seq(records@)),
            Err(_) => false,
        },
{
    bincode::serialize(records)
}

/// `bincode::serialize` on a vector of `(key, offset)` pairs. Claims that it
/// succeeds with the count as 8 bytes followed by each key and offset.
#[verifier::external_body]
pub(crate) fn bincode_serialize_index(index: &Vec<(Vec<u8>, u64)>) -> (r: Result<Vec<u8>, bincode::Error>)
    ensures
        match r {
            Ok(b) => b@ == enc_index(index_seq(index@)),
            Err(_) => false,
        },
{
    bincode::serialize(index)
}

/// `bincode::deserialize` of a record tuple. Claims that it succeeds exactly when
/// `parse_record` reads a tuple at the front of the bytes (trailing bytes are
/// allowed by `bincode::deserialize`), and then yields that tuple.
#[verifier::external_body]
pub(crate) fn bincode_deserialize_record(bytes: &[u8]) -> (r: Result<WireRecordExec, bincode::Error>)
    ensures
        match r {
            Ok(x) => parse_record(bytes@) is Some && parse_record(bytes@).unwrap().0 == wire_view(x),
            Err(_) => parse_record(bytes@) is None,
        },
{
    bincode::deserialize(bytes)
}

/// `bincode::deserialize` of a vector of record tuples. Claims that it succeeds
/// exactly when `parse_records` reads a block at the front of the bytes, and then
/// yields its tuples.
#[verifier::external_body]
pub(crate) fn bincode_deserialize_block(bytes: &[u8]) -> (r: Result<Vec<WireRecordExec>, bincode::Error>)
    ensures
        match r {
            Ok(x) => parse_records(bytes@) == Some(wire_seq(x@)),
            Err(_) => parse_records(bytes@) is None,
        },
{
    bincode::deserialize(bytes)
}

/// `bincode::deserialize` of a vector of `(key, offset)` pairs. Claims that it
/// succeeds exactly when `parse_index` reads an index at the front of the bytes,
/// and then yields its pairs in order.
#[verifier::external_body]
pub(crate) fn bincode_deserialize_index(bytes: &[u8]) -> (r: Result<Vec<(Vec<u8>, u64)>, bincode::Error>)
    ensures
        match r {
            Ok(x) => parse_index(bytes@) == Some(index_seq(x@)),
            Err(_) => parse_index(bytes@) is None,
        },
{
    bincode::deserialize(bytes)
}

} // verus!
