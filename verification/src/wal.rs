//! The write-ahead log format: each record is framed by its payload length as
//! 4 little-endian bytes, and the payload is the record's bincode encoding. Reading
//! stops quietly at a frame cut short (a write torn by a crash); a payload that does
//! not decode is corruption. WAL files are named `log_<id>.log`, the id written in
//! decimal with at least six digits.

use vstd::prelude::*;
use vstd::string::StringExecFns;

use crate::codec::{
    bincode_deserialize_record, bincode_serialize_record, enc_record, parse_record, WireRecord,
    WireRecordExec,
};
use crate::error::DbError;
use crate::ints::{le_bytes, le_value, push_le, read_le};
use crate::model::{opt_bytes, record_view, LogRecord, RecordType};

verus! {

/// A record as plain values: type, key bytes, value bytes.
pub type RecordView = (RecordType, Seq<u8>, Option<Seq<u8>>);

/// The variant index that the encoding writes for a record type.
pub open spec fn tag_of(t: RecordType) -> u32 {
    match t {
        RecordType::Put => 0,
        RecordType::Delete => 1,
    }
}

/// The variant index that the encoding writes for a record type.
pub fn record_tag(t: RecordType) -> (r: u32)
    ensures
        r == tag_of(t),
{
    match t {
        RecordType::Put => 0,
        RecordType::Delete => 1,
    }
}

/// The record a decoded tuple stands for, if its tag names a record type.
pub open spec fn decode_wire(w: WireRecord) -> Option<RecordView> {
    if w.0 == 0 {
        Some((RecordType::Put, w.1, w.2))
    } else if w.0 == 1 {
        Some((RecordType::Delete, w.1, w.2))
    } else {
        None
    }
}

/// The tuple a record is encoded as.
pub open spec fn wire_of(r: RecordView) -> WireRecord {
    (tag_of(r.0), r.1, r.2)
}

/// A frame: the payload length (truncated to 32 bits) as 4 bytes, then the payload.
pub open spec fn wal_frame(payload: Seq<u8>) -> Seq<u8> {
    le_bytes(payload.len() % 0x1_0000_0000, 4) + payload
}

/// The frame a record is written as.
pub open spec fn record_frame(r: RecordView) -> Seq<u8> {
    wal_frame(enc_record(wire_of(r)))
}

/// Frames of several records, one after another.
pub open spec fn frames(rs: Seq<RecordView>) -> Seq<u8>
    decreases rs.len(),
{
    if rs.len() == 0 {
        Seq::empty()
    } else {
        record_frame(rs[0]) + frames(rs.skip(1))
    }
}

/// What a WAL file holds: the records of its complete frames, in order, up to the
/// first frame that is cut short; `None` if a complete frame does not decode.
pub open spec fn wal_parse(b: Seq<u8>) -> Option<Seq<RecordView>>
    decreases b.len(),
{
    if b.len() < 4 {
        Some(Seq::empty())
    } else {
        let n = le_value(b.subrange(0, 4));
        if b.len() - 4 < n {
            Some(Seq::empty())
        } else {
            match parse_record(b.subrange(4, 4 + n as int)) {
                None => None,
                Some((w, _)) => match decode_wire(w) {
                    None => None,
                    Some(r) => match wal_parse(b.skip(4 + n as int)) {
                        None => None,
                        Some(rs) => Some(seq![r] + rs),
                    },
                },
            }
        }
    }
}

/// Records as plain values.
pub open spec fn records_view(v: Seq<LogRecord>) -> Seq<RecordView> {
    Seq::new(v.len(), |i: int| record_view(v[i]))
}

/// `xs` in front of what `o` holds.
pub open spec fn prepend<A>(xs: Seq<A>, o: Option<Seq<A>>) -> Option<Seq<A>> {
    match o {
        Some(ys) => Some(xs + ys),
        None => None,
    }
}

/// The WAL frame of one record: its bincode encoding, preceded by the encoding's
/// length cast to `u32` (as 4 little-endian bytes).
pub fn encode_record(record: &LogRecord) -> (r: Result<Vec<u8>, DbError>)
    ensures
        match r {
            Ok(b) => b@ == record_frame(record_view(*record)),
            Err(_) => false,
        },
{
    let tag = record_tag(record.r_type);
    let payload = match bincode_serialize_record(tag, &record.key, &record.value) {
        Ok(p) => p,
        Err(e) => return Err(DbError::Serialize(e)),
    };
    let len = payload.len() as u32;
    proof {
        let l = payload.len();
        assert(len as int == l as int % 0x1_0000_0000) by (bit_vector)
            requires
                len == l as u32,
        ;
    }
    let mut out: Vec<u8> = Vec::new();
    push_le(&mut out, len as u64, 4);
    let mut i: usize = 0;
    let ghost head = out@;
    while i < payload.len()
        invariant
            i <= payload.len(),
            out@ == head + payload@.subrange(0, i as int),
        decreases payload.len() - i,
    {
        out.push(payload[i]);
        proof {
            assert(payload@.subrange(0, i + 1) =~= payload@.subrange(0, i as int).push(payload@[i as int]));
        }
        i = i + 1;
    }
    proof {
        assert(payload@.subrange(0, payload@.len() as int) =~= payload@);
        assert(head =~= Seq::<u8>::empty() + le_bytes(len as nat, 4));
    }
    Ok(out)
}

/// The record a decoded tuple stands for; a tag other than 0 or 1 is corruption.
fn wire_to_record(w: WireRecordExec) -> (r: Result<LogRecord, DbError>)
    ensures
        match r {
            Ok(rec) => decode_wire((w.0, w.1@, opt_bytes(w.2))) == Some(record_view(rec)),
            Err(e) => decode_wire((w.0, w.1@, opt_bytes(w.2))) is None && e is Corruption,
        },
{
    let (tag, key, value) = w;
    if tag == 0 {
        Ok(LogRecord { r_type: RecordType::Put, key, value })
    } else if tag == 1 {
        Ok(LogRecord { r_type: RecordType::Delete, key, value })
    } else {
        Err(DbError::Corruption(String::from_str("invalid record type tag")))
    }
}

/// Reads every record of a WAL file's bytes, stopping quietly at a frame cut short;
/// a complete frame whose payload does not decode is `Corruption`.
pub fn read_all_records(bytes: &[u8]) -> (r: Result<Vec<LogRecord>, DbError>)
    ensures
        match r {
            Ok(v) => wal_parse(bytes@) == Some(records_view(v@)),
            Err(e) => wal_parse(bytes@) is None && e is Corruption,
        },
{
    let len = bytes.len();
    let mut out: Vec<LogRecord> = Vec::new();
    let mut pos: usize = 0;
    assert(bytes@.skip(0) =~= bytes@);
    assert(records_view(out@) =~= Seq::<RecordView>::empty());
    loop
        invariant
            pos <= len,
            len == bytes@.len(),
            wal_parse(bytes@) == prepend(records_view(out@), wal_parse(bytes@.skip(pos as int))),
        decreases len - pos,
    {
        let ghost rest = bytes@.skip(pos as int);
        if len - pos < 4 {
            assert(records_view(out@) + Seq::<RecordView>::empty() =~= records_view(out@));
            return Ok(out);
        }
        let n64 = read_le(bytes, pos, 4);
        proof {
            assert(rest.subrange(0, 4) =~= bytes@.subrange(pos as int, pos + 4));
            crate::ints::lemma_le_value_bound(bytes@.subrange(pos as int, pos + 4));
            crate::ints::lemma_pow256_values();
        }
        let n = n64 as usize;
        if len - pos - 4 < n {
            assert(records_view(out@) + Seq::<RecordView>::empty() =~= records_view(out@));
            return Ok(out);
        }
        let payload = &bytes[pos + 4..pos + 4 + n];
        proof {
            assert(rest.subrange(4, 4 + n as int) =~= payload@);
            assert(rest.skip(4 + n as int) =~= bytes@.skip(pos + 4 + n));
        }
        match bincode_deserialize_record(payload) {
            Err(e) => {
                return Err(DbError::Corruption(e.to_string()));
            },
            Ok(w) => {
                let ghost wv = (w.0, w.1@, opt_bytes(w.2));
                match wire_to_record(w) {
                    Err(e) => {
                        return Err(e);
                    },
                    Ok(rec) => {
                        let ghost before = records_view(out@);
                        out.push(rec);
                        proof {
                            assert(records_view(out@) =~= before.push(record_view(rec)));
                            match wal_parse(bytes@.skip(pos + 4 + n)) {
                                Some(rs) => {
                                    assert(before + (seq![record_view(rec)] + rs) =~= before.push(
                                        record_view(rec),
                                    ) + rs);
                                },
                                None => {},
                            }
                        }
                        pos = pos + 4 + n;
                    },
                }
            },
        }
    }
}

/// The decimal digits of `n`, most significant first, as ASCII bytes.
pub open spec fn decimal(n: nat) -> Seq<u8>
    decreases n,
{
    if n < 10 {
        seq![(48 + n) as u8]
    } else {
        decimal(n / 10) + seq![(48 + n % 10) as u8]
    }
}

/// `s` preceded by ASCII zeros up to width `w`.
pub open spec fn zero_pad(s: Seq<u8>, w: nat) -> Seq<u8> {
    if s.len() >= w {
        s
    } else {
        Seq::new((w - s.len()) as nat, |i: int| 48u8) + s
    }
}

/// The bytes of `"log_"`.
pub open spec fn wal_prefix() -> Seq<u8> {
    seq![108u8, 111u8, 103u8, 95u8]
}

/// The bytes of `".log"`.
pub open spec fn wal_suffix() -> Seq<u8> {
    seq![46u8, 108u8, 111u8, 103u8]
}

/// The name of the WAL file with the given id: `log_{id:06}.log`.
pub open spec fn wal_name(id: u64) -> Seq<u8> {
    wal_prefix() + zero_pad(decimal(id as nat), 6) + wal_suffix()
}

/// All bytes are ASCII digits.
pub open spec fn all_digits(s: Seq<u8>) -> bool {
    forall|i: int| 0 <= i < s.len() ==> 48 <= #[trigger] s[i] <= 57
}

/// The number ASCII digits stand for.
pub open spec fn digits_value(s: Seq<u8>) -> nat
    decreases s.len(),
{
    if s.len() == 0 {
        0
    } else {
        digits_value(s.drop_last()) * 10 + (s.last() - 48) as nat
    }
}

/// What `u64::from_str` makes of the bytes: an optional `+`, then at least one
/// digit, and a value that fits.
pub open spec fn parse_u64_decimal(s: Seq<u8>) -> Option<u64> {
    let d = if s.len() > 0 && s[0] == 43 {
        s.skip(1)
    } else {
        s
    };
    if d.len() > 0 && all_digits(d) && digits_value(d) <= u64::MAX {
        Some(digits_value(d) as u64)
    } else {
        None
    }
}

/// The id a file name carries if it names a WAL file: it starts with `log_`, ends
/// with `.log`, and what stands between parses as a `u64`.
pub open spec fn wal_id_of_name(name: Seq<u8>) -> Option<u64> {
    if name.len() >= 8 && name.subrange(0, 4) == wal_prefix() && name.subrange(
        name.len() - 4,
        name.len() as int,
    ) == wal_suffix() {
        parse_u64_decimal(name.subrange(4, name.len() - 4))
    } else {
        None
    }
}


/// A record whose encoding is short enough for its frame's 4-byte length field.
pub open spec fn frame_fits(r: RecordView) -> bool {
    enc_record(wire_of(r)).len() < 0x1_0000_0000
}

/// Reading back the frames of records gives the records, also when the frame of
/// one more record was cut short after them (a write torn by a crash).
pub proof fn lemma_wal_roundtrip(rs: Seq<RecordView>, torn: RecordView, cut: nat)
    requires
        forall|i: int| 0 <= i < rs.len() ==> frame_fits(#[trigger] rs[i]),
        frame_fits(torn),
        cut < record_frame(torn).len(),
    ensures
        wal_parse(frames(rs)) == Some(rs),
        wal_parse(frames(rs) + record_frame(torn).subrange(0, cut as int)) == Some(rs),
    decreases rs.len(),
{
    let t = record_frame(torn).subrange(0, cut as int);
    lemma_torn_frame(torn, cut);
    assert(frames(rs) =~= frames(rs) + Seq::<u8>::empty());
    lemma_wal_frames(rs, Seq::<u8>::empty());
    lemma_wal_frames(rs, t);
}

proof fn lemma_frame_header(r: RecordView, rest: Seq<u8>)
    requires
        frame_fits(r),
    ensures
        ({
            let x = record_frame(r) + rest;
            let p = enc_record(wire_of(r));
            &&& x.len() >= 4
            &&& le_value(x.subrange(0, 4)) == p.len()
            &&& x.len() - 4 >= p.len()
            &&& x.subrange(4, 4 + p.len() as int) == p
            &&& x.skip(4 + p.len() as int) == rest
        }),
{
    let p = enc_record(wire_of(r));
    let x = record_frame(r) + rest;
    crate::ints::lemma_pow256_values();
    crate::ints::lemma_le_roundtrip(p.len(), 4);
    assert(p.len() % 0x1_0000_0000 == p.len());
    assert(x.subrange(0, 4) =~= le_bytes(p.len(), 4));
    assert(x.subrange(4, 4 + p.len() as int) =~= p);
    assert(x.skip(4 + p.len() as int) =~= rest);
}

proof fn lemma_torn_frame(r: RecordView, cut: nat)
    requires
        frame_fits(r),
        cut < record_frame(r).len(),
    ensures
        wal_parse(record_frame(r).subrange(0, cut as int)) == Some(Seq::<RecordView>::empty()),
{
    let t = record_frame(r).subrange(0, cut as int);
    if cut >= 4 {
        lemma_frame_header(r, Seq::empty());
        let f = record_frame(r) + Seq::<u8>::empty();
        assert(f =~= record_frame(r));
        assert(t.subrange(0, 4) =~= f.subrange(0, 4));
    }
}

proof fn lemma_wal_frames(rs: Seq<RecordView>, t: Seq<u8>)
    requires
        forall|i: int| 0 <= i < rs.len() ==> frame_fits(#[trigger] rs[i]),
        wal_parse(t) == Some(Seq::<RecordView>::empty()),
    ensures
        wal_parse(frames(rs) + t) == Some(rs),
    decreases rs.len(),
{
    if rs.len() == 0 {
        assert(frames(rs) + t =~= t);
    } else {
        let r = rs[0];
        let tail = rs.skip(1);
        assert(frame_fits(r));
        assert forall|i: int| 0 <= i < tail.len() implies frame_fits(#[trigger] tail[i]) by {
            assert(tail[i] == rs[i + 1]);
        }
        let rest = frames(tail) + t;
        let x = frames(rs) + t;
        assert(x =~= record_frame(r) + rest);
        lemma_frame_header(r, rest);
        let w = wire_of(r);
        let p = enc_record(w);
        assert(wire_record_fits_of(r)) by {
            lemma_enc_record_len(w);
        }
        crate::codec::lemma_parse_record_enc(w, Seq::empty());
        assert(p + Seq::<u8>::empty() =~= p);
        lemma_wal_frames(tail, t);
        assert(seq![r] + tail =~= rs);
    }
}

/// The key and value of a record are short enough for their 8-byte length fields.
pub open spec fn wire_record_fits_of(r: RecordView) -> bool {
    crate::codec::wire_record_fits(wire_of(r))
}

proof fn lemma_enc_record_len(w: WireRecord)
    ensures
        enc_record(w).len() >= 12 + w.1.len() + match w.2 {
            Some(v) => v.len(),
            None => 0,
        },
{
    crate::ints::lemma_le_bytes_len(w.0 as nat, 4);
    crate::ints::lemma_le_bytes_len(w.1.len(), 8);
    match w.2 {
        Some(v) => crate::ints::lemma_le_bytes_len(v.len(), 8),
        None => {},
    }
}

fn push_decimal(out: &mut Vec<u8>, n: u64)
    ensures
        final(out)@ == old(out)@ + decimal(n as nat),
    decreases n,
{
    if n < 10 {
        out.push((48 + n) as u8);
    } else {
        push_decimal(out, n / 10);
        out.push((48 + n % 10) as u8);
        assert(decimal(n as nat) == decimal((n / 10) as nat) + seq![(48 + n % 10) as u8]);
    }
}

/// Appends `id` in decimal, padded with zeros to at least six digits.
pub fn push_padded_id(out: &mut Vec<u8>, id: u64)
    ensures
        final(out)@ == old(out)@ + zero_pad(decimal(id as nat), 6),
{
    let mut digits: Vec<u8> = Vec::new();
    push_decimal(&mut digits, id);
    assert(digits@ =~= decimal(id as nat));
    let ghost start = out@;
    let mut pad: usize = 0;
    let need: usize = if digits.len() < 6 { 6 - digits.len() } else { 0 };
    assert(start =~= start + Seq::new(0, |i: int| 48u8));
    while pad < need
        invariant
            pad <= need,
            out@ == start + Seq::new(pad as nat, |i: int| 48u8),
        decreases need - pad,
    {
        out.push(48u8);
        pad = pad + 1;
        assert(out@ =~= start + Seq::new(pad as nat, |i: int| 48u8));
    }
    let mut i: usize = 0;
    let ghost padded = out@;
    assert(padded =~= padded + digits@.subrange(0, 0));
    while i < digits.len()
        invariant
            i <= digits.len(),
            out@ == padded + digits@.subrange(0, i as int),
        decreases digits.len() - i,
    {
        out.push(digits[i]);
        i = i + 1;
        assert(out@ =~= padded + digits@.subrange(0, i as int));
    }
    proof {
        let z = zero_pad(decimal(id as nat), 6);
        if digits@.len() >= 6 {
            assert(z == digits@);
        } else {
            assert(z == Seq::new(need as nat, |i: int| 48u8) + digits@);
        }
        assert(digits@.subrange(0, digits@.len() as int) =~= digits@);
        assert(out@ =~= start + z);
    }
}

/// The name of the WAL file with the given id: `log_{id:06}.log`.
pub fn wal_file_name(id: u64) -> (r: Vec<u8>)
    ensures
        r@ == wal_name(id),
{
    let mut out: Vec<u8> = Vec::new();
    out.push(108u8);
    out.push(111u8);
    out.push(103u8);
    out.push(95u8);
    assert(out@ =~= wal_prefix());
    push_padded_id(&mut out, id);
    out.push(46u8);
    out.push(108u8);
    out.push(111u8);
    out.push(103u8);
    assert(out@ =~= wal_name(id));
    out
}

proof fn lemma_digits_value_step(s: Seq<u8>, i: int)
    requires
        0 <= i < s.len(),
    ensures
        digits_value(s.subrange(0, i + 1)) == digits_value(s.subrange(0, i)) * 10 + (s[i] - 48) as nat,
{
    let p = s.subrange(0, i + 1);
    assert(p.drop_last() =~= s.subrange(0, i));
}

proof fn lemma_digits_value_prefix_mono(s: Seq<u8>, i: int)
    requires
        0 <= i <= s.len(),
        all_digits(s),
    ensures
        digits_value(s.subrange(0, i)) <= digits_value(s),
    decreases s.len() - i,
{
    if i < s.len() {
        lemma_digits_value_step(s, i);
        lemma_digits_value_prefix_mono(s, i + 1);
    } else {
        assert(s.subrange(0, i) =~= s);
    }
}

/// Reads an unsigned decimal number the way `u64::from_str` does.
fn parse_decimal(s: &[u8]) -> (r: Option<u64>)
    ensures
        r == parse_u64_decimal(s@),
{
    let len = s.len();
    let start: usize = if len > 0 && s[0] == 43u8 { 1 } else { 0 };
    let ghost d = if s@.len() > 0 && s@[0] == 43 { s@.skip(1) } else { s@ };
    assert(d =~= s@.skip(start as int));
    if start == len {
        return None;
    }
    let mut acc: u64 = 0;
    let mut i: usize = start;
    assert(d.subrange(0, 0) =~= Seq::<u8>::empty());
    while i < len
        invariant
            start <= i <= len,
            len == s@.len(),
            d == s@.skip(start as int),
            d == (if s@.len() > 0 && s@[0] == 43 { s@.skip(1) } else { s@ }),
            d.len() > 0,
            all_digits(d.subrange(0, i - start)),
            acc as nat == digits_value(d.subrange(0, i - start)),
        decreases len - i,
    {
        let c = s[i];
        if c < 48u8 || c > 57u8 {
            assert(d[i - start] == c);
            assert(!all_digits(d));
            return None;
        }
        proof {
            lemma_digits_value_step(d, i - start);
            assert(d.subrange(0, i - start + 1) =~= d.subrange(0, i - start).push(c));
        }
        let m = acc.checked_mul(10);
        match m {
            None => {
                proof {
                    if all_digits(d) {
                        lemma_digits_value_prefix_mono(d, i - start + 1);
                        assert(digits_value(d) >= acc * 10);
                    }
                }
                return None;
            },
            Some(m) => {
                let a = m.checked_add((c - 48u8) as u64);
                match a {
                    None => {
                        proof {
                            if all_digits(d) {
                                lemma_digits_value_prefix_mono(d, i - start + 1);
                            }
                        }
                        return None;
                    },
                    Some(a) => {
                        acc = a;
                    },
                }
            },
        }
        i = i + 1;
    }
    assert(d.subrange(0, len - start) =~= d);
    Some(acc)
}

/// The id of a WAL file from its name, if the name is `log_<u64>.log`.
pub fn parse_wal_file_name(name: &[u8]) -> (r: Option<u64>)
    ensures
        r == wal_id_of_name(name@),
{
    let len = name.len();
    if len < 8 {
        return None;
    }
    if !(name[0] == 108u8 && name[1] == 111u8 && name[2] == 103u8 && name[3] == 95u8) {
        proof {
            if name@.subrange(0, 4) == wal_prefix() {
                assert(name@.subrange(0, 4)[0] == name@[0]);
                assert(name@.subrange(0, 4)[1] == name@[1]);
                assert(name@.subrange(0, 4)[2] == name@[2]);
                assert(name@.subrange(0, 4)[3] == name@[3]);
            }
        }
        return None;
    }
    if !(name[len - 4] == 46u8 && name[len - 3] == 108u8 && name[len - 2] == 111u8 && name[len - 1]
        == 103u8) {
        proof {
            let sfx = name@.subrange(len - 4, len as int);
            if sfx == wal_suffix() {
                assert(sfx[0] == name@[len - 4]);
                assert(sfx[1] == name@[len - 3]);
                assert(sfx[2] == name@[len - 2]);
                assert(sfx[3] == name@[len - 1]);
            }
        }
        return None;
    }
    assert(name@.subrange(0, 4) =~= wal_prefix());
    assert(name@.subrange(len - 4, len as int) =~= wal_suffix());
    parse_decimal(&name[4..len - 4])
}


proof fn lemma_decimal(n: nat)
    ensures
        all_digits(decimal(n)),
        decimal(n).len() >= 1,
        digits_value(decimal(n)) == n,
    decreases n,
{
    if n < 10 {
        let d = decimal(n);
        assert(d.drop_last() =~= Seq::<u8>::empty());
        assert(digits_value(d) == digits_value(d.drop_last()) * 10 + (d.last() - 48) as nat);
    } else {
        lemma_decimal(n / 10);
        let d = decimal(n);
        assert(d.drop_last() =~= decimal(n / 10));
        assert(d.last() == (48 + n % 10) as u8);
        assert((n / 10) * 10 + n % 10 == n) by (nonlinear_arith);
        assert(digits_value(d) == digits_value(d.drop_last()) * 10 + (d.last() - 48) as nat);
        assert forall|i: int| 0 <= i < d.len() implies 48 <= #[trigger] d[i] <= 57 by {
            if i < d.len() - 1 {
                assert(d[i] == decimal(n / 10)[i]);
            }
        }
    }
}

proof fn lemma_leading_zeros(k: nat, s: Seq<u8>)
    ensures
        digits_value(Seq::new(k, |i: int| 48u8) + s) == digits_value(s),
    decreases s.len(),
{
    let z = Seq::new(k, |i: int| 48u8);
    if s.len() == 0 {
        assert(z + s =~= z);
        lemma_zeros_value(k);
    } else {
        assert((z + s).drop_last() =~= z + s.drop_last());
        lemma_leading_zeros(k, s.drop_last());
    }
}

proof fn lemma_zeros_value(k: nat)
    ensures
        digits_value(Seq::new(k, |i: int| 48u8)) == 0,
    decreases k,
{
    if k > 0 {
        assert(Seq::new(k, |i: int| 48u8).drop_last() =~= Seq::new((k - 1) as nat, |i: int| 48u8));
        lemma_zeros_value((k - 1) as nat);
    }
}

/// Reading the id back from a WAL file's name gives the id it was named with.
pub proof fn lemma_wal_name_roundtrip(id: u64)
    ensures
        wal_id_of_name(wal_name(id)) == Some(id),
{
    let d = decimal(id as nat);
    lemma_decimal(id as nat);
    let z = zero_pad(d, 6);
    let name = wal_name(id);
    assert(all_digits(z) && digits_value(z) == id && z.len() >= 1) by {
        if d.len() < 6 {
            let k = (6 - d.len()) as nat;
            lemma_leading_zeros(k, d);
            assert forall|i: int| 0 <= i < z.len() implies 48 <= #[trigger] z[i] <= 57 by {
                if i >= k {
                    assert(z[i] == d[i - k]);
                }
            }
        }
    }
    assert(name.subrange(0, 4) =~= wal_prefix());
    assert(name.subrange(name.len() - 4, name.len() as int) =~= wal_suffix());
    assert(name.subrange(4, name.len() - 4) =~= z);
    assert(z[0] != 43);
}


/// Key and value bytes of a record.
pub open spec fn record_bytes(r: RecordView) -> nat {
    r.1.len() + crate::model::opt_len(r.2)
}

/// Key and value bytes of records.
pub open spec fn records_bytes(rs: Seq<RecordView>) -> nat
    decreases rs.len(),
{
    if rs.len() == 0 {
        0
    } else {
        records_bytes(rs.drop_last()) + record_bytes(rs.last())
    }
}

/// Bytes of records add up over concatenation.
pub proof fn lemma_records_bytes_concat(a: Seq<RecordView>, b: Seq<RecordView>)
    ensures
        records_bytes(a + b) == records_bytes(a) + records_bytes(b),
    decreases b.len(),
{
    if b.len() == 0 {
        assert(a + b =~= a);
    } else {
        assert((a + b).drop_last() =~= a + b.drop_last());
        lemma_records_bytes_concat(a, b.drop_last());
    }
}

/// The records of a WAL file hold no more key and value bytes than the file.
pub proof fn lemma_wal_parse_bytes(b: Seq<u8>)
    ensures
        wal_parse(b) matches Some(rs) ==> records_bytes(rs) <= b.len(),
    decreases b.len(),
{
    assert(records_bytes(Seq::<RecordView>::empty()) == 0);
    if b.len() >= 4 {
        let n = le_value(b.subrange(0, 4));
        if b.len() - 4 >= n {
            let p = b.subrange(4, 4 + n as int);
            crate::codec::lemma_parse_record_bound(p);
            lemma_wal_parse_bytes(b.skip(4 + n as int));
            match parse_record(p) {
                Some((w, _)) => match decode_wire(w) {
                    Some(r) => match wal_parse(b.skip(4 + n as int)) {
                        Some(rs) => {
                            lemma_records_bytes_concat(seq![r], rs);
                            assert(seq![r].drop_last() =~= Seq::<RecordView>::empty());
                            assert(records_bytes(Seq::<RecordView>::empty()) == 0);
                            assert(records_bytes(seq![r]) == record_bytes(r));
                            assert(record_bytes(r) <= n);
                            assert(b.skip(4 + n as int).len() == b.len() - 4 - n);
                        },
                        None => {},
                    },
                    None => {},
                },
                None => {},
            }
        }
    } else {
        assert(records_bytes(Seq::<RecordView>::empty()) == 0);
    }
}

} // verus!
