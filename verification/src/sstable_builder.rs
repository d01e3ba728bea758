//! Building a table file from entries in key order: records are gathered into a
//! block until the block's encoded records reach the target block size; each block
//! is encoded, compressed and written with its length; then come the sparse index
//! (start key and offset of each block) and the footer.

use vstd::prelude::*;
use vstd::string::StringExecFns;

use crate::codec::{
    bincode_serialize_block, bincode_serialize_index, bincode_serialized_size_record,
    enc_index, enc_record, enc_records, index_seq, wire_seq, WireRecord, WireRecordExec,
};
use crate::compression::{compression_byte, zstd_encode_all, zstd_encoded, CompressionType};
use crate::error::DbError;
use crate::ints::{le_bytes, push_le};
use crate::memtable::contents_of;
use crate::model::{clone_opt_value, opt_bytes, Key, Value};
use crate::sorted::{
    key_seq, keys_of, lemma_pairs_map_insert, lemma_pairs_map_update, lemma_sorted_pairs_distinct,
    lemma_splits_absent, pairs_map, sorted_pairs, upsert,
};
use crate::sstable::{decompressed, map_of_list};

verus! {

/// An entry to write: key bytes and value bytes, `None` for a tombstone.
pub type Entry = (Seq<u8>, Option<Seq<u8>>);

/// The record tuple an entry is written as: a put if it has a value, else a tombstone.
pub open spec fn entry_wire(e: Entry) -> WireRecord {
    (if e.1 is Some { 0u32 } else { 1u32 }, e.0, e.1)
}

/// The record tuples entries are written as.
pub open spec fn entry_wires(b: Seq<Entry>) -> Seq<WireRecord> {
    Seq::new(b.len(), |j: int| entry_wire(b[j]))
}

/// Bytes the record of an entry takes in a block.
pub open spec fn entry_record_size(e: Entry) -> nat {
    enc_record(entry_wire(e)).len()
}

/// Gathering entries into blocks: the blocks closed so far, the open block and its
/// encoded size. A block closes as soon as its size reaches `bs`.
pub open spec fn cut_blocks(es: Seq<Entry>, bs: nat) -> (Seq<Seq<Entry>>, Seq<Entry>, nat)
    decreases es.len(),
{
    if es.len() == 0 {
        (Seq::empty(), Seq::empty(), 0)
    } else {
        let (closed, open, size) = cut_blocks(es.drop_last(), bs);
        let open2 = open.push(es.last());
        let size2 = size + entry_record_size(es.last());
        if size2 >= bs {
            (closed.push(open2), Seq::empty(), 0)
        } else {
            (closed, open2, size2)
        }
    }
}

/// The blocks that entries are written in: the closed ones and a last, partly
/// filled one if any.
pub open spec fn blocks_of(es: Seq<Entry>, bs: nat) -> Seq<Seq<Entry>> {
    let (closed, open, _) = cut_blocks(es, bs);
    if open.len() > 0 {
        closed.push(open)
    } else {
        closed
    }
}

/// The stored bytes of a block: its encoded records, compressed as the table says;
/// `None` where compression fails (always for Snappy, which is not implemented).
pub open spec fn block_payload(b: Seq<Entry>, c: CompressionType, level: i32) -> Option<Seq<u8>> {
    let enc = enc_records(entry_wires(b));
    match c {
        CompressionType::Uncompressed => Some(enc),
        CompressionType::Zstd => zstd_encoded(enc, level),
        CompressionType::Snappy => None,
    }
}

/// Every block's stored bytes decompress back to its encoded records.
pub open spec fn blocks_decode(bl: Seq<Seq<Entry>>, c: CompressionType, level: i32) -> bool {
    forall|j: int| 0 <= j < bl.len() ==> match block_payload(#[trigger] bl[j], c, level) {
        Some(p) => decompressed(c, p) == Some(enc_records(entry_wires(bl[j]))),
        None => true,
    }
}

/// The data part of the file for the given blocks, with the start key and offset of
/// each block; `None` if a block fails to compress.
pub open spec fn layout(bl: Seq<Seq<Entry>>, c: CompressionType, level: i32) -> Option<(Seq<u8>, Seq<(Seq<u8>, u64)>)>
    decreases bl.len(),
{
    if bl.len() == 0 {
        Some((Seq::empty(), Seq::empty()))
    } else {
        match layout(bl.drop_last(), c, level) {
            None => None,
            Some((d, st)) => match block_payload(bl.last(), c, level) {
                None => None,
                Some(p) => Some((d + le_bytes(p.len(), 8) + p, st.push((bl.last()[0].0, d.len() as u64)))),
            },
        }
    }
}

/// The footer: index offset, compression byte, seven bytes of padding, magic number.
pub open spec fn footer(index_offset: nat, c: CompressionType) -> Seq<u8> {
    le_bytes(index_offset, 8) + seq![compression_byte(c)] + Seq::new(7, |i: int| 0u8) + le_bytes(0x888A, 8)
}

/// The file for the given data part and sparse index.
pub open spec fn table_file(d: Seq<u8>, ix: Seq<(Seq<u8>, u64)>, c: CompressionType) -> Seq<u8> {
    d + enc_index(ix) + footer(d.len(), c)
}

/// Builder for constructing Sorted String Tables (SSTables).
pub struct SSTableBuilder {
    block_size: usize,
    compression_type: CompressionType,
    compression_level: i32,
}

/// Closes a block: its bytes are written to `out` and its start key and offset
/// recorded in the index.
fn close_block(
    out: &mut Vec<u8>,
    index: &mut Vec<(Key, u64)>,
    block: &Vec<WireRecordExec>,
    start_key: Vec<u8>,
    compression_type: CompressionType,
    compression_level: i32,
) -> (r: Result<(), DbError>)
    requires
        strictly_sorted_index(old(index)@),
        block@.len() > 0,
    ensures
        strictly_sorted_index(final(index)@),
        ({
            let enc = enc_records(wire_seq(block@));
            let payload = match compression_type {
                CompressionType::Uncompressed => Some(enc),
                CompressionType::Zstd => zstd_encoded(enc, compression_level),
                CompressionType::Snappy => None,
            };
            match r {
                Ok(()) => payload matches Some(p) && final(out)@ == old(out)@ + le_bytes(p.len(), 8) + p
                    && decompressed(compression_type, p) == Some(enc)
                    && pairs_map(index_seq(final(index)@)) == pairs_map(index_seq(old(index)@)).insert(
                    start_key@,
                    old(out)@.len() as u64,
                ),
                Err(e) => payload is None && (compression_type == CompressionType::Snappy ==> (e matches DbError::Corruption(m)
                    && m@ == "Snappy not implemented"@)) && (compression_type == CompressionType::Zstd
                    ==> e is IO),
            }
        }),
{
    let encode = match bincode_serialize_block(block) {
        Ok(b) => b,
        Err(e) => return Err(DbError::Serialize(e)),
    };
    let payload = match compression_type {
        CompressionType::Uncompressed => encode,
        CompressionType::Snappy => return Err(
            DbError::Corruption(String::from_str("Snappy not implemented")),
        ),
        CompressionType::Zstd => match zstd_encode_all(encode.as_slice(), compression_level) {
            Ok(p) => p,
            Err(e) => return Err(DbError::IO(e)),
        },
    };
    let offset = out.len() as u64;
    let ghost old_idx = index_seq(index@);
    let ghost kv = start_key@;
    assert(key_seq(index@) =~= keys_of(old_idx));
    let (j, prev) = upsert(index, start_key, offset);
    proof {
        lemma_sorted_pairs_distinct(old_idx);
        match prev {
            Some(_) => {
                assert(index_seq(index@) =~= old_idx.update(j as int, (kv, offset)));
                assert(old_idx[j as int].0 == kv);
                lemma_pairs_map_update(old_idx, j as int, offset);
            },
            None => {
                assert(index_seq(index@) =~= old_idx.insert(j as int, (kv, offset)));
                lemma_splits_absent(keys_of(old_idx), kv, j as int);
                if crate::sorted::has_key(old_idx, kv) {
                    let a = choose|a: int| 0 <= a < old_idx.len() && #[trigger] old_idx[a].0 == kv;
                    assert(keys_of(old_idx)[a] == kv);
                }
                lemma_pairs_map_insert(old_idx, j as int, kv, offset);
            },
        }
    }
    push_le(out, payload.len() as u64, 8);
    append_bytes(out, &payload);
    Ok(())
}

/// The index is in strictly increasing key order.
pub open spec fn strictly_sorted_index(v: Seq<(Vec<u8>, u64)>) -> bool {
    crate::keys::strictly_sorted(key_seq(v))
}

/// Appends the bytes of `src`.
pub fn append_bytes(out: &mut Vec<u8>, src: &Vec<u8>)
    ensures
        final(out)@ == old(out)@ + src@,
{
    let mut i: usize = 0;
    while i < src.len()
        invariant
            i <= src.len(),
            out@ == old(out)@ + src@.subrange(0, i as int),
        decreases src.len() - i,
    {
        out.push(src[i]);
        i = i + 1;
        assert(out@ =~= old(out)@ + src@.subrange(0, i as int));
    }
    assert(src@.subrange(0, src@.len() as int) =~= src@);
}


proof fn lemma_cut_step(es: Seq<Entry>, bs: nat, i: int)
    requires
        0 <= i < es.len(),
    ensures
        ({
            let pre = cut_blocks(es.subrange(0, i), bs);
            let op2 = pre.1.push(es[i]);
            let size2 = pre.2 + entry_record_size(es[i]);
            cut_blocks(es.subrange(0, i + 1), bs) == if size2 >= bs {
                (pre.0.push(op2), Seq::<Entry>::empty(), 0nat)
            } else {
                (pre.0, op2, size2)
            }
        }),
{
    let next = es.subrange(0, i + 1);
    assert(next.drop_last() =~= es.subrange(0, i));
    assert(next.last() == es[i]);
}

proof fn lemma_entry_wires_push(b: Seq<Entry>, e: Entry)
    ensures
        entry_wires(b.push(e)) == entry_wires(b).push(entry_wire(e)),
{
    assert(entry_wires(b.push(e)) =~= entry_wires(b).push(entry_wire(e)));
}

/// A block whose stored bytes decompress to its records extends blocks that do.
proof fn lemma_blocks_decode_push(bl: Seq<Seq<Entry>>, b: Seq<Entry>, c: CompressionType, level: i32)
    requires
        blocks_decode(bl, c, level),
        match block_payload(b, c, level) {
            Some(p) => decompressed(c, p) == Some(enc_records(entry_wires(b))),
            None => true,
        },
    ensures
        blocks_decode(bl.push(b), c, level),
{
    assert forall|j: int| 0 <= j < bl.push(b).len() implies match block_payload(#[trigger] bl.push(b)[j], c, level) {
        Some(p) => decompressed(c, p) == Some(enc_records(entry_wires(bl.push(b)[j]))),
        None => true,
    } by {
        if j < bl.len() {
            assert(bl.push(b)[j] == bl[j]);
        }
    }
}

/// Closed blocks of a prefix of the entries come first among the blocks of all of them.
proof fn lemma_closed_prefix(es: Seq<Entry>, bs: nat, i: int)
    requires
        0 <= i <= es.len(),
    ensures
        cut_blocks(es.subrange(0, i), bs).0.len() <= blocks_of(es, bs).len(),
        cut_blocks(es.subrange(0, i), bs).0 == blocks_of(es, bs).subrange(
            0,
            cut_blocks(es.subrange(0, i), bs).0.len() as int,
        ),
    decreases es.len() - i,
{
    let cl = cut_blocks(es.subrange(0, i), bs).0;
    if i == es.len() {
        assert(es.subrange(0, i) =~= es);
        let bl = blocks_of(es, bs);
        assert(cl =~= bl.subrange(0, cl.len() as int));
    } else {
        lemma_closed_prefix(es, bs, i + 1);
        let next = es.subrange(0, i + 1);
        assert(next.drop_last() =~= es.subrange(0, i));
        let cl2 = cut_blocks(next, bs).0;
        let bl = blocks_of(es, bs);
        assert(cl =~= cl2.subrange(0, cl.len() as int));
        assert(cl =~= bl.subrange(0, cl.len() as int));
    }
}

/// Once a block fails, every longer run of blocks fails too.
proof fn lemma_layout_none_extends(bl: Seq<Seq<Entry>>, n: int, c: CompressionType, level: i32)
    requires
        0 <= n <= bl.len(),
        layout(bl.subrange(0, n), c, level) is None,
    ensures
        layout(bl, c, level) is None,
    decreases bl.len() - n,
{
    if n < bl.len() {
        let next = bl.subrange(0, n + 1);
        assert(next.drop_last() =~= bl.subrange(0, n));
        lemma_layout_none_extends(bl, n + 1, c, level);
    } else {
        assert(bl.subrange(0, n) =~= bl);
    }
}

/// A failed block fails the whole build.
proof fn lemma_build_fails(es: Seq<Entry>, bs: nat, i: int, c: CompressionType, level: i32)
    requires
        0 <= i <= es.len(),
        layout(cut_blocks(es.subrange(0, i), bs).0, c, level) is None,
    ensures
        layout(blocks_of(es, bs), c, level) is None,
{
    lemma_closed_prefix(es, bs, i);
    let cl = cut_blocks(es.subrange(0, i), bs).0;
    lemma_layout_none_extends(blocks_of(es, bs), cl.len() as int, c, level);
}

impl SSTableBuilder {
    /// The target block size.
    pub closed spec fn target_block_size(&self) -> nat {
        self.block_size as nat
    }

    /// The compression of the blocks.
    pub closed spec fn compression(&self) -> CompressionType {
        self.compression_type
    }

    /// The compression level.
    pub closed spec fn level(&self) -> i32 {
        self.compression_level
    }

    /// A builder with the given block size, compression and compression level.
    pub fn new(block_size: usize, compression_type: CompressionType, compression_level: i32) -> (r: Self)
        ensures
            r.target_block_size() == block_size,
            r.compression() == compression_type,
            r.level() == compression_level,
    {
        SSTableBuilder {
            block_size,
            compression_type,
            compression_level,
        }
    }

    /// Builds the table file for the given entries (in key order): their records
    /// gathered into blocks, each block encoded and compressed, then the sparse
    /// index and the footer. Snappy is not implemented: building with it fails with
    /// `Corruption`, whatever the entries. A block that zstd fails to compress fails
    /// the build with `IO`.
    pub fn build(self, entries: &Vec<(Key, Option<Value>)>) -> (r: Result<Vec<u8>, DbError>)
        ensures
            ({
                let es = contents_of(entries@);
                let c = self.compression();
                match r {
                    Ok(bytes) => c != CompressionType::Snappy
                        && blocks_decode(blocks_of(es, self.target_block_size()), c, self.level())
                        && match layout(blocks_of(es, self.target_block_size()), c, self.level()) {
                        Some((d, st)) => exists|ix: Seq<(Seq<u8>, u64)>|
                            sorted_pairs(ix) && pairs_map(ix) == map_of_list(st) && bytes@
                                == table_file(d, ix, c),
                        None => false,
                    },
                    Err(e) => if c == CompressionType::Snappy {
                        e matches DbError::Corruption(m) && m@ == "Snappy not implemented"@
                    } else {
                        layout(blocks_of(es, self.target_block_size()), c, self.level()) is None
                            && (c == CompressionType::Zstd ==> e is IO)
                    },
                }
            }),
    {
        let ghost es = contents_of(entries@);
        let ghost bs = self.block_size as nat;
        let c = self.compression_type;
        if c == CompressionType::Snappy {
            return Err(DbError::Corruption(String::from_str("Snappy not implemented")));
        }
        let level = self.compression_level;
        let target = self.block_size;
        let mut out: Vec<u8> = Vec::new();
        let mut index: Vec<(Key, u64)> = Vec::new();
        let mut block: Vec<WireRecordExec> = Vec::new();
        let mut current_block_size: usize = 0;
        let mut start_key: Vec<u8> = Vec::new();
        let ghost mut st: Seq<(Seq<u8>, u64)> = Seq::empty();
        let mut i: usize = 0;
        proof {
            assert(es.subrange(0, 0) =~= Seq::<Entry>::empty());
            assert(pairs_map(index_seq(index@)) =~= Map::<Seq<u8>, u64>::empty());
            assert(wire_seq(block@) =~= Seq::<WireRecord>::empty());
        }
        while i < entries.len()
            invariant
                i <= entries.len(),
                es == contents_of(entries@),
                bs == target as nat,
                bs == self.target_block_size(),
                c == self.compression(),
                level == self.level(),
                layout(cut_blocks(es.subrange(0, i as int), bs).0, c, level) == Some((out@, st)),
                blocks_decode(cut_blocks(es.subrange(0, i as int), bs).0, c, level),
                strictly_sorted_index(index@),
                pairs_map(index_seq(index@)) == map_of_list(st),
                ({
                    let op = cut_blocks(es.subrange(0, i as int), bs).1;
                    &&& wire_seq(block@) == entry_wires(op)
                    &&& current_block_size == cut_blocks(es.subrange(0, i as int), bs).2
                    &&& (op.len() > 0 ==> start_key@ == op[0].0 && current_block_size < bs)
                    &&& (op.len() == 0 ==> current_block_size == 0)
                }),
            decreases entries.len() - i,
        {
            let ghost pre = cut_blocks(es.subrange(0, i as int), bs);
            let ghost e = es[i as int];
            proof {
                lemma_cut_step(es, bs, i as int);
                lemma_entry_wires_push(pre.1, e);
            }
            let key = &entries[i].0;
            let value = &entries[i].1;
            if block.len() == 0 {
                start_key = key.clone();
            }
            let tag: u32 = if value.is_some() { 0 } else { 1 };
            let record_size = match bincode_serialized_size_record(tag, key, value) {
                Ok(n) => n,
                Err(e) => return Err(DbError::Serialize(e)),
            };
            assert(entry_wire(e) == (tag, key@, opt_bytes(*value)));
            let rs: usize = if record_size > usize::MAX as u64 {
                usize::MAX
            } else {
                record_size as usize
            };
            current_block_size = current_block_size.saturating_add(rs);
            assert(current_block_size >= target <==> pre.2 + entry_record_size(e) >= bs);
            assert(current_block_size < target ==> current_block_size == pre.2 + entry_record_size(e));
            let new_rec: WireRecordExec = (tag, key.clone(), clone_opt_value(value));
            assert(crate::codec::wire_view(new_rec) == entry_wire(e));
            let ghost wb = wire_seq(block@);
            block.push(new_rec);
            assert(wire_seq(block@) =~= wb.push(entry_wire(e)));
            if current_block_size >= target {
                let mut sk: Vec<u8> = Vec::new();
                std::mem::swap(&mut sk, &mut start_key);
                let ghost before = out@;
                let ghost op2 = pre.1.push(e);
                proof {
                    assert(cut_blocks(es.subrange(0, i + 1), bs).0.drop_last() =~= pre.0);
                }
                match close_block(&mut out, &mut index, &block, sk, c, level) {
                    Ok(()) => {},
                    Err(err) => {
                        proof {
                            let cl = cut_blocks(es.subrange(0, i + 1), bs).0;
                            assert(cl == pre.0.push(op2));
                            assert(cl.drop_last() =~= pre.0);
                            assert(cl.last() == op2);
                            assert(wire_seq(block@) == entry_wires(op2));
                            assert(layout(cl, c, level) is None);
                            lemma_build_fails(es, bs, i + 1, c, level);
                        }
                        return Err(err);
                    },
                }
                proof {
                    let old_st = st;
                    st = st.push((op2[0].0, before.len() as u64));
                    assert(st.drop_last() =~= old_st);
                    lemma_blocks_decode_push(pre.0, op2, c, level);
                }
                block = Vec::new();
                current_block_size = 0;
                proof {
                    assert(wire_seq(block@) =~= Seq::<WireRecord>::empty());
                    assert(entry_wires(Seq::<Entry>::empty()) =~= Seq::<WireRecord>::empty());
                }
            }
            i = i + 1;
        }
        assert(es.subrange(0, i as int) =~= es);
        let ghost fin = cut_blocks(es, bs);
        if block.len() > 0 {
            let mut sk: Vec<u8> = Vec::new();
            std::mem::swap(&mut sk, &mut start_key);
            let ghost before = out@;
            proof {
                assert(blocks_of(es, bs).drop_last() =~= fin.0);
                assert(wire_seq(block@) == entry_wires(fin.1));
            }
            match close_block(&mut out, &mut index, &block, sk, c, level) {
                Ok(()) => {},
                Err(err) => return Err(err),
            }
            proof {
                let old_st = st;
                st = st.push((fin.1[0].0, before.len() as u64));
                assert(st.drop_last() =~= old_st);
                lemma_blocks_decode_push(fin.0, fin.1, c, level);
            }
        }
        let index_offset = out.len() as u64;
        let ghost d = out@;
        let enc = match bincode_serialize_index(&index) {
            Ok(b) => b,
            Err(e) => return Err(DbError::Serialize(e)),
        };
        append_bytes(&mut out, &enc);
        push_le(&mut out, index_offset, 8);
        out.push(c.to_byte());
        let mut pad: usize = 0;
        let ghost with_byte = out@;
        while pad < 7
            invariant
                pad <= 7,
                out@ == with_byte + Seq::new(pad as nat, |k: int| 0u8),
            decreases 7 - pad,
        {
            out.push(0u8);
            pad = pad + 1;
            assert(out@ =~= with_byte + Seq::new(pad as nat, |k: int| 0u8));
        }
        push_le(&mut out, 0x888A, 8);
        proof {
            let ix = index_seq(index@);
            assert(key_seq(index@) =~= keys_of(ix));
            assert(out@ =~= table_file(d, ix, c));
        }
        Ok(out)
    }
}

} // verus!
