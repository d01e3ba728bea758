//! A table file built from entries in key order reads back as those entries:
//! opening it succeeds, its index is the start key and offset of each block, every
//! block is in bounds and well ordered, and a lookup of any key finds the entry's
//! value, its tombstone, or nothing, exactly as the entries say.

use vstd::prelude::*;

use crate::codec::{enc_index, enc_records, fits_u64, wire_record_fits};
use crate::compression::{compression_byte, CompressionType};
use crate::ints::{le_bytes, le_value};
use crate::keys::{key_le, key_lt, lemma_key_lt_irreflexive, lemma_key_lt_transitive, strictly_sorted};
use crate::memtable::map_lookup;
use crate::model::Lookup;
use crate::sorted::{keys_of, pairs_map, sorted_pairs, distinct_keys};
use crate::sstable::map_of_list;
use crate::sstable_builder::{
    block_payload, blocks_decode, blocks_of, cut_blocks, entry_wire, entry_wires, footer, layout, table_file,
    Entry,
};

verus! {

/// Blocks laid end to end.
pub open spec fn flat(bl: Seq<Seq<Entry>>) -> Seq<Entry>
    decreases bl.len(),
{
    if bl.len() == 0 {
        Seq::empty()
    } else {
        flat(bl.drop_last()) + bl.last()
    }
}

/// The encoded records of a block.
pub open spec fn block_enc(b: Seq<Entry>) -> Seq<u8> {
    enc_records(entry_wires(b))
}

/// The stored bytes of a block: its encoded records, compressed as the table says.
pub open spec fn payload(b: Seq<Entry>, c: CompressionType, level: i32) -> Seq<u8> {
    block_payload(b, c, level).unwrap()
}

/// A block as written: the length of its stored bytes, then those bytes.
pub open spec fn block_frame(b: Seq<Entry>, c: CompressionType, level: i32) -> Seq<u8> {
    le_bytes(payload(b, c, level).len(), 8) + payload(b, c, level)
}

/// Blocks written one after another.
pub open spec fn frames_of(bl: Seq<Seq<Entry>>, c: CompressionType, level: i32) -> Seq<u8>
    decreases bl.len(),
{
    if bl.len() == 0 {
        Seq::empty()
    } else {
        frames_of(bl.drop_last(), c, level) + block_frame(bl.last(), c, level)
    }
}

/// Start key and offset of each block as written.
pub open spec fn starts_of(bl: Seq<Seq<Entry>>, c: CompressionType, level: i32) -> Seq<(Seq<u8>, u64)> {
    Seq::new(bl.len(), |j: int| (bl[j][0].0, frames_of(bl.subrange(0, j), c, level).len() as u64))
}

/// Every block compresses, and its stored bytes decompress back to its records.
pub open spec fn stored_blocks_ok(bl: Seq<Seq<Entry>>, c: CompressionType, level: i32) -> bool {
    &&& forall|j: int| 0 <= j < bl.len() ==> block_payload(#[trigger] bl[j], c, level) is Some
    &&& blocks_decode(bl, c, level)
}

/// Where the layout succeeds, every block compresses, the data part is the blocks'
/// frames and the index their starts.
proof fn lemma_layout(bl: Seq<Seq<Entry>>, c: CompressionType, level: i32)
    requires
        layout(bl, c, level) is Some,
    ensures
        forall|j: int| 0 <= j < bl.len() ==> block_payload(#[trigger] bl[j], c, level) is Some,
        layout(bl, c, level) == Some((frames_of(bl, c, level), starts_of(bl, c, level))),
    decreases bl.len(),
{
    if bl.len() > 0 {
        let d = bl.drop_last();
        lemma_layout(d, c, level);
        let p = payload(bl.last(), c, level);
        assert(frames_of(d, c, level) + le_bytes(p.len(), 8) + p =~= frames_of(bl, c, level));
        assert forall|j: int| 0 <= j < d.len() implies bl.subrange(0, j) == #[trigger] d.subrange(0, j) by {
            assert(bl.subrange(0, j) =~= d.subrange(0, j));
        }
        assert(bl.subrange(0, d.len() as int) =~= d);
        assert(starts_of(bl, c, level) =~= starts_of(d, c, level).push(
            (bl.last()[0].0, frames_of(d, c, level).len() as u64),
        ));
        assert forall|j: int| 0 <= j < bl.len() implies block_payload(#[trigger] bl[j], c, level) is Some by {
            if j < d.len() {
                assert(bl[j] == d[j]);
            }
        }
    }
}

/// Blocks cut from entries lay end to end back into the entries, and none is empty.
proof fn lemma_cut_blocks_flat(es: Seq<Entry>, bs: nat)
    ensures
        ({
            let (closed, open, _) = cut_blocks(es, bs);
            &&& flat(closed) + open == es
            &&& forall|j: int| 0 <= j < closed.len() ==> (#[trigger] closed[j]).len() > 0
        }),
    decreases es.len(),
{
    if es.len() > 0 {
        lemma_cut_blocks_flat(es.drop_last(), bs);
        let (closed, open, _) = cut_blocks(es.drop_last(), bs);
        let open2 = open.push(es.last());
        assert(es =~= es.drop_last().push(es.last()));
        let (c2, o2, _) = cut_blocks(es, bs);
        if c2.len() != closed.len() {
            assert(c2 == closed.push(open2));
            assert(c2.drop_last() =~= closed);
            assert(flat(c2) == flat(closed) + open2);
            assert(flat(c2) + o2 =~= es);
            assert forall|j: int| 0 <= j < c2.len() implies (#[trigger] c2[j]).len() > 0 by {
                if j < closed.len() {
                    assert(c2[j] == closed[j]);
                }
            }
        } else {
            assert(flat(c2) + o2 =~= es);
        }
    }
}

/// The blocks of entries lay end to end back into the entries, and none is empty.
proof fn lemma_blocks_flat(es: Seq<Entry>, bs: nat)
    ensures
        flat(blocks_of(es, bs)) == es,
        forall|j: int| 0 <= j < blocks_of(es, bs).len() ==> (#[trigger] blocks_of(es, bs)[j]).len() > 0,
{
    lemma_cut_blocks_flat(es, bs);
    let (closed, open, _) = cut_blocks(es, bs);
    if open.len() > 0 {
        let bl = closed.push(open);
        assert(bl.drop_last() =~= closed);
        assert forall|j: int| 0 <= j < bl.len() implies (#[trigger] bl[j]).len() > 0 by {
            if j < closed.len() {
                assert(bl[j] == closed[j]);
            }
        }
    } else {
        assert(flat(closed) + open =~= flat(closed));
    }
}

/// The blocks before block `j` lay out to a prefix of all the blocks.
proof fn lemma_flat_prefix(bl: Seq<Seq<Entry>>, i: int)
    requires
        0 <= i <= bl.len(),
    ensures
        flat(bl.subrange(0, i)).len() <= flat(bl).len(),
        flat(bl) == flat(bl.subrange(0, i)) + flat(bl).skip(flat(bl.subrange(0, i)).len() as int),
    decreases bl.len() - i,
{
    if i == bl.len() {
        assert(bl.subrange(0, i) =~= bl);
        assert(flat(bl).skip(flat(bl).len() as int) =~= Seq::<Entry>::empty());
        assert(flat(bl) =~= flat(bl) + Seq::<Entry>::empty());
    } else {
        lemma_flat_prefix(bl, i + 1);
        let a = bl.subrange(0, i);
        let b = bl.subrange(0, i + 1);
        assert(b.drop_last() =~= a);
        assert(flat(b) == flat(a) + bl[i]);
        assert(flat(bl) =~= flat(a) + flat(bl).skip(flat(a).len() as int));
    }
}

/// Where the entries of block `j` sit among all the entries.
proof fn lemma_block_entry(bl: Seq<Seq<Entry>>, j: int, t: int)
    requires
        0 <= j < bl.len(),
        0 <= t < bl[j].len(),
    ensures
        flat(bl.subrange(0, j)).len() + t < flat(bl).len(),
        bl[j][t] == flat(bl)[flat(bl.subrange(0, j)).len() + t],
        flat(bl.subrange(0, j + 1)).len() == flat(bl.subrange(0, j)).len() + bl[j].len(),
{
    lemma_flat_prefix(bl, j + 1);
    let a = bl.subrange(0, j);
    let b = bl.subrange(0, j + 1);
    assert(b.drop_last() =~= a);
    assert(flat(b) == flat(a) + bl[j]);
    let n = flat(a).len() as int;
    assert(flat(bl)[n + t] == flat(b)[n + t]);
}

/// The frames of the blocks before block `j` are a prefix of all the frames,
/// and block `j`'s frame follows them.
proof fn lemma_frame_at(bl: Seq<Seq<Entry>>, c: CompressionType, level: i32, j: int)
    requires
        0 <= j < bl.len(),
    ensures
        ({
            let p = frames_of(bl.subrange(0, j), c, level);
            let f = block_frame(bl[j], c, level);
            &&& p.len() + f.len() <= frames_of(bl, c, level).len()
            &&& frames_of(bl, c, level).subrange(p.len() as int, (p.len() + f.len()) as int) == f
        }),
{
    lemma_frames_prefix(bl, c, level, j + 1);
    let a = bl.subrange(0, j);
    let b = bl.subrange(0, j + 1);
    assert(b.drop_last() =~= a);
    let p = frames_of(a, c, level);
    let f = block_frame(bl[j], c, level);
    assert(frames_of(b, c, level) == p + f);
    assert(frames_of(bl, c, level).subrange(p.len() as int, (p.len() + f.len()) as int) =~= f) by {
        assert forall|x: int| 0 <= x < f.len() implies frames_of(bl, c, level)[p.len() + x] == f[x] by {
            assert(frames_of(bl, c, level)[p.len() + x] == frames_of(b, c, level)[p.len() + x]);
        }
    }
}

proof fn lemma_frames_prefix(bl: Seq<Seq<Entry>>, c: CompressionType, level: i32, i: int)
    requires
        0 <= i <= bl.len(),
    ensures
        frames_of(bl.subrange(0, i), c, level).len() <= frames_of(bl, c, level).len(),
        forall|x: int| 0 <= x < frames_of(bl.subrange(0, i), c, level).len() ==> #[trigger] frames_of(bl, c, level)[x] == frames_of(bl.subrange(0, i), c, level)[x],
    decreases bl.len() - i,
{
    if i == bl.len() {
        assert(bl.subrange(0, i) =~= bl);
    } else {
        lemma_frames_prefix(bl, c, level, i + 1);
        let a = bl.subrange(0, i);
        let b = bl.subrange(0, i + 1);
        assert(b.drop_last() =~= a);
        assert(frames_of(b, c, level) == frames_of(a, c, level) + block_frame(bl[i], c, level));
        assert forall|x: int| 0 <= x < frames_of(a, c, level).len() implies #[trigger] frames_of(bl, c, level)[x] == frames_of(a, c, level)[x] by {
            assert(frames_of(bl, c, level)[x] == frames_of(b, c, level)[x]);
        }
    }
}


/// Dropping the last of pairs with distinct keys drops its key from the map.
proof fn lemma_pairs_map_drop_last<W>(s: Seq<(Seq<u8>, W)>)
    requires
        distinct_keys(s),
        s.len() > 0,
    ensures
        pairs_map(s.drop_last()) == pairs_map(s).remove(s.last().0),
        distinct_keys(s.drop_last()),
{
    let d = s.drop_last();
    assert(s =~= d.insert(d.len() as int, s.last()));
    assert(distinct_keys(d)) by {
        assert forall|i: int, j: int| 0 <= i < d.len() && 0 <= j < d.len() && i != j implies #[trigger] d[i].0
            != #[trigger] d[j].0 by {
            assert(d[i] == s[i] && d[j] == s[j]);
        }
    }
    assert(!crate::sorted::has_key(d, s.last().0)) by {
        if crate::sorted::has_key(d, s.last().0) {
            let a = choose|a: int| 0 <= a < d.len() && #[trigger] d[a].0 == s.last().0;
            assert(s[a].0 == s[s.len() - 1].0);
        }
    }
    crate::sorted::lemma_pairs_map_insert(d, d.len() as int, s.last().0, s.last().1);
    assert(pairs_map(d) =~= pairs_map(s).remove(s.last().0));
}

/// Inserting sorted pairs one after another builds their map.
pub proof fn lemma_map_of_sorted_list(s: Seq<(Seq<u8>, u64)>)
    requires
        sorted_pairs(s),
    ensures
        map_of_list(s) == pairs_map(s),
    decreases s.len(),
{
    if s.len() == 0 {
        assert(pairs_map(s) =~= Map::<Seq<u8>, u64>::empty());
    } else {
        crate::sorted::lemma_sorted_pairs_distinct(s);
        let d = s.drop_last();
        assert(sorted_pairs(d)) by {
            assert forall|i: int, j: int| 0 <= i < j < keys_of(d).len() implies key_lt(#[trigger] keys_of(d)[i], #[trigger] keys_of(d)[j]) by {
                assert(keys_of(d)[i] == keys_of(s)[i] && keys_of(d)[j] == keys_of(s)[j]);
            }
        }
        lemma_map_of_sorted_list(d);
        lemma_pairs_map_drop_last(s);
        crate::sorted::lemma_pairs_map_at(s, s.len() - 1);
        assert(pairs_map(s) =~= pairs_map(d).insert(s.last().0, s.last().1));
    }
}

/// Two sequences of pairs in strictly increasing key order that stand for the same
/// map are the same sequence.
pub proof fn lemma_sorted_pairs_unique(a: Seq<(Seq<u8>, u64)>, b: Seq<(Seq<u8>, u64)>)
    requires
        sorted_pairs(a),
        sorted_pairs(b),
        pairs_map(a) == pairs_map(b),
    ensures
        a == b,
    decreases a.len(),
{
    crate::sorted::lemma_sorted_pairs_distinct(a);
    crate::sorted::lemma_sorted_pairs_distinct(b);
    crate::sorted::lemma_pairs_map_len(a);
    crate::sorted::lemma_pairs_map_len(b);
    if a.len() > 0 {
        let n = a.len() as int;
        let ka = a.last().0;
        let kb = b.last().0;
        crate::sorted::lemma_pairs_map_at(a, n - 1);
        crate::sorted::lemma_pairs_map_at(b, n - 1);
        // the last key of each is the largest key of the map
        assert(ka == kb) by {
            assert(pairs_map(b).contains_key(ka));
            let j = choose|j: int| 0 <= j < b.len() && #[trigger] b[j].0 == ka;
            assert(pairs_map(a).contains_key(kb));
            let i = choose|i: int| 0 <= i < a.len() && #[trigger] a[i].0 == kb;
            if j < n - 1 {
                assert(keys_of(b)[j] == ka && keys_of(b)[n - 1] == kb);
                assert(key_lt(ka, kb));
                if i < n - 1 {
                    assert(keys_of(a)[i] == kb && keys_of(a)[n - 1] == ka);
                    assert(key_lt(kb, ka));
                    lemma_key_lt_transitive(ka, kb, ka);
                    lemma_key_lt_irreflexive(ka);
                }
            }
        }
        crate::sorted::lemma_pairs_map_at(a, n - 1);
        crate::sorted::lemma_pairs_map_at(b, n - 1);
        assert(a.last() == b.last());
        lemma_pairs_map_drop_last(a);
        lemma_pairs_map_drop_last(b);
        let da = a.drop_last();
        let db = b.drop_last();
        assert(sorted_pairs(da)) by {
            assert forall|i: int, j: int| 0 <= i < j < keys_of(da).len() implies key_lt(#[trigger] keys_of(da)[i], #[trigger] keys_of(da)[j]) by {
                assert(keys_of(da)[i] == keys_of(a)[i] && keys_of(da)[j] == keys_of(a)[j]);
            }
        }
        assert(sorted_pairs(db)) by {
            assert forall|i: int, j: int| 0 <= i < j < keys_of(db).len() implies key_lt(#[trigger] keys_of(db)[i], #[trigger] keys_of(db)[j]) by {
                assert(keys_of(db)[i] == keys_of(b)[i] && keys_of(db)[j] == keys_of(b)[j]);
            }
        }
        lemma_sorted_pairs_unique(da, db);
        assert(a =~= da.push(a.last()));
        assert(b =~= db.push(b.last()));
    } else {
        assert(a =~= b);
    }
}


/// The record an entry is read back as: a put if it has a value, else a tombstone.
pub open spec fn entry_record(e: Entry) -> crate::wal::RecordView {
    (if e.1 is Some { crate::model::RecordType::Put } else { crate::model::RecordType::Delete }, e.0, e.1)
}

/// The records a block is read back as.
pub open spec fn block_recs(b: Seq<Entry>) -> Seq<crate::wal::RecordView> {
    Seq::new(b.len(), |t: int| entry_record(b[t]))
}

/// Where block `j` starts among the entries.
pub open spec fn base(bl: Seq<Seq<Entry>>, j: int) -> nat {
    flat(bl.subrange(0, j)).len()
}

proof fn lemma_base_step(bl: Seq<Seq<Entry>>, j: int)
    requires
        0 <= j < bl.len(),
    ensures
        base(bl, j + 1) == base(bl, j) + bl[j].len(),
        base(bl, j) + bl[j].len() <= flat(bl).len(),
{
    lemma_flat_prefix(bl, j + 1);
    let a = bl.subrange(0, j);
    let b = bl.subrange(0, j + 1);
    assert(b.drop_last() =~= a);
    assert(flat(b) == flat(a) + bl[j]);
}

proof fn lemma_base_mono(bl: Seq<Seq<Entry>>, i: int, j: int)
    requires
        0 <= i < j <= bl.len(),
        forall|x: int| 0 <= x < bl.len() ==> (#[trigger] bl[x]).len() > 0,
    ensures
        base(bl, i) < base(bl, j),
        base(bl, i) + bl[i].len() <= base(bl, j),
    decreases j - i,
{
    lemma_base_step(bl, i);
    if i + 1 < j {
        lemma_base_mono(bl, i + 1, j);
    }
}

proof fn lemma_base_end(bl: Seq<Seq<Entry>>)
    ensures
        base(bl, bl.len() as int) == flat(bl).len(),
{
    assert(bl.subrange(0, bl.len() as int) =~= bl);
}

/// There are no more blocks than entries.
proof fn lemma_blocks_count(bl: Seq<Seq<Entry>>)
    requires
        forall|x: int| 0 <= x < bl.len() ==> (#[trigger] bl[x]).len() > 0,
    ensures
        bl.len() <= flat(bl).len(),
    decreases bl.len(),
{
    if bl.len() > 0 {
        let d = bl.drop_last();
        assert forall|x: int| 0 <= x < d.len() implies (#[trigger] d[x]).len() > 0 by {
            assert(d[x] == bl[x]);
        }
        lemma_blocks_count(d);
        assert(bl.last() == bl[bl.len() - 1]);
    }
}

/// A block of the table file: in bounds, decoding to its entries' records, which
/// are in key order with a value in every put.
#[verifier::rlimit(30)]
proof fn lemma_block_in_file(es: Seq<Entry>, bs: nat, c: CompressionType, level: i32, j: int, rest: Seq<u8>)
    requires
        sorted_pairs(es),
        fits_u64(es.len()),
        forall|i: int| 0 <= i < es.len() ==> wire_record_fits(#[trigger] entry_wire(es[i])),
        0 <= j < blocks_of(es, bs).len(),
        stored_blocks_ok(blocks_of(es, bs), c, level),
        fits_u64((frames_of(blocks_of(es, bs), c, level) + rest).len()),
    ensures
        ({
            let bl = blocks_of(es, bs);
            let file = frames_of(bl, c, level) + rest;
            let off = frames_of(bl.subrange(0, j), c, level).len();
            &&& crate::sstable::block_in_bounds(file, off)
            &&& crate::sstable::block_records(file, c, off) == Some(block_recs(bl[j]))
            &&& crate::sstable::records_ok(block_recs(bl[j]))
        }),
{
    let bl = blocks_of(es, bs);
    let file = frames_of(bl, c, level) + rest;
    let off = frames_of(bl.subrange(0, j), c, level).len() as int;
    let b = bl[j];
    let enc = block_enc(b);
    let p = payload(b, c, level);
    let f = block_frame(b, c, level);
    lemma_blocks_flat(es, bs);
    lemma_frame_at(bl, c, level, j);
    crate::ints::lemma_le_bytes_len(p.len(), 8);
    crate::ints::lemma_pow256_values();
    crate::ints::lemma_le_roundtrip(p.len(), 8);
    assert(file.subrange(off, off + 8) =~= le_bytes(p.len(), 8)) by {
        assert forall|x: int| 0 <= x < 8 implies file.subrange(off, off + 8)[x] == le_bytes(p.len(), 8)[x] by {
            assert(file[off + x] == frames_of(bl, c, level)[off + x]);
            assert(frames_of(bl, c, level).subrange(off, off + f.len() as int)[x] == f[x]);
        }
    }
    assert(file.subrange(off + 8, off + 8 + p.len() as int) =~= p) by {
        assert forall|x: int| 0 <= x < p.len() implies file.subrange(off + 8, off + 8 + p.len() as int)[x] == p[x] by {
            assert(file[off + 8 + x] == frames_of(bl, c, level)[off + 8 + x]);
            assert(frames_of(bl, c, level).subrange(off, off + f.len() as int)[8 + x] == f[8 + x]);
        }
    }
    assert(block_payload(bl[j], c, level) is Some);
    assert(crate::sstable::decompressed(c, p) == Some(enc));
    // the block's entries are entries of the table
    lemma_base_step(bl, j);
    let bj = base(bl, j);
    assert forall|t: int| 0 <= t < b.len() implies #[trigger] b[t] == es[bj + t] by {
        lemma_block_entry(bl, j, t);
    }
    let ws = entry_wires(b);
    assert forall|t: int| 0 <= t < ws.len() implies wire_record_fits(#[trigger] ws[t]) by {
        assert(ws[t] == entry_wire(es[bj + t]));
    }
    crate::codec::lemma_parse_records_enc(ws, Seq::empty());
    assert(enc + Seq::<u8>::empty() =~= enc);
    let recs = block_recs(b);
    assert forall|t: int| 0 <= t < ws.len() implies #[trigger] crate::wal::decode_wire(ws[t]) is Some by {}
    assert(Seq::new(ws.len(), |t: int| crate::wal::decode_wire(ws[t]).unwrap()) =~= recs);
    // records in key order
    let rk = crate::sstable::record_keys(recs);
    assert forall|x: int, y: int| 0 <= x < y < rk.len() implies key_lt(#[trigger] rk[x], #[trigger] rk[y]) by {
        assert(rk[x] == keys_of(es)[bj + x]);
        assert(rk[y] == keys_of(es)[bj + y]);
    }
}


/// Facts shared by the parts of the roundtrip.
pub open spec fn roundtrip_inputs(es: Seq<Entry>) -> bool {
    &&& sorted_pairs(es)
    &&& fits_u64(es.len())
    &&& forall|i: int| 0 <= i < es.len() ==> wire_record_fits(#[trigger] entry_wire(es[i]))
}

proof fn lemma_starts(es: Seq<Entry>, bs: nat, c: CompressionType, level: i32)
    requires
        roundtrip_inputs(es),
    ensures
        sorted_pairs(starts_of(blocks_of(es, bs), c, level)),
        fits_u64(starts_of(blocks_of(es, bs), c, level).len()),
        forall|j: int| 0 <= j < blocks_of(es, bs).len() ==> #[trigger] starts_of(blocks_of(es, bs), c, level)[j].0
            == es[base(blocks_of(es, bs), j) as int].0,
        forall|j: int| 0 <= j < starts_of(blocks_of(es, bs), c, level).len() ==> fits_u64(#[trigger] starts_of(blocks_of(es, bs), c, level)[j].0.len()),
{
    let bl = blocks_of(es, bs);
    let st = starts_of(bl, c, level);
    let ki = keys_of(es);
    lemma_blocks_flat(es, bs);
    lemma_blocks_count(bl);
    assert forall|j: int| 0 <= j < bl.len() implies #[trigger] st[j].0 == es[base(bl, j) as int].0 by {
        lemma_block_entry(bl, j, 0);
    }
    assert forall|x: int, y: int| 0 <= x < y < keys_of(st).len() implies key_lt(#[trigger] keys_of(st)[x], #[trigger] keys_of(st)[y]) by {
        lemma_base_mono(bl, x, y);
        lemma_base_step(bl, y);
        assert(keys_of(st)[x] == ki[base(bl, x) as int]);
        assert(keys_of(st)[y] == ki[base(bl, y) as int]);
    }
    assert forall|j: int| 0 <= j < st.len() implies fits_u64(#[trigger] st[j].0.len()) by {
        lemma_base_step(bl, j);
        assert(wire_record_fits(entry_wire(es[base(bl, j) as int])));
    }
}

proof fn lemma_file_opens(es: Seq<Entry>, bs: nat, c: CompressionType, level: i32)
    requires
        roundtrip_inputs(es),
        fits_u64(table_file(frames_of(blocks_of(es, bs), c, level), starts_of(blocks_of(es, bs), c, level), c).len()),
    ensures
        ({
            let st = starts_of(blocks_of(es, bs), c, level);
            let file = table_file(frames_of(blocks_of(es, bs), c, level), st, c);
            &&& crate::sstable::open_outcome(file) == crate::sstable::OpenOutcome::Opened {
                compression: c,
                pairs: st,
            }
        }),
{
    let bl = blocks_of(es, bs);
    let d = frames_of(bl, c, level);
    let st = starts_of(bl, c, level);
    lemma_starts(es, bs, c, level);
    let e = enc_index(st);
    let file = table_file(d, st, c);
    crate::ints::lemma_pow256_values();
    crate::ints::lemma_le_bytes_len(d.len(), 8);
    crate::ints::lemma_le_bytes_len(0x888A, 8);
    crate::ints::lemma_le_roundtrip(d.len(), 8);
    crate::ints::lemma_le_roundtrip(0x888A, 8);
    let l = file.len() as int;
    assert(l == d.len() + e.len() + 24);
    assert(file.subrange(l - 8, l) =~= le_bytes(0x888A, 8));
    assert(file.subrange(l - 24, l - 16) =~= le_bytes(d.len(), 8));
    assert(file[l - 16] == compression_byte(c));
    assert(file.subrange(d.len() as int, l - 24) =~= e);
    crate::codec::lemma_parse_index_enc(st, Seq::empty());
    assert(e + Seq::<u8>::empty() =~= e);
}

proof fn lemma_file_wf(es: Seq<Entry>, bs: nat, c: CompressionType, level: i32)
    requires
        roundtrip_inputs(es),
        stored_blocks_ok(blocks_of(es, bs), c, level),
        fits_u64(table_file(frames_of(blocks_of(es, bs), c, level), starts_of(blocks_of(es, bs), c, level), c).len()),
    ensures
        crate::sstable::table_wf(
            table_file(frames_of(blocks_of(es, bs), c, level), starts_of(blocks_of(es, bs), c, level), c),
            starts_of(blocks_of(es, bs), c, level),
            c,
        ),
{
    let bl = blocks_of(es, bs);
    let d = frames_of(bl, c, level);
    let st = starts_of(bl, c, level);
    lemma_starts(es, bs, c, level);
    let file = table_file(d, st, c);
    let tail = enc_index(st) + footer(d.len(), c);
    assert(file =~= d + tail);
    if bl.len() > 0 {
        assert(block_payload(bl[0], c, level) is Some);
    }
    assert forall|j: int| 0 <= j < st.len() implies #[trigger] crate::sstable::table_block_ok(file, c, st[j].1 as nat) by {
        lemma_block_in_file(es, bs, c, level, j, tail);
        lemma_frames_prefix(bl, c, level, j);
    }
}

/// The start key of each block.
pub open spec fn block_keys(bl: Seq<Seq<Entry>>) -> Seq<Seq<u8>> {
    Seq::new(bl.len(), |j: int| bl[j][0].0)
}

/// A key below the first block's start key is held by no entry.
proof fn lemma_before_first_block(es: Seq<Entry>, bs: nat, k: Seq<u8>)
    requires
        roundtrip_inputs(es),
        blocks_of(es, bs).len() == 0 || key_lt(k, block_keys(blocks_of(es, bs))[0]),
    ensures
        map_lookup(pairs_map(es), k) == Lookup::Missing,
{
    let bl = blocks_of(es, bs);
    let ki = keys_of(es);
    lemma_blocks_flat(es, bs);
    assert(!crate::sorted::has_key(es, k)) by {
        if crate::sorted::has_key(es, k) {
            let g = choose|g: int| 0 <= g < es.len() && #[trigger] es[g].0 == k;
            assert(bl.len() > 0);
            lemma_block_entry(bl, 0, 0);
            assert(bl.subrange(0, 0) =~= Seq::<Seq<Entry>>::empty());
            assert(block_keys(bl)[0] == ki[0]);
            if g > 0 {
                assert(key_lt(ki[0], ki[g]));
                lemma_key_lt_transitive(k, ki[0], k);
            }
            lemma_key_lt_irreflexive(k);
        }
    }
    crate::sorted::lemma_pairs_map_absent(es, k);
}

/// The block whose start key is the floor of `k` says of `k` what the entries say.
proof fn lemma_floor_block_lookup(es: Seq<Entry>, bs: nat, k: Seq<u8>, j: int)
    requires
        roundtrip_inputs(es),
        crate::sstable::is_floor(block_keys(blocks_of(es, bs)), k, j),
    ensures
        crate::sstable::records_lookup(block_recs(blocks_of(es, bs)[j]), k) == map_lookup(pairs_map(es), k),
{
    let bl = blocks_of(es, bs);
    let ki = keys_of(es);
    let ks = block_keys(bl);
    lemma_blocks_flat(es, bs);
    lemma_base_end(bl);
    crate::sorted::lemma_sorted_pairs_distinct(es);
    lemma_base_step(bl, j);
    let b = bl[j];
    let bj = base(bl, j) as int;
    let recs = block_recs(b);
    assert forall|t: int| 0 <= t < b.len() implies #[trigger] b[t] == es[bj + t] by {
        lemma_block_entry(bl, j, t);
    }
    assert(ks[j] == ki[bj]);
    if exists|t: int| 0 <= t < recs.len() && #[trigger] recs[t].1 == k {
        let t = choose|t: int| 0 <= t < recs.len() && #[trigger] recs[t].1 == k;
        crate::sorted::lemma_pairs_map_at(es, bj + t);
        assert(es[bj + t].0 == k);
    } else {
        assert(!crate::sorted::has_key(es, k)) by {
            if crate::sorted::has_key(es, k) {
                let g = choose|g: int| 0 <= g < es.len() && #[trigger] es[g].0 == k;
                lemma_key_lt_irreflexive(k);
                if g < bj {
                    assert(key_lt(ki[g], ki[bj]));
                    if ks[j] != k {
                        lemma_key_lt_transitive(k, ks[j], k);
                    }
                } else if g >= bj + b.len() {
                    if j + 1 < bl.len() {
                        lemma_base_step(bl, j + 1);
                        let bn = base(bl, j + 1) as int;
                        lemma_block_entry(bl, j + 1, 0);
                        assert(ks[j + 1] == ki[bn]);
                        if g > bn {
                            assert(key_lt(ki[bn], ki[g]));
                            lemma_key_lt_transitive(k, ki[bn], k);
                        }
                    }
                } else {
                    assert(recs[g - bj].1 == k);
                }
            }
        }
        crate::sorted::lemma_pairs_map_absent(es, k);
    }
}

proof fn lemma_file_lookup(es: Seq<Entry>, bs: nat, c: CompressionType, level: i32, k: Seq<u8>)
    requires
        roundtrip_inputs(es),
        stored_blocks_ok(blocks_of(es, bs), c, level),
        fits_u64(table_file(frames_of(blocks_of(es, bs), c, level), starts_of(blocks_of(es, bs), c, level), c).len()),
    ensures
        crate::sstable::table_lookup(
            table_file(frames_of(blocks_of(es, bs), c, level), starts_of(blocks_of(es, bs), c, level), c),
            starts_of(blocks_of(es, bs), c, level),
            c,
            k,
        ) == map_lookup(pairs_map(es), k),
{
    let bl = blocks_of(es, bs);
    let d = frames_of(bl, c, level);
    let st = starts_of(bl, c, level);
    let file = table_file(d, st, c);
    let tail = enc_index(st) + footer(d.len(), c);
    assert(file =~= d + tail);
    let ks = keys_of(st);
    assert(ks =~= block_keys(bl));
    if bl.len() == 0 || key_lt(k, ks[0]) {
        lemma_before_first_block(es, bs, k);
    } else {
        lemma_starts(es, bs, c, level);
        crate::sstable::lemma_floor_exists(ks, k);
        let j = choose|i: int| crate::sstable::is_floor(ks, k, i);
        lemma_block_in_file(es, bs, c, level, j, tail);
        lemma_frames_prefix(bl, c, level, j);
        lemma_floor_block_lookup(es, bs, k, j);
    }
}

/// Building a table file from entries in strictly increasing key order and reading
/// it back: opening succeeds with the index the build wrote (the start key and
/// offset of each block), the table is well formed, and a lookup of any key finds
/// exactly what the entries hold for it. Every table read with those bytes,
/// compression and index answers likewise. The premises are what a successful
/// build promises of its output (`SSTableBuilder::build`, `flush_memtable`):
/// every block compressed, its stored bytes decompressing back to its records, and
/// the file laid out with the index the build wrote.
pub proof fn lemma_table_file_roundtrip(
    es: Seq<Entry>,
    bs: nat,
    c: CompressionType,
    level: i32,
    ix: Seq<(Seq<u8>, u64)>,
    k: Seq<u8>,
)
    requires
        sorted_pairs(es),
        fits_u64(es.len()),
        forall|i: int| 0 <= i < es.len() ==> wire_record_fits(#[trigger] entry_wire(es[i])),
        blocks_decode(blocks_of(es, bs), c, level),
        layout(blocks_of(es, bs), c, level) matches Some((d, st)) && sorted_pairs(ix)
            && pairs_map(ix) == map_of_list(st) && fits_u64(table_file(d, ix, c).len()),
    ensures
        ({
            let (d, st) = layout(blocks_of(es, bs), c, level).unwrap();
            let file = table_file(d, ix, c);
            &&& ix == st
            &&& crate::sstable::open_outcome(file) == crate::sstable::OpenOutcome::Opened {
                compression: c,
                pairs: ix,
            }
            &&& crate::sstable::table_wf(file, ix, c)
            &&& crate::sstable::table_lookup(file, ix, c, k) == map_lookup(pairs_map(es), k)
            &&& forall|t: crate::sstable::SSTable|
                t.bytes() == file && t.compression_kind() == c && sorted_pairs(t.index_pairs())
                    && pairs_map(t.index_pairs()) == map_of_list(ix) ==> t.wf() && #[trigger] t.lookup(k)
                    == map_lookup(pairs_map(es), k)
        }),
{
    let bl = blocks_of(es, bs);
    lemma_layout(bl, c, level);
    let st = starts_of(bl, c, level);
    lemma_starts(es, bs, c, level);
    lemma_map_of_sorted_list(st);
    lemma_sorted_pairs_unique(ix, st);
    lemma_file_opens(es, bs, c, level);
    lemma_file_wf(es, bs, c, level);
    lemma_file_lookup(es, bs, c, level, k);
    let file = table_file(frames_of(bl, c, level), st, c);
    assert forall|t: crate::sstable::SSTable|
        t.bytes() == file && t.compression_kind() == c && sorted_pairs(t.index_pairs())
            && pairs_map(t.index_pairs()) == map_of_list(ix) implies t.wf() && #[trigger] t.lookup(k)
        == map_lookup(pairs_map(es), k) by {
        lemma_sorted_pairs_unique(t.index_pairs(), st);
    }
}

/// The blocks of a built table file hold the entries' records compressed exactly as
/// the build was configured: for block `j` of the entries, the index gives its start
/// key and an offset in the file, and the stored bytes at that offset are the
/// block's encoded records, unchanged without compression and `zstd::encode_all` of
/// them at the builder's compression level with zstd. Snappy builds nothing.
pub proof fn lemma_built_blocks(
    es: Seq<Entry>,
    bs: nat,
    c: CompressionType,
    level: i32,
    d: Seq<u8>,
    st: Seq<(Seq<u8>, u64)>,
    ix: Seq<(Seq<u8>, u64)>,
    bytes: Seq<u8>,
)
    requires
        layout(blocks_of(es, bs), c, level) == Some((d, st)),
        bytes == table_file(d, ix, c),
        fits_u64(bytes.len()),
    ensures
        st.len() == blocks_of(es, bs).len(),
        blocks_of(es, bs).len() > 0 ==> c != CompressionType::Snappy,
        forall|j: int|
            #![trigger st[j]]
            0 <= j < st.len() ==> {
                let b = blocks_of(es, bs)[j];
                let enc = enc_records(entry_wires(b));
                &&& st[j].0 == b[0].0
                &&& crate::sstable::block_in_bounds(bytes, st[j].1 as nat)
                &&& (c == CompressionType::Uncompressed ==> crate::sstable::block_raw(bytes, st[j].1 as nat) == enc)
                &&& (c == CompressionType::Zstd ==> crate::compression::zstd_encoded(enc, level) == Some(
                    crate::sstable::block_raw(bytes, st[j].1 as nat),
                ))
            },
{
    let bl = blocks_of(es, bs);
    lemma_layout(bl, c, level);
    lemma_blocks_flat(es, bs);
    if bl.len() > 0 {
        assert(block_payload(bl[0], c, level) is Some);
    }
    assert forall|j: int|
        #![trigger st[j]]
        0 <= j < st.len() implies {
            let b = bl[j];
            let enc = enc_records(entry_wires(b));
            &&& st[j].0 == b[0].0
            &&& crate::sstable::block_in_bounds(bytes, st[j].1 as nat)
            &&& (c == CompressionType::Uncompressed ==> crate::sstable::block_raw(bytes, st[j].1 as nat) == enc)
            &&& (c == CompressionType::Zstd ==> crate::compression::zstd_encoded(enc, level) == Some(
                crate::sstable::block_raw(bytes, st[j].1 as nat),
            ))
        } by {
        let b = bl[j];
        let p = payload(b, c, level);
        let f = block_frame(b, c, level);
        lemma_frame_at(bl, c, level, j);
        let off = frames_of(bl.subrange(0, j), c, level).len() as int;
        assert(st[j].1 == off);
        assert(block_payload(bl[j], c, level) is Some);
        crate::ints::lemma_le_bytes_len(p.len(), 8);
        crate::ints::lemma_pow256_values();
        crate::ints::lemma_le_roundtrip(p.len(), 8);
        assert(bytes.subrange(off, off + 8) =~= le_bytes(p.len(), 8)) by {
            assert forall|x: int| 0 <= x < 8 implies bytes.subrange(off, off + 8)[x] == le_bytes(p.len(), 8)[x] by {
                assert(bytes[off + x] == d[off + x]);
                assert(d.subrange(off, off + f.len() as int)[x] == f[x]);
            }
        }
        assert(bytes.subrange(off + 8, off + 8 + p.len() as int) =~= p) by {
            assert forall|x: int| 0 <= x < p.len() implies bytes.subrange(off + 8, off + 8 + p.len() as int)[x] == p[x] by {
                assert(bytes[off + 8 + x] == d[off + 8 + x]);
                assert(d.subrange(off, off + f.len() as int)[8 + x] == f[8 + x]);
            }
        }
    }
}

} // verus!
