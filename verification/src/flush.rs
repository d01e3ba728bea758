//! What the background flush works with: the task handed to it, the result it
//! hands back, the name of the table file, and the table file itself.

use std::sync::Arc;

use vstd::prelude::*;

use crate::compression::CompressionType;
use crate::error::DbError;
use crate::memtable::{map_lookup, MemTable};
use crate::sstable_builder::{
    blocks_decode, blocks_of, entry_wire, layout, table_file, Entry, SSTableBuilder,
};
use crate::sstable::{map_of_list, open_outcome, OpenOutcome, SSTable};
use crate::codec::wire_record_fits;
use crate::table_roundtrip::lemma_table_file_roundtrip;
use crate::sorted::{pairs_map, sorted_pairs};
use crate::wal::{decimal, push_padded_id, zero_pad};

verus! {

/// Result of a successful background flush operation.
pub struct FlushResult {
    /// ID of the MemTable that was flushed.
    pub memtable_id: u64,
    /// Path to the generated SSTable file.
    pub sstable_path: String,
}

/// A task dispatched to the background flusher.
pub enum FlushTask {
    /// Instructs the flusher to write the given Immutable MemTable to disk.
    Task(Arc<MemTable>),
}

/// The bytes of `"sst_"`.
pub open spec fn sst_prefix() -> Seq<u8> {
    seq![115u8, 115u8, 116u8, 95u8]
}

/// The bytes of `".sst"`.
pub open spec fn sst_suffix() -> Seq<u8> {
    seq![46u8, 115u8, 115u8, 116u8]
}

/// The name of the table file flushed from the table with the given id:
/// `sst_{id:06}.sst`.
pub open spec fn sst_name(id: u64) -> Seq<u8> {
    sst_prefix() + zero_pad(decimal(id as nat), 6) + sst_suffix()
}

/// The name of the table file flushed from the table with the given id.
pub fn sst_file_name(id: u64) -> (r: Vec<u8>)
    ensures
        r@ == sst_name(id),
{
    let mut out: Vec<u8> = Vec::new();
    out.push(115u8);
    out.push(115u8);
    out.push(116u8);
    out.push(95u8);
    assert(out@ =~= sst_prefix());
    push_padded_id(&mut out, id);
    out.push(46u8);
    out.push(115u8);
    out.push(115u8);
    out.push(116u8);
    assert(out@ =~= sst_name(id));
    out
}

/// The bytes are a table file built from the entries (in key order) with the given
/// block size and compression: every block compressed, its stored bytes
/// decompressing back to its records, and the sparse index the start key and offset
/// of each block.
pub open spec fn flushed(es: Seq<Entry>, bs: nat, c: CompressionType, level: i32, bytes: Seq<u8>) -> bool {
    &&& c != CompressionType::Snappy
    &&& blocks_decode(blocks_of(es, bs), c, level)
    &&& match layout(blocks_of(es, bs), c, level) {
        Some((d, st)) => exists|ix: Seq<(Seq<u8>, u64)>|
            sorted_pairs(ix) && pairs_map(ix) == map_of_list(st) && bytes == table_file(d, ix, c),
        None => false,
    }
}

/// A table opened from bytes holds them, with the compression and the index their
/// footer names.
pub open spec fn opened_from(t: SSTable, bytes: Seq<u8>) -> bool {
    &&& t.bytes() == bytes
    &&& open_outcome(bytes) matches OpenOutcome::Opened { compression, pairs }
    &&& t.compression_kind() == compression
    &&& sorted_pairs(t.index_pairs())
    &&& pairs_map(t.index_pairs()) == map_of_list(pairs)
}

/// A table file flushed from a MemTable reads back as the MemTable: the bytes open
/// with the compression they were built with, and every
/// table opened from them is well formed and finds, for every key, what the
/// MemTable holds for it (its value, its tombstone, or nothing).
pub proof fn lemma_flushed_table_reads_as_memtable(
    m: MemTable,
    bs: nat,
    c: CompressionType,
    level: i32,
    bytes: Seq<u8>,
)
    requires
        m.wf(),
        flushed(m.contents(), bs, c, level, bytes),
        bytes.len() < 0x1_0000_0000_0000_0000,
    ensures
        open_outcome(bytes) matches OpenOutcome::Opened { compression, .. } && compression == c,
        forall|t: SSTable, k: Seq<u8>|
            opened_from(t, bytes) ==> t.wf() && #[trigger] t.lookup(k) == map_lookup(m@, k),
{
    let es = m.contents();
    m.lemma_wf();
    m.lemma_lengths_fit();
    assert forall|i: int| 0 <= i < es.len() implies wire_record_fits(#[trigger] entry_wire(es[i])) by {
        assert(es[i].0.len() < 0x1_0000_0000_0000_0000);
    }
    let (d, st) = layout(blocks_of(es, bs), c, level).unwrap();
    let ix = choose|ix: Seq<(Seq<u8>, u64)>|
        sorted_pairs(ix) && pairs_map(ix) == map_of_list(st) && bytes == table_file(d, ix, c);
    lemma_table_file_roundtrip(es, bs, c, level, ix, Seq::empty());
    assert forall|t: SSTable, k: Seq<u8>| opened_from(t, bytes) implies t.wf() && #[trigger] t.lookup(k)
        == map_lookup(m@, k) by {
        lemma_table_file_roundtrip(es, bs, c, level, ix, k);
    }
}

/// The table file for a frozen table: its entries, in key order, built into a table
/// with the given block size and compression.
pub fn flush_memtable(
    memtable: &MemTable,
    block_size: usize,
    compression_type: CompressionType,
    compression_level: i32,
) -> (r: Result<Vec<u8>, DbError>)
    ensures
        match r {
            Ok(bytes) => flushed(memtable.contents(), block_size as nat, compression_type, compression_level, bytes@),
            Err(e) => if compression_type == CompressionType::Snappy {
                e matches DbError::Corruption(m) && m@ == "Snappy not implemented"@
            } else {
                layout(blocks_of(memtable.contents(), block_size as nat), compression_type, compression_level) is None
                    && (compression_type == CompressionType::Zstd ==> e is IO)
            },
        },
{
    let builder = SSTableBuilder::new(block_size, compression_type, compression_level);
    builder.build(memtable.iter())
}

} // verus!
