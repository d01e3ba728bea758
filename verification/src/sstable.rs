//! Sorted string tables. A table file is a run of blocks, each an 8-byte length and
//! a (possibly compressed) bincode block of records; then the sparse index (the
//! start key and offset of each block); then a 24-byte footer: the index offset,
//! the compression byte and 7 bytes of padding, and the magic number.

use vstd::prelude::*;
use vstd::string::StringExecFns;

use crate::codec::{
    bincode_deserialize_block, bincode_deserialize_index, index_seq, parse_index, parse_records,
    wire_seq, WireRecord, WireRecordExec,
};
use crate::compression::{compression_of_byte, zstd_decode_all, zstd_decoded, CompressionType};
use crate::error::DbError;
use crate::ints::{le_value, read_le};
use crate::keys::{
    compare_keys, key_le, key_lt, lemma_key_lt_asymmetric, lemma_key_lt_irreflexive, lemma_key_lt_total,
    lemma_key_lt_transitive, strictly_sorted, KeyOrder,
};
use crate::model::{
    clone_opt_value, lookup_of, opt_bytes, record_view, GetResult, Key, LogRecord, Lookup, RecordType, Value,
};
use crate::sorted::{
    distinct_keys, key_seq, keys_of, lemma_pairs_map_at, lemma_pairs_map_insert,
    lemma_pairs_map_update, lemma_sorted_pairs_distinct, lemma_splits_absent, pairs_map, search,
    sorted_pairs, splits_at, upsert,
};
use crate::wal::{decode_wire, records_view, RecordView};

verus! {

/// The magic number that ends every table file.
pub const SSTABLE_MAGIC: u64 = 0x888A;

/// Bytes in the footer.
pub const FOOTER_LEN: usize = 24;

/// The magic number a file ends with.
pub open spec fn footer_magic(b: Seq<u8>) -> nat {
    le_value(b.subrange(b.len() - 8, b.len() as int))
}

/// The index offset the footer records.
pub open spec fn footer_index_offset(b: Seq<u8>) -> nat {
    le_value(b.subrange(b.len() - 24, b.len() - 16))
}

/// The compression byte the footer records.
pub open spec fn footer_compression(b: Seq<u8>) -> u8 {
    b[b.len() - 16]
}

/// What opening a table file comes to.
pub enum OpenOutcome {
    TooShort,
    BadMagic,
    BadCompression,
    IndexOutOfRange,
    BadIndex,
    Opened { compression: CompressionType, pairs: Seq<(Seq<u8>, u64)> },
}

/// The map that inserting pairs one after another builds (a later pair overwrites).
pub open spec fn map_of_list(ps: Seq<(Seq<u8>, u64)>) -> Map<Seq<u8>, u64>
    decreases ps.len(),
{
    if ps.len() == 0 {
        Map::empty()
    } else {
        map_of_list(ps.drop_last()).insert(ps.last().0, ps.last().1)
    }
}

/// Opening a table file: checks the length, the magic number, the compression
/// byte and that the index offset is not beyond the footer, then reads the index
/// between the index offset and the footer.
pub open spec fn open_outcome(b: Seq<u8>) -> OpenOutcome {
    if b.len() < 24 {
        OpenOutcome::TooShort
    } else if footer_magic(b) != 0x888A {
        OpenOutcome::BadMagic
    } else {
        match compression_of_byte(footer_compression(b)) {
            None => OpenOutcome::BadCompression,
            Some(c) => if footer_index_offset(b) > b.len() - 24 {
                OpenOutcome::IndexOutOfRange
            } else {
                match parse_index(b.subrange(footer_index_offset(b) as int, b.len() - 24)) {
                    None => OpenOutcome::BadIndex,
                    Some(ps) => OpenOutcome::Opened { compression: c, pairs: ps },
                }
            },
        }
    }
}

/// Position `i` holds the last key that is not above `k`.
pub open spec fn is_floor(ks: Seq<Seq<u8>>, k: Seq<u8>, i: int) -> bool {
    0 <= i < ks.len() && key_le(ks[i], k) && (i + 1 == ks.len() || key_lt(k, ks[i + 1]))
}

/// In sorted keys whose first key is not above `k`, some position is the floor of `k`.
pub proof fn lemma_floor_exists(ks: Seq<Seq<u8>>, k: Seq<u8>)
    requires
        strictly_sorted(ks),
        ks.len() > 0,
        !key_lt(k, ks[0]),
    ensures
        exists|i: int| is_floor(ks, k, i),
    decreases ks.len(),
{
    let n = ks.len() as int;
    if key_le(ks[n - 1], k) {
        assert(is_floor(ks, k, n - 1));
    } else {
        if ks[n - 1] != k {
            lemma_key_lt_total(ks[n - 1], k);
        }
        let d = ks.drop_last();
        assert(n > 1) by {
            if n == 1 {
                if k != ks[0] {
                    lemma_key_lt_total(k, ks[0]);
                }
            }
        }
        assert(strictly_sorted(d)) by {
            assert forall|i: int, j: int| 0 <= i < j < d.len() implies key_lt(#[trigger] d[i], #[trigger] d[j]) by {
                assert(d[i] == ks[i] && d[j] == ks[j]);
            }
        }
        lemma_floor_exists(d, k);
        let i = choose|i: int| is_floor(d, k, i);
        assert(is_floor(ks, k, i));
    }
}

/// The block that may hold `k`: the last one whose start key is not above `k`.
pub open spec fn floor_entry(ks: Seq<Seq<u8>>, k: Seq<u8>) -> Option<int> {
    if ks.len() == 0 || key_lt(k, ks[0]) {
        None
    } else {
        Some(choose|i: int| is_floor(ks, k, i))
    }
}

/// The length a block's 8-byte header records.
pub open spec fn block_len(b: Seq<u8>, off: nat) -> nat {
    le_value(b.subrange(off as int, off as int + 8))
}

/// The block at `off` lies within the file.
pub open spec fn block_in_bounds(b: Seq<u8>, off: nat) -> bool {
    off + 8 <= b.len() && off + 8 + block_len(b, off) <= b.len()
}

/// The stored (possibly compressed) bytes of the block at `off`.
pub open spec fn block_raw(b: Seq<u8>, off: nat) -> Seq<u8> {
    b.subrange(off as int + 8, off as int + 8 + block_len(b, off) as int)
}

/// The bytes a stored block decompresses to; `None` where decompression fails.
pub open spec fn decompressed(c: CompressionType, raw: Seq<u8>) -> Option<Seq<u8>> {
    match c {
        CompressionType::Uncompressed => Some(raw),
        CompressionType::Zstd => zstd_decoded(raw),
        CompressionType::Snappy => None,
    }
}

/// Record tuples as records; `None` if a tag names no record type.
pub open spec fn wires_to_records(ws: Seq<WireRecord>) -> Option<Seq<RecordView>> {
    if forall|j: int| 0 <= j < ws.len() ==> #[trigger] decode_wire(ws[j]) is Some {
        Some(Seq::new(ws.len(), |j: int| decode_wire(ws[j]).unwrap()))
    } else {
        None
    }
}

/// The records of the block at `off`; `None` where it does not decompress or decode.
pub open spec fn block_records(b: Seq<u8>, c: CompressionType, off: nat) -> Option<Seq<RecordView>> {
    match decompressed(c, block_raw(b, off)) {
        None => None,
        Some(d) => match parse_records(d) {
            None => None,
            Some(ws) => wires_to_records(ws),
        },
    }
}

/// The keys of a block's records.
pub open spec fn record_keys(recs: Seq<RecordView>) -> Seq<Seq<u8>> {
    Seq::new(recs.len(), |j: int| recs[j].1)
}

/// A block's records are in strictly increasing key order, and every put carries a value.
pub open spec fn records_ok(recs: Seq<RecordView>) -> bool {
    &&& strictly_sorted(record_keys(recs))
    &&& forall|j: int| 0 <= j < recs.len() && recs[j].0 == RecordType::Put ==> (#[trigger] recs[j]).2 is Some
}

/// What a block's records say about `k`.
pub open spec fn records_lookup(recs: Seq<RecordView>, k: Seq<u8>) -> Lookup {
    if exists|j: int| 0 <= j < recs.len() && #[trigger] recs[j].1 == k {
        let j = choose|j: int| 0 <= j < recs.len() && #[trigger] recs[j].1 == k;
        match recs[j].0 {
            RecordType::Put => match recs[j].2 {
                Some(v) => Lookup::Found(v),
                None => Lookup::Failed,
            },
            RecordType::Delete => Lookup::Deleted,
        }
    } else {
        Lookup::Missing
    }
}

/// A table that lookups can read without failing on its layout: sorted index,
/// every block within the file, no Snappy blocks, and every block that decodes
/// sorted with a value in every put.
pub open spec fn table_wf(b: Seq<u8>, ps: Seq<(Seq<u8>, u64)>, c: CompressionType) -> bool {
    &&& sorted_pairs(ps)
    &&& (ps.len() > 0 ==> c != CompressionType::Snappy)
    &&& forall|i: int| 0 <= i < ps.len() ==> #[trigger] table_block_ok(b, c, ps[i].1 as nat)
}

/// One block of a table is within the file, and, if it decodes, well ordered.
pub open spec fn table_block_ok(b: Seq<u8>, c: CompressionType, off: nat) -> bool {
    &&& block_in_bounds(b, off)
    &&& match block_records(b, c, off) {
        Some(recs) => records_ok(recs),
        None => true,
    }
}

/// What a lookup of `k` in a table finds.
pub open spec fn table_lookup(b: Seq<u8>, ps: Seq<(Seq<u8>, u64)>, c: CompressionType, k: Seq<u8>) -> Lookup {
    match floor_entry(keys_of(ps), k) {
        None => Lookup::Missing,
        Some(i) => if !block_in_bounds(b, ps[i].1 as nat) {
            Lookup::Failed
        } else {
            match block_records(b, c, ps[i].1 as nat) {
                None => Lookup::Failed,
                Some(recs) => records_lookup(recs, k),
            }
        },
    }
}

/// `key_le` is transitive through `key_lt`.
proof fn lemma_le_lt_trans(a: Seq<u8>, b: Seq<u8>, c: Seq<u8>)
    requires
        key_le(a, b),
        key_lt(b, c),
    ensures
        key_lt(a, c),
{
    if a != b {
        lemma_key_lt_transitive(a, b, c);
    }
}

/// In sorted keys at most one position is the floor of `k`.
proof fn lemma_floor_unique(ks: Seq<Seq<u8>>, k: Seq<u8>, i: int, j: int)
    requires
        strictly_sorted(ks),
        0 <= i < ks.len(),
        0 <= j < ks.len(),
        is_floor(ks, k, i),
        is_floor(ks, k, j),
    ensures
        i == j,
{
    if i < j {
        // ks[i + 1] <= ks[j] <= k < ks[i + 1]
        if i + 1 < j {
            assert(key_lt(ks[i + 1], ks[j]));
            lemma_le_lt_trans(ks[j], k, ks[i + 1]);
            lemma_key_lt_asymmetric(ks[i + 1], ks[j]);
        } else {
            lemma_le_lt_trans(ks[j], k, ks[j]);
            lemma_key_lt_irreflexive(ks[j]);
        }
    } else if j < i {
        if j + 1 < i {
            assert(key_lt(ks[j + 1], ks[i]));
            lemma_le_lt_trans(ks[i], k, ks[j + 1]);
            lemma_key_lt_asymmetric(ks[j + 1], ks[i]);
        } else {
            lemma_le_lt_trans(ks[i], k, ks[i]);
            lemma_key_lt_irreflexive(ks[i]);
        }
    }
}

/// Finds the block that may hold `key`.
fn find_block(index: &Vec<(Key, u64)>, key: &[u8]) -> (r: Option<usize>)
    requires
        strictly_sorted(key_seq(index@)),
    ensures
        match r {
            Some(i) => i < index.len() && floor_entry(key_seq(index@), key@) == Some(i as int),
            None => floor_entry(key_seq(index@), key@) is None,
        },
{
    let ghost ks = key_seq(index@);
    match search(index, key) {
        Ok(i) => {
            proof {
                if i + 1 < ks.len() {
                    assert(key_lt(ks[i as int], ks[i + 1]));
                }
                if i > 0 {
                    assert(key_lt(ks[0], ks[i as int]));
                    lemma_key_lt_asymmetric(ks[0], key@);
                } else {
                    lemma_key_lt_irreflexive(key@);
                }
                assert(is_floor(ks, key@, i as int));
                let c = choose|c: int| is_floor(ks, key@, c);
                lemma_floor_unique(ks, key@, c, i as int);
            }
            Some(i)
        },
        Err(i) => {
            if i == 0 {
                Option::None
            } else {
                proof {
                    assert(key_lt(ks[i - 1], key@));
                    assert(!key_lt(key@, ks[0])) by {
                        if i - 1 > 0 {
                            assert(key_lt(ks[0], ks[i - 1]));
                            lemma_key_lt_transitive(ks[0], ks[i - 1], key@);
                        }
                        lemma_key_lt_asymmetric(ks[0], key@);
                    }
                    assert(is_floor(ks, key@, i - 1));
                    let c = choose|c: int| is_floor(ks, key@, c);
                    lemma_floor_unique(ks, key@, c, i - 1);
                }
                Some(i - 1)
            }
        },
    }
}

/// Binary search for `key` among records: a position found holds `key`; when the
/// records are in strictly increasing key order, finding none means `key` is absent.
fn search_records(recs: &Vec<LogRecord>, key: &[u8]) -> (r: Option<usize>)
    ensures
        match r {
            Some(j) => j < recs.len() && recs@[j as int].key@ == key@,
            None => strictly_sorted(record_keys(records_view(recs@))) ==> forall|j: int|
                0 <= j < recs.len() ==> #[trigger] recs@[j].key@ != key@,
        },
{
    let ghost ks = record_keys(records_view(recs@));
    let ghost sorted = strictly_sorted(ks);
    let mut lo: usize = 0;
    let mut hi: usize = recs.len();
    while lo < hi
        invariant
            ks == record_keys(records_view(recs@)),
            sorted == strictly_sorted(ks),
            0 <= lo <= hi <= recs.len(),
            sorted ==> forall|j: int| 0 <= j < lo ==> key_lt(#[trigger] ks[j], key@),
            sorted ==> forall|j: int| hi <= j < ks.len() ==> key_lt(key@, #[trigger] ks[j]),
        decreases hi - lo,
    {
        let mid = lo + (hi - lo) / 2;
        assert(ks[mid as int] == recs@[mid as int].key@);
        match compare_keys(recs[mid].key.as_slice(), key) {
            KeyOrder::Equal => {
                return Some(mid);
            },
            KeyOrder::Less => {
                proof {
                    if sorted {
                        assert forall|j: int| 0 <= j < mid + 1 implies key_lt(#[trigger] ks[j], key@) by {
                            if j < mid {
                                assert(key_lt(ks[j], ks[mid as int]));
                                lemma_key_lt_transitive(ks[j], ks[mid as int], key@);
                            }
                        }
                    }
                }
                lo = mid + 1;
            },
            KeyOrder::Greater => {
                proof {
                    if sorted {
                        assert forall|j: int| mid <= j < ks.len() implies key_lt(key@, #[trigger] ks[j]) by {
                            if j > mid {
                                assert(key_lt(ks[mid as int], ks[j]));
                                lemma_key_lt_transitive(key@, ks[mid as int], ks[j]);
                            }
                        }
                    }
                }
                hi = mid;
            },
        }
    }
    proof {
        if sorted {
            assert forall|j: int| 0 <= j < recs.len() implies #[trigger] recs@[j].key@ != key@ by {
                assert(ks[j] == recs@[j].key@);
                lemma_key_lt_irreflexive(key@);
            }
        }
    }
    Option::None
}

/// Decodes a (decompressed) block into records; a block that does not decode,
/// or holds a tag that names no record type, is an error with a message.
fn decode_block(payload: &[u8]) -> (r: Result<Vec<LogRecord>, String>)
    ensures
        match r {
            Ok(v) => match parse_records(payload@) {
                Some(ws) => wires_to_records(ws) == Some(records_view(v@)),
                None => false,
            },
            Err(_) => match parse_records(payload@) {
                Some(ws) => wires_to_records(ws) is None,
                None => true,
            },
        },
{
    let ws = match bincode_deserialize_block(payload) {
        Ok(ws) => ws,
        Err(e) => return Err(e.to_string()),
    };
    let ghost wv = wire_seq(ws@);
    let mut out: Vec<LogRecord> = Vec::new();
    let mut i: usize = 0;
    while i < ws.len()
        invariant
            i <= ws.len(),
            wv == wire_seq(ws@),
            parse_records(payload@) == Some(wv),
            out@.len() == i,
            forall|j: int| 0 <= j < i ==> #[trigger] decode_wire(wv[j]) == Some(record_view(out@[j])),
        decreases ws.len() - i,
    {
        let tag = ws[i].0;
        let r_type = if tag == 0 {
            RecordType::Put
        } else if tag == 1 {
            RecordType::Delete
        } else {
            assert(decode_wire(wv[i as int]) is None);
            return Err(String::from_str("invalid record type tag"));
        };
        let key = ws[i].1.clone();
        let value = clone_opt_value(&ws[i].2);
        out.push(LogRecord { r_type, key, value });
        i = i + 1;
    }
    proof {
        assert(forall|j: int| 0 <= j < wv.len() ==> #[trigger] decode_wire(wv[j]) is Some);
        assert(Seq::new(wv.len(), |j: int| decode_wire(wv[j]).unwrap()) =~= records_view(out@));
    }
    Ok(out)
}

/// Whether every put of the records carries a value and their keys strictly increase.
fn check_records(recs: &Vec<LogRecord>) -> (r: bool)
    ensures
        r == records_ok(records_view(recs@)),
{
    let ghost rv = records_view(recs@);
    let ghost ks = record_keys(rv);
    let mut j: usize = 0;
    while j < recs.len()
        invariant
            j <= recs.len(),
            rv == records_view(recs@),
            ks == record_keys(rv),
            forall|a: int| 0 <= a < j && rv[a].0 == RecordType::Put ==> (#[trigger] rv[a]).2 is Some,
            forall|a: int, b: int| 0 <= a < b < j ==> key_lt(#[trigger] ks[a], #[trigger] ks[b]),
        decreases recs.len() - j,
    {
        if recs[j].r_type == RecordType::Put && recs[j].value.is_none() {
            assert(rv[j as int].0 == RecordType::Put && rv[j as int].2 is None);
            return false;
        }
        if j > 0 {
            match compare_keys(recs[j - 1].key.as_slice(), recs[j].key.as_slice()) {
                KeyOrder::Less => {
                    proof {
                        assert(ks[j - 1] == recs@[j - 1].key@);
                        assert(ks[j as int] == recs@[j as int].key@);
                        assert forall|a: int, b: int| 0 <= a < b < j + 1 implies key_lt(
                            #[trigger] ks[a],
                            #[trigger] ks[b],
                        ) by {
                            if b == j && a < j - 1 {
                                lemma_key_lt_transitive(ks[a], ks[j - 1], ks[b]);
                            }
                        }
                    }
                },
                _ => {
                    proof {
                        assert(ks[j - 1] == recs@[j - 1].key@);
                        assert(ks[j as int] == recs@[j as int].key@);
                        lemma_key_lt_irreflexive(ks[j as int]);
                        assert(!key_lt(ks[j - 1], ks[j as int]));
                    }
                    return false;
                },
            }
        }
        j = j + 1;
    }
    true
}

/// A sorted string table, read from the bytes of its file. Its index is kept in
/// strictly increasing key order.
pub struct SSTable {
    data: Vec<u8>,
    index: Vec<(Key, u64)>,
    compression: CompressionType,
}

/// Builds the sparse index from the pairs read from the file, inserting them in
/// order as an ordered map does (a later pair for the same key wins).
fn build_index(pairs: &Vec<(Vec<u8>, u64)>) -> (r: Vec<(Key, u64)>)
    ensures
        strictly_sorted(key_seq(r@)),
        sorted_pairs(index_seq(r@)),
        pairs_map(index_seq(r@)) == map_of_list(index_seq(pairs@)),
{
    let ghost ps = index_seq(pairs@);
    let mut idx: Vec<(Key, u64)> = Vec::new();
    let mut i: usize = 0;
    assert(ps.subrange(0, 0) =~= Seq::<(Seq<u8>, u64)>::empty());
    assert(pairs_map(index_seq(idx@)) =~= Map::<Seq<u8>, u64>::empty());
    while i < pairs.len()
        invariant
            i <= pairs.len(),
            ps == index_seq(pairs@),
            strictly_sorted(key_seq(idx@)),
            pairs_map(index_seq(idx@)) == map_of_list(ps.subrange(0, i as int)),
        decreases pairs.len() - i,
    {
        let ghost old_idx = index_seq(idx@);
        let ghost kv = pairs@[i as int].0@;
        let ghost v = pairs@[i as int].1;
        assert(key_seq(idx@) =~= keys_of(old_idx));
        let key = pairs[i].0.clone();
        let (j, prev) = upsert(&mut idx, key, pairs[i].1);
        proof {
            lemma_sorted_pairs_distinct(old_idx);
            match prev {
                Some(_) => {
                    assert(index_seq(idx@) =~= old_idx.update(j as int, (kv, v)));
                    assert(old_idx[j as int].0 == kv);
                    lemma_pairs_map_update(old_idx, j as int, v);
                },
                None => {
                    assert(index_seq(idx@) =~= old_idx.insert(j as int, (kv, v)));
                    lemma_splits_absent(keys_of(old_idx), kv, j as int);
                    if crate::sorted::has_key(old_idx, kv) {
                        let a = choose|a: int| 0 <= a < old_idx.len() && #[trigger] old_idx[a].0 == kv;
                        assert(keys_of(old_idx)[a] == kv);
                    }
                    lemma_pairs_map_insert(old_idx, j as int, kv, v);
                },
            }
            assert(ps.subrange(0, i + 1).drop_last() =~= ps.subrange(0, i as int));
        }
        i = i + 1;
    }
    assert(ps.subrange(0, pairs.len() as int) =~= ps);
    assert(key_seq(idx@) =~= keys_of(index_seq(idx@)));
    idx
}

impl SSTable {
    #[verifier::type_invariant]
    closed spec fn index_sorted(&self) -> bool {
        strictly_sorted(key_seq(self.index@))
    }

    /// The bytes of the table file.
    pub closed spec fn bytes(&self) -> Seq<u8> {
        self.data@
    }

    /// The sparse index: start key and offset of each block, in key order.
    pub closed spec fn index_pairs(&self) -> Seq<(Seq<u8>, u64)> {
        index_seq(self.index@)
    }

    /// The compression of the table's blocks.
    pub closed spec fn compression_kind(&self) -> CompressionType {
        self.compression
    }

    /// The table can be read without failing on its layout.
    pub open spec fn wf(&self) -> bool {
        table_wf(self.bytes(), self.index_pairs(), self.compression_kind())
    }

    /// What a lookup of `k` finds.
    pub open spec fn lookup(&self, k: Seq<u8>) -> Lookup {
        table_lookup(self.bytes(), self.index_pairs(), self.compression_kind(), k)
    }

    /// The records of the block that may hold `k`: `None` where no block starts at or
    /// below `k`, or that block runs past the file or does not decode.
    pub open spec fn floor_records(&self, k: Seq<u8>) -> Option<Seq<RecordView>> {
        match floor_entry(keys_of(self.index_pairs()), k) {
            None => None,
            Some(i) => if block_in_bounds(self.bytes(), self.index_pairs()[i].1 as nat) {
                block_records(self.bytes(), self.compression_kind(), self.index_pairs()[i].1 as nat)
            } else {
                None
            },
        }
    }

    /// The message of a failed lookup of `k`: a block running past the file, a
    /// Snappy block, and a zstd block that does not decompress each have their own;
    /// a block that does not decode carries the decoder's message.
    pub open spec fn read_error(&self, k: Seq<u8>, m: Seq<char>) -> bool {
        match floor_entry(keys_of(self.index_pairs()), k) {
            None => false,
            Some(i) => {
                let off = self.index_pairs()[i].1 as nat;
                if !block_in_bounds(self.bytes(), off) {
                    m == "SSTable block out of bounds"@
                } else if self.compression_kind() == CompressionType::Snappy {
                    m == "Snappy decompression not implemented"@
                } else if self.compression_kind() == CompressionType::Zstd && zstd_decoded(
                    block_raw(self.bytes(), off),
                ) is None {
                    m.len() >= 27 && m.subrange(0, 27) == "Zstd decompression failed: "@
                } else {
                    true
                }
            },
        }
    }

    /// In a well-formed table the block that may hold any key is in key order.
    pub proof fn lemma_wf_floor_sorted(&self, k: Seq<u8>)
        requires
            self.wf(),
        ensures
            self.floor_records(k) matches Some(recs) ==> strictly_sorted(record_keys(recs)),
    {
        match floor_entry(keys_of(self.index_pairs()), k) {
            None => {},
            Some(i) => {
                let ps = self.index_pairs();
                lemma_floor_exists(keys_of(ps), k);
                assert(table_block_ok(self.bytes(), self.compression_kind(), ps[i].1 as nat));
            },
        }
    }

    proof fn lemma_index_keys(&self)
        ensures
            key_seq(self.index@) == keys_of(self.index_pairs()),
    {
        assert(key_seq(self.index@) =~= keys_of(self.index_pairs()));
    }
}


impl SSTable {
    /// Opens a table from the bytes of its file: checks the length, the magic number,
    /// the compression byte and the index offset, then reads the sparse index. Every
    /// failure is `Corruption`.
    pub fn open(data: Vec<u8>) -> (r: Result<SSTable, DbError>)
        ensures
            match (r, open_outcome(data@)) {
                (Ok(t), OpenOutcome::Opened { compression, pairs }) => {
                    &&& t.bytes() == data@
                    &&& t.compression_kind() == compression
                    &&& sorted_pairs(t.index_pairs())
                    &&& pairs_map(t.index_pairs()) == map_of_list(pairs)
                },
                (Err(DbError::Corruption(m)), OpenOutcome::TooShort) => m@ == "SSTable file is too short."@,
                (Err(DbError::Corruption(m)), OpenOutcome::BadMagic) => m@ == "Bad Magic"@,
                (Err(DbError::Corruption(m)), OpenOutcome::BadCompression) => m@
                    == "Unknown compression type: "@ + crate::compression::decimal_chars(
                    footer_compression(data@) as nat,
                ),
                (Err(DbError::Corruption(m)), OpenOutcome::IndexOutOfRange) => m@ == "Index offset out of range"@,
                (Err(DbError::Corruption(m)), OpenOutcome::BadIndex) => m@ == "Invalid sparse index"@,
                _ => false,
            },
    {
        let len = data.len();
        if len < 24 {
            return Err(DbError::Corruption(String::from_str("SSTable file is too short.")));
        }
        let magic = read_le(data.as_slice(), len - 8, 8);
        if magic != SSTABLE_MAGIC {
            return Err(DbError::Corruption(String::from_str("Bad Magic")));
        }
        let index_offset = read_le(data.as_slice(), len - 24, 8);
        let compression = match CompressionType::from_byte(data[len - 16]) {
            Ok(c) => c,
            Err(e) => return Err(e),
        };
        if index_offset > (len - 24) as u64 {
            return Err(DbError::Corruption(String::from_str("Index offset out of range")));
        }
        let index_data = &data[index_offset as usize..len - 24];
        let pairs = match bincode_deserialize_index(index_data) {
            Ok(p) => p,
            Err(_) => return Err(DbError::Corruption(String::from_str("Invalid sparse index"))),
        };
        let index = build_index(&pairs);
        Ok(SSTable { data, index, compression })
    }

    /// Reads and decodes the block at `off`.
    fn read_block(&self, off: u64) -> (r: Result<Vec<LogRecord>, String>)
        requires
            block_in_bounds(self.bytes(), off as nat),
            self.compression_kind() != CompressionType::Snappy,
        ensures
            match r {
                Ok(v) => block_records(self.bytes(), self.compression_kind(), off as nat) == Some(
                    records_view(v@),
                ),
                Err(m) => block_records(self.bytes(), self.compression_kind(), off as nat) is None && (
                self.compression_kind() == CompressionType::Zstd && zstd_decoded(
                    block_raw(self.bytes(), off as nat),
                ) is None ==> m@.len() >= 27 && m@.subrange(0, 27) == "Zstd decompression failed: "@),
            },
    {
        let _len = self.data.len();
        let start = off as usize;
        let blen = read_le(self.data.as_slice(), start, 8) as usize;
        let raw = &self.data[start + 8..start + 8 + blen];
        assert(raw@ == block_raw(self.bytes(), off as nat));
        match self.compression {
            CompressionType::Zstd => match zstd_decode_all(raw) {
                Ok(d) => decode_block(d.as_slice()),
                Err(e) => {
                    let m = String::from_str("Zstd decompression failed: ");
                    let detail = e.to_string();
                    let out = m.concat(detail.as_str());
                    proof {
                        reveal_strlit("Zstd decompression failed: ");
                        assert(out@.subrange(0, 27) =~= "Zstd decompression failed: "@);
                    }
                    Err(out)
                },
            },
            _ => decode_block(raw),
        }
    }

    /// Looks `key` up: the block that may hold it is found through the sparse index,
    /// decompressed, decoded, and searched.
    pub fn get(&self, key: &Key) -> (r: GetResult<Value>)
        ensures
            (self.floor_records(key@) matches Some(recs) ==> strictly_sorted(record_keys(recs)))
                ==> lookup_of(r) == self.lookup(key@),
            match r {
                GetResult::Found(v) => self.floor_records(key@) matches Some(recs) && exists|j: int|
                    0 <= j < recs.len() && #[trigger] recs[j] == (RecordType::Put, key@, Some(v@)),
                GetResult::Deleted => self.floor_records(key@) matches Some(recs) && exists|j: int|
                    0 <= j < recs.len() && #[trigger] recs[j] == (RecordType::Delete, key@, recs[j].2),
                GetResult::NotFound => self.lookup(key@) is Missing || (self.floor_records(key@) matches Some(
                    recs,
                ) && !strictly_sorted(record_keys(recs))),
                GetResult::Error(m) => (self.lookup(key@) is Failed || (self.floor_records(key@) matches Some(recs)
                    && exists|j: int| 0 <= j < recs.len() && #[trigger] recs[j] == (RecordType::Put, key@, None::<Seq<u8>>)))
                    && self.read_error(key@, m@),
            },
    {
        proof {
            use_type_invariant(self);
            self.lemma_index_keys();
        }
        let i = match find_block(&self.index, key.as_slice()) {
            Option::None => return GetResult::NotFound,
            Option::Some(i) => i,
        };
        let off = self.index[i].1;
        let ghost ps = self.index_pairs();
        assert(ps[i as int].1 == off);
        let len = self.data.len();
        if off > len as u64 || len - (off as usize) < 8 {
            return GetResult::Error(String::from_str("SSTable block out of bounds"));
        }
        let start = off as usize;
        let blen = read_le(self.data.as_slice(), start, 8);
        if blen > (len - start - 8) as u64 {
            return GetResult::Error(String::from_str("SSTable block out of bounds"));
        }
        assert(block_in_bounds(self.bytes(), off as nat));
        if self.compression == CompressionType::Snappy {
            return GetResult::Error(String::from_str("Snappy decompression not implemented"));
        }
        let recs = match self.read_block(off) {
            Ok(v) => v,
            Err(m) => return GetResult::Error(m),
        };
        let ghost rv = records_view(recs@);
        assert(self.floor_records(key@) == Some(rv));
        match search_records(&recs, key.as_slice()) {
            Option::None => {
                proof {
                    if strictly_sorted(record_keys(rv)) {
                        assert forall|j: int| 0 <= j < rv.len() implies #[trigger] rv[j].1 != key@ by {
                            assert(rv[j].1 == recs@[j].key@);
                        }
                    }
                }
                GetResult::NotFound
            },
            Option::Some(j) => {
                proof {
                    assert(rv[j as int].1 == key@);
                    if strictly_sorted(record_keys(rv)) {
                        let c = choose|c: int| 0 <= c < rv.len() && #[trigger] rv[c].1 == key@;
                        if c != j {
                            crate::keys::lemma_sorted_distinct(record_keys(rv), c, j as int);
                        }
                    }
                }
                match recs[j].r_type {
                    RecordType::Put => match &recs[j].value {
                        Option::Some(v) => {
                            let out = v.clone();
                            assert(rv[j as int] == (RecordType::Put, key@, Some(out@)));
                            GetResult::Found(out)
                        },
                        Option::None => {
                            assert(rv[j as int] == (RecordType::Put, key@, None::<Seq<u8>>));
                            GetResult::Error(String::from_str("Put record without a value"))
                        },
                    },
                    RecordType::Delete => {
                        assert(rv[j as int] == (RecordType::Delete, key@, rv[j as int].2));
                        GetResult::Deleted
                    },
                }
            },
        }
    }

    /// Whether lookups can read the table without failing on its layout
    /// (see `table_wf`); every block is checked and decoded.
    pub fn validate(&self) -> (r: bool)
        ensures
            r == self.wf(),
    {
        proof {
            use_type_invariant(self);
            self.lemma_index_keys();
        }
        let ghost b = self.bytes();
        let ghost ps = self.index_pairs();
        let ghost c = self.compression_kind();
        if self.index.len() > 0 && self.compression == CompressionType::Snappy {
            return false;
        }
        let len = self.data.len();
        let mut i: usize = 0;
        while i < self.index.len()
            invariant
                i <= self.index.len(),
                b == self.bytes(),
                ps == self.index_pairs(),
                c == self.compression_kind(),
                len == b.len(),
                ps.len() > 0 ==> c != CompressionType::Snappy,
                forall|j: int| 0 <= j < i ==> #[trigger] table_block_ok(b, c, ps[j].1 as nat),
            decreases self.index.len() - i,
        {
            let off = self.index[i].1;
            assert(ps[i as int].1 == off);
            if off > len as u64 || (len as u64) - off < 8 {
                assert(!table_block_ok(b, c, ps[i as int].1 as nat));
                return false;
            }
            let start = off as usize;
            let blen = read_le(self.data.as_slice(), start, 8);
            if blen > ((len - start - 8) as u64) {
                assert(!table_block_ok(b, c, ps[i as int].1 as nat));
                return false;
            }
            match self.read_block(off) {
                Ok(recs) => {
                    if !check_records(&recs) {
                        assert(!table_block_ok(b, c, ps[i as int].1 as nat));
                        return false;
                    }
                },
                Err(_) => {},
            }
            i = i + 1;
        }
        proof {
            crate::sorted::lemma_sorted_pairs_distinct(ps);
            assert(keys_of(ps) == key_seq(self.index@));
        }
        true
    }
}

} // verus!
