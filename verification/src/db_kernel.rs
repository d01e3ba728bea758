//! The kernel of the engine: the active MemTable, the frozen (immutable) MemTables
//! waiting to be flushed, and the SSTables already on disk. Reads go from the
//! newest layer to the oldest and stop at the first value or tombstone. Writes go
//! to the active MemTable once their WAL frames are durable; when the MemTable
//! reaches its size threshold it is frozen and a new one (with the next file id)
//! takes its place.

use std::sync::Arc;

use vstd::prelude::*;

use crate::error::DbError;
use crate::memtable::{map_lookup, MemTable};
use crate::model::{clone_opt_value, opt_len, Key, Lookup, LogRecord, RecordType, Value, GetResult};
use crate::sstable::SSTable;
use crate::wal::{
    encode_record, frames, lemma_wal_parse_bytes, read_all_records, record_bytes, record_frame,
    records_bytes, records_view, wal_parse, RecordView,
};

verus! {

/// One write of a batch.
pub enum WriteOP {
    /// Put a value under a key.
    Put(Key, Value),
    /// Delete a key (write a tombstone).
    Delete(Key),
}

/// Writes applied together: logged in one WAL sync, then applied in order.
pub struct WriteBatch {
    pub ops: Vec<WriteOP>,
}

/// A write as plain values: the key, and the value or `None` for a delete.
pub open spec fn op_view(op: WriteOP) -> (Seq<u8>, Option<Seq<u8>>) {
    match op {
        WriteOP::Put(k, v) => (k@, Some(v@)),
        WriteOP::Delete(k) => (k@, None),
    }
}

/// The writes of a batch as plain values.
pub open spec fn ops_view(ops: Seq<WriteOP>) -> Seq<(Seq<u8>, Option<Seq<u8>>)> {
    Seq::new(ops.len(), |i: int| op_view(ops[i]))
}

/// The WAL record of a write.
pub open spec fn op_record(op: (Seq<u8>, Option<Seq<u8>>)) -> RecordView {
    match op.1 {
        Some(v) => (RecordType::Put, op.0, Some(v)),
        None => (RecordType::Delete, op.0, None),
    }
}

/// Writes applied one after another to a map.
pub open spec fn apply_ops(m: Map<Seq<u8>, Option<Seq<u8>>>, ops: Seq<(Seq<u8>, Option<Seq<u8>>)>) -> Map<
    Seq<u8>,
    Option<Seq<u8>>,
>
    decreases ops.len(),
{
    if ops.len() == 0 {
        m
    } else {
        apply_ops(m, ops.drop_last()).insert(ops.last().0, ops.last().1)
    }
}

/// The size estimate of a MemTable after writes: each write adds its key and value
/// and takes off the entry it replaces.
pub open spec fn size_after(m: Map<Seq<u8>, Option<Seq<u8>>>, size: nat, ops: Seq<(Seq<u8>, Option<Seq<u8>>)>) -> int
    decreases ops.len(),
{
    if ops.len() == 0 {
        size as int
    } else {
        let before = apply_ops(m, ops.drop_last());
        let op = ops.last();
        size_after(m, size, ops.drop_last()) + op.0.len() + opt_len(op.1) - (if before.contains_key(
            op.0,
        ) {
            op.0.len() + opt_len(before[op.0])
        } else {
            0
        })
    }
}

/// Sum of the key and value lengths of writes.
pub open spec fn ops_bytes(ops: Seq<(Seq<u8>, Option<Seq<u8>>)>) -> nat
    decreases ops.len(),
{
    if ops.len() == 0 {
        0
    } else {
        ops_bytes(ops.drop_last()) + ops.last().0.len() + opt_len(ops.last().1)
    }
}

/// The first layer's answer unless it knows nothing of the key, else the second's.
pub open spec fn first_hit(a: Lookup, b: Lookup) -> Lookup {
    if a is Missing {
        b
    } else {
        a
    }
}

/// A lookup through frozen tables, newest (last) first.
pub open spec fn imms_lookup(ms: Seq<Map<Seq<u8>, Option<Seq<u8>>>>, k: Seq<u8>) -> Lookup
    decreases ms.len(),
{
    if ms.len() == 0 {
        Lookup::Missing
    } else {
        first_hit(map_lookup(ms.last(), k), imms_lookup(ms.drop_last(), k))
    }
}

/// A lookup through tables on disk, newest (last) first.
pub open spec fn ssts_lookup(ts: Seq<SSTable>, k: Seq<u8>) -> Lookup
    decreases ts.len(),
{
    if ts.len() == 0 {
        Lookup::Missing
    } else {
        first_hit(ts.last().lookup(k), ssts_lookup(ts.drop_last(), k))
    }
}

/// The in-memory and on-disk state of the database.
pub struct DbKernel {
    memtable: MemTable,
    imm_memtables: Vec<Arc<MemTable>>,
    sstables: Vec<SSTable>,
    next_file_id: u64,
    mem_table_max_size: usize,
}

impl DbKernel {
    /// The active table, as a map.
    pub closed spec fn active(&self) -> Map<Seq<u8>, Option<Seq<u8>>> {
        self.memtable@
    }

    /// The size estimate of the active table.
    pub closed spec fn active_size(&self) -> nat {
        self.memtable.size()
    }

    /// The id of the active table (and of the WAL file being written).
    pub closed spec fn file_id(&self) -> u64 {
        self.next_file_id
    }

    /// The frozen tables, oldest first, as maps.
    pub closed spec fn frozen(&self) -> Seq<Map<Seq<u8>, Option<Seq<u8>>>> {
        Seq::new(self.imm_memtables@.len(), |i: int| self.imm_memtables@[i]@)
    }

    /// The ids of the frozen tables, oldest first.
    pub closed spec fn frozen_ids(&self) -> Seq<u64> {
        Seq::new(self.imm_memtables@.len(), |i: int| (*self.imm_memtables@[i]).table_id())
    }

    /// The size estimate at which the active table is frozen (the configured
    /// `mem_table_max_size`).
    pub closed spec fn threshold(&self) -> nat {
        self.mem_table_max_size as nat
    }

    /// The tables on disk, oldest first.
    pub closed spec fn tables(&self) -> Seq<SSTable> {
        self.sstables@
    }

    /// Every table well formed, and the active table carries the current file id.
    pub closed spec fn wf(&self) -> bool {
        &&& self.memtable.wf()
        &&& self.memtable.table_id() == self.next_file_id
        &&& forall|i: int| 0 <= i < self.imm_memtables@.len() ==> (*#[trigger] self.imm_memtables@[i]).wf()
        &&& forall|i: int| 0 <= i < self.sstables@.len() ==> (#[trigger] self.sstables@[i]).wf()
    }

    /// What a read of `k` finds: the active table, then the frozen tables newest
    /// first, then the tables on disk newest first.
    pub open spec fn lookup(&self, k: Seq<u8>) -> Lookup {
        first_hit(
            map_lookup(self.active(), k),
            first_hit(imms_lookup(self.frozen(), k), ssts_lookup(self.tables(), k)),
        )
    }

    /// Reads `k` through the layers: a value, or `NotFound` for a tombstone or a
    /// miss everywhere; a table on disk that cannot be read gives `Corruption`.
    pub fn get(&self, k: &Key) -> (r: Result<Value, DbError>)
        requires
            self.wf(),
        ensures
            match r {
                Ok(v) => self.lookup(k@) == Lookup::Found(v@),
                Err(DbError::NotFound) => self.lookup(k@) is Deleted || self.lookup(k@) is Missing,
                Err(DbError::Corruption(_)) => self.lookup(k@) is Failed,
                Err(_) => false,
            },
    {
        match self.memtable.get(k) {
            GetResult::Found(v) => return Ok(v.clone()),
            GetResult::Deleted => return Err(DbError::NotFound),
            _ => {},
        }
        let ghost ms = self.frozen();
        let mut i = self.imm_memtables.len();
        assert(ms.subrange(0, i as int) =~= ms);
        while i > 0
            invariant
                i <= self.imm_memtables@.len(),
                ms == self.frozen(),
                self.wf(),
                map_lookup(self.active(), k@) is Missing,
                imms_lookup(ms, k@) == imms_lookup(ms.subrange(0, i as int), k@),
            decreases i,
        {
            i = i - 1;
            let imm = &self.imm_memtables[i];
            assert(ms[i as int] == (**imm)@);
            assert((**imm).wf());
            let ghost pre = ms.subrange(0, i + 1);
            assert(pre.drop_last() =~= ms.subrange(0, i as int));
            match imm.get(k) {
                GetResult::Found(v) => return Ok(v.clone()),
                GetResult::Deleted => return Err(DbError::NotFound),
                _ => {},
            }
        }
        assert(ms.subrange(0, 0) =~= Seq::<Map<Seq<u8>, Option<Seq<u8>>>>::empty());
        let ghost ts = self.tables();
        let mut j = self.sstables.len();
        assert(ts.subrange(0, j as int) =~= ts);
        while j > 0
            invariant
                j <= self.sstables@.len(),
                ts == self.tables(),
                self.wf(),
                map_lookup(self.active(), k@) is Missing,
                imms_lookup(self.frozen(), k@) is Missing,
                ssts_lookup(ts, k@) == ssts_lookup(ts.subrange(0, j as int), k@),
            decreases j,
        {
            j = j - 1;
            let sst = &self.sstables[j];
            assert(ts[j as int] == *sst);
            assert(sst.wf());
            proof {
                sst.lemma_wf_floor_sorted(k@);
            }
            let ghost pre = ts.subrange(0, j + 1);
            assert(pre.drop_last() =~= ts.subrange(0, j as int));
            match sst.get(k) {
                GetResult::Found(v) => return Ok(v),
                GetResult::Deleted => return Err(DbError::NotFound),
                GetResult::Error(m) => return Err(DbError::Corruption(m)),
                GetResult::NotFound => {},
            }
        }
        assert(ts.subrange(0, 0) =~= Seq::<SSTable>::empty());
        Err(DbError::NotFound)
    }
}


proof fn lemma_ops_prefix_step(ops: Seq<(Seq<u8>, Option<Seq<u8>>)>, i: int)
    requires
        0 <= i < ops.len(),
    ensures
        ops.subrange(0, i + 1).drop_last() == ops.subrange(0, i),
        ops.subrange(0, i + 1).last() == ops[i],
{
    assert(ops.subrange(0, i + 1).drop_last() =~= ops.subrange(0, i));
}

/// `first_hit` is associative.
proof fn lemma_first_hit_assoc(a: Lookup, b: Lookup, c: Lookup)
    ensures
        first_hit(first_hit(a, b), c) == first_hit(a, first_hit(b, c)),
{
}

/// A lookup after writes finds the last write of the key, or what was there before.
pub proof fn lemma_apply_ops_lookup(m: Map<Seq<u8>, Option<Seq<u8>>>, ops: Seq<(Seq<u8>, Option<Seq<u8>>)>, k: Seq<u8>)
    ensures
        map_lookup(apply_ops(m, ops), k) == first_hit(
            map_lookup(apply_ops(Map::empty(), ops), k),
            map_lookup(m, k),
        ),
    decreases ops.len(),
{
    if ops.len() > 0 {
        lemma_apply_ops_lookup(m, ops.drop_last(), k);
    }
}

/// What a read finds after a batch was applied to a kernel that read `before`:
/// the batch's last write of the key, if any, else what was read before.
pub open spec fn read_after_batch(ops: Seq<(Seq<u8>, Option<Seq<u8>>)>, k: Seq<u8>, before: Lookup) -> Lookup {
    first_hit(map_lookup(apply_ops(Map::empty(), ops), k), before)
}

/// The key a write touches.
pub open spec fn op_key(op: WriteOP) -> Seq<u8> {
    match op {
        WriteOP::Put(k, _) => k@,
        WriteOP::Delete(k) => k@,
    }
}

/// What a read finds of a write: the value exactly as given, or the tombstone.
pub open spec fn op_read(op: WriteOP) -> Lookup {
    match op {
        WriteOP::Put(_, v) => Lookup::Found(v@),
        WriteOP::Delete(_) => Lookup::Deleted,
    }
}

/// After a batch, a read of a key that the batch writes finds the batch's last write
/// of it: the value as given (an empty one too) for a put, the tombstone for a
/// delete.
pub proof fn lemma_batch_last_write(ops: Seq<(Seq<u8>, Option<Seq<u8>>)>, k: Seq<u8>, i: int, before: Lookup)
    requires
        0 <= i < ops.len(),
        ops[i].0 == k,
        forall|j: int| i < j < ops.len() ==> ops[j].0 != k,
    ensures
        read_after_batch(ops, k, before) == match ops[i].1 {
            Some(v) => Lookup::Found(v),
            None => Lookup::Deleted,
        },
    decreases ops.len(),
{
    if i < ops.len() - 1 {
        assert(ops.last().0 != k);
        let d = ops.drop_last();
        assert(d[i] == ops[i]);
        assert forall|j: int| i < j < d.len() implies d[j].0 != k by {
            assert(d[j] == ops[j]);
        }
        lemma_batch_last_write(d, k, i, before);
    }
}

/// After a batch, a read of a key that the batch does not write finds what it found
/// before.
pub proof fn lemma_batch_untouched(ops: Seq<(Seq<u8>, Option<Seq<u8>>)>, k: Seq<u8>, before: Lookup)
    requires
        forall|j: int| 0 <= j < ops.len() ==> ops[j].0 != k,
    ensures
        read_after_batch(ops, k, before) == before,
    decreases ops.len(),
{
    if ops.len() > 0 {
        let d = ops.drop_last();
        assert(ops.last().0 != k);
        assert forall|j: int| 0 <= j < d.len() implies d[j].0 != k by {
            assert(d[j] == ops[j]);
        }
        lemma_batch_untouched(d, k, before);
    }
}

/// The reads that a batch leaves, written over the batch's writes themselves.
proof fn lemma_write_reads(after: DbKernel, before: DbKernel, ops: Seq<WriteOP>)
    requires
        forall|k: Seq<u8>| #[trigger] after.lookup(k) == read_after_batch(ops_view(ops), k, before.lookup(k)),
    ensures
        forall|i: int|
            #![trigger ops[i]]
            0 <= i < ops.len() && (forall|j: int| i < j < ops.len() ==> op_key(#[trigger] ops[j]) != op_key(ops[i]))
                ==> after.lookup(op_key(ops[i])) == op_read(ops[i]),
        forall|k: Seq<u8>|
            (forall|j: int| 0 <= j < ops.len() ==> op_key(#[trigger] ops[j]) != k) ==> #[trigger] after.lookup(k)
                == before.lookup(k),
{
    let ov = ops_view(ops);
    assert forall|i: int|
        #![trigger ops[i]]
        0 <= i < ops.len() && (forall|j: int| i < j < ops.len() ==> op_key(#[trigger] ops[j]) != op_key(ops[i]))
            implies after.lookup(op_key(ops[i])) == op_read(ops[i]) by {
        let k = op_key(ops[i]);
        assert forall|j: int| i < j < ov.len() implies ov[j].0 != k by {
            assert(op_key(ops[j]) != k);
        }
        lemma_batch_last_write(ov, k, i, before.lookup(k));
    }
    assert forall|k: Seq<u8>|
        (forall|j: int| 0 <= j < ops.len() ==> op_key(#[trigger] ops[j]) != k) implies #[trigger] after.lookup(k)
            == before.lookup(k) by {
        assert forall|j: int| 0 <= j < ov.len() implies ov[j].0 != k by {
            assert(op_key(ops[j]) != k);
        }
        lemma_batch_untouched(ov, k, before.lookup(k));
    }
}

impl DbKernel {
    /// Applies a batch whose WAL frames are durable: each write in order to the
    /// active table. If the active table's size estimate then reaches the
    /// threshold, it is frozen (appended to the frozen tables) and a new
    /// empty table with the next file id takes its place; that id is returned, and
    /// the caller rotates the WAL to it and hands the frozen table to the flusher.
    pub fn write(&mut self, batch: &WriteBatch) -> (r: Option<u64>)
        requires
            old(self).wf(),
            old(self).active_size() + ops_bytes(ops_view(batch.ops@)) <= usize::MAX,
            size_after(old(self).active(), old(self).active_size(), ops_view(batch.ops@))
                >= old(self).threshold() ==> old(self).file_id() < u64::MAX,
        ensures
            final(self).wf(),
            final(self).tables() == old(self).tables(),
            final(self).threshold() == old(self).threshold(),
            forall|k: Seq<u8>| #[trigger] final(self).lookup(k) == read_after_batch(
                ops_view(batch.ops@),
                k,
                old(self).lookup(k),
            ),
            forall|i: int|
                #![trigger batch.ops@[i]]
                0 <= i < batch.ops@.len() && (forall|j: int|
                    i < j < batch.ops@.len() ==> op_key(#[trigger] batch.ops@[j]) != op_key(batch.ops@[i]))
                    ==> final(self).lookup(op_key(batch.ops@[i])) == op_read(batch.ops@[i]),
            forall|k: Seq<u8>|
                (forall|j: int| 0 <= j < batch.ops@.len() ==> op_key(#[trigger] batch.ops@[j]) != k)
                    ==> #[trigger] final(self).lookup(k) == old(self).lookup(k),
            ({
                let m2 = apply_ops(old(self).active(), ops_view(batch.ops@));
                let sz = size_after(old(self).active(), old(self).active_size(), ops_view(batch.ops@));
                if sz >= old(self).threshold() {
                    &&& r == Some((old(self).file_id() + 1) as u64)
                    &&& final(self).file_id() == old(self).file_id() + 1
                    &&& final(self).active() == Map::<Seq<u8>, Option<Seq<u8>>>::empty()
                    &&& final(self).active_size() == 0
                    &&& final(self).frozen() == old(self).frozen().push(m2)
                    &&& final(self).frozen_ids() == old(self).frozen_ids().push(old(self).file_id())
                } else {
                    &&& r is None
                    &&& final(self).file_id() == old(self).file_id()
                    &&& final(self).active() == m2
                    &&& final(self).active_size() == sz
                    &&& final(self).frozen() == old(self).frozen()
                    &&& final(self).frozen_ids() == old(self).frozen_ids()
                }
            }),
    {
        let ghost ops = ops_view(batch.ops@);
        let ghost m0 = self.memtable@;
        let ghost s0 = self.memtable.size();
        let mut i: usize = 0;
        assert(ops.subrange(0, 0) =~= Seq::<(Seq<u8>, Option<Seq<u8>>)>::empty());
        while i < batch.ops.len()
            invariant
                i <= batch.ops.len(),
                ops == ops_view(batch.ops@),
                s0 + ops_bytes(ops) <= usize::MAX,
                self.memtable.wf(),
                self.memtable.table_id() == self.next_file_id,
                self.next_file_id == old(self).next_file_id,
                self.mem_table_max_size == old(self).mem_table_max_size,
                self.imm_memtables == old(self).imm_memtables,
                self.sstables == old(self).sstables,
                self.memtable@ == apply_ops(m0, ops.subrange(0, i as int)),
                self.memtable.size() == size_after(m0, s0, ops.subrange(0, i as int)),
                self.memtable.size() <= s0 + ops_bytes(ops.subrange(0, i as int)),
            decreases batch.ops.len() - i,
        {
            proof {
                lemma_ops_prefix_step(ops, i as int);
                lemma_ops_bytes_prefix(ops, i + 1);
            }
            match &batch.ops[i] {
                WriteOP::Put(k, v) => {
                    self.memtable.put(k.clone(), Some(v.clone()));
                },
                WriteOP::Delete(k) => {
                    self.memtable.put(k.clone(), None);
                },
            }
            i = i + 1;
        }
        assert(ops.subrange(0, i as int) =~= ops);
        if self.memtable.approx_size() >= self.mem_table_max_size {
            self.next_file_id = self.next_file_id + 1;
            let mut frozen = MemTable::new(self.next_file_id);
            std::mem::swap(&mut self.memtable, &mut frozen);
            let ghost old_imms = self.imm_memtables@;
            self.imm_memtables.push(Arc::new(frozen));
            proof {
                assert(self.frozen() =~= old(self).frozen().push(frozen@));
                assert(self.frozen_ids() =~= old(self).frozen_ids().push(old(self).next_file_id));
                assert forall|j: int| 0 <= j < self.imm_memtables@.len() implies (*#[trigger] self.imm_memtables@[j]).wf() by {
                    if j < old_imms.len() {
                        assert(self.imm_memtables@[j] == old_imms[j]);
                    }
                }
            }
            proof {
                assert forall|k: Seq<u8>| #[trigger] self.lookup(k) == read_after_batch(ops, k, old(self).lookup(k)) by {
                    lemma_apply_ops_lookup(m0, ops, k);
                    let f = self.frozen();
                    assert(f.drop_last() =~= old(self).frozen());
                    lemma_first_hit_assoc(
                        map_lookup(apply_ops(Map::empty(), ops), k),
                        map_lookup(m0, k),
                        first_hit(imms_lookup(old(self).frozen(), k), ssts_lookup(old(self).tables(), k)),
                    );
                    lemma_first_hit_assoc(
                        map_lookup(apply_ops(m0, ops), k),
                        imms_lookup(old(self).frozen(), k),
                        ssts_lookup(old(self).tables(), k),
                    );
                }
                lemma_write_reads(*self, *old(self), batch.ops@);
            }
            Some(self.next_file_id)
        } else {
            proof {
                assert forall|k: Seq<u8>| #[trigger] self.lookup(k) == read_after_batch(ops, k, old(self).lookup(k)) by {
                    lemma_apply_ops_lookup(m0, ops, k);
                    lemma_first_hit_assoc(
                        map_lookup(apply_ops(Map::empty(), ops), k),
                        map_lookup(m0, k),
                        first_hit(imms_lookup(old(self).frozen(), k), ssts_lookup(old(self).tables(), k)),
                    );
                }
                lemma_write_reads(*self, *old(self), batch.ops@);
            }
            None
        }
    }

    /// A batch of one put. A read of the key then finds the value; reads of other
    /// keys find what they found before.
    pub fn put(&mut self, k: Key, v: Value) -> (r: Option<u64>)
        requires
            old(self).wf(),
            old(self).active_size() + k@.len() + v@.len() <= usize::MAX,
            size_after(old(self).active(), old(self).active_size(), seq![(k@, Some(v@))])
                >= old(self).threshold() ==> old(self).file_id() < u64::MAX,
        ensures
            final(self).wf(),
            final(self).tables() == old(self).tables(),
            final(self).threshold() == old(self).threshold(),
            forall|x: Seq<u8>| #[trigger] final(self).lookup(x) == if x == k@ {
                Lookup::Found(v@)
            } else {
                old(self).lookup(x)
            },
            ({
                let m2 = old(self).active().insert(k@, Some(v@));
                let sz = size_after(old(self).active(), old(self).active_size(), seq![(k@, Some(v@))]);
                if sz >= old(self).threshold() {
                    &&& r == Some((old(self).file_id() + 1) as u64)
                    &&& final(self).file_id() == old(self).file_id() + 1
                    &&& final(self).active() == Map::<Seq<u8>, Option<Seq<u8>>>::empty()
                    &&& final(self).frozen() == old(self).frozen().push(m2)
                    &&& final(self).frozen_ids() == old(self).frozen_ids().push(old(self).file_id())
                } else {
                    &&& r is None
                    &&& final(self).file_id() == old(self).file_id()
                    &&& final(self).active() == m2
                    &&& final(self).active_size() == sz
                    &&& final(self).frozen() == old(self).frozen()
                    &&& final(self).frozen_ids() == old(self).frozen_ids()
                }
            }),
    {
        let ghost kv = k@;
        let ghost vv = v@;
        let batch = WriteBatch { ops: vec![WriteOP::Put(k, v)] };
        proof {
            let ops = ops_view(batch.ops@);
            assert(ops =~= seq![(kv, Some(vv))]);
            assert(ops.drop_last() =~= Seq::<(Seq<u8>, Option<Seq<u8>>)>::empty());
            assert(ops_bytes(ops.drop_last()) == 0);
            assert(ops_bytes(ops) == kv.len() + vv.len());
            assert(apply_ops(Map::<Seq<u8>, Option<Seq<u8>>>::empty(), ops.drop_last()) == Map::<Seq<u8>, Option<Seq<u8>>>::empty());
            assert(apply_ops(Map::<Seq<u8>, Option<Seq<u8>>>::empty(), ops) =~= Map::<Seq<u8>, Option<Seq<u8>>>::empty().insert(kv, Some(vv)));
        }
        self.write(&batch)
    }

    /// A batch of one delete. A read of the key then finds the tombstone; reads
    /// of other keys find what they found before.
    pub fn delete(&mut self, k: Key) -> (r: Option<u64>)
        requires
            old(self).wf(),
            old(self).active_size() + k@.len() <= usize::MAX,
            size_after(old(self).active(), old(self).active_size(), seq![(k@, None::<Seq<u8>>)])
                >= old(self).threshold() ==> old(self).file_id() < u64::MAX,
        ensures
            final(self).wf(),
            final(self).tables() == old(self).tables(),
            final(self).threshold() == old(self).threshold(),
            forall|x: Seq<u8>| #[trigger] final(self).lookup(x) == if x == k@ {
                Lookup::Deleted
            } else {
                old(self).lookup(x)
            },
            ({
                let m2 = old(self).active().insert(k@, None);
                let sz = size_after(old(self).active(), old(self).active_size(), seq![(k@, None::<Seq<u8>>)]);
                if sz >= old(self).threshold() {
                    &&& r == Some((old(self).file_id() + 1) as u64)
                    &&& final(self).file_id() == old(self).file_id() + 1
                    &&& final(self).active() == Map::<Seq<u8>, Option<Seq<u8>>>::empty()
                    &&& final(self).frozen() == old(self).frozen().push(m2)
                    &&& final(self).frozen_ids() == old(self).frozen_ids().push(old(self).file_id())
                } else {
                    &&& r is None
                    &&& final(self).file_id() == old(self).file_id()
                    &&& final(self).active() == m2
                    &&& final(self).active_size() == sz
                    &&& final(self).frozen() == old(self).frozen()
                    &&& final(self).frozen_ids() == old(self).frozen_ids()
                }
            }),
    {
        let ghost kv = k@;
        let batch = WriteBatch { ops: vec![WriteOP::Delete(k)] };
        proof {
            let ops = ops_view(batch.ops@);
            assert(ops =~= seq![(kv, None::<Seq<u8>>)]);
            assert(ops.drop_last() =~= Seq::<(Seq<u8>, Option<Seq<u8>>)>::empty());
            assert(ops_bytes(ops.drop_last()) == 0);
            assert(ops_bytes(ops) == kv.len());
            assert(apply_ops(Map::<Seq<u8>, Option<Seq<u8>>>::empty(), ops.drop_last()) == Map::<Seq<u8>, Option<Seq<u8>>>::empty());
            assert(apply_ops(Map::<Seq<u8>, Option<Seq<u8>>>::empty(), ops) =~= Map::<Seq<u8>, Option<Seq<u8>>>::empty().insert(kv, None::<Seq<u8>>));
        }
        self.write(&batch)
    }
}

proof fn lemma_ops_bytes_prefix(ops: Seq<(Seq<u8>, Option<Seq<u8>>)>, i: int)
    requires
        0 <= i <= ops.len(),
    ensures
        ops_bytes(ops.subrange(0, i)) <= ops_bytes(ops),
    decreases ops.len() - i,
{
    if i < ops.len() {
        lemma_ops_prefix_step(ops, i);
        lemma_ops_bytes_prefix(ops, i + 1);
    } else {
        assert(ops.subrange(0, i) =~= ops);
    }
}


/// The value a record leaves under its key: a put's value, or a tombstone.
pub open spec fn value_after(r: RecordView) -> Option<Seq<u8>> {
    match r.0 {
        RecordType::Put => r.2,
        RecordType::Delete => None,
    }
}

/// The table that replaying records in order builds.
pub open spec fn replay_map(rs: Seq<RecordView>) -> Map<Seq<u8>, Option<Seq<u8>>>
    decreases rs.len(),
{
    if rs.len() == 0 {
        Map::empty()
    } else {
        replay_map(rs.drop_last()).insert(rs.last().1, value_after(rs.last()))
    }
}

/// The size estimate of the table that replaying records in order builds: each
/// record adds its key and value lengths and takes off those of the entry it
/// replaces.
pub open spec fn replay_size(rs: Seq<RecordView>) -> int
    decreases rs.len(),
{
    if rs.len() == 0 {
        0
    } else {
        let before = replay_map(rs.drop_last());
        let k = rs.last().1;
        replay_size(rs.drop_last()) + k.len() + opt_len(value_after(rs.last())) - (if before.contains_key(k) {
            k.len() + opt_len(before[k])
        } else {
            0
        })
    }
}

/// The records of WAL files (already parsed), one file after another.
pub open spec fn wal_records(fs: Seq<(u64, Seq<u8>)>) -> Seq<RecordView>
    decreases fs.len(),
{
    if fs.len() == 0 {
        Seq::empty()
    } else {
        wal_records(fs.drop_last()) + wal_parse(fs.last().1).unwrap()
    }
}

/// Replaying two runs of records: a key's last record in the second run wins, else
/// its last record in the first.
pub proof fn lemma_replay_concat(a: Seq<RecordView>, b: Seq<RecordView>, k: Seq<u8>)
    ensures
        map_lookup(replay_map(a + b), k) == first_hit(map_lookup(replay_map(b), k), map_lookup(replay_map(a), k)),
    decreases b.len(),
{
    if b.len() == 0 {
        assert(a + b =~= a);
    } else {
        assert((a + b).drop_last() =~= a + b.drop_last());
        assert((a + b).last() == b.last());
        lemma_replay_concat(a, b.drop_last(), k);
    }
}

/// Reading through tables replayed from files, newest first, is reading the replay
/// of all their records in order.
proof fn lemma_imms_replay(fs: Seq<(u64, Seq<u8>)>, k: Seq<u8>)
    ensures
        imms_lookup(Seq::new(fs.len(), |i: int| replay_map(wal_parse(fs[i].1).unwrap())), k) == map_lookup(
            replay_map(wal_records(fs)),
            k,
        ),
    decreases fs.len(),
{
    let ms = Seq::new(fs.len(), |i: int| replay_map(wal_parse(fs[i].1).unwrap()));
    if fs.len() == 0 {
        assert(replay_map(wal_records(fs)) =~= Map::<Seq<u8>, Option<Seq<u8>>>::empty());
    } else {
        let d = fs.drop_last();
        lemma_imms_replay(d, k);
        assert(ms.drop_last() =~= Seq::new(d.len(), |i: int| replay_map(wal_parse(d[i].1).unwrap())));
        lemma_replay_concat(wal_records(d), wal_parse(fs.last().1).unwrap(), k);
    }
}

/// What a read finds of a WAL record: a put's value exactly as logged (an empty
/// one too); a delete, or a put that carries no value, reads as a tombstone.
pub open spec fn record_read(r: RecordView) -> Lookup {
    match (r.0, r.2) {
        (RecordType::Put, Some(v)) => Lookup::Found(v),
        _ => Lookup::Deleted,
    }
}

/// Replaying records, a read of a key finds the key's last record.
pub proof fn lemma_replay_last_record(rs: Seq<RecordView>, k: Seq<u8>, i: int)
    requires
        0 <= i < rs.len(),
        rs[i].1 == k,
        forall|j: int| i < j < rs.len() ==> rs[j].1 != k,
    ensures
        map_lookup(replay_map(rs), k) == record_read(rs[i]),
    decreases rs.len(),
{
    if i < rs.len() - 1 {
        assert(rs.last().1 != k);
        let d = rs.drop_last();
        assert(d[i] == rs[i]);
        assert forall|j: int| i < j < d.len() implies d[j].1 != k by {
            assert(d[j] == rs[j]);
        }
        lemma_replay_last_record(d, k, i);
    }
}

/// Replaying records, a key that no record names is missing.
pub proof fn lemma_replay_absent(rs: Seq<RecordView>, k: Seq<u8>)
    requires
        forall|j: int| 0 <= j < rs.len() ==> rs[j].1 != k,
    ensures
        map_lookup(replay_map(rs), k) == Lookup::Missing,
    decreases rs.len(),
{
    if rs.len() > 0 {
        let d = rs.drop_last();
        assert(rs.last().1 != k);
        assert forall|j: int| 0 <= j < d.len() implies d[j].1 != k by {
            assert(d[j] == rs[j]);
        }
        lemma_replay_absent(d, k);
    }
}

/// WAL files as plain values: id and contents.
pub open spec fn files_view(fs: Seq<(u64, Vec<u8>)>) -> Seq<(u64, Seq<u8>)> {
    Seq::new(fs.len(), |i: int| (fs[i].0, fs[i].1@))
}

/// Inserts a file after every file whose id is not above its own.
pub open spec fn insert_by_id(s: Seq<(u64, Seq<u8>)>, x: (u64, Seq<u8>)) -> Seq<(u64, Seq<u8>)>
    decreases s.len(),
{
    if s.len() == 0 || s.last().0 <= x.0 {
        s.push(x)
    } else {
        insert_by_id(s.drop_last(), x).push(s.last())
    }
}

/// Files in increasing id order, files with equal ids in the order they were given
/// (a stable sort by id).
pub open spec fn sort_by_id(fs: Seq<(u64, Seq<u8>)>) -> Seq<(u64, Seq<u8>)>
    decreases fs.len(),
{
    if fs.len() == 0 {
        Seq::empty()
    } else {
        insert_by_id(sort_by_id(fs.drop_last()), fs.last())
    }
}

/// Ids in non-decreasing order.
pub open spec fn ids_sorted(s: Seq<(u64, Seq<u8>)>) -> bool {
    forall|i: int, j: int| 0 <= i <= j < s.len() ==> (#[trigger] s[i]).0 <= (#[trigger] s[j]).0
}

proof fn lemma_insert_by_id_at(s: Seq<(u64, Seq<u8>)>, x: (u64, Seq<u8>), j: int)
    requires
        0 <= j <= s.len(),
        forall|t: int| j <= t < s.len() ==> (#[trigger] s[t]).0 > x.0,
        j == 0 || s[j - 1].0 <= x.0,
    ensures
        insert_by_id(s, x) == s.insert(j, x),
    decreases s.len() - j,
{
    if j == s.len() {
        assert(s.insert(j, x) =~= s.push(x));
    } else {
        let d = s.drop_last();
        assert forall|t: int| j <= t < d.len() implies (#[trigger] d[t]).0 > x.0 by {
            assert(d[t] == s[t]);
        }
        lemma_insert_by_id_at(d, x, j);
        assert(s.insert(j, x) =~= d.insert(j, x).push(s.last()));
    }
}

/// Inserting by id keeps ids sorted.
proof fn lemma_insert_by_id_sorted(s: Seq<(u64, Seq<u8>)>, x: (u64, Seq<u8>))
    requires
        ids_sorted(s),
    ensures
        ids_sorted(insert_by_id(s, x)),
        insert_by_id(s, x).len() == s.len() + 1,
        forall|i: int| 0 <= i < insert_by_id(s, x).len() ==> (#[trigger] insert_by_id(s, x)[i]).0 <= (
        if s.len() == 0 || s.last().0 <= x.0 {
            x.0
        } else {
            s.last().0
        }),
    decreases s.len(),
{
    if s.len() == 0 || s.last().0 <= x.0 {
    } else {
        let d = s.drop_last();
        assert(ids_sorted(d));
        lemma_insert_by_id_sorted(d, x);
    }
}

/// The files sorted by id are in non-decreasing id order.
pub proof fn lemma_sort_by_id_sorted(fs: Seq<(u64, Seq<u8>)>)
    ensures
        ids_sorted(sort_by_id(fs)),
        sort_by_id(fs).len() == fs.len(),
    decreases fs.len(),
{
    if fs.len() > 0 {
        lemma_sort_by_id_sorted(fs.drop_last());
        lemma_insert_by_id_sorted(sort_by_id(fs.drop_last()), fs.last());
    }
}

/// Inserting a file by id adds it to the files, whatever their order.
proof fn lemma_insert_by_id_multiset(s: Seq<(u64, Seq<u8>)>, x: (u64, Seq<u8>))
    ensures
        insert_by_id(s, x).to_multiset() == s.to_multiset().insert(x),
    decreases s.len(),
{
    broadcast use vstd::seq_lib::group_to_multiset_ensures;
    broadcast use vstd::multiset::group_multiset_axioms;

    if s.len() == 0 || s.last().0 <= x.0 {
    } else {
        let d = s.drop_last();
        lemma_insert_by_id_multiset(d, x);
        assert(s =~= d.push(s.last()));
        assert(insert_by_id(s, x).to_multiset() =~= s.to_multiset().insert(x));
    }
}

/// Sorting WAL files by id keeps every file (as many times as it was given) and
/// puts them in non-decreasing id order: with distinct ids, it is the files in
/// increasing id order.
pub proof fn lemma_sort_by_id_permutes(fs: Seq<(u64, Seq<u8>)>)
    ensures
        sort_by_id(fs).to_multiset() == fs.to_multiset(),
        ids_sorted(sort_by_id(fs)),
        sort_by_id(fs).len() == fs.len(),
    decreases fs.len(),
{
    broadcast use vstd::seq_lib::group_to_multiset_ensures;

    lemma_sort_by_id_sorted(fs);
    if fs.len() > 0 {
        let d = fs.drop_last();
        lemma_sort_by_id_permutes(d);
        lemma_insert_by_id_multiset(sort_by_id(d), fs.last());
        assert(fs =~= d.push(fs.last()));
    } else {
        assert(fs.to_multiset() =~= sort_by_id(fs).to_multiset());
    }
}

/// Sorts WAL files by id, keeping files with equal ids in the order they were given.
fn sort_wal_files(files: Vec<(u64, Vec<u8>)>) -> (r: Vec<(u64, Vec<u8>)>)
    ensures
        files_view(r@) == sort_by_id(files_view(files@)),
{
    let ghost fv = files_view(files@);
    let ghost n = files@.len();
    let mut input = files;
    let mut out: Vec<(u64, Vec<u8>)> = Vec::new();
    assert(fv.subrange(0, 0) =~= Seq::<(u64, Seq<u8>)>::empty());
    assert(files_view(out@) =~= Seq::<(u64, Seq<u8>)>::empty());
    while input.len() > 0
        invariant
            input@.len() <= n,
            fv == files_view(files@),
            n == files@.len(),
            files_view(input@) == fv.subrange(n - input@.len(), n as int),
            files_view(out@) == sort_by_id(fv.subrange(0, n - input@.len())),
        decreases input.len(),
    {
        let ghost i = n - input@.len();
        let ghost old_in = files_view(input@);
        let x = input.remove(0);
        let ghost xv = (x.0, x.1@);
        assert(old_in[0] == xv);
        assert(files_view(input@) =~= old_in.skip(1));
        let ghost ov = files_view(out@);
        let mut j = out.len();
        while j > 0 && out[j - 1].0 > x.0
            invariant
                j <= out@.len(),
                ov == files_view(out@),
                forall|t: int| j <= t < ov.len() ==> (#[trigger] ov[t]).0 > x.0,
            decreases j,
        {
            j = j - 1;
        }
        proof {
            lemma_insert_by_id_at(ov, xv, j as int);
        }
        out.insert(j, x);
        proof {
            assert(files_view(out@) =~= ov.insert(j as int, xv));
            let pre = fv.subrange(0, i + 1);
            assert(pre.drop_last() =~= fv.subrange(0, i));
            assert(pre.last() == xv);
            assert(fv.subrange(n - input@.len(), n as int) =~= old_in.skip(1));
        }
    }
    assert(fv.subrange(0, n as int) =~= fv);
    out
}

proof fn lemma_records_bytes_prefix(rs: Seq<RecordView>, i: int)
    requires
        0 <= i <= rs.len(),
    ensures
        records_bytes(rs.subrange(0, i)) <= records_bytes(rs),
    decreases rs.len() - i,
{
    if i < rs.len() {
        assert(rs.subrange(0, i + 1).drop_last() =~= rs.subrange(0, i));
        lemma_records_bytes_prefix(rs, i + 1);
    } else {
        assert(rs.subrange(0, i) =~= rs);
    }
}

/// Replays WAL records into a new table with the given id.
fn replay(id: u64, records: &Vec<LogRecord>) -> (m: MemTable)
    requires
        records_bytes(records_view(records@)) <= usize::MAX,
    ensures
        m.wf(),
        m.table_id() == id,
        m@ == replay_map(records_view(records@)),
        m.size() == replay_size(records_view(records@)),
{
    let ghost rv = records_view(records@);
    let mut memtable = MemTable::new(id);
    let mut i: usize = 0;
    assert(rv.subrange(0, 0) =~= Seq::<RecordView>::empty());
    while i < records.len()
        invariant
            i <= records.len(),
            rv == records_view(records@),
            records_bytes(rv) <= usize::MAX,
            memtable.wf(),
            memtable.table_id() == id,
            memtable@ == replay_map(rv.subrange(0, i as int)),
            memtable.size() == replay_size(rv.subrange(0, i as int)),
            memtable.size() <= records_bytes(rv.subrange(0, i as int)),
        decreases records.len() - i,
    {
        proof {
            let pre = rv.subrange(0, i + 1);
            assert(pre.drop_last() =~= rv.subrange(0, i as int));
            assert(pre.last() == rv[i as int]);
            lemma_records_bytes_prefix(rv, i + 1);
        }
        let rec = &records[i];
        match rec.r_type {
            RecordType::Put => {
                memtable.put(rec.key.clone(), clone_opt_value(&rec.value));
            },
            RecordType::Delete => {
                let _ = memtable.delete(&rec.key);
            },
        }
        i = i + 1;
    }
    assert(rv.subrange(0, i as int) =~= rv);
    memtable
}

/// The reads of a recovered state, written over the replayed records themselves.
proof fn lemma_recovered_reads(k: DbKernel, rs: Seq<RecordView>)
    requires
        forall|key: Seq<u8>| #[trigger] k.lookup(key) == map_lookup(replay_map(rs), key),
    ensures
        forall|i: int|
            #![trigger rs[i]]
            0 <= i < rs.len() && (forall|j: int| i < j < rs.len() ==> (#[trigger] rs[j]).1 != rs[i].1)
                ==> k.lookup(rs[i].1) == record_read(rs[i]),
        forall|key: Seq<u8>|
            (forall|j: int| 0 <= j < rs.len() ==> (#[trigger] rs[j]).1 != key) ==> #[trigger] k.lookup(key)
                == Lookup::Missing,
{
    assert forall|i: int|
        #![trigger rs[i]]
        0 <= i < rs.len() && (forall|j: int| i < j < rs.len() ==> (#[trigger] rs[j]).1 != rs[i].1)
            implies k.lookup(rs[i].1) == record_read(rs[i]) by {
        lemma_replay_last_record(rs, rs[i].1, i);
    }
    assert forall|key: Seq<u8>|
        (forall|j: int| 0 <= j < rs.len() ==> (#[trigger] rs[j]).1 != key) implies #[trigger] k.lookup(key)
            == Lookup::Missing by {
        lemma_replay_absent(rs, key);
    }
}

impl DbKernel {
    /// Recovers the state from the WAL files found at startup (id and contents of
    /// each): the files are sorted by id and each is replayed into a table with its
    /// id; the last one becomes the active table (and its id the current file id),
    /// the others are frozen, waiting to be flushed. With no file, the state is an
    /// empty table with id 0. A file holding a frame that does not decode is
    /// `Corruption`. The active table is frozen once its size estimate reaches
    /// `mem_table_max_size`.
    ///
    /// Every read of the recovered state finds what replaying all the files' records,
    /// in id order, leaves under the key (the last write wins).
    pub fn new(wal_files: Vec<(u64, Vec<u8>)>, mem_table_max_size: usize) -> (r: Result<DbKernel, DbError>)
        ensures
            ({
                let sorted = sort_by_id(files_view(wal_files@));
                let n = sorted.len();
                match r {
                    Err(e) => e is Corruption && exists|i: int| 0 <= i < n && #[trigger] wal_parse(sorted[i].1) is None,
                    Ok(k) => {
                        &&& k.wf()
                        &&& k.tables().len() == 0
                        &&& k.threshold() == mem_table_max_size
                        &&& forall|i: int| 0 <= i < n ==> #[trigger] wal_parse(sorted[i].1) is Some
                        &&& forall|key: Seq<u8>| #[trigger] k.lookup(key) == map_lookup(replay_map(wal_records(sorted)), key)
                        &&& forall|i: int|
                            #![trigger wal_records(sorted)[i]]
                            0 <= i < wal_records(sorted).len() && (forall|j: int|
                                i < j < wal_records(sorted).len() ==> (#[trigger] wal_records(sorted)[j]).1
                                    != wal_records(sorted)[i].1) ==> k.lookup(wal_records(sorted)[i].1)
                                == record_read(wal_records(sorted)[i])
                        &&& forall|key: Seq<u8>|
                            (forall|j: int| 0 <= j < wal_records(sorted).len() ==> (#[trigger] wal_records(sorted)[j]).1
                                != key) ==> #[trigger] k.lookup(key) == Lookup::Missing
                        &&& if n == 0 {
                            &&& k.active() == Map::<Seq<u8>, Option<Seq<u8>>>::empty()
                            &&& k.active_size() == 0
                            &&& k.file_id() == 0
                            &&& k.frozen().len() == 0
                        } else {
                            &&& k.file_id() == sorted[n - 1].0
                            &&& k.active() == replay_map(wal_parse(sorted[n - 1].1).unwrap())
                            &&& k.active_size() == replay_size(wal_parse(sorted[n - 1].1).unwrap())
                            &&& k.frozen() == Seq::new((n - 1) as nat, |i: int| replay_map(wal_parse(sorted[i].1).unwrap()))
                            &&& k.frozen_ids() == Seq::new((n - 1) as nat, |i: int| sorted[i].0)
                        }
                    },
                }
            }),
    {
        let sorted = sort_wal_files(wal_files);
        let ghost sv = files_view(sorted@);
        let n = sorted.len();
        if n == 0 {
            let k = DbKernel {
                memtable: MemTable::new(0),
                imm_memtables: Vec::new(),
                sstables: Vec::new(),
                next_file_id: 0,
                mem_table_max_size,
            };
            assert(k.frozen() =~= Seq::<Map<Seq<u8>, Option<Seq<u8>>>>::empty());
            assert(replay_map(wal_records(sv)) =~= Map::<Seq<u8>, Option<Seq<u8>>>::empty());
            proof {
                lemma_recovered_reads(k, wal_records(sv));
            }
            return Ok(k);
        }
        let mut imms: Vec<Arc<MemTable>> = Vec::new();
        let mut i: usize = 0;
        while i < n - 1
            invariant
                n == sorted@.len(),
                n > 0,
                sv == files_view(sorted@),
                sv == sort_by_id(files_view(wal_files@)),
                i <= n - 1,
                imms@.len() == i,
                forall|t: int| 0 <= t < i ==> (*#[trigger] imms@[t]).wf(),
                forall|t: int| 0 <= t < i ==> #[trigger] wal_parse(sv[t].1) is Some,
                forall|t: int|
                    0 <= t < i ==> (*#[trigger] imms@[t])@ == replay_map(wal_parse(sv[t].1).unwrap())
                        && (*imms@[t]).table_id() == sv[t].0,
            decreases n - 1 - i,
        {
            let bytes = sorted[i].1.as_slice();
            let _blen = bytes.len();
            assert(sv[i as int].1 == bytes@);
            let records = match read_all_records(bytes) {
                Ok(r) => r,
                Err(e) => {
                    assert(wal_parse(sv[i as int].1) is None);
                    return Err(e);
                },
            };
            proof {
                lemma_wal_parse_bytes(bytes@);
            }
            let m = replay(sorted[i].0, &records);
            let ghost old_imms = imms@;
            imms.push(Arc::new(m));
            proof {
                assert forall|t: int| 0 <= t < i + 1 implies (*#[trigger] imms@[t]).wf() by {
                    if t < i {
                        assert(imms@[t] == old_imms[t]);
                    }
                }
                assert forall|t: int|
                    0 <= t < i + 1 implies (*#[trigger] imms@[t])@ == replay_map(wal_parse(sv[t].1).unwrap())
                    && (*imms@[t]).table_id() == sv[t].0 by {
                    if t < i {
                        assert(imms@[t] == old_imms[t]);
                    }
                }
            }
            i = i + 1;
        }
        let last = n - 1;
        let bytes = sorted[last].1.as_slice();
        let _blen = bytes.len();
        assert(sv[last as int].1 == bytes@);
        let records = match read_all_records(bytes) {
            Ok(r) => r,
            Err(e) => return Err(e),
        };
        proof {
            lemma_wal_parse_bytes(bytes@);
        }
        let memtable = replay(sorted[last].0, &records);
        let k = DbKernel {
            memtable,
            imm_memtables: imms,
            sstables: Vec::new(),
            next_file_id: sorted[last].0,
            mem_table_max_size,
        };
        proof {
            assert(k.frozen() =~= Seq::new((n - 1) as nat, |t: int| replay_map(wal_parse(sv[t].1).unwrap())));
            assert(k.frozen_ids() =~= Seq::new((n - 1) as nat, |t: int| sv[t].0));
            assert forall|t: int| 0 <= t < n implies #[trigger] wal_parse(sv[t].1) is Some by {
            }
            let d = sv.drop_last();
            assert(k.frozen() =~= Seq::new(d.len(), |t: int| replay_map(wal_parse(d[t].1).unwrap())));
            assert forall|key: Seq<u8>| #[trigger] k.lookup(key) == map_lookup(replay_map(wal_records(sv)), key) by {
                lemma_imms_replay(d, key);
                lemma_replay_concat(wal_records(d), wal_parse(sv.last().1).unwrap(), key);
                assert(ssts_lookup(k.tables(), key) == Lookup::Missing);
            }
            lemma_recovered_reads(k, wal_records(sv));
        }
        Ok(k)
    }
}


/// The WAL records of writes.
pub open spec fn batch_records(ops: Seq<(Seq<u8>, Option<Seq<u8>>)>) -> Seq<RecordView> {
    Seq::new(ops.len(), |i: int| op_record(ops[i]))
}

/// Frames of records written one after another.
pub proof fn lemma_frames_push(rs: Seq<RecordView>, r: RecordView)
    ensures
        frames(rs.push(r)) == frames(rs) + record_frame(r),
    decreases rs.len(),
{
    if rs.len() == 0 {
        assert(rs.push(r).skip(1) =~= Seq::<RecordView>::empty());
        assert(frames(rs.push(r).skip(1)) == Seq::<u8>::empty());
        assert(frames(rs) == Seq::<u8>::empty());
        assert(frames(rs.push(r)) =~= record_frame(r));
    } else {
        assert(rs.push(r).skip(1) =~= rs.skip(1).push(r));
        lemma_frames_push(rs.skip(1), r);
        assert(frames(rs.push(r)) =~= frames(rs) + record_frame(r));
    }
}

/// Frames of two runs of records, one after the other.
pub proof fn lemma_frames_concat(a: Seq<RecordView>, b: Seq<RecordView>)
    ensures
        frames(a + b) == frames(a) + frames(b),
    decreases b.len(),
{
    if b.len() == 0 {
        assert(a + b =~= a);
        assert(frames(a) + frames(b) =~= frames(a));
    } else {
        assert(a + b =~= (a + b.drop_last()).push(b.last()));
        assert(b =~= b.drop_last().push(b.last()));
        lemma_frames_concat(a, b.drop_last());
        lemma_frames_push(a + b.drop_last(), b.last());
        lemma_frames_push(b.drop_last(), b.last());
    }
}

/// Whether a group commit holding `count` writes of `bytes` key and value bytes may
/// take another queued write: fewer than `max_count` writes and fewer than
/// `max_bytes` bytes so far.
pub fn batch_has_room(count: usize, bytes: usize, max_count: usize, max_bytes: usize) -> (r: bool)
    ensures
        r == (count < max_count && bytes < max_bytes),
{
    count < max_count && bytes < max_bytes
}

/// The WAL bytes of a batch: the frame of each write's record, in order.
pub fn encode_batch(batch: &WriteBatch) -> (r: Result<Vec<u8>, DbError>)
    ensures
        match r {
            Ok(b) => b@ == frames(batch_records(ops_view(batch.ops@))),
            Err(_) => false,
        },
{
    let ghost rs = batch_records(ops_view(batch.ops@));
    let mut out: Vec<u8> = Vec::new();
    let mut i: usize = 0;
    assert(rs.subrange(0, 0) =~= Seq::<RecordView>::empty());
    while i < batch.ops.len()
        invariant
            i <= batch.ops.len(),
            rs == batch_records(ops_view(batch.ops@)),
            out@ == frames(rs.subrange(0, i as int)),
        decreases batch.ops.len() - i,
    {
        let record = match &batch.ops[i] {
            WriteOP::Put(k, v) => LogRecord { r_type: RecordType::Put, key: k.clone(), value: Some(v.clone()) },
            WriteOP::Delete(k) => LogRecord { r_type: RecordType::Delete, key: k.clone(), value: None },
        };
        assert(crate::model::record_view(record) == rs[i as int]);
        let bytes = match encode_record(&record) {
            Ok(b) => b,
            Err(e) => return Err(e),
        };
        crate::sstable_builder::append_bytes(&mut out, &bytes);
        proof {
            assert(rs.subrange(0, i + 1) =~= rs.subrange(0, i as int).push(rs[i as int]));
            lemma_frames_push(rs.subrange(0, i as int), rs[i as int]);
        }
        i = i + 1;
    }
    assert(rs.subrange(0, i as int) =~= rs);
    Ok(out)
}

/// Replaying the records that writes were logged as rebuilds the table those
/// writes built.
pub proof fn lemma_replay_batch(ops: Seq<(Seq<u8>, Option<Seq<u8>>)>)
    ensures
        replay_map(batch_records(ops)) == apply_ops(Map::empty(), ops),
    decreases ops.len(),
{
    if ops.len() > 0 {
        lemma_replay_batch(ops.drop_last());
        assert(batch_records(ops).drop_last() =~= batch_records(ops.drop_last()));
    }
}

/// Crash recovery: the WAL bytes of a run of writes, even with the frame of one
/// more record torn off by a crash, read back as the records of those writes, and
/// replaying them rebuilds the table the writes built.
pub proof fn lemma_recover_writes(ops: Seq<(Seq<u8>, Option<Seq<u8>>)>, torn: RecordView, cut: nat)
    requires
        forall|i: int| 0 <= i < ops.len() ==> crate::wal::frame_fits(#[trigger] op_record(ops[i])),
        crate::wal::frame_fits(torn),
        cut < record_frame(torn).len(),
    ensures
        wal_parse(frames(batch_records(ops))) == Some(batch_records(ops)),
        wal_parse(frames(batch_records(ops)) + record_frame(torn).subrange(0, cut as int)) == Some(
            batch_records(ops),
        ),
        replay_map(batch_records(ops)) == apply_ops(Map::empty(), ops),
{
    let rs = batch_records(ops);
    assert forall|i: int| 0 <= i < rs.len() implies crate::wal::frame_fits(#[trigger] rs[i]) by {
        assert(rs[i] == op_record(ops[i]));
    }
    crate::wal::lemma_wal_roundtrip(rs, torn, cut);
    lemma_replay_batch(ops);
}

/// Looking up through frozen tables: the newer ones first, the oldest last.
proof fn lemma_imms_lookup_oldest(ms: Seq<Map<Seq<u8>, Option<Seq<u8>>>>, k: Seq<u8>)
    requires
        ms.len() > 0,
    ensures
        imms_lookup(ms, k) == first_hit(imms_lookup(ms.skip(1), k), map_lookup(ms[0], k)),
    decreases ms.len(),
{
    if ms.len() == 1 {
        assert(ms.skip(1) =~= Seq::<Map<Seq<u8>, Option<Seq<u8>>>>::empty());
        assert(ms.drop_last() =~= Seq::<Map<Seq<u8>, Option<Seq<u8>>>>::empty());
    } else {
        lemma_imms_lookup_oldest(ms.drop_last(), k);
        assert(ms.drop_last().skip(1) =~= ms.skip(1).drop_last());
        assert(ms.skip(1).last() == ms.last());
        lemma_first_hit_assoc(
            map_lookup(ms.last(), k),
            imms_lookup(ms.skip(1).drop_last(), k),
            map_lookup(ms[0], k),
        );
    }
}

impl DbKernel {
    /// Takes in the result of a background flush of the oldest frozen table: the
    /// table built from it joins the tables on disk as the newest one, and the
    /// oldest frozen table is dropped.
    ///
    /// When the new table reads as the frozen table it was built from, every read
    /// finds what it found before.
    pub fn install_flush_result(&mut self, memtable_id: u64, sstable: SSTable)
        requires
            old(self).wf(),
            sstable.wf(),
            old(self).frozen_ids().len() > 0,
            old(self).frozen_ids()[0] == memtable_id,
        ensures
            final(self).wf(),
            final(self).active() == old(self).active(),
            final(self).active_size() == old(self).active_size(),
            final(self).file_id() == old(self).file_id(),
            final(self).threshold() == old(self).threshold(),
            final(self).frozen() == old(self).frozen().skip(1),
            final(self).frozen_ids() == old(self).frozen_ids().skip(1),
            final(self).tables() == old(self).tables().push(sstable),
            (forall|k: Seq<u8>| #[trigger] sstable.lookup(k) == map_lookup(old(self).frozen()[0], k))
                ==> forall|k: Seq<u8>| #[trigger] final(self).lookup(k) == old(self).lookup(k),
    {
        let ghost t = sstable;
        let ghost old_tables = self.sstables@;
        let ghost old_imms = self.imm_memtables@;
        self.sstables.push(sstable);
        assert forall|i: int| 0 <= i < self.sstables@.len() implies (#[trigger] self.sstables@[i]).wf() by {
            if i < old_tables.len() {
                assert(self.sstables@[i] == old_tables[i]);
            }
        }
        let _flushed = self.imm_memtables.remove(0);
        proof {
            assert(self.imm_memtables@ =~= old_imms.skip(1));
            assert forall|i: int| 0 <= i < self.imm_memtables@.len() implies (*#[trigger] self.imm_memtables@[i]).wf() by {
                assert(self.imm_memtables@[i] == old_imms[i + 1]);
            }
            assert(self.frozen() =~= old(self).frozen().skip(1));
            assert(self.frozen_ids() =~= old(self).frozen_ids().skip(1));
            if forall|k: Seq<u8>| #[trigger] t.lookup(k) == map_lookup(old(self).frozen()[0], k) {
                assert forall|k: Seq<u8>| #[trigger] self.lookup(k) == old(self).lookup(k) by {
                    let of = old(self).frozen();
                    lemma_imms_lookup_oldest(of, k);
                    assert(self.tables().drop_last() =~= old(self).tables());
                    assert(t.lookup(k) == map_lookup(of[0], k));
                    lemma_first_hit_assoc(
                        imms_lookup(of.skip(1), k),
                        map_lookup(of[0], k),
                        ssts_lookup(old(self).tables(), k),
                    );
                }
            }
        }
    }

    /// Of the finished flushes (by MemTable id, in the order they finished), the one
    /// to install next: the first that flushed the oldest frozen table. `None` when no
    /// table is frozen or the oldest one's flush has not finished; a newer table's
    /// flush waits, since installing it first would let the older frozen table shadow
    /// it.
    pub fn next_flush_to_install(&self, finished: &Vec<u64>) -> (r: Option<usize>)
        ensures
            match r {
                Some(i) => {
                    &&& self.frozen_ids().len() > 0
                    &&& i < finished@.len()
                    &&& finished@[i as int] == self.frozen_ids()[0]
                    &&& forall|j: int| 0 <= j < i ==> finished@[j] != self.frozen_ids()[0]
                },
                None => self.frozen_ids().len() == 0 || forall|j: int|
                    0 <= j < finished@.len() ==> finished@[j] != self.frozen_ids()[0],
            },
    {
        if self.imm_memtables.len() == 0 {
            return None;
        }
        let oldest = self.imm_memtables[0].id();
        assert(oldest == self.frozen_ids()[0]);
        let mut i: usize = 0;
        while i < finished.len()
            invariant
                i <= finished@.len(),
                self.frozen_ids().len() > 0,
                oldest == self.frozen_ids()[0],
                forall|j: int| 0 <= j < i ==> finished@[j] != oldest,
            decreases finished.len() - i,
        {
            if finished[i] == oldest {
                return Some(i);
            }
            i = i + 1;
        }
        None
    }

    /// The frozen tables, oldest first, for handing them to the flusher.
    pub fn imm_memtables(&self) -> (r: &Vec<Arc<MemTable>>)
        ensures
            Seq::new(r@.len(), |i: int| r@[i]@) == self.frozen(),
            Seq::new(r@.len(), |i: int| (*r@[i]).table_id()) == self.frozen_ids(),
    {
        &self.imm_memtables
    }

    /// The id of the active table, which is the id of the WAL file being written.
    pub fn next_file_id(&self) -> (r: u64)
        ensures
            r == self.file_id(),
    {
        self.next_file_id
    }

    /// The size estimate of the active table.
    pub fn memtable_size(&self) -> (r: usize)
        ensures
            r == self.active_size(),
    {
        self.memtable.approx_size()
    }
}

} // verus!
