//! The in-memory write buffer: an ordered table from keys to values or tombstones,
//! with a running estimate of its size in bytes.

use vstd::prelude::*;

use crate::error::DbError;
use crate::model::{opt_bytes, opt_len, opt_value_len, ref_lookup_of, GetResult, Key, Lookup, Value};
use crate::sorted::{
    distinct_keys, key_seq, keys_of, lemma_pairs_map_absent, lemma_pairs_map_at,
    lemma_pairs_map_insert, lemma_pairs_map_len, lemma_pairs_map_update,
    lemma_sorted_pairs_distinct, lemma_splits_absent, pairs_map, search, sorted_pairs, upsert,
};

verus! {

/// The default size in bytes at which the active MemTable is frozen and flushed
/// (the default `mem_table_max_size`).
pub const MEM_TABLE_MAX_SIZE: usize = 4194304;

/// Bytes an entry counts for: its key and, unless it is a tombstone, its value.
pub open spec fn entry_size(e: (Seq<u8>, Option<Seq<u8>>)) -> nat {
    e.0.len() + opt_len(e.1)
}

/// Bytes that a sequence of entries counts for.
pub open spec fn total_size(s: Seq<(Seq<u8>, Option<Seq<u8>>)>) -> nat
    decreases s.len(),
{
    if s.len() == 0 {
        0
    } else {
        total_size(s.drop_last()) + entry_size(s.last())
    }
}

/// Replacing one entry changes the total by the difference of the two entries.
pub proof fn lemma_total_size_update(s: Seq<(Seq<u8>, Option<Seq<u8>>)>, i: int, e: (Seq<u8>, Option<Seq<u8>>))
    requires
        0 <= i < s.len(),
    ensures
        total_size(s.update(i, e)) + entry_size(s[i]) == total_size(s) + entry_size(e),
    decreases s.len(),
{
    let t = s.update(i, e);
    if i == s.len() - 1 {
        assert(t.drop_last() =~= s.drop_last());
    } else {
        assert(t.drop_last() =~= s.drop_last().update(i, e));
        lemma_total_size_update(s.drop_last(), i, e);
    }
}

/// Inserting an entry adds its size to the total.
pub proof fn lemma_total_size_insert(s: Seq<(Seq<u8>, Option<Seq<u8>>)>, i: int, e: (Seq<u8>, Option<Seq<u8>>))
    requires
        0 <= i <= s.len(),
    ensures
        total_size(s.insert(i, e)) == total_size(s) + entry_size(e),
    decreases s.len(),
{
    let t = s.insert(i, e);
    if i == s.len() {
        assert(t.drop_last() =~= s);
    } else {
        assert(t.drop_last() =~= s.drop_last().insert(i, e));
        lemma_total_size_insert(s.drop_last(), i, e);
    }
}

/// Entries of a table as plain values: key bytes and value bytes, `None` for a tombstone.
pub open spec fn contents_of(e: Seq<(Vec<u8>, Option<Vec<u8>>)>) -> Seq<(Seq<u8>, Option<Seq<u8>>)> {
    Seq::new(e.len(), |i: int| (e[i].0@, opt_bytes(e[i].1)))
}

/// What a lookup in a map from keys to values-or-tombstones finds.
pub open spec fn map_lookup(m: Map<Seq<u8>, Option<Seq<u8>>>, k: Seq<u8>) -> Lookup {
    if m.contains_key(k) {
        match m[k] {
            Some(v) => Lookup::Found(v),
            None => Lookup::Deleted,
        }
    } else {
        Lookup::Missing
    }
}

/// The in-memory table. Its entries are kept in strictly increasing key order;
/// `approx_size` is the sum of the key and value lengths of its entries.
pub struct MemTable {
    id: u64,
    entries: Vec<(Key, Option<Value>)>,
    approx_size: usize,
}

impl View for MemTable {
    type V = Map<Seq<u8>, Option<Seq<u8>>>;

    /// The table as a map from keys to values, `None` standing for a tombstone.
    open spec fn view(&self) -> Map<Seq<u8>, Option<Seq<u8>>> {
        pairs_map(self.contents())
    }
}

impl MemTable {
    /// The entries, in key order, as plain values.
    pub closed spec fn contents(&self) -> Seq<(Seq<u8>, Option<Seq<u8>>)> {
        contents_of(self.entries@)
    }

    /// The id of the table, which is also the id of its WAL file.
    pub closed spec fn table_id(&self) -> u64 {
        self.id
    }

    /// The size estimate the table carries.
    pub closed spec fn size(&self) -> nat {
        self.approx_size as nat
    }

    /// Entries sorted by key, and the size estimate exact.
    pub closed spec fn wf(&self) -> bool {
        &&& sorted_pairs(self.contents())
        &&& self.approx_size == total_size(self.contents())
    }

    /// What a well-formed table promises about its entries.
    pub proof fn lemma_wf(&self)
        requires
            self.wf(),
        ensures
            sorted_pairs(self.contents()),
            distinct_keys(self.contents()),
            self.size() == total_size(self.contents()),
            self@ == pairs_map(self.contents()),
    {
        lemma_sorted_pairs_distinct(self.contents());
    }

    /// The number of entries, and the length of every key and value, fit in 64 bits.
    pub proof fn lemma_lengths_fit(&self)
        ensures
            self.contents().len() < 0x1_0000_0000_0000_0000,
            forall|i: int|
                0 <= i < self.contents().len() ==> (#[trigger] self.contents()[i]).0.len() < 0x1_0000_0000_0000_0000
                    && match self.contents()[i].1 {
                    Some(v) => v.len() < 0x1_0000_0000_0000_0000,
                    None => true,
                },
    {
        assert(self.entries.len() == self.entries@.len());
        assert forall|i: int| 0 <= i < self.contents().len() implies (#[trigger] self.contents()[i]).0.len()
            < 0x1_0000_0000_0000_0000 && match self.contents()[i].1 {
            Some(v) => v.len() < 0x1_0000_0000_0000_0000,
            None => true,
        } by {
            let e = self.entries@[i];
            assert(e.0.len() == e.0@.len());
            match e.1 {
                Some(v) => {
                    assert(v.len() == v@.len());
                },
                None => {},
            }
        }
    }

    proof fn lemma_keys(&self)
        ensures
            key_seq(self.entries@) == keys_of(self.contents()),
    {
        assert(key_seq(self.entries@) =~= keys_of(self.contents()));
    }

    /// An empty table with the given id.
    pub fn new(id: u64) -> (r: Self)
        ensures
            r.wf(),
            r.table_id() == id,
            r@ == Map::<Seq<u8>, Option<Seq<u8>>>::empty(),
            r.size() == 0,
    {
        let r = Self { id, entries: Vec::new(), approx_size: 0 };
        assert(r.contents() =~= Seq::empty());
        assert(r@ =~= Map::<Seq<u8>, Option<Seq<u8>>>::empty());
        r
    }

    /// Puts `value` under `key` (`None` writes a tombstone), and updates the size
    /// estimate: the new entry is added and the replaced one, if any, taken off.
    pub fn put(&mut self, key: Key, value: Option<Value>)
        requires
            old(self).wf(),
            old(self).size() + key@.len() + opt_len(opt_bytes(value)) <= usize::MAX,
        ensures
            final(self).wf(),
            final(self).table_id() == old(self).table_id(),
            final(self)@ == old(self)@.insert(key@, opt_bytes(value)),
            final(self).size() == old(self).size() + key@.len() + opt_len(opt_bytes(value)) - (
            if old(self)@.contains_key(key@) {
                key@.len() + opt_len(old(self)@[key@])
            } else {
                0
            }),
    {
        let ghost c = self.contents();
        let ghost kv = key@;
        let ghost vv = opt_bytes(value);
        proof {
            self.lemma_wf();
            self.lemma_keys();
        }
        let key_len = key.len();
        let value_len = opt_value_len(&value);
        self.approx_size = self.approx_size + key_len + value_len;
        let (i, prev) = upsert(&mut self.entries, key, value);
        proof {
            self.lemma_keys();
        }
        match prev {
            Some(old_value) => {
                proof {
                    assert(self.contents() =~= c.update(i as int, (kv, vv)));
                    assert(c[i as int].0 == kv);
                    lemma_pairs_map_update(c, i as int, vv);
                    lemma_pairs_map_at(c, i as int);
                    lemma_total_size_update(c, i as int, (kv, vv));
                    lemma_sorted_pairs_distinct(self.contents());
                }
                let old_len = opt_value_len(&old_value);
                self.approx_size = self.approx_size - (key_len + old_len);
            },
            None => {
                proof {
                    assert(self.contents() =~= c.insert(i as int, (kv, vv)));
                    lemma_splits_absent(keys_of(c), kv, i as int);
                    if crate::sorted::has_key(c, kv) {
                        let a = choose|a: int| 0 <= a < c.len() && #[trigger] c[a].0 == kv;
                        assert(keys_of(c)[a] == kv);
                    }
                    lemma_pairs_map_insert(c, i as int, kv, vv);
                    lemma_total_size_insert(c, i as int, (kv, vv));
                }
            },
        }
    }

    /// Looks `key` up: its value, a tombstone, or nothing.
    pub fn get(&self, key: &Key) -> (r: GetResult<&Value>)
        requires
            self.wf(),
        ensures
            ref_lookup_of(r) == map_lookup(self@, key@),
    {
        proof {
            self.lemma_wf();
            self.lemma_keys();
        }
        match search(&self.entries, key.as_slice()) {
            Ok(i) => {
                proof {
                    lemma_pairs_map_at(self.contents(), i as int);
                }
                match &self.entries[i].1 {
                    Some(v) => GetResult::Found(v),
                    None => GetResult::Deleted,
                }
            },
            Err(i) => {
                proof {
                    lemma_splits_absent(keys_of(self.contents()), key@, i as int);
                    if crate::sorted::has_key(self.contents(), key@) {
                        let a = choose|a: int|
                            0 <= a < self.contents().len() && #[trigger] self.contents()[a].0
                                == key@;
                        assert(keys_of(self.contents())[a] == key@);
                    }
                    lemma_pairs_map_absent(self.contents(), key@);
                }
                GetResult::NotFound
            },
        }
    }

    /// Writes a tombstone for `key`, with the same effect as `put(key, None)`.
    /// It always succeeds.
    pub fn delete(&mut self, key: &Key) -> (r: Result<(), DbError>)
        requires
            old(self).wf(),
            old(self).size() + key@.len() <= usize::MAX,
        ensures
            r is Ok,
            final(self).wf(),
            final(self).table_id() == old(self).table_id(),
            final(self)@ == old(self)@.insert(key@, None),
            final(self).size() == old(self).size() + key@.len() - (if old(self)@.contains_key(
                key@,
            ) {
                key@.len() + opt_len(old(self)@[key@])
            } else {
                0
            }),
    {
        self.put(key.clone(), None);
        Ok(())
    }

    /// Whether the table holds no entry (tombstones count as entries).
    pub fn is_empty(&self) -> (r: bool)
        requires
            self.wf(),
        ensures
            r <==> self@.dom().len() == 0,
    {
        proof {
            self.lemma_wf();
            lemma_pairs_map_len(self.contents());
        }
        self.entries.len() == 0
    }

    /// The number of entries, tombstones included.
    pub fn len(&self) -> (r: usize)
        requires
            self.wf(),
        ensures
            r == self@.dom().len(),
    {
        proof {
            self.lemma_wf();
            lemma_pairs_map_len(self.contents());
        }
        self.entries.len()
    }

    /// Removes every entry and resets the size estimate.
    pub fn clear(&mut self)
        ensures
            final(self).wf(),
            final(self).table_id() == old(self).table_id(),
            final(self)@ == Map::<Seq<u8>, Option<Seq<u8>>>::empty(),
            final(self).size() == 0,
    {
        self.entries.clear();
        self.approx_size = 0;
        assert(self.contents() =~= Seq::empty());
        assert(self@ =~= Map::<Seq<u8>, Option<Seq<u8>>>::empty());
    }

    /// The entries in increasing key order.
    pub fn iter(&self) -> (r: &Vec<(Key, Option<Value>)>)
        ensures
            contents_of(r@) == self.contents(),
    {
        &self.entries
    }

    /// The id of the table, which is also the id of its WAL file.
    pub fn id(&self) -> (r: u64)
        ensures
            r == self.table_id(),
    {
        self.id
    }

    /// The current size estimate.
    pub fn approx_size(&self) -> (r: usize)
        ensures
            r == self.size(),
    {
        self.approx_size
    }
}

} // verus!
