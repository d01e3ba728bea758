//! Core data definitions shared by every layer: keys, values, log records and the
//! result of a lookup in one layer.

use vstd::prelude::*;

verus! {

/// Keys are arbitrary byte arrays.
pub type Key = Vec<u8>;

/// Values are arbitrary byte arrays.
pub type Value = Vec<u8>;

/// The type of a WAL log record or an SSTable entry.
#[derive(Debug, Clone, Copy, PartialEq, Eq, Structural)]
pub enum RecordType {
    /// A normal put/update operation.
    Put,
    /// A tombstone representing a deletion.
    Delete,
}

/// A single entry in the WAL or SSTable.
#[derive(Debug)]
pub struct LogRecord {
    /// Whether this is a Put or a Delete.
    pub r_type: RecordType,
    /// The key.
    pub key: Key,
    /// The value (None if it is a Delete).
    pub value: Option<Value>,
}

/// The result of a key lookup in one layer: a value, a tombstone, a miss, or a failure.
#[derive(Debug, PartialEq, Eq)]
pub enum GetResult<T> {
    /// Key was found and a value is returned.
    Found(T),
    /// Key was explicitly deleted (Tombstone found).
    Deleted,
    /// Key was not found in the current component.
    NotFound,
    /// An error occurred during retrieval (e.g. underlying file corruption or decompression failure).
    Error(String),
}

/// The bytes of an optional value.
pub open spec fn opt_bytes(o: Option<Vec<u8>>) -> Option<Seq<u8>> {
    match o {
        Some(v) => Some(v@),
        None => None,
    }
}

/// What a record stands for, as plain values: its type, key and value bytes.
pub open spec fn record_view(r: LogRecord) -> (RecordType, Seq<u8>, Option<Seq<u8>>) {
    (r.r_type, r.key@, opt_bytes(r.value))
}

/// Length of an optional value (0 for a tombstone).
pub open spec fn opt_len(o: Option<Seq<u8>>) -> nat {
    match o {
        Some(v) => v.len(),
        None => 0,
    }
}

/// Length of an optional value.
pub fn opt_value_len(o: &Option<Value>) -> (r: usize)
    ensures
        r == opt_len(opt_bytes(*o)),
{
    match o {
        Some(v) => v.len(),
        None => 0,
    }
}

/// What a lookup in one layer finds, as plain values.
pub enum Lookup {
    /// A value for the key.
    Found(Seq<u8>),
    /// A tombstone for the key.
    Deleted,
    /// Nothing about the key in this layer.
    Missing,
    /// The layer could not be read.
    Failed,
}

/// What an owned lookup result says, as plain values.
pub open spec fn lookup_of(r: GetResult<Value>) -> Lookup {
    match r {
        GetResult::Found(v) => Lookup::Found(v@),
        GetResult::Deleted => Lookup::Deleted,
        GetResult::NotFound => Lookup::Missing,
        GetResult::Error(_) => Lookup::Failed,
    }
}

/// What a borrowed lookup result says, as plain values.
pub open spec fn ref_lookup_of(r: GetResult<&Value>) -> Lookup {
    match r {
        GetResult::Found(v) => Lookup::Found(v@),
        GetResult::Deleted => Lookup::Deleted,
        GetResult::NotFound => Lookup::Missing,
        GetResult::Error(_) => Lookup::Failed,
    }
}

/// A copy of an optional value.
pub fn clone_opt_value(o: &Option<Value>) -> (r: Option<Value>)
    ensures
        opt_bytes(r) == opt_bytes(*o),
{
    match o {
        Some(v) => Some(v.clone()),
        None => None,
    }
}

} // verus!
