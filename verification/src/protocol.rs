//! Messages of the client/server protocol.

use vstd::prelude::*;

verus! {

/// Client request format.
#[derive(Debug)]
pub enum Request {
    /// Insert a key-value pair.
    Put { key: Vec<u8>, value: Vec<u8> },
    /// Query a key.
    Get { key: Vec<u8> },
    /// Delete a key.
    Delete { key: Vec<u8> },
}

/// Server response format.
#[derive(Debug)]
pub enum Response {
    /// Success; a Get may return data.
    Success(Option<Vec<u8>>),
    /// Failure, with an error message.
    Failure(String),
}

} // verus!
