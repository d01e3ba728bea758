//! The error type of the engine.

use vstd::prelude::*;

verus! {

/// `std::io::Error`, carried by `DbError::IO` without being looked into.
#[verifier::external_type_specification]
#[verifier::external_body]
pub struct ExIoError(std::io::Error);

/// `bincode::ErrorKind`, carried (boxed, as `bincode::Error`) by `DbError::Serialize`.
#[verifier::external_type_specification]
#[verifier::external_body]
pub struct ExBincodeErrorKind(bincode::ErrorKind);

/// Global error type for the database.
#[derive(Debug)]
pub enum DbError {
    /// Underlying standard library IO errors.
    IO(std::io::Error),
    /// Errors occurring during binary serialization or deserialization.
    Serialize(bincode::Error),
    /// Data corruption detected (e.g. invalid magic number, truncated log).
    Corruption(String),
    /// The requested key was not found in the database.
    NotFound,
}

} // verus!
