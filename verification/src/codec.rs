//! The deterministic binary encoding used for typed indices and values.
//!
//! Values and indices are opaque bytes to the rest of the crate; the
//! encoding only has to be deterministic and shared by the writer and
//! the reader.  The encoding itself is done by an outside serializer and
//! is not specified here beyond its signatures.

use vstd::prelude::*;

verus! {

/// The error the encoding layer reports.
#[verifier::external_type_specification]
#[verifier::external_body]
pub struct ExBcsError(bcs::Error);

/// Relies on `bcs::to_bytes`: the deterministic binary encoding of
/// `value`, or an encoding error.
#[verifier::external_body]
pub(crate) fn to_bytes<T: serde::Serialize>(value: &T) -> Result<Vec<u8>, bcs::Error> {
    bcs::to_bytes(value)
}

/// Relies on `bcs::from_bytes`: decode a value from its deterministic
/// binary encoding, requiring every input byte to be consumed.
#[verifier::external_body]
pub(crate) fn from_bytes<T: serde::de::DeserializeOwned>(bytes: &[u8]) -> Result<T, bcs::Error> {
    bcs::from_bytes(bytes)
}

} // verus!
