//! Error taxonomy of the codec, the address parser and the name validator.

use vstd::prelude::*;

verus! {

/// Failure kinds of the wire-format codec.
#[derive(Clone, Copy, Debug, PartialEq, Eq, Structural)]
pub enum VariantError {
    /// The buffer is shorter than the declared signature requires.
    InsufficientData,
    /// A container's signature has no children, or decode was asked for less
    /// than what was sliced.
    ExcessData,
    /// A signature character does not match the expected type, or the
    /// signature is malformed, or a variant carries the wrong tag.
    IncorrectType,
    /// A string, object-path or signature payload is not valid UTF-8.
    InvalidUtf8,
}

/// Failure kinds of the address parser and the bus-name validator.
#[derive(Clone, Debug, PartialEq)]
pub enum Error {
    /// Any failure in address parsing, with a human-readable message.
    Address(String),
    /// The input is not a valid unique bus name.
    InvalidUniqueName(String),
    /// The input is not a valid well-known bus name.
    InvalidWellKnownName(String),
    /// The input is neither a valid unique nor a valid well-known bus name;
    /// both diagnostics are carried.
    InvalidBusName(String, String),
    /// A codec failure surfaced through this layer.
    Variant(VariantError),
}

} // verus!
