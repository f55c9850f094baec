//! The wire format a value is encoded in or decoded from.

use vstd::prelude::*;

verus! {

/// Selects alignment, padding and framing behaviour. `DBus` is the native
/// transport format; `GVariant` differs here in its single-byte booleans
/// and its strings carried without a trailing NUL byte.
#[derive(Clone, Copy, Debug, PartialEq, Eq, Structural)]
pub enum EncodingFormat {
    DBus,
    GVariant,
}

} // verus!
