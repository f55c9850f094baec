//! Core of a client-side D-Bus library: the wire-format codec for D-Bus's
//! self-describing value system, together with the bus-address parser and the
//! bus-name validator that identify endpoints on the bus.

pub mod address;
pub mod bus_name;
pub mod error;
pub mod format;
pub mod shared_data;
pub mod signature;
pub mod structure;
pub mod text;
pub mod variant;
pub mod wire;

pub use address::{Address, TcpAddress, TcpAddressFamily};
pub use bus_name::{BusName, OwnedBusName, UniqueName, WellKnownName};
pub use error::{Error, VariantError};
pub use format::EncodingFormat;
pub use shared_data::SharedData;
pub use signature::slice_signature;
pub use structure::{variants_from_struct_data, Structure};
pub use variant::{slice_data, ArrayValue, Variant};
