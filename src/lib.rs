//! Header handling for signed HTTP exchanges: request forwarding, payload
//! validation and the canonical encoding of the signed header map.

pub mod canonical;
pub mod cbor;
pub mod headers;
pub mod names;
pub mod pairs;
pub mod text;

pub use headers::{HeaderError, Headers};
