//! A verified codec for RLP (Recursive Length Prefix), the self-describing
//! binary encoding for nested byte-string/list structures.
//!
//! `encode` turns a [`model::Value`] tree into its unique canonical byte
//! string; `decode` inverts it, rejecting every malformed or non-canonical
//! input.

pub mod decoder;
pub mod encoder;
pub mod laws;
pub mod model;

pub use decoder::decode;
pub use decoder::decode_item;
pub use decoder::DecodeError;
pub use encoder::encode;
pub use model::Value;
