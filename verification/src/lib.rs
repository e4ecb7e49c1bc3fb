//! A lossless image codec for the QOI ("quite OK image") format.
//!
//! Raw row-major pixel buffers with one byte per channel are turned into a
//! compact stream of tagged chunks and back. Every executable function carries
//! a contract over a mathematical model of the wire format, and the module
//! `roundtrip` proves that decoding inverts encoding.

pub mod decoder;
pub mod encoder;
pub mod roundtrip;
pub mod shared;

pub use decoder::decode_qoi;
pub use encoder::encode_qoi;
pub use shared::Header;
pub use shared::QoiError;
