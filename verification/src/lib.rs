//! Client-side codec for a length-prefixed binary key-value protocol, with
//! the bookkeeping types of the load-measurement harness built around it.
//!
//! The codec has two verified components: a frame encoder, which turns an
//! ordered list of command arguments into a length-prefixed request frame,
//! and a value decoder, which parses a response payload into a recursive
//! tagged value while tracking exactly how many bytes each sub-value
//! occupied.  All multi-byte integers on the wire are little-endian, and
//! every declared length is validated against the remaining buffer before
//! any byte of payload is read.

pub mod args;
pub mod decode;
pub mod encode;
pub mod format;
pub mod laws;
pub mod results;
pub mod value;
pub mod wire;

pub use decode::decode_request;
pub use decode::decode_response;
pub use decode::decode_value;
pub use encode::encode_request;
pub use encode::encode_value;
pub use value::DecodeError;
pub use value::EncodeError;
pub use value::Value;
pub use value::ValueModel;
pub use value::MAX_FRAME_SIZE;
