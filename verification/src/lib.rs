//! Image format detection from magic numbers, and a `data:image/...;base64,`
//! text encoding of image buffers built on it.

pub mod codec;
pub mod encoding;
pub mod encoding_laws;
pub mod hex;
pub mod signature;
pub mod text;

pub use crate::codec::{
    from_base64, to_base64_from_memory, to_base64_from_memory_with_extension, DecodeFailure,
};
pub use crate::signature::{detect, get_file_type, signature_table, Signature};
