//! Lossless compression transforms over byte sequences: the dictionary
//! substitution codecs LZ77, LZ78 and LZW, the reversible Burrows-Wheeler
//! and move-to-front transforms, a compound pipeline that chains them, and
//! a compact byte framing for LZW token streams.
//!
//! Every codec is a pure pair of functions: `encode` produces a structured
//! intermediate representation and `decode` consumes it, reconstructing the
//! original sequence exactly. Decoding validates its input and reports
//! malformed entries as [`CodecError`] values instead of panicking.

#![verifier::loop_isolation(false)]

pub mod bwt;
pub mod errors;
pub mod lz77;
pub mod lz78;
pub mod lzw;
pub mod mtf;
pub mod serial;
pub mod stack;

pub use bwt::decode_bwt;
pub use bwt::encode_bwt;
pub use errors::CodecError;
pub use lz77::LZ77entry;
pub use lz77::lz77_decode;
pub use lz77::lz77_encode;
pub use lz78::LZ78entry;
pub use lz78::lz78_decode;
pub use lz78::lz78_encode;
pub use lzw::lzw_decode;
pub use lzw::lzw_encode;
pub use mtf::decode_move_to_front;
pub use mtf::encode_move_to_front;
pub use serial::deserialize_byte;
pub use serial::deserialize_lzw;
pub use serial::deserialize_usize;
pub use serial::min_size;
pub use serial::serialize_lzw;
pub use serial::serialize_usize;
pub use stack::byte_alphabet;
pub use stack::decode_stack;
pub use stack::encode_stack;
