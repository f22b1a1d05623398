//! yEnc is an encoding scheme used to embed binary files in text-oriented
//! message transports that cannot safely carry arbitrary bytes or long lines.
//!
//! The byte-level codec lives in [`encode`] and [`decode`]: each input byte is
//! shifted by 42 modulo 256, four critical byte values are escaped, and output
//! lines are wrapped at a configurable length.  On top of the codec,
//! [`encode::EncodeOptions`] renders a whole message (header, wrapped body,
//! checksum footer) and [`decode::DecodeOptions::decode_stream`] scans a
//! message stream for control lines, parses their metadata, decodes the body
//! and verifies the declared size and CRC-32 checksum.
//!
//! [`roundtrip`] states and proves the round-trip laws: what the encoder
//! writes, the decoder reads back, byte for byte.

use vstd::prelude::*;

pub mod constants;
pub mod crc32;
pub mod decode;
pub mod encode;
pub mod errors;
pub mod numfmt;
pub mod roundtrip;

pub use crate::decode::decode_buffer;
pub use crate::decode::DecodeOptions;
pub use crate::encode::encode_buffer;
pub use crate::encode::EncodeOptions;
pub use crate::errors::DecodeError;
pub use crate::errors::EncodeError;

verus! {

} // verus!
