//! Compact binary transcoding of AIVDM/AIVDO NMEA-0183 sentences.
//!
//! - `armor`: the 6-bit payload codec (`unpack`, `pack`).
//! - `checksum`: the `*HH` XOR checksum.
//! - `sentence`: the sentence envelope, its parser and printer.
//! - `metadata`: the 64-bit word of envelope fields.
//! - `record`: stream records and the sentence/record transcoder.
//! - `stream`: the compressor and decompressor with their window of recent lines.
pub mod armor;
pub mod checksum;
pub mod metadata;
pub mod record;
pub mod sentence;
pub mod stream;
mod text;

pub use checksum::verify_checksum;
