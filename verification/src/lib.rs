//! Hexadecimal floating-point literal codec.
//!
//! Converts between C99-style hexadecimal float literal text (`0x1.99999ap-4`)
//! and the IEEE-754 binary32/binary64 bit patterns they denote, bit-exactly,
//! in both directions.
//!
//! - [`parse::parse_hexf32`] / [`parse::parse_hexf64`] turn a literal into the
//!   bit pattern of the `f32` / `f64` value it denotes, rounding excess
//!   mantissa bits to nearest, ties to even.
//! - [`format::to_hex_string`] renders a bit pattern as the canonical,
//!   round-trippable literal.
//! - [`tokens::extract_string_value`] recovers the contents of a plain or raw
//!   string literal token, for callers that embed hex-float literals in
//!   source text.
//! - [`roundtrip`] proves that re-parsing a formatted finite value returns
//!   exactly the bit pattern it came from.

pub mod chars;
pub mod format;
pub mod parse;
pub mod rounding;
pub mod roundtrip;
pub mod tokens;

pub use format::{to_hex_string, F32Bits, F64Bits, Format, FormatHexf};
pub use parse::{parse_hexf32, parse_hexf64, ParseHexfError};
pub use tokens::{extract_string_value, ExtractStringError};
