//! Converts a file size, given as a non-negative decimal magnitude and an
//! SI unit (bytes, kb, mb, gb), into an exact byte count and a rendering of
//! that count in all four units.
//!
//! Magnitudes are held exactly: the integer part plus the fraction truncated
//! to nine decimal digits, which loses nothing because every unit multiplier
//! divides 10^9 (`laws::lemma_nine_digit_model_exact`). Normalization floors
//! toward zero and saturates at `u64::MAX`; formatting shows each non-byte
//! unit with two digits after the decimal point, which lands within one
//! hundredth of the original magnitude (`laws::lemma_round_trip`).

pub mod digits;
pub mod driver;
pub mod errors;
pub mod filesize;
pub mod laws;
pub mod magnitude;
pub mod sizes;
pub mod unit;
