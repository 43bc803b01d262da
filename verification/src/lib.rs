//! Parsing and encoding of textual CAN frame literals.
//!
//! A frame literal has the `cansend`-style shape `id#payload`, where `id` is
//! three hex digits (a standard identifier) or eight hex digits (an extended
//! identifier) and `payload` is an even-length string of hex digits, two per
//! payload byte.

pub mod baud;
pub mod frame;
pub mod hex;
