//! Cap'n Proto style packing of byte payloads of any length, and its unpacking.
//!
//! `pack` and `unpack` are proved against the format's description in `format`;
//! `laws` proves that unpacking undoes packing.

pub mod bits;
pub mod word;
pub mod format;
mod buffer;
pub mod unpack;
pub mod pack;
pub mod laws;
pub mod choices;

pub use pack::pack;
pub use unpack::{unpack, UnexpectedEOF};
