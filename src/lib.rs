//! A streaming, seeded multiply-shift hash for hash tables.
//!
//! Bytes are fed through [`hasher::HornerHasher::write`] in any number of
//! chunks; [`hasher::HornerHasher::finish`] returns a 64-bit digest that is a
//! function of the seed and the concatenated bytes alone.
pub mod mixing;
pub mod model;
pub mod hasher;
pub mod laws;

pub use hasher::HornerHasher;
pub use mixing::mult_hi128;
