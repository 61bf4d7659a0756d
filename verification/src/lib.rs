//! A compact intent router: a byte-level automaton stored in a flat ROM image
//! turns free text into a three-byte command (an operation code and a target id).

pub mod compiler;
pub mod counting;
pub mod default_rom;
pub mod dictionary;
pub mod dictionary_text;
pub mod laws;
pub mod rom;
pub mod translator;

pub use default_rom::DEFAULT_ROM_MATRIX;
pub use rom::{CompressedIntent, FstEngine};
pub use translator::{UnionCode, NOT_FOUND};
