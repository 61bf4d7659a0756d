//! The translator: human text in, a three-byte intent or a fallback code out.
use vstd::prelude::*;

use crate::rom::{spec_parse, CompressedIntent, FstEngine};

verus! {

/// The fallback code returned when no intent is found in the input
/// (the caller may hand the text to a slower resolver, or ask again).
pub const NOT_FOUND: u8 = 0x06;

/// What `decode` gives for an input: the intent, or the fallback code.
pub open spec fn spec_decode(rom: Seq<u8>, input: Seq<u8>) -> Result<CompressedIntent, u8> {
    match spec_parse(rom, input) {
        Some(intent) => Ok(intent),
        None => Err(NOT_FOUND),
    }
}

/// The core translator, built on a routing engine.
pub struct UnionCode {
    pub fst: FstEngine,
}

impl UnionCode {
    pub fn new(fst: FstEngine) -> (uc: Self)
        ensures
            uc.fst == fst,
    {
        Self { fst }
    }

    /// Translates human text into an intent; text in which none is found gives
    /// `Err(NOT_FOUND)`.
    pub fn decode(&self, human_input: &[u8]) -> (r: Result<CompressedIntent, u8>)
        ensures
            r == spec_decode(self.fst.rom_matrix@, human_input@),
    {
        if let Some(intent) = self.fst.parse_stream(human_input) {
            return Ok(intent);
        }
        // Unknown intent: fall back
        Err(NOT_FOUND)
    }
}

impl Default for UnionCode {
    fn default() -> (uc: Self)
        ensures
            uc.fst.rom_matrix@ == crate::default_rom::DEFAULT_ROM_MATRIX@,
    {
        Self { fst: FstEngine::default() }
    }
}

} // verus!
