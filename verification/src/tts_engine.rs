//! The TTS engine object.
use vstd::prelude::*;

verus! {

/// The SAPIence TTS engine.
pub struct TtsEngine;

impl TtsEngine {
    /// A new engine.
    pub fn new() -> (e: Self)
        ensures
            e == TtsEngine,
    {
        TtsEngine
    }
}

} // verus!
