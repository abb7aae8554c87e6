//! The values handed to the NVDA Controller Client, and what its status
//! codes mean.
use vstd::prelude::*;

verus! {

/// How an utterance is queued in NVDA.
#[derive(Debug, Copy, Clone, PartialEq, Eq)]
pub enum SpeechPriority {
    Normal,
    Next,
    Now,
}

/// How much punctuation NVDA speaks.
#[derive(Debug, Copy, Clone, PartialEq, Eq)]
pub enum SymbolLevel {
    NoSymbols,
    SomeSymbols,
    Most,
    All,
    Char,
    Unchanged,
}

impl SpeechPriority {
    /// The controller client's code for this priority.
    pub fn code(self) -> (c: u32)
        ensures
            c == match self {
                SpeechPriority::Normal => 0u32,
                SpeechPriority::Next => 1u32,
                SpeechPriority::Now => 2u32,
            },
    {
        match self {
            SpeechPriority::Normal => 0,
            SpeechPriority::Next => 1,
            SpeechPriority::Now => 2,
        }
    }
}

impl SymbolLevel {
    /// The controller client's code for this symbol level.
    pub fn code(self) -> (c: i32)
        ensures
            c == match self {
                SymbolLevel::NoSymbols => 0i32,
                SymbolLevel::SomeSymbols => 100i32,
                SymbolLevel::Most => 200i32,
                SymbolLevel::All => 300i32,
                SymbolLevel::Char => 1000i32,
                SymbolLevel::Unchanged => -1i32,
            },
    {
        match self {
            SymbolLevel::NoSymbols => 0,
            SymbolLevel::SomeSymbols => 100,
            SymbolLevel::Most => 200,
            SymbolLevel::All => 300,
            SymbolLevel::Char => 1000,
            SymbolLevel::Unchanged => -1,
        }
    }
}

/// The HRESULT that a Win32 error code maps to: the code itself when it is
/// zero or negative as an `i32`, else its low 16 bits in the Win32 facility
/// with the failure bit set.
pub open spec fn spec_hresult_from_win32(error: u32) -> i32 {
    if (error as i32) <= 0 {
        error as i32
    } else {
        ((error & 0xFFFF) | 0x0007_0000 | 0x8000_0000) as i32
    }
}

/// Maps a Win32 error code to its HRESULT.
pub fn hresult_from_win32(error: u32) -> (h: i32)
    ensures
        h == spec_hresult_from_win32(error),
{
    if (error as i32) <= 0 {
        error as i32
    } else {
        ((error & 0xFFFF) | 0x0007_0000 | 0x8000_0000) as i32
    }
}

/// A controller-client status: success for 0, else the failure with the
/// HRESULT of the Win32 error.
pub fn to_result(error: u32) -> (r: Result<(), i32>)
    ensures
        error == 0 ==> r is Ok,
        error != 0 ==> r == Err::<(), i32>(spec_hresult_from_win32(error)),
{
    if error == 0 {
        Ok(())
    } else {
        Err(hresult_from_win32(error))
    }
}

} // verus!
