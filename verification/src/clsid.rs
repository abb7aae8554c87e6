//! Constants of the SAPIence COM voice.
use vstd::prelude::*;

verus! {

/// CLSID of the SAPIence voice COM object, as a 128-bit value
/// (`GUID::from_u128` of it is the GUID).
pub const CLSID_SAPIENCE_VOICE: u128 = 0x5A91_E9CE_2BC7_4F8E_9DA1_4D7C_9F2E_7E11u128;

/// Display name used both in the CLSID `(Default)` and the voice token.
pub const VOICE_DISPLAY_NAME: &'static str = "SAPIence (NVDA)";

/// Voice token folder name under
/// HKLM\SOFTWARE\Microsoft\Speech\Voices\Tokens\<this>.
pub const VOICE_TOKEN_NAME: &'static str = "SAPIence";

pub const VOICE_VENDOR: &'static str = "Leonard de Ruijter";

pub const VOICE_LANGUAGE_LCID_HEX: &'static str = "409";

pub const VOICE_AGE: &'static str = "Adult";

pub const VOICE_GENDER: &'static str = "Neutral";

pub const VOICE_VERSION: &'static str = "1.0";

} // verus!
