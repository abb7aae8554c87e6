//! SAPIence: a SAPI 5 TTS engine that forwards speech to NVDA as SSML.
//! This crate holds its verified logic: the SSML it builds, the mark names
//! it parses, the pacing decisions, the class factory's decision and the
//! registry layout.

pub mod class_factory;
pub mod clsid;
pub mod document;
pub mod marks;
pub mod nvda;
pub mod pacing;
pub mod rate;
pub mod registry;
pub mod ssml;
pub mod text;
pub mod tts_engine;
pub mod words;
