//! Mirrors declarations found in source text into generated declarations.
//!
//! The crate scans text for string constants and union types, renders what it
//! found as declarations of the target language, and rewrites fields whose type
//! admits `undefined` into optional fields. It works on text alone: a caller
//! reads the files, hands their text over, and writes what comes back.

pub mod constants;
pub mod enums;
pub mod files;
pub mod index;
pub mod manifest;
pub mod optionals;
pub mod pattern;
pub mod text;
