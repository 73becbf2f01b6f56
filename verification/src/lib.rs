//! Text values for a dynamically typed runtime: an encoding class for every
//! buffer, a container that caches its character count, character-indexed
//! slicing over variable-width encodings, and a few text algorithms
//! (zero-fill, ASCII escaping, tab expansion, bounded edit distance).

pub mod ascii_types;
pub mod classify;
pub mod codepoint;
pub mod data;
pub mod encoding;
pub mod escape;
pub mod kind;
pub mod levenshtein;
pub mod ranges;
pub mod scan;
mod stdlib;
pub mod tabs;
pub mod wtf8;
pub mod zfill;

pub use classify::DeduceStrKind;
pub use codepoint::CodePoint;
pub use data::{PyKindStr, StrData};
pub use escape::to_ascii;
pub use kind::StrKind;
pub use ranges::{
    char_range_end, codepoint_range_end, get_chars, get_codepoints, try_get_chars,
    try_get_codepoints, Bound, CharRange,
};
pub use tabs::expandtabs;
pub use wtf8::{Wtf8, Wtf8Buf};
pub use zfill::zfill;
