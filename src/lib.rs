//! Lazy, non-copying string tokenisation over a pluggable delimiter.
//!
//! Offsets reported by a delimiter are byte offsets into the slice it was
//! given, on codepoint boundaries; tokens are sub-slices of the original text.
pub mod delimiter;
pub mod laws;
pub mod split;
pub mod utf8;

pub use delimiter::Delimeter;
pub use split::{StrSplit, until_char};
