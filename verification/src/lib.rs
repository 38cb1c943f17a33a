//! Codec for TOON (Token-Oriented Object Notation): a compact,
//! indentation-sensitive text format for structured data, losslessly
//! convertible to and from the usual tree of nulls, booleans, numbers,
//! strings, arrays and key-ordered objects.
//!
//! [`serialize`] walks a [`Value`] tree and renders text, choosing between
//! inline, tabular and expanded array layouts and optionally folding chains
//! of single-key objects into dotted keys. [`deserialize`] parses such text
//! back, with automatic indent detection, strict-mode validation and
//! optional dotted-key path expansion.

use vstd::prelude::*;

pub mod chars;
pub mod digits;
pub mod encode;
pub mod decode;
pub mod expand;
pub mod laws;
pub mod lexical;
pub mod number;
pub mod scan;
pub mod value;

pub use decode::deserialize;
pub use encode::serialize;
pub use value::Delimiter;
pub use value::ExpandPaths;
pub use value::Model;
pub use value::SerializationContext;
pub use value::ToonError;
pub use value::Value;
