//! A recursive-descent JSON parser, verified with Verus.
//!
//! The entry point [`json_text`](parse::json_text) reads one JSON value,
//! surrounded by optional whitespace, from the front of a string slice and
//! returns the parsed tree together with the position where reading stopped,
//! or a structured failure naming the grammar rule that did not match and
//! the position where it failed.
//!
//! The grammar itself is written down once more as a family of spec
//! functions over `Seq<char>` (see [`grammar`]); the contract of every
//! executable parsing function states that it returns exactly what those
//! spec functions say.

pub mod grammar;
pub mod parse;
pub mod value;

pub use grammar::ErrorKind;
pub use parse::json_text;
pub use parse::ParseError;
pub use parse::MAX_DEPTH;
pub use value::SpecValue;
pub use value::Value;
