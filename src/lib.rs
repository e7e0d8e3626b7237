//! A reader for CSON, a relaxed JSON dialect for configuration files.
//!
//! The format accepts unquoted keys, `=` as well as `:` between a key and its
//! value, `#` comments, newlines as item separators, verbatim `|` strings and a
//! top-level object without braces.  The reader turns a byte buffer into a tree
//! of [`repr::Atom`] values.
pub mod grammar;
pub mod ident;
pub mod reader;
pub mod repr;
pub mod util;
