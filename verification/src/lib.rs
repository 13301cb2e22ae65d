//! # ConfigParser - a Python style configuration reader/writer
//!
//! The `conparse::conparse::ConfigParser` struct reads INI style
//! configuration text and presents an interface to programs to read that
//! configuration, to change it and to write it out again.
//!
//! The text can include comments (which are lines beginning with a `;` or
//! `#` character), and continuations: a line ending with a `\` character is
//! joined with the line that follows it, and so on, until a line not ending
//! with a `\` character is found. Leading whitespace is ignored on
//! continued lines.
//!
//! The text is divided up into sections, which are started with the text
//! `[ Section_Name ]`. The section line can also have a comment after its
//! `]` character. Options have the form of `key : value` or `key = value`;
//! a key alone has the empty value.
//!
//! A value may refer to another option of its section, or to a default, as
//! `%(keyname)s`; `get` replaces each such reference, at any depth, and
//! reports a chain of references that comes back on itself.
//!
//! The modules, from the ground up:
//!
//! - `text`: characters, trimming, substitution, order and numbers;
//! - `error`: the failures that the store reports;
//! - `reader`: logical lines out of text;
//! - `pattern`: the line patterns, matched by the `regex` crate;
//! - `strmap`: the ordered map that holds sections and options;
//! - `model`: the store as a mathematical value, which the contracts of
//!   `conparse` speak of;
//! - `conparse`: the store itself;
//! - `laws` and `roundtrip`: what holds of the operations together;
//! - `expand`: paths below a home directory.

pub mod text;
pub mod error;
pub mod reader;
pub mod pattern;
pub mod strmap;
pub mod model;
pub mod conparse;
pub mod laws;
pub mod roundtrip;
pub mod expand;
