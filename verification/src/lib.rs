//! A line-oriented conditional text filter.
//!
//! A template is a text whose lines are kept or dropped according to
//! directives that test a set of flags:
//!
//! ```text
//! always kept
//! #if debug
//! kept when `debug` is set
//! #if (or linux macos)
//! kept when `debug` is set, and `linux` or `macos`
//! #endif
//! #endif
//! kept when `tls` is set #if tls
//! ```
//!
//! The modules, from the leaves up:
//!
//! - `text`: character classes, and the notions over sequences of characters
//!   in which the grammar is stated;
//! - `flags`: sets of flag names;
//! - `condition`: conditions and what it means for one to hold;
//! - `parser`: the grammar of conditions and of lines;
//! - `processor`: the engine that filters the lines of a file;
//! - `diagnostics`: the report on flags that were requested and never used;
//! - `theorems`: what holds of the engine for every input.
//!
//! Every function is verified against a contract that is stated over
//! sequences and sets of characters. The one thing taken on trust is the
//! edit distance that the `strsim` crate computes.

pub mod condition;
pub mod diagnostics;
pub mod flags;
pub mod parser;
pub mod processor;
pub mod text;
pub mod theorems;
