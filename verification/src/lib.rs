//! Core of an embeddable interpreter for a Tcl-dialect command language.
//!
//! The crate provides the character-level tokenizer (including backslash
//! substitution), the script parser that compiles source text into the
//! `Script` / `Word` intermediate form, the `Value` datum whose identity is
//! its string form, and the exception machinery that carries the five-valued
//! completion-code protocol (`ResultCode`, `Exception`, `ErrorData`).
//!
//! * [`util`] — character classes and string-building helpers.
//! * [`value`] — the `Value` datum, with its integer and boolean readings.
//! * [`types`] — result codes, exceptions, error data, ensemble tables,
//!   and variable-name splitting.
//! * [`tokenizer`] — the character cursor and backslash substitution.
//! * [`eval_ptr`] — the parsing cursor: bracket termination, whitespace,
//!   and comments.
//! * [`parser`] — the script parser and the parsed form.
//! * [`harness`] — the benchmark harness's record book.

pub mod util;
pub mod value;
pub mod types;
pub mod tokenizer;
pub mod eval_ptr;
pub mod parser;
pub mod harness;
