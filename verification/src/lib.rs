//! Parses a Windows-style command line, delivered as one null-terminated
//! sequence of UTF-16 code units, into its arguments.
//!
//! The splitting follows the rules of the modern Microsoft C/C++ runtimes:
//! backslashes are literal except in front of a quote, where a run of `2n`
//! backslashes collapses to `n` and a run of `2n + 1` collapses to `n`
//! followed by a literal quote; a quote toggles an internal quote mode in
//! which whitespace no longer separates arguments; inside quote mode a pair
//! of adjacent quotes emits one literal quote; and the zeroth argument (the
//! program name) is parsed with simpler rules in which backslashes are never
//! special and quotes only toggle the mode.
//!
//! The same state machine backs three views: a [`Parser`] that yields
//! [`Token`]s (code units and argument boundaries), flat null-separated
//! streams ([`null_separated_list`], [`null_separated_list_wide`]), and an
//! iterator of [`Argument`] handles ([`args_native`]) that each expose the
//! argument's code units, code points, scalars and raw tail.
//!
//! The intended meaning of every operation is spelled out against the
//! specification functions in [`model`], chiefly [`model::parse_cmdline`].

pub mod args;
pub mod cursor;
pub mod decode;
pub mod escape;
pub mod model;
pub mod parse;
pub mod laws;
pub mod quoting;
pub mod tokens;

pub use args::{args_native, Argument, ArgsNative};
pub use quoting::quote_arg;
pub use tokens::{null_separated_list, null_separated_list_wide, Parser, Token};
