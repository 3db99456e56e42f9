//! The `jsonic` command as a verified library: argument parsing, the
//! dotted-path option bags, the merge of parsed sources and the
//! `JSON.stringify` output, over a value model of the library's own.

use vstd::prelude::*;

pub mod args;
pub mod cli;
pub mod engine;
pub mod merge;
pub mod number;
pub mod reader;
pub mod registry;
pub mod stringify;
pub mod text;
pub mod value;

verus! {

/// This crate's version.
pub const VERSION: &'static str = "0.5.7";

} // verus!
