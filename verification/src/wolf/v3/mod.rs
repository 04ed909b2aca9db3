//! Parser/writer for WOLF RPG Editor v3.x binary formats (`.mps` maps,
//! `CommonEvent.dat`).
//!
//! Every command is read generically as
//! `[argsCount][cid][args...][indent][stringArgs...][terminator][v35Unknown?]`
//! in one non-recursive loop; nesting is carried by the `indent` field.

pub mod coder;
pub mod command;
pub mod common_events;
pub mod compression;
pub mod map;

use vstd::prelude::*;

verus! {

/// Why a v3.x binary buffer could not be read or written.
#[allow(inconsistent_fields)]
#[derive(Debug, PartialEq)]
pub enum V3FormatError {
    UnexpectedEof { offset: usize, needed: usize, available: usize },
    ZeroLengthString { offset: usize },
    InvalidEncoding { offset: usize, message: String },
    InvalidArgsCount { offset: usize, found: u8 },
    InvalidTerminator { offset: usize, found: u8 },
    InvalidRouteMagic { offset: usize, expected: [u8; 2], found: [u8; 2] },
    Lz4Block { message: String },
    InvalidMagic { offset: usize, expected: Vec<u8>, found: Vec<u8>, context: &'static str },
    UnexpectedByte { offset: usize, expected: u8, found: u8, context: &'static str },
    CountMismatch { expected: u32, actual: u32, context: &'static str },
    TrailingData { offset: usize, remaining: usize },
}

} // verus!
