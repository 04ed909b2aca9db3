//! RPG Maker VX Ace.

pub mod extractor;
pub mod injector;
pub mod marshal;
