//! RPG Maker MV/MZ.

pub mod decryptor;
pub mod extractor;
pub mod injector;
