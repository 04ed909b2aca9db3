//! Hoshi2Star core library: the binary formats, decryptors, filters and
//! scoring rules behind a CAT editor for fan translation of RPG Maker and
//! Wolf RPG games.

pub mod detector;
pub mod export;
pub mod filter;
pub mod game_title;
pub mod glossary;
pub mod json;
pub mod manifest;
pub mod mv_mz;
pub mod project;
pub mod qa;
pub mod report;
pub mod tm;
pub mod vx_ace;
pub mod wolf;
