//! Wolf RPG Editor: archive decryption, binary formats, text codecs.

pub mod dat_laws;
pub mod dat_parser;
pub mod decode_laws;
pub mod decryptor;
pub mod encoding;
pub mod extract_laws;
pub mod extractor;
pub mod injector;
pub mod map_injector;
pub mod text_filter;
pub mod v3;
pub mod wolfx;
