//! Byte-pair-encoding tokenizer with a verified training loop, encoder,
//! decoder and binary vocabulary format.

pub mod special;
pub mod wire;
pub mod words;
pub mod tables;
pub mod model;
pub mod tokenizer;
mod train;
pub mod codec;
pub mod loader;
pub mod laws;

pub use special::{BpeConfig, SpecialToken};
pub use tokenizer::BpeTokenizer;
pub use loader::DataLoader;
