//! HERO BIN: a self-describing, length-prefixed binary format for trees of
//! typed values, with a verified encoder, decoder and object builder.

pub mod value;
pub mod wire;
pub mod encode;
pub mod entries;
pub mod decode;
pub mod builder;
pub mod dump;
pub mod laws;
