//! Generating, encoding, decoding and scoring March Madness brackets.
pub mod layout;
pub mod codec;
pub mod text;
pub mod generate;
pub mod collect;
pub mod scoring;
