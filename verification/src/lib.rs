//! Decoder and pretty-printer for the Bencode serialization format.
//!
//! Bencode (the encoding used by the BitTorrent protocol) represents
//! integers, byte strings, lists and dictionaries as length-prefixed
//! ASCII tokens.  The `parser` module turns a byte buffer into a tree
//! of typed values, and the `printer` module renders such a tree as
//! indented text.

pub mod parser;
pub mod printer;
