//! A verified codec between plaintext and International Morse Code.
//!
//! The crate models a Morse message as a layered sequence: a `Sen`tence of
//! `Word`s, each word a sequence of coded characters (`Char`), each coded
//! character a non-empty run of `Sym`bols (dots and dashes).  A `SymbolMap`
//! carries the bidirectional dictionary between plaintext characters and
//! coded characters.  Parsing, encoding and decoding all report failures as
//! located errors: a message naming the offending datum and its 1-based
//! (word, char) coordinate.

#![verifier::loop_isolation(false)]

pub mod morse;
pub mod parse;
pub mod text;
pub mod types;
