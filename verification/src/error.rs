//! What can go wrong.

use vstd::prelude::*;

verus! {

/// A character that the alphabet does not hold.
#[derive(Debug, Clone, Copy, PartialEq, Eq)]
pub struct InvalidChar {
    pub character: char,
}

/// A text could not be decoded: at `position`, counted in characters from
/// the start of its chunk, stands `character`, which is neither in the
/// alphabet nor part of the padding that ends the chunk.
#[derive(Debug, Clone, Copy, PartialEq, Eq)]
pub struct DecodeError {
    pub position: usize,
    pub character: char,
}

impl View for DecodeError {
    type V = (nat, char);

    /// The place and the character.
    open spec fn view(&self) -> (nat, char) {
        (self.position as nat, self.character)
    }
}

/// The errors of the functions that take an encoding by its name.
#[derive(Debug, Clone, PartialEq, Eq)]
pub enum Error {
    /// No encoding has this name. The name is given as it was looked up:
    /// trimmed and in lower case.
    UnknownEncodingName { name: String },
    /// The text holds a character outside the alphabet.
    InvalidCharacter { position: usize, character: char },
    /// The decoded bytes are not well-formed UTF-8.
    InvalidText,
}

} // verus!
