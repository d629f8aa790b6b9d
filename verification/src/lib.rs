//! A binary-to-text codec in the manner of Base64, over an arbitrary
//! alphabet: latin letters, kana, CJK ideographs, Hangul syllables.
//!
//! The functions of this file take an encoding by its name. The encodings
//! themselves are in [`encoding`], what they compute is defined in
//! [`codec`], and [`laws`] holds what is proved of every one of them.

pub mod bits;
pub mod charspace;
pub mod codec;
pub mod encoding;
pub mod error;
pub mod laws;
pub mod padding;
pub mod repack;

use crate::encoding::config::registry;
use crate::encoding::{get_encodings as all_encodings, normalized, position_of, Encoding};
use crate::error::Error;
use std::str::FromStr;
use vstd::prelude::*;
use vstd::utf8::{encode_utf8 as utf8_bytes, valid_utf8};

verus! {

/// `String::from_utf8` makes a string of the bytes where they are
/// well-formed UTF-8, and fails where they are not. The string then has
/// just these bytes.
#[verifier::external_body]
fn string_from_utf8(bytes: Vec<u8>) -> (r: Option<String>)
    ensures
        r is Some <==> valid_utf8(bytes@),
        r matches Some(s) ==> utf8_bytes(s@) == bytes@,
{
    match String::from_utf8(bytes) {
        Ok(s) => Some(s),
        Err(_) => None,
    }
}

/// What an encoding is called and how wide its symbols are.
#[derive(Debug, Clone, PartialEq, Eq)]
pub struct EncodingDescription {
    pub name: String,
    pub description: String,
    pub bitcount: u8,
}

/// The bytes that `text` stands for in the encoding named `charset`.
pub fn decode(text: &str, charset: &str) -> (r: Result<Vec<u8>, Error>)
    ensures
        match position_of(normalized(charset@)) {
            None => r matches Err(Error::UnknownEncodingName { name }) && name@ == normalized(
                charset@,
            ),
            Some(i) => match registry()[i].codec.decode(text@) {
                Ok(bytes) => r matches Ok(v) && v@ == bytes,
                Err((p, c)) => r matches Err(Error::InvalidCharacter { position, character })
                    && position == p && character == c,
            },
        },
{
    let codec = match Encoding::from_str(charset) {
        Ok(codec) => codec,
        Err(e) => {
            return Err(e);
        },
    };
    match codec.decode(text) {
        Ok(dec) => Ok(dec),
        Err(e) => Err(Error::InvalidCharacter { position: e.position, character: e.character }),
    }
}

/// The text whose UTF-8 bytes `text` stands for in the encoding named
/// `charset`.
pub fn decode_utf8(text: &str, charset: &str) -> (r: Result<String, Error>)
    ensures
        match position_of(normalized(charset@)) {
            None => r matches Err(Error::UnknownEncodingName { name }) && name@ == normalized(
                charset@,
            ),
            Some(i) => match registry()[i].codec.decode(text@) {
                Ok(bytes) => if valid_utf8(bytes) {
                    r matches Ok(s) && utf8_bytes(s@) == bytes
                } else {
                    r == Err::<String, Error>(Error::InvalidText)
                },
                Err((p, c)) => r matches Err(Error::InvalidCharacter { position, character })
                    && position == p && character == c,
            },
        },
{
    let dec = match decode(text, charset) {
        Ok(dec) => dec,
        Err(e) => {
            return Err(e);
        },
    };
    match string_from_utf8(dec) {
        Some(s) => Ok(s),
        None => Err(Error::InvalidText),
    }
}

/// The text that stands for `text` in the encoding named `charset`.
pub fn encode(text: &[u8], charset: &str) -> (r: Result<String, Error>)
    ensures
        match position_of(normalized(charset@)) {
            None => r matches Err(Error::UnknownEncodingName { name }) && name@ == normalized(
                charset@,
            ),
            Some(i) => r matches Ok(s) && s@ == registry()[i].codec.encode(text@),
        },
{
    match Encoding::from_str(charset) {
        Ok(codec) => Ok(codec.encode(text)),
        Err(e) => Err(e),
    }
}

/// The text that stands for the UTF-8 bytes of `text` in the encoding named
/// `charset`.
pub fn encode_utf8(text: &str, charset: &str) -> (r: Result<String, Error>)
    ensures
        match position_of(normalized(charset@)) {
            None => r matches Err(Error::UnknownEncodingName { name }) && name@ == normalized(
                charset@,
            ),
            Some(i) => r matches Ok(s) && s@ == registry()[i].codec.encode(utf8_bytes(text@)),
        },
{
    encode(text.as_bytes(), charset)
}

/// The names of the encodings.
pub fn get_encodings() -> (names: Vec<&'static str>)
    ensures
        names@.len() == registry().len(),
        forall|i: int| 0 <= i < names@.len() ==> (#[trigger] names@[i])@ == registry()[i].name,
{
    let all = all_encodings();
    let mut names: Vec<&'static str> = Vec::new();
    let mut i: usize = 0;
    while i < all.len()
        invariant
            i <= all.len(),
            all@.len() == registry().len(),
            forall|j: int| 0 <= j < all@.len() ==> crate::encoding::is_entry(#[trigger] all@[j], j),
            names@.len() == i,
            forall|j: int| 0 <= j < i ==> (#[trigger] names@[j])@ == registry()[j].name,
        decreases all.len() - i,
    {
        names.push(all[i].short_name());
        i += 1;
    }
    names
}

/// The encodings, each with its names and the width of its symbols.
pub fn get_encoding_descriptions() -> (list: Vec<EncodingDescription>)
    ensures
        list@.len() == registry().len(),
        forall|i: int|
            0 <= i < list@.len() ==> {
                &&& (#[trigger] list@[i]).name@ == registry()[i].name
                &&& list@[i].description@ == registry()[i].long_name
                &&& list@[i].bitcount == registry()[i].codec.bitcount()
            },
{
    let all = all_encodings();
    let mut list: Vec<EncodingDescription> = Vec::new();
    let mut i: usize = 0;
    while i < all.len()
        invariant
            i <= all.len(),
            all@.len() == registry().len(),
            forall|j: int| 0 <= j < all@.len() ==> crate::encoding::is_entry(#[trigger] all@[j], j),
            list@.len() == i,
            forall|j: int|
                0 <= j < i ==> {
                    &&& (#[trigger] list@[j]).name@ == registry()[j].name
                    &&& list@[j].description@ == registry()[j].long_name
                    &&& list@[j].bitcount == registry()[j].codec.bitcount()
                },
        decreases all.len() - i,
    {
        let x = &all[i];
        list.push(
            EncodingDescription {
                name: x.short_name().to_owned(),
                description: x.description().to_owned(),
                bitcount: x.bitcount(),
            },
        );
        i += 1;
    }
    list
}

} // verus!
