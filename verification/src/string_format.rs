//! A [`Format`] for plain UTF-8 text: content and defaults are `String`s.

use vstd::prelude::*;
use vstd::string::StrSliceExecFns;
use vstd::utf8::{decode_utf8, encode_utf8, encode_utf8_decode_utf8, encode_utf8_valid_utf8,
    valid_utf8};

use crate::errors::ConfigError;
use crate::format::{Deserialized, Format};

verus! {

/// Stores file contents as UTF-8 text. Decoding fails exactly on byte
/// sequences that are not valid UTF-8.
#[derive(Clone, Copy)]
pub struct StringFormat;

impl StringFormat {
    pub fn new() -> (r: Self) {
        StringFormat
    }
}

/// Relies on `String::from_utf8`: it succeeds exactly on valid UTF-8 input,
/// and then returns the string spelling those bytes.
#[verifier::external_body]
pub(crate) fn string_from_utf8(bytes: Vec<u8>) -> (r: Option<String>)
    ensures
        match r {
            Some(s) => valid_utf8(bytes@) && s@ == decode_utf8(bytes@),
            None => !valid_utf8(bytes@),
        },
{
    String::from_utf8(bytes).ok()
}

impl Format for StringFormat {
    type Content = String;

    type Defaults = String;

    open spec fn spec_deserialize(bytes: Seq<u8>, defaults: Option<Seq<char>>) -> Option<
        (Seq<char>, bool),
    > {
        if bytes.len() == 0 {
            Some((Self::spec_default_content(defaults), true))
        } else if valid_utf8(bytes) {
            Some((decode_utf8(bytes), false))
        } else {
            None
        }
    }

    open spec fn spec_serialize(content: Option<Seq<char>>) -> Seq<u8> {
        match content {
            Some(c) => encode_utf8(c),
            None => Seq::empty(),
        }
    }

    open spec fn spec_default_content(defaults: Option<Seq<char>>) -> Seq<char> {
        match defaults {
            Some(d) => d,
            None => Seq::empty(),
        }
    }

    proof fn lemma_deserialize_empty(defaults: Option<Seq<char>>) {
    }

    proof fn lemma_deserialize_nonempty(
        bytes: Seq<u8>,
        d1: Option<Seq<char>>,
        d2: Option<Seq<char>>,
    ) {
    }

    proof fn lemma_serialize_none() {
    }

    proof fn lemma_round_trip(c: Seq<char>, defaults: Option<Seq<char>>) {
        encode_utf8_valid_utf8(c);
        encode_utf8_decode_utf8(c);
    }

    fn deserialize(&self, input: Vec<u8>, defaults: Option<&String>) -> (r: Result<
        Deserialized<String>,
        ConfigError,
    >) {
        if input.len() > 0 {
            match string_from_utf8(input) {
                Some(s) => Ok(Deserialized(s, false)),
                None => Err(ConfigError::Decode),
            }
        } else {
            match defaults {
                Some(d) => Ok(Deserialized(d.clone(), true)),
                None => Ok(Deserialized(String::new(), true)),
            }
        }
    }

    fn serialize(&self, input: Option<&String>) -> (r: Vec<u8>) {
        match input {
            Some(s) => s.as_str().as_bytes_vec(),
            None => Vec::new(),
        }
    }
}

} // verus!
