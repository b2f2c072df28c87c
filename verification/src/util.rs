//! The context that requests are handled in, and small helpers.

use vstd::prelude::*;
use crate::config::Config;
use crate::hmac::{INPUT_LIMIT, Key};

verus! {

/// Whether two string slices hold the same text.
///
/// Wraps `==` of `str`, of which the standard library says that it compares
/// the two slices' contents.
#[verifier::external_body]
pub(crate) fn str_eq(a: &str, b: &str) -> (r: bool)
    ensures
        r == (a@ == b@),
{
    a == b
}

/// The number that a hexadecimal digit stands for; upper and lower case both count.
pub open spec fn hex_digit(c: char) -> Option<u8> {
    if '0' <= c <= '9' {
        Some((c as u32 - '0' as u32) as u8)
    } else if 'a' <= c <= 'f' {
        Some((c as u32 - 'a' as u32 + 10) as u8)
    } else if 'A' <= c <= 'F' {
        Some((c as u32 - 'A' as u32 + 10) as u8)
    } else {
        None
    }
}

/// The bytes that `text` stands for in hexadecimal, two digits to a byte,
/// the high digit first. `None` where the digits are not paired or `text`
/// holds anything but digits.
pub open spec fn hex_decoded(text: Seq<char>) -> Option<Seq<u8>> {
    if text.len() % 2 == 0 && forall|i: int| 0 <= i < text.len() ==> hex_digit(text[i]) is Some {
        Some(
            Seq::new(
                text.len() / 2,
                |i: int| (hex_digit(text[2 * i])->0 * 16 + hex_digit(text[2 * i + 1])->0) as u8,
            ),
        )
    } else {
        None
    }
}

/// Why a text was refused as a signing key.
#[derive(Clone, Copy, Debug, PartialEq, Eq, Structural)]
pub enum KeyError {
    /// The text is not hexadecimal.
    NotHex,
    /// The key is longer than a key may be.
    TooLong,
}

/// Decodes a text of hexadecimal digits.
///
/// Wraps `hex::decode`, which refuses a text of odd length and any byte that
/// is not one of `0-9`, `a-f`, `A-F`, and otherwise makes one byte of every
/// two digits, the first being the high half.
#[verifier::external_body]
fn hex_decode(text: &str) -> (r: Option<Vec<u8>>)
    ensures
        match r {
            Some(bytes) => hex_decoded(text@) == Some(bytes@),
            None => hex_decoded(text@) is None,
        },
{
    match hex::decode(text) {
        Ok(bytes) => Some(bytes),
        Err(_) => None,
    }
}

/// Reads a signing key that is written in hexadecimal.
pub fn deserialize(text: &str) -> (r: Result<Key, KeyError>)
    ensures
        match r {
            Ok(key) => hex_decoded(text@) == Some(key@),
            Err(KeyError::NotHex) => hex_decoded(text@) is None,
            Err(KeyError::TooLong) => hex_decoded(text@) matches Some(bytes) && bytes.len()
                >= INPUT_LIMIT,
        },
{
    let bytes = match hex_decode(text) {
        Some(bytes) => bytes,
        None => {
            return Err(KeyError::NotHex);
        },
    };
    match Key::new(bytes) {
        Some(key) => Ok(key),
        None => Err(KeyError::TooLong),
    }
}

/// What a request is handled with: the configuration of the service.
pub struct Ctx<'r>(pub &'r Config);

impl<'r> Ctx<'r> {
    /// The configuration.
    pub fn config(&self) -> (c: &Config)
        ensures
            c == self.0,
    {
        self.0
    }
}

} // verus!
