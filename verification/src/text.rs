//! Text values: strings of 7-bit characters, the only payload the protocol carries.

use ascii::AsciiString;
use vstd::prelude::*;

use crate::wire::is_ascii;

verus! {

/// `ascii::AsciiString`, of which the verifier sees nothing but `ascii_bytes`.
#[verifier::external_type_specification]
#[verifier::external_body]
pub struct ExAsciiString(AsciiString);

/// The characters of `s` as bytes, first to last.
pub uninterp spec fn ascii_bytes(s: AsciiString) -> Seq<u8>;

/// The characters that the bytes of a text value stand for.
pub open spec fn chars_of(bytes: Seq<u8>) -> Seq<char> {
    Seq::new(bytes.len(), |i: int| bytes[i] as char)
}

/// `AsciiString::from_ascii`, which accepts `raw` when every byte is below 128
/// and keeps the bytes as they are; otherwise it hands `raw` back untouched
/// (`FromAsciiError::into_source`).
#[verifier::external_body]
fn ascii_from_bytes(raw: Vec<u8>) -> (r: Result<AsciiString, Vec<u8>>)
    ensures
        match r {
            Ok(s) => is_ascii(raw@) && ascii_bytes(s) == raw@,
            Err(rejected) => !is_ascii(raw@) && rejected@ == raw@,
        },
{
    match AsciiString::from_ascii(raw) {
        Ok(s) => Ok(s),
        Err(e) => Err(e.into_source()),
    }
}

/// `Clone` for `AsciiString`, which the crate derives: the copy holds the same characters.
pub assume_specification[ <AsciiString as Clone>::clone ](s: &AsciiString) -> (copy: AsciiString)
    ensures
        ascii_bytes(copy) == ascii_bytes(*s),
;

/// `AsciiStr::as_bytes`, reached through `AsciiString`: the characters as a byte slice.
#[verifier::external_body]
fn ascii_as_bytes(s: &AsciiString) -> (bytes: &[u8])
    ensures
        bytes@ == ascii_bytes(*s),
{
    s.as_bytes()
}

/// `AsciiString::len`: the number of characters.
#[verifier::external_body]
fn ascii_len(s: &AsciiString) -> (n: usize)
    ensures
        n == ascii_bytes(*s).len(),
{
    s.len()
}

/// `Display for AsciiString`, through `to_string`: the same characters as a `String`.
#[verifier::external_body]
fn ascii_to_string(s: &AsciiString) -> (text: String)
    ensures
        text@ == chars_of(ascii_bytes(*s)),
{
    s.to_string()
}

/// Bytes that were refused as a text value because one of them is 128 or above.
#[derive(Debug, PartialEq, Eq)]
pub struct EncodingError {
    /// The refused bytes, unchanged.
    pub rejected: Vec<u8>,
}

/// A validated string of 7-bit characters. It cannot be changed once made.
#[derive(Debug, PartialEq, Eq)]
pub struct TextValue {
    inner: AsciiString,
}

impl View for TextValue {
    type V = Seq<u8>;

    closed spec fn view(&self) -> Seq<u8> {
        ascii_bytes(self.inner)
    }
}

impl Clone for TextValue {
    fn clone(&self) -> (copy: Self)
        ensures
            copy@ == self@,
    {
        proof {
            use_type_invariant(self);
        }
        TextValue { inner: self.inner.clone() }
    }
}

impl TextValue {
    #[verifier::type_invariant]
    spec fn valid(self) -> bool {
        is_ascii(ascii_bytes(self.inner))
    }

    /// Validates `raw`. Fails if and only if a byte is 128 or above; the bytes
    /// are then handed back in the error.
    pub fn from_bytes(raw: Vec<u8>) -> (r: Result<TextValue, EncodingError>)
        ensures
            match r {
                Ok(text) => is_ascii(raw@) && text@ == raw@,
                Err(e) => !is_ascii(raw@) && e.rejected@ == raw@,
            },
    {
        match ascii_from_bytes(raw) {
            Ok(inner) => Ok(TextValue { inner }),
            Err(rejected) => Err(EncodingError { rejected }),
        }
    }

    /// The bytes of the text. Every one of them is below 128.
    pub fn as_bytes(&self) -> (bytes: &[u8])
        ensures
            bytes@ == self@,
            is_ascii(self@),
    {
        proof {
            use_type_invariant(self);
        }
        ascii_as_bytes(&self.inner)
    }

    /// The number of bytes.
    pub fn len(&self) -> (n: usize)
        ensures
            n == self@.len(),
    {
        ascii_len(&self.inner)
    }

    /// The text as a `String`, character for character.
    pub fn to_string(&self) -> (text: String)
        ensures
            text@ == chars_of(self@),
    {
        ascii_to_string(&self.inner)
    }
}

} // verus!
