//! What the library has from other crates and, where the verifier has no specification of it,
//! from the standard library. Nothing here is proved: each contract is a claim about the function
//! that it names.
use bytes::buf::Reader;
use bytes::{Buf, Bytes};
use inflate::DeflateDecoder;
use reqwest::header::{HeaderValue, ToStrError};
use std::num::ParseIntError;
use std::string::FromUtf8Error;
use vstd::prelude::*;
use vstd::utf8::{decode_utf8, valid_utf8};

use crate::decimal::{decimal_value, has_fault, is_usize, unsigned_part, ParseFault};

verus! {

#[verifier::external_type_specification]
#[verifier::external_body]
pub struct ExBytes(Bytes);

#[verifier::external_type_specification]
#[verifier::external_body]
#[verifier::reject_recursive_types(B)]
pub struct ExReader<B>(Reader<B>);

#[verifier::external_type_specification]
#[verifier::external_body]
#[verifier::reject_recursive_types(R)]
pub struct ExDeflateDecoder<R>(DeflateDecoder<R>);

#[verifier::external_type_specification]
#[verifier::external_body]
pub struct ExHeaderValue(HeaderValue);

#[verifier::external_type_specification]
#[verifier::external_body]
pub struct ExToStrError(ToStrError);

/// The bytes that a `Bytes` holds.
pub uninterp spec fn contents(bytes: Bytes) -> Seq<u8>;

/// `Bytes::new` makes a `Bytes` that holds nothing.
pub assume_specification[ Bytes::new ]() -> (bytes: Bytes)
    ensures
        contents(bytes) == Seq::<u8>::empty(),
;

/// `Bytes::len` counts the bytes held.
pub assume_specification[ Bytes::len ](bytes: &Bytes) -> (len: usize)
    ensures
        len == contents(*bytes).len(),
;

/// `Bytes::split_to` hands out the first `at` bytes and keeps the rest. It panics where there are
/// fewer.
pub assume_specification[ Bytes::split_to ](bytes: &mut Bytes, at: usize) -> (front: Bytes)
    requires
        at <= contents(*old(bytes)).len(),
    ensures
        contents(front) == contents(*old(bytes)).take(at as int),
        contents(*final(bytes)) == contents(*old(bytes)).skip(at as int),
;

/// `Bytes::clone` makes a second handle to the same bytes.
pub assume_specification[ <Bytes as Clone>::clone ](bytes: &Bytes) -> (copy: Bytes)
    ensures
        contents(copy) == contents(*bytes),
;

/// `Bytes::deref` lends the bytes held as a slice.
pub assume_specification[ <Bytes as core::ops::Deref>::deref ](bytes: &Bytes) -> (slice: &[u8])
    ensures
        slice@ == contents(*bytes),
;

/// `Bytes::from`, of a vector, holds the bytes of the vector.
#[verifier::external_body]
pub(crate) fn bytes_from_vec(vec: Vec<u8>) -> (bytes: Bytes)
    ensures
        contents(bytes) == vec@,
{
    Bytes::from(vec)
}

/// The compressed bytes that a decoder has been given and has not read yet.
pub uninterp spec fn undecoded(decoder: DeflateDecoder<Reader<Bytes>>) -> Seq<u8>;

/// `DeflateDecoder::new` makes a reader that decompresses what it reads from `bytes`; it reads
/// none of it yet. What the reader gives when it is read, or how it fails on bytes that are not
/// DEFLATE, is left unsaid: the library hands it out unread.
#[verifier::external_body]
pub(crate) fn deflate_decoder(bytes: Bytes) -> (decoder: DeflateDecoder<Reader<Bytes>>)
    ensures
        undecoded(decoder) == contents(bytes),
{
    DeflateDecoder::new(bytes.reader())
}

/// The bytes of a header value.
pub uninterp spec fn header_bytes(value: HeaderValue) -> Seq<u8>;

/// Whether a byte of a header value is the code of a visible ASCII character, a space or a tab.
pub open spec fn is_visible_ascii(byte: u8) -> bool {
    32 <= byte < 127 || byte == 9
}

/// Whether all bytes of a header value are visible ASCII.
pub open spec fn is_visible_text(bytes: Seq<u8>) -> bool {
    forall|i: int| 0 <= i < bytes.len() ==> is_visible_ascii(#[trigger] bytes[i])
}

/// The text of a header value, one character for each byte.
pub open spec fn visible_text(bytes: Seq<u8>) -> Seq<char> {
    bytes.map_values(|byte: u8| byte as char)
}

/// `HeaderValue::to_str` gives the header value as text where all its bytes are visible ASCII,
/// and an error otherwise. The error holds nothing.
pub assume_specification[ HeaderValue::to_str ](value: &HeaderValue) -> (text: std::result::Result<
    &str,
    ToStrError,
>)
    ensures
        text is Ok <==> is_visible_text(header_bytes(*value)),
        text matches Ok(t) ==> t@ == visible_text(header_bytes(*value)),
;

#[verifier::external_type_specification]
#[verifier::external_body]
pub struct ExParseIntError(ParseIntError);

/// What `ParseIntError::kind` says of a text that could not be parsed to a `usize`.
pub uninterp spec fn parse_fault(error: ParseIntError) -> ParseFault;

/// `str::parse`, to a `usize`, takes an optional plus sign and then decimal digits, at least one
/// of them and nothing else; it refuses any other text, and a number that a `usize` cannot hold.
/// The error is of the kind `Empty` for no text, `PosOverflow` for digits of a number that is too
/// large and `InvalidDigit` for what is not digits. Where digits that are too large come before
/// what is not a digit, which of the last two it is is left unsaid.
#[verifier::external_body]
pub(crate) fn parse_usize(text: &str) -> (number: Result<usize, ParseIntError>)
    ensures
        number is Ok <==> is_usize(text@),
        number matches Ok(n) ==> n == decimal_value(unsigned_part(text@)),
        number matches Err(e) ==> has_fault(text@, parse_fault(e)),
{
    text.parse::<usize>()
}

#[verifier::external_type_specification]
#[verifier::external_body]
pub struct ExFromUtf8Error(FromUtf8Error);

/// `String::from_utf8` gives the text that the bytes encode where they are valid UTF-8, and an
/// error otherwise.
pub assume_specification[ String::from_utf8 ](vec: Vec<u8>) -> (text: std::result::Result<
    String,
    FromUtf8Error,
>)
    ensures
        text is Ok <==> valid_utf8(vec@),
        text matches Ok(t) ==> t@ == decode_utf8(vec@),
;

} // verus!
