//! The size of an archive, as a server tells it.
use reqwest::header::HeaderValue;
use vstd::prelude::*;

use crate::decimal::{
    decimal_value, has_fault, is_decimal, is_digit, is_usize, unsigned_part,
};
use crate::error::{Error, Result};
use crate::outside::{
    header_bytes, is_visible_ascii, is_visible_text, parse_fault, parse_usize, visible_text,
};

verus! {

/// Whether a `content-length` header value is what `length` says of it: no header, not ASCII, not a
/// number and for what fault, or that number.
pub open spec fn is_length(value: Option<&HeaderValue>, length: Result<usize>) -> bool {
    match value {
        None => length matches Err(Error::ContentLengthMissing),
        Some(value) => {
            let bytes = header_bytes(*value);
            let text = visible_text(bytes);
            if !is_visible_text(bytes) {
                length matches Err(Error::ContentLengthInvalidAscii(_))
            } else if !is_usize(text) {
                length matches Err(Error::ContentLengthParse(e)) && has_fault(text, parse_fault(e))
            } else {
                length matches Ok(number) && number == decimal_value(unsigned_part(text))
            }
        },
    }
}

/// Retrieve the Content-Length from the reply to a HEAD request.
///
/// # Errors
/// If the Content-Length is not present or malformed.
pub fn request_content_length(value: Option<&HeaderValue>) -> (length: Result<usize>)
    ensures
        is_length(value, length),
{
    let value = match value {
        Some(value) => value,
        None => {
            return Err(Error::ContentLengthMissing);
        },
    };
    let value = match value.to_str() {
        Ok(value) => value,
        Err(e) => {
            return Err(Error::ContentLengthInvalidAscii(e));
        },
    };
    match parse_usize(value) {
        Ok(value) => Ok(value),
        Err(e) => Err(Error::ContentLengthParse(e)),
    }
}

/// A `content-length` header that is digits, with or without a plus sign before them, is the number
/// that they stand for, or an error where the number is too large.
pub proof fn law_length_of_digits(value: &HeaderValue, length: Result<usize>, digits: Seq<char>)
    requires
        is_length(Some(value), length),
        is_visible_text(header_bytes(*value)),
        is_decimal(digits),
        visible_text(header_bytes(*value)) == digits || visible_text(header_bytes(*value)) == seq![
            '+',
        ] + digits,
    ensures
        decimal_value(digits) <= usize::MAX ==> (length matches Ok(number) && number
            == decimal_value(digits)),
        decimal_value(digits) > usize::MAX ==> (length matches Err(Error::ContentLengthParse(_))),
{
    let text = visible_text(header_bytes(*value));
    if text == digits {
        assert(is_digit(text[0]));
        assert(unsigned_part(text) == digits);
    } else {
        assert(text.skip(1) =~= digits);
        assert(unsigned_part(text) == digits);
    }
}

/// Without a `content-length` header, with one that is not visible ASCII, or with one that is not
/// digits behind a plus sign or without one, there is an error that says so.
pub proof fn law_no_length(value: Option<&HeaderValue>, length: Result<usize>)
    requires
        is_length(value, length),
    ensures
        match value {
            None => length matches Err(Error::ContentLengthMissing),
            Some(value) => {
                let bytes = header_bytes(*value);
                &&& (exists|i: int|
                    0 <= i < bytes.len() && !(#[trigger] bytes[i] == 9 || 32 <= bytes[i] <= 126))
                    ==> (length matches Err(Error::ContentLengthInvalidAscii(_)))
                &&& (forall|i: int|
                    0 <= i < bytes.len() ==> (#[trigger] bytes[i] == 9 || 32 <= bytes[i] <= 126))
                    && (bytes.len() == 0 || bytes == seq![43u8] || (exists|i: int|
                    1 <= i < bytes.len() && !(48 <= #[trigger] bytes[i] <= 57)) || (bytes[0] != 43
                    && !(48 <= bytes[0] <= 57))) ==> (length matches Err(
                    Error::ContentLengthParse(_),
                ))
            },
        },
{
    if let Some(value) = value {
        let bytes = header_bytes(*value);
        let text = visible_text(bytes);
        if exists|i: int|
            0 <= i < bytes.len() && !(#[trigger] bytes[i] == 9 || 32 <= bytes[i] <= 126) {
            let i = choose|i: int|
                0 <= i < bytes.len() && !(#[trigger] bytes[i] == 9 || 32 <= bytes[i] <= 126);
            assert(!is_visible_ascii(bytes[i]));
        } else {
            assert(forall|i: int| 0 <= i < bytes.len() ==> is_visible_ascii(#[trigger] bytes[i]));
            assert(forall|i: int| 0 <= i < text.len() ==> #[trigger] text[i] == bytes[i] as char);
            if exists|i: int| 1 <= i < bytes.len() && !(48 <= #[trigger] bytes[i] <= 57) {
                let i = choose|i: int| 1 <= i < bytes.len() && !(48 <= #[trigger] bytes[i] <= 57);
                let number = unsigned_part(text);
                let j = if text[0] == '+' {
                    i - 1
                } else {
                    i
                };
                assert(number[j] == text[i]);
                assert(!is_digit(number[j]));
            } else if bytes == seq![43u8] {
                assert(unsigned_part(text).len() == 0);
            } else if bytes.len() > 0 && bytes[0] != 43 && !(48 <= bytes[0] <= 57) {
                assert(!is_digit(text[0]));
            }
        }
    }
}

} // verus!
