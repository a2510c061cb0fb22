//! Base64 text, as it stands in tokens and in values on the wire.

use vstd::prelude::*;
use crate::order::key_bytes;

verus! {

/// The error type of the `base64` crate's decoders. Nothing is read from it.
#[verifier::external_type_specification]
#[verifier::external_body]
pub struct ExDecodeError(base64::DecodeError);

/// The text that `base64::encode` makes of `data`: standard alphabet, padded.
pub uninterp spec fn standard_text(data: Seq<u8>) -> Seq<char>;

/// What `base64::decode` makes of `text`, `None` where it refuses the text.
pub uninterp spec fn standard_bytes(text: Seq<char>) -> Option<Seq<u8>>;

/// The text that `base64::encode_config` makes of `data` in its
/// `URL_SAFE_NO_PAD` configuration.
pub uninterp spec fn url_text(data: Seq<u8>) -> Seq<char>;

/// What `base64::decode_config` makes of `text` in its `URL_SAFE_NO_PAD`
/// configuration, `None` where it refuses the text.
pub uninterp spec fn url_bytes(text: Seq<char>) -> Option<Seq<u8>>;

/// Length of the padded text for `n` bytes.
pub open spec fn padded_len(n: nat) -> nat {
    (n + 2) / 3 * 4
}

/// Length of the unpadded text for `n` bytes.
pub open spec fn unpadded_len(n: nat) -> nat {
    n / 3 * 4 + if n % 3 == 0 { 0nat } else { (n % 3 + 1) as nat }
}

/// The encoders can size their output for `n` bytes.
pub open spec fn encoder_accepts(n: nat) -> bool {
    n / 3 * 4 + 4 <= usize::MAX
}

/// The decoders can size their output for a text of `n` bytes.
pub open spec fn decoder_accepts(n: nat) -> bool {
    n + 7 <= usize::MAX
}

/// `n` bytes can be written as text and that text read back.
pub open spec fn fits_text(n: nat) -> bool {
    n / 3 * 4 + 11 <= usize::MAX
}

/// The value that a base64 text stands for, if any.
pub open spec fn value_of_text(text: Seq<char>) -> Option<Seq<u8>> {
    if decoder_accepts(key_bytes(text).len()) {
        standard_bytes(text)
    } else {
        None
    }
}

/// The bytes that a token stands for, if any.
pub open spec fn bytes_of_token(text: Seq<char>) -> Option<Seq<u8>> {
    if decoder_accepts(key_bytes(text).len()) {
        url_bytes(text)
    } else {
        None
    }
}

/// Calls `base64::encode`. Trusted: the result is the named text, it is as
/// long as the crate's `encoded_size` says for a padded configuration, and
/// `base64::decode` gives the input back for it. The crate panics where the
/// output size overflows `usize`; `requires` keeps such input out.
#[verifier::external_body]
fn encode_standard(data: &[u8]) -> (r: String)
    requires
        encoder_accepts(data@.len()),
    ensures
        r@ == standard_text(data@),
        key_bytes(r@).len() == padded_len(data@.len()),
        standard_bytes(r@) == Some(data@),
{
    base64::encode(data)
}

/// Calls `base64::decode`. Trusted: the result is the named one. The crate
/// panics where the text's length plus seven overflows `usize`; `requires`
/// keeps such input out.
#[verifier::external_body]
fn decode_standard(text: &str) -> (r: Result<Vec<u8>, base64::DecodeError>)
    requires
        decoder_accepts(key_bytes(text@).len()),
    ensures
        match r {
            Ok(v) => standard_bytes(text@) == Some(v@),
            Err(_) => standard_bytes(text@) is None,
        },
{
    base64::decode(text)
}

/// Calls `base64::encode_config` with `URL_SAFE_NO_PAD`. Trusted: the result
/// is the named text, it is as long as the crate's `encoded_size` says for an
/// unpadded configuration, and `base64::decode_config` with the same
/// configuration gives the input back for it. `requires` as for
/// `encode_standard`.
#[verifier::external_body]
fn encode_url(data: &[u8]) -> (r: String)
    requires
        encoder_accepts(data@.len()),
    ensures
        r@ == url_text(data@),
        key_bytes(r@).len() == unpadded_len(data@.len()),
        url_bytes(r@) == Some(data@),
{
    base64::encode_config(data, base64::URL_SAFE_NO_PAD)
}

/// Calls `base64::decode_config` with `URL_SAFE_NO_PAD`. Trusted: the result
/// is the named one. `requires` as for `decode_standard`.
#[verifier::external_body]
fn decode_url(text: &str) -> (r: Result<Vec<u8>, base64::DecodeError>)
    requires
        decoder_accepts(key_bytes(text@).len()),
    ensures
        match r {
            Ok(v) => url_bytes(text@) == Some(v@),
            Err(_) => url_bytes(text@) is None,
        },
{
    base64::decode_config(text, base64::URL_SAFE_NO_PAD)
}

/// Whether `n` bytes can be written as text and read back.
fn check_fits(n: usize) -> (r: bool)
    ensures
        r == fits_text(n as nat),
{
    n / 3 <= (usize::MAX - 11) / 4
}

/// Whether a text of `n` bytes can be handed to a decoder.
fn check_decodable(n: usize) -> (r: bool)
    ensures
        r == decoder_accepts(n as nat),
{
    n <= usize::MAX - 7
}

/// Writes a value as padded base64 text; `None` where the value is too long
/// for that. The text takes four bytes for every three of the value, the
/// last group padded, and reads back to the value.
pub fn value_to_text(data: &[u8]) -> (r: Option<String>)
    ensures
        r is Some <==> fits_text(data@.len()),
        r matches Some(s) ==> s@ == standard_text(data@) && value_of_text(s@) == Some(data@)
            && key_bytes(s@).len() == padded_len(data@.len()),
{
    if check_fits(data.len()) {
        Some(encode_standard(data))
    } else {
        None
    }
}

/// Reads a value from base64 text; `None` where the text is not base64.
pub fn text_to_value(text: &str) -> (r: Option<Vec<u8>>)
    ensures
        match r {
            Some(v) => value_of_text(text@) == Some(v@),
            None => value_of_text(text@) is None,
        },
{
    if !check_decodable(text.as_bytes().len()) {
        return None;
    }
    match decode_standard(text) {
        Ok(v) => Some(v),
        Err(_) => None,
    }
}

/// Writes bytes as an unpadded URL-safe token; `None` where they are too
/// long for that. The token takes four bytes for every three that it
/// stands for, the last group cut short, and reads back to them.
pub fn bytes_to_token(data: &[u8]) -> (r: Option<String>)
    ensures
        r is Some <==> fits_text(data@.len()),
        r matches Some(s) ==> s@ == url_text(data@) && bytes_of_token(s@) == Some(data@)
            && key_bytes(s@).len() == unpadded_len(data@.len()),
{
    if check_fits(data.len()) {
        Some(encode_url(data))
    } else {
        None
    }
}

/// Reads the bytes of an unpadded URL-safe token; `None` where the text is
/// no such token.
pub fn token_to_bytes(text: &str) -> (r: Option<Vec<u8>>)
    ensures
        match r {
            Some(v) => bytes_of_token(text@) == Some(v@),
            None => bytes_of_token(text@) is None,
        },
{
    if !check_decodable(text.as_bytes().len()) {
        return None;
    }
    match decode_url(text) {
        Ok(v) => Some(v),
        Err(_) => None,
    }
}

} // verus!
