//! Tokens: fixed-size opaque session identifiers, carried to clients as
//! base64 text. A token string is accepted only if it decodes to exactly
//! [`TOKEN_LEN`] bytes; anything else is rejected as an invalid token before
//! any registry is touched.

use vstd::prelude::*;
use crate::messages::SessionError;

verus! {

/// Byte length of every token.
pub const TOKEN_LEN: usize = 32;

/// The base64 text that the standard (RFC 4648, padded) encoding produces for
/// a byte sequence. The encoding is a pure function of the bytes; its exact
/// definition is left to the base64 crate.
pub uninterp spec fn b64_of(bytes: Seq<u8>) -> Seq<char>;

/// What the standard (RFC 4648, padded) base64 decoding yields for a text:
/// `Some(bytes)` for a canonical encoding of `bytes`, `None` for text that is
/// not valid padded base64. A pure function of the text.
pub uninterp spec fn b64_decoded(s: Seq<char>) -> Option<Seq<u8>>;

/// The token bytes a wire string stands for: the base64 decoding when it has
/// exactly [`TOKEN_LEN`] bytes, nothing otherwise.
pub open spec fn decoded_token(s: Seq<char>) -> Option<Seq<u8>> {
    match b64_decoded(s) {
        Some(b) => if b.len() == TOKEN_LEN {
            Some(b)
        } else {
            None
        },
        None => None,
    }
}

/// Relies on base64's `Engine::encode` with the `STANDARD` engine: encodes
/// bytes as padded base64 (RFC 4648), a pure function of the input, and the
/// same engine's decode restores the input exactly (the crate documents the
/// pairing; `encode` can panic only when the output length overflows `usize`,
/// which the length bound rules out).
#[verifier::external_body]
fn b64_encode(bytes: &Vec<u8>) -> (r: String)
    requires
        bytes@.len() <= 0x1000_0000,
    ensures
        r@ == b64_of(bytes@),
        b64_decoded(r@) == Some(bytes@),
{
    base64::Engine::encode(&base64::engine::general_purpose::STANDARD, bytes)
}

/// Relies on base64's `Engine::decode` with the `STANDARD` engine: returns
/// the decoded bytes for valid padded base64 and an error otherwise, a pure
/// function of the input text.
#[verifier::external_body]
fn b64_decode(s: &String) -> (r: Option<Vec<u8>>)
    ensures
        match r {
            Some(v) => b64_decoded(s@) == Some(v@),
            None => b64_decoded(s@) is None,
        },
{
    base64::Engine::decode(&base64::engine::general_purpose::STANDARD, s.as_str()).ok()
}

/// Encode a token for the wire.
pub fn encode_token(token: &Vec<u8>) -> (r: String)
    requires
        token@.len() == TOKEN_LEN,
    ensures
        r@ == b64_of(token@),
        b64_decoded(r@) == Some(token@),
{
    b64_encode(token)
}

/// Decode a token string. Succeeds exactly on text that decodes to
/// [`TOKEN_LEN`] bytes; every other string is rejected as `InvalidToken`,
/// never partially accepted.
pub fn decode_token(s: &String) -> (r: Result<Vec<u8>, SessionError>)
    ensures
        match r {
            Ok(t) => b64_decoded(s@) == Some(t@) && t@.len() == TOKEN_LEN,
            Err(e) => {
                &&& e == SessionError::InvalidToken
                &&& match b64_decoded(s@) {
                    Some(b) => b.len() != TOKEN_LEN,
                    None => true,
                }
            },
        },
{
    match b64_decode(s) {
        Some(bytes) => {
            if bytes.len() == TOKEN_LEN {
                Ok(bytes)
            } else {
                Err(SessionError::InvalidToken)
            }
        },
        None => Err(SessionError::InvalidToken),
    }
}

} // verus!
