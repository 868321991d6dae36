//! Quest shares arrive base64-encoded and are kept as text.
use vstd::prelude::*;

use crate::errors::AppError;

verus! {

/// What the `base64` crate's standard engine (standard alphabet, padded)
/// decodes a text to, or nothing when the text is no such encoding.
pub uninterp spec fn base64_decoded_of(s: Seq<char>) -> Option<Seq<u8>>;

/// The text whose UTF-8 encoding the bytes are, or nothing when they are no
/// valid UTF-8.
pub uninterp spec fn utf8_text_of(b: Seq<u8>) -> Option<Seq<char>>;

/// Relies on base64's `Engine::decode` with `BASE64_STANDARD`: the result
/// depends on the text alone.
#[verifier::external_body]
fn base64_decode(s: &str) -> (r: Option<Vec<u8>>)
    ensures
        match r {
            Some(b) => base64_decoded_of(s@) == Some(b@),
            None => base64_decoded_of(s@) is None,
        },
{
    base64::Engine::decode(&base64::prelude::BASE64_STANDARD, s).ok()
}

/// Relies on std's `String::from_utf8`: the text that the bytes encode, when
/// they are valid UTF-8.
#[verifier::external_body]
fn utf8_decode(b: Vec<u8>) -> (r: Option<String>)
    ensures
        match r {
            Some(t) => utf8_text_of(b@) == Some(t@),
            None => utf8_text_of(b@) is None,
        },
{
    String::from_utf8(b).ok()
}

/// The share text that a base64 payload carries, if it carries one.
pub open spec fn share_of(s: Seq<char>) -> Option<Seq<char>> {
    match base64_decoded_of(s) {
        Some(b) => utf8_text_of(b),
        None => None,
    }
}

/// Decodes a base64-encoded share into its text; a payload that is not
/// base64, or whose bytes are not UTF-8, is refused.
pub fn deserialize_quest_share(share: String) -> (r: Result<String, AppError>)
    ensures
        match share_of(share@) {
            Some(t) => r is Ok && r.unwrap()@ == t,
            None => r == Err::<String, AppError>(AppError::InvalidQuestShare),
        },
{
    match base64_decode(share.as_str()) {
        Some(bytes) => match utf8_decode(bytes) {
            Some(text) => Ok(text),
            None => Err(AppError::InvalidQuestShare),
        },
        None => Err(AppError::InvalidQuestShare),
    }
}

} // verus!
