//! Content types, as the `mime` crate knows them. Verus does not read that
//! crate; what this module says of it is taken on trust.

use std::str::FromStr;
use vstd::prelude::*;

verus! {

/// The text of the media type that `mime` reads out of `text`, or `None`
/// where `mime` takes `text` for no media type.
pub uninterp spec fn parsed_media_type(text: Seq<char>) -> Option<Seq<char>>;

/// The view of an optional string.
pub open spec fn option_view(value: Option<String>) -> Option<Seq<char>> {
    match value {
        Some(text) => Some(text@),
        None => None,
    }
}

/// `mime::APPLICATION_OCTET_STREAM`, written out: the content type of a part
/// that is read from a source and was given no other.
#[verifier::external_body]
pub(crate) fn octet_stream() -> (content_type: String)
    ensures
        content_type@ == "application/octet-stream"@,
{
    mime::APPLICATION_OCTET_STREAM.to_string()
}

/// `mime::TEXT_PLAIN`, written out: the content type of a text part.
#[verifier::external_body]
pub(crate) fn text_plain() -> (content_type: String)
    ensures
        content_type@ == "text/plain"@,
{
    mime::TEXT_PLAIN.to_string()
}

/// `Mime::from_str` on `text`, and the media type it finds written out
/// again. What it finds depends on `text` alone.
#[verifier::external_body]
pub(crate) fn parse_media_type(text: &str) -> (found: Option<String>)
    ensures
        option_view(found) == parsed_media_type(text@),
{
    match mime::Mime::from_str(text) {
        Ok(media_type) => Some(media_type.to_string()),
        Err(_) => None,
    }
}

} // verus!
