//! Decoding of form-urlencoded text into pairs.
//!
//! The decoding itself is the work of the `url` crate's `form_urlencoded`
//! parser. This module gives its result a name for use in contracts and states
//! the one fact about it that the rest of the library relies on.

use vstd::prelude::*;

verus! {

/// The pairs that the `form_urlencoded` parser of the `url` crate yields for
/// `input`, in order: the text is split at each `&`, empty segments are passed
/// over, each segment is split at its first `=`, and in name and value `+`
/// becomes a space, `%XY` becomes the byte `0xXY`, and the bytes are read as
/// UTF-8 with U+FFFD in place of what is not.
pub uninterp spec fn form_pairs(input: Seq<char>) -> Seq<(Seq<char>, Seq<char>)>;

/// Whether `input` holds a segment that is not empty, that is, a character
/// other than `&`.
pub open spec fn has_segment(input: Seq<char>) -> bool {
    exists|i: int| 0 <= i < input.len() && #[trigger] input[i] != '&'
}

/// Calls `url::form_urlencoded::parse` on the bytes of `input` and collects
/// the pairs that it yields as owned strings.
///
/// Trusted: the pairs are those that `form_pairs` names, and there is at
/// least one of them exactly if the input has a segment that is not empty. The
/// parser yields one pair for each such segment and none for an empty one.
#[verifier::external_body]
fn parse_pairs(input: &str) -> (pairs: Vec<(String, String)>)
    ensures
        pairs.deep_view() == form_pairs(input@),
        pairs.len() > 0 <==> has_segment(input@),
{
    url::form_urlencoded::parse(input.as_bytes()).into_owned().collect()
}

/// Decodes form-urlencoded text into its (name, value) pairs, in order.
///
/// Never fails: text without a segment gives no pairs, and a malformed escape is
/// kept as it stands.
pub fn decode(input: &str) -> (pairs: Vec<(String, String)>)
    ensures
        pairs.deep_view() == form_pairs(input@),
        pairs.len() > 0 <==> has_segment(input@),
{
    parse_pairs(input)
}

} // verus!
