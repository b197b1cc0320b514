//! The calls that leave this crate. Nothing in this file is proved: each
//! contract below is taken on trust from the documentation of the function
//! that it describes.

use vstd::prelude::*;

verus! {

/// `String::push` of the standard library: appends one character to the end
/// of the string and changes nothing else.
pub assume_specification[ String::push ](s: &mut String, c: char)
    ensures
        final(s)@ == old(s)@.push(c),
;

/// The error type of `serde_json`. Nothing is known of a value of it.
#[verifier::external_type_specification]
#[verifier::external_body]
pub struct ExJsonError(serde_json::Error);

/// What `regex::Regex::captures` finds for capture groups 1 and 2 when the
/// regular expression `pattern` is searched in `haystack`: the text of the
/// two groups in the leftmost match, or `None` where the pattern does not
/// compile, nothing matches, or one of the two groups took no part in the
/// match.
pub uninterp spec fn regex_capture_pair(pattern: Seq<char>, haystack: Seq<char>) -> Option<
    (Seq<char>, Seq<char>),
>;

/// The views of a pair of strings.
pub open spec fn pair_view(p: Option<(String, String)>) -> Option<(Seq<char>, Seq<char>)> {
    match p {
        Some((a, b)) => Some((a@, b@)),
        None => None,
    }
}

/// Compiles `pattern` with `regex::Regex::new`, searches `haystack` with
/// `Regex::captures`, and hands out the text (`Captures::get`, then
/// `Match::as_str`) of capture groups 1 and 2. The contract claims only that
/// the outcome depends on the two texts alone.
#[verifier::external_body]
pub(crate) fn capture_pair(pattern: &str, haystack: &str) -> (r: Option<(String, String)>)
    ensures
        pair_view(r) == regex_capture_pair(pattern@, haystack@),
{
    let re = regex::Regex::new(pattern).ok()?;
    let caps = re.captures(haystack)?;
    let first = caps.get(1)?;
    let second = caps.get(2)?;
    Some((first.as_str().to_string(), second.as_str().to_string()))
}

/// `serde_json::to_string`: the JSON text of `data`, or the error that the
/// encoder or the payload's own `Serialize` impl gave. That impl is run as it
/// is; nothing is claimed of the text.
#[verifier::external_body]
pub(crate) fn encode_payload<T: serde::Serialize>(data: &T) -> (r: Result<
    String,
    serde_json::Error,
>) {
    serde_json::to_string(data)
}

/// `serde_json::from_str`: the value that the JSON text `text` denotes for
/// the type `T`, or the error that the decoder or the payload's own
/// `Deserialize` impl gave. Nothing is claimed of the value.
#[verifier::external_body]
pub(crate) fn decode_payload<T: serde::de::DeserializeOwned>(text: &str) -> (r: Result<
    T,
    serde_json::Error,
>) {
    serde_json::from_str(text)
}

} // verus!
