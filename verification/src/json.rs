//! What the library asks of JSON text. The text is parsed by `serde_json`;
//! nothing here says what JSON is, only what was asked and under which name
//! the answer goes.

use vstd::prelude::*;

verus! {

/// Whether the JSON value that `text` spells has a member named `field`;
/// `None` where `text` spells no JSON value.
pub uninterp spec fn json_field_present(text: Seq<char>, field: Seq<char>) -> Option<bool>;

/// The text that `serde_json` writes for the JSON value that `text` spells;
/// `None` where `text` spells no JSON value.
pub uninterp spec fn json_rendered(text: Seq<char>) -> Option<Seq<char>>;

/// Whether the bytes spell a JSON value.
pub uninterp spec fn is_json(bytes: Seq<u8>) -> bool;

/// The string that the member `field` of the JSON object that the bytes
/// spell holds; `None` where the bytes spell no object with such a member.
pub uninterp spec fn json_string_at(bytes: Seq<u8>, field: Seq<char>) -> Option<Seq<char>>;

/// `serde_json::from_slice` into a `Value`, then `Value::get` and
/// `Value::as_str` on the result. Trusted: the answer depends on the bytes
/// and the field's name alone.
#[verifier::external_body]
pub(crate) fn string_member(bytes: &[u8], field: &str) -> (r: Option<String>)
    ensures
        r is Some == json_string_at(bytes@, field@) is Some,
        r matches Some(s) ==> json_string_at(bytes@, field@) == Some(s@),
{
    serde_json::from_slice::<serde_json::Value>(bytes).ok().and_then(
        |value| value.get(field).and_then(|member| member.as_str()).map(|s| s.to_owned()),
    )
}

/// `serde_json::from_str` into a `Value`, and `Value::get` on the result.
/// Trusted: the answer depends on the text and the field's name alone.
#[verifier::external_body]
pub(crate) fn has_field(text: &str, field: &str) -> (r: Option<bool>)
    ensures
        r == json_field_present(text@, field@),
{
    serde_json::from_str::<serde_json::Value>(text).ok().map(|value| value.get(field).is_some())
}

/// `serde_json::from_str` into a `Value`, written out again by its
/// `to_string`. Trusted: the answer depends on the text alone.
#[verifier::external_body]
pub(crate) fn render(text: &str) -> (r: Option<String>)
    ensures
        r is Some == json_rendered(text@) is Some,
        r matches Some(s) ==> json_rendered(text@) == Some(s@),
{
    serde_json::from_str::<serde_json::Value>(text).ok().map(|value| value.to_string())
}

/// `serde_json::from_slice`, asked only whether it succeeds. Trusted: the
/// answer depends on the bytes alone.
#[verifier::external_body]
pub(crate) fn parses_as_json(bytes: &[u8]) -> (r: bool)
    ensures
        r == is_json(bytes@),
{
    serde_json::from_slice::<serde_json::Value>(bytes).is_ok()
}

} // verus!
