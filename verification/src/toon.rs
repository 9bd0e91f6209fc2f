//! TOON text of JSON documents, written by the `toon-format` crate.
use vstd::prelude::*;

verus! {

/// The TOON text that `toon_format::encode_default` writes for the JSON
/// value that `serde_json::from_str` reads from the text `json` (objects
/// keep the order of their fields).
pub uninterp spec fn toon_of_json(json: Seq<char>) -> Seq<char>;

/// Whether `serde_json::from_str` reads the text `json` and
/// `toon_format::encode_default` then encodes the value read: both depend on
/// the text alone (the reader refuses invalid JSON and nesting deeper than
/// 128; the encoder refuses nesting deeper than 256).
pub uninterp spec fn toon_encodes(json: Seq<char>) -> bool;

/// Reads `json` with `serde_json::from_str` into a `serde_json::Value` and
/// calls `toon_format::encode_default` on it. Claimed: the result is `Ok`
/// exactly when `toon_encodes(json)`, and then it is `toon_of_json(json)`; a
/// failure of either call is passed on as its message.
#[verifier::external_body]
pub(crate) fn encode_toon(json: &str) -> (r: Result<String, String>)
    ensures
        r is Ok <==> toon_encodes(json@),
        r matches Ok(t) ==> t@ == toon_of_json(json@),
{
    let value: serde_json::Value = serde_json::from_str(json).map_err(|e| e.to_string())?;
    toon_format::encode_default(&value).map_err(|e| e.to_string())
}

} // verus!
