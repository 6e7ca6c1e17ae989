//! Reading one JSON string with `serde_json`.

use vstd::prelude::*;

verus! {

/// The text that `serde_json` reads out of `text` where `text` is one JSON
/// string, and nothing where it is anything else.
pub uninterp spec fn json_string_value(text: Seq<char>) -> Option<Seq<char>>;

/// `serde_json::from_str` at the type `String`: it reads `text` as one JSON
/// string and fails on any other text. What it hands out depends on `text`
/// alone.
#[verifier::external_body]
pub(crate) fn read_json_string(text: &str) -> (value: Option<String>)
    ensures
        match value {
            Some(s) => json_string_value(text@) == Some(s@),
            None => json_string_value(text@) is None,
        },
{
    serde_json::from_str::<String>(text).ok()
}

} // verus!
