//! The one place where this layer touches the payload's syntax: a document
//! is stored and returned as opaque text, and the only question ever asked
//! of it is whether that text parses as JSON.

use vstd::prelude::*;

verus! {

/// Whether a text is syntactically valid JSON. The answer is decided by
/// `serde_json`'s grammar and depends on the characters alone; this layer
/// never states what it is for any particular text.
pub uninterp spec fn json_valid(s: Seq<char>) -> bool;

/// Relies on `serde_json::from_str::<serde_json::Value>`: it succeeds on
/// exactly the texts that are valid JSON, from the input characters alone.
#[verifier::external_body]
pub(crate) fn json_text_valid(s: &str) -> (r: bool)
    ensures
        r == json_valid(s@),
{
    serde_json::from_str::<serde_json::Value>(s).is_ok()
}

} // verus!
