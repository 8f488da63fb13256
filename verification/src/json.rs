//! Parameters from a JSON object: parsing, the object-shape check, and the
//! coercion of each member value to its text form.
//!
//! The file reading itself lives with the caller; this module takes the
//! file's text. The whole step — parse, object check, member coercion — is
//! deterministic in that text alone, so its outcome is given a name and the
//! collector's contract is exact over that name.

use crate::keyvalue::pairs_text_view;
use crate::{ApplicationError, GenericError};
use vstd::prelude::*;

verus! {

/// What collecting parameters from a JSON text yields: `Some` exactly when
/// the text parses as JSON with an object at the top level, and then one
/// (name, text) pair per member, in the object's stored order — a string
/// member passes through unchanged, `null` becomes the literal text `null`,
/// and numbers, arrays, objects and booleans become their canonical JSON
/// text. Named: serde_json's parsing and serialization depend on the text
/// alone.
pub uninterp spec fn json_object_pairs_of(text: Seq<char>) -> Option<Seq<(Seq<char>, Seq<char>)>>;

/// Relies on `serde_json::from_str` and `serde_json::to_string`: parses the
/// text, takes the members of a top-level object, and coerces each member
/// value to text — the `String` variant hands its text over, `Null` becomes
/// the literal text `null`, and every other variant is written back as
/// canonical JSON. `None` when the text does not parse or its top level is
/// not an object.
#[verifier::external_body]
fn parse_json_object_pairs(text: &str) -> (r: Option<Vec<(String, String)>>)
    ensures
        r is Some <==> json_object_pairs_of(text@) is Some,
        r matches Some(v) ==> Some(pairs_text_view(v@)) == json_object_pairs_of(text@),
{
    let parsed: serde_json::Value = serde_json::from_str(text).ok()?;
    let members = match parsed {
        serde_json::Value::Object(o) => o,
        _ => return None,
    };
    let mut out: Vec<(String, String)> = Vec::new();
    for (name, value) in members {
        let text_value = match value {
            serde_json::Value::String(s) => s,
            serde_json::Value::Null => String::from("null"),
            other => serde_json::to_string(&other).ok()?,
        };
        out.push((name, text_value));
    }
    Some(out)
}

/// Collects name/value pairs from the text of a JSON parameter file. The
/// text must parse as JSON and must be an object — anything else is a
/// malformed input, and no partial parameter list is handed out. Each member
/// becomes one parameter: its name the member name, its value the member
/// value as text per [`json_object_pairs_of`].
pub fn get_keyvalue_from_json_str(text: &str) -> (r: Result<
    Vec<(String, String)>,
    ApplicationError,
>)
    ensures
        r is Ok <==> json_object_pairs_of(text@) is Some,
        r matches Ok(v) ==> Some(pairs_text_view(v@)) == json_object_pairs_of(text@),
        r matches Err(e) ==> e is MalformedInput,
{
    match parse_json_object_pairs(text) {
        Some(pairs) => Ok(pairs),
        None => Err(
            ApplicationError::MalformedInput(
                GenericError::new(
                    "the parameter text does not parse as a JSON object",
                    "json::get_keyvalue_from_json_str",
                ),
            ),
        ),
    }
}

} // verus!
