//! Checking a JSON dataset against a JSON schema with `jsonschema`.

use vstd::prelude::*;

verus! {

#[verifier::external_type_specification]
#[verifier::external_body]
pub struct ExJsonValue(serde_json::Value);

#[verifier::external_type_specification]
#[verifier::external_body]
pub struct ExValidationErrorKind(jsonschema::error::ValidationErrorKind);

/// A problem found in a dataset: where in the dataset, where in the
/// schema, what, and of which kind.
#[derive(Debug)]
pub struct ValidationError {
    /// The JSON pointer of the value that failed.
    pub instance_path: String,
    /// The JSON pointer of the schema keyword it failed.
    pub schema_path: String,
    /// The message.
    pub message: String,
    /// The kind of problem.
    pub kind: jsonschema::error::ValidationErrorKind,
}

/// What `serde_json` says of a text read as a JSON value: nothing where it
/// reads, its error message where it does not.
pub uninterp spec fn json_error(text: Seq<char>) -> Option<Seq<char>>;

/// `serde_json::from_str` into a `Value`: the value, or the error's
/// message. Which texts it reads, and with which message it refuses the
/// others, is named by [`json_error`].
#[verifier::external_body]
fn parse_json(text: &str) -> (r: Result<serde_json::Value, String>)
    ensures
        match r {
            Ok(_) => json_error(text@) is None,
            Err(e) => json_error(text@) == Some(e@),
        },
{
    serde_json::from_str(text).map_err(|e| e.to_string())
}

/// The problems of an instance against a schema, both JSON texts, as
/// `jsonschema` finds them: each with its instance path, schema path and
/// message; or the message of the error that refuses a text that is not
/// JSON or a schema that is not valid.
pub uninterp spec fn schema_check(schema: Seq<char>, instance: Seq<char>) -> Result<
    Seq<(Seq<char>, Seq<char>, Seq<char>)>,
    Seq<char>,
>;

/// The instance path, schema path and message of each problem.
pub open spec fn problems_view(v: Seq<ValidationError>) -> Seq<(Seq<char>, Seq<char>, Seq<char>)> {
    v.map_values(|e: ValidationError| (e.instance_path@, e.schema_path@, e.message@))
}

/// Reads both texts with `serde_json::from_str`, compiles the schema with
/// `jsonschema::validator_for`, and lists the validator's `iter_errors` on
/// the instance: its result is named by [`schema_check`] (the crate is
/// built without remote references, so it depends on the two texts
/// alone). The kind of each problem is carried and not stated.
#[verifier::external_body]
fn check_against_schema(schema: &str, instance: &str) -> (r: Result<Vec<ValidationError>, String>)
    ensures
        match (r, schema_check(schema@, instance@)) {
            (Ok(v), Ok(p)) => problems_view(v@) == p,
            (Err(e), Err(m)) => e@ == m,
            _ => false,
        },
{
    let s: serde_json::Value = serde_json::from_str(schema).map_err(|e| e.to_string())?;
    let i: serde_json::Value = serde_json::from_str(instance).map_err(|e| e.to_string())?;
    let v = jsonschema::validator_for(&s).map_err(|e| e.to_string())?;
    Ok(v.iter_errors(&i).map(|e| {
        let message = e.to_string();
        let p = e.into_parts();
        ValidationError { instance_path: p.instance_path.to_string(), schema_path: p.schema_path.to_string(), message, kind: p.kind }
    }).collect())
}

/// Checks a dataset against a schema, both JSON texts: refused with the
/// reader's message where the dataset, or else the schema, is not JSON;
/// otherwise what the validator gives (see [`schema_check`]): the message
/// that refuses an invalid schema, or the problems found, none where the
/// dataset is valid.
pub fn validate_json(dataset: &str, schema: &str) -> (r: Result<Vec<ValidationError>, String>)
    ensures
        json_error(dataset@) matches Some(m) ==> (r matches Err(e) && e@ == m),
        json_error(dataset@) is None ==> (json_error(schema@) matches Some(m) ==> (r matches Err(e) && e@ == m)),
        json_error(dataset@) is None && json_error(schema@) is None ==> match (r, schema_check(schema@, dataset@)) {
            (Ok(v), Ok(p)) => problems_view(v@) == p,
            (Err(e), Err(m)) => e@ == m,
            _ => false,
        },
{
    match parse_json(dataset) {
        Ok(_) => {},
        Err(e) => return Err(e),
    }
    match parse_json(schema) {
        Ok(_) => {},
        Err(e) => return Err(e),
    }
    check_against_schema(schema, dataset)
}

} // verus!
