//! What the library asks of the jsonic engine: the outcome of parsing a
//! relaxed-JSON source with jsonic's default parser.

use vstd::prelude::*;

use crate::reader::{json_value, read_json};
use crate::value::{Json, Value};

verus! {

/// The outcome jsonic's default parser gives for `source`: the parsed
/// value as standard JSON text, nothing for a source that parses to
/// `undefined`, or the engine's error report.
pub uninterp spec fn jsonic_outcome(source: Seq<char>) -> Result<Option<Seq<char>>, Seq<char>>;

/// An outcome as the contracts see it.
pub open spec fn outcome_view(r: Result<Option<String>, String>) -> Result<
    Option<Seq<char>>,
    Seq<char>,
> {
    match r {
        Ok(Some(text)) => Ok(Some(text@)),
        Ok(None) => Ok(None),
        Err(message) => Err(message@),
    }
}

/// Parse `source` with `tabnas_jsonic::parse`, the engine's shared
/// default jsonic parser, and hand the result back as standard JSON text
/// written by `serde_json::to_string`; `None` when the source parses to
/// `undefined` (an empty source does), and the rendered `TabnasError`
/// when it does not parse. The contract claims only that the outcome is a
/// function of the source text, named [`jsonic_outcome`]: the default
/// parser is built once from fixed option documents, and neither the
/// value nor the error report depends on anything else.
#[verifier::external_body]
pub(crate) fn jsonic_parse(source: &str) -> (r: Result<Option<String>, String>)
    ensures
        outcome_view(r) == jsonic_outcome(source@),
{
    match tabnas_jsonic::parse(source) {
        Ok(tabnas::Value::Undefined) => Ok(None),
        Ok(value) => serde_json::to_string(&value).map(Some).map_err(|error| error.to_string()),
        Err(error) => Err(error.to_string()),
    }
}


/// The report for an engine result that is not one standard JSON value.
pub open spec fn unreadable_report() -> Seq<char> {
    seq![
        'u', 'n', 'r', 'e', 'a', 'd', 'a', 'b', 'l', 'e', ' ', 'e', 'n', 'g', 'i', 'n', 'e', ' ',
        'r', 'e', 's', 'u', 'l', 't',
    ]
}

/// What a parse outcome becomes as a value of the library: `undefined`
/// for a source that parsed to nothing, the value the JSON text spells,
/// or the engine's report.
pub open spec fn outcome_value(outcome: Result<Option<Seq<char>>, Seq<char>>) -> Result<
    Json,
    Seq<char>,
> {
    match outcome {
        Ok(None) => Ok(Json::Undefined),
        Ok(Some(text)) => match json_value(text) {
            Some(v) => Ok(v),
            None => Err(unreadable_report()),
        },
        Err(report) => Err(report),
    }
}

/// What jsonic's default parser makes of `source`.
pub open spec fn relaxed_value(source: Seq<char>) -> Result<Json, Seq<char>> {
    outcome_value(jsonic_outcome(source))
}

/// A value result as the contracts see it.
pub open spec fn value_result_view(r: Result<Value, String>) -> Result<Json, Seq<char>> {
    match r {
        Ok(v) => Ok(v@),
        Err(report) => Err(report@),
    }
}

/// Turn an engine outcome into a value of the library: see
/// [`outcome_value`].
pub fn value_from_outcome(outcome: Result<Option<String>, String>) -> (r: Result<Value, String>)
    ensures
        value_result_view(r) == outcome_value(outcome_view(outcome)),
        r matches Ok(v) ==> v@.wf(),
{
    match outcome {
        Ok(None) => Ok(Value::Undefined),
        Ok(Some(text)) => match read_json(text.as_str()) {
            Some(v) => Ok(v),
            None => {
                let report = String::from_str("unreadable engine result");
                proof {
                    reveal_strlit("unreadable engine result");
                }
                assert(report@ =~= unreadable_report());
                Err(report)
            },
        },
        Err(report) => Err(report),
    }
}

/// Parse `source` as relaxed JSON with jsonic's default parser.
pub fn parse_relaxed(source: &str) -> (r: Result<Value, String>)
    ensures
        value_result_view(r) == relaxed_value(source@),
        r matches Ok(v) ==> v@.wf(),
{
    value_from_outcome(jsonic_parse(source))
}

} // verus!
