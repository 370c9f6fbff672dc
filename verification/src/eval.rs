//! The externally observable result of one top-level evaluation, and its
//! construction from an interpreter outcome.

use vstd::prelude::*;

verus! {

/// The arguments of one evaluation request: the source text to run.
pub struct ArgsEval {
    pub src: String,
}

/// The result of one top-level evaluation: exactly one of `value` (the
/// final value as a canonical document) and `error` (the interpreter's own
/// description of the failure) is populated.
pub struct EvalResult {
    pub value: Option<String>,
    pub error: Option<String>,
}

/// The invariant of an evaluation result: exactly one field populated.
pub open spec fn eval_result_wf(r: EvalResult) -> bool {
    r.value is Some <==> r.error is None
}

/// Builds the evaluation result for an interpreter outcome: a successful
/// evaluation populates `value` with the result document, a failed one
/// populates `error` with the failure description, never both.
pub fn eval_outcome(outcome: Result<String, String>) -> (r: EvalResult)
    ensures
        eval_result_wf(r),
        outcome matches Ok(doc) ==> r.value == Some(doc) && r.error is None,
        outcome matches Err(e) ==> r.value is None && r.error == Some(e),
{
    match outcome {
        Ok(doc) => EvalResult { value: Some(doc), error: None },
        Err(e) => EvalResult { value: None, error: Some(e) },
    }
}

} // verus!
