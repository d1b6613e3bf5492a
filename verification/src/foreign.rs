//! The foreign bridge: a strategy variant backed by a callback into
//! externally supplied logic. The embedding environment hands the pipeline
//! an implementation of [`ForeignCallback`]; the bridge marshals tokens
//! across, requires a string result, and converts every failure path into
//! one fixed error after routing the original detail to the diagnostic
//! channel.

use vstd::prelude::*;

use crate::config::Diagnostics;
use crate::errors::TransformError;

verus! {

/// A typed value handed back across the foreign boundary.
#[derive(Debug)]
pub enum ForeignValue {
    /// A string result.
    Text(String),
    /// Anything that is not a string.
    Other,
}

/// The outcome of one foreign call: a value, or a failure carrying the
/// foreign side's own detail.
#[derive(Debug)]
pub enum ForeignReply {
    Value(ForeignValue),
    Failure(String),
}

/// The callback mechanism the embedding environment owns: invoke a named
/// method with arguments and get a typed result or a failure. Nothing is
/// assumed about what a call returns; the pipeline interprets every
/// possible reply through [`interpret_reply`].
pub trait ForeignCallback {
    /// Call method `method` on the foreign object `handle` with `args`.
    fn invoke(&self, handle: u64, method: &str, args: &Vec<String>) -> ForeignReply;
}

/// The foreign-bridge decoder: wraps the opaque handle of an externally
/// supplied object and delegates `decode` to it.
#[derive(Debug)]
pub struct PyDecoder {
    /// The embedding environment's handle for the foreign object.
    pub handle: u64,
}

impl PyDecoder {
    /// Wrap a foreign handle.
    pub fn new(handle: u64) -> (r: PyDecoder)
        ensures
            r == (PyDecoder { handle }),
    {
        PyDecoder { handle }
    }
}

/// What the bridge returns for each possible foreign reply: a string comes
/// back as the result; a non-string result and a failure each become their
/// fixed error, and a failure's detail goes to the diagnostic channel
/// first so it is not lost.
pub fn interpret_reply(reply: ForeignReply, diag: &mut Diagnostics) -> (r: Result<
    String,
    TransformError,
>)
    ensures
        reply matches ForeignReply::Value(ForeignValue::Text(s)) ==> (r matches Ok(out) && out@
            == s@ && final(diag)@ == old(diag)@),
        reply matches ForeignReply::Value(ForeignValue::Other) ==> r == Err::<
            String,
            TransformError,
        >(TransformError::ForeignNotString) && final(diag)@ == old(diag)@,
        reply matches ForeignReply::Failure(detail) ==> r == Err::<String, TransformError>(
            TransformError::ForeignCallFailed,
        ) && final(diag)@ == old(diag)@.push(detail@),
{
    match reply {
        ForeignReply::Value(ForeignValue::Text(s)) => Ok(s),
        ForeignReply::Value(ForeignValue::Other) => Err(TransformError::ForeignNotString),
        ForeignReply::Failure(detail) => {
            diag.report(detail);
            Err(TransformError::ForeignCallFailed)
        },
    }
}

} // verus!
