//! The ownership-flexible container and the facade built on it.
//!
//! A container holds exactly one strategy, either exclusively or shared
//! with an owner that lives elsewhere; every operation behaves identically
//! in both modes. The facade exposes the capability operations and the
//! persistence entry points.

use vstd::prelude::*;

use std::rc::Rc;

use crate::config::Diagnostics;
use crate::errors::TransformError;
use crate::foreign::{ForeignCallback, PyDecoder};
use crate::rules::concat_chars;
use crate::strategy::{Strategy, applied, decoded, foreign_free};
use crate::text::{NormalizedString, string_of};

verus! {

/// Relies on `Rc::as_ref`: a shared reference to the value behind the
/// pointer.
#[verifier::external_body]
fn shared_ref(rc: &Rc<Strategy>) -> (r: &Strategy)
    ensures
        *r == **rc,
{
    rc.as_ref()
}

/// Holds exactly one strategy, never empty: either exclusively owned and
/// destroyed with the container, or shared with an owner that lives
/// elsewhere.
#[derive(Debug)]
pub enum Container {
    Owned(Strategy),
    Shared(Rc<Strategy>),
}

impl Container {
    /// The held strategy, the same in either ownership mode.
    pub open spec fn strategy(self) -> Strategy {
        match self {
            Container::Owned(s) => s,
            Container::Shared(rc) => *rc,
        }
    }

    /// Apply an operation to the held strategy; identical for exclusive
    /// and shared ownership, and any failure is the operation's own.
    pub fn execute<R, F: Fn(&Strategy) -> R>(&self, f: F) -> (r: R)
        requires
            forall|s: &Strategy| *s == self.strategy() ==> f.requires((s,)),
        ensures
            forall|s: &Strategy| *s == self.strategy() ==> f.ensures((s,), r),
    {
        match self {
            Container::Owned(s) => f(s),
            Container::Shared(rc) => f(shared_ref(rc)),
        }
    }

    /// Read access to the held strategy.
    pub fn held(&self) -> (r: &Strategy)
        ensures
            *r == self.strategy(),
    {
        match self {
            Container::Owned(s) => s,
            Container::Shared(rc) => shared_ref(rc),
        }
    }
}

/// The facade: one container, with the capability operations and the
/// persistence entry points on top of it.
#[derive(Debug)]
pub struct Decoder {
    pub decoder: Container,
}

impl Decoder {
    /// The strategy this facade currently holds.
    pub open spec fn strategy(self) -> Strategy {
        self.decoder.strategy()
    }

    /// Wrap externally supplied logic: the strategy becomes a foreign
    /// bridge around the given handle.
    pub fn custom(handle: u64) -> (r: Decoder)
        ensures
            r.strategy() == Strategy::Foreign(PyDecoder { handle }),
            r.decoder is Owned,
    {
        let bridge = PyDecoder::new(handle);
        Decoder { decoder: Container::Owned(Strategy::Foreign(bridge)) }
    }

    /// Run the held strategy against the buffer.
    pub fn normalize(&self, text: &mut NormalizedString) -> (r: Result<(), TransformError>)
        ensures
            r is Ok,
            final(text)@ == applied(self.strategy(), old(text)@),
    {
        self.decoder.held().normalize(text)
    }

    /// Decode a token list into a display string through the held
    /// strategy, adding and removing nothing of its own. For a
    /// foreign-free strategy the result is exactly [`decoded`] and the
    /// diagnostic channel stays untouched. When the held strategy is the
    /// foreign bridge, the result is the callback's reply as
    /// [`crate::foreign::interpret_reply`] reads it: a success reports
    /// nothing, and the call-failed error comes only with the failure's
    /// detail appended to the channel, never silently dropped. Whatever
    /// the strategy, the channel only ever grows, and every error is one
    /// of the two fixed transform errors.
    pub fn decode<C: ForeignCallback>(
        &self,
        env: &C,
        diag: &mut Diagnostics,
        tokens: Vec<String>,
    ) -> (r: Result<String, TransformError>)
        ensures
            foreign_free(self.strategy()) ==> (r matches Ok(out) && out@ == decoded(
                self.strategy(),
                tokens.deep_view(),
            ) && final(diag)@ == old(diag)@),
            self.strategy() matches Strategy::Foreign(_) ==> match r {
                Ok(_) => final(diag)@ == old(diag)@,
                Err(e) => (e == TransformError::ForeignCallFailed && (exists|d: Seq<char>|
                    final(diag)@ == old(diag)@.push(d))) || (e
                    == TransformError::ForeignNotString && final(diag)@ == old(diag)@),
            },
            old(diag)@.is_prefix_of(final(diag)@),
            r matches Err(e) ==> (e == TransformError::ForeignCallFailed || e
                == TransformError::ForeignNotString),
    {
        let ghost tv = tokens.deep_view();
        match self.decoder.held().decode_step(env, diag, tokens) {
            Ok(out) => {
                let joined = concat_chars(&out);
                Ok(string_of(&joined))
            },
            Err(e) => Err(e),
        }
    }
}

} // verus!
