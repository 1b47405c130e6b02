//! What a test body may return: `()`, or a `Result` whose error fails the test.
use vstd::prelude::*;

verus! {

/// Turns what a test body returned into success, or the message of a failure.
pub trait Termination {
    /// `Ok` when the test succeeded; otherwise the message that describes the failure.
    fn terminate(self) -> Result<(), String>;
}

impl Termination for () {
    fn terminate(self) -> (r: Result<(), String>)
        ensures
            r is Ok,
    {
        Ok(())
    }
}

impl<T: Termination, E: core::fmt::Debug> Termination for Result<T, E> {
    fn terminate(self) -> (r: Result<(), String>)
        ensures
            self is Err ==> r is Err,
    {
        match self {
            Ok(value) => value.terminate(),
            Err(error) => Err(debug_text(&error)),
        }
    }
}

/// Relies on std's `format!` with `{:?}`: the error's `Debug` text. Nothing is claimed of it.
#[verifier::external_body]
fn debug_text<E: core::fmt::Debug>(error: &E) -> String {
    format!("{error:?}")
}

} // verus!
