//! The decisions of the execution state machine. The loop that runs a test body, catches its
//! panic and resets the console lives outside; it hands each event here and records the
//! outcome that comes back.
use vstd::prelude::*;
use vstd::string::StringSliceAdditionalSpecFns;
use crate::contains::{contains, contains_bytes};
use crate::outcome::Outcome;
use crate::test_case::{Ignore, ShouldPanic};

verus! {

/// The message recorded for a test that was expected to panic and returned instead.
pub const NO_PANIC_MESSAGE: &'static str = "note: test did not panic as expected";

/// The text recorded when a panic's message lacks the expected substring.
pub open spec fn mismatch_message(message: Seq<u8>, expected: Seq<u8>) -> Seq<u8> {
    "note: panic did not contain expected string\n      panic message: `".spec_bytes() + message
        + "`,\n expected substring: `".spec_bytes() + expected + "`".spec_bytes()
}

/// The outcome recorded for a test without running it: `Ignored` for an ignored test, `None`
/// for one that must run.
pub fn skipped_outcome(ignore: Ignore) -> (r: Option<Outcome<&'static str>>)
    ensures
        r == match ignore {
            Ignore::No => None,
            _ => Some(Outcome::<&'static str>::Ignored),
        },
{
    match ignore {
        Ignore::No => None,
        _ => Some(Outcome::Ignored),
    }
}

/// The outcome of a test whose body returned.
pub fn return_outcome(should_panic: ShouldPanic) -> (r: Outcome<&'static str>)
    ensures
        r == match should_panic {
            ShouldPanic::No => Outcome::Passed,
            _ => Outcome::Failed(NO_PANIC_MESSAGE),
        },
{
    match should_panic {
        ShouldPanic::No => Outcome::Passed,
        _ => Outcome::Failed(NO_PANIC_MESSAGE),
    }
}

/// The outcome of a test whose body panicked with `message`, given whether the expected
/// substring, if the test names one, was `found` in it.
pub fn fault_outcome_found(should_panic: ShouldPanic, message: &str, found: bool) -> (r: Outcome<
    Vec<u8>,
>)
    ensures
        match should_panic {
            ShouldPanic::No => r matches Outcome::Failed(m) && m@ == message.spec_bytes(),
            ShouldPanic::Yes => r is Passed,
            ShouldPanic::YesWithMessage(expected) => if found {
                r is Passed
            } else {
                r matches Outcome::Failed(m) && m@ == mismatch_message(
                    message.spec_bytes(),
                    expected.spec_bytes(),
                )
            },
        },
{
    match should_panic {
        ShouldPanic::No => {
            let mut m: Vec<u8> = Vec::new();
            append(&mut m, message.as_bytes());
            Outcome::Failed(m)
        },
        ShouldPanic::Yes => Outcome::Passed,
        ShouldPanic::YesWithMessage(expected) => {
            if found {
                Outcome::Passed
            } else {
                let mut m: Vec<u8> = Vec::new();
                append(&mut m, "note: panic did not contain expected string\n      panic message: `".as_bytes());
                append(&mut m, message.as_bytes());
                append(&mut m, "`,\n expected substring: `".as_bytes());
                append(&mut m, expected.as_bytes());
                append(&mut m, "`".as_bytes());
                Outcome::Failed(m)
            }
        },
    }
}

/// The outcome of a test whose body panicked with `message`.
pub fn fault_outcome(should_panic: ShouldPanic, message: &str) -> (r: Outcome<Vec<u8>>)
    ensures
        match should_panic {
            ShouldPanic::No => r matches Outcome::Failed(m) && m@ == message.spec_bytes(),
            ShouldPanic::Yes => r is Passed,
            ShouldPanic::YesWithMessage(expected) => if contains_bytes(
                message.spec_bytes(),
                expected.spec_bytes(),
            ) {
                r is Passed
            } else {
                r matches Outcome::Failed(m) && m@ == mismatch_message(
                    message.spec_bytes(),
                    expected.spec_bytes(),
                )
            },
        },
{
    let found = match should_panic {
        ShouldPanic::YesWithMessage(expected) => contains(message, expected),
        _ => false,
    };
    fault_outcome_found(should_panic, message, found)
}

/// The code reported to the host when every test has run: 0 when none failed, 1 otherwise.
pub fn exit_code(outcomes: &Vec<Outcome<Vec<u8>>>) -> (r: usize)
    ensures
        r == if exists|j: int| 0 <= j < outcomes@.len() && outcomes@[j] is Failed {
            1usize
        } else {
            0usize
        },
{
    let mut j: usize = 0;
    while j < outcomes.len()
        invariant
            0 <= j <= outcomes@.len(),
            forall|i: int| 0 <= i < j ==> !(outcomes@[i] is Failed),
        decreases outcomes@.len() - j,
    {
        if let Outcome::Failed(_) = &outcomes[j] {
            return 1;
        }
        j = j + 1;
    }
    0
}

/// Appends the bytes of `s` to `v`.
fn append(v: &mut Vec<u8>, s: &[u8])
    ensures
        final(v)@ == old(v)@ + s@,
{
    let ghost start = v@;
    let mut i: usize = 0;
    while i < s.len()
        invariant
            0 <= i <= s@.len(),
            v@ == start + s@.subrange(0, i as int),
        decreases s@.len() - i,
    {
        v.push(s[i]);
        i = i + 1;
        assert(v@ =~= start + s@.subrange(0, i as int));
    }
    assert(s@.subrange(0, s@.len() as int) =~= s@);
}

} // verus!
