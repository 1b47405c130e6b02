use vstd::prelude::*;

verus! {

/// The outcome of a test.
#[derive(Debug, Clone, PartialEq, Eq)]
pub enum Outcome<Data> {
    /// The test passed.
    Passed,
    /// The test failed.
    Failed(Data),
    /// The test was excluded from the test run.
    Ignored,
}

impl<Data> Outcome<Data> {
    /// The short label shown beside a test's name.
    pub fn as_str(&self) -> (r: &'static str)
        ensures
            r@ == match self {
                Outcome::Passed => "ok"@,
                Outcome::Failed(_) => "FAILED"@,
                Outcome::Ignored => "ignored"@,
            },
    {
        match self {
            Outcome::Passed => "ok",
            Outcome::Failed(_) => "FAILED",
            Outcome::Ignored => "ignored",
        }
    }

    /// The palette bank in which an entry with this outcome is drawn.
    pub fn palette(&self) -> (r: u8)
        ensures
            r == match self {
                Outcome::Passed => 1u8,
                Outcome::Ignored => 2u8,
                Outcome::Failed(_) => 3u8,
            },
    {
        match self {
            Outcome::Passed => 1,
            Outcome::Ignored => 2,
            Outcome::Failed(_) => 3,
        }
    }
}

/// A single test result: a test's name with its outcome.
#[derive(Debug, Clone, PartialEq, Eq)]
pub struct Trial<'a, FailedMessage> {
    /// The name of the test.
    pub name: &'a str,
    /// The test's outcome.
    pub outcome: Outcome<FailedMessage>,
}

} // verus!
