//! Test definitions: the `TestCase` trait that the runner drives, the standard `Test` that
//! implements it, and the splitting of a module path into its parts.
use vstd::prelude::*;
use vstd::string::StringSliceAdditionalSpecFns;
use vstd::utf8::{
    encode_utf8_valid_utf8, is_char_boundary, is_char_boundary_iff_not_is_continuation_byte,
    valid_utf8,
};

use crate::termination::Termination;

verus! {

/// Whether a test should be ignored.
#[derive(Clone, Copy, Debug)]
pub enum Ignore {
    /// The test should be run.
    No,
    /// The test should not be run.
    Yes,
    /// The test should not be run, and a message should be displayed.
    YesWithMessage(&'static str),
}

/// Whether a test is expected to panic.
#[derive(Clone, Copy, Debug)]
pub enum ShouldPanic {
    /// The test is expected to run successfully.
    No,
    /// The test is expected to panic during execution.
    Yes,
    /// The test is expected to panic with the given substring present in the panic message.
    YesWithMessage(&'static str),
}

/// A test case executable by the test runner.
pub trait TestCase {
    /// The test can be run: its body's own precondition holds.
    spec fn runnable(&self) -> bool;

    /// The name of the test.
    fn name(&self) -> &str;

    /// The module the test is in.
    fn modules(&self) -> &[&str];

    /// The test itself. A failure panics, or comes back as the message to record.
    fn run(&self) -> Result<(), String>
        requires
            self.runnable(),
    ;

    /// Whether the test should be excluded from the run.
    fn ignore(&self) -> Ignore;

    /// Whether the test is expected to panic.
    fn should_panic(&self) -> ShouldPanic;

    /// The ignore message, if there is one.
    fn message(&self) -> Option<&'static str>;
}

/// A standard test, as the test attribute writes it.
pub struct Test<F> {
    /// The name of the test.
    pub name: &'static str,
    /// The modules the test is in, starting with the crate's own name.
    pub modules: &'static [&'static str],
    /// The test function itself.
    pub test: F,
    /// Whether the test should be excluded.
    pub ignore: Ignore,
    /// Whether the test is expected to panic.
    pub should_panic: ShouldPanic,
}

impl<F, T> TestCase for Test<F> where F: Fn() -> T, T: Termination {
    open spec fn runnable(&self) -> bool {
        call_requires(self.test, ())
    }

    fn name(&self) -> (r: &str)
        ensures
            r == self.name,
    {
        self.name
    }

    fn modules(&self) -> (r: &[&str])
        ensures
            self.modules@.len() <= 1 ==> r@ == self.modules@,
            self.modules@.len() > 1 ==> r@ == self.modules@.drop_first(),
    {
        if self.modules.len() <= 1 {
            self.modules
        } else {
            slice_from_one(self.modules)
        }
    }

    fn run(&self) -> Result<(), String> {
        (self.test)().terminate()
    }

    fn ignore(&self) -> (r: Ignore)
        ensures
            r == self.ignore,
    {
        self.ignore
    }

    fn should_panic(&self) -> (r: ShouldPanic)
        ensures
            r == self.should_panic,
    {
        self.should_panic
    }

    fn message(&self) -> (r: Option<&'static str>)
        ensures
            r == match self.ignore {
                Ignore::YesWithMessage(m) => Some(m),
                _ => None,
            },
    {
        match self.ignore {
            Ignore::YesWithMessage(message) => Some(message),
            _ => None,
        }
    }
}

/// Every entry of `s` but the first.
fn slice_from_one<'a>(s: &'a [&'a str]) -> (r: &'a [&'a str])
    requires
        s@.len() >= 1,
    ensures
        r@ == s@.drop_first(),
{
    let (_, rest) = s.split_at(1);
    rest
}

/// The parts of `b[start..]` still to come when a left-to-right scan is at `i`: a separator is
/// a pair of colons, and a colon right after a separator belongs to the next part.
pub open spec fn parts_from(b: Seq<u8>, start: int, i: int) -> Seq<Seq<u8>>
    decreases b.len() + 2 - i,
{
    if i >= b.len() || i < 1 {
        seq![b.subrange(start, b.len() as int)]
    } else if b[i - 1] == 58 && b[i] == 58 {
        seq![b.subrange(start, i - 1)] + parts_from(b, i + 1, i + 2)
    } else {
        parts_from(b, start, i + 1)
    }
}

/// The parts of a module path written as bytes, separated by `::`.
pub open spec fn module_parts(b: Seq<u8>) -> Seq<Seq<u8>> {
    parts_from(b, 0, 1)
}

/// The number of parts in a module path.
pub fn split_module_path_len(path: &str) -> (r: usize)
    ensures
        r == module_parts(path.spec_bytes()).len(),
{
    let b = path.as_bytes();
    let ghost bs = b@;
    let mut len: usize = 1;
    let mut i: usize = 1;
    let ghost mut start: int = 0;
    let ghost mut done: Seq<Seq<u8>> = seq![];
    while i < b.len()
        invariant
            bs == b@,
            1 <= i <= b@.len() || b@.len() == 0,
            0 <= start <= i,
            i < b@.len() ==> start < i,
            start <= b@.len(),
            done + parts_from(bs, start, i as int) == module_parts(bs),
            len == done.len() + 1,
            len <= i,
        decreases b@.len() + 1 - i,
    {
        if b[i - 1] == 58 && b[i] == 58 {
            proof {
                done = done.push(bs.subrange(start, i - 1));
                start = i + 1;
                assert(done + parts_from(bs, start, i + 2) =~= module_parts(bs));
            }
            len = len + 1;
            i = i + 1;
            if i < b.len() {
                i = i + 1;
            }
        } else {
            i = i + 1;
        }
    }
    len
}

/// A text whose first character is ASCII has a character boundary right after it.
proof fn lemma_boundary_after_ascii(bytes: Seq<u8>)
    requires
        valid_utf8(bytes),
        bytes.len() >= 1,
        bytes[0] < 0x80,
    ensures
        is_char_boundary(bytes, 1),
{
    reveal_with_fuel(is_char_boundary, 2);
}

/// Splits a module path into its `::`-separated parts.
pub fn split_module_path(path: &'static str) -> (r: Vec<&'static str>)
    ensures
        r@.len() == module_parts(path.spec_bytes()).len(),
        forall|k: int| 0 <= k < r@.len() ==> #[trigger] r@[k].spec_bytes() == module_parts(
            path.spec_bytes(),
        )[k],
{
    let b = path.as_bytes();
    let ghost bs = b@;
    let mut parts: Vec<&'static str> = Vec::new();
    let mut rest: &'static str = path;
    let mut start: usize = 0;
    let mut i: usize = 1;
    while i < b.len()
        invariant
            bs == b@,
            bs == path.spec_bytes(),
            1 <= i <= b@.len() || b@.len() == 0,
            0 <= start <= i,
            i < b@.len() ==> start < i,
            start <= b@.len(),
            rest.spec_bytes() == bs.subrange(start as int, bs.len() as int),
            parts@.map_values(|p: &'static str| p.spec_bytes()) + parts_from(bs, start as int, i as int)
                == module_parts(bs),
        decreases b@.len() + 1 - i,
    {
        if b[i - 1] == 58 && b[i] == 58 {
            let ghost rb = rest.spec_bytes();
            proof {
                encode_utf8_valid_utf8(rest@);
                if i - 1 - start < rb.len() {
                    is_char_boundary_iff_not_is_continuation_byte(rb, i - 1 - start);
                }
            }
            let (part, tail) = rest.split_at(i - 1 - start);
            proof {
                encode_utf8_valid_utf8(tail@);
                assert(tail.spec_bytes() =~= bs.subrange(i - 1, bs.len() as int));
                lemma_boundary_after_ascii(tail.spec_bytes());
            }
            let (_, tail) = tail.split_at(1);
            proof {
                encode_utf8_valid_utf8(tail@);
                assert(tail.spec_bytes() =~= bs.subrange(i as int, bs.len() as int));
                lemma_boundary_after_ascii(tail.spec_bytes());
            }
            let (_, tail) = tail.split_at(1);
            let ghost before = parts@.map_values(|p: &'static str| p.spec_bytes());
            parts.push(part);
            proof {
                assert(part.spec_bytes() =~= bs.subrange(start as int, i - 1));
                assert(parts@.map_values(|p: &'static str| p.spec_bytes()) =~= before.push(
                    bs.subrange(start as int, i - 1),
                ));
                assert(tail.spec_bytes() =~= bs.subrange(i + 1, bs.len() as int));
                assert(parts@.map_values(|p: &'static str| p.spec_bytes()) + parts_from(bs, i + 1, i + 2)
                    =~= module_parts(bs));
            }
            rest = tail;
            start = i + 1;
            i = i + 1;
            if i < b.len() {
                i = i + 1;
            }
        } else {
            i = i + 1;
        }
    }
    let ghost before = parts@.map_values(|p: &'static str| p.spec_bytes());
    parts.push(rest);
    proof {
        assert(parts@.map_values(|p: &'static str| p.spec_bytes()) =~= module_parts(bs));
        assert forall|k: int| 0 <= k < parts@.len() implies #[trigger] parts@[k].spec_bytes()
            == module_parts(path.spec_bytes())[k] by {
            assert(parts@.map_values(|p: &'static str| p.spec_bytes())[k] == parts@[k].spec_bytes());
        }
    }
    parts
}

} // verus!
