//! An on-device test harness core: the outcome ledger that survives a reset, its message
//! records, the filtered window that browses results, the module tree walker, and the
//! decisions of the recovery state machine.

mod outcome;
pub mod record;
pub mod ledger;
pub mod window;
pub mod test_case;
pub mod termination;
pub mod mmio;
pub mod contains;
pub mod runner;
pub mod modules;
pub mod browser;

pub use outcome::{Outcome, Trial};
pub use test_case::{split_module_path, split_module_path_len, Ignore, ShouldPanic, Test, TestCase};
pub use termination::Termination;
