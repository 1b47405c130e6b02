use gba_test::ledger::Ledger;
use gba_test::runner::{
    exit_code, fault_outcome, fault_outcome_found, return_outcome, skipped_outcome, NO_PANIC_MESSAGE,
};
use gba_test::{Ignore, Outcome, ShouldPanic};

/// What a test body does when run: return, or panic with a message.
type Body = Result<(), String>;

/// Runs a suite through the ledger the way the device does, one test per reset.
fn run_suite(tests: &[(Ignore, ShouldPanic, Body)]) -> (Vec<Outcome<Vec<u8>>>, usize, Vec<u8>) {
    let modules = tests.iter().map(|_| vec!["tests".to_string()]).collect();
    let mut ledger = Ledger::new(modules, vec![0; 8192]);
    loop {
        // Each pass stands for one boot: the ledger survives, nothing else does.
        let Some(i) = ledger.start_test() else { break };
        let (ignore, should_panic, body) = &tests[i];
        match skipped_outcome(*ignore) {
            None => match body {
                Ok(()) => {
                    let o = match return_outcome(*should_panic) {
                        Outcome::Passed => Outcome::Passed,
                        Outcome::Failed(m) => Outcome::Failed(m.as_bytes()),
                        Outcome::Ignored => Outcome::Ignored,
                    };
                    ledger.complete_test(o).unwrap();
                }
                Err(message) => {
                    let o = fault_outcome(*should_panic, message);
                    let o = match &o {
                        Outcome::Passed => Outcome::Passed,
                        Outcome::Failed(m) => Outcome::Failed(&m[..]),
                        Outcome::Ignored => Outcome::Ignored,
                    };
                    ledger.complete_test(o).unwrap();
                }
            },
            Some(o) => {
                assert_eq!(o, Outcome::Ignored);
                ledger.complete_test(Outcome::Ignored).unwrap()
            }
        }
    }
    let out = ledger.outcomes();
    let outcomes = out.iter();
    let code = exit_code(&outcomes);
    let tags = out.region()[..tests.len()].to_vec();
    (outcomes, code, tags)
}

fn add(left: usize, right: usize) -> usize {
    left + right
}

/// A test body that checks `left == right`, panicking as `assert_eq!` does.
fn assert_sum(left: usize, right: usize) -> Body {
    if left == right {
        Ok(())
    } else {
        Err(format!("assertion `left == right` failed\n  left: {left}\n right: {right}"))
    }
}

fn outcome_of(body: Body) -> Outcome<Vec<u8>> {
    let (outcomes, _, _) = run_suite(&[(Ignore::No, ShouldPanic::No, body)]);
    outcomes.into_iter().next().unwrap()
}

fn passes(body: Body) -> bool {
    outcome_of(body) == Outcome::Passed
}

#[test]
fn single_passing_test_exits_zero() {
    let (outcomes, code, tags) = run_suite(&[(Ignore::No, ShouldPanic::No, assert_sum(add(2, 2), 4))]);
    assert_eq!(code, 0);
    assert_eq!(tags, vec![0]);
    assert_eq!(outcomes, vec![Outcome::Passed]);
}

#[test]
fn lib_it_works() {
    // A single test asserting `4 == 5`.
    let (outcomes, code, tags) = run_suite(&[(Ignore::No, ShouldPanic::No, assert_sum(add(2, 2), 5))]);
    assert_ne!(code, 0);
    assert_eq!(tags, vec![1]);
    let Outcome::Failed(message) = &outcomes[0] else { panic!("expected a failure") };
    let message = String::from_utf8(message.clone()).unwrap();
    assert!(message.contains("assertion `left == right` failed"));
    assert!(message.contains("left: 4"));
    assert!(message.contains("right: 5"));
}

#[test]
fn twenty_seven_tests_keep_their_pattern() {
    // 'p' passes, 'f' fails, 'i' is ignored.
    let pattern = "piipfipfipiipfipfipiipfipfi";
    let tests: Vec<(Ignore, ShouldPanic, Body)> = pattern
        .chars()
        .map(|c| match c {
            'p' => (Ignore::No, ShouldPanic::No, assert_sum(add(2, 2), 4)),
            'f' => (Ignore::No, ShouldPanic::No, assert_sum(add(2, 2), 5)),
            _ => (Ignore::Yes, ShouldPanic::No, assert_sum(add(2, 2), 4)),
        })
        .collect();
    let (outcomes, code, tags) = run_suite(&tests);
    let expected_tags: Vec<u8> = pattern
        .chars()
        .map(|c| match c {
            'p' => 0,
            'f' => 1,
            _ => 2,
        })
        .collect();
    assert_eq!(tags, expected_tags);
    assert_eq!(outcomes.len(), 27);
    assert_eq!(code, 1);
}

#[test]
fn expected_panic_with_substring() {
    let found = fault_outcome(ShouldPanic::YesWithMessage("bar"), "foo bar baz");
    assert_eq!(found, Outcome::Passed);
    let missing = fault_outcome(ShouldPanic::YesWithMessage("qux"), "foo bar baz");
    let Outcome::Failed(message) = missing else { panic!("expected a failure") };
    let message = String::from_utf8(message).unwrap();
    assert_eq!(
        message,
        "note: panic did not contain expected string\n      panic message: `foo bar baz`,\n expected substring: `qux`"
    );
}

#[test]
fn expected_panic_outcomes() {
    assert_eq!(fault_outcome(ShouldPanic::Yes, "boom"), Outcome::Passed);
    assert_eq!(fault_outcome(ShouldPanic::No, "boom"), Outcome::Failed(b"boom".to_vec()));
    assert_eq!(fault_outcome(ShouldPanic::YesWithMessage(""), "boom"), Outcome::Passed);
    assert_eq!(return_outcome(ShouldPanic::No), Outcome::Passed);
    assert_eq!(return_outcome(ShouldPanic::Yes), Outcome::Failed(NO_PANIC_MESSAGE));
    assert_eq!(
        return_outcome(ShouldPanic::YesWithMessage("x")),
        Outcome::Failed("note: test did not panic as expected")
    );
}

#[test]
fn exit_code_ignores_ignored_tests() {
    assert_eq!(exit_code(&vec![]), 0);
    assert_eq!(exit_code(&vec![Outcome::Passed, Outcome::Ignored]), 0);
    assert_eq!(exit_code(&vec![Outcome::Ignored, Outcome::Failed(vec![])]), 1);
}

#[test]
fn it_works_4() {
    assert!(passes(assert_sum(add(2, 2), 4)));
}

#[test]
fn it_works_5() {
    assert!(!passes(assert_sum(add(2, 2), 5)));
}

#[test]
fn it_works_7() {
    assert!(passes(assert_sum(add(2, 2), 4)));
}

#[test]
fn it_works_8() {
    assert!(!passes(assert_sum(add(2, 2), 5)));
}

#[test]
fn it_works_10() {
    assert!(passes(assert_sum(add(2, 2), 4)));
}

#[test]
fn it_works_13() {
    assert!(passes(assert_sum(add(2, 2), 4)));
}

#[test]
fn it_works_14() {
    assert!(!passes(assert_sum(add(2, 2), 5)));
}

#[test]
fn it_works_16() {
    assert!(passes(assert_sum(add(2, 2), 4)));
}

#[test]
fn it_works_17() {
    assert!(!passes(assert_sum(add(2, 2), 5)));
}

#[test]
fn it_works_19() {
    assert!(passes(assert_sum(add(2, 2), 4)));
}

#[test]
fn it_works_22() {
    assert!(passes(assert_sum(add(2, 2), 4)));
}

#[test]
fn it_works_23() {
    assert!(!passes(assert_sum(add(2, 2), 5)));
}

#[test]
fn it_works_25() {
    assert!(passes(assert_sum(add(2, 2), 4)));
}

#[test]
fn it_works_26() {
    assert!(!passes(assert_sum(add(2, 2), 5)));
}

#[test]
fn basic_add() {
    assert!(passes(assert_sum(add(2, 2), 4)));
}

#[test]
fn chained_add() {
    let result = add(2, 2);
    assert!(passes(assert_sum(add(result, 2), 6)));
}

#[test]
fn zero() {
    assert!(!passes(assert_sum(add(2, 1), 2)));
}

#[test]
fn zeros() {
    assert!(passes(assert_sum(add(0, 0), 0)));
}

#[test]
fn ignored_tests_are_not_run() {
    assert_eq!(skipped_outcome(Ignore::No), None);
    assert_eq!(skipped_outcome(Ignore::Yes), Some(Outcome::Ignored));
    assert_eq!(skipped_outcome(Ignore::YesWithMessage("slow")), Some(Outcome::Ignored));
}

#[test]
fn fault_outcome_from_a_search_result() {
    assert_eq!(fault_outcome_found(ShouldPanic::YesWithMessage("x"), "abc", true), Outcome::Passed);
    let Outcome::Failed(m) = fault_outcome_found(ShouldPanic::YesWithMessage("x"), "abc", false) else {
        panic!("expected a failure")
    };
    assert!(String::from_utf8(m).unwrap().contains("panic message: `abc`"));
    assert_eq!(
        fault_outcome_found(ShouldPanic::No, "abc", true),
        Outcome::Failed(b"abc".to_vec())
    );
}
