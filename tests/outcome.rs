use gba_test::Outcome;

#[test]
fn outcome_as_str_passed() {
    assert_eq!(Outcome::<()>::Passed.as_str(), "ok");
}

#[test]
fn outcome_as_str_failed() {
    assert_eq!(Outcome::<()>::Failed(()).as_str(), "FAILED");
}

#[test]
fn outcome_as_str_ignored() {
    assert_eq!(Outcome::<()>::Ignored.as_str(), "ignored");
}

#[test]
fn passed() {
    assert_eq!(Outcome::<()>::Passed.palette(), 1);
}

#[test]
fn ignored() {
    assert_eq!(Outcome::<()>::Ignored.palette(), 2);
}

#[test]
fn failed() {
    assert_eq!(Outcome::<()>::Failed(()).palette(), 3);
}
