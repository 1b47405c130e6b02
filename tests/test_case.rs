use gba_test::{split_module_path, split_module_path_len, Ignore, ShouldPanic, Test, TestCase};

#[test]
fn test_name() {
    let test = Test {
        name: "foo",
        modules: &[""],
        test: || {},
        ignore: Ignore::No,
        should_panic: ShouldPanic::No,
    };

    assert_eq!(test.name(), "foo")
}

#[test]
fn test_module_split() {
    let test = Test {
        name: "",
        modules: &["foo", "bar"],
        test: || {},
        ignore: Ignore::No,
        should_panic: ShouldPanic::No,
    };

    assert_eq!(test.modules(), &["bar"]);
}

#[test]
fn test_module_no_split() {
    let test = Test {
        name: "",
        modules: &["foo"],
        test: || {},
        ignore: Ignore::No,
        should_panic: ShouldPanic::No,
    };

    assert_eq!(test.modules(), &["foo"]);
}

#[test]
fn test_run_no_panic() {
    let test = Test {
        name: "",
        modules: &[""],
        test: || {
            assert!(true);
        },
        ignore: Ignore::No,
        should_panic: ShouldPanic::No,
    };

    assert!(test.run().is_ok());
}

#[test]
fn test_run_error_result() {
    let test = Test {
        name: "",
        modules: &[""],
        test: || -> Result<(), &'static str> { Err("bad") },
        ignore: Ignore::No,
        should_panic: ShouldPanic::No,
    };

    assert_eq!(test.run(), Err("\"bad\"".to_string()));
}

#[test]
fn test_ignore() {
    let test = Test {
        name: "",
        modules: &[""],
        test: || {},
        ignore: Ignore::Yes,
        should_panic: ShouldPanic::No,
    };

    assert!(matches!(test.ignore(), Ignore::Yes));
}

#[test]
fn test_should_panic() {
    let test = Test {
        name: "",
        modules: &[""],
        test: || {},
        ignore: Ignore::No,
        should_panic: ShouldPanic::Yes,
    };

    assert!(matches!(test.should_panic(), ShouldPanic::Yes));
}

#[test]
fn test_message() {
    let test = Test {
        name: "",
        modules: &[""],
        test: || {},
        ignore: Ignore::YesWithMessage("foo"),
        should_panic: ShouldPanic::No,
    };

    assert_eq!(test.message(), Some("foo"));
}

#[test]
fn test_no_message() {
    let test = Test {
        name: "",
        modules: &[""],
        test: || {},
        ignore: Ignore::Yes,
        should_panic: ShouldPanic::No,
    };

    assert_eq!(test.message(), None);
}

#[test]
fn split_module_path_len_empty() {
    assert_eq!(split_module_path_len(""), 1);
}

#[test]
fn split_module_path_len_single() {
    assert_eq!(split_module_path_len("foo"), 1);
}

#[test]
fn split_module_path_len_single_colon() {
    assert_eq!(split_module_path_len(":"), 1);
}

#[test]
fn split_module_path_len_empty_with_separator() {
    assert_eq!(split_module_path_len("::"), 2);
}

#[test]
fn split_module_path_len_separator_with_extra_colon() {
    assert_eq!(split_module_path_len(":::"), 2);
}

#[test]
fn split_module_path_len_modules_split_by_separator() {
    assert_eq!(split_module_path_len("foo::bar"), 2);
}

#[test]
fn split_module_path_len_many_modules_split_by_separators() {
    assert_eq!(split_module_path_len("foo::bar::baz::quux"), 4);
}

#[test]
fn split_module_path_len_modules_leading_separator() {
    assert_eq!(split_module_path_len("::foo::bar"), 3);
}

#[test]
fn split_module_path_len_modules_trailing_separator() {
    assert_eq!(split_module_path_len("foo::bar::"), 3);
}

#[test]
fn split_module_path_empty() {
    assert_eq!(split_module_path(""), [""]);
}

#[test]
fn split_module_path_single() {
    assert_eq!(split_module_path("foo"), ["foo"]);
}

#[test]
fn split_module_path_single_colon() {
    assert_eq!(split_module_path(":"), [":"]);
}

#[test]
fn split_module_path_empty_with_separator() {
    assert_eq!(split_module_path("::"), ["", ""]);
}

#[test]
fn split_module_path_separator_with_extra_colon() {
    assert_eq!(split_module_path(":::"), ["", ":"]);
}

#[test]
fn split_module_path_modules_split_by_separator() {
    assert_eq!(split_module_path("foo::bar"), ["foo", "bar"]);
}

#[test]
fn split_module_path_many_modules_split_by_separators() {
    assert_eq!(
        split_module_path("foo::bar::baz::quux"),
        ["foo", "bar", "baz", "quux"]
    );
}

#[test]
fn split_module_path_modules_leading_separator() {
    assert_eq!(split_module_path("::foo::bar"), ["", "foo", "bar"]);
}

#[test]
fn split_module_path_modules_trailing_separator() {
    assert_eq!(split_module_path("foo::bar::"), ["foo", "bar", ""]);
}

#[test]
fn split_module_path_non_ascii_parts() {
    assert_eq!(split_module_path("é::ü:::ß"), ["é", "ü", ":ß"]);
}
