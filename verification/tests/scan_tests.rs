use driver_dispatch::scan::arg_value;

fn args_of(xs: &[&str]) -> Vec<String> {
    let mut v: Vec<String> = Vec::new();
    for x in xs {
        v.push(x.to_string());
    }
    v
}

#[test]
fn test_arg_value() {
    let args = args_of(&["--bar=bar", "--foobar", "123", "--foo"]);

    assert_eq!(arg_value(&Vec::<String>::new(), "--foobar", |_| true), None);
    assert_eq!(arg_value(&args, "--bar", |_| false), None);
    assert_eq!(arg_value(&args, "--bar", |_| true), Some("bar"));
    assert_eq!(arg_value(&args, "--bar", |p| p == "bar"), Some("bar"));
    assert_eq!(arg_value(&args, "--bar", |p| p == "foo"), None);
    assert_eq!(arg_value(&args, "--foobar", |p| p == "foo"), None);
    assert_eq!(arg_value(&args, "--foobar", |p| p == "123"), Some("123"));
    assert_eq!(arg_value(&args, "--foobar", |p| p.contains("12")), Some("123"));
    assert_eq!(arg_value(&args, "--foo", |_| true), None);
}

#[test]
fn eq_form_returns_substring_after_eq() {
    let args = args_of(&["--bar=bar"]);
    assert_eq!(arg_value(&args, "--bar", |_| true), Some("bar"));
}

#[test]
fn space_form_tests_following_argument() {
    let args = args_of(&["--foobar", "123"]);
    assert_eq!(arg_value(&args, "--foobar", |p| p == "123"), Some("123"));
    assert_eq!(arg_value(&args, "--foobar", |p| p == "foo"), None);
}

#[test]
fn empty_arguments_find_nothing() {
    assert_eq!(arg_value(&Vec::<String>::new(), "--bar", |_| true), None);
}

#[test]
fn failing_predicate_finds_nothing() {
    let args = args_of(&["--bar=bar"]);
    assert_eq!(arg_value(&args, "--bar", |_| false), None);
}

#[test]
fn absent_flag_finds_nothing() {
    let args = args_of(&["--foo"]);
    assert_eq!(arg_value(&args, "--bar", |_| true), None);
}

#[test]
fn trailing_bare_flag_has_no_value() {
    let args = args_of(&["--foo"]);
    assert_eq!(arg_value(&args, "--foo", |_| true), None);
}

#[test]
fn failed_space_form_resumes_after_consumed_value() {
    // The bare occurrence consumes "v1" as its candidate; after "v1" fails,
    // the scan resumes at the next occurrence rather than rereading "v1".
    let args = args_of(&["--key", "v1", "--key=v2"]);
    assert_eq!(arg_value(&args, "--key", |p| p == "v2"), Some("v2"));
    assert_eq!(arg_value(&args, "--key", |p| p == "v1"), Some("v1"));
}

#[test]
fn bare_occurrence_consumes_next_argument_as_value() {
    let args = args_of(&["--foo", "--foo=x"]);
    assert_eq!(arg_value(&args, "--foo", |_| true), Some("--foo=x"));
}
