use cairo_protostar::felt::FeltValue;
use cairo_protostar::test_runner::{
    find_all_tests, parse_usize, select_tests, summarize_tests, test_config_of, test_status, Args,
    AttributeValue, FunctionAttribute, RunResultValue, TestConfig, TestExpectation, TestStatus,
    TestsSummary,
};

fn attribute(id: &str, args: Vec<AttributeValue>) -> FunctionAttribute {
    FunctionAttribute { id: id.to_string(), args }
}

fn config(func_id: u64, ignored: bool, expectation: TestExpectation) -> TestConfig {
    TestConfig { func_id, available_gas: None, expectation, ignored }
}

fn args(filter: &str, include_ignored: bool, ignored: bool) -> Args {
    Args {
        path: "tests".to_string(),
        filter: filter.to_string(),
        include_ignored,
        ignored,
        starknet: false,
    }
}

fn named_tests() -> Vec<(String, TestConfig)> {
    vec![
        ("m::test_add".to_string(), config(1, false, TestExpectation::Success)),
        ("m::test_sub".to_string(), config(2, true, TestExpectation::Success)),
        ("m::check_mul".to_string(), config(3, false, TestExpectation::Panics)),
    ]
}

fn names(tests: &[(String, TestConfig)]) -> Vec<String> {
    tests.iter().map(|(n, _)| n.clone()).collect()
}

#[test]
fn parse_usize_reads_decimal_digits() {
    assert_eq!(parse_usize("0"), Some(0));
    assert_eq!(parse_usize("12345"), Some(12345));
    assert_eq!(parse_usize("+7"), Some(7));
    assert_eq!(parse_usize("18446744073709551615"), Some(usize::MAX));
}

#[test]
fn parse_usize_refuses_what_str_parse_refuses() {
    assert_eq!(parse_usize(""), None);
    assert_eq!(parse_usize("+"), None);
    assert_eq!(parse_usize("-1"), None);
    assert_eq!(parse_usize("1_000"), None);
    assert_eq!(parse_usize("0x10"), None);
    assert_eq!(parse_usize("18446744073709551616"), None);
}

#[test]
fn test_config_reads_the_attributes() {
    let attrs = vec![
        attribute("test", vec![]),
        attribute("available_gas", vec![AttributeValue::Literal("2000".to_string())]),
        attribute("should_panic", vec![]),
        attribute("ignore", vec![]),
    ];
    let c = test_config_of(42, &attrs).expect("a test");
    assert_eq!(c.func_id, 42);
    assert_eq!(c.available_gas, Some(2000));
    assert!(matches!(c.expectation, TestExpectation::Panics));
    assert!(c.ignored);
}

#[test]
fn function_without_test_attribute_is_no_test() {
    let attrs = vec![attribute("should_panic", vec![]), attribute("inline", vec![])];
    assert!(test_config_of(1, &attrs).is_none());
}

#[test]
fn gas_that_does_not_parse_is_none() {
    let attrs = vec![
        attribute("test", vec![]),
        attribute("available_gas", vec![AttributeValue::Literal("lots".to_string())]),
    ];
    assert_eq!(test_config_of(1, &attrs).expect("a test").available_gas, None);
    let attrs = vec![attribute("test", vec![]), attribute("available_gas", vec![AttributeValue::Other])];
    assert_eq!(test_config_of(1, &attrs).expect("a test").available_gas, None);
}

#[test]
fn last_gas_attribute_counts() {
    let attrs = vec![
        attribute("available_gas", vec![AttributeValue::Literal("5".to_string())]),
        attribute("test", vec![]),
        attribute("available_gas", vec![AttributeValue::Literal("9".to_string())]),
    ];
    assert_eq!(test_config_of(1, &attrs).expect("a test").available_gas, Some(9));
}

#[test]
fn runner_find_all_tests_keeps_order() {
    let functions = vec![
        (5u64, vec![attribute("test", vec![])]),
        (6u64, vec![]),
        (7u64, vec![attribute("ignore", vec![]), attribute("test", vec![])]),
    ];
    let tests = find_all_tests(&functions);
    assert_eq!(tests.len(), 2);
    assert_eq!(tests[0].func_id, 5);
    assert!(!tests[0].ignored);
    assert_eq!(tests[1].func_id, 7);
    assert!(tests[1].ignored);
}

#[test]
fn filter_keeps_matching_names() {
    let selected = select_tests(&named_tests(), &args("test_", false, false));
    assert_eq!(names(&selected), vec!["m::test_add".to_string(), "m::test_sub".to_string()]);
    assert!(selected[1].1.ignored);
}

#[test]
fn no_filter_selects_all_tests() {
    let selected = select_tests(&named_tests(), &args("", false, false));
    assert_eq!(names(&selected), names(&named_tests()));
}

#[test]
fn ignored_mode_selects_only_ignored_tests() {
    let selected = select_tests(&named_tests(), &args("", false, true));
    assert_eq!(names(&selected), vec!["m::test_sub".to_string()]);
    assert!(selected[0].1.ignored);
}

#[test]
fn include_ignored_unignores_every_test() {
    let selected = select_tests(&named_tests(), &args("", true, false));
    assert_eq!(selected.len(), 3);
    assert!(selected.iter().all(|(_, t)| !t.ignored));
    // With both flags no test is left ignored, so the ignored-only filter keeps none.
    let selected = select_tests(&named_tests(), &args("", true, true));
    assert_eq!(selected.len(), 0);
}

#[test]
fn status_follows_expectation() {
    let felt = || vec![FeltValue { bytes: vec![0; 32] }];
    assert!(matches!(
        test_status(TestExpectation::Success, RunResultValue::Success(felt())),
        TestStatus::Success
    ));
    assert!(matches!(
        test_status(TestExpectation::Panics, RunResultValue::Panic(felt())),
        TestStatus::Success
    ));
    assert!(matches!(
        test_status(TestExpectation::Success, RunResultValue::Panic(felt())),
        TestStatus::Fail(RunResultValue::Panic(_))
    ));
    assert!(matches!(
        test_status(TestExpectation::Panics, RunResultValue::Success(felt())),
        TestStatus::Fail(RunResultValue::Success(_))
    ));
}

#[test]
fn summary_records_each_status() {
    let mut summary = TestsSummary::new();
    summary.record("a".to_string(), TestStatus::Success);
    summary.record("b".to_string(), TestStatus::Fail(RunResultValue::Panic(vec![])));
    summary.record("c".to_string(), TestStatus::Ignore);
    assert_eq!(summary.passed, vec!["a".to_string()]);
    assert_eq!(summary.failed, vec!["b".to_string()]);
    assert_eq!(summary.ignored, vec!["c".to_string()]);
    assert_eq!(summary.failed_run_results.len(), 1);
}

#[test]
fn summarize_places_every_test_once() {
    let results = vec![
        Some(RunResultValue::Success(vec![])),
        None,
        Some(RunResultValue::Success(vec![])),
    ];
    let summary = summarize_tests(named_tests(), results);
    assert_eq!(summary.passed, vec!["m::test_add".to_string()]);
    assert_eq!(summary.ignored, vec!["m::test_sub".to_string()]);
    assert_eq!(summary.failed, vec!["m::check_mul".to_string()]);
    assert!(matches!(summary.failed_run_results[0], RunResultValue::Success(_)));
    assert_eq!(summary.passed.len() + summary.failed.len() + summary.ignored.len(), 3);
}
