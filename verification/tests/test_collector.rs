use cairo_protostar::felt::FeltValue;
use cairo_protostar::test_collector::{
    build_linked_libraries, find_all_tests, try_extract_test_config, Attribute, AttributeArg,
    AttributeArgVariant, AttributeExpr, PanicExpectation, TestExpectation,
};

fn attr(id: &str, ptr: usize, args: Vec<AttributeArg>) -> Attribute {
    Attribute { id: id.to_string(), id_stable_ptr: ptr, args, args_stable_ptr: ptr + 1000 }
}

fn unnamed(value: AttributeExpr) -> AttributeArg {
    AttributeArg { variant: AttributeArgVariant::Unnamed { value } }
}

fn named(name: &str, value: AttributeExpr) -> AttributeArg {
    AttributeArg { variant: AttributeArgVariant::Named { name: name.to_string(), value } }
}

fn literal(bytes: Vec<u8>) -> AttributeExpr {
    AttributeExpr::Literal(Some(bytes))
}

fn felt_value(f: &FeltValue) -> u128 {
    f.bytes.iter().fold(0u128, |acc, b| acc.wrapping_mul(256).wrapping_add(*b as u128))
}

#[test]
fn no_attributes_is_not_a_test() {
    let r = try_extract_test_config(&vec![]);
    assert!(matches!(r, Ok(None)));
}

#[test]
fn plain_test_attribute() {
    let r = try_extract_test_config(&vec![attr("test", 1, vec![])]);
    match r {
        Ok(Some(c)) => {
            assert_eq!(c.available_gas, None);
            assert!(matches!(c.expectation, TestExpectation::Success));
            assert!(!c.ignored);
        }
        _ => panic!("expected a test"),
    }
}

#[test]
fn ignored_test_with_gas() {
    let attrs = vec![
        attr("test", 1, vec![]),
        attr("ignore", 2, vec![]),
        attr("available_gas", 3, vec![unnamed(literal(vec![0x01, 0x00]))]),
    ];
    match try_extract_test_config(&attrs) {
        Ok(Some(c)) => {
            assert_eq!(c.available_gas, Some(256));
            assert!(c.ignored);
            assert!(matches!(c.expectation, TestExpectation::Success));
        }
        _ => panic!("expected a test"),
    }
}

#[test]
fn gas_literal_without_value_counts_as_zero() {
    let attrs = vec![
        attr("test", 1, vec![]),
        attr("available_gas", 3, vec![unnamed(AttributeExpr::Literal(None))]),
    ];
    match try_extract_test_config(&attrs) {
        Ok(Some(c)) => assert_eq!(c.available_gas, Some(0)),
        _ => panic!("expected a test"),
    }
}

#[test]
fn gas_beyond_usize_is_no_gas() {
    let attrs = vec![
        attr("test", 1, vec![]),
        attr("available_gas", 3, vec![unnamed(literal(vec![1; 17]))]),
    ];
    match try_extract_test_config(&attrs) {
        Ok(Some(c)) => assert_eq!(c.available_gas, None),
        _ => panic!("expected a test"),
    }
}

#[test]
fn should_panic_without_arguments_accepts_any_panic() {
    let attrs = vec![attr("test", 1, vec![]), attr("should_panic", 2, vec![])];
    match try_extract_test_config(&attrs) {
        Ok(Some(c)) => {
            assert!(matches!(c.expectation, TestExpectation::Panics(PanicExpectation::Any)))
        }
        _ => panic!("expected a test"),
    }
}

#[test]
fn should_panic_with_expected_values() {
    let tuple = AttributeExpr::Tuple(vec![
        literal(vec![7]),
        AttributeExpr::ShortString(Some(vec![0x61, 0x62])),
    ]);
    let attrs = vec![attr("test", 1, vec![]), attr("should_panic", 2, vec![named("expected", tuple)])];
    match try_extract_test_config(&attrs) {
        Ok(Some(c)) => match c.expectation {
            TestExpectation::Panics(PanicExpectation::Exact(values)) => {
                assert_eq!(values.len(), 2);
                assert_eq!(values[0].bytes.len(), 32);
                assert_eq!(felt_value(&values[0]), 7);
                assert_eq!(felt_value(&values[1]), 0x6162);
            }
            _ => panic!("expected exact panic values"),
        },
        _ => panic!("expected a test"),
    }
}

#[test]
fn expected_panic_value_is_reduced_modulo_the_prime() {
    // The prime plus one.
    let mut bytes = vec![0u8; 32];
    bytes[0] = 0x08;
    bytes[7] = 0x11;
    bytes[31] = 0x02;
    let tuple = AttributeExpr::Tuple(vec![literal(bytes)]);
    let attrs = vec![attr("test", 1, vec![]), attr("should_panic", 2, vec![named("expected", tuple)])];
    match try_extract_test_config(&attrs) {
        Ok(Some(c)) => match c.expectation {
            TestExpectation::Panics(PanicExpectation::Exact(values)) => {
                assert_eq!(felt_value(&values[0]), 1);
            }
            _ => panic!("expected exact panic values"),
        },
        _ => panic!("expected a test"),
    }
}

#[test]
fn test_attribute_with_arguments_is_refused() {
    let attrs = vec![attr("test", 5, vec![unnamed(literal(vec![1]))])];
    match try_extract_test_config(&attrs) {
        Err(ds) => {
            assert_eq!(ds.len(), 1);
            assert_eq!(ds[0].stable_ptr, 5);
            assert_eq!(ds[0].message, "Attribute should not have arguments.");
        }
        _ => panic!("expected diagnostics"),
    }
}

#[test]
fn configuration_without_test_is_refused() {
    let attrs = vec![
        attr("available_gas", 4, vec![unnamed(literal(vec![5]))]),
        attr("ignore", 3, vec![]),
        attr("should_panic", 2, vec![]),
    ];
    match try_extract_test_config(&attrs) {
        Err(ds) => {
            assert_eq!(ds.len(), 3);
            // Those of `ignore`, `available_gas` and `should_panic`, in that order.
            assert_eq!(ds[0].stable_ptr, 3);
            assert_eq!(ds[1].stable_ptr, 4);
            assert_eq!(ds[2].stable_ptr, 2);
            for d in &ds {
                assert_eq!(d.message, "Attribute should only appear on tests.");
            }
        }
        _ => panic!("expected diagnostics"),
    }
}

#[test]
fn ignore_with_arguments_is_refused() {
    let attrs = vec![attr("test", 1, vec![]), attr("ignore", 9, vec![unnamed(AttributeExpr::Other)])];
    match try_extract_test_config(&attrs) {
        Err(ds) => {
            assert_eq!(ds.len(), 1);
            assert_eq!(ds[0].stable_ptr, 9);
            assert_eq!(ds[0].message, "Attribute should not have arguments.");
        }
        _ => panic!("expected diagnostics"),
    }
}

#[test]
fn gas_that_is_not_a_single_literal_is_refused() {
    let attrs = vec![
        attr("test", 1, vec![]),
        attr("available_gas", 6, vec![named("amount", literal(vec![1]))]),
    ];
    match try_extract_test_config(&attrs) {
        Err(ds) => {
            assert_eq!(ds.len(), 1);
            assert_eq!(ds[0].stable_ptr, 6);
            assert_eq!(ds[0].message, "Attribute should have a single value argument.");
        }
        _ => panic!("expected diagnostics"),
    }
}

#[test]
fn malformed_expected_panic_is_refused() {
    let attrs = vec![
        attr("test", 1, vec![]),
        attr("should_panic", 7, vec![named("expected", literal(vec![1]))]),
    ];
    match try_extract_test_config(&attrs) {
        Err(ds) => {
            assert_eq!(ds.len(), 1);
            assert_eq!(ds[0].stable_ptr, 1007);
            assert_eq!(
                ds[0].message,
                "Expected panic must be of the form `expected = <tuple of felts>`."
            );
        }
        _ => panic!("expected diagnostics"),
    }
}

#[test]
fn only_the_first_attribute_of_a_name_counts() {
    let attrs = vec![
        attr("test", 1, vec![]),
        attr("available_gas", 2, vec![unnamed(literal(vec![10]))]),
        attr("available_gas", 3, vec![unnamed(AttributeExpr::Other)]),
    ];
    match try_extract_test_config(&attrs) {
        Ok(Some(c)) => assert_eq!(c.available_gas, Some(10)),
        _ => panic!("expected a test"),
    }
}

#[test]
fn find_all_tests_keeps_tests_in_order() {
    let functions = vec![
        (11u64, vec![attr("test", 1, vec![])]),
        (12u64, vec![attr("inline", 2, vec![])]),
        (13u64, vec![attr("test", 3, vec![]), attr("ignore", 4, vec![])]),
    ];
    let tests = find_all_tests(&functions);
    assert_eq!(tests.len(), 2);
    assert_eq!(tests[0].0, 11);
    assert!(!tests[0].1.ignored);
    assert_eq!(tests[1].0, 13);
    assert!(tests[1].1.ignored);
}

#[test]
fn linked_libraries_take_name_and_path() {
    let libs = build_linked_libraries(vec![
        ("/src/a".to_string(), "a".to_string()),
        ("/src/b".to_string(), "b".to_string()),
    ]);
    assert_eq!(libs.len(), 2);
    assert_eq!(libs[0].name, "a");
    assert_eq!(libs[0].path, "/src/a");
    assert_eq!(libs[1].name, "b");
    assert_eq!(libs[1].path, "/src/b");
}

#[test]
fn unread_attributes_change_nothing() {
    let base = vec![
        attr("test", 1, vec![]),
        attr("available_gas", 2, vec![unnamed(literal(vec![9]))]),
    ];
    let with_extra = vec![
        attr("test", 1, vec![]),
        attr("inline", 5, vec![unnamed(AttributeExpr::Other)]),
        attr("available_gas", 2, vec![unnamed(literal(vec![9]))]),
        attr("test", 7, vec![unnamed(literal(vec![1]))]),
    ];
    for attrs in [base, with_extra] {
        match try_extract_test_config(&attrs) {
            Ok(Some(c)) => {
                assert_eq!(c.available_gas, Some(9));
                assert!(!c.ignored);
                assert!(matches!(c.expectation, TestExpectation::Success));
            }
            _ => panic!("expected a test"),
        }
    }
}
