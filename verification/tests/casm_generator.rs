use cairo_lang_sierra::ids::ConcreteTypeId;
use cairo_protostar::casm_generator::{
    build_casm_plan, build_protostar_casm, checked_build_casm_plan, collect_tests, create_entry_code, find_function,
    prime_bytes, test_entry_points, validate_test, validate_tests, AssembledInstruction, EncodedWord, EntryInstruction,
    EntryStep, GeneratorError, ValidationError,
};
use cairo_protostar::cheatcodes::{CellRef, Register};
use num_bigint::BigUint;
use num_traits::Num;

fn prime() -> BigUint {
    BigUint::from_str_radix("800000000000011000000000000000000000000000000000000000000000001", 16)
        .unwrap()
}

fn id(name: &str) -> u64 {
    ConcreteTypeId::from_string(name).id
}

fn names(v: &[&str]) -> Vec<String> {
    v.iter().map(|s| s.to_string()).collect()
}

#[test]
fn tests_are_functions_named_with_test_() {
    let functions = vec![
        Some("m::test_a".to_string()),
        None,
        Some("m::helper".to_string()),
        Some("m::inner::test_b".to_string()),
    ];
    assert_eq!(collect_tests(&functions), names(&["m::test_a", "m::inner::test_b"]));
}

#[test]
fn find_function_takes_the_first_suffix_match() {
    let functions = vec![
        None,
        Some("a::run".to_string()),
        Some("b::run".to_string()),
    ];
    assert_eq!(find_function(&functions, "::run").ok(), Some(1));
    assert_eq!(find_function(&functions, "b::run").ok(), Some(2));
}

#[test]
fn missing_function_names_the_suffix() {
    let functions = vec![Some("a::run".to_string())];
    match find_function(&functions, "walk") {
        Err(GeneratorError::MissingFunction { suffix }) => assert_eq!(suffix, "walk"),
        _ => panic!("expected MissingFunction"),
    }
}

#[test]
fn entry_points_follow_the_entry_codes() {
    let tests = names(&["t0", "t1", "t2"]);
    let points = test_entry_points(&tests, &vec![4, 0, 7]);
    let offsets: Vec<usize> = points.iter().map(|p| p.offset).collect();
    assert_eq!(offsets, vec![0, 4, 4]);
    assert_eq!(points[2].name, "t2");
}

#[test]
fn entry_code_for_builtins_gas_and_arguments() {
    let types = vec![id("Pedersen"), id("GasBuiltin"), id("System"), id("felt252"), id("EcOp")];
    let sizes = vec![Ok(1), Ok(1), Ok(1), Ok(2), Ok(1)];
    let code = match create_entry_code(&types, &sizes, 2, 100, 40) {
        Ok(code) => code,
        Err(_) => panic!("expected entry code"),
    };
    assert!(matches!(code.steps[0], EntryStep::CopyBuiltin(6)));
    assert!(matches!(code.steps[1], EntryStep::InitialGas(100)));
    assert!(matches!(code.steps[2], EntryStep::SystemSegment));
    assert!(matches!(code.steps[3], EntryStep::PushArg(0)));
    assert!(matches!(code.steps[4], EntryStep::PushArg(1)));
    assert!(matches!(code.steps[5], EntryStep::CopyBuiltin(3)));
    let fp = |offset: i16| CellRef { register: Register::FP, offset };
    assert_eq!(code.steps.len(), 6);
    assert_eq!(code.call_offset, 43);
    assert_eq!(
        code.instructions,
        vec![
            EntryInstruction::PushCell(fp(-6)),
            EntryInstruction::PushImmediate(100),
            EntryInstruction::AllocSegments(1),
            EntryInstruction::PushArg(0),
            EntryInstruction::PushArg(1),
            EntryInstruction::PushCell(fp(-3)),
            EntryInstruction::CallRel(43),
            EntryInstruction::Ret,
        ]
    );
    assert_eq!(code.builtins, names(&["pedersen", "range_check", "bitwise", "ec_op"]));
}

#[test]
fn entry_code_for_dict_manager() {
    let types = vec![id("RangeCheck"), id("DictManager")];
    let sizes = vec![Ok(1), Ok(1)];
    let code = match create_entry_code(&types, &sizes, 0, 0, 0) {
        Ok(code) => code,
        Err(_) => panic!("expected entry code"),
    };
    assert_eq!(code.steps.len(), 3);
    assert!(matches!(code.steps[0], EntryStep::DictManagerSetup));
    assert!(matches!(code.steps[1], EntryStep::CopyBuiltin(5)));
    assert!(matches!(code.steps[2], EntryStep::CopyDictManager(-4)));
    // Five instructions set the dict manager up, one copies each builtin, then call and ret.
    assert_eq!(code.instructions.len(), 5 + 1 + 1 + 2);
    assert_eq!(
        code.instructions,
        vec![
            EntryInstruction::AllocSegments(2),
            EntryInstruction::PushImmediate(0),
            EntryInstruction::StoreIndirect { value: -2, base: -3, field: 0 },
            EntryInstruction::StoreIndirect { value: -1, base: -3, field: 1 },
            EntryInstruction::StoreIndirect { value: -1, base: -3, field: 2 },
            EntryInstruction::PushCell(CellRef { register: Register::FP, offset: -5 }),
            EntryInstruction::PushCell(CellRef { register: Register::AP, offset: -4 }),
            EntryInstruction::CallRel(3),
            EntryInstruction::Ret,
        ]
    );
}

#[test]
fn entry_code_argument_size_mismatch() {
    let types = vec![id("felt252"), id("u128")];
    let sizes = vec![Ok(1), Ok(1)];
    match create_entry_code(&types, &sizes, 1, 0, 0) {
        Err(GeneratorError::ArgumentsSizeMismatch { expected, actual }) => {
            assert_eq!(expected, 2);
            assert_eq!(actual, 1);
        }
        _ => panic!("expected ArgumentsSizeMismatch"),
    }
}

#[test]
fn entry_code_unknown_type() {
    let types = vec![id("felt252"), id("Mystery")];
    let sizes = vec![Ok(1), Err("type Mystery not found".to_string())];
    match create_entry_code(&types, &sizes, 1, 0, 0) {
        Err(GeneratorError::ProgramRegistryError(m)) => assert_eq!(m, "type Mystery not found"),
        _ => panic!("expected ProgramRegistryError"),
    }
}

#[test]
fn valid_test_passes_the_checks() {
    let r = validate_test(
        &"m::test_a".to_string(),
        &names(&["RangeCheck"]),
        &names(&["RangeCheck", "GasBuiltin"]),
        &Some("core::PanicResult::<((),)>".to_string()),
    );
    assert!(r.is_ok());
}

#[test]
fn test_with_parameters_is_refused() {
    let r = validate_test(
        &"m::test_a".to_string(),
        &names(&["RangeCheck", "felt252", "u8"]),
        &names(&["RangeCheck"]),
        &Some("core::PanicResult::<((),)>".to_string()),
    );
    assert_eq!(r, Err("Invalid number of parameters for test m::test_a: expected 0, got 3".to_string()));
}

#[test]
fn test_that_cannot_panic_is_refused() {
    let r = validate_test(&"t".to_string(), &vec![], &vec![], &Some("core::option::Option".to_string()));
    assert_eq!(r, Err("Test function t must be panicable but it's not".to_string()));
}

#[test]
fn test_that_returns_a_value_is_refused() {
    let r = validate_test(
        &"t".to_string(),
        &vec![],
        &vec![],
        &Some("core::PanicResult::<(felt252,)>".to_string()),
    );
    assert_eq!(
        r,
        Err("Test function t returns a value core::PanicResult::<(felt252,)>, it is required that test functions do not return values".to_string())
    );
}

#[test]
fn test_without_readable_return_type_is_refused() {
    let r = validate_test(&"t".to_string(), &vec![], &vec![], &None);
    assert_eq!(
        r,
        Err("Couldn't read result type for test function t possible cause: Test function t must be panicable but it's not".to_string())
    );
}

#[test]
fn prime_is_the_field_prime() {
    assert_eq!(BigUint::from_bytes_be(&prime_bytes()), prime());
}

fn word(negative: bool, magnitude: Vec<u8>) -> EncodedWord {
    EncodedWord { negative, magnitude }
}

#[test]
fn casm_lays_out_entry_codes_then_program() {
    let entry_codes = vec![
        vec![AssembledInstruction { hints: vec![], encoding: vec![word(false, vec![1])] }],
        vec![
            AssembledInstruction { hints: vec![], encoding: vec![word(false, vec![2])] },
            AssembledInstruction {
                hints: vec!["%{ memory[ap + 0] = segments.add() %}".to_string()],
                encoding: vec![word(false, vec![3]), word(true, vec![5])],
            },
        ],
    ];
    let program = vec![AssembledInstruction {
        hints: vec!["a".to_string(), "b".to_string()],
        encoding: vec![word(false, vec![0x48, 0x06]), word(true, vec![0])],
    }];
    let casm = build_protostar_casm(&names(&["m::test_x", "m::test_y"]), &entry_codes, &program);
    assert_eq!(BigUint::from_bytes_be(&casm.prime), prime());
    let values: Vec<BigUint> = casm.bytecode.iter().map(|w| BigUint::from_bytes_be(w)).collect();
    assert_eq!(
        values,
        vec![
            BigUint::from(1u8),
            BigUint::from(2u8),
            BigUint::from(3u8),
            prime() - BigUint::from(5u8),
            BigUint::from(0x4806u32),
            // A negative word whose magnitude is a multiple of the prime gives the prime.
            prime(),
        ]
    );
    assert_eq!(
        casm.hints,
        vec![
            (2, vec!["%{ memory[ap + 0] = segments.add() %}".to_string()]),
            (4, vec!["a".to_string(), "b".to_string()]),
        ]
    );
    assert_eq!(casm.test_entry_points.len(), 2);
    assert_eq!(casm.test_entry_points[0].offset, 0);
    assert_eq!(casm.test_entry_points[0].name, "m::test_x");
    // Offsets count the instructions of the entry codes before.
    assert_eq!(casm.test_entry_points[1].offset, 1);
    assert_eq!(casm.test_entry_points[1].name, "m::test_y");
}

#[test]
fn large_magnitudes_are_reduced() {
    let p_plus_two = (prime() + BigUint::from(2u8)).to_bytes_be();
    let program = vec![AssembledInstruction {
        hints: vec![],
        encoding: vec![word(false, p_plus_two.clone()), word(true, p_plus_two)],
    }];
    let casm = build_protostar_casm(&vec![], &vec![], &program);
    let values: Vec<BigUint> = casm.bytecode.iter().map(|w| BigUint::from_bytes_be(w)).collect();
    assert_eq!(values, vec![BigUint::from(2u8), prime() - BigUint::from(2u8)]);
}

#[test]
fn validate_tests_reports_the_first_failure() {
    let names = vec![
        Some("m::helper".to_string()),
        Some("m::test_a".to_string()),
        Some("m::test_b".to_string()),
        None,
        Some("m::test_c".to_string()),
    ];
    let params = vec![vec![], vec!["RangeCheck".to_string()], vec!["felt252".to_string()], vec![], vec![]];
    let panic_result = Some("core::PanicResult::<((),)>".to_string());
    let rets = vec![None, panic_result.clone(), panic_result.clone(), None, None];
    let ignored = vec!["RangeCheck".to_string()];
    let tests = |v: &[&str]| v.iter().map(|s| s.to_string()).collect::<Vec<String>>();
    assert!(matches!(validate_tests(&names, &params, &rets, &tests(&["test_a"]), &ignored), Ok(())));
    match validate_tests(&names, &params, &rets, &tests(&["test_a", "test_b", "test_c"]), &ignored) {
        Err(ValidationError::Check(m)) => {
            assert_eq!(m, "Invalid number of parameters for test test_b: expected 0, got 1")
        }
        _ => panic!("expected a failed check"),
    }
    match validate_tests(&names, &params, &rets, &tests(&["test_a", "test_c"]), &ignored) {
        Err(ValidationError::Check(m)) => assert_eq!(
            m,
            "Couldn't read result type for test function test_c possible cause: Test function test_c \
             must be panicable but it's not"
        ),
        _ => panic!("expected a failed check"),
    }
}

#[test]
fn validate_tests_reports_a_missing_function_first() {
    let names = vec![Some("m::test_a".to_string()), Some("m::test_b".to_string())];
    let params = vec![vec![], vec!["felt252".to_string()]];
    let rets = vec![Some("core::PanicResult::<((),)>".to_string()), None];
    let tests = vec!["test_a".to_string(), "test_z".to_string(), "test_b".to_string()];
    match validate_tests(&names, &params, &rets, &tests, &vec![]) {
        Err(ValidationError::Lookup(GeneratorError::MissingFunction { suffix })) => assert_eq!(suffix, "test_z"),
        _ => panic!("expected a missing function"),
    }
}

#[test]
fn validate_tests_checks_the_first_function_with_the_name() {
    let names = vec![Some("a::test_x".to_string()), Some("b::test_x".to_string())];
    let params = vec![vec![], vec!["felt252".to_string()]];
    let rets = vec![Some("core::PanicResult::<((),)>".to_string()), None];
    let tests = vec!["test_x".to_string()];
    assert!(matches!(validate_tests(&names, &params, &rets, &tests, &vec![]), Ok(())));
}

#[test]
fn casm_plan_builds_each_tests_entry_code() {
    let names = vec![
        Some("m::helper".to_string()),
        Some("m::test_x".to_string()),
        Some("m::test_y".to_string()),
    ];
    let types = vec![vec![], vec![id("RangeCheck")], vec![id("GasBuiltin")]];
    let sizes = vec![vec![], vec![Ok(1)], vec![Ok(1)]];
    let offsets = vec![0, 10, 20];
    let plan = match build_casm_plan(&names, &types, &sizes, &offsets) {
        Ok(plan) => plan,
        Err(_) => panic!("expected a plan"),
    };
    assert_eq!(plan.tests, names_of(&["m::test_x", "m::test_y"]));
    assert_eq!(
        plan.entry_codes[0].instructions,
        vec![
            EntryInstruction::PushCell(CellRef { register: Register::FP, offset: -5 }),
            EntryInstruction::CallRel(13),
            EntryInstruction::Ret,
        ]
    );
    assert_eq!(
        plan.entry_codes[1].instructions,
        vec![EntryInstruction::PushImmediate(0), EntryInstruction::CallRel(23), EntryInstruction::Ret]
    );
    assert_eq!(plan.footer, vec![EntryInstruction::Ret]);
}

#[test]
fn casm_plan_fails_on_a_test_that_takes_arguments() {
    let names = vec![Some("m::test_x".to_string())];
    let types = vec![vec![id("felt252")]];
    let sizes = vec![vec![Ok(1)]];
    match build_casm_plan(&names, &types, &sizes, &vec![0]) {
        Err(GeneratorError::ArgumentsSizeMismatch { expected, actual }) => {
            assert_eq!(expected, 1);
            assert_eq!(actual, 0);
        }
        _ => panic!("expected ArgumentsSizeMismatch"),
    }
}

fn names_of(v: &[&str]) -> Vec<String> {
    v.iter().map(|s| s.to_string()).collect()
}

#[test]
fn checked_plan_builds_when_the_dict_manager_fits() {
    let names = vec![Some("m::test_d".to_string())];
    let types = vec![vec![id("DictManager")]];
    let sizes = vec![vec![Ok(1)]];
    match checked_build_casm_plan(&names, &types, &sizes, &vec![7]) {
        Some(Ok(plan)) => {
            assert_eq!(plan.entry_codes[0].instructions.len(), 5 + 1 + 2);
            assert_eq!(
                plan.entry_codes[0].instructions[5],
                EntryInstruction::PushCell(CellRef { register: Register::AP, offset: -3 })
            );
            assert_eq!(plan.entry_codes[0].instructions[6], EntryInstruction::CallRel(10));
        }
        _ => panic!("expected a plan"),
    }
}
