use cairo_protostar::cheatcodes::{
    build_call, build_invoke, build_print, build_start_spoof, build_stop_spoof,
    get_non_fallthrough_statement_id, BranchTarget, CellExpression, CellOperator, CellRef,
    BranchCode, CasmInstruction, CasmLine, CheatcodeHint, CompiledInvocationBuilder, DerefOrImmediate,
    InvocationError, ReferenceExpression, Register, SignedValue,
};

fn fp(offset: i16) -> CellRef {
    CellRef { register: Register::FP, offset }
}

fn ap(offset: i16) -> CellRef {
    CellRef { register: Register::AP, offset }
}

fn single(c: CellRef) -> ReferenceExpression {
    ReferenceExpression { cells: vec![CellExpression::Deref(c)] }
}

fn span(a: CellRef, b: CellRef) -> ReferenceExpression {
    ReferenceExpression { cells: vec![CellExpression::Deref(a), CellExpression::Deref(b)] }
}

fn immediate(v: u8) -> ReferenceExpression {
    ReferenceExpression {
        cells: vec![CellExpression::Immediate(SignedValue { negative: false, magnitude: vec![v] })],
    }
}

fn with_failure(refs: Vec<ReferenceExpression>, target: usize) -> CompiledInvocationBuilder {
    CompiledInvocationBuilder {
        refs,
        branches: vec![BranchTarget::Fallthrough, BranchTarget::Statement(target)],
    }
}

fn assert_branch(b: &BranchCode, target: BranchTarget, outputs: Vec<Vec<CellRef>>, ap_change: usize, steps: usize) {
    assert_eq!(b.target, target);
    assert_eq!(b.outputs, outputs);
    assert_eq!(b.ap_change, ap_change);
    assert_eq!(b.steps, steps);
}

fn fallthrough(refs: Vec<ReferenceExpression>) -> CompiledInvocationBuilder {
    CompiledInvocationBuilder { refs, branches: vec![BranchTarget::Fallthrough] }
}

#[test]
fn failure_branch_target() {
    let b = with_failure(vec![], 17);
    assert_eq!(get_non_fallthrough_statement_id(&b), 17);
}

#[test]
fn stop_spoof_reads_the_address() {
    let r = build_stop_spoof(fallthrough(vec![single(fp(-3))])).expect("valid arguments");
    assert_eq!(
        r.code,
        vec![CasmLine {
            hint: Some(CheatcodeHint::StopSpoof { contract_address: fp(-3) }),
            instruction: CasmInstruction::AddAp(0),
        }]
    );
    assert_eq!(r.branches.len(), 1);
    assert_branch(&r.branches[0], BranchTarget::Fallthrough, vec![], 0, 1);
}

#[test]
fn stop_spoof_errors() {
    assert_eq!(
        build_stop_spoof(fallthrough(vec![])).err(),
        Some(InvocationError::WrongNumberOfArguments { expected: 1, actual: 0 })
    );
    assert_eq!(
        build_stop_spoof(fallthrough(vec![span(fp(-4), fp(-3))])).err(),
        Some(InvocationError::InvalidReferenceExpressionForArgument)
    );
    assert_eq!(
        build_stop_spoof(fallthrough(vec![immediate(1)])).err(),
        Some(InvocationError::InvalidReferenceExpressionForArgument)
    );
}

#[test]
fn invoke_reads_three_cells() {
    let r = build_invoke(with_failure(vec![single(fp(-5)), single(fp(-4)), single(ap(2))], 9))
        .expect("valid arguments");
    assert_eq!(
        r.code,
        vec![CasmLine {
            hint: Some(CheatcodeHint::Invoke {
                contract_address: fp(-5),
                function_name: fp(-4),
                calldata: ap(2),
                err_code: ap(0),
            }),
            instruction: CasmInstruction::JumpIfNonZero { condition: ap(0), branch: 1, inc_ap: true },
        }]
    );
    assert_eq!(r.branches.len(), 2);
    assert_branch(&r.branches[0], BranchTarget::Fallthrough, vec![], 1, 1);
    assert_branch(&r.branches[1], BranchTarget::Statement(9), vec![vec![ap(-1)]], 1, 1);
}

#[test]
fn invoke_errors() {
    assert_eq!(
        build_invoke(with_failure(vec![single(fp(-5)), single(fp(-4))], 9)).err(),
        Some(InvocationError::WrongNumberOfArguments { expected: 3, actual: 2 })
    );
    let double_deref = ReferenceExpression { cells: vec![CellExpression::DoubleDeref(fp(-3), 1)] };
    assert_eq!(
        build_invoke(with_failure(vec![single(fp(-5)), single(fp(-4)), double_deref], 9)).err(),
        Some(InvocationError::InvalidReferenceExpressionForArgument)
    );
}

#[test]
fn call_reads_address_selector_and_calldata() {
    let r = build_call(with_failure(
        vec![single(fp(-6)), single(fp(-5)), span(fp(-4), fp(-3))],
        4,
    ));
    let r = r.expect("valid arguments");
    assert_eq!(
        r.code,
        vec![
            CasmLine {
                hint: Some(CheatcodeHint::Call {
                    contract_address: fp(-6),
                    function_selector: fp(-5),
                    calldata_start: fp(-4),
                    calldata_end: fp(-3),
                    err_code: ap(0),
                    return_data_start: ap(1),
                    return_data_end: ap(2),
                }),
                instruction: CasmInstruction::AddAp(3),
            },
            CasmLine {
                hint: None,
                instruction: CasmInstruction::JumpIfNonZero { condition: ap(-3), branch: 1, inc_ap: false },
            },
        ]
    );
    assert_eq!(r.branches.len(), 2);
    assert_branch(&r.branches[0], BranchTarget::Fallthrough, vec![vec![ap(-2), ap(-1)]], 3, 2);
    assert_branch(&r.branches[1], BranchTarget::Statement(4), vec![vec![ap(-3)]], 3, 2);
}

#[test]
fn call_errors() {
    assert_eq!(
        build_call(with_failure(vec![single(fp(-6))], 4)).err(),
        Some(InvocationError::WrongNumberOfArguments { expected: 3, actual: 1 })
    );
    // A generic argument of two cells.
    assert_eq!(
        build_call(with_failure(
            vec![span(fp(-7), fp(-6)), single(fp(-5)), span(fp(-4), fp(-3))],
            4
        )).err(),
        Some(InvocationError::InvalidGenericArg)
    );
    // Calldata of one cell.
    assert_eq!(
        build_call(with_failure(vec![single(fp(-6)), single(fp(-5)), single(fp(-4))], 4)).err(),
        Some(InvocationError::InvalidReferenceExpressionForArgument)
    );
    // A constant address.
    assert_eq!(
        build_call(with_failure(vec![immediate(3), single(fp(-5)), span(fp(-4), fp(-3))], 4)).err(),
        Some(InvocationError::InvalidReferenceExpressionForArgument)
    );
}

#[test]
fn print_reads_data_and_format() {
    let r = build_print(with_failure(vec![span(ap(-2), ap(-1)), single(fp(-3))], 11))
        .expect("valid arguments");
    assert_eq!(
        r.code,
        vec![
            CasmLine {
                hint: Some(CheatcodeHint::Print {
                    data_start: ap(-2),
                    data_end: ap(-1),
                    format: fp(-3),
                    panic_data_start: ap(0),
                    panic_data_end: ap(1),
                }),
                instruction: CasmInstruction::AssertSum { dst: ap(1), a: ap(2), b: ap(0), inc_ap: true },
            },
            CasmLine { hint: None, instruction: CasmInstruction::AddAp(3) },
            CasmLine {
                hint: None,
                instruction: CasmInstruction::JumpIfNonZero { condition: ap(-2), branch: 1, inc_ap: false },
            },
        ]
    );
    assert_eq!(r.branches.len(), 2);
    assert_branch(&r.branches[0], BranchTarget::Fallthrough, vec![], 4, 3);
    assert_branch(&r.branches[1], BranchTarget::Statement(11), vec![vec![ap(-4), ap(-3)]], 4, 3);
}

#[test]
fn print_errors() {
    assert_eq!(
        build_print(with_failure(vec![span(ap(-2), ap(-1))], 11)).err(),
        Some(InvocationError::WrongNumberOfArguments { expected: 2, actual: 1 })
    );
    // Data of one cell is checked before the format.
    assert_eq!(
        build_print(with_failure(vec![single(ap(-2)), span(fp(-4), fp(-3))], 11)).err(),
        Some(InvocationError::InvalidReferenceExpressionForArgument)
    );
    assert_eq!(
        build_print(with_failure(vec![span(ap(-2), ap(-1)), span(fp(-4), fp(-3))], 11)).err(),
        Some(InvocationError::InvalidGenericArg)
    );
    let bin_op = ReferenceExpression {
        cells: vec![CellExpression::BinOp {
            op: CellOperator::Add,
            a: fp(-3),
            b: DerefOrImmediate::Deref(fp(-4)),
        }],
    };
    assert_eq!(
        build_print(with_failure(vec![span(ap(-2), ap(-1)), bin_op], 11)).err(),
        Some(InvocationError::InvalidReferenceExpressionForArgument)
    );
}

fn spoof_refs() -> Vec<ReferenceExpression> {
    let mut refs = Vec::new();
    for i in 0..15i16 {
        if i == 7 {
            refs.push(span(fp(-30), fp(-29)));
        } else {
            refs.push(single(fp(-20 + i)));
        }
    }
    refs
}

#[test]
fn start_spoof_reads_sixteen_cells() {
    let r = build_start_spoof(fallthrough(spoof_refs())).expect("valid arguments");
    assert_eq!(r.code.len(), 1);
    assert_eq!(r.code[0].instruction, CasmInstruction::AddAp(0));
    assert_eq!(r.branches.len(), 1);
    assert_branch(&r.branches[0], BranchTarget::Fallthrough, vec![], 0, 1);
    match r.code[0].hint {
        Some(CheatcodeHint::StartSpoof(o)) => {
            assert_eq!(o.contract_address, fp(-20));
            assert_eq!(o.version, fp(-19));
            assert_eq!(o.set_version, fp(-18));
            assert_eq!(o.account_contract_address, fp(-17));
            assert_eq!(o.set_account_contract_address, fp(-16));
            assert_eq!(o.max_fee, fp(-15));
            assert_eq!(o.set_max_fee, fp(-14));
            assert_eq!(o.signature_data_start, fp(-30));
            assert_eq!(o.signature_data_end, fp(-29));
            assert_eq!(o.set_signature, fp(-12));
            assert_eq!(o.transaction_hash, fp(-11));
            assert_eq!(o.set_transaction_hash, fp(-10));
            assert_eq!(o.chain_id, fp(-9));
            assert_eq!(o.set_chain_id, fp(-8));
            assert_eq!(o.nonce, fp(-7));
            assert_eq!(o.set_nonce, fp(-6));
        }
        _ => panic!("expected a StartSpoof hint"),
    }
}

#[test]
fn start_spoof_errors() {
    let mut refs = spoof_refs();
    refs.pop();
    assert_eq!(
        build_start_spoof(fallthrough(refs)).err(),
        Some(InvocationError::WrongNumberOfArguments { expected: 15, actual: 14 })
    );
    let mut refs = spoof_refs();
    refs[7] = single(fp(-30));
    assert_eq!(
        build_start_spoof(fallthrough(refs)).err(),
        Some(InvocationError::InvalidReferenceExpressionForArgument)
    );
    let mut refs = spoof_refs();
    refs[14] = immediate(0);
    assert_eq!(
        build_start_spoof(fallthrough(refs)).err(),
        Some(InvocationError::InvalidReferenceExpressionForArgument)
    );
}
