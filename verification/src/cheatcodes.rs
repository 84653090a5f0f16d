//! Argument checking of the cheatcode libfuncs: each builder takes the
//! references of an invocation, checks their shape, and gives the hint that
//! the invocation runs, with the cells it reads and where a failure jumps.
use vstd::prelude::*;

verus! {

/// A register of the machine.
#[derive(Clone, Copy, PartialEq, Eq, Structural, Debug)]
pub enum Register {
    AP,
    FP,
}

/// A memory cell, at an offset from a register.
#[derive(Clone, Copy, PartialEq, Eq, Structural, Debug)]
pub struct CellRef {
    pub register: Register,
    pub offset: i16,
}

/// An operator of a cell expression.
#[derive(Clone, Copy, PartialEq, Eq, Structural, Debug)]
pub enum CellOperator {
    Add,
    Sub,
    Mul,
    Div,
}

/// A signed integer constant: its sign and its magnitude as big-endian bytes.
#[derive(Debug)]
pub struct SignedValue {
    pub negative: bool,
    pub magnitude: Vec<u8>,
}

/// A cell or a constant.
#[derive(Debug)]
pub enum DerefOrImmediate {
    Deref(CellRef),
    Immediate(SignedValue),
}

/// The expression of one cell of a reference.
#[derive(Debug)]
pub enum CellExpression {
    /// `[cell]`.
    Deref(CellRef),
    /// `[[cell] + offset]`.
    DoubleDeref(CellRef, i16),
    /// A constant.
    Immediate(SignedValue),
    /// `[a] op b`.
    BinOp { op: CellOperator, a: CellRef, b: DerefOrImmediate },
}

/// The cells that hold one argument of an invocation.
#[derive(Debug)]
pub struct ReferenceExpression {
    pub cells: Vec<CellExpression>,
}

/// Where a branch of an invocation continues.
#[derive(Clone, Copy, PartialEq, Eq, Structural, Debug)]
pub enum BranchTarget {
    /// At the next statement.
    Fallthrough,
    /// At the statement of this index.
    Statement(usize),
}

/// An invocation to compile: the references of its arguments and the targets
/// of its branches.
#[derive(Debug)]
pub struct CompiledInvocationBuilder {
    pub refs: Vec<ReferenceExpression>,
    pub branches: Vec<BranchTarget>,
}

/// Why an invocation cannot be compiled.
#[derive(Clone, Copy, PartialEq, Eq, Structural, Debug)]
pub enum InvocationError {
    /// The invocation has `actual` arguments where `expected` are needed.
    WrongNumberOfArguments { expected: usize, actual: usize },
    /// An argument does not have the cells the libfunc needs.
    InvalidReferenceExpressionForArgument,
    /// A generic argument is not of the size the libfunc needs.
    InvalidGenericArg,
}

/// The operands of a `StartSpoof` hint.
#[derive(Clone, Copy, PartialEq, Eq, Structural, Debug)]
pub struct StartSpoofOperands {
    pub contract_address: CellRef,
    pub version: CellRef,
    pub set_version: CellRef,
    pub account_contract_address: CellRef,
    pub set_account_contract_address: CellRef,
    pub max_fee: CellRef,
    pub set_max_fee: CellRef,
    pub signature_data_start: CellRef,
    pub signature_data_end: CellRef,
    pub set_signature: CellRef,
    pub transaction_hash: CellRef,
    pub set_transaction_hash: CellRef,
    pub chain_id: CellRef,
    pub set_chain_id: CellRef,
    pub nonce: CellRef,
    pub set_nonce: CellRef,
}

/// The hint that a cheatcode runs, with the cells it reads and the cells it
/// writes.
#[derive(Clone, Copy, PartialEq, Eq, Structural, Debug)]
pub enum CheatcodeHint {
    StartSpoof(StartSpoofOperands),
    StopSpoof { contract_address: CellRef },
    Call {
        contract_address: CellRef,
        function_selector: CellRef,
        calldata_start: CellRef,
        calldata_end: CellRef,
        err_code: CellRef,
        return_data_start: CellRef,
        return_data_end: CellRef,
    },
    Invoke { contract_address: CellRef, function_name: CellRef, calldata: CellRef, err_code: CellRef },
    Print {
        data_start: CellRef,
        data_end: CellRef,
        format: CellRef,
        panic_data_start: CellRef,
        panic_data_end: CellRef,
    },
}

/// An instruction of the code of a cheatcode.
#[derive(Clone, Copy, PartialEq, Eq, Structural, Debug)]
pub enum CasmInstruction {
    /// `ap += n`.
    AddAp(usize),
    /// `[dst] = [a] + [b]`, followed by `ap++` where `inc_ap`.
    AssertSum { dst: CellRef, a: CellRef, b: CellRef, inc_ap: bool },
    /// `jmp rel <branch> if [condition] != 0`, followed by `ap++` where
    /// `inc_ap`: jumps to the branch of index `branch` of the invocation.
    JumpIfNonZero { condition: CellRef, branch: usize, inc_ap: bool },
}

/// An instruction with the hint that runs before it, if any.
#[derive(Clone, Copy, PartialEq, Eq, Structural, Debug)]
pub struct CasmLine {
    pub hint: Option<CheatcodeHint>,
    pub instruction: CasmInstruction,
}

/// A branch out of a compiled invocation: where it continues, the cells of
/// each of its output variables (relative to `ap` at the branch), the
/// change of `ap` along it, and the steps it runs, which are its gas cost
/// (no range checks and no extra cost are charged).
#[derive(Debug)]
pub struct BranchCode {
    pub target: BranchTarget,
    pub outputs: Vec<Vec<CellRef>>,
    pub ap_change: usize,
    pub steps: usize,
}

/// A compiled cheatcode: its code and its branches, the fallthrough first.
#[derive(Debug)]
pub struct CheatcodeInvocation {
    pub code: Vec<CasmLine>,
    pub branches: Vec<BranchCode>,
}

/// The mathematical value of a branch.
pub struct SpecBranch {
    pub target: BranchTarget,
    pub outputs: Seq<Seq<CellRef>>,
    pub ap_change: nat,
    pub steps: nat,
}

/// The mathematical value of a compiled cheatcode.
pub struct SpecInvocation {
    pub code: Seq<CasmLine>,
    pub branches: Seq<SpecBranch>,
}

impl View for BranchCode {
    type V = SpecBranch;

    open spec fn view(&self) -> SpecBranch {
        SpecBranch {
            target: self.target,
            outputs: self.outputs@.map_values(|o: Vec<CellRef>| o@),
            ap_change: self.ap_change as nat,
            steps: self.steps as nat,
        }
    }
}

impl View for CheatcodeInvocation {
    type V = SpecInvocation;

    open spec fn view(&self) -> SpecInvocation {
        SpecInvocation { code: self.code@, branches: self.branches@.map_values(|b: BranchCode| b@) }
    }
}

/// The view of the result of compiling a cheatcode.
pub open spec fn result_view(r: Result<CheatcodeInvocation, InvocationError>) -> Result<SpecInvocation, InvocationError> {
    match r {
        Ok(inv) => Ok(inv@),
        Err(e) => Err(e),
    }
}

/// The cell at `offset` from `ap`.
pub open spec fn ap_at(offset: i16) -> CellRef {
    CellRef { register: Register::AP, offset }
}

/// The cell at `offset` from `ap`.
fn ap_cell(offset: i16) -> (c: CellRef)
    ensures
        c == ap_at(offset),
{
    CellRef { register: Register::AP, offset }
}

/// A branch with one output variable made of `cells`.
fn branch_with_output(target: BranchTarget, cells: Vec<CellRef>, ap_change: usize, steps: usize) -> (b: BranchCode)
    ensures
        b@ == (SpecBranch { target, outputs: seq![cells@], ap_change: ap_change as nat, steps: steps as nat }),
{
    let outputs = vec![cells];
    let b = BranchCode { target, outputs, ap_change, steps };
    assert(b@.outputs =~= seq![b.outputs@[0]@]);
    b
}

/// A branch with no output variable.
fn branch_without_output(target: BranchTarget, ap_change: usize, steps: usize) -> (b: BranchCode)
    ensures
        b@ == (SpecBranch { target, outputs: seq![], ap_change: ap_change as nat, steps: steps as nat }),
{
    let b = BranchCode { target, outputs: Vec::new(), ap_change, steps };
    assert(b@.outputs =~= seq![]);
    b
}

/// The code of a cheatcode that runs `hint` and falls through: `ap += 0`
/// carrying the hint, and one branch with no output.
pub open spec fn fallthrough_code(hint: CheatcodeHint) -> SpecInvocation {
    SpecInvocation {
        code: seq![CasmLine { hint: Some(hint), instruction: CasmInstruction::AddAp(0) }],
        branches: seq![SpecBranch { target: BranchTarget::Fallthrough, outputs: seq![], ap_change: 0, steps: 1 }],
    }
}

/// Compiles a cheatcode that runs `hint` and falls through.
fn fallthrough_invocation(hint: CheatcodeHint) -> (r: CheatcodeInvocation)
    ensures
        r@ == fallthrough_code(hint),
{
    let code = vec![CasmLine { hint: Some(hint), instruction: CasmInstruction::AddAp(0) }];
    let mut branches: Vec<BranchCode> = Vec::new();
    branches.push(branch_without_output(BranchTarget::Fallthrough, 0, 1));
    let r = CheatcodeInvocation { code, branches };
    assert(r@.code =~= fallthrough_code(hint).code);
    assert(r@.branches =~= fallthrough_code(hint).branches);
    r
}

/// The cell that `e` reads directly, if it is `[cell]`.
pub open spec fn deref_of(e: CellExpression) -> Option<CellRef> {
    match e {
        CellExpression::Deref(c) => Some(c),
        _ => None,
    }
}

/// The cell of a reference made of one `[cell]`.
pub open spec fn single_deref(r: ReferenceExpression) -> Option<CellRef> {
    if r.cells@.len() == 1 {
        deref_of(r.cells@[0])
    } else {
        None
    }
}

/// The cells of a reference made of two `[cell]`s.
pub open spec fn pair_deref(r: ReferenceExpression) -> Option<(CellRef, CellRef)> {
    if r.cells@.len() == 2 && deref_of(r.cells@[0]) is Some && deref_of(r.cells@[1]) is Some {
        Some((deref_of(r.cells@[0])->0, deref_of(r.cells@[1])->0))
    } else {
        None
    }
}

/// An invocation with two branches: one that falls through and one that
/// jumps to a statement.
pub open spec fn has_failure_branch(b: CompiledInvocationBuilder) -> bool {
    &&& b.branches@.len() == 2
    &&& b.branches@[0] == BranchTarget::Fallthrough
    &&& b.branches@[1] is Statement
}

/// The statement that the failure branch of `b` jumps to.
pub open spec fn failure_statement(b: CompiledInvocationBuilder) -> usize {
    b.branches@[1]->0
}

/// The error for an invocation with `count` arguments where `expected` are needed.
pub open spec fn arity_error(expected: usize, count: nat) -> InvocationError {
    InvocationError::WrongNumberOfArguments { expected, actual: count as usize }
}

impl CellExpression {
    /// The cell that this expression reads directly, if it is `[cell]`.
    pub fn to_deref(&self) -> (r: Option<CellRef>)
        ensures
            r == deref_of(*self),
    {
        match self {
            CellExpression::Deref(c) => Some(*c),
            _ => None,
        }
    }
}

impl ReferenceExpression {
    /// The only cell expression of this reference.
    pub fn try_unpack_single(&self) -> (r: Result<&CellExpression, InvocationError>)
        ensures
            self.cells@.len() == 1 ==> r == Ok::<&CellExpression, InvocationError>(&self.cells@[0]),
            self.cells@.len() != 1 ==> r == Err::<&CellExpression, InvocationError>(
                InvocationError::InvalidReferenceExpressionForArgument,
            ),
    {
        if self.cells.len() == 1 {
            Ok(&self.cells[0])
        } else {
            Err(InvocationError::InvalidReferenceExpressionForArgument)
        }
    }

    /// The two cell expressions of this reference.
    pub fn try_unpack_pair(&self) -> (r: Result<(&CellExpression, &CellExpression), InvocationError>)
        ensures
            self.cells@.len() == 2 ==> r == Ok::<(&CellExpression, &CellExpression), InvocationError>(
                (&self.cells@[0], &self.cells@[1]),
            ),
            self.cells@.len() != 2 ==> r == Err::<(&CellExpression, &CellExpression), InvocationError>(
                InvocationError::InvalidReferenceExpressionForArgument,
            ),
    {
        if self.cells.len() == 2 {
            Ok((&self.cells[0], &self.cells[1]))
        } else {
            Err(InvocationError::InvalidReferenceExpressionForArgument)
        }
    }
}

impl CompiledInvocationBuilder {
    /// Checks that the invocation has `count` arguments.
    pub fn try_get_refs(&self, count: usize) -> (r: Result<(), InvocationError>)
        ensures
            r == if self.refs@.len() == count {
                Ok::<(), InvocationError>(())
            } else {
                Err(arity_error(count, self.refs@.len()))
            },
    {
        if self.refs.len() == count {
            Ok(())
        } else {
            Err(InvocationError::WrongNumberOfArguments { expected: count, actual: self.refs.len() })
        }
    }
}

/// The statement that the failure branch of an invocation jumps to.
pub fn get_non_fallthrough_statement_id(builder: &CompiledInvocationBuilder) -> (r: usize)
    requires
        has_failure_branch(*builder),
    ensures
        r == failure_statement(*builder),
{
    match builder.branches[1] {
        BranchTarget::Statement(target) => target,
        BranchTarget::Fallthrough => 0,
    }
}

/// The cell of argument `i`, which must be one `[cell]`.
fn single_deref_at(refs: &Vec<ReferenceExpression>, i: usize) -> (r: Result<CellRef, InvocationError>)
    requires
        i < refs@.len(),
    ensures
        r == match single_deref(refs@[i as int]) {
            Some(c) => Ok::<CellRef, InvocationError>(c),
            None => Err(InvocationError::InvalidReferenceExpressionForArgument),
        },
{
    match refs[i].try_unpack_single() {
        Ok(e) => match e.to_deref() {
            Some(c) => Ok(c),
            None => Err(InvocationError::InvalidReferenceExpressionForArgument),
        },
        Err(e) => Err(e),
    }
}

/// The cells of argument `i`, which must be two `[cell]`s.
fn pair_deref_at(refs: &Vec<ReferenceExpression>, i: usize) -> (r: Result<(CellRef, CellRef), InvocationError>)
    requires
        i < refs@.len(),
    ensures
        r == match pair_deref(refs@[i as int]) {
            Some(p) => Ok::<(CellRef, CellRef), InvocationError>(p),
            None => Err(InvocationError::InvalidReferenceExpressionForArgument),
        },
{
    match refs[i].try_unpack_pair() {
        Ok((a, b)) => match (a.to_deref(), b.to_deref()) {
            (Some(x), Some(y)) => Ok((x, y)),
            _ => Err(InvocationError::InvalidReferenceExpressionForArgument),
        },
        Err(e) => Err(e),
    }
}

/// What compiling `StopSpoof` gives: its one argument must be one `[cell]`;
/// the code runs the hint on `ap += 0` and falls through with no output.
pub open spec fn stop_spoof_result(b: CompiledInvocationBuilder) -> Result<SpecInvocation, InvocationError> {
    if b.refs@.len() != 1 {
        Err(arity_error(1, b.refs@.len()))
    } else {
        match single_deref(b.refs@[0]) {
            Some(c) => Ok(fallthrough_code(CheatcodeHint::StopSpoof { contract_address: c })),
            None => Err(InvocationError::InvalidReferenceExpressionForArgument),
        }
    }
}

/// Compiles `StopSpoof`: the hint that ends the spoofing of a contract.
pub fn build_stop_spoof(builder: CompiledInvocationBuilder) -> (r: Result<CheatcodeInvocation, InvocationError>)
    ensures
        result_view(r) == stop_spoof_result(builder),
{
    match builder.try_get_refs(1) {
        Ok(()) => {},
        Err(e) => return Err(e),
    }
    let contract_address = match single_deref_at(&builder.refs, 0) {
        Ok(c) => c,
        Err(e) => return Err(e),
    };
    Ok(fallthrough_invocation(CheatcodeHint::StopSpoof { contract_address }))
}

/// The code of `Invoke`: the hint writes the error code to `[ap + 0]`, and
/// `jmp rel <failure> if [ap + 0] != 0, ap++` follows; the fallthrough has no
/// output, the failure outputs the error code, now `[ap - 1]`; `ap` grows by one.
pub open spec fn invoke_code(
    contract_address: CellRef,
    function_name: CellRef,
    calldata: CellRef,
    target: usize,
) -> SpecInvocation {
    SpecInvocation {
        code: seq![
            CasmLine {
                hint: Some(CheatcodeHint::Invoke { contract_address, function_name, calldata, err_code: ap_at(0) }),
                instruction: CasmInstruction::JumpIfNonZero { condition: ap_at(0), branch: 1, inc_ap: true },
            },
        ],
        branches: seq![
            SpecBranch { target: BranchTarget::Fallthrough, outputs: seq![], ap_change: 1, steps: 1 },
            SpecBranch { target: BranchTarget::Statement(target), outputs: seq![seq![ap_at(-1i16)]], ap_change: 1, steps: 1 },
        ],
    }
}

/// What compiling `Invoke` gives: its three arguments must each be one
/// `[cell]`; a failure jumps to the invocation's second branch.
pub open spec fn invoke_result(b: CompiledInvocationBuilder) -> Result<SpecInvocation, InvocationError> {
    if b.refs@.len() != 3 {
        Err(arity_error(3, b.refs@.len()))
    } else {
        match (single_deref(b.refs@[0]), single_deref(b.refs@[1]), single_deref(b.refs@[2])) {
            (Some(contract_address), Some(function_name), Some(calldata)) => Ok(
                invoke_code(contract_address, function_name, calldata, failure_statement(b)),
            ),
            _ => Err(InvocationError::InvalidReferenceExpressionForArgument),
        }
    }
}

/// Compiles `Invoke`: the hint that invokes a contract's function.
pub fn build_invoke(builder: CompiledInvocationBuilder) -> (r: Result<CheatcodeInvocation, InvocationError>)
    requires
        has_failure_branch(builder),
    ensures
        result_view(r) == invoke_result(builder),
{
    let failure_handle_statement_id = get_non_fallthrough_statement_id(&builder);
    match builder.try_get_refs(3) {
        Ok(()) => {},
        Err(e) => return Err(e),
    }
    let contract_address = match single_deref_at(&builder.refs, 0) {
        Ok(c) => c,
        Err(e) => return Err(e),
    };
    let function_name = match single_deref_at(&builder.refs, 1) {
        Ok(c) => c,
        Err(e) => return Err(e),
    };
    let calldata = match single_deref_at(&builder.refs, 2) {
        Ok(c) => c,
        Err(e) => return Err(e),
    };
    let err_code = ap_cell(0);
    let code = vec![
        CasmLine {
            hint: Some(CheatcodeHint::Invoke { contract_address, function_name, calldata, err_code }),
            instruction: CasmInstruction::JumpIfNonZero { condition: ap_cell(0), branch: 1, inc_ap: true },
        },
    ];
    let failure_cells = vec![ap_cell(-1)];
    assert(failure_cells@ =~= seq![ap_at(-1i16)]);
    let mut branches: Vec<BranchCode> = Vec::new();
    branches.push(branch_without_output(BranchTarget::Fallthrough, 1, 1));
    branches.push(branch_with_output(BranchTarget::Statement(failure_handle_statement_id), failure_cells, 1, 1));
    let r = CheatcodeInvocation { code, branches };
    proof {
        let expected = invoke_code(contract_address, function_name, calldata, failure_handle_statement_id);
        assert(r@.code =~= expected.code);
        assert(r@.branches[1].outputs =~= expected.branches[1].outputs);
        assert(r@.branches =~= expected.branches);
    }
    Ok(r)
}

/// The code of `Call`: the hint writes the error code and the span of the
/// returned data to `[ap + 0]`, `[ap + 1]`, `[ap + 2]` and runs before
/// `ap += 3`; then `jmp rel <failure> if [ap - 3] != 0`. The fallthrough
/// outputs the returned data `[ap - 2]`, `[ap - 1]`; the failure outputs the
/// error code `[ap - 3]`; `ap` grows by three on both.
pub open spec fn call_code(
    contract_address: CellRef,
    function_selector: CellRef,
    calldata_start: CellRef,
    calldata_end: CellRef,
    target: usize,
) -> SpecInvocation {
    SpecInvocation {
        code: seq![
            CasmLine {
                hint: Some(
                    CheatcodeHint::Call {
                        contract_address,
                        function_selector,
                        calldata_start,
                        calldata_end,
                        err_code: ap_at(0),
                        return_data_start: ap_at(1),
                        return_data_end: ap_at(2),
                    },
                ),
                instruction: CasmInstruction::AddAp(3),
            },
            CasmLine {
                hint: None,
                instruction: CasmInstruction::JumpIfNonZero { condition: ap_at(-3i16), branch: 1, inc_ap: false },
            },
        ],
        branches: seq![
            SpecBranch { target: BranchTarget::Fallthrough, outputs: seq![seq![ap_at(-2i16), ap_at(-1i16)]], ap_change: 3, steps: 2 },
            SpecBranch { target: BranchTarget::Statement(target), outputs: seq![seq![ap_at(-3i16)]], ap_change: 3, steps: 2 },
        ],
    }
}

/// What compiling `Call` gives: the address and the selector are generic
/// arguments of one cell each, the calldata is a span of two cells, and
/// all four cells must be `[cell]`s; a failure jumps to the second branch.
pub open spec fn call_result(b: CompiledInvocationBuilder) -> Result<SpecInvocation, InvocationError> {
    let refs = b.refs@;
    if refs.len() != 3 {
        Err(arity_error(3, refs.len()))
    } else if refs[0].cells@.len() != 1 || refs[1].cells@.len() != 1 {
        Err(InvocationError::InvalidGenericArg)
    } else {
        match (single_deref(refs[0]), single_deref(refs[1]), pair_deref(refs[2])) {
            (Some(contract_address), Some(function_selector), Some(calldata)) => Ok(
                call_code(contract_address, function_selector, calldata.0, calldata.1, failure_statement(b)),
            ),
            _ => Err(InvocationError::InvalidReferenceExpressionForArgument),
        }
    }
}

/// The only cell of a generic argument.
fn generic_cell(r: &ReferenceExpression) -> (c: Result<&CellExpression, InvocationError>)
    ensures
        r.cells@.len() == 1 ==> c == Ok::<&CellExpression, InvocationError>(&r.cells@[0]),
        r.cells@.len() != 1 ==> c == Err::<&CellExpression, InvocationError>(InvocationError::InvalidGenericArg),
{
    if r.cells.len() == 1 {
        Ok(&r.cells[0])
    } else {
        Err(InvocationError::InvalidGenericArg)
    }
}

/// A cell expression that must be `[cell]`.
fn deref_cell(e: &CellExpression) -> (r: Result<CellRef, InvocationError>)
    ensures
        r == match deref_of(*e) {
            Some(c) => Ok::<CellRef, InvocationError>(c),
            None => Err(InvocationError::InvalidReferenceExpressionForArgument),
        },
{
    match e.to_deref() {
        Some(c) => Ok(c),
        None => Err(InvocationError::InvalidReferenceExpressionForArgument),
    }
}

/// Compiles `Call`: the hint that calls a contract's function.
pub fn build_call(builder: CompiledInvocationBuilder) -> (r: Result<CheatcodeInvocation, InvocationError>)
    requires
        has_failure_branch(builder),
    ensures
        result_view(r) == call_result(builder),
{
    let failure_handle_statement_id = get_non_fallthrough_statement_id(&builder);
    match builder.try_get_refs(3) {
        Ok(()) => {},
        Err(e) => return Err(e),
    }
    let contract_address = match generic_cell(&builder.refs[0]) {
        Ok(e) => e,
        Err(e) => return Err(e),
    };
    let function_selector = match generic_cell(&builder.refs[1]) {
        Ok(e) => e,
        Err(e) => return Err(e),
    };
    let (calldata_start, calldata_end) = match builder.refs[2].try_unpack_pair() {
        Ok(p) => p,
        Err(e) => return Err(e),
    };
    let contract_address = match deref_cell(contract_address) {
        Ok(c) => c,
        Err(e) => return Err(e),
    };
    let function_selector = match deref_cell(function_selector) {
        Ok(c) => c,
        Err(e) => return Err(e),
    };
    let calldata_start = match deref_cell(calldata_start) {
        Ok(c) => c,
        Err(e) => return Err(e),
    };
    let calldata_end = match deref_cell(calldata_end) {
        Ok(c) => c,
        Err(e) => return Err(e),
    };
    let hint = CheatcodeHint::Call {
        contract_address,
        function_selector,
        calldata_start,
        calldata_end,
        err_code: ap_cell(0),
        return_data_start: ap_cell(1),
        return_data_end: ap_cell(2),
    };
    let code = vec![
        CasmLine { hint: Some(hint), instruction: CasmInstruction::AddAp(3) },
        CasmLine {
            hint: None,
            instruction: CasmInstruction::JumpIfNonZero { condition: ap_cell(-3), branch: 1, inc_ap: false },
        },
    ];
    let mut branches: Vec<BranchCode> = Vec::new();
    let data_cells = vec![ap_cell(-2), ap_cell(-1)];
    assert(data_cells@ =~= seq![ap_at(-2i16), ap_at(-1i16)]);
    let failure_cells = vec![ap_cell(-3)];
    assert(failure_cells@ =~= seq![ap_at(-3i16)]);
    branches.push(branch_with_output(BranchTarget::Fallthrough, data_cells, 3, 2));
    branches.push(branch_with_output(BranchTarget::Statement(failure_handle_statement_id), failure_cells, 3, 2));
    let r = CheatcodeInvocation { code, branches };
    proof {
        let expected = call_code(
            contract_address,
            function_selector,
            calldata_start,
            calldata_end,
            failure_handle_statement_id,
        );
        assert(r@.code =~= expected.code);
        assert(r@.branches[0].outputs =~= expected.branches[0].outputs);
        assert(r@.branches[1].outputs =~= expected.branches[1].outputs);
        assert(r@.branches =~= expected.branches);
    }
    Ok(r)
}

/// The code of `Print`: the hint writes the span of the panic data to
/// `[ap + 0]`, `[ap + 1]` and runs before `[ap + 1] = [ap + 2] + [ap + 0], ap++`,
/// which puts the span's length at `[ap + 2]`; then `ap += 3` and
/// `jmp rel <failure> if [ap - 2] != 0`. The fallthrough has no output; the
/// failure outputs the panic data `[ap - 4]`, `[ap - 3]`; `ap` grows by four.
pub open spec fn print_code(
    data_start: CellRef,
    data_end: CellRef,
    format: CellRef,
    target: usize,
) -> SpecInvocation {
    SpecInvocation {
        code: seq![
            CasmLine {
                hint: Some(
                    CheatcodeHint::Print {
                        data_start,
                        data_end,
                        format,
                        panic_data_start: ap_at(0),
                        panic_data_end: ap_at(1),
                    },
                ),
                instruction: CasmInstruction::AssertSum { dst: ap_at(1), a: ap_at(2), b: ap_at(0), inc_ap: true },
            },
            CasmLine { hint: None, instruction: CasmInstruction::AddAp(3) },
            CasmLine {
                hint: None,
                instruction: CasmInstruction::JumpIfNonZero { condition: ap_at(-2i16), branch: 1, inc_ap: false },
            },
        ],
        branches: seq![
            SpecBranch { target: BranchTarget::Fallthrough, outputs: seq![], ap_change: 4, steps: 3 },
            SpecBranch { target: BranchTarget::Statement(target), outputs: seq![seq![ap_at(-4i16), ap_at(-3i16)]], ap_change: 4, steps: 3 },
        ],
    }
}

/// What compiling `Print` gives: the data is a span of two cells, the format
/// a generic argument of one cell, and all three cells must be `[cell]`s; a
/// failure jumps to the second branch.
pub open spec fn print_result(b: CompiledInvocationBuilder) -> Result<SpecInvocation, InvocationError> {
    let refs = b.refs@;
    if refs.len() != 2 {
        Err(arity_error(2, refs.len()))
    } else if refs[0].cells@.len() != 2 {
        Err(InvocationError::InvalidReferenceExpressionForArgument)
    } else if refs[1].cells@.len() != 1 {
        Err(InvocationError::InvalidGenericArg)
    } else {
        match (pair_deref(refs[0]), single_deref(refs[1])) {
            (Some(data), Some(format)) => Ok(print_code(data.0, data.1, format, failure_statement(b))),
            _ => Err(InvocationError::InvalidReferenceExpressionForArgument),
        }
    }
}

/// Compiles `Print`: the hint that prints a span of felts.
pub fn build_print(builder: CompiledInvocationBuilder) -> (r: Result<CheatcodeInvocation, InvocationError>)
    requires
        has_failure_branch(builder),
    ensures
        result_view(r) == print_result(builder),
{
    let failure_handle_statement_id = get_non_fallthrough_statement_id(&builder);
    match builder.try_get_refs(2) {
        Ok(()) => {},
        Err(e) => return Err(e),
    }
    let (data_start, data_end) = match builder.refs[0].try_unpack_pair() {
        Ok(p) => p,
        Err(e) => return Err(e),
    };
    let format = match generic_cell(&builder.refs[1]) {
        Ok(e) => e,
        Err(e) => return Err(e),
    };
    let data_start = match deref_cell(data_start) {
        Ok(c) => c,
        Err(e) => return Err(e),
    };
    let data_end = match deref_cell(data_end) {
        Ok(c) => c,
        Err(e) => return Err(e),
    };
    let format = match deref_cell(format) {
        Ok(c) => c,
        Err(e) => return Err(e),
    };
    let hint = CheatcodeHint::Print {
        data_start,
        data_end,
        format,
        panic_data_start: ap_cell(0),
        panic_data_end: ap_cell(1),
    };
    let code = vec![
        CasmLine {
            hint: Some(hint),
            instruction: CasmInstruction::AssertSum { dst: ap_cell(1), a: ap_cell(2), b: ap_cell(0), inc_ap: true },
        },
        CasmLine { hint: None, instruction: CasmInstruction::AddAp(3) },
        CasmLine {
            hint: None,
            instruction: CasmInstruction::JumpIfNonZero { condition: ap_cell(-2), branch: 1, inc_ap: false },
        },
    ];
    let mut branches: Vec<BranchCode> = Vec::new();
    branches.push(branch_without_output(BranchTarget::Fallthrough, 4, 3));
    let failure_cells = vec![ap_cell(-4), ap_cell(-3)];
    assert(failure_cells@ =~= seq![ap_at(-4i16), ap_at(-3i16)]);
    branches.push(branch_with_output(BranchTarget::Statement(failure_handle_statement_id), failure_cells, 4, 3));
    let r = CheatcodeInvocation { code, branches };
    proof {
        let expected = print_code(data_start, data_end, format, failure_handle_statement_id);
        assert(r@.code =~= expected.code);
        assert(r@.branches[1].outputs =~= expected.branches[1].outputs);
        assert(r@.branches =~= expected.branches);
    }
    Ok(r)
}

/// The arguments of `StartSpoof` other than the signature (the eighth) are
/// each one `[cell]`.
pub open spec fn spoof_singles_are_cells(refs: Seq<ReferenceExpression>) -> bool {
    forall|i: int| 0 <= i < 15 && i != 7 ==> #[trigger] single_deref(refs[i]) is Some
}

/// What compiling `StartSpoof` gives: it takes fifteen arguments, the
/// signature a span of two cells and each other one cell, all `[cell]`s;
/// it runs the hint on `ap += 0` and falls through with no output.
pub open spec fn start_spoof_result(b: CompiledInvocationBuilder) -> Result<SpecInvocation, InvocationError> {
    let refs = b.refs@;
    if refs.len() != 15 {
        Err(arity_error(15, refs.len()))
    } else if spoof_singles_are_cells(refs) && pair_deref(refs[7]) is Some {
        let cell = |i: int| single_deref(refs[i])->0;
        let signature = pair_deref(refs[7])->0;
        Ok(
            fallthrough_code(
                CheatcodeHint::StartSpoof(StartSpoofOperands {
                contract_address: cell(0),
                version: cell(1),
                set_version: cell(2),
                account_contract_address: cell(3),
                set_account_contract_address: cell(4),
                max_fee: cell(5),
                set_max_fee: cell(6),
                signature_data_start: signature.0,
                signature_data_end: signature.1,
                set_signature: cell(8),
                transaction_hash: cell(9),
                set_transaction_hash: cell(10),
                chain_id: cell(11),
                set_chain_id: cell(12),
                nonce: cell(13),
                set_nonce: cell(14),
                }),
            ),
        )
    } else {
        Err(InvocationError::InvalidReferenceExpressionForArgument)
    }
}

/// Compiles `StartSpoof`: the hint that makes a contract see the given
/// transaction fields, each with a flag that says whether to replace it.
pub fn build_start_spoof(builder: CompiledInvocationBuilder) -> (r: Result<CheatcodeInvocation, InvocationError>)
    ensures
        result_view(r) == start_spoof_result(builder),
{
    match builder.try_get_refs(15) {
        Ok(()) => {},
        Err(e) => return Err(e),
    }
    let contract_address = match single_deref_at(&builder.refs, 0) {
        Ok(c) => c,
        Err(e) => return Err(e),
    };
    let version = match single_deref_at(&builder.refs, 1) {
        Ok(c) => c,
        Err(e) => return Err(e),
    };
    let set_version = match single_deref_at(&builder.refs, 2) {
        Ok(c) => c,
        Err(e) => return Err(e),
    };
    let account_contract_address = match single_deref_at(&builder.refs, 3) {
        Ok(c) => c,
        Err(e) => return Err(e),
    };
    let set_account_contract_address = match single_deref_at(&builder.refs, 4) {
        Ok(c) => c,
        Err(e) => return Err(e),
    };
    let max_fee = match single_deref_at(&builder.refs, 5) {
        Ok(c) => c,
        Err(e) => return Err(e),
    };
    let set_max_fee = match single_deref_at(&builder.refs, 6) {
        Ok(c) => c,
        Err(e) => return Err(e),
    };
    let (signature_data_start, signature_data_end) = match pair_deref_at(&builder.refs, 7) {
        Ok(p) => p,
        Err(e) => return Err(e),
    };
    let set_signature = match single_deref_at(&builder.refs, 8) {
        Ok(c) => c,
        Err(e) => return Err(e),
    };
    let transaction_hash = match single_deref_at(&builder.refs, 9) {
        Ok(c) => c,
        Err(e) => return Err(e),
    };
    let set_transaction_hash = match single_deref_at(&builder.refs, 10) {
        Ok(c) => c,
        Err(e) => return Err(e),
    };
    let chain_id = match single_deref_at(&builder.refs, 11) {
        Ok(c) => c,
        Err(e) => return Err(e),
    };
    let set_chain_id = match single_deref_at(&builder.refs, 12) {
        Ok(c) => c,
        Err(e) => return Err(e),
    };
    let nonce = match single_deref_at(&builder.refs, 13) {
        Ok(c) => c,
        Err(e) => return Err(e),
    };
    let set_nonce = match single_deref_at(&builder.refs, 14) {
        Ok(c) => c,
        Err(e) => return Err(e),
    };
    assert(spoof_singles_are_cells(builder.refs@)) by {
        assert forall|i: int| 0 <= i < 15 && i != 7 implies #[trigger] single_deref(builder.refs@[i]) is Some by {
            if i == 0 {} else if i == 1 {} else if i == 2 {} else if i == 3 {} else if i == 4 {}
            else if i == 5 {} else if i == 6 {} else if i == 8 {} else if i == 9 {} else if i == 10 {}
            else if i == 11 {} else if i == 12 {} else if i == 13 {} else {}
        }
    }
    let operands = StartSpoofOperands {
        contract_address,
        version,
        set_version,
        account_contract_address,
        set_account_contract_address,
        max_fee,
        set_max_fee,
        signature_data_start,
        signature_data_end,
        set_signature,
        transaction_hash,
        set_transaction_hash,
        chain_id,
        set_chain_id,
        nonce,
        set_nonce,
    };
    Ok(fallthrough_invocation(CheatcodeHint::StartSpoof(operands)))
}


/// The cell `c`, named relative to `ap` before `ap` grew by `n`, named
/// relative to `ap` after it.
pub open spec fn after_ap_growth(c: CellRef, n: int) -> CellRef {
    if c.register == Register::AP {
        CellRef { register: Register::AP, offset: (c.offset - n) as i16 }
    } else {
        c
    }
}

/// `c` is a new cell: at `ap` or above it, where the code has written nothing yet.
pub open spec fn fresh_cell(c: CellRef) -> bool {
    c.register == Register::AP && c.offset >= 0
}

/// A compiled `Call` reads the contract address, the selector and the
/// calldata span from exactly the cells of its three arguments, whatever
/// their register. It writes the error code and the returned span to three
/// new cells, grows `ap` by those three cells, and jumps to the failure
/// statement when the error code is not zero. The failure branch outputs the
/// error code and the fallthrough branch the returned span, each seen from
/// `ap` after the code.
pub proof fn law_call_reads_its_arguments(b: CompiledInvocationBuilder)
    ensures
        match call_result(b) {
            Ok(inv) => inv.code.len() > 0 && match inv.code[0].hint {
                Some(CheatcodeHint::Call {
                contract_address,
                function_selector,
                calldata_start,
                calldata_end,
                err_code,
                return_data_start,
                return_data_end,
            }) => b.refs@.len() == 3 && b.refs@[0].cells@ == seq![CellExpression::Deref(contract_address)]
            && b.refs@[1].cells@ == seq![CellExpression::Deref(function_selector)] && b.refs@[2].cells@ == seq![
            CellExpression::Deref(calldata_start),
            CellExpression::Deref(calldata_end),
        ] && fresh_cell(err_code) && fresh_cell(return_data_start) && fresh_cell(return_data_end) && err_code
            != return_data_start && err_code != return_data_end && return_data_start != return_data_end
            && inv.branches.len() == 2 && inv.branches[0].target == BranchTarget::Fallthrough
            && inv.branches[1].target == BranchTarget::Statement(failure_statement(b))
            && inv.branches[0].ap_change == 3 && inv.branches[1].ap_change == 3 && inv.branches[0].outputs
            == seq![seq![after_ap_growth(return_data_start, 3), after_ap_growth(return_data_end, 3)]]
            && inv.branches[1].outputs == seq![seq![after_ap_growth(err_code, 3)]]
            && inv.code.last().instruction == (CasmInstruction::JumpIfNonZero {
            condition: after_ap_growth(err_code, 3),
            branch: 1,
            inc_ap: false,
        }),
                _ => false,
            },
            Err(_) => true,
        },
{
    if let Ok(inv) = call_result(b) {
        let refs = b.refs@;
        assert(refs[0].cells@ =~= seq![refs[0].cells@[0]]);
        assert(refs[1].cells@ =~= seq![refs[1].cells@[0]]);
        assert(refs[2].cells@ =~= seq![refs[2].cells@[0], refs[2].cells@[1]]);
    }
}

/// A compiled `Invoke` reads the contract address, the function name and the
/// calldata from exactly the cells of its three arguments. It writes the
/// error code to a new cell, jumps to the failure statement when it is not
/// zero, and grows `ap` by that cell; only the failure branch has an output:
/// the error code, seen from `ap` after the code.
pub proof fn law_invoke_reads_its_arguments(b: CompiledInvocationBuilder)
    ensures
        match invoke_result(b) {
            Ok(inv) => inv.code.len() > 0 && match inv.code[0].hint {
                Some(CheatcodeHint::Invoke { contract_address, function_name, calldata, err_code }) => b.refs@.len() == 3 && b.refs@[0].cells@ == seq![CellExpression::Deref(contract_address)]
            && b.refs@[1].cells@ == seq![CellExpression::Deref(function_name)] && b.refs@[2].cells@ == seq![
            CellExpression::Deref(calldata),
        ] && fresh_cell(err_code) && inv.branches.len() == 2 && inv.branches[0].target == BranchTarget::Fallthrough
            && inv.branches[1].target == BranchTarget::Statement(failure_statement(b))
            && inv.branches[0].ap_change == 1 && inv.branches[1].ap_change == 1 && inv.branches[0].outputs
            == Seq::<Seq<CellRef>>::empty() && inv.branches[1].outputs == seq![seq![after_ap_growth(err_code, 1)]]
            && inv.code.last().instruction == (CasmInstruction::JumpIfNonZero {
            condition: err_code,
            branch: 1,
            inc_ap: true,
        }),
                _ => false,
            },
            Err(_) => true,
        },
{
    if let Ok(inv) = invoke_result(b) {
        let refs = b.refs@;
        assert(refs[0].cells@ =~= seq![refs[0].cells@[0]]);
        assert(refs[1].cells@ =~= seq![refs[1].cells@[0]]);
        assert(refs[2].cells@ =~= seq![refs[2].cells@[0]]);
    }
}

/// A compiled `Print` reads the data span and the format from exactly the
/// cells of its two arguments. It writes the panic data span to two new
/// cells, computes the span's length into a third new cell (end = length +
/// start), and jumps to the failure statement when that length is not zero;
/// only the failure branch has an output: the panic data span, seen from
/// `ap` after the code.
pub proof fn law_print_reads_its_arguments(b: CompiledInvocationBuilder)
    ensures
        match print_result(b) {
            Ok(inv) => inv.code.len() > 0 && match inv.code[0].hint {
                Some(CheatcodeHint::Print { data_start, data_end, format, panic_data_start, panic_data_end }) => b.refs@.len() == 2 && b.refs@[0].cells@ == seq![
            CellExpression::Deref(data_start),
            CellExpression::Deref(data_end),
        ] && b.refs@[1].cells@ == seq![CellExpression::Deref(format)] && fresh_cell(panic_data_start)
            && fresh_cell(panic_data_end) && panic_data_start != panic_data_end && match inv.code[0].instruction {
                    CasmInstruction::AssertSum { dst, a: length, b: start, .. } => dst == panic_data_end && start == panic_data_start && fresh_cell(length) && length != panic_data_start
            && length != panic_data_end && inv.branches.len() == 2 && inv.branches[0].target == BranchTarget::Fallthrough
            && inv.branches[1].target == BranchTarget::Statement(failure_statement(b))
            && inv.branches[0].ap_change == 4 && inv.branches[1].ap_change == 4
            && inv.branches[0].outputs == Seq::<Seq<CellRef>>::empty() && inv.branches[1].outputs == seq![
            seq![after_ap_growth(panic_data_start, 4), after_ap_growth(panic_data_end, 4)],
        ] && inv.code.last().instruction == (CasmInstruction::JumpIfNonZero {
            condition: after_ap_growth(length, 4),
            branch: 1,
            inc_ap: false,
        }),
                    _ => false,
                },
                _ => false,
            },
            Err(_) => true,
        },
{
    if let Ok(inv) = print_result(b) {
        let refs = b.refs@;
        assert(refs[0].cells@ =~= seq![refs[0].cells@[0], refs[0].cells@[1]]);
        assert(refs[1].cells@ =~= seq![refs[1].cells@[0]]);
    }
}

/// A compiled `StopSpoof` reads the contract address from exactly the cell of
/// its argument, and falls through with no output, leaving `ap` unchanged.
pub proof fn law_stop_spoof_reads_its_argument(b: CompiledInvocationBuilder)
    ensures
        match stop_spoof_result(b) {
            Ok(inv) => inv.code.len() == 1 && match inv.code[0].hint {
                Some(CheatcodeHint::StopSpoof { contract_address }) => b.refs@.len() == 1 && b.refs@[0].cells@ == seq![CellExpression::Deref(contract_address)]
            && inv.code[0].instruction == CasmInstruction::AddAp(0) && inv.branches.len() == 1
            && inv.branches[0].target == BranchTarget::Fallthrough && inv.branches[0].ap_change == 0
            && inv.branches[0].outputs == Seq::<Seq<CellRef>>::empty(),
                _ => false,
            },
            Err(_) => true,
        },
{
    if let Ok(inv) = stop_spoof_result(b) {
        let refs = b.refs@;
        assert(refs[0].cells@ =~= seq![refs[0].cells@[0]]);
    }
}

/// A compiled `StartSpoof` reads each of its fifteen operands from exactly
/// the cells of the argument in its place, the signature span from the two
/// cells of the eighth, and falls through with no output, leaving `ap`
/// unchanged.
pub proof fn law_start_spoof_reads_its_arguments(b: CompiledInvocationBuilder)
    ensures
        match start_spoof_result(b) {
            Ok(inv) => inv.code.len() == 1 && match inv.code[0].hint {
                Some(CheatcodeHint::StartSpoof(o)) => b.refs@.len() == 15 && b.refs@[0].cells@ == seq![CellExpression::Deref(o.contract_address)]
            && b.refs@[1].cells@ == seq![CellExpression::Deref(o.version)] && b.refs@[2].cells@ == seq![
            CellExpression::Deref(o.set_version),
        ] && b.refs@[3].cells@ == seq![CellExpression::Deref(o.account_contract_address)]
            && b.refs@[4].cells@ == seq![CellExpression::Deref(o.set_account_contract_address)]
            && b.refs@[5].cells@ == seq![CellExpression::Deref(o.max_fee)] && b.refs@[6].cells@ == seq![
            CellExpression::Deref(o.set_max_fee),
        ] && b.refs@[7].cells@ == seq![
            CellExpression::Deref(o.signature_data_start),
            CellExpression::Deref(o.signature_data_end),
        ] && b.refs@[8].cells@ == seq![CellExpression::Deref(o.set_signature)] && b.refs@[9].cells@ == seq![
            CellExpression::Deref(o.transaction_hash),
        ] && b.refs@[10].cells@ == seq![CellExpression::Deref(o.set_transaction_hash)] && b.refs@[11].cells@
            == seq![CellExpression::Deref(o.chain_id)] && b.refs@[12].cells@ == seq![
            CellExpression::Deref(o.set_chain_id),
        ] && b.refs@[13].cells@ == seq![CellExpression::Deref(o.nonce)] && b.refs@[14].cells@ == seq![
            CellExpression::Deref(o.set_nonce),
        ] && inv.code[0].instruction == CasmInstruction::AddAp(0) && inv.branches.len() == 1
            && inv.branches[0].target == BranchTarget::Fallthrough && inv.branches[0].ap_change == 0
            && inv.branches[0].outputs == Seq::<Seq<CellRef>>::empty(),
                _ => false,
            },
            Err(_) => true,
        },
{
    if let Ok(inv) = start_spoof_result(b) {
        let refs = b.refs@;
        assert forall|i: int| 0 <= i < 15 && i != 7 implies #[trigger] refs[i].cells@ =~= seq![refs[i].cells@[0]] by {
            assert(single_deref(refs[i]) is Some);
        }
        assert(refs[7].cells@ =~= seq![refs[7].cells@[0], refs[7].cells@[1]]);
    }
}

} // verus!
