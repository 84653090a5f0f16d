//! The pieces of building the CASM of the tests of a Sierra program: which
//! functions are tests, where each test's entry code starts, the code that
//! calls a test, and the bytecode with its hints.
use vstd::prelude::*;
use crate::cheatcodes::{CellRef, Register};
use crate::felt::{be_value, felt_prime};
use crate::text::{contains_pattern, has_prefix, has_suffix, same_text, text_contains, text_ends_with, text_starts_with};

verus! {

/// The errors of building the CASM of the tests.
pub enum GeneratorError {
    /// Failed calculating gas usage, it is likely a call for `get_gas` is missing.
    FailedGasCalculation,
    /// Function with suffix `suffix` to run not found.
    MissingFunction { suffix: String },
    /// Function expects arguments of size `expected` and received `actual` instead.
    ArgumentsSizeMismatch { expected: usize, actual: usize },
    /// The program registry refused the program; its message.
    ProgramRegistryError(String),
    /// The compilation of the Sierra program failed; its message.
    SierraCompilationError(String),
    /// The computation of the changes of `ap` failed; its message.
    ApChangeError(String),
    /// The virtual machine failed; its message.
    VirtualMachineError(String),
}

/// Where a test starts in the bytecode, and its name.
pub struct TestEntrypoint {
    pub offset: usize,
    pub name: String,
}

/// The names of the functions whose name contains `test_`, in order.
pub open spec fn test_names(names: Seq<Option<String>>) -> Seq<Seq<char>>
    decreases names.len(),
{
    if names.len() == 0 {
        seq![]
    } else {
        let rest = test_names(names.drop_last());
        match names.last() {
            Some(n) => if contains_pattern(n@, "test_"@) {
                rest.push(n@)
            } else {
                rest
            },
            None => rest,
        }
    }
}

/// The names of the tests among the functions of a program, given by their
/// debug names (`None` for a function without one): those whose name contains `test_`.
pub fn collect_tests(function_names: &Vec<Option<String>>) -> (r: Vec<String>)
    ensures
        r@.map_values(|n: String| n@) == test_names(function_names@),
{
    let mut r: Vec<String> = Vec::new();
    let mut i: usize = 0;
    while i < function_names.len()
        invariant
            i <= function_names.len(),
            r@.map_values(|n: String| n@) == test_names(function_names@.take(i as int)),
        decreases function_names.len() - i,
    {
        assert(function_names@.take(i + 1).drop_last() =~= function_names@.take(i as int));
        match &function_names[i] {
            Some(name) => {
                if text_contains(name.as_str(), "test_") {
                    let ghost before = r@;
                    r.push(name.clone());
                    assert(r@.map_values(|n: String| n@) =~= before.map_values(|n: String| n@).push(
                        name@,
                    ));
                }
            },
            None => {},
        }
        i = i + 1;
    }
    assert(function_names@.take(function_names.len() as int) =~= function_names@);
    r
}

/// The index of the first function whose name ends with `suffix`.
pub open spec fn first_with_suffix(names: Seq<Option<String>>, suffix: Seq<char>) -> Option<int>
    decreases names.len(),
{
    if names.len() == 0 {
        None
    } else {
        match first_with_suffix(names.drop_last(), suffix) {
            Some(i) => Some(i),
            None => match names.last() {
                Some(n) => if has_suffix(n@, suffix) {
                    Some(names.len() - 1)
                } else {
                    None
                },
                None => None,
            },
        }
    }
}

proof fn lemma_first_with_suffix_prefix(names: Seq<Option<String>>, suffix: Seq<char>, j: int)
    requires
        0 <= j <= names.len(),
        first_with_suffix(names.take(j), suffix) is Some,
    ensures
        first_with_suffix(names, suffix) == first_with_suffix(names.take(j), suffix),
    decreases names.len(),
{
    if j < names.len() {
        assert(names.drop_last().take(j) =~= names.take(j));
        lemma_first_with_suffix_prefix(names.drop_last(), suffix, j);
    } else {
        assert(names.take(j) =~= names);
    }
}

/// Finds the first function whose name ends with `name_suffix`.
pub fn find_function(function_names: &Vec<Option<String>>, name_suffix: &str) -> (r: Result<
    usize,
    GeneratorError,
>)
    ensures
        match r {
            Ok(i) => first_with_suffix(function_names@, name_suffix@) == Some(i as int),
            Err(e) => first_with_suffix(function_names@, name_suffix@) is None && (
            e matches GeneratorError::MissingFunction { suffix } && suffix@ == name_suffix@),
        },
{
    let mut i: usize = 0;
    while i < function_names.len()
        invariant
            i <= function_names.len(),
            first_with_suffix(function_names@.take(i as int), name_suffix@) is None,
        decreases function_names.len() - i,
    {
        assert(function_names@.take(i + 1).drop_last() =~= function_names@.take(i as int));
        match &function_names[i] {
            Some(name) => {
                if text_ends_with(name.as_str(), name_suffix) {
                    proof {
                        lemma_first_with_suffix_prefix(function_names@, name_suffix@, i + 1);
                    }
                    return Ok(i);
                }
            },
            None => {},
        }
        i = i + 1;
    }
    assert(function_names@.take(function_names.len() as int) =~= function_names@);
    Err(GeneratorError::MissingFunction { suffix: name_suffix.to_owned() })
}

/// The sum of the first `n` lengths.
pub open spec fn prefix_sum(lengths: Seq<usize>, n: int) -> int
    decreases n,
{
    if n <= 0 {
        0
    } else {
        prefix_sum(lengths, n - 1) + lengths[n - 1]
    }
}

/// The entry points of the tests, whose entry codes have the given lengths and
/// are laid out one after the other from offset 0: each test starts where the
/// codes before it end.
pub fn test_entry_points(tests: &Vec<String>, entry_code_lengths: &Vec<usize>) -> (r: Vec<TestEntrypoint>)
    requires
        tests@.len() == entry_code_lengths@.len(),
        prefix_sum(entry_code_lengths@, entry_code_lengths@.len() as int) <= usize::MAX,
    ensures
        r@.len() == tests@.len(),
        forall|i: int|
            0 <= i < r@.len() ==> (#[trigger] r@[i]).offset == prefix_sum(entry_code_lengths@, i)
                && r@[i].name@ == tests@[i]@,
{
    let mut r: Vec<TestEntrypoint> = Vec::new();
    let mut acc: usize = 0;
    let mut i: usize = 0;
    while i < tests.len()
        invariant
            i <= tests.len(),
            tests@.len() == entry_code_lengths@.len(),
            prefix_sum(entry_code_lengths@, entry_code_lengths@.len() as int) <= usize::MAX,
            acc == prefix_sum(entry_code_lengths@, i as int),
            r@.len() == i,
            forall|k: int|
                0 <= k < i ==> (#[trigger] r@[k]).offset == prefix_sum(entry_code_lengths@, k)
                    && r@[k].name@ == tests@[k]@,
        decreases tests.len() - i,
    {
        r.push(TestEntrypoint { offset: acc, name: tests[i].clone() });
        proof {
            lemma_prefix_sum_monotone(entry_code_lengths@, i + 1, entry_code_lengths@.len() as int);
        }
        acc = acc + entry_code_lengths[i];
        i = i + 1;
    }
    r
}

proof fn lemma_prefix_sum_monotone(lengths: Seq<usize>, i: int, j: int)
    requires
        0 <= i <= j <= lengths.len(),
    ensures
        prefix_sum(lengths, i) <= prefix_sum(lengths, j),
    decreases j - i,
{
    if i < j {
        lemma_prefix_sum_monotone(lengths, i, j - 1);
    }
}

/// The id of the concrete type named `name`.
pub uninterp spec fn concrete_type_id_of(name: Seq<char>) -> u64;

/// `ConcreteTypeId::from_string` of `cairo_lang_sierra`, its `id` taken: the
/// id of the concrete type named `name`.
#[verifier::external_body]
fn concrete_type_id(name: &str) -> (r: u64)
    ensures
        r == concrete_type_id_of(name@),
{
    cairo_lang_sierra::ids::ConcreteTypeId::from_string(name).id
}

/// A step of the code that calls a test.
#[derive(Clone, Copy)]
pub enum EntryStep {
    /// Allocates the segments of the dict manager and writes its fields.
    DictManagerSetup,
    /// Pushes the builtin at `[fp - offset]`.
    CopyBuiltin(i16),
    /// Allocates a segment for `System` and pushes it.
    SystemSegment,
    /// Pushes the initial gas.
    InitialGas(usize),
    /// Pushes the dict manager at `[ap + offset]`.
    CopyDictManager(i16),
    /// Pushes the argument of this index.
    PushArg(usize),
}

/// An instruction of the code that calls a test.
#[derive(Clone, Copy, PartialEq, Eq, Structural, Debug)]
pub enum EntryInstruction {
    /// Hints `memory[ap + k] = segments.add()` for each `k` below `count`, then `ap += count`.
    AllocSegments(usize),
    /// `[ap + 0] = value, ap++`.
    PushImmediate(usize),
    /// `[ap + 0] = [cell], ap++`.
    PushCell(CellRef),
    /// `[ap + 0] = <the argument of this index>, ap++`.
    PushArg(usize),
    /// `[ap + value] = [[ap + base] + field]`.
    StoreIndirect { value: i16, base: i16, field: i16 },
    /// `call rel offset`.
    CallRel(usize),
    /// `ret`.
    Ret,
}

/// The code that calls a test: its steps, the builtins it expects, the
/// offset of the call from the `call` instruction to the function, and the
/// instructions of the code.
pub struct EntryCode {
    pub steps: Vec<EntryStep>,
    pub builtins: Vec<String>,
    pub call_offset: usize,
    pub instructions: Vec<EntryInstruction>,
}

/// The instructions of a step: the dict manager's setup allocates its two
/// segments, pushes 0 and writes the segment and two zero counters into the
/// manager; every other step is one push.
pub open spec fn step_instructions(step: EntryStep) -> Seq<EntryInstruction> {
    match step {
        EntryStep::DictManagerSetup => seq![
            EntryInstruction::AllocSegments(2),
            EntryInstruction::PushImmediate(0),
            EntryInstruction::StoreIndirect { value: -2i16, base: -3i16, field: 0i16 },
            EntryInstruction::StoreIndirect { value: -1i16, base: -3i16, field: 1i16 },
            EntryInstruction::StoreIndirect { value: -1i16, base: -3i16, field: 2i16 },
        ],
        EntryStep::CopyBuiltin(offset) => seq![
            EntryInstruction::PushCell(CellRef { register: Register::FP, offset: (0 - offset) as i16 }),
        ],
        EntryStep::SystemSegment => seq![EntryInstruction::AllocSegments(1)],
        EntryStep::InitialGas(gas) => seq![EntryInstruction::PushImmediate(gas)],
        EntryStep::CopyDictManager(offset) => seq![
            EntryInstruction::PushCell(CellRef { register: Register::AP, offset }),
        ],
        EntryStep::PushArg(i) => seq![EntryInstruction::PushArg(i)],
    }
}

/// The instructions of the steps, one step after the other.
pub open spec fn steps_instructions(steps: Seq<EntryStep>) -> Seq<EntryInstruction>
    decreases steps.len(),
{
    if steps.len() == 0 {
        seq![]
    } else {
        steps_instructions(steps.drop_last()) + step_instructions(steps.last())
    }
}

/// The instructions of the code that calls a test: those of its steps, then
/// `call rel call_offset` and `ret`.
pub open spec fn entry_instructions(steps: Seq<EntryStep>, call_offset: usize) -> Seq<EntryInstruction> {
    steps_instructions(steps) + seq![EntryInstruction::CallRel(call_offset), EntryInstruction::Ret]
}

/// The number of instructions of the steps: five for the dict manager's
/// setup, one for each other step.
pub open spec fn steps_instruction_count(steps: Seq<EntryStep>) -> nat
    decreases steps.len(),
{
    if steps.len() == 0 {
        0
    } else {
        steps_instruction_count(steps.drop_last()) + if steps.last() is DictManagerSetup {
            5nat
        } else {
            1nat
        }
    }
}

proof fn lemma_steps_instruction_count(steps: Seq<EntryStep>)
    ensures
        steps_instructions(steps).len() == steps_instruction_count(steps),
    decreases steps.len(),
{
    if steps.len() > 0 {
        lemma_steps_instruction_count(steps.drop_last());
    }
}

/// The instructions of one step.
fn instructions_of_step(step: EntryStep, out: &mut Vec<EntryInstruction>)
    requires
        step matches EntryStep::CopyBuiltin(o) ==> 0 <= o <= 6,
    ensures
        final(out)@ == old(out)@ + step_instructions(step),
{
    let ghost start = out@;
    match step {
        EntryStep::DictManagerSetup => {
            out.push(EntryInstruction::AllocSegments(2));
            out.push(EntryInstruction::PushImmediate(0));
            out.push(EntryInstruction::StoreIndirect { value: -2, base: -3, field: 0 });
            out.push(EntryInstruction::StoreIndirect { value: -1, base: -3, field: 1 });
            out.push(EntryInstruction::StoreIndirect { value: -1, base: -3, field: 2 });
        },
        EntryStep::CopyBuiltin(offset) => out.push(
            EntryInstruction::PushCell(CellRef { register: Register::FP, offset: 0 - offset }),
        ),
        EntryStep::SystemSegment => out.push(EntryInstruction::AllocSegments(1)),
        EntryStep::InitialGas(gas) => out.push(EntryInstruction::PushImmediate(gas)),
        EntryStep::CopyDictManager(offset) => out.push(
            EntryInstruction::PushCell(CellRef { register: Register::AP, offset }),
        ),
        EntryStep::PushArg(i) => out.push(EntryInstruction::PushArg(i)),
    }
    assert(out@ =~= start + step_instructions(step));
}

/// The instructions of the steps, then `call rel call_offset` and `ret`.
fn entry_instructions_of(steps: &Vec<EntryStep>, call_offset: usize) -> (r: Vec<EntryInstruction>)
    requires
        forall|k: int| 0 <= k < steps@.len() ==> (#[trigger] steps@[k] matches EntryStep::CopyBuiltin(o) ==> 0 <= o <= 6),
    ensures
        r@ == entry_instructions(steps@, call_offset),
        r@.len() == steps_instruction_count(steps@) + 2,
{
    let mut r: Vec<EntryInstruction> = Vec::new();
    let mut i: usize = 0;
    assert(r@ =~= steps_instructions(steps@.take(0)));
    while i < steps.len()
        invariant
            i <= steps.len(),
            r@ == steps_instructions(steps@.take(i as int)),
            forall|k: int| 0 <= k < steps@.len() ==> (#[trigger] steps@[k] matches EntryStep::CopyBuiltin(o) ==> 0 <= o <= 6),
        decreases steps.len() - i,
    {
        assert(steps@.take(i + 1).drop_last() =~= steps@.take(i as int));
        assert(steps@[i as int] matches EntryStep::CopyBuiltin(o) ==> 0 <= o <= 6);
        instructions_of_step(steps[i], &mut r);
        i = i + 1;
    }
    assert(steps@.take(steps.len() as int) =~= steps@);
    let ghost body = r@;
    r.push(EntryInstruction::CallRel(call_offset));
    r.push(EntryInstruction::Ret);
    assert(r@ =~= entry_instructions(steps@, call_offset));
    proof {
        lemma_steps_instruction_count(steps@);
    }
    r
}

/// The offset `[fp - offset]` of the builtin of type `ty` in the entry code, if it is one.
pub open spec fn builtin_offset(ty: u64) -> Option<i16> {
    if ty == concrete_type_id_of("Pedersen"@) {
        Some(6)
    } else if ty == concrete_type_id_of("RangeCheck"@) {
        Some(5)
    } else if ty == concrete_type_id_of("Bitwise"@) {
        Some(4)
    } else if ty == concrete_type_id_of("EcOp"@) {
        Some(3)
    } else {
        None
    }
}

/// The pushes of the arguments `from`, `from + 1`, ... that exist among `n_args`, `count` at most.
pub open spec fn arg_pushes(from: int, count: int, n_args: int) -> Seq<EntryStep> {
    let end = if from + count < n_args {
        from + count
    } else {
        n_args
    };
    let m = if end > from {
        end - from
    } else {
        0
    };
    Seq::new(m as nat, |k: int| EntryStep::PushArg((from + k) as usize))
}

/// The offset from `ap` of the dict manager that is the parameter of index
/// `i`: `-(i as i16) - 3`, the index taken as an `i16`.
pub open spec fn dict_manager_offset(i: int) -> i16 {
    (-((i as i16) as int) - 3) as i16
}

/// The offset of the dict manager at index `i` can be computed without an
/// overflow: the index taken as an `i16` is above `i16::MIN` and at most 32765.
pub open spec fn dict_manager_offset_fits(i: int) -> bool {
    -32767 <= (i as i16) as int <= 32765
}

/// The size of the arguments that `n` parameters can expect fits in a `usize`.
pub open spec fn sizes_fit(n: int) -> bool {
    n * 32767 <= usize::MAX
}

/// The steps for the parameters of types `types`, of the sizes that the
/// program registry gives, with `n_args` arguments, and the size of the
/// arguments they expect; the error of the first size that could not be had.
pub open spec fn entry_steps(
    dict_manager: bool,
    types: Seq<u64>,
    sizes: Seq<Result<i16, String>>,
    n_args: int,
    initial_gas: usize,
) -> Result<(Seq<EntryStep>, int), Seq<char>>
    decreases types.len(),
{
    if types.len() == 0 {
        Ok((
            if dict_manager {
                seq![EntryStep::DictManagerSetup]
            } else {
                seq![]
            },
            0,
        ))
    } else {
        match entry_steps(dict_manager, types.drop_last(), sizes, n_args, initial_gas) {
            Err(e) => Err(e),
            Ok((steps, expected)) => {
                let i = types.len() - 1;
                let ty = types.last();
                if builtin_offset(ty) is Some {
                    Ok((steps.push(EntryStep::CopyBuiltin(builtin_offset(ty)->Some_0)), expected))
                } else if ty == concrete_type_id_of("System"@) {
                    Ok((steps.push(EntryStep::SystemSegment), expected))
                } else if ty == concrete_type_id_of("GasBuiltin"@) {
                    Ok((steps.push(EntryStep::InitialGas(initial_gas)), expected))
                } else if ty == concrete_type_id_of("DictManager"@) {
                    Ok((steps.push(EntryStep::CopyDictManager(dict_manager_offset(i))), expected))
                } else {
                    match sizes[i] {
                        Err(e) => Err(e@),
                        Ok(size) => Ok((steps + arg_pushes(expected, size as int, n_args), expected + size)),
                    }
                }
            },
        }
    }
}

proof fn lemma_entry_steps_err_prefix(
    dict_manager: bool,
    types: Seq<u64>,
    sizes: Seq<Result<i16, String>>,
    n_args: int,
    initial_gas: usize,
    j: int,
)
    requires
        0 <= j <= types.len(),
        entry_steps(dict_manager, types.take(j), sizes, n_args, initial_gas) is Err,
    ensures
        entry_steps(dict_manager, types, sizes, n_args, initial_gas) == entry_steps(
            dict_manager,
            types.take(j),
            sizes,
            n_args,
            initial_gas,
        ),
    decreases types.len(),
{
    if j < types.len() {
        assert(types.drop_last().take(j) =~= types.take(j));
        lemma_entry_steps_err_prefix(dict_manager, types.drop_last(), sizes, n_args, initial_gas, j);
    } else {
        assert(types.take(j) =~= types);
    }
}

/// Whether `types` holds `ty`.
fn holds_type(types: &Vec<u64>, ty: u64) -> (r: bool)
    ensures
        r == types@.contains(ty),
{
    let mut i: usize = 0;
    while i < types.len()
        invariant
            i <= types.len(),
            forall|k: int| 0 <= k < i ==> types@[k] != ty,
        decreases types.len() - i,
    {
        if types[i] == ty {
            return true;
        }
        i = i + 1;
    }
    false
}

/// The code that calls a test with parameters of types `param_types`, the
/// sizes that the program registry gives for them (or its error), the
/// arguments `n_args` and the initial gas, where the function starts at
/// `code_offset`: `ArgumentsSizeMismatch` where the arguments do not have the
/// size that the parameters expect.
pub fn create_entry_code(
    param_types: &Vec<u64>,
    param_sizes: &Vec<Result<i16, String>>,
    n_args: usize,
    initial_gas: usize,
    code_offset: usize,
) -> (r: Result<EntryCode, GeneratorError>)
    requires
        param_sizes@.len() == param_types@.len(),
        sizes_fit(param_types@.len() as int),
        forall|i: int|
            0 <= i < param_types@.len() && #[trigger] param_types@[i] == concrete_type_id_of("DictManager"@)
                ==> dict_manager_offset_fits(i),
        forall|i: int| 0 <= i < param_sizes@.len() ==> (#[trigger] param_sizes@[i] matches Ok(s) ==> s >= 0),
        code_offset <= usize::MAX - 3,
    ensures
        match entry_steps(
            param_types@.contains(concrete_type_id_of("DictManager"@)),
            param_types@,
            param_sizes@,
            n_args as int,
            initial_gas,
        ) {
            Err(e) => r matches Err(GeneratorError::ProgramRegistryError(m)) && m@ == e,
            Ok((steps, expected)) => if expected == n_args {
                r matches Ok(code) && code.steps@ == steps && code.call_offset == code_offset + 3
                    && code.builtins@.map_values(|b: String| b@) == seq![
                    "pedersen"@,
                    "range_check"@,
                    "bitwise"@,
                    "ec_op"@,
                ] && code.instructions@ == entry_instructions(steps, (code_offset + 3) as usize)
                    && code.instructions@.len() == steps_instruction_count(steps) + 2
            } else {
                r matches Err(GeneratorError::ArgumentsSizeMismatch { expected: e, actual })
                    && e == expected && actual == n_args
            },
        },
{
    // The builtins in the formatting expected by the runner.
    let builtins: Vec<String> = vec![
        "pedersen".to_owned(),
        "range_check".to_owned(),
        "bitwise".to_owned(),
        "ec_op".to_owned(),
    ];
    let pedersen = concrete_type_id("Pedersen");
    let range_check = concrete_type_id("RangeCheck");
    let bitwise = concrete_type_id("Bitwise");
    let ec_op = concrete_type_id("EcOp");
    let system = concrete_type_id("System");
    let gas_builtin = concrete_type_id("GasBuiltin");
    let dict_manager = concrete_type_id("DictManager");
    let has_dict_manager = holds_type(param_types, dict_manager);
    let ghost dm = param_types@.contains(concrete_type_id_of("DictManager"@));
    let mut steps: Vec<EntryStep> = Vec::new();
    if has_dict_manager {
        steps.push(EntryStep::DictManagerSetup);
    }
    let mut expected_arguments_size: usize = 0;
    let mut consumed: usize = 0;
    let mut i: usize = 0;
    assert(steps@ =~= entry_steps(dm, param_types@.take(0), param_sizes@, n_args as int, initial_gas)->Ok_0.0);
    while i < param_types.len()
        invariant
            i <= param_types.len(),
            param_sizes@.len() == param_types@.len(),
            sizes_fit(param_types@.len() as int),
            forall|k: int|
                0 <= k < param_types@.len() && #[trigger] param_types@[k] == concrete_type_id_of("DictManager"@)
                    ==> dict_manager_offset_fits(k),
            forall|k: int| 0 <= k < param_sizes@.len() ==> (#[trigger] param_sizes@[k] matches Ok(s) ==> s >= 0),
            dm == param_types@.contains(concrete_type_id_of("DictManager"@)),
            pedersen == concrete_type_id_of("Pedersen"@),
            range_check == concrete_type_id_of("RangeCheck"@),
            bitwise == concrete_type_id_of("Bitwise"@),
            ec_op == concrete_type_id_of("EcOp"@),
            system == concrete_type_id_of("System"@),
            gas_builtin == concrete_type_id_of("GasBuiltin"@),
            dict_manager == concrete_type_id_of("DictManager"@),
            expected_arguments_size <= i * 32767,
            consumed == (if expected_arguments_size < n_args { expected_arguments_size } else { n_args }),
            entry_steps(dm, param_types@.take(i as int), param_sizes@, n_args as int, initial_gas)
                == Ok::<(Seq<EntryStep>, int), Seq<char>>((steps@, expected_arguments_size as int)),
            forall|k: int| 0 <= k < steps@.len() ==> (#[trigger] steps@[k] matches EntryStep::CopyBuiltin(o) ==> 0 <= o <= 6),
        decreases param_types.len() - i,
    {
        assert(param_types@.take(i + 1).drop_last() =~= param_types@.take(i as int));
        assert(param_types@.take(i + 1).last() == param_types@[i as int]);
        let ty = param_types[i];
        if ty == pedersen {
            steps.push(EntryStep::CopyBuiltin(6));
        } else if ty == range_check {
            steps.push(EntryStep::CopyBuiltin(5));
        } else if ty == bitwise {
            steps.push(EntryStep::CopyBuiltin(4));
        } else if ty == ec_op {
            steps.push(EntryStep::CopyBuiltin(3));
        } else if ty == system {
            steps.push(EntryStep::SystemSegment);
        } else if ty == gas_builtin {
            steps.push(EntryStep::InitialGas(initial_gas));
        } else if ty == dict_manager {
            assert(dict_manager_offset_fits(i as int));
            let index = i as i16;
            let offset: i16 = -index - 3;
            steps.push(EntryStep::CopyDictManager(offset));
        } else {
            match &param_sizes[i] {
                Err(e) => {
                    proof {
                        lemma_entry_steps_err_prefix(dm, param_types@, param_sizes@, n_args as int, initial_gas, i + 1);
                    }
                    return Err(GeneratorError::ProgramRegistryError(e.clone()));
                },
                Ok(arg_size) => {
                    let arg_size = *arg_size;
                    let ghost before = steps@;
                    let ghost from = consumed as int;
                    let mut k: i16 = 0;
                    while k < arg_size
                        invariant
                            0 <= k <= arg_size,
                            from == (if expected_arguments_size < n_args { expected_arguments_size as int } else { n_args as int }),
                            consumed == (if from + k < n_args { from + k } else { n_args as int }),
                            steps@ == before + arg_pushes(from, k as int, n_args as int),
                            forall|j: int| 0 <= j < steps@.len() ==> (#[trigger] steps@[j] matches EntryStep::CopyBuiltin(o) ==> 0 <= o <= 6),
                        decreases arg_size - k,
                    {
                        if consumed < n_args {
                            steps.push(EntryStep::PushArg(consumed));
                            consumed = consumed + 1;
                        }
                        k = k + 1;
                        assert(steps@ =~= before + arg_pushes(from, k as int, n_args as int));
                    }
                    expected_arguments_size = expected_arguments_size + arg_size as usize;
                    assert(steps@ =~= before + arg_pushes(from, arg_size as int, n_args as int));
                },
            }
        }
        i = i + 1;
    }
    assert(param_types@.take(param_types.len() as int) =~= param_types@);
    if expected_arguments_size != n_args {
        return Err(
            GeneratorError::ArgumentsSizeMismatch { expected: expected_arguments_size, actual: n_args },
        );
    }
    let call_offset = code_offset + 3;
    let instructions = entry_instructions_of(&steps, call_offset);
    Ok(EntryCode { steps, builtins, call_offset, instructions })
}

/// Why the entry code of a test could not be built.
pub enum EntryFailure {
    /// No function ends with the test's name.
    MissingFunction,
    /// The program registry gave this error for a parameter's type.
    Registry(Seq<char>),
    /// The parameters expect arguments of this size, and none are given.
    Mismatch(int),
}

proof fn lemma_first_with_suffix_bound(names: Seq<Option<String>>, suffix: Seq<char>)
    ensures
        first_with_suffix(names, suffix) matches Some(i) ==> 0 <= i < names.len(),
    decreases names.len(),
{
    if names.len() > 0 {
        lemma_first_with_suffix_bound(names.drop_last(), suffix);
    }
}

/// The entry code of the test `test`, called with no arguments and no gas:
/// the steps for the parameters of the first function whose name ends with
/// `test`, with the index of that function.
pub open spec fn test_entry_result(
    names: Seq<Option<String>>,
    param_types: Seq<Vec<u64>>,
    param_sizes: Seq<Vec<Result<i16, String>>>,
    test: Seq<char>,
) -> Result<(Seq<EntryStep>, int), EntryFailure> {
    match first_with_suffix(names, test) {
        None => Err(EntryFailure::MissingFunction),
        Some(f) => match entry_steps(
            param_types[f]@.contains(concrete_type_id_of("DictManager"@)),
            param_types[f]@,
            param_sizes[f]@,
            0,
            0,
        ) {
            Err(e) => Err(EntryFailure::Registry(e)),
            Ok((steps, expected)) => if expected == 0 {
                Ok((steps, f))
            } else {
                Err(EntryFailure::Mismatch(expected))
            },
        },
    }
}

/// `e` is the error that building the entry code reports for `failure` of the test `test`.
pub open spec fn reports(e: GeneratorError, failure: EntryFailure, test: Seq<char>) -> bool {
    match failure {
        EntryFailure::MissingFunction => e matches GeneratorError::MissingFunction { suffix } && suffix@ == test,
        EntryFailure::Registry(m) => e matches GeneratorError::ProgramRegistryError(t) && t@ == m,
        EntryFailure::Mismatch(expected) => e matches GeneratorError::ArgumentsSizeMismatch { expected: x, actual }
            && x == expected && actual == 0,
    }
}

/// The plan of the CASM of the tests of a program: the tests, in order; the
/// code that calls each one; and the footer, `ret`, that follows the program.
pub struct CasmPlan {
    pub tests: Vec<String>,
    pub entry_codes: Vec<EntryCode>,
    pub footer: Vec<EntryInstruction>,
}

/// What planning the CASM of the tests gives, `r`: on success the tests in
/// order, the entry code of each built from its test, and the footer `ret`;
/// otherwise the error of the first test whose entry code cannot be built.
pub open spec fn casm_plan_result(
    function_names: Seq<Option<String>>,
    function_param_types: Seq<Vec<u64>>,
    function_param_sizes: Seq<Vec<Result<i16, String>>>,
    function_code_offsets: Seq<usize>,
    r: Result<CasmPlan, GeneratorError>,
) -> bool {
        match r {
            Ok(plan) => {
                &&& plan.tests@.map_values(|t: String| t@) == test_names(function_names)
                &&& plan.entry_codes@.len() == plan.tests@.len()
                &&& forall|i: int|
                    0 <= i < plan.tests@.len() ==> (test_entry_result(
                        function_names,
                        function_param_types,
                        function_param_sizes,
                        #[trigger] plan.tests@[i]@,
                    ) matches Ok((steps, f)) && plan.entry_codes@[i].steps@ == steps
                        && plan.entry_codes@[i].instructions@ == entry_instructions(
                        steps,
                        (function_code_offsets[f] + 3) as usize,
                    ))
                &&& plan.footer@ == seq![EntryInstruction::Ret]
            },
            Err(e) => exists|i: int|
                #![trigger test_names(function_names)[i]]
                0 <= i < test_names(function_names).len() && (forall|j: int|
                    0 <= j < i ==> #[trigger] test_entry_result(
                        function_names,
                        function_param_types,
                        function_param_sizes,
                        test_names(function_names)[j],
                    ) is Ok) && (test_entry_result(
                    function_names,
                    function_param_types,
                    function_param_sizes,
                    test_names(function_names)[i],
                ) matches Err(failure) && reports(e, failure, test_names(function_names)[i])),
        }
}

/// The parameters of every function can be given their entry code: the
/// offset of each dict manager among them can be computed.
pub open spec fn dict_managers_fit(function_param_types: Seq<Vec<u64>>) -> bool {
    forall|f: int, k: int|
        0 <= f < function_param_types.len() && 0 <= k < function_param_types[f]@.len()
            && #[trigger] function_param_types[f]@[k] == concrete_type_id_of("DictManager"@) ==> dict_manager_offset_fits(k)
}

/// Plans the CASM of the tests of a program, given for each of its functions
/// its debug name, the types of its parameters, their sizes (or the program
/// registry's error), and the code offset of its entry point: the tests are
/// the functions named with `test_`; each test's code calls the first
/// function whose name ends with the test's name, with no arguments and no
/// gas; the first test whose code cannot be built gives the error.
pub fn build_casm_plan(
    function_names: &Vec<Option<String>>,
    function_param_types: &Vec<Vec<u64>>,
    function_param_sizes: &Vec<Vec<Result<i16, String>>>,
    function_code_offsets: &Vec<usize>,
) -> (r: Result<CasmPlan, GeneratorError>)
    requires
        function_param_types@.len() == function_names@.len(),
        function_param_sizes@.len() == function_names@.len(),
        function_code_offsets@.len() == function_names@.len(),
        forall|f: int|
            0 <= f < function_names@.len() ==> {
                &&& (#[trigger] function_param_sizes@[f])@.len() == function_param_types@[f]@.len()
                &&& sizes_fit(function_param_types@[f]@.len() as int)
                &&& forall|k: int|
                    0 <= k < function_param_types@[f]@.len() && #[trigger] function_param_types@[f]@[k]
                        == concrete_type_id_of("DictManager"@) ==> dict_manager_offset_fits(k)
                &&& forall|k: int|
                    0 <= k < function_param_sizes@[f]@.len() ==> (#[trigger] function_param_sizes@[f]@[k] matches Ok(
                        s,
                    ) ==> s >= 0)
                &&& function_code_offsets@[f] <= usize::MAX - 3
            },
    ensures
        casm_plan_result(function_names@, function_param_types@, function_param_sizes@, function_code_offsets@, r),
{
    let tests = collect_tests(function_names);
    let ghost names = test_names(function_names@);
    assert(tests@.len() == names.len());
    let mut entry_codes: Vec<EntryCode> = Vec::new();
    let mut i: usize = 0;
    while i < tests.len()
        invariant
            i <= tests.len(),
            tests@.map_values(|t: String| t@) == names,
            names == test_names(function_names@),
            entry_codes@.len() == i,
            function_param_types@.len() == function_names@.len(),
            function_param_sizes@.len() == function_names@.len(),
            function_code_offsets@.len() == function_names@.len(),
            forall|f: int|
                0 <= f < function_names@.len() ==> {
                    &&& (#[trigger] function_param_sizes@[f])@.len() == function_param_types@[f]@.len()
                    &&& sizes_fit(function_param_types@[f]@.len() as int)
                    &&& forall|k: int|
                        0 <= k < function_param_types@[f]@.len() && #[trigger] function_param_types@[f]@[k]
                            == concrete_type_id_of("DictManager"@) ==> dict_manager_offset_fits(k)
                    &&& forall|k: int|
                        0 <= k < function_param_sizes@[f]@.len() ==> (#[trigger] function_param_sizes@[f]@[k] matches Ok(
                            s,
                        ) ==> s >= 0)
                    &&& function_code_offsets@[f] <= usize::MAX - 3
                },
            forall|j: int|
                0 <= j < i ==> (test_entry_result(
                    function_names@,
                    function_param_types@,
                    function_param_sizes@,
                    #[trigger] tests@[j]@,
                ) matches Ok((steps, f)) && entry_codes@[j].steps@ == steps
                    && entry_codes@[j].instructions@ == entry_instructions(
                    steps,
                    (function_code_offsets@[f] + 3) as usize,
                )),
        decreases tests.len() - i,
    {
        assert(tests@[i as int]@ == names[i as int]);
        proof {
            lemma_first_with_suffix_bound(function_names@, tests@[i as int]@);
        }
        let f = match find_function(function_names, tests[i].as_str()) {
            Ok(f) => f,
            Err(e) => {
                proof {
                    assert forall|j: int| 0 <= j < i implies #[trigger] test_entry_result(
                        function_names@,
                        function_param_types@,
                        function_param_sizes@,
                        names[j],
                    ) is Ok by {
                        assert(tests@[j]@ == names[j]);
                    }
                }
                return Err(e);
            },
        };
        assert(function_param_sizes@[f as int]@.len() == function_param_types@[f as int]@.len());
        let code = match create_entry_code(
            &function_param_types[f],
            &function_param_sizes[f],
            0,
            0,
            function_code_offsets[f],
        ) {
            Ok(code) => code,
            Err(e) => {
                proof {
                    assert forall|j: int| 0 <= j < i implies #[trigger] test_entry_result(
                        function_names@,
                        function_param_types@,
                        function_param_sizes@,
                        names[j],
                    ) is Ok by {
                        assert(tests@[j]@ == names[j]);
                    }
                }
                return Err(e);
            },
        };
        let ghost before = entry_codes@;
        entry_codes.push(code);
        assert forall|j: int|
            0 <= j < i + 1 implies (test_entry_result(
                function_names@,
                function_param_types@,
                function_param_sizes@,
                #[trigger] tests@[j]@,
            ) matches Ok((steps, f)) && entry_codes@[j].steps@ == steps
                && entry_codes@[j].instructions@ == entry_instructions(
                steps,
                (function_code_offsets@[f] + 3) as usize,
            )) by {
            if j < i {
                assert(entry_codes@[j] == before[j]);
            }
        }
        i = i + 1;
    }
    let footer = vec![EntryInstruction::Ret];
    assert(footer@ =~= seq![EntryInstruction::Ret]);
    Ok(CasmPlan { tests, entry_codes, footer })
}

/// Plans the CASM of the tests as `build_casm_plan` does, where the offset of
/// every dict manager among the parameters can be computed; `None` where the
/// offset of one cannot (its index overflows an `i16`).
pub fn checked_build_casm_plan(
    function_names: &Vec<Option<String>>,
    function_param_types: &Vec<Vec<u64>>,
    function_param_sizes: &Vec<Vec<Result<i16, String>>>,
    function_code_offsets: &Vec<usize>,
) -> (r: Option<Result<CasmPlan, GeneratorError>>)
    requires
        function_param_types@.len() == function_names@.len(),
        function_param_sizes@.len() == function_names@.len(),
        function_code_offsets@.len() == function_names@.len(),
        forall|f: int|
            0 <= f < function_names@.len() ==> {
                &&& (#[trigger] function_param_sizes@[f])@.len() == function_param_types@[f]@.len()
                &&& sizes_fit(function_param_types@[f]@.len() as int)
                &&& forall|k: int|
                    0 <= k < function_param_sizes@[f]@.len() ==> (#[trigger] function_param_sizes@[f]@[k] matches Ok(
                        s,
                    ) ==> s >= 0)
                &&& function_code_offsets@[f] <= usize::MAX - 3
            },
    ensures
        r is None <==> !dict_managers_fit(function_param_types@),
        r matches Some(p) ==> casm_plan_result(
            function_names@,
            function_param_types@,
            function_param_sizes@,
            function_code_offsets@,
            p,
        ),
{
    let dict_manager = concrete_type_id("DictManager");
    let mut f: usize = 0;
    while f < function_param_types.len()
        invariant
            f <= function_param_types@.len(),
            dict_manager == concrete_type_id_of("DictManager"@),
            forall|g: int, k: int|
                0 <= g < f && 0 <= k < function_param_types@[g]@.len() && #[trigger] function_param_types@[g]@[k]
                    == concrete_type_id_of("DictManager"@) ==> dict_manager_offset_fits(k),
        decreases function_param_types.len() - f,
    {
        let types = &function_param_types[f];
        let mut k: usize = 0;
        while k < types.len()
            invariant
                k <= types@.len(),
                types@ == function_param_types@[f as int]@,
                f < function_param_types@.len(),
                dict_manager == concrete_type_id_of("DictManager"@),
                forall|g: int, j: int|
                    0 <= g < f && 0 <= j < function_param_types@[g]@.len() && #[trigger] function_param_types@[g]@[j]
                        == concrete_type_id_of("DictManager"@) ==> dict_manager_offset_fits(j),
                forall|j: int|
                    0 <= j < k && #[trigger] function_param_types@[f as int]@[j] == concrete_type_id_of("DictManager"@)
                        ==> dict_manager_offset_fits(j),
            decreases types.len() - k,
        {
            if types[k] == dict_manager {
                let index = k as i16;
                if index == i16::MIN || index > 32765 {
                    assert(function_param_types@[f as int]@[k as int] == concrete_type_id_of("DictManager"@));
                    assert(!dict_manager_offset_fits(k as int));
                    return None;
                }
            }
            k = k + 1;
        }
        f = f + 1;
    }
    assert(dict_managers_fit(function_param_types@));
    Some(build_casm_plan(function_names, function_param_types, function_param_sizes, function_code_offsets))
}

/// The decimal digits of `n`.
pub open spec fn decimal_string(n: nat) -> Seq<char>
    decreases n,
{
    if n < 10 {
        seq![digit_char(n)]
    } else {
        decimal_string(n / 10).push(digit_char(n % 10))
    }
}

/// The character of a decimal digit.
pub open spec fn digit_char(d: nat) -> char {
    if d == 0 {
        '0'
    } else if d == 1 {
        '1'
    } else if d == 2 {
        '2'
    } else if d == 3 {
        '3'
    } else if d == 4 {
        '4'
    } else if d == 5 {
        '5'
    } else if d == 6 {
        '6'
    } else if d == 7 {
        '7'
    } else if d == 8 {
        '8'
    } else {
        '9'
    }
}

/// Appends the digit `d` to `s`.
fn push_digit(s: &mut String, d: usize)
    requires
        d < 10,
    ensures
        final(s)@ == old(s)@.push(digit_char(d as nat)),
{
    let t = if d == 0 {
        "0"
    } else if d == 1 {
        "1"
    } else if d == 2 {
        "2"
    } else if d == 3 {
        "3"
    } else if d == 4 {
        "4"
    } else if d == 5 {
        "5"
    } else if d == 6 {
        "6"
    } else if d == 7 {
        "7"
    } else if d == 8 {
        "8"
    } else {
        "9"
    };
    proof {
        reveal_strlit("0");
        reveal_strlit("1");
        reveal_strlit("2");
        reveal_strlit("3");
        reveal_strlit("4");
        reveal_strlit("5");
        reveal_strlit("6");
        reveal_strlit("7");
        reveal_strlit("8");
        reveal_strlit("9");
    }
    assert(t@ =~= seq![digit_char(d as nat)]);
    s.append(t);
}

/// Appends the decimal digits of `n` to `s`.
fn push_decimal(s: &mut String, n: usize)
    ensures
        final(s)@ == old(s)@ + decimal_string(n as nat),
    decreases n,
{
    if n < 10 {
        push_digit(s, n);
        assert(decimal_string(n as nat) =~= seq![digit_char(n as nat)]);
    } else {
        push_decimal(s, n / 10);
        push_digit(s, n % 10);
    }
}

/// The message of a check of a test that failed.
pub open spec fn invalid_params_message(name: Seq<char>, n_params: nat) -> Seq<char> {
    "Invalid number of parameters for test "@ + name + ": expected 0, got "@ + decimal_string(n_params)
}

/// The message for a test whose return type is not a panic result.
pub open spec fn not_panicable_message(name: Seq<char>) -> Seq<char> {
    "Test function "@ + name + " must be panicable but it's not"@
}

/// The message for a test that returns a value.
pub open spec fn returns_value_message(name: Seq<char>, return_type: Seq<char>) -> Seq<char> {
    "Test function "@ + name + " returns a value "@ + return_type
        + ", it is required that test functions do not return values"@
}

/// The message for a test whose return type could not be read.
pub open spec fn unknown_return_message(name: Seq<char>) -> Seq<char> {
    "Couldn't read result type for test function "@ + name + " possible cause: Test function "@
        + name + " must be panicable but it's not"@
}

/// `names` holds a string equal to `s`.
pub open spec fn is_listed(names: Seq<String>, s: Seq<char>) -> bool {
    exists|i: int| 0 <= i < names.len() && #[trigger] names[i]@ == s
}

/// Whether `names` holds a string equal to `s`.
fn holds_name(names: &Vec<String>, s: &String) -> (r: bool)
    ensures
        r == is_listed(names@, s@),
{
    let mut i: usize = 0;
    while i < names.len()
        invariant
            i <= names.len(),
            forall|k: int| 0 <= k < i ==> names@[k]@ != s@,
        decreases names.len() - i,
    {
        if same_text(names[i].as_str(), s.as_str()) {
            return true;
        }
        i = i + 1;
    }
    false
}

/// What the checks of a test give: the error message of the first check that
/// fails, if one does. A test takes no parameters but the ignored ones, and
/// returns `core::PanicResult::<((),)>`.
pub open spec fn test_check(
    name: Seq<char>,
    param_type_names: Seq<String>,
    ignored_params: Seq<String>,
    return_type_name: Option<String>,
) -> Result<(), Seq<char>> {
    if exists|i: int| 0 <= i < param_type_names.len() && !is_listed(ignored_params, #[trigger] param_type_names[i]@) {
        Err(invalid_params_message(name, param_type_names.len()))
    } else {
        match return_type_name {
            Some(rt) => if !has_prefix(rt@, "core::PanicResult::"@) {
                Err(not_panicable_message(name))
            } else if rt@ != "core::PanicResult::<((),)>"@ {
                Err(returns_value_message(name, rt@))
            } else {
                Ok(())
            },
            None => Err(unknown_return_message(name)),
        }
    }
}

/// Checks a test `name`: the debug names of the types of its parameters, the
/// parameters that may be given anyway (the builtins), and the name of its
/// return type where it is an enum of a user type.
pub fn validate_test(
    name: &String,
    param_type_names: &Vec<String>,
    ignored_params: &Vec<String>,
    return_type_name: &Option<String>,
) -> (r: Result<(), String>)
    ensures
        match test_check(name@, param_type_names@, ignored_params@, *return_type_name) {
            Ok(()) => r is Ok,
            Err(m) => r matches Err(e) && e@ == m,
        },
{
    let mut i: usize = 0;
    while i < param_type_names.len()
        invariant
            i <= param_type_names.len(),
            forall|k: int| 0 <= k < i ==> is_listed(ignored_params@, #[trigger] param_type_names@[k]@),
        decreases param_type_names.len() - i,
    {
        if !holds_name(ignored_params, &param_type_names[i]) {
            let mut message = String::new();
            message.append("Invalid number of parameters for test ");
            message.append(name.as_str());
            message.append(": expected 0, got ");
            push_decimal(&mut message, param_type_names.len());
            assert(message@ =~= invalid_params_message(name@, param_type_names@.len()));
            return Err(message);
        }
        i = i + 1;
    }
    match return_type_name {
        Some(return_type) => {
            if !text_starts_with(return_type.as_str(), "core::PanicResult::") {
                let mut message = String::new();
                message.append("Test function ");
                message.append(name.as_str());
                message.append(" must be panicable but it's not");
                assert(message@ =~= not_panicable_message(name@));
                return Err(message);
            }
            if !same_text(return_type.as_str(), "core::PanicResult::<((),)>") {
                let mut message = String::new();
                message.append("Test function ");
                message.append(name.as_str());
                message.append(" returns a value ");
                message.append(return_type.as_str());
                message.append(", it is required that test functions do not return values");
                assert(message@ =~= returns_value_message(name@, return_type@));
                return Err(message);
            }
            Ok(())
        },
        None => {
            let mut message = String::new();
            message.append("Couldn't read result type for test function ");
            message.append(name.as_str());
            message.append(" possible cause: Test function ");
            message.append(name.as_str());
            message.append(" must be panicable but it's not");
            assert(message@ =~= unknown_return_message(name@));
            Err(message)
        },
    }
}

/// Why a test failed its validation.
pub enum ValidationError {
    /// No function was found for the test.
    Lookup(GeneratorError),
    /// The test's function failed a check; the message.
    Check(String),
}

/// The first failure of validating tests, as values.
pub enum ValidationFailure {
    /// No function's name ends with this test name.
    MissingFunction(Seq<char>),
    /// A check failed with this message.
    Failed(Seq<char>),
}

/// What validating the test `test` gives against the functions of a program
/// (their debug names, the debug names of the types of their parameters, and
/// the names of their return types): the first function whose name ends with
/// the test's name is checked; without one the function is missing.
pub open spec fn program_test_check(
    names: Seq<Option<String>>,
    param_type_names: Seq<Vec<String>>,
    return_type_names: Seq<Option<String>>,
    test: Seq<char>,
    ignored_params: Seq<String>,
) -> Result<(), ValidationFailure> {
    match first_with_suffix(names, test) {
        None => Err(ValidationFailure::MissingFunction(test)),
        Some(f) => match test_check(test, param_type_names[f]@, ignored_params, return_type_names[f]) {
            Ok(()) => Ok(()),
            Err(m) => Err(ValidationFailure::Failed(m)),
        },
    }
}

/// What validating the tests `tests` in turn gives: the failure of the first
/// test that fails, if one does.
pub open spec fn program_tests_check(
    names: Seq<Option<String>>,
    param_type_names: Seq<Vec<String>>,
    return_type_names: Seq<Option<String>>,
    tests: Seq<String>,
    ignored_params: Seq<String>,
) -> Result<(), ValidationFailure>
    decreases tests.len(),
{
    if tests.len() == 0 {
        Ok(())
    } else {
        match program_tests_check(names, param_type_names, return_type_names, tests.drop_last(), ignored_params) {
            Err(m) => Err(m),
            Ok(()) => program_test_check(names, param_type_names, return_type_names, tests.last()@, ignored_params),
        }
    }
}

/// `r` reports `failure`, or success where there is none.
pub open spec fn reports_failure(r: Result<(), ValidationError>, failure: Result<(), ValidationFailure>) -> bool {
    match failure {
        Ok(()) => r is Ok,
        Err(ValidationFailure::MissingFunction(t)) => r matches Err(ValidationError::Lookup(e)) && (e matches GeneratorError::MissingFunction { suffix } && suffix@ == t),
        Err(ValidationFailure::Failed(m)) => r matches Err(ValidationError::Check(e)) && e@ == m,
    }
}

/// Validates the tests `tests` of a program whose functions have the debug
/// names `function_names`, the parameter types named
/// `function_param_type_names` and the return types named
/// `function_return_type_names`: each test in turn is looked up and checked,
/// stopping at the first that fails.
pub fn validate_tests(
    function_names: &Vec<Option<String>>,
    function_param_type_names: &Vec<Vec<String>>,
    function_return_type_names: &Vec<Option<String>>,
    tests: &Vec<String>,
    ignored_params: &Vec<String>,
) -> (r: Result<(), ValidationError>)
    requires
        function_param_type_names.len() == function_names.len(),
        function_return_type_names.len() == function_names.len(),
    ensures
        reports_failure(
            r,
            program_tests_check(
                function_names@,
                function_param_type_names@,
                function_return_type_names@,
                tests@,
                ignored_params@,
            ),
        ),
{
    let ghost names = function_names@;
    let ghost params = function_param_type_names@;
    let ghost rets = function_return_type_names@;
    let mut i: usize = 0;
    while i < tests.len()
        invariant
            i <= tests.len(),
            names == function_names@,
            params == function_param_type_names@,
            rets == function_return_type_names@,
            params.len() == names.len(),
            rets.len() == names.len(),
            program_tests_check(names, params, rets, tests@.take(i as int), ignored_params@) is Ok,
        decreases tests.len() - i,
    {
        assert(tests@.take(i + 1).drop_last() =~= tests@.take(i as int));
        assert(tests@.take(i + 1).last() == tests@[i as int]);
        let f = match find_function(function_names, tests[i].as_str()) {
            Ok(f) => f,
            Err(e) => {
                proof {
                    lemma_program_tests_check_err_prefix(names, params, rets, tests@, ignored_params@, i + 1);
                }
                return Err(ValidationError::Lookup(e));
            },
        };
        proof {
            lemma_first_with_suffix_bound(names, tests@[i as int]@);
        }
        match validate_test(&tests[i], &function_param_type_names[f], ignored_params, &function_return_type_names[f]) {
            Ok(()) => {},
            Err(m) => {
                proof {
                    lemma_program_tests_check_err_prefix(names, params, rets, tests@, ignored_params@, i + 1);
                }
                return Err(ValidationError::Check(m));
            },
        }
        i = i + 1;
    }
    assert(tests@.take(tests.len() as int) =~= tests@);
    Ok(())
}

proof fn lemma_program_tests_check_err_prefix(
    names: Seq<Option<String>>,
    params: Seq<Vec<String>>,
    rets: Seq<Option<String>>,
    tests: Seq<String>,
    ignored: Seq<String>,
    j: int,
)
    requires
        0 <= j <= tests.len(),
        program_tests_check(names, params, rets, tests.take(j), ignored) is Err,
    ensures
        program_tests_check(names, params, rets, tests, ignored) == program_tests_check(names, params, rets, tests.take(j), ignored),
    decreases tests.len(),
{
    if j < tests.len() {
        assert(tests.drop_last().take(j) =~= tests.take(j));
        lemma_program_tests_check_err_prefix(names, params, rets, tests.drop_last(), ignored, j);
    } else {
        assert(tests.take(j) =~= tests);
    }
}

/// A word of the encoding of an instruction: a signed integer, as its sign
/// and the big-endian bytes of its magnitude.
pub struct EncodedWord {
    pub negative: bool,
    pub magnitude: Vec<u8>,
}

/// An assembled instruction: its hints, shown as text, and its encoding.
pub struct AssembledInstruction {
    pub hints: Vec<String>,
    pub encoding: Vec<EncodedWord>,
}

/// The CASM of the tests of a program: the prime, the bytecode (each word the
/// big-endian bytes of the value `word_value` gives it), the hints of the
/// instructions at their offsets, and where each test starts.
pub struct ProtostarCasm {
    pub prime: Vec<u8>,
    pub bytecode: Vec<Vec<u8>>,
    pub hints: Vec<(usize, Vec<String>)>,
    pub test_entry_points: Vec<TestEntrypoint>,
}

/// The value that a word takes in the bytecode: its magnitude reduced modulo
/// the prime, subtracted from the prime where the word is negative.
pub open spec fn word_value(w: EncodedWord) -> int {
    let r = be_value(w.magnitude@) % felt_prime();
    if w.negative {
        felt_prime() - r
    } else {
        r as int
    }
}

/// The hints of an instruction, as text.
pub open spec fn hint_texts(hints: Seq<String>) -> Seq<Seq<char>> {
    hints.map_values(|h: String| h@)
}

/// The bytecode and the hints after `instrs` are appended to `state`: each
/// instruction's words in turn, and, for an instruction with hints, its hints
/// at the offset where its words start.
pub open spec fn assemble_from(
    state: (Seq<int>, Seq<(int, Seq<Seq<char>>)>),
    instrs: Seq<AssembledInstruction>,
) -> (Seq<int>, Seq<(int, Seq<Seq<char>>)>)
    decreases instrs.len(),
{
    if instrs.len() == 0 {
        state
    } else {
        let s = assemble_from(state, instrs.drop_last());
        let ins = instrs.last();
        let hints = if ins.hints@.len() > 0 {
            s.1.push((s.0.len() as int, hint_texts(ins.hints@)))
        } else {
            s.1
        };
        (s.0 + ins.encoding@.map_values(|w: EncodedWord| word_value(w)), hints)
    }
}

/// `state` with each of `codes` appended in turn.
pub open spec fn assemble_codes(
    state: (Seq<int>, Seq<(int, Seq<Seq<char>>)>),
    codes: Seq<Vec<AssembledInstruction>>,
) -> (Seq<int>, Seq<(int, Seq<Seq<char>>)>)
    decreases codes.len(),
{
    if codes.len() == 0 {
        state
    } else {
        assemble_from(assemble_codes(state, codes.drop_last()), codes.last()@)
    }
}

/// The values of the words of a bytecode.
pub open spec fn bytecode_values(bytecode: Seq<Vec<u8>>) -> Seq<int> {
    bytecode.map_values(|w: Vec<u8>| be_value(w@) as int)
}

/// The hints of a bytecode, as offsets and text.
pub open spec fn hints_view(hints: Seq<(usize, Vec<String>)>) -> Seq<(int, Seq<Seq<char>>)> {
    hints.map_values(|h: (usize, Vec<String>)| (h.0 as int, hint_texts(h.1@)))
}

/// The remainder of `Integer::div_rem` of `num_integer` on the `BigUint`s of
/// `num_bigint` of the bytes `a` and `m`, as big-endian bytes.
#[verifier::external_body]
fn biguint_rem(a: &Vec<u8>, m: &Vec<u8>) -> (r: Vec<u8>)
    requires
        be_value(m@) > 0,
    ensures
        be_value(r@) == be_value(a@) % be_value(m@),
{
    let (_q, rem) = num_integer::Integer::div_rem(
        &num_bigint::BigUint::from_bytes_be(a),
        &num_bigint::BigUint::from_bytes_be(m),
    );
    rem.to_bytes_be()
}

/// `Sub` on the `BigUint`s of `num_bigint` of the bytes `a` and `b`, as big-endian bytes.
#[verifier::external_body]
fn biguint_sub(a: &Vec<u8>, b: &Vec<u8>) -> (r: Vec<u8>)
    requires
        be_value(a@) >= be_value(b@),
    ensures
        be_value(r@) == be_value(a@) - be_value(b@),
{
    (num_bigint::BigUint::from_bytes_be(a) - num_bigint::BigUint::from_bytes_be(b)).to_bytes_be()
}

/// The prime of the field, as big-endian bytes.
pub fn prime_bytes() -> (r: Vec<u8>)
    ensures
        be_value(r@) == felt_prime(),
{
    let r: Vec<u8> = vec![
        0x08, 0, 0, 0, 0, 0, 0, 0x11, 0, 0, 0, 0, 0, 0, 0, 0, 0, 0, 0, 0, 0, 0, 0, 0, 0, 0, 0, 0, 0, 0, 0, 0x01,
    ];
    proof {
        assert(be_value(r@.take(0)) == 0nat) by { assert(r@.take(0) =~= Seq::<u8>::empty()); }
        assert(be_value(r@.take(1)) == 8nat) by { assert(r@.take(1).drop_last() =~= r@.take(0)); }
        assert(be_value(r@.take(2)) == 2048nat) by { assert(r@.take(2).drop_last() =~= r@.take(1)); }
        assert(be_value(r@.take(3)) == 524288nat) by { assert(r@.take(3).drop_last() =~= r@.take(2)); }
        assert(be_value(r@.take(4)) == 134217728nat) by { assert(r@.take(4).drop_last() =~= r@.take(3)); }
        assert(be_value(r@.take(5)) == 34359738368nat) by { assert(r@.take(5).drop_last() =~= r@.take(4)); }
        assert(be_value(r@.take(6)) == 8796093022208nat) by { assert(r@.take(6).drop_last() =~= r@.take(5)); }
        assert(be_value(r@.take(7)) == 2251799813685248nat) by { assert(r@.take(7).drop_last() =~= r@.take(6)); }
        assert(be_value(r@.take(8)) == 576460752303423505nat) by { assert(r@.take(8).drop_last() =~= r@.take(7)); }
        assert(be_value(r@.take(9)) == 147573952589676417280nat) by { assert(r@.take(9).drop_last() =~= r@.take(8)); }
        assert(be_value(r@.take(10)) == 37778931862957162823680nat) by { assert(r@.take(10).drop_last() =~= r@.take(9)); }
        assert(be_value(r@.take(11)) == 9671406556917033682862080nat) by { assert(r@.take(11).drop_last() =~= r@.take(10)); }
        assert(be_value(r@.take(12)) == 2475880078570760622812692480nat) by { assert(r@.take(12).drop_last() =~= r@.take(11)); }
        assert(be_value(r@.take(13)) == 633825300114114719440049274880nat) by { assert(r@.take(13).drop_last() =~= r@.take(12)); }
        assert(be_value(r@.take(14)) == 162259276829213368176652614369280nat) by { assert(r@.take(14).drop_last() =~= r@.take(13)); }
        assert(be_value(r@.take(15)) == 41538374868278622253223069278535680nat) by { assert(r@.take(15).drop_last() =~= r@.take(14)); }
        assert(be_value(r@.take(16)) == 10633823966279327296825105735305134080nat) by { assert(r@.take(16).drop_last() =~= r@.take(15)); }
        assert(be_value(r@.take(17)) == 2722258935367507787987227068238114324480nat) by { assert(r@.take(17).drop_last() =~= r@.take(16)); }
        assert(be_value(r@.take(18)) == 696898287454081993724730129468957267066880nat) by { assert(r@.take(18).drop_last() =~= r@.take(17)); }
        assert(be_value(r@.take(19)) == 178405961588244990393530913144053060369121280nat) by { assert(r@.take(19).drop_last() =~= r@.take(18)); }
        assert(be_value(r@.take(20)) == 45671926166590717540743913764877583454495047680nat) by { assert(r@.take(20).drop_last() =~= r@.take(19)); }
        assert(be_value(r@.take(21)) == 11692013098647223690430441923808661364350732206080nat) by { assert(r@.take(21).drop_last() =~= r@.take(20)); }
        assert(be_value(r@.take(22)) == 2993155353253689264750193132495017309273787444756480nat) by { assert(r@.take(22).drop_last() =~= r@.take(21)); }
        assert(be_value(r@.take(23)) == 766247770432944451776049441918724431174089585857658880nat) by { assert(r@.take(23).drop_last() =~= r@.take(22)); }
        assert(be_value(r@.take(24)) == 196159429230833779654668657131193454380566933979560673280nat) by { assert(r@.take(24).drop_last() =~= r@.take(23)); }
        assert(be_value(r@.take(25)) == 50216813883093447591595176225585524321425135098767532359680nat) by { assert(r@.take(25).drop_last() =~= r@.take(24)); }
        assert(be_value(r@.take(26)) == 12855504354071922583448365113749894226284834585284488284078080nat) by { assert(r@.take(26).drop_last() =~= r@.take(25)); }
        assert(be_value(r@.take(27)) == 3291009114642412181362781469119972921928917653832829000723988480nat) by { assert(r@.take(27).drop_last() =~= r@.take(26)); }
        assert(be_value(r@.take(28)) == 842498333348457518428872056094713068013802919381204224185341050880nat) by { assert(r@.take(28).drop_last() =~= r@.take(27)); }
        assert(be_value(r@.take(29)) == 215679573337205124717791246360246545411533547361588281391447309025280nat) by { assert(r@.take(29).drop_last() =~= r@.take(28)); }
        assert(be_value(r@.take(30)) == 55213970774324511927754559068223115625352588124566600036210511110471680nat) by { assert(r@.take(30).drop_last() =~= r@.take(29)); }
        assert(be_value(r@.take(31)) == 14134776518227075053505167121465117600090262559889049609269890844280750080nat) by { assert(r@.take(31).drop_last() =~= r@.take(30)); }
        assert(be_value(r@.take(32)) == 3618502788666131213697322783095070105623107215331596699973092056135872020481nat) by { assert(r@.take(32).drop_last() =~= r@.take(31)); }
        assert(r@.take(32) =~= r@);
    }
    r
}

/// The bytes of the value that word `w` takes in the bytecode.
fn word_bytes(w: &EncodedWord, prime: &Vec<u8>) -> (r: Vec<u8>)
    requires
        be_value(prime@) == felt_prime(),
    ensures
        be_value(r@) == word_value(*w),
{
    let reminder = biguint_rem(&w.magnitude, prime);
    if w.negative {
        biguint_sub(prime, &reminder)
    } else {
        reminder
    }
}

/// A copy of a list of strings.
fn copy_strings(v: &Vec<String>) -> (r: Vec<String>)
    ensures
        hint_texts(r@) == hint_texts(v@),
{
    let mut r: Vec<String> = Vec::new();
    let mut i: usize = 0;
    while i < v.len()
        invariant
            i <= v.len(),
            hint_texts(r@) == hint_texts(v@.take(i as int)),
        decreases v.len() - i,
    {
        let ghost before = r@;
        let s = v[i].clone();
        r.push(s);
        assert(r@ == before.push(s));
        assert(v@.take(i + 1) =~= v@.take(i as int).push(v@[i as int]));
        assert(hint_texts(r@) =~= hint_texts(before).push(s@));
        assert(hint_texts(v@.take(i + 1)) =~= hint_texts(v@.take(i as int)).push(v@[i as int]@));
        i = i + 1;
    }
    assert(v@.take(v.len() as int) =~= v@);
    r
}

/// Appends the words and the hints of `instructions` to the bytecode.
fn assemble(
    instructions: &Vec<AssembledInstruction>,
    prime: &Vec<u8>,
    bytecode: &mut Vec<Vec<u8>>,
    hints: &mut Vec<(usize, Vec<String>)>,
)
    requires
        be_value(prime@) == felt_prime(),
    ensures
        (bytecode_values(final(bytecode)@), hints_view(final(hints)@)) == assemble_from(
            (bytecode_values(old(bytecode)@), hints_view(old(hints)@)),
            instructions@,
        ),
{
    let ghost start = (bytecode_values(bytecode@), hints_view(hints@));
    let mut i: usize = 0;
    while i < instructions.len()
        invariant
            i <= instructions.len(),
            be_value(prime@) == felt_prime(),
            (bytecode_values(bytecode@), hints_view(hints@)) == assemble_from(start, instructions@.take(i as int)),
        decreases instructions.len() - i,
    {
        assert(instructions@.take(i + 1).drop_last() =~= instructions@.take(i as int));
        let instruction = &instructions[i];
        if instruction.hints.len() > 0 {
            let ghost before = hints@;
            hints.push((bytecode.len(), copy_strings(&instruction.hints)));
            assert(hints_view(hints@) =~= hints_view(before).push(
                (bytecode_values(bytecode@).len() as int, hint_texts(instruction.hints@)),
            ));
        }
        let ghost code0 = bytecode_values(bytecode@);
        let mut j: usize = 0;
        while j < instruction.encoding.len()
            invariant
                j <= instruction.encoding.len(),
                be_value(prime@) == felt_prime(),
                bytecode_values(bytecode@) == code0 + instruction.encoding@.take(j as int).map_values(
                    |w: EncodedWord| word_value(w),
                ),
            decreases instruction.encoding.len() - j,
        {
            let ghost before = bytecode@;
            let word = word_bytes(&instruction.encoding[j], prime);
            bytecode.push(word);
            assert(bytecode@ == before.push(word));
            assert(bytecode_values(bytecode@) =~= bytecode_values(before).push(be_value(word@) as int));
            assert(instruction.encoding@.take(j + 1) =~= instruction.encoding@.take(j as int).push(
                instruction.encoding@[j as int],
            ));
            assert(instruction.encoding@.take(j + 1).map_values(|w: EncodedWord| word_value(w))
                =~= instruction.encoding@.take(j as int).map_values(|w: EncodedWord| word_value(w)).push(
                word_value(instruction.encoding@[j as int]),
            ));
            assert(bytecode_values(bytecode@) =~= code0 + instruction.encoding@.take(j + 1).map_values(
                |w: EncodedWord| word_value(w),
            ));
            j = j + 1;
        }
        assert(instruction.encoding@.take(instruction.encoding.len() as int) =~= instruction.encoding@);
        i = i + 1;
    }
    assert(instructions@.take(instructions.len() as int) =~= instructions@);
}

/// The CASM of the tests `tests`: the entry code of each test, in order, then
/// the program's code (with its footer); each test starts where its entry
/// code does.
pub fn build_protostar_casm(
    tests: &Vec<String>,
    entry_codes: &Vec<Vec<AssembledInstruction>>,
    program: &Vec<AssembledInstruction>,
) -> (r: ProtostarCasm)
    requires
        tests@.len() == entry_codes@.len(),
        prefix_sum(
            entry_codes@.map_values(|c: Vec<AssembledInstruction>| c@.len() as usize),
            entry_codes@.len() as int,
        ) <= usize::MAX,
    ensures
        be_value(r.prime@) == felt_prime(),
        (bytecode_values(r.bytecode@), hints_view(r.hints@)) == assemble_from(
            assemble_codes((seq![], seq![]), entry_codes@),
            program@,
        ),
        r.test_entry_points@.len() == tests@.len(),
        forall|i: int|
            0 <= i < tests@.len() ==> (#[trigger] r.test_entry_points@[i]).offset == prefix_sum(
                entry_codes@.map_values(|c: Vec<AssembledInstruction>| c@.len() as usize),
                i,
            ) && r.test_entry_points@[i].name@ == tests@[i]@,
{
    let prime = prime_bytes();
    let mut bytecode: Vec<Vec<u8>> = Vec::new();
    let mut hints: Vec<(usize, Vec<String>)> = Vec::new();
    let mut lengths: Vec<usize> = Vec::new();
    let mut k: usize = 0;
    assert(bytecode_values(bytecode@) =~= seq![]);
    assert(hints_view(hints@) =~= seq![]);
    while k < entry_codes.len()
        invariant
            k <= entry_codes.len(),
            be_value(prime@) == felt_prime(),
            lengths@ == entry_codes@.take(k as int).map_values(|c: Vec<AssembledInstruction>| c@.len() as usize),
            (bytecode_values(bytecode@), hints_view(hints@)) == assemble_codes(
                (seq![], seq![]),
                entry_codes@.take(k as int),
            ),
        decreases entry_codes.len() - k,
    {
        assert(entry_codes@.take(k + 1).drop_last() =~= entry_codes@.take(k as int));
        assemble(&entry_codes[k], &prime, &mut bytecode, &mut hints);
        lengths.push(entry_codes[k].len());
        assert(lengths@ =~= entry_codes@.take(k + 1).map_values(|c: Vec<AssembledInstruction>| c@.len() as usize));
        k = k + 1;
    }
    assert(entry_codes@.take(entry_codes.len() as int) =~= entry_codes@);
    assemble(program, &prime, &mut bytecode, &mut hints);
    let test_entry_points = test_entry_points(tests, &lengths);
    ProtostarCasm { prime, bytecode, hints, test_entry_points }
}


/// The entry code copies each builtin parameter from its own slot below the
/// frame, in the order of the builtins list (pedersen, range_check, bitwise,
/// ec_op): a `Pedersen` parameter from `[fp - 6]`, a `RangeCheck` one from
/// `[fp - 5]`, a `Bitwise` one from `[fp - 4]` and an `EcOp` one from
/// `[fp - 3]`, and nothing else is done for it. (A type that carries two of
/// these names is read as the first of them.)
pub proof fn law_builtins_copied_from_their_slots(
    dict_manager: bool,
    types: Seq<u64>,
    sizes: Seq<Result<i16, String>>,
    n_args: int,
    initial_gas: usize,
    ty: u64,
)
    ensures
        ({
            let before = entry_steps(dict_manager, types, sizes, n_args, initial_gas);
            let after = entry_steps(dict_manager, types.push(ty), sizes, n_args, initial_gas);
            let slot: int = if ty == concrete_type_id_of("Pedersen"@) {
                6
            } else if ty == concrete_type_id_of("RangeCheck"@) {
                5
            } else if ty == concrete_type_id_of("Bitwise"@) {
                4
            } else {
                3
            };
            let builtin = ty == concrete_type_id_of("Pedersen"@) || ty == concrete_type_id_of("RangeCheck"@) || ty
                == concrete_type_id_of("Bitwise"@) || ty == concrete_type_id_of("EcOp"@);
            builtin ==> match before {
                Err(e) => after == Err::<(Seq<EntryStep>, int), Seq<char>>(e),
                Ok((steps, expected)) => after matches Ok((steps2, expected2)) && expected2 == expected && steps2.len()
                    == steps.len() + 1 && steps2.drop_last() == steps && steps_instructions(steps2)
                    == steps_instructions(steps).push(
                    EntryInstruction::PushCell(CellRef { register: Register::FP, offset: (0 - slot) as i16 }),
                ),
            }
        }),
{
    let before = entry_steps(dict_manager, types, sizes, n_args, initial_gas);
    assert(types.push(ty).drop_last() =~= types);
    if let Ok((steps, expected)) = before {
        if builtin_offset(ty) is Some {
            let o = builtin_offset(ty)->Some_0;
            let steps2 = steps.push(EntryStep::CopyBuiltin(o));
            assert(steps2.drop_last() =~= steps);
            assert(steps_instructions(steps2) == steps_instructions(steps) + step_instructions(EntryStep::CopyBuiltin(o)));
            assert(steps_instructions(steps2) =~= steps_instructions(steps).push(
                EntryInstruction::PushCell(CellRef { register: Register::FP, offset: (0 - o) as i16 }),
            ));
        }
    }
}


/// The entry code gives a `System` parameter a new segment (`ap += 1` after
/// the segment's hint), a `GasBuiltin` parameter the initial gas, and the
/// dict manager parameter at index `i` a copy of the manager that the setup
/// made, `i + 3` cells back from `ap`; nothing else is done for such a
/// parameter. (A type that carries one of the builtins' names is a builtin.)
pub proof fn law_runtime_parameters_entry_code(
    dict_manager: bool,
    types: Seq<u64>,
    sizes: Seq<Result<i16, String>>,
    n_args: int,
    initial_gas: usize,
    ty: u64,
)
    ensures
        ({
            let before = entry_steps(dict_manager, types, sizes, n_args, initial_gas);
            let after = entry_steps(dict_manager, types.push(ty), sizes, n_args, initial_gas);
            let builtin = ty == concrete_type_id_of("Pedersen"@) || ty == concrete_type_id_of("RangeCheck"@) || ty
                == concrete_type_id_of("Bitwise"@) || ty == concrete_type_id_of("EcOp"@);
            let system = ty == concrete_type_id_of("System"@);
            let gas = !system && ty == concrete_type_id_of("GasBuiltin"@);
            let dict = !system && !gas && ty == concrete_type_id_of("DictManager"@);
            !builtin && (system || gas || dict) ==> match before {
                Err(e) => after == Err::<(Seq<EntryStep>, int), Seq<char>>(e),
                Ok((steps, expected)) => after matches Ok((steps2, expected2)) && expected2 == expected && steps2.len()
                    == steps.len() + 1 && steps2.drop_last() == steps && steps_instructions(steps2).drop_last()
                    == steps_instructions(steps) && steps_instructions(steps2).len() == steps_instructions(steps).len()
                    + 1 && (system ==> steps_instructions(steps2).last() == EntryInstruction::AllocSegments(1)) && (gas
                    ==> steps_instructions(steps2).last() == EntryInstruction::PushImmediate(initial_gas)) && (dict
                    && types.len() <= 32765 ==> steps_instructions(steps2).last() == EntryInstruction::PushCell(
                    CellRef { register: Register::AP, offset: (-(types.len() as int) - 3) as i16 },
                )),
            }
        }),
{
    let before = entry_steps(dict_manager, types, sizes, n_args, initial_gas);
    assert(types.push(ty).drop_last() =~= types);
    if let Ok((steps, expected)) = before {
        let after = entry_steps(dict_manager, types.push(ty), sizes, n_args, initial_gas);
        if let Ok((steps2, _)) = after {
            if steps2.len() == steps.len() + 1 && steps2.drop_last() == steps {
                assert(steps_instructions(steps2) == steps_instructions(steps) + step_instructions(steps2.last()));
                let step = steps2.last();
                if !(step is DictManagerSetup) {
                    assert(step_instructions(step).len() == 1);
                    assert(steps_instructions(steps2).drop_last() =~= steps_instructions(steps));
                }
            }
        }
        if builtin_offset(ty) is None {
            let i = types.len() as int;
            if ty == concrete_type_id_of("System"@) {
                assert(steps.push(EntryStep::SystemSegment).drop_last() =~= steps);
            } else if ty == concrete_type_id_of("GasBuiltin"@) {
                assert(steps.push(EntryStep::InitialGas(initial_gas)).drop_last() =~= steps);
            } else if ty == concrete_type_id_of("DictManager"@) {
                assert(steps.push(EntryStep::CopyDictManager(dict_manager_offset(i))).drop_last() =~= steps);
            }
        }
    }
}

} // verus!
