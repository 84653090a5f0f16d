//! The configuration of tests, read from the attributes of functions.
//!
//! A function is a test when it has the attribute `#[test]`;
//! `#[ignore]`, `#[available_gas(<number>)]` and
//! `#[should_panic]` / `#[should_panic(expected: (<felt>, ...))]` configure it,
//! and may only appear on tests.
use vstd::prelude::*;
use crate::felt::{be_value, felt_from_be_bytes, felt_prime, be_bytes_to_usize, FeltValue};
use crate::text::same_text;

verus! {

/// An expression given as an argument of an attribute, as far as the
/// configuration of tests reads it.
pub enum AttributeExpr {
    /// A numeric literal, with the big-endian bytes of its numeric value, if it has one.
    Literal(Option<Vec<u8>>),
    /// A short string literal, with the big-endian bytes of its numeric value, if it has one.
    ShortString(Option<Vec<u8>>),
    /// A tuple of expressions.
    Tuple(Vec<AttributeExpr>),
    /// Any other expression.
    Other,
}

pub enum AttributeArgVariant {
    /// `value`.
    Unnamed { value: AttributeExpr },
    /// `name: value`.
    Named { name: String, value: AttributeExpr },
    /// `name`, standing for `name: name`.
    FieldInitShorthand { name: String },
}

pub struct AttributeArg {
    pub variant: AttributeArgVariant,
}

/// An attribute: its name, its arguments, and the places where the name and the
/// arguments stand in the source (for diagnostics).
pub struct Attribute {
    pub id: String,
    pub id_stable_ptr: usize,
    pub args: Vec<AttributeArg>,
    pub args_stable_ptr: usize,
}

/// A diagnostic about an attribute: where it stands, and the message.
pub struct PluginDiagnostic {
    pub stable_ptr: usize,
    pub message: String,
}

/// Expectation for a panic case.
pub enum PanicExpectation {
    /// Accept any panic value.
    Any,
    /// Accept only this specific vector of panics.
    Exact(Vec<FeltValue>),
}

/// Expectation for a result of a test.
pub enum TestExpectation {
    /// Running the test should not panic.
    Success,
    /// Running the test should result in a panic.
    Panics(PanicExpectation),
}

/// The configuration for running a single test.
pub struct TestConfig {
    /// The amount of gas the test requested.
    pub available_gas: Option<usize>,
    /// The expected result of the run.
    pub expectation: TestExpectation,
    /// Should the test be ignored.
    pub ignored: bool,
}

/// The message for an attribute that takes no arguments but has some.
pub open spec fn msg_no_arguments() -> Seq<char> {
    "Attribute should not have arguments."@
}

/// The message for a configuring attribute on a function that is not a test.
pub open spec fn msg_only_on_tests() -> Seq<char> {
    "Attribute should only appear on tests."@
}

/// The message for `available_gas` without a single value argument.
pub open spec fn msg_single_value() -> Seq<char> {
    "Attribute should have a single value argument."@
}

/// The message for `should_panic` with arguments of the wrong form.
pub open spec fn msg_expected_form() -> Seq<char> {
    "Expected panic must be of the form `expected = <tuple of felts>`."@
}

/// The index of the first attribute named `id`.
pub open spec fn first_index(attrs: Seq<Attribute>, id: Seq<char>) -> Option<int>
    decreases attrs.len(),
{
    if attrs.len() == 0 {
        None
    } else {
        match first_index(attrs.drop_last(), id) {
            Some(i) => Some(i),
            None => if attrs.last().id@ == id {
                Some(attrs.len() - 1)
            } else {
                None
            },
        }
    }
}

/// The first attribute named `id`.
pub open spec fn find_attr(attrs: Seq<Attribute>, id: Seq<char>) -> Option<Attribute> {
    match first_index(attrs, id) {
        Some(i) => Some(attrs[i]),
        None => None,
    }
}

/// The value of a numeric expression (0 where the literal has none).
pub open spec fn numeric_or_zero(e: AttributeExpr) -> nat {
    match e {
        AttributeExpr::Literal(Some(b)) => be_value(b@),
        AttributeExpr::ShortString(Some(b)) => be_value(b@),
        _ => 0,
    }
}

/// The expression is a numeric or short string literal.
pub open spec fn is_felt_literal(e: AttributeExpr) -> bool {
    e is Literal || e is ShortString
}

/// The expected panic values of `should_panic(expected: (v0, v1, ...))`, as
/// elements of the field: `None` where the arguments do not have that form.
pub open spec fn panic_values_spec(attr: Attribute) -> Option<Seq<nat>> {
    if attr.args@.len() == 1 {
        match attr.args@[0].variant {
            AttributeArgVariant::Named { name, value } => {
                if name@ == "expected"@ {
                    match value {
                        AttributeExpr::Tuple(elems) => {
                            if forall|i: int| 0 <= i < elems@.len() ==> is_felt_literal(#[trigger] elems@[i]) {
                                Some(Seq::new(elems@.len(), |i: int| numeric_or_zero(elems@[i]) % felt_prime()))
                            } else {
                                None
                            }
                        },
                        _ => None,
                    }
                } else {
                    None
                }
            },
            _ => None,
        }
    } else {
        None
    }
}

/// The single literal argument of `available_gas(<literal>)`, with its value
/// if it has one; `None` where the arguments do not have that form.
pub open spec fn gas_literal(attr: Attribute) -> Option<Option<Vec<u8>>> {
    if attr.args@.len() == 1 {
        match attr.args@[0].variant {
            AttributeArgVariant::Unnamed { value } => match value {
                AttributeExpr::Literal(v) => Some(v),
                _ => None,
            },
            _ => None,
        }
    } else {
        None
    }
}

/// The gas that a literal of value `v` asks for: `v` where it fits a `usize`
/// (a literal with no value counts as 0).
pub open spec fn gas_amount(v: Option<Vec<u8>>) -> Option<usize> {
    let n = match v {
        Some(b) => be_value(b@),
        None => 0,
    };
    if n <= usize::MAX {
        Some(n as usize)
    } else {
        None
    }
}

/// Each field element is written as 32 bytes.
pub open spec fn all_32_bytes(vs: Seq<FeltValue>) -> bool {
    forall|i: int| 0 <= i < vs.len() ==> (#[trigger] vs[i]).bytes@.len() == 32
}

/// The values of a list of field elements.
pub open spec fn felt_values(vs: Seq<FeltValue>) -> Seq<nat> {
    vs.map_values(|f: FeltValue| f.value())
}

/// A diagnostic as a pair of its place and its message.
pub open spec fn diagnostic_view(d: PluginDiagnostic) -> (usize, Seq<char>) {
    (d.stable_ptr, d.message@)
}

/// The views of a list of diagnostics.
pub open spec fn diagnostics_view(ds: Seq<PluginDiagnostic>) -> Seq<(usize, Seq<char>)> {
    ds.map_values(|d: PluginDiagnostic| diagnostic_view(d))
}

/// A diagnostic at the name of `attr`, if there is one.
pub open spec fn on_name(attr: Option<Attribute>, message: Seq<char>) -> Seq<(usize, Seq<char>)> {
    match attr {
        Some(a) => seq![(a.id_stable_ptr, message)],
        None => seq![],
    }
}

/// The diagnostics of the test configuration in `attrs`, in order: those of
/// `test`, or, without it, one for each configuring attribute; then those of
/// `ignore`, `available_gas` and `should_panic`.
pub open spec fn test_config_diagnostics(attrs: Seq<Attribute>) -> Seq<(usize, Seq<char>)> {
    let test = find_attr(attrs, "test"@);
    let ignore = find_attr(attrs, "ignore"@);
    let gas = find_attr(attrs, "available_gas"@);
    let should_panic = find_attr(attrs, "should_panic"@);
    let of_test = match test {
        Some(t) => if t.args@.len() > 0 {
            seq![(t.id_stable_ptr, msg_no_arguments())]
        } else {
            seq![]
        },
        None => on_name(ignore, msg_only_on_tests()) + on_name(gas, msg_only_on_tests()) + on_name(
            should_panic,
            msg_only_on_tests(),
        ),
    };
    let of_ignore = match ignore {
        Some(a) => if a.args@.len() > 0 {
            seq![(a.id_stable_ptr, msg_no_arguments())]
        } else {
            seq![]
        },
        None => seq![],
    };
    let of_gas = match gas {
        Some(a) => if gas_literal(a) is Some {
            seq![]
        } else {
            seq![(a.id_stable_ptr, msg_single_value())]
        },
        None => seq![],
    };
    let of_should_panic = match should_panic {
        Some(a) => if a.args@.len() > 0 && panic_values_spec(a) is None {
            seq![(a.args_stable_ptr, msg_expected_form())]
        } else {
            seq![]
        },
        None => seq![],
    };
    of_test + of_ignore + of_gas + of_should_panic
}

/// `config` is what the attributes `attrs` of a test ask for.
pub open spec fn config_of(config: TestConfig, attrs: Seq<Attribute>) -> bool {
    &&& config.ignored == find_attr(attrs, "ignore"@) is Some
    &&& config.available_gas == match find_attr(attrs, "available_gas"@) {
        Some(a) => match gas_literal(a) {
            Some(v) => gas_amount(v),
            None => None,
        },
        None => None,
    }
    &&& match find_attr(attrs, "should_panic"@) {
        None => config.expectation is Success,
        Some(a) => match config.expectation {
            TestExpectation::Panics(PanicExpectation::Any) => a.args@.len() == 0,
            TestExpectation::Panics(PanicExpectation::Exact(vs)) => a.args@.len() > 0
                && panic_values_spec(a) == Some(felt_values(vs@)) && all_32_bytes(vs@),
            TestExpectation::Success => false,
        },
    }
}

proof fn lemma_first_index_prefix(attrs: Seq<Attribute>, id: Seq<char>, j: int)
    requires
        0 <= j <= attrs.len(),
        first_index(attrs.take(j), id) is Some,
    ensures
        first_index(attrs, id) == first_index(attrs.take(j), id),
    decreases attrs.len(),
{
    if j < attrs.len() {
        assert(attrs.drop_last().take(j) =~= attrs.take(j));
        lemma_first_index_prefix(attrs.drop_last(), id, j);
    } else {
        assert(attrs.take(j) =~= attrs);
    }
}

/// The index of the first attribute named `id`.
fn find_attr_index(attrs: &Vec<Attribute>, id: &str) -> (r: Option<usize>)
    ensures
        r matches Some(i) ==> i < attrs@.len() && first_index(attrs@, id@) == Some(i as int),
        r == (match first_index(attrs@, id@) {
            Some(i) => Some(i as usize),
            None => None::<usize>,
        }),
{
    let mut i: usize = 0;
    while i < attrs.len()
        invariant
            i <= attrs.len(),
            first_index(attrs@.take(i as int), id@) is None,
        decreases attrs.len() - i,
    {
        assert(attrs@.take(i + 1).drop_last() =~= attrs@.take(i as int));
        if same_text(attrs[i].id.as_str(), id) {
            proof {
                lemma_first_index_prefix(attrs@, id@, i + 1);
            }
            return Some(i);
        }
        i = i + 1;
    }
    assert(attrs@.take(attrs.len() as int) =~= attrs@);
    None
}

/// The field element of a numeric literal (0 where it has no value).
fn felt_of_literal(v: &Option<Vec<u8>>) -> (r: FeltValue)
    ensures
        r.bytes@.len() == 32,
        r.value() == (match v {
            Some(b) => be_value(b@),
            None => 0,
        }) % felt_prime(),
{
    match v {
        Some(bytes) => felt_from_be_bytes(bytes),
        None => {
            let zero: Vec<u8> = Vec::new();
            assert(be_value(zero@) == 0);
            felt_from_be_bytes(&zero)
        },
    }
}

/// Tries to extract the relevant expected panic values.
#[verifier::loop_isolation(false)]
fn extract_panic_values(attr: &Attribute) -> (r: Option<Vec<FeltValue>>)
    ensures
        match r {
            Some(vs) => panic_values_spec(*attr) == Some(felt_values(vs@)) && all_32_bytes(vs@),
            None => panic_values_spec(*attr) is None,
        },
{
    if attr.args.len() != 1 {
        return None;
    }
    match &attr.args[0].variant {
        AttributeArgVariant::Named { name, value: panics } => {
            if !same_text(name.as_str(), "expected") {
                return None;
            }
            match panics {
                AttributeExpr::Tuple(elems) => {
                    let mut values: Vec<FeltValue> = Vec::new();
                    let mut i: usize = 0;
                    while i < elems.len()
                        invariant
                            i <= elems.len(),
                            values@.len() == i,
                            all_32_bytes(values@),
                            forall|k: int| 0 <= k < i ==> is_felt_literal(#[trigger] elems@[k]),
                            forall|k: int|
                                0 <= k < i ==> (#[trigger] values@[k]).value() == numeric_or_zero(elems@[k])
                                    % felt_prime(),
                        decreases elems.len() - i,
                    {
                        match &elems[i] {
                            AttributeExpr::Literal(v) => {
                                values.push(felt_of_literal(v));
                            },
                            AttributeExpr::ShortString(v) => {
                                values.push(felt_of_literal(v));
                            },
                            _ => {
                                assert(!is_felt_literal(elems@[i as int]));
                                return None;
                            },
                        }
                        i = i + 1;
                    }
                    assert(felt_values(values@) =~= Seq::new(
                        elems@.len(),
                        |k: int| numeric_or_zero(elems@[k]) % felt_prime(),
                    ));
                    Some(values)
                },
                _ => None,
            }
        },
        _ => None,
    }
}

/// The gas that `available_gas(<literal>)` asks for; `Err(())` where the
/// arguments are not a single literal.
fn gas_of(attr: &Attribute) -> (r: Result<Option<usize>, ()>)
    ensures
        match r {
            Ok(g) => gas_literal(*attr) matches Some(v) && g == gas_amount(v),
            Err(_) => gas_literal(*attr) is None,
        },
{
    if attr.args.len() != 1 {
        return Err(());
    }
    match &attr.args[0].variant {
        AttributeArgVariant::Unnamed { value } => match value {
            AttributeExpr::Literal(v) => match v {
                Some(bytes) => Ok(be_bytes_to_usize(bytes)),
                None => Ok(Some(0)),
            },
            _ => Err(()),
        },
        _ => Err(()),
    }
}

proof fn lemma_diagnostics_push(ds: Seq<PluginDiagnostic>, d: PluginDiagnostic)
    ensures
        diagnostics_view(ds.push(d)) == diagnostics_view(ds).push(diagnostic_view(d)),
{
    assert(diagnostics_view(ds.push(d)) =~= diagnostics_view(ds).push(diagnostic_view(d)));
}

/// `d` added at the end of `diagnostics`.
fn push_diagnostic(diagnostics: &mut Vec<PluginDiagnostic>, d: PluginDiagnostic)
    ensures
        diagnostics_view(final(diagnostics)@) == diagnostics_view(old(diagnostics)@).push(diagnostic_view(d)),
{
    proof {
        lemma_diagnostics_push(diagnostics@, d);
    }
    diagnostics.push(d);
}

/// A diagnostic at `stable_ptr`.
fn diagnostic(stable_ptr: usize, message: &str) -> (r: PluginDiagnostic)
    ensures
        diagnostic_view(r) == (stable_ptr, message@),
{
    PluginDiagnostic { stable_ptr, message: message.to_owned() }
}

/// Extracts the configuration of a tests from attributes, or returns the diagnostics if the
/// attributes are set illegally.
pub fn try_extract_test_config(attrs: &Vec<Attribute>) -> (r: Result<Option<TestConfig>, Vec<PluginDiagnostic>>)
    ensures
        match r {
            Err(diagnostics) => diagnostics_view(diagnostics@) == test_config_diagnostics(attrs@)
                && diagnostics@.len() > 0,
            Ok(config) => test_config_diagnostics(attrs@).len() == 0 && (config is None <==> find_attr(
                attrs@,
                "test"@,
            ) is None) && (config matches Some(c) ==> config_of(c, attrs@)),
        },
{
    let test_attr = find_attr_index(attrs, "test");
    let ignore_attr = find_attr_index(attrs, "ignore");
    let available_gas_attr = find_attr_index(attrs, "available_gas");
    let should_panic_attr = find_attr_index(attrs, "should_panic");
    let ghost test = find_attr(attrs@, "test"@);
    let ghost ignore = find_attr(attrs@, "ignore"@);
    let ghost gas = find_attr(attrs@, "available_gas"@);
    let ghost should_panic = find_attr(attrs@, "should_panic"@);
    assert(test == (match test_attr { Some(t) => Some(attrs@[t as int]), None => None::<Attribute> }));
    assert(ignore == (match ignore_attr { Some(t) => Some(attrs@[t as int]), None => None::<Attribute> }));
    assert(gas == (match available_gas_attr { Some(t) => Some(attrs@[t as int]), None => None::<Attribute> }));
    assert(should_panic == (match should_panic_attr { Some(t) => Some(attrs@[t as int]), None => None::<Attribute> }));
    let mut diagnostics: Vec<PluginDiagnostic> = Vec::new();
    if let Some(t) = test_attr {
        if attrs[t].args.len() > 0 {
            push_diagnostic(&mut diagnostics, diagnostic(attrs[t].id_stable_ptr, "Attribute should not have arguments."));
        }
    } else {
        if let Some(a) = ignore_attr {
            push_diagnostic(&mut diagnostics, diagnostic(attrs[a].id_stable_ptr, "Attribute should only appear on tests."));
        }
        if let Some(a) = available_gas_attr {
            push_diagnostic(&mut diagnostics, diagnostic(attrs[a].id_stable_ptr, "Attribute should only appear on tests."));
        }
        if let Some(a) = should_panic_attr {
            push_diagnostic(&mut diagnostics, diagnostic(attrs[a].id_stable_ptr, "Attribute should only appear on tests."));
        }
    }
    let ghost of_test = diagnostics_view(diagnostics@);
    let ignored = if let Some(a) = ignore_attr {
        if attrs[a].args.len() > 0 {
            push_diagnostic(&mut diagnostics, diagnostic(attrs[a].id_stable_ptr, "Attribute should not have arguments."));
        }
        true
    } else {
        false
    };
    let ghost of_ignore_end = diagnostics_view(diagnostics@);
    let available_gas = if let Some(a) = available_gas_attr {
        match gas_of(&attrs[a]) {
            Ok(g) => g,
            Err(_) => {
                push_diagnostic(&mut diagnostics, diagnostic(attrs[a].id_stable_ptr, "Attribute should have a single value argument."));
                None
            },
        }
    } else {
        None
    };
    let ghost of_gas_end = diagnostics_view(diagnostics@);
    let mut should_panic_present = false;
    let mut expected_panic_value: Option<Vec<FeltValue>> = None;
    if let Some(a) = should_panic_attr {
        should_panic_present = true;
        if attrs[a].args.len() > 0 {
            expected_panic_value = extract_panic_values(&attrs[a]);
            if expected_panic_value.is_none() {
                push_diagnostic(&mut diagnostics, diagnostic(
                    attrs[a].args_stable_ptr,
                    "Expected panic must be of the form `expected = <tuple of felts>`.",
                ));
            }
        }
    }
    let ghost of_test_spec = match test {
        Some(t) => if t.args@.len() > 0 {
            seq![(t.id_stable_ptr, msg_no_arguments())]
        } else {
            seq![]
        },
        None => on_name(ignore, msg_only_on_tests()) + on_name(gas, msg_only_on_tests()) + on_name(
            should_panic,
            msg_only_on_tests(),
        ),
    };
    assert(of_test =~= of_test_spec);
    assert(diagnostics_view(diagnostics@) =~= test_config_diagnostics(attrs@));
    if diagnostics.len() > 0 {
        return Err(diagnostics);
    }
    if test_attr.is_none() {
        return Ok(None);
    }
    let expectation = if should_panic_present {
        match expected_panic_value {
            Some(values) => TestExpectation::Panics(PanicExpectation::Exact(values)),
            None => TestExpectation::Panics(PanicExpectation::Any),
        }
    } else {
        TestExpectation::Success
    };
    Ok(Some(TestConfig { available_gas, expectation, ignored }))
}

/// The functions among `functions` that are tests (they have `#[test]`), in order.
pub open spec fn test_functions(functions: Seq<(u64, Vec<Attribute>)>) -> Seq<(u64, Vec<Attribute>)>
    decreases functions.len(),
{
    if functions.len() == 0 {
        seq![]
    } else {
        let rest = test_functions(functions.drop_last());
        if find_attr(functions.last().1@, "test"@) is Some {
            rest.push(functions.last())
        } else {
            rest
        }
    }
}

/// Finds the tests among `functions`: each free function of the requested
/// crates whose attributes could be read, in order, with its id and its
/// attributes. Every function's attributes must configure it without
/// diagnostics.
pub fn find_all_tests(functions: &Vec<(u64, Vec<Attribute>)>) -> (r: Vec<(u64, TestConfig)>)
    requires
        forall|i: int|
            0 <= i < functions@.len() ==> test_config_diagnostics((#[trigger] functions@[i]).1@).len()
                == 0,
    ensures
        r@.len() == test_functions(functions@).len(),
        forall|k: int|
            0 <= k < r@.len() ==> (#[trigger] r@[k]).0 == test_functions(functions@)[k].0 && config_of(
                r@[k].1,
                test_functions(functions@)[k].1@,
            ),
{
    let mut tests: Vec<(u64, TestConfig)> = Vec::new();
    let mut i: usize = 0;
    while i < functions.len()
        invariant
            i <= functions.len(),
            forall|j: int|
                0 <= j < functions@.len() ==> test_config_diagnostics((#[trigger] functions@[j]).1@).len()
                    == 0,
            tests@.len() == test_functions(functions@.take(i as int)).len(),
            forall|k: int|
                0 <= k < tests@.len() ==> (#[trigger] tests@[k]).0 == test_functions(functions@.take(i as int))[k].0
                    && config_of(tests@[k].1, test_functions(functions@.take(i as int))[k].1@),
        decreases functions.len() - i,
    {
        assert(functions@.take(i + 1).drop_last() =~= functions@.take(i as int));
        assert(functions@.take(i + 1).last() == functions@[i as int]);
        let ghost before = tests@;
        match try_extract_test_config(&functions[i].1) {
            Ok(Some(config)) => {
                tests.push((functions[i].0, config));
                assert forall|k: int| 0 <= k < tests@.len() implies (#[trigger] tests@[k]).0
                    == test_functions(functions@.take(i + 1))[k].0 && config_of(
                    tests@[k].1,
                    test_functions(functions@.take(i + 1))[k].1@,
                ) by {
                    if k < before.len() {
                        assert(tests@[k] == before[k]);
                    }
                }
            },
            Ok(None) => {},
            Err(_) => {
                assert(false);
            },
        }
        i = i + 1;
    }
    assert(functions@.take(functions.len() as int) =~= functions@);
    tests
}

/// A library linked to the crates under test: its name and the path of its sources.
pub struct LinkedLibrary {
    pub name: String,
    pub path: String,
}

/// The linked libraries of `(path, name)` pairs, in order.
pub fn build_linked_libraries(cairo_paths: Vec<(String, String)>) -> (r: Vec<LinkedLibrary>)
    ensures
        r@.len() == cairo_paths@.len(),
        forall|i: int|
            0 <= i < r@.len() ==> (#[trigger] r@[i]).name@ == cairo_paths@[i].1@ && r@[i].path@
                == cairo_paths@[i].0@,
{
    let mut r: Vec<LinkedLibrary> = Vec::new();
    let mut i: usize = 0;
    while i < cairo_paths.len()
        invariant
            i <= cairo_paths.len(),
            r@.len() == i,
            forall|k: int|
                0 <= k < i ==> (#[trigger] r@[k]).name@ == cairo_paths@[k].1@ && r@[k].path@
                    == cairo_paths@[k].0@,
        decreases cairo_paths.len() - i,
    {
        let (path, name) = (cairo_paths[i].0.clone(), cairo_paths[i].1.clone());
        r.push(LinkedLibrary { name, path });
        i = i + 1;
    }
    r
}


proof fn lemma_first_index_char(attrs: Seq<Attribute>, id: Seq<char>)
    ensures
        match first_index(attrs, id) {
            Some(i) => 0 <= i < attrs.len() && attrs[i].id@ == id && forall|j: int|
                0 <= j < i ==> attrs[j].id@ != id,
            None => forall|j: int| 0 <= j < attrs.len() ==> attrs[j].id@ != id,
        },
    decreases attrs.len(),
{
    if attrs.len() > 0 {
        lemma_first_index_char(attrs.drop_last(), id);
        assert forall|j: int| 0 <= j < attrs.len() - 1 implies attrs.drop_last()[j] == attrs[j] by {}
    }
}

proof fn lemma_find_attr_insert(attrs: Seq<Attribute>, k: int, x: Attribute, id: Seq<char>)
    requires
        0 <= k <= attrs.len(),
        x.id@ != id || exists|j: int| 0 <= j < k && attrs[j].id@ == id,
    ensures
        find_attr(attrs.insert(k, x), id) == find_attr(attrs, id),
{
    let a2 = attrs.insert(k, x);
    lemma_first_index_char(attrs, id);
    lemma_first_index_char(a2, id);
    assert forall|j: int| 0 <= j < k implies a2[j] == attrs[j] by {}
    assert forall|j: int| k < j < a2.len() implies a2[j] == attrs[j - 1] by {}
    assert(a2[k] == x);
    match first_index(attrs, id) {
        Some(i) => {
            if i < k {
                assert(a2[i].id@ == id);
                match first_index(a2, id) {
                    Some(i2) => {
                        if i2 < i {
                            assert(a2[i2] == attrs[i2]);
                        }
                        assert(i2 == i);
                    },
                    None => {},
                }
            } else {
                assert(x.id@ != id);
                assert(a2[i + 1] == attrs[i]);
                match first_index(a2, id) {
                    Some(i2) => {
                        if i2 < k {
                            assert(a2[i2] == attrs[i2]);
                        } else if k < i2 && i2 < i + 1 {
                            assert(a2[i2] == attrs[i2 - 1]);
                        }
                        assert(i2 == i + 1);
                    },
                    None => {},
                }
            }
        },
        None => {
            assert(x.id@ != id);
            match first_index(a2, id) {
                Some(i2) => {
                    if i2 < k {
                        assert(a2[i2] == attrs[i2]);
                    } else if k < i2 {
                        assert(a2[i2] == attrs[i2 - 1]);
                    }
                },
                None => {},
            }
        },
    }
}

/// An attribute that the configuration of tests does not read, one whose
/// name is none of `test`, `ignore`, `available_gas` and `should_panic`, or
/// one whose name an earlier attribute already has, changes neither the
/// diagnostics nor the configuration, nor whether the function is a test:
/// only the first attribute of each of those names is read.
pub proof fn law_unread_attribute_ignored(attrs: Seq<Attribute>, k: int, x: Attribute)
    requires
        0 <= k <= attrs.len(),
        (exists|j: int| 0 <= j < k && attrs[j].id@ == x.id@) || (x.id@ != "test"@ && x.id@ != "ignore"@
            && x.id@ != "available_gas"@ && x.id@ != "should_panic"@),
    ensures
        test_config_diagnostics(attrs.insert(k, x)) == test_config_diagnostics(attrs),
        find_attr(attrs.insert(k, x), "test"@) == find_attr(attrs, "test"@),
        forall|c: TestConfig| config_of(c, attrs.insert(k, x)) == config_of(c, attrs),
{
    lemma_find_attr_insert(attrs, k, x, "test"@);
    lemma_find_attr_insert(attrs, k, x, "ignore"@);
    lemma_find_attr_insert(attrs, k, x, "available_gas"@);
    lemma_find_attr_insert(attrs, k, x, "should_panic"@);
}

} // verus!
