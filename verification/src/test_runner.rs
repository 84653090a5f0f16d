//! Finding, selecting and judging the tests of a crate for the test runner.
use vstd::prelude::*;
use crate::felt::FeltValue;
use crate::text::{contains_pattern, occurs_at, same_text, text_contains};

verus! {

/// The options of the test runner.
pub struct Args {
    /// The path to compile and run its tests.
    pub path: String,
    /// The filter for the tests, running only tests containing the filter string.
    pub filter: String,
    /// Should we run ignored tests as well.
    pub include_ignored: bool,
    /// Should we run only the ignored tests.
    pub ignored: bool,
    /// Should we add the starknet plugin to run the tests.
    pub starknet: bool,
}

/// An argument of an attribute, as the test runner reads it.
pub enum AttributeValue {
    /// A literal, with the text of its token.
    Literal(String),
    /// Any other expression.
    Other,
}

/// An attribute of a function: its name and its arguments.
pub struct FunctionAttribute {
    pub id: String,
    pub args: Vec<AttributeValue>,
}

/// Expectation for a result of a test.
#[derive(Clone, Copy)]
pub enum TestExpectation {
    /// Running the test should not panic.
    Success,
    /// Running the test should result in a panic.
    Panics,
}

/// The configuration for running a single test.
#[derive(Clone, Copy)]
pub struct TestConfig {
    /// The function id of the test function.
    pub func_id: u64,
    /// The amount of gas the test requested.
    pub available_gas: Option<usize>,
    /// The expected result of the run.
    pub expectation: TestExpectation,
    /// Should the test be ignored.
    pub ignored: bool,
}

/// The value of a run of a function.
pub enum RunResultValue {
    /// The run succeeded, with these values.
    Success(Vec<FeltValue>),
    /// The run panicked, with this panic data.
    Panic(Vec<FeltValue>),
}

/// The status of a ran test.
pub enum TestStatus {
    Success,
    Fail(RunResultValue),
    Ignore,
}

/// Summary data of the ran tests.
pub struct TestsSummary {
    pub passed: Vec<String>,
    pub failed: Vec<String>,
    pub ignored: Vec<String>,
    pub failed_run_results: Vec<RunResultValue>,
}

/// The value of a string of decimal digits.
pub open spec fn decimal_value(digits: Seq<char>) -> nat
    decreases digits.len(),
{
    if digits.len() == 0 {
        0
    } else {
        decimal_value(digits.drop_last()) * 10 + (digits.last() as nat - '0' as nat) as nat
    }
}

/// Every character is an ASCII decimal digit.
pub open spec fn all_digits(s: Seq<char>) -> bool {
    forall|i: int| 0 <= i < s.len() ==> '0' <= #[trigger] s[i] <= '9'
}

/// The digits of `s`, past an optional leading `+`.
pub open spec fn unsigned_digits(s: Seq<char>) -> Seq<char> {
    if s.len() > 0 && s[0] == '+' {
        s.drop_first()
    } else {
        s
    }
}

/// What `str::parse::<usize>` gives for `s`: the value of its digits (after an
/// optional `+`), when there is at least one, all are decimal digits, and
/// the value fits a `usize`.
pub open spec fn parse_usize_spec(s: Seq<char>) -> Option<usize> {
    let d = unsigned_digits(s);
    if d.len() > 0 && all_digits(d) && decimal_value(d) <= usize::MAX {
        Some(decimal_value(d) as usize)
    } else {
        None
    }
}

proof fn lemma_decimal_value_prefix(d: Seq<char>, j: int)
    requires
        0 <= j <= d.len(),
        all_digits(d),
    ensures
        decimal_value(d.take(j)) <= decimal_value(d),
    decreases d.len(),
{
    if j < d.len() {
        assert(all_digits(d.drop_last()));
        lemma_decimal_value_prefix(d.drop_last(), j);
        assert(d.drop_last().take(j) =~= d.take(j));
    } else {
        assert(d.take(j) =~= d);
    }
}

/// `str::parse::<usize>`, made `Option` with `ok()`.
pub fn parse_usize(s: &str) -> (r: Option<usize>)
    ensures
        r == parse_usize_spec(s@),
{
    let n = s.unicode_len();
    let mut i: usize = 0;
    if n > 0 && s.get_char(0) == '+' {
        i = 1;
    }
    let ghost d = unsigned_digits(s@);
    assert(d =~= s@.skip(i as int));
    if i == n {
        assert(d.len() == 0);
        return None;
    }
    let start = i;
    let mut acc: usize = 0;
    while i < n
        invariant
            start <= i <= n,
            n == s@.len(),
            d == s@.skip(start as int),
            d == unsigned_digits(s@),
            d.len() > 0,
            all_digits(d.take(i - start)),
            acc == decimal_value(d.take(i - start)),
        decreases n - i,
    {
        let c = s.get_char(i);
        assert(d.take(i + 1 - start).drop_last() =~= d.take(i - start));
        assert(d[i - start] == c);
        if c < '0' || c > '9' {
            assert(!all_digits(d));
            return None;
        }
        let digit = (c as u32 - '0' as u32) as usize;
        if acc > (usize::MAX - digit) / 10 {
            proof {
                assert(acc * 10 + digit > usize::MAX) by (nonlinear_arith)
                    requires
                        acc > (usize::MAX - digit) / 10,
                        digit < 10,
                ;
                assert(all_digits(d.take(i + 1 - start)));
                if all_digits(d) {
                    lemma_decimal_value_prefix(d, i + 1 - start);
                }
            }
            return None;
        }
        assert(acc * 10 + digit <= usize::MAX) by (nonlinear_arith)
            requires
                acc <= (usize::MAX - digit) / 10,
                digit < 10,
        ;
        acc = acc * 10 + digit;
        i = i + 1;
    }
    assert(d.take(n - start) =~= d);
    Some(acc)
}

/// The configuration of a function from its attributes, if it is a test: a
/// test has `test`; `should_panic` makes it expect a panic, `ignore` ignores
/// it, and `available_gas(<literal>)` sets its gas to the literal parsed as a
/// `usize` (the last such attribute counts).
pub open spec fn runner_config(attrs: Seq<FunctionAttribute>) -> (bool, Option<usize>, bool, bool)
    decreases attrs.len(),
{
    if attrs.len() == 0 {
        (false, None, false, false)
    } else {
        let prev = runner_config(attrs.drop_last());
        let attr = attrs.last();
        if attr.id@ == "test"@ {
            (true, prev.1, prev.2, prev.3)
        } else if attr.id@ == "available_gas"@ {
            if attr.args@.len() == 1 && attr.args@[0] is Literal {
                (prev.0, parse_usize_spec(attr.args@[0]->Literal_0@), prev.2, prev.3)
            } else {
                prev
            }
        } else if attr.id@ == "should_panic"@ {
            (prev.0, prev.1, true, prev.3)
        } else if attr.id@ == "ignore"@ {
            (prev.0, prev.1, prev.2, true)
        } else {
            prev
        }
    }
}

/// The test configuration of the function `func_id`, if its attributes make it a test.
pub fn test_config_of(func_id: u64, attrs: &Vec<FunctionAttribute>) -> (r: Option<TestConfig>)
    ensures
        r is Some == runner_config(attrs@).0,
        r matches Some(c) ==> c.func_id == func_id && c.available_gas == runner_config(attrs@).1 && (
        c.expectation is Panics) == runner_config(attrs@).2 && c.ignored == runner_config(attrs@).3,
{
    let mut is_test = false;
    let mut available_gas: Option<usize> = None;
    let mut ignored = false;
    let mut should_panic = false;
    let mut i: usize = 0;
    while i < attrs.len()
        invariant
            i <= attrs.len(),
            (is_test, available_gas, should_panic, ignored) == runner_config(attrs@.take(i as int)),
        decreases attrs.len() - i,
    {
        assert(attrs@.take(i + 1).drop_last() =~= attrs@.take(i as int));
        let attr = &attrs[i];
        if same_text(attr.id.as_str(), "test") {
            is_test = true;
        } else if same_text(attr.id.as_str(), "available_gas") {
            if attr.args.len() == 1 {
                match &attr.args[0] {
                    AttributeValue::Literal(text) => {
                        available_gas = parse_usize(text.as_str());
                    },
                    AttributeValue::Other => {},
                }
            }
        } else if same_text(attr.id.as_str(), "should_panic") {
            should_panic = true;
        } else if same_text(attr.id.as_str(), "ignore") {
            ignored = true;
        }
        i = i + 1;
    }
    assert(attrs@.take(attrs.len() as int) =~= attrs@);
    if is_test {
        Some(
            TestConfig {
                func_id,
                available_gas,
                expectation: if should_panic {
                    TestExpectation::Panics
                } else {
                    TestExpectation::Success
                },
                ignored,
            },
        )
    } else {
        None
    }
}

/// A named test as its name and its configuration.
pub open spec fn named_view(e: (String, TestConfig)) -> (Seq<char>, TestConfig) {
    (e.0@, e.1)
}

/// The tests that run under `args`, in order: those whose name contains the
/// filter and, where `ignored` is set, that are ignored; `include_ignored`
/// un-ignores every test first.
pub open spec fn selection(named: Seq<(String, TestConfig)>, args: Args) -> Seq<(Seq<char>, TestConfig)>
    decreases named.len(),
{
    if named.len() == 0 {
        seq![]
    } else {
        let rest = selection(named.drop_last(), args);
        let name = named.last().0@;
        let t = named.last().1;
        let test = TestConfig {
            func_id: t.func_id,
            available_gas: t.available_gas,
            expectation: t.expectation,
            ignored: t.ignored && !args.include_ignored,
        };
        if contains_pattern(name, args.filter@) && (!args.ignored || test.ignored) {
            rest.push((name, test))
        } else {
            rest
        }
    }
}

/// The named tests that run under `args`, in order.
pub fn select_tests(named_tests: &Vec<(String, TestConfig)>, args: &Args) -> (r: Vec<(String, TestConfig)>)
    ensures
        r@.map_values(|e: (String, TestConfig)| named_view(e)) == selection(named_tests@, *args),
{
    let mut r: Vec<(String, TestConfig)> = Vec::new();
    let mut i: usize = 0;
    while i < named_tests.len()
        invariant
            i <= named_tests.len(),
            r@.map_values(|e: (String, TestConfig)| named_view(e)) == selection(named_tests@.take(i as int), *args),
        decreases named_tests.len() - i,
    {
        assert(named_tests@.take(i + 1).drop_last() =~= named_tests@.take(i as int));
        let name = &named_tests[i].0;
        let t = named_tests[i].1;
        // Un-ignoring all the tests in `include_ignored` mode.
        let test = TestConfig {
            func_id: t.func_id,
            available_gas: t.available_gas,
            expectation: t.expectation,
            ignored: t.ignored && !args.include_ignored,
        };
        // Filtering unignored tests in `ignored` mode.
        if text_contains(name.as_str(), args.filter.as_str()) && (!args.ignored || test.ignored) {
            let ghost before = r@;
            r.push((name.clone(), test));
            assert(r@.map_values(|e: (String, TestConfig)| named_view(e)) =~= before.map_values(
                |e: (String, TestConfig)| named_view(e),
            ).push((name@, test)));
        }
        i = i + 1;
    }
    assert(named_tests@.take(named_tests.len() as int) =~= named_tests@);
    r
}

/// The status of a test that ran with `expectation` and gave `result`: it
/// passes when it succeeded as expected or panicked as expected.
pub fn test_status(expectation: TestExpectation, result: RunResultValue) -> (r: TestStatus)
    ensures
        match (result, expectation) {
            (RunResultValue::Success(_), TestExpectation::Success) | (
                RunResultValue::Panic(_),
                TestExpectation::Panics,
            ) => r is Success,
            _ => r == TestStatus::Fail(result),
        },
{
    match (&result, expectation) {
        (RunResultValue::Success(_), TestExpectation::Success) | (
            RunResultValue::Panic(_),
            TestExpectation::Panics,
        ) => TestStatus::Success,
        _ => TestStatus::Fail(result),
    }
}

impl TestsSummary {
    /// A summary of no test.
    pub fn new() -> (r: Self)
        ensures
            r.passed@.len() == 0,
            r.failed@.len() == 0,
            r.ignored@.len() == 0,
            r.failed_run_results@.len() == 0,
    {
        TestsSummary {
            passed: Vec::new(),
            failed: Vec::new(),
            ignored: Vec::new(),
            failed_run_results: Vec::new(),
        }
    }

    /// Records the test `name` with its status: a failed one with its result.
    pub fn record(&mut self, name: String, status: TestStatus)
        ensures
            match status {
                TestStatus::Success => final(self).passed@ == old(self).passed@.push(name)
                    && final(self).failed@ == old(self).failed@ && final(self).ignored@ == old(
                    self,
                ).ignored@ && final(self).failed_run_results@ == old(self).failed_run_results@,
                TestStatus::Fail(result) => final(self).failed@ == old(self).failed@.push(name)
                    && final(self).failed_run_results@ == old(self).failed_run_results@.push(result)
                    && final(self).passed@ == old(self).passed@ && final(self).ignored@ == old(
                    self,
                ).ignored@,
                TestStatus::Ignore => final(self).ignored@ == old(self).ignored@.push(name)
                    && final(self).passed@ == old(self).passed@ && final(self).failed@ == old(
                    self,
                ).failed@ && final(self).failed_run_results@ == old(self).failed_run_results@,
            },
    {
        match status {
            TestStatus::Success => self.passed.push(name),
            TestStatus::Fail(run_result) => {
                self.failed_run_results.push(run_result);
                self.failed.push(name);
            },
            TestStatus::Ignore => self.ignored.push(name),
        }
    }
}

/// The tests among `functions` (each an id and its attributes), in order,
/// with their configurations.
pub open spec fn runner_tests(functions: Seq<(u64, Vec<FunctionAttribute>)>) -> Seq<TestConfig>
    decreases functions.len(),
{
    if functions.len() == 0 {
        seq![]
    } else {
        let rest = runner_tests(functions.drop_last());
        let (func_id, attrs) = functions.last();
        let c = runner_config(attrs@);
        if c.0 {
            rest.push(
                TestConfig {
                    func_id,
                    available_gas: c.1,
                    expectation: if c.2 {
                        TestExpectation::Panics
                    } else {
                        TestExpectation::Success
                    },
                    ignored: c.3,
                },
            )
        } else {
            rest
        }
    }
}

/// Finds the tests among the free functions `functions` of the main crates
/// (each an id and its attributes), in order.
pub fn find_all_tests(functions: &Vec<(u64, Vec<FunctionAttribute>)>) -> (r: Vec<TestConfig>)
    ensures
        r@ == runner_tests(functions@),
{
    let mut tests: Vec<TestConfig> = Vec::new();
    let mut i: usize = 0;
    while i < functions.len()
        invariant
            i <= functions.len(),
            tests@ == runner_tests(functions@.take(i as int)),
        decreases functions.len() - i,
    {
        assert(functions@.take(i + 1).drop_last() =~= functions@.take(i as int));
        match test_config_of(functions[i].0, &functions[i].1) {
            Some(c) => {
                proof {
                    let e = TestConfig {
                        func_id: functions@[i as int].0,
                        available_gas: runner_config(functions@[i as int].1@).1,
                        expectation: if runner_config(functions@[i as int].1@).2 {
                            TestExpectation::Panics
                        } else {
                            TestExpectation::Success
                        },
                        ignored: runner_config(functions@[i as int].1@).3,
                    };
                    assert(c == e);
                }
                tests.push(c);
            },
            None => {},
        }
        i = i + 1;
    }
    assert(functions@.take(functions.len() as int) =~= functions@);
    tests
}

/// A run that gave `result` meets `expectation`.
pub open spec fn meets(expectation: TestExpectation, result: RunResultValue) -> bool {
    match (result, expectation) {
        (RunResultValue::Success(_), TestExpectation::Success) => true,
        (RunResultValue::Panic(_), TestExpectation::Panics) => true,
        _ => false,
    }
}

/// The names of the passed, failed and ignored tests, and the results of the
/// failed ones, after the tests `named` ran with `results` (`None` for a test
/// that did not run): an ignored test is ignored, a test that ran passes when
/// its result meets its expectation and fails otherwise.
pub open spec fn summary_of(named: Seq<(String, TestConfig)>, results: Seq<Option<RunResultValue>>) -> (
    Seq<Seq<char>>,
    Seq<Seq<char>>,
    Seq<Seq<char>>,
    Seq<RunResultValue>,
)
    decreases named.len(),
{
    if named.len() == 0 || results.len() != named.len() {
        (seq![], seq![], seq![], seq![])
    } else {
        let prev = summary_of(named.drop_last(), results.drop_last());
        let name = named.last().0@;
        let test = named.last().1;
        if test.ignored {
            (prev.0, prev.1, prev.2.push(name), prev.3)
        } else {
            match results.last() {
                Some(v) => if meets(test.expectation, v) {
                    (prev.0.push(name), prev.1, prev.2, prev.3)
                } else {
                    (prev.0, prev.1.push(name), prev.2, prev.3.push(v))
                },
                None => prev,
            }
        }
    }
}

/// The names of a list of strings.
pub open spec fn names_view(names: Seq<String>) -> Seq<Seq<char>> {
    names.map_values(|n: String| n@)
}

/// The view of a summary: the names of the passed, failed and ignored tests,
/// and the results of the failed ones.
pub open spec fn summary_view(s: TestsSummary) -> (Seq<Seq<char>>, Seq<Seq<char>>, Seq<Seq<char>>, Seq<RunResultValue>) {
    (names_view(s.passed@), names_view(s.failed@), names_view(s.ignored@), s.failed_run_results@)
}

/// The summary of the tests `named_tests` after each one that is not ignored
/// ran and gave the result at its index in `results`.
pub fn summarize_tests(named_tests: Vec<(String, TestConfig)>, results: Vec<Option<RunResultValue>>) -> (r: TestsSummary)
    requires
        results@.len() == named_tests@.len(),
        forall|i: int| 0 <= i < named_tests@.len() && !named_tests@[i].1.ignored ==> #[trigger] results@[i] is Some,
    ensures
        summary_view(r) == summary_of(named_tests@, results@),
        r.passed@.len() + r.failed@.len() + r.ignored@.len() == named_tests@.len(),
        r.failed_run_results@.len() == r.failed@.len(),
{
    let ghost all_named = named_tests@;
    let ghost all_results = results@;
    let mut named_tests = named_tests;
    let mut results = results;
    let mut summary = TestsSummary::new();
    let total = named_tests.len();
    let mut k: usize = 0;
    assert(summary_view(summary) =~= (seq![], seq![], seq![], seq![]));
    while named_tests.len() > 0
        invariant
            k + named_tests@.len() == all_named.len(),
            all_named.len() == total,
            all_results.len() == all_named.len(),
            named_tests@ == all_named.skip(k as int),
            results@ == all_results.skip(k as int),
            forall|i: int| 0 <= i < all_named.len() && !all_named[i].1.ignored ==> #[trigger] all_results[i] is Some,
            summary_view(summary) == summary_of(all_named.take(k as int), all_results.take(k as int)),
            summary.passed@.len() + summary.failed@.len() + summary.ignored@.len() == k,
            summary.failed_run_results@.len() == summary.failed@.len(),
        decreases named_tests@.len(),
    {
        assert(all_named.take(k + 1).drop_last() =~= all_named.take(k as int));
        assert(all_results.take(k + 1).drop_last() =~= all_results.take(k as int));
        assert(all_named.take(k + 1).last() == all_named[k as int]);
        assert(all_results.take(k + 1).last() == all_results[k as int]);
        let (name, test) = named_tests.remove(0);
        let result = results.remove(0);
        assert(named_tests@ =~= all_named.skip(k + 1));
        assert(results@ =~= all_results.skip(k + 1));
        let ghost before = summary;
        let status = if test.ignored {
            TestStatus::Ignore
        } else {
            match result {
                Some(v) => test_status(test.expectation, v),
                None => TestStatus::Ignore,
            }
        };
        summary.record(name, status);
        assert(names_view(summary.passed@) =~= summary_of(all_named.take(k + 1), all_results.take(k + 1)).0);
        assert(names_view(summary.failed@) =~= summary_of(all_named.take(k + 1), all_results.take(k + 1)).1);
        assert(names_view(summary.ignored@) =~= summary_of(all_named.take(k + 1), all_results.take(k + 1)).2);
        k = k + 1;
    }
    assert(all_named.take(k as int) =~= all_named);
    assert(all_results.take(k as int) =~= all_results);
    summary
}

/// Every test that runs has a name that contains the filter; with
/// `include_ignored` none of them is ignored, and otherwise with `ignored`
/// all of them are.
pub proof fn law_selection_follows_args(named: Seq<(String, TestConfig)>, args: Args)
    ensures
        forall|i: int|
            0 <= i < selection(named, args).len() ==> contains_pattern(
                #[trigger] selection(named, args)[i].0,
                args.filter@,
            ),
        args.include_ignored ==> forall|i: int|
            0 <= i < selection(named, args).len() ==> !(#[trigger] selection(named, args)[i]).1.ignored,
        !args.include_ignored && args.ignored ==> forall|i: int|
            0 <= i < selection(named, args).len() ==> (#[trigger] selection(named, args)[i]).1.ignored,
    decreases named.len(),
{
    if named.len() > 0 {
        law_selection_follows_args(named.drop_last(), args);
    }
}

/// Without a filter and outside `ignored` mode, every test runs, in order,
/// under its own name.
pub proof fn law_no_filter_selects_all(named: Seq<(String, TestConfig)>, args: Args)
    requires
        args.filter@.len() == 0,
        !args.ignored,
    ensures
        selection(named, args).len() == named.len(),
        forall|i: int|
            0 <= i < named.len() ==> (#[trigger] selection(named, args)[i]).0 == named[i].0@
                && selection(named, args)[i].1.func_id == named[i].1.func_id,
    decreases named.len(),
{
    if named.len() > 0 {
        law_no_filter_selects_all(named.drop_last(), args);
        let name = named.last().0@;
        assert(name.subrange(0, 0) =~= args.filter@);
        assert(occurs_at(name, args.filter@, 0));
        assert forall|i: int| 0 <= i < named.len() implies (#[trigger] selection(named, args)[i]).0
            == named[i].0@ && selection(named, args)[i].1.func_id == named[i].1.func_id by {
            if i < named.len() - 1 {
                assert(named.drop_last()[i] == named[i]);
            }
        }
    }
}


/// Selection changes nothing in a test that it keeps but its `ignored` flag,
/// which `include_ignored` clears: each selected test has the name, the
/// function, the gas and the expectation of a test it came from, and the
/// selected tests come in the order of those they came from.
pub proof fn law_selection_keeps_configs(named: Seq<(String, TestConfig)>, args: Args)
    ensures
        exists|src: Seq<int>|
            #![trigger src.len()]
            src.len() == selection(named, args).len() && (forall|j: int|
                0 <= j < src.len() ==> 0 <= #[trigger] src[j] < named.len() && selection(named, args)[j].0
                    == named[src[j]].0@ && selection(named, args)[j].1.func_id == named[src[j]].1.func_id
                    && selection(named, args)[j].1.available_gas == named[src[j]].1.available_gas
                    && selection(named, args)[j].1.expectation == named[src[j]].1.expectation
                    && selection(named, args)[j].1.ignored == (named[src[j]].1.ignored && !args.include_ignored))
                && (forall|j: int, k: int| 0 <= j < k < src.len() ==> src[j] < src[k]),
    decreases named.len(),
{
    let sel = selection(named, args);
    if named.len() == 0 {
        let src: Seq<int> = seq![];
        assert(src.len() == sel.len());
    } else {
        let d = named.drop_last();
        law_selection_keeps_configs(d, args);
        let prev = selection(d, args);
        let src0 = choose|src: Seq<int>|
            #![trigger src.len()]
            src.len() == prev.len() && (forall|j: int|
                0 <= j < src.len() ==> 0 <= #[trigger] src[j] < d.len() && prev[j].0 == d[src[j]].0@
                    && prev[j].1.func_id == d[src[j]].1.func_id && prev[j].1.available_gas == d[src[j]].1.available_gas
                    && prev[j].1.expectation == d[src[j]].1.expectation && prev[j].1.ignored == (d[src[j]].1.ignored
                    && !args.include_ignored)) && (forall|j: int, k: int| 0 <= j < k < src.len() ==> src[j] < src[k]);
        let last = named.len() - 1;
        if sel.len() == prev.len() {
            assert(sel == prev);
            assert forall|j: int| 0 <= j < src0.len() implies 0 <= #[trigger] src0[j] < named.len() && sel[j].0
                == named[src0[j]].0@ && sel[j].1.func_id == named[src0[j]].1.func_id && sel[j].1.available_gas
                == named[src0[j]].1.available_gas && sel[j].1.expectation == named[src0[j]].1.expectation
                && sel[j].1.ignored == (named[src0[j]].1.ignored && !args.include_ignored) by {
                assert(d[src0[j]] == named[src0[j]]);
            }
            assert(src0.len() == sel.len());
        } else {
            let src = src0.push(last);
            assert forall|j: int| 0 <= j < src.len() implies 0 <= #[trigger] src[j] < named.len() && sel[j].0
                == named[src[j]].0@ && sel[j].1.func_id == named[src[j]].1.func_id && sel[j].1.available_gas
                == named[src[j]].1.available_gas && sel[j].1.expectation == named[src[j]].1.expectation
                && sel[j].1.ignored == (named[src[j]].1.ignored && !args.include_ignored) by {
                if j < src0.len() {
                    assert(src[j] == src0[j]);
                    assert(sel[j] == prev[j]);
                    assert(d[src0[j]] == named[src0[j]]);
                } else {
                    assert(src[j] == last);
                }
            }
            assert forall|j: int, k: int| 0 <= j < k < src.len() implies src[j] < src[k] by {
                if k < src0.len() {
                    assert(src[j] == src0[j] && src[k] == src0[k]);
                } else {
                    assert(src[j] == src0[j]);
                }
            }
            assert(src.len() == sel.len());
        }
    }
}

/// The summary after one more test: an ignored test is listed as ignored; a
/// test that ran passes exactly when it succeeded and was expected to, or
/// panicked and was expected to panic; otherwise it fails, and its result is
/// kept with it; a test that did not run is not listed.
pub proof fn law_summary_judges_each_run(
    named: Seq<(String, TestConfig)>,
    results: Seq<Option<RunResultValue>>,
    test: (String, TestConfig),
    result: Option<RunResultValue>,
)
    requires
        results.len() == named.len(),
    ensures
        ({
            let prev = summary_of(named, results);
            let next = summary_of(named.push(test), results.push(result));
            let name = test.0@;
            if test.1.ignored {
                next == (prev.0, prev.1, prev.2.push(name), prev.3)
            } else {
                match result {
                    Some(v) => if (v is Success && test.1.expectation is Success) || (v is Panic
                        && test.1.expectation is Panics) {
                        next == (prev.0.push(name), prev.1, prev.2, prev.3)
                    } else {
                        next == (prev.0, prev.1.push(name), prev.2, prev.3.push(v))
                    },
                    None => next == prev,
                }
            }
        }),
{
    assert(named.push(test).drop_last() =~= named);
    assert(results.push(result).drop_last() =~= results);
}

} // verus!
