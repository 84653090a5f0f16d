# cairo_protostar

Verified pieces of the Cairo test tooling: finding and configuring tests,
selecting and judging test runs, building the CASM that calls each test, the
argument checks of the cheatcode libfuncs, and the statement-reordering pass
of the lowering phase. The library is written in Verus; each public function
states its result in its contract, and the laws that span functions are proof
functions next to them.

## Layout

- `src/lowering.rs`: the flat lowered form of a function (blocks, statements,
  block ends) with its mathematical view.
- `src/collections.rs`: the `OrderedHashMap` and `UnorderedHashSet` of
  `cairo_lang_utils` as the pass uses them, with contracts over what they hold.
- `src/reorder_statements.rs`: the backward analysis and the pass that moves
  definitions next to their use and removes dead statements; the laws
  `law_structure_preserved`, `law_only_movable_statements_move`,
  `law_nothing_to_move_unchanged`, `law_moves_go_forward`,
  `law_dead_statements_removed`, `law_merge_arm_order_irrelevant`,
  `law_no_statement_created`, `law_fixed_statements_keep_order`,
  `law_changes_fit` and `law_result_reorderable`.
- `src/test_collector.rs`: the configuration of a test from its attributes
  (`#[test]`, `#[ignore]`, `#[available_gas]`, `#[should_panic]`), with the
  diagnostics for misplaced or malformed attributes; the law
  `law_unread_attribute_ignored`.
- `src/test_runner.rs`: the test runner's view of attributes, the selection of
  tests by filter and ignore flags, the status of a run and the summary; the
  laws `law_selection_follows_args` and `law_no_filter_selects_all`.
- `src/casm_generator.rs`: test names, function lookup, entry points, the
  entry code of a test (its steps and its instructions), the plan that builds
  each test's entry code and the footer (`build_casm_plan`, and
  `checked_build_casm_plan`, which first checks that every dict manager's
  offset fits), the validation of the tests (each looked up among the
  program's functions, then its signature checked), and the bytecode with
  its hints.
- `src/cheatcodes.rs`: the argument checks of the cheatcode libfuncs and the
  code each one compiles to: its instructions with their hints, and for each
  branch its target, its output cells, its change of `ap` and the steps it
  runs (its gas cost).
- `src/felt.rs`, `src/text.rs`, `src/input_path.rs`: field elements and
  big-endian values, string comparisons, the input path check.
- `tests/`: tests of each module on concrete values.
- `app/`: the test runner program: the compiler and the virtual machine do
  the work, the library decides which functions are tests, which run, and
  how each run is judged.
