use cairo_protostar::lowering::{
    FlatBlock, FlatBlockEnd, FlatLowered, MatchInfo, Statement, StatementCall,
    StatementEnumConstruct, StatementLiteral, StatementSnapshot, StatementStructConstruct,
    StatementStructDestructure, VarRemapping, Variable,
};
use cairo_protostar::reorder_statements::reorder_statements;

const BOOL_NOT: u64 = 99;

fn variables(n: usize) -> Vec<Variable> {
    (0..n).map(|_| Variable { droppable: true }).collect()
}

fn literal(value: u8, output: usize) -> Statement {
    Statement::Literal(StatementLiteral { value: vec![value], output })
}

fn call(function: u64, inputs: Vec<usize>, outputs: Vec<usize>) -> Statement {
    Statement::Call(StatementCall { function, inputs, outputs })
}

fn block(statements: Vec<Statement>, end: FlatBlockEnd) -> FlatBlock {
    FlatBlock { statements, end }
}

/// A short description of a statement: its kind and its first output.
fn shape(s: &Statement) -> (char, usize) {
    match s {
        Statement::Literal(l) => ('l', l.output),
        Statement::Call(c) => ('c', c.outputs[0]),
        Statement::StructConstruct(c) => ('s', c.output),
        Statement::StructDestructure(d) => ('d', d.input),
        Statement::EnumConstruct(e) => ('e', e.output),
        Statement::Snapshot(s) => ('p', s.output_snapshot),
        Statement::Desnap(d) => ('n', d.output),
    }
}

fn shapes(b: &FlatBlock) -> Vec<(char, usize)> {
    b.statements.iter().map(shape).collect()
}

#[test]
fn literal_moves_next_to_its_use() {
    let mut lowered = FlatLowered {
        variables: variables(3),
        blocks: vec![block(
            vec![literal(5, 0), call(7, vec![2], vec![1])],
            FlatBlockEnd::Return(vec![0, 1]),
        )],
    };
    reorder_statements(BOOL_NOT, &mut lowered);
    assert_eq!(shapes(&lowered.blocks[0]), vec![('c', 1), ('l', 0)]);
    assert!(matches!(&lowered.blocks[0].end, FlatBlockEnd::Return(v) if *v == vec![0, 1]));
}

#[test]
fn unused_literal_is_removed() {
    let mut lowered = FlatLowered {
        variables: variables(1),
        blocks: vec![block(vec![literal(7, 0)], FlatBlockEnd::Return(vec![]))],
    };
    reorder_statements(BOOL_NOT, &mut lowered);
    assert!(lowered.blocks[0].statements.is_empty());
}

#[test]
fn movable_call_moves_into_the_arm_that_uses_it() {
    let mut lowered = FlatLowered {
        variables: variables(3),
        blocks: vec![
            block(
                vec![call(BOOL_NOT, vec![0], vec![1])],
                FlatBlockEnd::Match { info: MatchInfo { inputs: vec![2], arms: vec![1, 2] } },
            ),
            block(vec![], FlatBlockEnd::Return(vec![1])),
            block(vec![], FlatBlockEnd::Return(vec![])),
        ],
    };
    reorder_statements(BOOL_NOT, &mut lowered);
    assert!(lowered.blocks[0].statements.is_empty());
    assert_eq!(shapes(&lowered.blocks[1]), vec![('c', 1)]);
    assert!(lowered.blocks[2].statements.is_empty());
}

#[test]
fn value_used_in_two_arms_stays_before_the_match() {
    let mut lowered = FlatLowered {
        variables: variables(3),
        blocks: vec![
            block(
                vec![literal(5, 1)],
                FlatBlockEnd::Match { info: MatchInfo { inputs: vec![2], arms: vec![1, 2] } },
            ),
            block(vec![], FlatBlockEnd::Return(vec![1])),
            block(vec![], FlatBlockEnd::Return(vec![1])),
        ],
    };
    reorder_statements(BOOL_NOT, &mut lowered);
    assert_eq!(shapes(&lowered.blocks[0]), vec![('l', 1)]);
    assert!(lowered.blocks[1].statements.is_empty());
    assert!(lowered.blocks[2].statements.is_empty());
}

#[test]
fn literals_for_one_call_keep_their_order() {
    let mut lowered = FlatLowered {
        variables: variables(3),
        blocks: vec![block(
            vec![literal(1, 0), literal(2, 1), call(7, vec![0, 1], vec![2])],
            FlatBlockEnd::Return(vec![2]),
        )],
    };
    reorder_statements(BOOL_NOT, &mut lowered);
    assert_eq!(shapes(&lowered.blocks[0]), vec![('l', 0), ('l', 1), ('c', 2)]);
}

#[test]
fn literal_moves_to_the_goto_that_uses_it() {
    let mut lowered = FlatLowered {
        variables: variables(4),
        blocks: vec![
            block(
                vec![literal(3, 0), call(7, vec![2], vec![1])],
                FlatBlockEnd::Goto(1, VarRemapping { remapping: vec![(3, 0)] }),
            ),
            block(vec![], FlatBlockEnd::Return(vec![3, 1])),
        ],
    };
    reorder_statements(BOOL_NOT, &mut lowered);
    assert_eq!(shapes(&lowered.blocks[0]), vec![('c', 1), ('l', 0)]);
}

#[test]
fn unused_destructure_of_droppable_value_is_removed() {
    let mut lowered = FlatLowered {
        variables: variables(3),
        blocks: vec![block(
            vec![Statement::StructDestructure(StatementStructDestructure {
                input: 0,
                outputs: vec![1, 2],
            })],
            FlatBlockEnd::Return(vec![]),
        )],
    };
    reorder_statements(BOOL_NOT, &mut lowered);
    assert!(lowered.blocks[0].statements.is_empty());
}

#[test]
fn destructure_of_value_that_cannot_be_dropped_stays() {
    let mut vars = variables(3);
    vars[0] = Variable { droppable: false };
    let mut lowered = FlatLowered {
        variables: vars,
        blocks: vec![block(
            vec![Statement::StructDestructure(StatementStructDestructure {
                input: 0,
                outputs: vec![1, 2],
            })],
            FlatBlockEnd::Return(vec![]),
        )],
    };
    reorder_statements(BOOL_NOT, &mut lowered);
    assert_eq!(shapes(&lowered.blocks[0]), vec![('d', 0)]);
}

#[test]
fn unused_empty_struct_is_removed_but_a_full_one_stays() {
    let mut lowered = FlatLowered {
        variables: variables(3),
        blocks: vec![block(
            vec![
                Statement::StructConstruct(StatementStructConstruct { inputs: vec![], output: 0 }),
                Statement::StructConstruct(StatementStructConstruct { inputs: vec![2], output: 1 }),
            ],
            FlatBlockEnd::Return(vec![]),
        )],
    };
    reorder_statements(BOOL_NOT, &mut lowered);
    assert_eq!(shapes(&lowered.blocks[0]), vec![('s', 1)]);
}

#[test]
fn nothing_movable_leaves_the_function_unchanged() {
    let mut lowered = FlatLowered {
        variables: variables(6),
        blocks: vec![block(
            vec![
                call(7, vec![0], vec![1]),
                Statement::Snapshot(StatementSnapshot {
                    input: 1,
                    output_original: 2,
                    output_snapshot: 3,
                }),
                Statement::EnumConstruct(StatementEnumConstruct { variant: 1, input: 2, output: 4 }),
            ],
            FlatBlockEnd::Return(vec![]),
        )],
    };
    reorder_statements(BOOL_NOT, &mut lowered);
    assert_eq!(shapes(&lowered.blocks[0]), vec![('c', 1), ('p', 3), ('e', 4)]);
}

#[test]
fn function_without_blocks_is_left_alone() {
    let mut lowered = FlatLowered { variables: variables(1), blocks: vec![] };
    reorder_statements(BOOL_NOT, &mut lowered);
    assert!(lowered.blocks.is_empty());
    assert_eq!(lowered.variables.len(), 1);
}

#[test]
fn arm_order_does_not_change_the_result() {
    let build = |arms: Vec<usize>| FlatLowered {
        variables: variables(4),
        blocks: vec![
            block(
                vec![literal(1, 1), literal(2, 3)],
                FlatBlockEnd::Match { info: MatchInfo { inputs: vec![2], arms } },
            ),
            block(vec![], FlatBlockEnd::Return(vec![1])),
            block(vec![], FlatBlockEnd::Return(vec![1, 3])),
        ],
    };
    let mut first = build(vec![1, 2]);
    let mut second = build(vec![2, 1]);
    reorder_statements(BOOL_NOT, &mut first);
    reorder_statements(BOOL_NOT, &mut second);
    // `v1` is used in both arms and stays before the match; `v3` moves into the arm that reads it.
    for lowered in [&first, &second] {
        assert_eq!(shapes(&lowered.blocks[0]), vec![('l', 1)]);
        assert!(lowered.blocks[1].statements.is_empty());
        assert_eq!(shapes(&lowered.blocks[2]), vec![('l', 3)]);
    }
}

#[test]
fn goto_remapping_is_kept() {
    let mut lowered = FlatLowered {
        variables: variables(4),
        blocks: vec![
            block(
                vec![literal(3, 0)],
                FlatBlockEnd::Goto(1, VarRemapping { remapping: vec![(3, 0), (2, 1)] }),
            ),
            block(vec![], FlatBlockEnd::Return(vec![3, 2])),
        ],
    };
    reorder_statements(BOOL_NOT, &mut lowered);
    match &lowered.blocks[0].end {
        FlatBlockEnd::Goto(target, remapping) => {
            assert_eq!(*target, 1);
            assert_eq!(remapping.remapping, vec![(3, 0), (2, 1)]);
        }
        _ => panic!("expected a goto"),
    }
}

#[test]
fn unreachable_panic_block_is_left_alone() {
    let mut lowered = FlatLowered {
        variables: variables(2),
        blocks: vec![
            block(vec![literal(4, 0)], FlatBlockEnd::Return(vec![])),
            block(vec![literal(5, 1)], FlatBlockEnd::Panic(1)),
        ],
    };
    reorder_statements(BOOL_NOT, &mut lowered);
    assert!(lowered.blocks[0].statements.is_empty());
    assert_eq!(shapes(&lowered.blocks[1]), vec![('l', 1)]);
    assert!(matches!(lowered.blocks[1].end, FlatBlockEnd::Panic(1)));
}

#[test]
fn statements_that_cannot_move_keep_their_order() {
    let mut lowered = FlatLowered {
        variables: variables(6),
        blocks: vec![block(
            vec![
                literal(1, 0),
                call(7, vec![5], vec![1]),
                literal(2, 2),
                call(8, vec![1], vec![3]),
                call(9, vec![0, 3], vec![4]),
            ],
            FlatBlockEnd::Return(vec![2, 4]),
        )],
    };
    reorder_statements(BOOL_NOT, &mut lowered);
    assert_eq!(
        shapes(&lowered.blocks[0]),
        vec![('c', 1), ('c', 3), ('l', 0), ('c', 4), ('l', 2)]
    );
}

#[test]
fn unreachable_loop_is_left_alone() {
    let mut lowered = FlatLowered {
        variables: variables(2),
        blocks: vec![
            block(vec![literal(4, 0)], FlatBlockEnd::Return(vec![0])),
            block(vec![literal(5, 1)], FlatBlockEnd::Goto(2, VarRemapping { remapping: vec![] })),
            block(vec![], FlatBlockEnd::Goto(1, VarRemapping { remapping: vec![] })),
        ],
    };
    reorder_statements(BOOL_NOT, &mut lowered);
    assert_eq!(shapes(&lowered.blocks[0]), vec![('l', 0)]);
    assert_eq!(shapes(&lowered.blocks[1]), vec![('l', 1)]);
    assert!(matches!(lowered.blocks[2].end, FlatBlockEnd::Goto(1, _)));
}

#[test]
fn the_result_can_be_reordered_again() {
    let mut lowered = FlatLowered {
        variables: variables(4),
        blocks: vec![
            block(
                vec![literal(1, 0), call(BOOL_NOT, vec![0], vec![1])],
                FlatBlockEnd::Goto(1, VarRemapping { remapping: vec![] }),
            ),
            block(vec![call(7, vec![1], vec![2])], FlatBlockEnd::Return(vec![2])),
        ],
    };
    reorder_statements(BOOL_NOT, &mut lowered);
    let once: Vec<Vec<(char, usize)>> = lowered.blocks.iter().map(shapes).collect();
    assert_eq!(once, vec![vec![], vec![('l', 0), ('c', 1), ('c', 2)]]);
    reorder_statements(BOOL_NOT, &mut lowered);
    let twice: Vec<Vec<(char, usize)>> = lowered.blocks.iter().map(shapes).collect();
    assert_eq!(twice, once);
}
