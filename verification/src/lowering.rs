//! The flat lowered form of a function, as the statement-reordering pass reads it.
//!
//! Identifiers of variables, blocks and functions are plain integers; a location
//! is a block id and the index of a statement in it (the index equal to the number
//! of statements stands for the end of the block).
use vstd::prelude::*;

verus! {

/// Index of a variable in `FlatLowered::variables`.
pub type VariableId = usize;

/// Index of a block in `FlatLowered::blocks`; block 0 is the root.
pub type BlockId = usize;

/// Interned id of a lowered function.
pub type FunctionId = u64;

/// A block and the index of a statement in it.
pub type StatementLocation = (BlockId, usize);

/// `output = <literal>`; the value is kept as its big-endian bytes.
pub struct StatementLiteral {
    pub value: Vec<u8>,
    pub output: VariableId,
}

/// `outputs = function(inputs)`.
pub struct StatementCall {
    pub function: FunctionId,
    pub inputs: Vec<VariableId>,
    pub outputs: Vec<VariableId>,
}

/// `output = Struct { inputs }`.
pub struct StatementStructConstruct {
    pub inputs: Vec<VariableId>,
    pub output: VariableId,
}

/// `Struct { outputs } = input`.
pub struct StatementStructDestructure {
    pub input: VariableId,
    pub outputs: Vec<VariableId>,
}

/// `output = Enum::variant(input)`.
pub struct StatementEnumConstruct {
    pub variant: usize,
    pub input: VariableId,
    pub output: VariableId,
}

/// `(output_original, output_snapshot) = snapshot(input)`.
pub struct StatementSnapshot {
    pub input: VariableId,
    pub output_original: VariableId,
    pub output_snapshot: VariableId,
}

/// `output = *input`.
pub struct StatementDesnap {
    pub input: VariableId,
    pub output: VariableId,
}

pub enum Statement {
    Literal(StatementLiteral),
    Call(StatementCall),
    StructConstruct(StatementStructConstruct),
    StructDestructure(StatementStructDestructure),
    EnumConstruct(StatementEnumConstruct),
    Snapshot(StatementSnapshot),
    Desnap(StatementDesnap),
}

/// The mathematical value of a statement.
pub enum SpecStatement {
    Literal { value: Seq<u8>, output: VariableId },
    Call { function: FunctionId, inputs: Seq<VariableId>, outputs: Seq<VariableId> },
    StructConstruct { inputs: Seq<VariableId>, output: VariableId },
    StructDestructure { input: VariableId, outputs: Seq<VariableId> },
    EnumConstruct { variant: usize, input: VariableId, output: VariableId },
    Snapshot { input: VariableId, output_original: VariableId, output_snapshot: VariableId },
    Desnap { input: VariableId, output: VariableId },
}

impl SpecStatement {
    /// The variables that the statement reads, in order.
    pub open spec fn inputs(self) -> Seq<VariableId> {
        match self {
            SpecStatement::Literal { .. } => seq![],
            SpecStatement::Call { inputs, .. } => inputs,
            SpecStatement::StructConstruct { inputs, .. } => inputs,
            SpecStatement::StructDestructure { input, .. } => seq![input],
            SpecStatement::EnumConstruct { input, .. } => seq![input],
            SpecStatement::Snapshot { input, .. } => seq![input],
            SpecStatement::Desnap { input, .. } => seq![input],
        }
    }
}

impl View for Statement {
    type V = SpecStatement;

    open spec fn view(&self) -> SpecStatement {
        match self {
            Statement::Literal(s) => SpecStatement::Literal { value: s.value@, output: s.output },
            Statement::Call(s) => SpecStatement::Call {
                function: s.function,
                inputs: s.inputs@,
                outputs: s.outputs@,
            },
            Statement::StructConstruct(s) => SpecStatement::StructConstruct {
                inputs: s.inputs@,
                output: s.output,
            },
            Statement::StructDestructure(s) => SpecStatement::StructDestructure {
                input: s.input,
                outputs: s.outputs@,
            },
            Statement::EnumConstruct(s) => SpecStatement::EnumConstruct {
                variant: s.variant,
                input: s.input,
                output: s.output,
            },
            Statement::Snapshot(s) => SpecStatement::Snapshot {
                input: s.input,
                output_original: s.output_original,
                output_snapshot: s.output_snapshot,
            },
            Statement::Desnap(s) => SpecStatement::Desnap { input: s.input, output: s.output },
        }
    }
}

/// A copy of a vector of plain ids.
pub fn copy_ids(v: &Vec<usize>) -> (r: Vec<usize>)
    ensures
        r@ == v@,
{
    let mut r: Vec<usize> = Vec::new();
    let mut i: usize = 0;
    while i < v.len()
        invariant
            i <= v.len(),
            r@ == v@.take(i as int),
        decreases v.len() - i,
    {
        r.push(v[i]);
        i = i + 1;
        assert(r@ =~= v@.take(i as int));
    }
    assert(v@.take(v.len() as int) =~= v@);
    r
}

/// A copy of a vector of bytes.
pub fn copy_bytes(v: &Vec<u8>) -> (r: Vec<u8>)
    ensures
        r@ == v@,
{
    let mut r: Vec<u8> = Vec::new();
    let mut i: usize = 0;
    while i < v.len()
        invariant
            i <= v.len(),
            r@ == v@.take(i as int),
        decreases v.len() - i,
    {
        r.push(v[i]);
        i = i + 1;
        assert(r@ =~= v@.take(i as int));
    }
    assert(v@.take(v.len() as int) =~= v@);
    r
}

impl Statement {
    /// The variables that the statement reads, in order.
    pub fn inputs(&self) -> (r: Vec<VariableId>)
        ensures
            r@ == self@.inputs(),
    {
        match self {
            Statement::Literal(_) => Vec::new(),
            Statement::Call(s) => copy_ids(&s.inputs),
            Statement::StructConstruct(s) => copy_ids(&s.inputs),
            Statement::StructDestructure(s) => vec![s.input],
            Statement::EnumConstruct(s) => vec![s.input],
            Statement::Snapshot(s) => vec![s.input],
            Statement::Desnap(s) => vec![s.input],
        }
    }

    /// An equal statement.
    pub fn duplicate(&self) -> (r: Statement)
        ensures
            r@ == self@,
    {
        match self {
            Statement::Literal(s) => Statement::Literal(
                StatementLiteral { value: copy_bytes(&s.value), output: s.output },
            ),
            Statement::Call(s) => Statement::Call(
                StatementCall {
                    function: s.function,
                    inputs: copy_ids(&s.inputs),
                    outputs: copy_ids(&s.outputs),
                },
            ),
            Statement::StructConstruct(s) => Statement::StructConstruct(
                StatementStructConstruct { inputs: copy_ids(&s.inputs), output: s.output },
            ),
            Statement::StructDestructure(s) => Statement::StructDestructure(
                StatementStructDestructure { input: s.input, outputs: copy_ids(&s.outputs) },
            ),
            Statement::EnumConstruct(s) => Statement::EnumConstruct(
                StatementEnumConstruct { variant: s.variant, input: s.input, output: s.output },
            ),
            Statement::Snapshot(s) => Statement::Snapshot(
                StatementSnapshot {
                    input: s.input,
                    output_original: s.output_original,
                    output_snapshot: s.output_snapshot,
                },
            ),
            Statement::Desnap(s) => Statement::Desnap(
                StatementDesnap { input: s.input, output: s.output },
            ),
        }
    }
}

/// The source variables of a remapping, in order.
pub open spec fn remapping_sources(remapping: Seq<(VariableId, VariableId)>) -> Seq<VariableId> {
    remapping.map_values(|p: (VariableId, VariableId)| p.1)
}

/// A remapping of variables at a goto: pairs of (destination, source).
pub struct VarRemapping {
    pub remapping: Vec<(VariableId, VariableId)>,
}

impl VarRemapping {
    /// The source variables, in order.
    pub open spec fn sources(self) -> Seq<VariableId> {
        remapping_sources(self.remapping@)
    }

    /// The source variables, in order.
    pub fn values(&self) -> (r: Vec<VariableId>)
        ensures
            r@ == self.sources(),
    {
        let mut r: Vec<VariableId> = Vec::new();
        let mut i: usize = 0;
        while i < self.remapping.len()
            invariant
                i <= self.remapping.len(),
                r@ == self.sources().take(i as int),
            decreases self.remapping.len() - i,
        {
            r.push(self.remapping[i].1);
            i = i + 1;
            assert(r@ =~= self.sources().take(i as int));
        }
        assert(self.sources().take(self.remapping.len() as int) =~= self.sources());
        r
    }
}

/// A match at the end of a block: the variables it reads and the block of each arm.
pub struct MatchInfo {
    pub inputs: Vec<VariableId>,
    pub arms: Vec<BlockId>,
}

pub enum FlatBlockEnd {
    NotSet,
    Return(Vec<VariableId>),
    Panic(VariableId),
    Goto(BlockId, VarRemapping),
    Match { info: MatchInfo },
}

/// The mathematical value of a block end.
pub enum SpecBlockEnd {
    NotSet,
    Return(Seq<VariableId>),
    Panic(VariableId),
    /// The target block, and the remapping as (destination, source) pairs.
    Goto(BlockId, Seq<(VariableId, VariableId)>),
    Match { inputs: Seq<VariableId>, arms: Seq<BlockId> },
}

impl View for FlatBlockEnd {
    type V = SpecBlockEnd;

    open spec fn view(&self) -> SpecBlockEnd {
        match self {
            FlatBlockEnd::NotSet => SpecBlockEnd::NotSet,
            FlatBlockEnd::Return(vars) => SpecBlockEnd::Return(vars@),
            FlatBlockEnd::Panic(v) => SpecBlockEnd::Panic(*v),
            FlatBlockEnd::Goto(target, remapping) => SpecBlockEnd::Goto(*target, remapping.remapping@),
            FlatBlockEnd::Match { info } => SpecBlockEnd::Match {
                inputs: info.inputs@,
                arms: info.arms@,
            },
        }
    }
}

impl SpecBlockEnd {
    /// The blocks that control may pass to from this end.
    pub open spec fn successors(self) -> Seq<BlockId> {
        match self {
            SpecBlockEnd::Goto(target, _) => seq![target],
            SpecBlockEnd::Match { arms, .. } => arms,
            _ => seq![],
        }
    }
}

pub struct FlatBlock {
    pub statements: Vec<Statement>,
    pub end: FlatBlockEnd,
}

/// The mathematical value of a block.
pub struct SpecBlock {
    pub statements: Seq<SpecStatement>,
    pub end: SpecBlockEnd,
}

impl View for FlatBlock {
    type V = SpecBlock;

    open spec fn view(&self) -> SpecBlock {
        SpecBlock {
            statements: self.statements@.map_values(|s: Statement| s@),
            end: self.end@,
        }
    }
}

/// What the pass needs of a variable: whether it may be dropped.
pub struct Variable {
    pub droppable: bool,
}

pub struct FlatLowered {
    pub variables: Vec<Variable>,
    pub blocks: Vec<FlatBlock>,
}

/// The mathematical value of a lowered function.
pub struct SpecLowered {
    pub droppable: Seq<bool>,
    pub blocks: Seq<SpecBlock>,
}

impl View for FlatLowered {
    type V = SpecLowered;

    open spec fn view(&self) -> SpecLowered {
        SpecLowered {
            droppable: self.variables@.map_values(|v: Variable| v.droppable),
            blocks: self.blocks@.map_values(|b: FlatBlock| b@),
        }
    }
}

impl SpecLowered {
    /// `loc` names a statement of a block, or the end of a block.
    pub open spec fn valid_location(self, loc: StatementLocation) -> bool {
        &&& loc.0 < self.blocks.len()
        &&& loc.1 <= self.blocks[loc.0 as int].statements.len()
    }

    /// `loc` names a statement.
    pub open spec fn statement_location(self, loc: StatementLocation) -> bool {
        &&& loc.0 < self.blocks.len()
        &&& loc.1 < self.blocks[loc.0 as int].statements.len()
    }

    /// The statement at `loc`.
    pub open spec fn statement_at(self, loc: StatementLocation) -> SpecStatement {
        self.blocks[loc.0 as int].statements[loc.1 as int]
    }
}

} // verus!
