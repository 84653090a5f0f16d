//! Reorders the statements of a lowered function so that variable definitions
//! move closer to their usage; statements with no side effects whose outputs
//! are unused are removed.
//!
//! A backward analysis over the blocks records, for each variable, the
//! location of its next use. A movable statement (a literal, an empty struct
//! construction, or a call to one of the movable functions) whose output has a
//! next use is moved to just before that use; one whose output has none is
//! removed. A destructure of a droppable variable whose outputs are all unused
//! is removed as well.
use vstd::prelude::*;
use cairo_lang_utils::ordered_hash_map::OrderedHashMap;
use cairo_lang_utils::unordered_hash_set::UnorderedHashSet;
use std::cmp::Reverse;
use std::collections::hash_map::RandomState;
use itertools::Itertools;
use crate::collections::{
    changes_default, changes_into_entries, changes_push, changes_view, function_set_contains,
    function_set_of, function_set_view, next_use_clone, next_use_contains_key, next_use_default,
    next_use_entries, next_use_insert, next_use_swap_remove, next_use_view, BlockChange,
};
use crate::lowering::{
    remapping_sources, BlockId, FlatBlock, FlatBlockEnd, FlatLowered, FunctionId, MatchInfo, SpecBlock, SpecBlockEnd,
    SpecLowered, SpecStatement, Statement, StatementCall, StatementLocation, VarRemapping,
    VariableId,
};

verus! {

/// For each variable, the location of its next use.
pub type NextUse = Map<VariableId, StatementLocation>;

/// A recorded move: the location of a statement, and where it goes
/// (`None`: it is removed).
pub type Move = (StatementLocation, Option<StatementLocation>);

/// `info`, where each of `vars` now has its next use at `loc`.
pub open spec fn demand_all(info: NextUse, vars: Seq<VariableId>, loc: StatementLocation) -> NextUse {
    info.union_prefer_right(Map::new(|v: VariableId| vars.contains(v), |v: VariableId| loc))
}

/// The demand that a moved statement puts on its inputs, one input after the
/// other: an input with no next use yet gets the statement's new place
/// `target`; one that already has one gets `loc`, the statement's old place.
pub open spec fn demand_inputs(
    info: NextUse,
    inputs: Seq<VariableId>,
    loc: StatementLocation,
    target: StatementLocation,
) -> NextUse
    decreases inputs.len(),
{
    if inputs.len() == 0 {
        info
    } else {
        let m = demand_inputs(info, inputs.drop_last(), loc, target);
        let v = inputs.last();
        m.insert(
            v,
            if m.dom().contains(v) {
                loc
            } else {
                target
            },
        )
    }
}

/// A movable statement at `loc` defining `var`: its move is recorded, with the
/// next use of `var` as its target (or none), and `var` is no longer demanded.
pub open spec fn moved_definition(
    info: NextUse,
    loc: StatementLocation,
    var: VariableId,
    inputs: Seq<VariableId>,
) -> (NextUse, Option<Move>) {
    let rest = info.remove(var);
    if info.dom().contains(var) {
        (demand_inputs(rest, inputs, loc, info[var]), Some((loc, Some(info[var]))))
    } else {
        (rest, Some((loc, None)))
    }
}

/// What visiting the statement `stmt` at `loc` does to the next uses, and the
/// move it records, if any.
pub open spec fn visit_stmt_spec(
    movable: Set<FunctionId>,
    droppable: Seq<bool>,
    info: NextUse,
    loc: StatementLocation,
    stmt: SpecStatement,
) -> (NextUse, Option<Move>) {
    match stmt {
        SpecStatement::Call { function, inputs, outputs } => {
            if movable.contains(function) {
                moved_definition(info, loc, outputs[0], inputs)
            } else {
                (demand_all(info, inputs, loc), None)
            }
        },
        SpecStatement::Literal { output, .. } => moved_definition(info, loc, output, seq![]),
        SpecStatement::StructConstruct { inputs, output } => {
            if inputs.len() == 0 {
                moved_definition(info, loc, output, seq![])
            } else {
                (demand_all(info, inputs, loc), None)
            }
        },
        SpecStatement::StructDestructure { input, outputs } => {
            if destructure_removable(droppable, info, input, outputs) {
                (info, Some((loc, None)))
            } else {
                (demand_all(info, seq![input], loc), None)
            }
        },
        _ => (demand_all(info, stmt.inputs(), loc), None),
    }
}

/// A destructure of a droppable `input` whose `outputs` have no next use can be removed.
pub open spec fn destructure_removable(
    droppable: Seq<bool>,
    info: NextUse,
    input: VariableId,
    outputs: Seq<VariableId>,
) -> bool {
    &&& droppable[input as int]
    &&& forall|i: int| 0 <= i < outputs.len() ==> !info.dom().contains(#[trigger] outputs[i])
}

/// One arm's next uses merged into `acc`: a variable used in both is used at
/// the match `loc`.
pub open spec fn merge_step(acc: NextUse, arm: NextUse, loc: StatementLocation) -> NextUse {
    Map::new(
        |v: VariableId| acc.dom().contains(v) || arm.dom().contains(v),
        |v: VariableId|
            if acc.dom().contains(v) && arm.dom().contains(v) {
                loc
            } else if acc.dom().contains(v) {
                acc[v]
            } else {
                arm[v]
            },
    )
}

/// The next uses of all arms merged: a variable used in several arms is used
/// at the match `loc`.
pub open spec fn merge_infos(infos: Seq<NextUse>, loc: StatementLocation) -> NextUse
    decreases infos.len(),
{
    if infos.len() == 0 {
        Map::empty()
    } else {
        merge_step(merge_infos(infos.drop_last(), loc), infos.last(), loc)
    }
}

/// The next uses at a match at `loc` with the given inputs.
pub open spec fn merge_match_spec(
    infos: Seq<NextUse>,
    inputs: Seq<VariableId>,
    loc: StatementLocation,
) -> NextUse {
    demand_all(merge_infos(infos, loc), inputs, loc)
}

/// `rank` orders the blocks that control reaches from the root so that
/// control only passes from them to blocks of lower rank, each a block of the
/// function: those blocks form an acyclic graph.
pub open spec fn valid_rank(l: SpecLowered, rank: Seq<nat>) -> bool {
    &&& rank.len() == l.blocks.len()
    &&& forall|b: int, i: int|
        0 <= b < l.blocks.len() && reachable(l, b) && 0 <= i < l.blocks[b].end.successors().len() ==> (
        #[trigger] l.blocks[b].end.successors()[i]) < l.blocks.len() && rank[l.blocks[b].end.successors()[i] as int]
            < rank[b]
}

/// The location of the end of block `b`.
pub open spec fn end_location(l: SpecLowered, b: BlockId) -> StatementLocation {
    (b, l.blocks[b as int].statements.len() as usize)
}

/// Visits the first `k` statements of block `b`, from the last one to the first.
pub open spec fn visit_stmts(
    movable: Set<FunctionId>,
    droppable: Seq<bool>,
    b: BlockId,
    stmts: Seq<SpecStatement>,
    k: nat,
    info: NextUse,
    moves: Seq<Move>,
) -> (NextUse, Seq<Move>)
    decreases k,
{
    if k == 0 {
        (info, moves)
    } else {
        let r = visit_stmt_spec(movable, droppable, info, (b, (k - 1) as usize), stmts[k - 1]);
        visit_stmts(movable, droppable, b, stmts, (k - 1) as nat, r.0, record(moves, r.1))
    }
}

/// The information at the start of block `b`, with the cache of the blocks
/// already analyzed and the moves recorded, before and after. A block is
/// analyzed once: afterwards its information comes from the cache.
pub open spec fn analyze_block(
    movable: Set<FunctionId>,
    l: SpecLowered,
    rank: Seq<nat>,
    b: BlockId,
    cache: Map<BlockId, NextUse>,
    moves: Seq<Move>,
) -> (NextUse, Map<BlockId, NextUse>, Seq<Move>)
    decreases rank[b as int], 2nat, 0nat,
    when valid_rank(l, rank) && b < l.blocks.len() && reachable(l, b as int)
{
    if cache.dom().contains(b) {
        (cache[b], cache, moves)
    } else {
        let e = analyze_end(movable, l, rank, b, cache, moves);
        let stmts = l.blocks[b as int].statements;
        let v = visit_stmts(movable, l.droppable, b, stmts, stmts.len(), e.0, e.2);
        (v.0, e.1.insert(b, v.0), v.1)
    }
}

/// The information at the end of block `b`.
pub open spec fn analyze_end(
    movable: Set<FunctionId>,
    l: SpecLowered,
    rank: Seq<nat>,
    b: BlockId,
    cache: Map<BlockId, NextUse>,
    moves: Seq<Move>,
) -> (NextUse, Map<BlockId, NextUse>, Seq<Move>)
    decreases rank[b as int], 1nat, 0nat,
    when valid_rank(l, rank) && b < l.blocks.len() && reachable(l, b as int)
{
    let loc = end_location(l, b);
    match l.blocks[b as int].end {
        SpecBlockEnd::Goto(target, remapping) => {
            proof {
                assert(l.blocks[b as int].end.successors()[0] == target);
            }
            let r = analyze_block(movable, l, rank, target, cache, moves);
            (demand_all(r.0, remapping_sources(remapping), loc), r.1, r.2)
        },
        SpecBlockEnd::Return(vars) => (demand_all(Map::empty(), vars, loc), cache, moves),
        SpecBlockEnd::Match { inputs, arms } => {
            let r = analyze_arms(movable, l, rank, b, arms.len(), cache, moves);
            (merge_match_spec(r.0, inputs, loc), r.1, r.2)
        },
        _ => (Map::empty(), cache, moves),
    }
}

/// The information at the start of each of the first `k` arms of the match
/// that ends block `b`, analyzed in order.
pub open spec fn analyze_arms(
    movable: Set<FunctionId>,
    l: SpecLowered,
    rank: Seq<nat>,
    b: BlockId,
    k: nat,
    cache: Map<BlockId, NextUse>,
    moves: Seq<Move>,
) -> (Seq<NextUse>, Map<BlockId, NextUse>, Seq<Move>)
    decreases rank[b as int], 0nat, k,
    when valid_rank(l, rank) && b < l.blocks.len() && reachable(l, b as int) && k <= l.blocks[b as int].end.successors().len()
{
    if k == 0 {
        (Seq::empty(), cache, moves)
    } else {
        let r = analyze_arms(movable, l, rank, b, (k - 1) as nat, cache, moves);
        let arm = l.blocks[b as int].end.successors()[k - 1];
        proof {
            assert(l.blocks[b as int].end.successors()[k - 1] == arm);
        }
        let i = analyze_block(movable, l, rank, arm, r.1, r.2);
        (r.0.push(i.0), i.1, i.2)
    }
}

/// The views of a list of infos.
pub open spec fn info_views(infos: Seq<ReorderStatementsInfo>) -> Seq<NextUse> {
    infos.map_values(|i: ReorderStatementsInfo| i@)
}

/// What a prefix one longer contains.
proof fn lemma_take_contains<A>(s: Seq<A>, i: int)
    requires
        0 <= i < s.len(),
    ensures
        forall|v: A| #[trigger] s.take(i + 1).contains(v) <==> (s.take(i).contains(v) || v == s[i]),
{
    assert forall|v: A| #[trigger] s.take(i + 1).contains(v) <==> (s.take(i).contains(v) || v == s[i]) by {
        if s.take(i + 1).contains(v) {
            let k = choose|k: int| 0 <= k < i + 1 && #[trigger] s.take(i + 1)[k] == v;
            if k < i {
                assert(s.take(i)[k] == v);
            }
        }
        if s.take(i).contains(v) {
            let k = choose|k: int| 0 <= k < i && #[trigger] s.take(i)[k] == v;
            assert(s.take(i + 1)[k] == v);
        }
        if v == s[i] {
            assert(s.take(i + 1)[i] == v);
        }
    }
}

/// The information that the analysis keeps at a point of the function.
pub struct ReorderStatementsInfo {
    /// A mapping from a variable to a candidate location that it can be moved to.
    /// If the variable is used in several match arms, its next use is the match.
    next_use: OrderedHashMap<VariableId, StatementLocation, RandomState>,
}

impl View for ReorderStatementsInfo {
    type V = NextUse;

    closed spec fn view(&self) -> NextUse {
        next_use_view(self.next_use)
    }
}

impl ReorderStatementsInfo {
    /// No variable has a next use.
    pub fn new() -> (r: Self)
        ensures
            r@ == Map::<VariableId, StatementLocation>::empty(),
    {
        let r = ReorderStatementsInfo { next_use: next_use_default() };
        assert(r@ =~= Map::<VariableId, StatementLocation>::empty());
        r
    }

    /// The same information.
    pub fn duplicate(&self) -> (r: Self)
        ensures
            r@ == self@,
    {
        ReorderStatementsInfo { next_use: next_use_clone(&self.next_use) }
    }

    /// Each of `vars` gets its next use at `loc`.
    fn demand(&mut self, vars: &Vec<VariableId>, loc: StatementLocation)
        ensures
            final(self)@ == demand_all(old(self)@, vars@, loc),
    {
        let ghost start = self@;
        let mut i: usize = 0;
        while i < vars.len()
            invariant
                i <= vars.len(),
                self@ == demand_all(start, vars@.take(i as int), loc),
            decreases vars.len() - i,
        {
            next_use_insert(&mut self.next_use, vars[i], loc);
            i = i + 1;
            proof {
                lemma_take_contains(vars@, (i - 1) as int);
            }
            assert(self@ =~= demand_all(start, vars@.take(i as int), loc));
        }
        assert(vars@.take(vars.len() as int) =~= vars@);
    }
}

/// `moves`, with `m` recorded if there is one.
pub open spec fn record(moves: Seq<Move>, m: Option<Move>) -> Seq<Move> {
    match m {
        Some(mv) => moves.push(mv),
        None => moves,
    }
}

/// The pass can visit `stmt`: a call to a movable function has exactly one
/// output, and the input of a destructure is a variable of the function.
pub open spec fn visitable(movable: Set<FunctionId>, droppable: Seq<bool>, stmt: SpecStatement) -> bool {
    match stmt {
        SpecStatement::Call { function, outputs, .. } => movable.contains(function) ==> outputs.len()
            == 1,
        SpecStatement::StructDestructure { input, .. } => input < droppable.len(),
        _ => true,
    }
}

/// The keys of a list of entries.
pub open spec fn entry_keys(entries: Seq<(VariableId, StatementLocation)>) -> Set<VariableId> {
    Set::new(|v: VariableId| exists|k: int| 0 <= k < entries.len() && #[trigger] entries[k].0 == v)
}

/// The state of the pass: the function it reads, the functions whose calls may
/// be moved, and the moves recorded so far.
pub struct ReorderStatementsContext<'a> {
    lowered: &'a FlatLowered,
    /// The functions whose calls can be moved.
    moveable_functions: UnorderedHashSet<FunctionId, RandomState>,
    statement_to_move: Vec<Move>,
}

impl<'a> ReorderStatementsContext<'a> {
    /// The function that the pass reads.
    pub closed spec fn lowered_view(&self) -> SpecLowered {
        self.lowered@
    }

    /// The functions whose calls can be moved.
    pub closed spec fn movable(&self) -> Set<FunctionId> {
        function_set_view(self.moveable_functions)
    }

    /// The moves recorded so far, in order.
    pub closed spec fn moves(&self) -> Seq<Move> {
        self.statement_to_move@
    }

    /// A context for `lowered` that may move calls to `movable_function`.
    pub fn new(lowered: &'a FlatLowered, movable_function: FunctionId) -> (r: Self)
        ensures
            r.lowered_view() == lowered@,
            r.movable() == set![movable_function],
            r.moves() == Seq::<Move>::empty(),
    {
        ReorderStatementsContext {
            lowered,
            moveable_functions: function_set_of(movable_function),
            statement_to_move: Vec::new(),
        }
    }

    /// The recorded moves, in order.
    pub fn into_moves(self) -> (r: Vec<Move>)
        ensures
            r@ == self.moves(),
    {
        self.statement_to_move
    }

    fn call_can_be_moved(&self, stmt: &StatementCall) -> (r: bool)
        ensures
            r == self.movable().contains(stmt.function),
    {
        function_set_contains(&self.moveable_functions, stmt.function)
    }

    /// Whether none of `vars` has a next use.
    fn all_unused(info: &ReorderStatementsInfo, vars: &Vec<VariableId>) -> (r: bool)
        ensures
            r == (forall|i: int| 0 <= i < vars@.len() ==> !info@.dom().contains(#[trigger] vars@[i])),
    {
        let mut i: usize = 0;
        while i < vars.len()
            invariant
                i <= vars.len(),
                forall|k: int| 0 <= k < i ==> !info@.dom().contains(#[trigger] vars@[k]),
            decreases vars.len() - i,
        {
            if next_use_contains_key(&info.next_use, vars[i]) {
                return false;
            }
            i = i + 1;
        }
        true
    }

    /// Visits the statement `stmt` at `statement_location`, going backwards.
    pub fn visit_stmt(
        &mut self,
        info: &mut ReorderStatementsInfo,
        statement_location: StatementLocation,
        stmt: &Statement,
    )
        requires
            visitable(old(self).movable(), old(self).lowered_view().droppable, stmt@),
        ensures
            final(self).lowered_view() == old(self).lowered_view(),
            final(self).movable() == old(self).movable(),
            final(info)@ == visit_stmt_spec(
                old(self).movable(),
                old(self).lowered_view().droppable,
                old(info)@,
                statement_location,
                stmt@,
            ).0,
            final(self).moves() == record(
                old(self).moves(),
                visit_stmt_spec(
                    old(self).movable(),
                    old(self).lowered_view().droppable,
                    old(info)@,
                    statement_location,
                    stmt@,
                ).1,
            ),
    {
        let ghost info0 = info@;
        let var_to_move: VariableId = match stmt {
            Statement::Call(call) => {
                if self.call_can_be_moved(call) {
                    call.outputs[0]
                } else {
                    let inputs = stmt.inputs();
                    info.demand(&inputs, statement_location);
                    return ;
                }
            },
            Statement::Literal(lit) => lit.output,
            Statement::StructConstruct(construct) => {
                if construct.inputs.len() == 0 {
                    construct.output
                } else {
                    let inputs = stmt.inputs();
                    info.demand(&inputs, statement_location);
                    return ;
                }
            },
            Statement::StructDestructure(destructure) => {
                assert(self.lowered@.droppable[destructure.input as int]
                    == self.lowered.variables@[destructure.input as int].droppable);
                if self.lowered.variables[destructure.input].droppable && Self::all_unused(
                    info,
                    &destructure.outputs,
                ) {
                    self.statement_to_move.push((statement_location, None));
                    return ;
                } else {
                    let inputs = stmt.inputs();
                    info.demand(&inputs, statement_location);
                    assert(inputs@ =~= seq![destructure.input]);
                    assert(!destructure_removable(self.lowered@.droppable, info0, destructure.input, destructure.outputs@));
                    return ;
                }
            },
            _ => {
                let inputs = stmt.inputs();
                info.demand(&inputs, statement_location);
                return ;
            },
        };
        let optional_target_location = next_use_swap_remove(&mut info.next_use, var_to_move);
        if let Some(target_location) = optional_target_location {
            // If the statement is not removed add demand for its inputs.
            let inputs = stmt.inputs();
            let ghost rest = info0.remove(var_to_move);
            let mut i: usize = 0;
            while i < inputs.len()
                invariant
                    i <= inputs.len(),
                    info@ == demand_inputs(rest, inputs@.take(i as int), statement_location, target_location),
                decreases inputs.len() - i,
            {
                let v = inputs[i];
                if next_use_contains_key(&info.next_use, v) {
                    next_use_insert(&mut info.next_use, v, statement_location);
                } else {
                    next_use_insert(&mut info.next_use, v, target_location);
                }
                assert(inputs@.take(i + 1).drop_last() =~= inputs@.take(i as int));
                i = i + 1;
            }
            assert(inputs@.take(inputs.len() as int) =~= inputs@);
        }
        self.statement_to_move.push((statement_location, optional_target_location));
    }

    /// Visits a goto at `statement_location`: the sources of the remapping are used there.
    pub fn visit_goto(
        &mut self,
        info: &mut ReorderStatementsInfo,
        statement_location: StatementLocation,
        target_block_id: BlockId,
        remapping: &VarRemapping,
    )
        ensures
            final(self).lowered_view() == old(self).lowered_view(),
            final(self).movable() == old(self).movable(),
            final(self).moves() == old(self).moves(),
            final(info)@ == demand_all(old(info)@, remapping.sources(), statement_location),
    {
        let sources = remapping.values();
        info.demand(&sources, statement_location);
    }

    /// The information before a match at `statement_location`, from that of its arms.
    pub fn merge_match(
        &mut self,
        statement_location: StatementLocation,
        match_info: &MatchInfo,
        infos: &Vec<ReorderStatementsInfo>,
    ) -> (r: ReorderStatementsInfo)
        ensures
            final(self).lowered_view() == old(self).lowered_view(),
            final(self).movable() == old(self).movable(),
            final(self).moves() == old(self).moves(),
            r@ == merge_match_spec(info_views(infos@), match_info.inputs@, statement_location),
    {
        let mut info = ReorderStatementsInfo::new();
        let mut a: usize = 0;
        while a < infos.len()
            invariant
                a <= infos.len(),
                info@ == merge_infos(info_views(infos@).take(a as int), statement_location),
            decreases infos.len() - a,
        {
            let ghost prev = info@;
            let ghost arm = infos@[a as int]@;
            let entries = next_use_entries(&infos[a].next_use);
            let mut j: usize = 0;
            while j < entries.len()
                invariant
                    j <= entries.len(),
                    arm == next_use_view(infos@[a as int].next_use),
                    forall|x: int, y: int| 0 <= x < y < entries@.len() ==> entries@[x].0 != entries@[y].0,
                    forall|x: int|
                        0 <= x < entries@.len() ==> #[trigger] arm.dom().contains(entries@[x].0)
                            && arm[entries@[x].0] == entries@[x].1,
                    info@ == merge_step(prev, arm.restrict(entry_keys(entries@.take(j as int))), statement_location),
                decreases entries.len() - j,
            {
                let (var_id, location) = entries[j];
                let ghost keys = entry_keys(entries@.take(j as int));
                let ghost keys1 = entry_keys(entries@.take(j + 1));
                assert(keys1 =~= keys.insert(var_id)) by {
                    assert(entries@.take(j + 1)[j as int].0 == var_id);
                    assert forall|v: VariableId| keys.contains(v) implies keys1.contains(v) by {
                        let k = choose|k: int| 0 <= k < j && #[trigger] entries@.take(j as int)[k].0 == v;
                        assert(entries@.take(j + 1)[k].0 == v);
                    }
                    assert forall|v: VariableId| keys1.contains(v) implies keys.contains(v) || v == var_id by {
                        let k = choose|k: int| 0 <= k < j + 1 && #[trigger] entries@.take(j + 1)[k].0 == v;
                        if k < j {
                            assert(entries@.take(j as int)[k].0 == v);
                        }
                    }
                }
                assert(!keys.contains(var_id)) by {
                    if keys.contains(var_id) {
                        let k = choose|k: int| 0 <= k < j && #[trigger] entries@.take(j as int)[k].0 == var_id;
                        assert(entries@[k].0 == var_id);
                    }
                }
                if next_use_contains_key(&info.next_use, var_id) {
                    // A variable that is used in several arms can be moved to before the match.
                    next_use_insert(&mut info.next_use, var_id, statement_location);
                } else {
                    next_use_insert(&mut info.next_use, var_id, location);
                }
                j = j + 1;
                assert(info@ =~= merge_step(prev, arm.restrict(keys1), statement_location));
            }
            assert(entry_keys(entries@.take(entries@.len() as int)) =~= arm.dom()) by {
                assert(entries@.take(entries@.len() as int) =~= entries@);
                assert forall|v: VariableId| arm.dom().contains(v) implies entry_keys(entries@).contains(v) by {
                    let k = choose|k: int| 0 <= k < entries@.len() && entries@[k].0 == v;
                    assert(entries@[k].0 == v);
                }
            }
            assert(arm.restrict(arm.dom()) =~= arm);
            assert(info_views(infos@).take(a + 1).drop_last() =~= info_views(infos@).take(a as int));
            a = a + 1;
        }
        assert(info_views(infos@).take(infos.len() as int) =~= info_views(infos@));
        info.demand(&match_info.inputs, statement_location);
        info
    }

    /// The information before a return at `statement_location`: the returned
    /// variables are used there.
    pub fn info_from_return(
        &mut self,
        statement_location: StatementLocation,
        vars: &Vec<VariableId>,
    ) -> (r: ReorderStatementsInfo)
        ensures
            final(self).lowered_view() == old(self).lowered_view(),
            final(self).movable() == old(self).movable(),
            final(self).moves() == old(self).moves(),
            r@ == demand_all(Map::empty(), vars@, statement_location),
    {
        let mut info = ReorderStatementsInfo::new();
        info.demand(vars, statement_location);
        info
    }
}

/// Control reaches block `b` from the root: it is the root, or the root
/// passes control to it.
pub open spec fn reachable(l: SpecLowered, b: int) -> bool {
    b == 0 || flows_to(l, 0, b as BlockId)
}

/// In every block that control reaches from the root, every statement can
/// be visited, and the block ends in a goto, a match or a return.
pub open spec fn blocks_visitable(movable: Set<FunctionId>, l: SpecLowered) -> bool {
    &&& forall|b: int|
        0 <= b < l.blocks.len() && reachable(l, b) ==> !(#[trigger] l.blocks[b].end is Panic) && !(
        l.blocks[b].end is NotSet)
    &&& forall|b: int, i: int|
        0 <= b < l.blocks.len() && reachable(l, b) && 0 <= i < l.blocks[b].statements.len() ==> visitable(
            movable,
            l.droppable,
            #[trigger] l.blocks[b].statements[i],
        )
}

proof fn lemma_reachable_successor(l: SpecLowered, b: BlockId, j: int)
    requires
        b < l.blocks.len(),
        reachable(l, b as int),
        0 <= j < l.blocks[b as int].end.successors().len(),
    ensures
        reachable(l, l.blocks[b as int].end.successors()[j] as int),
{
    let s = l.blocks[b as int].end.successors()[j];
    assert(l.blocks[b as int].end.successors().contains(s));
    if b == 0 {
        lemma_flows_step(l, 0, j, s);
    } else {
        let p = choose|p: Seq<BlockId>| #[trigger] control_path(l, p) && p.len() > 1 && p[0] == 0 && p.last() == b;
        let path = p.push(s);
        assert(control_path(l, path)) by {
            assert forall|k: int| 0 <= k < path.len() - 1 implies (#[trigger] path[k]) < l.blocks.len()
                && l.blocks[path[k] as int].end.successors().contains(path[k + 1]) by {
                assert(path[k] == p[k]);
                if k < p.len() - 1 {
                    assert(path[k + 1] == p[k + 1]);
                    assert(p[k] < l.blocks.len());
                }
            }
        }
        assert(path[0] == 0 && path.last() == s);
    }
}

/// Every next use in `info` is a location of the function.
pub open spec fn valid_info(l: SpecLowered, info: NextUse) -> bool {
    forall|v: VariableId| #[trigger] info.dom().contains(v) ==> l.valid_location(info[v])
}

/// Every cached information is valid.
pub open spec fn valid_cache(l: SpecLowered, cache: Map<BlockId, NextUse>) -> bool {
    forall|b: BlockId| #[trigger] cache.dom().contains(b) ==> valid_info(l, cache[b])
}

/// A statement that the pass may move or remove: a literal, a call to a
/// movable function, the construction of an empty struct, or the destructure
/// of a droppable variable.
pub open spec fn movable_kind(movable: Set<FunctionId>, droppable: Seq<bool>, stmt: SpecStatement) -> bool {
    match stmt {
        SpecStatement::Literal { .. } => true,
        SpecStatement::Call { function, .. } => movable.contains(function),
        SpecStatement::StructConstruct { inputs, .. } => inputs.len() == 0,
        SpecStatement::StructDestructure { input, .. } => droppable[input as int],
        _ => false,
    }
}

/// A move takes a statement of the function, of a kind that may be moved, to
/// a location of the function.
pub open spec fn valid_move(movable: Set<FunctionId>, l: SpecLowered, m: Move) -> bool {
    &&& l.statement_location(m.0)
    &&& movable_kind(movable, l.droppable, l.statement_at(m.0))
    &&& m.1 matches Some(d) ==> l.valid_location(d)
}

/// Every move is valid.
pub open spec fn valid_moves(movable: Set<FunctionId>, l: SpecLowered, moves: Seq<Move>) -> bool {
    forall|i: int| 0 <= i < moves.len() ==> valid_move(movable, l, #[trigger] moves[i])
}

/// The number of blocks, and of the statements of each block, is one that a
/// `usize` holds.
pub open spec fn lengths_fit(l: SpecLowered) -> bool {
    &&& l.blocks.len() <= usize::MAX
    &&& forall|b: int| 0 <= b < l.blocks.len() ==> #[trigger] l.blocks[b].statements.len() <= usize::MAX
}

proof fn lemma_demand_all_valid(l: SpecLowered, info: NextUse, vars: Seq<VariableId>, loc: StatementLocation)
    requires
        valid_info(l, info),
        l.valid_location(loc),
    ensures
        valid_info(l, demand_all(info, vars, loc)),
{
}

proof fn lemma_demand_inputs_valid(
    l: SpecLowered,
    info: NextUse,
    inputs: Seq<VariableId>,
    loc: StatementLocation,
    target: StatementLocation,
)
    requires
        valid_info(l, info),
        l.valid_location(loc),
        l.valid_location(target),
    ensures
        valid_info(l, demand_inputs(info, inputs, loc, target)),
    decreases inputs.len(),
{
    if inputs.len() > 0 {
        lemma_demand_inputs_valid(l, info, inputs.drop_last(), loc, target);
    }
}

proof fn lemma_visit_stmt_valid(
    movable: Set<FunctionId>,
    l: SpecLowered,
    info: NextUse,
    loc: StatementLocation,
    stmt: SpecStatement,
)
    requires
        valid_info(l, info),
        l.statement_location(loc),
        stmt == l.statement_at(loc),
    ensures
        valid_info(l, visit_stmt_spec(movable, l.droppable, info, loc, stmt).0),
        visit_stmt_spec(movable, l.droppable, info, loc, stmt).1 matches Some(m) ==> valid_move(movable, l, m),
{
    let vars = stmt.inputs();
    lemma_demand_all_valid(l, info, vars, loc);
    match stmt {
        SpecStatement::Call { function, inputs, outputs } => {
            let v = outputs[0];
            assert(valid_info(l, info.remove(v)));
            if info.dom().contains(v) {
                lemma_demand_inputs_valid(l, info.remove(v), inputs, loc, info[v]);
            }
        },
        SpecStatement::Literal { output, .. } => {
            assert(valid_info(l, info.remove(output)));
            if info.dom().contains(output) {
                lemma_demand_inputs_valid(l, info.remove(output), seq![], loc, info[output]);
            }
        },
        SpecStatement::StructConstruct { inputs, output } => {
            assert(valid_info(l, info.remove(output)));
            if info.dom().contains(output) {
                lemma_demand_inputs_valid(l, info.remove(output), seq![], loc, info[output]);
            }
        },
        _ => {},
    }
}

proof fn lemma_visit_stmts_valid(
    movable: Set<FunctionId>,
    l: SpecLowered,
    b: BlockId,
    k: nat,
    info: NextUse,
    moves: Seq<Move>,
)
    requires
        b < l.blocks.len(),
        k <= l.blocks[b as int].statements.len(),
        lengths_fit(l),
        valid_info(l, info),
        valid_moves(movable, l, moves),
    ensures
        valid_info(l, visit_stmts(movable, l.droppable, b, l.blocks[b as int].statements, k, info, moves).0),
        valid_moves(movable, l, visit_stmts(movable, l.droppable, b, l.blocks[b as int].statements, k, info, moves).1),
    decreases k,
{
    if k > 0 {
        let stmts = l.blocks[b as int].statements;
        let loc = (b, (k - 1) as usize);
        assert(l.blocks[b as int].statements.len() <= usize::MAX);
        assert(l.statement_location(loc));
        lemma_visit_stmt_valid(movable, l, info, loc, stmts[k - 1]);
        let r = visit_stmt_spec(movable, l.droppable, info, loc, stmts[k - 1]);
        assert(valid_moves(movable, l, record(moves, r.1)));
        lemma_visit_stmts_valid(movable, l, b, (k - 1) as nat, r.0, record(moves, r.1));
    }
}

proof fn lemma_merge_infos_valid(l: SpecLowered, infos: Seq<NextUse>, loc: StatementLocation)
    requires
        forall|i: int| 0 <= i < infos.len() ==> valid_info(l, #[trigger] infos[i]),
        l.valid_location(loc),
    ensures
        valid_info(l, merge_infos(infos, loc)),
    decreases infos.len(),
{
    if infos.len() > 0 {
        lemma_merge_infos_valid(l, infos.drop_last(), loc);
        assert(valid_info(l, infos[infos.len() - 1]));
    }
}

proof fn lemma_analyze_block_valid(
    movable: Set<FunctionId>,
    l: SpecLowered,
    rank: Seq<nat>,
    b: BlockId,
    cache: Map<BlockId, NextUse>,
    moves: Seq<Move>,
)
    requires
        valid_rank(l, rank),
        b < l.blocks.len(),
        reachable(l, b as int),
        lengths_fit(l),
        valid_cache(l, cache),
        valid_moves(movable, l, moves),
    ensures
        valid_info(l, analyze_block(movable, l, rank, b, cache, moves).0),
        valid_cache(l, analyze_block(movable, l, rank, b, cache, moves).1),
        valid_moves(movable, l, analyze_block(movable, l, rank, b, cache, moves).2),
    decreases rank[b as int], 2nat, 0nat,
{
    if !cache.dom().contains(b) {
        lemma_analyze_end_valid(movable, l, rank, b, cache, moves);
        let e = analyze_end(movable, l, rank, b, cache, moves);
        lemma_visit_stmts_valid(movable, l, b, l.blocks[b as int].statements.len(), e.0, e.2);
    }
}

proof fn lemma_analyze_end_valid(
    movable: Set<FunctionId>,
    l: SpecLowered,
    rank: Seq<nat>,
    b: BlockId,
    cache: Map<BlockId, NextUse>,
    moves: Seq<Move>,
)
    requires
        valid_rank(l, rank),
        b < l.blocks.len(),
        reachable(l, b as int),
        lengths_fit(l),
        valid_cache(l, cache),
        valid_moves(movable, l, moves),
    ensures
        valid_info(l, analyze_end(movable, l, rank, b, cache, moves).0),
        valid_cache(l, analyze_end(movable, l, rank, b, cache, moves).1),
        valid_moves(movable, l, analyze_end(movable, l, rank, b, cache, moves).2),
    decreases rank[b as int], 1nat, 0nat,
{
    let loc = end_location(l, b);
    assert(l.blocks[b as int].statements.len() <= usize::MAX);
    assert(l.valid_location(loc));
    assert(valid_info(l, Map::<VariableId, StatementLocation>::empty()));
    match l.blocks[b as int].end {
        SpecBlockEnd::Goto(target, remapping) => {
            assert(l.blocks[b as int].end.successors()[0] == target);
            lemma_reachable_successor(l, b, 0);
            lemma_analyze_block_valid(movable, l, rank, target, cache, moves);
            let r = analyze_block(movable, l, rank, target, cache, moves);
            lemma_demand_all_valid(l, r.0, remapping_sources(remapping), loc);
        },
        SpecBlockEnd::Return(vars) => {
            lemma_demand_all_valid(l, Map::empty(), vars, loc);
        },
        SpecBlockEnd::Match { inputs, arms } => {
            lemma_analyze_arms_valid(movable, l, rank, b, arms.len(), cache, moves);
            let r = analyze_arms(movable, l, rank, b, arms.len(), cache, moves);
            lemma_merge_infos_valid(l, r.0, loc);
            lemma_demand_all_valid(l, merge_infos(r.0, loc), inputs, loc);
        },
        _ => {},
    }
}

proof fn lemma_analyze_arms_valid(
    movable: Set<FunctionId>,
    l: SpecLowered,
    rank: Seq<nat>,
    b: BlockId,
    k: nat,
    cache: Map<BlockId, NextUse>,
    moves: Seq<Move>,
)
    requires
        valid_rank(l, rank),
        b < l.blocks.len(),
        reachable(l, b as int),
        k <= l.blocks[b as int].end.successors().len(),
        lengths_fit(l),
        valid_cache(l, cache),
        valid_moves(movable, l, moves),
    ensures
        forall|i: int|
            0 <= i < analyze_arms(movable, l, rank, b, k, cache, moves).0.len() ==> valid_info(
                l,
                #[trigger] analyze_arms(movable, l, rank, b, k, cache, moves).0[i],
            ),
        analyze_arms(movable, l, rank, b, k, cache, moves).0.len() == k,
        valid_cache(l, analyze_arms(movable, l, rank, b, k, cache, moves).1),
        valid_moves(movable, l, analyze_arms(movable, l, rank, b, k, cache, moves).2),
    decreases rank[b as int], 0nat, k,
{
    if k > 0 {
        lemma_analyze_arms_valid(movable, l, rank, b, (k - 1) as nat, cache, moves);
        let r = analyze_arms(movable, l, rank, b, (k - 1) as nat, cache, moves);
        let arm = l.blocks[b as int].end.successors()[k - 1];
        lemma_reachable_successor(l, b, k - 1);
        lemma_analyze_block_valid(movable, l, rank, arm, r.1, r.2);
        let i = analyze_block(movable, l, rank, arm, r.1, r.2);
        assert forall|j: int| 0 <= j < r.0.push(i.0).len() implies valid_info(l, #[trigger] r.0.push(i.0)[j]) by {
            if j < r.0.len() {
                assert(r.0.push(i.0)[j] == r.0[j]);
            }
        }
    }
}

/// A change to the statements of a block: an index, and the statement
/// inserted there, or `None` for the removal of the statement there.
pub type Change = (usize, Option<SpecStatement>);

/// `x` inserted into `s` after the last entry whose index is at least `x`'s.
pub open spec fn insert_desc<A>(s: Seq<(usize, A)>, x: (usize, A)) -> Seq<(usize, A)>
    decreases s.len(),
{
    if s.len() == 0 {
        seq![x]
    } else if s.last().0 >= x.0 {
        s.push(x)
    } else {
        insert_desc(s.drop_last(), x).push(s.last())
    }
}

/// `s` sorted by decreasing index; entries with equal indices keep their order.
pub open spec fn sort_desc<A>(s: Seq<(usize, A)>) -> Seq<(usize, A)>
    decreases s.len(),
{
    if s.len() == 0 {
        s
    } else {
        insert_desc(sort_desc(s.drop_last()), s.last())
    }
}

/// `stmts` with `changes` made one after the other. An insertion past the
/// end or a removal of a statement that is not there would leave it
/// unchanged; the pass makes no such change (`law_changes_fit`).
pub open spec fn apply_changes(stmts: Seq<SpecStatement>, changes: Seq<Change>) -> Seq<SpecStatement>
    decreases changes.len(),
{
    if changes.len() == 0 {
        stmts
    } else {
        let s = apply_changes(stmts, changes.drop_last());
        let c = changes.last();
        match c.1 {
            Some(st) => if c.0 <= s.len() {
                s.insert(c.0 as int, st)
            } else {
                s
            },
            None => if c.0 < s.len() {
                s.remove(c.0 as int)
            } else {
                s
            },
        }
    }
}

/// The changes that `moves` make to block `b`, in order: each move removes
/// its statement from where it is, then inserts it at its target, if it has one.
pub open spec fn block_changes(l: SpecLowered, moves: Seq<Move>, b: BlockId) -> Seq<Change>
    decreases moves.len(),
{
    if moves.len() == 0 {
        seq![]
    } else {
        let prev = block_changes(l, moves.drop_last(), b);
        let m = moves.last();
        let with_removal = if m.0.0 == b {
            prev.push((m.0.1, None))
        } else {
            prev
        };
        match m.1 {
            Some(d) => if d.0 == b {
                with_removal.push((d.1, Some(l.statement_at(m.0))))
            } else {
                with_removal
            },
            None => with_removal,
        }
    }
}

/// The pass can run on `l` with calls to `movable` movable: the blocks that
/// control reaches from the root form an acyclic graph, none of them ends in
/// a panic, and each of their statements can be visited.
pub open spec fn reorderable(movable: Set<FunctionId>, l: SpecLowered) -> bool {
    &&& exists|rank: Seq<nat>| valid_rank(l, rank)
    &&& blocks_visitable(movable, l)
}

/// The moves that the analysis from the root records.
pub open spec fn root_moves(movable: Set<FunctionId>, l: SpecLowered) -> Seq<Move> {
    analyze_block(movable, l, choose|rank: Seq<nat>| valid_rank(l, rank), 0, Map::empty(), seq![]).2
}

/// The statements of block `b` after the pass.
pub open spec fn reordered_statements(movable: Set<FunctionId>, l: SpecLowered, b: int) -> Seq<SpecStatement> {
    apply_changes(
        l.blocks[b].statements,
        sort_desc(block_changes(l, root_moves(movable, l), b as usize)),
    )
}

/// The function after the pass: the same variables and block ends, the
/// statements of each block changed by the recorded moves, the changes made
/// by decreasing index.
pub open spec fn reordered(movable_function: FunctionId, l: SpecLowered) -> SpecLowered {
    if l.blocks.len() == 0 {
        l
    } else {
        SpecLowered {
            droppable: l.droppable,
            blocks: Seq::new(
                l.blocks.len(),
                |b: int|
                    SpecBlock {
                        statements: reordered_statements(set![movable_function], l, b),
                        end: l.blocks[b].end,
                    },
            ),
        }
    }
}

/// The recorded changes with each inserted statement looked up among `moved`.
pub open spec fn resolve(changes: Seq<BlockChange>, moved: Seq<SpecStatement>) -> Seq<Change> {
    changes.map_values(
        |c: BlockChange|
            (
                c.0,
                match c.1 {
                    Some(k) => Some(moved[k as int]),
                    None => None,
                },
            ),
    )
}

/// The changes recorded for block `b`.
pub open spec fn changes_of(m: Map<BlockId, Seq<BlockChange>>, b: BlockId) -> Seq<BlockChange> {
    if m.dom().contains(b) {
        m[b]
    } else {
        seq![]
    }
}

/// The views of a list of statements.
pub open spec fn statement_views(stmts: Seq<Statement>) -> Seq<SpecStatement> {
    stmts.map_values(|s: Statement| s@)
}

proof fn lemma_insert_desc_elements<A>(s: Seq<(usize, A)>, x: (usize, A))
    ensures
        insert_desc(s, x).len() == s.len() + 1,
        forall|i: int| 0 <= i < insert_desc(s, x).len() ==> #[trigger] s.push(x).contains(insert_desc(s, x)[i]),
    decreases s.len(),
{
    if s.len() > 0 && s.last().0 < x.0 {
        let d = s.drop_last();
        lemma_insert_desc_elements(d, x);
        let r = insert_desc(s, x);
        assert forall|i: int| 0 <= i < r.len() implies #[trigger] s.push(x).contains(r[i]) by {
            if i < r.len() - 1 {
                assert(d.push(x).contains(r[i]));
                let k = choose|k: int| 0 <= k < d.push(x).len() && d.push(x)[k] == r[i];
                if k < d.len() {
                    assert(s.push(x)[k] == r[i]);
                } else {
                    assert(s.push(x)[s.len() as int] == r[i]);
                }
            } else {
                assert(s.push(x)[s.len() - 1] == r[i]);
            }
        }
    } else if s.len() > 0 {
        let r = insert_desc(s, x);
        assert forall|i: int| 0 <= i < r.len() implies #[trigger] s.push(x).contains(r[i]) by {
            assert(s.push(x)[i] == r[i]);
        }
    } else {
        assert(s.push(x)[0] == x);
    }
}

proof fn lemma_sort_desc_elements<A>(s: Seq<(usize, A)>)
    ensures
        sort_desc(s).len() == s.len(),
        forall|i: int| 0 <= i < sort_desc(s).len() ==> #[trigger] s.contains(sort_desc(s)[i]),
    decreases s.len(),
{
    if s.len() > 0 {
        let d = s.drop_last();
        lemma_sort_desc_elements(d);
        lemma_insert_desc_elements(sort_desc(d), s.last());
        let r = sort_desc(s);
        assert forall|i: int| 0 <= i < r.len() implies #[trigger] s.contains(r[i]) by {
            let t = sort_desc(d).push(s.last());
            assert(t.contains(r[i]));
            let k = choose|k: int| 0 <= k < t.len() && t[k] == r[i];
            if k < sort_desc(d).len() {
                assert(d.contains(sort_desc(d)[k]));
                let m = choose|m: int| 0 <= m < d.len() && d[m] == sort_desc(d)[k];
                assert(s[m] == r[i]);
            } else {
                assert(s[s.len() - 1] == r[i]);
            }
        }
    }
}

proof fn lemma_resolve_insert_desc(s: Seq<BlockChange>, x: BlockChange, moved: Seq<SpecStatement>)
    ensures
        insert_desc(resolve(s, moved), resolve(seq![x], moved)[0]) == resolve(insert_desc(s, x), moved),
    decreases s.len(),
{
    let rx = resolve(seq![x], moved)[0];
    if s.len() == 0 {
        assert(resolve(seq![x], moved) =~= seq![rx]);
    } else {
        assert(resolve(s, moved).last() == resolve(seq![s.last()], moved)[0]);
        if s.last().0 >= x.0 {
            assert(resolve(s.push(x), moved) =~= resolve(s, moved).push(rx));
        } else {
            assert(resolve(s.drop_last(), moved) =~= resolve(s, moved).drop_last());
            lemma_resolve_insert_desc(s.drop_last(), x, moved);
            let t = insert_desc(s.drop_last(), x);
            assert(resolve(t.push(s.last()), moved) =~= resolve(t, moved).push(resolve(s, moved).last()));
        }
    }
}

proof fn lemma_resolve_sort_desc(s: Seq<BlockChange>, moved: Seq<SpecStatement>)
    ensures
        sort_desc(resolve(s, moved)) == resolve(sort_desc(s), moved),
    decreases s.len(),
{
    if s.len() == 0 {
        assert(resolve(s, moved) =~= seq![]);
    } else {
        let d = s.drop_last();
        assert(resolve(d, moved) =~= resolve(s, moved).drop_last());
        lemma_resolve_sort_desc(d, moved);
        assert(resolve(s, moved).last() == resolve(seq![s.last()], moved)[0]);
        lemma_resolve_insert_desc(sort_desc(d), s.last(), moved);
    }
}

/// `Itertools::sorted_by_key` of `itertools` on the changes, keyed by the
/// `Reverse` of their index. Its documentation and source (`slice::sort_by_key`)
/// make it a stable sort: the changes come out by decreasing index, and
/// changes with equal indices keep their order.
#[verifier::external_body]
fn sort_changes_desc(v: &Vec<BlockChange>) -> (r: Vec<BlockChange>)
    ensures
        r@ == sort_desc(v@),
{
    v.iter().copied().sorted_by_key(|(index, _)| Reverse(*index)).collect()
}

/// Traverses the blocks of a function backwards, from the root, analyzing
/// each reachable block once.
pub struct BackAnalysis<'a> {
    lowered: &'a FlatLowered,
    /// The information at the start of each block analyzed so far.
    block_info: Vec<Option<ReorderStatementsInfo>>,
    analyzer: ReorderStatementsContext<'a>,
}

impl<'a> BackAnalysis<'a> {
    /// The information of the blocks analyzed so far.
    pub closed spec fn cache_view(&self) -> Map<BlockId, NextUse> {
        Map::new(
            |b: BlockId| b < self.block_info@.len() && self.block_info@[b as int] is Some,
            |b: BlockId| self.block_info@[b as int].unwrap()@,
        )
    }

    /// The function that is analyzed.
    pub closed spec fn lowered_view(&self) -> SpecLowered {
        self.lowered@
    }

    /// The analyzer and its state.
    pub closed spec fn analyzer_view(&self) -> ReorderStatementsContext<'a> {
        self.analyzer
    }

    pub closed spec fn wf(&self) -> bool {
        &&& self.block_info@.len() == self.lowered@.blocks.len()
        &&& self.analyzer.lowered_view() == self.lowered@
    }

    /// An analysis of the function that `analyzer` reads, with no block analyzed yet.
    pub fn new(analyzer: ReorderStatementsContext<'a>) -> (r: Self)
        ensures
            r.wf(),
            r.lowered_view() == analyzer.lowered_view(),
            r.analyzer_view() == analyzer,
            r.cache_view() == Map::<BlockId, NextUse>::empty(),
    {
        let lowered = analyzer.lowered;
        let mut block_info: Vec<Option<ReorderStatementsInfo>> = Vec::new();
        let mut i: usize = 0;
        while i < lowered.blocks.len()
            invariant
                i <= lowered.blocks.len(),
                block_info@.len() == i,
                forall|k: int| 0 <= k < i ==> block_info@[k] is None,
            decreases lowered.blocks.len() - i,
        {
            block_info.push(None);
            i = i + 1;
        }
        let r = BackAnalysis { lowered, block_info, analyzer };
        assert(r.cache_view() =~= Map::<BlockId, NextUse>::empty());
        r
    }

    /// The analyzer and the moves that it recorded.
    pub fn into_analyzer(self) -> (r: ReorderStatementsContext<'a>)
        ensures
            r == self.analyzer_view(),
    {
        self.analyzer
    }

    /// The information at the start of the root block.
    pub fn get_root_info(&mut self, Ghost(rank): Ghost<Seq<nat>>) -> (info: ReorderStatementsInfo)
        requires
            old(self).wf(),
            old(self).lowered_view().blocks.len() > 0,
            valid_rank(old(self).lowered_view(), rank),
            blocks_visitable(old(self).analyzer_view().movable(), old(self).lowered_view()),
        ensures
            final(self).wf(),
            final(self).lowered_view() == old(self).lowered_view(),
            final(self).analyzer_view().lowered_view() == old(self).analyzer_view().lowered_view(),
            final(self).analyzer_view().movable() == old(self).analyzer_view().movable(),
            (info@, final(self).cache_view(), final(self).analyzer_view().moves()) == analyze_block(
                old(self).analyzer_view().movable(),
                old(self).lowered_view(),
                rank,
                0,
                old(self).cache_view(),
                old(self).analyzer_view().moves(),
            ),
    {
        self.get_block_info(0, Ghost(rank))
    }

    /// The information at the start of block `block_id`.
    fn get_block_info(&mut self, block_id: BlockId, Ghost(rank): Ghost<Seq<nat>>) -> (info:
        ReorderStatementsInfo)
        requires
            old(self).wf(),
            block_id < old(self).lowered_view().blocks.len(),
            reachable(old(self).lowered_view(), block_id as int),
            valid_rank(old(self).lowered_view(), rank),
            blocks_visitable(old(self).analyzer_view().movable(), old(self).lowered_view()),
        ensures
            final(self).wf(),
            final(self).lowered_view() == old(self).lowered_view(),
            final(self).analyzer_view().lowered_view() == old(self).analyzer_view().lowered_view(),
            final(self).analyzer_view().movable() == old(self).analyzer_view().movable(),
            (info@, final(self).cache_view(), final(self).analyzer_view().moves()) == analyze_block(
                old(self).analyzer_view().movable(),
                old(self).lowered_view(),
                rank,
                block_id,
                old(self).cache_view(),
                old(self).analyzer_view().moves(),
            ),
        decreases rank[block_id as int], 2nat, 0nat,
    {
        if let Some(cached) = &self.block_info[block_id] {
            return cached.duplicate();
        }
        let ghost movable = self.analyzer.movable();
        let ghost l = self.lowered@;
        let lowered = self.lowered;
        let block = &lowered.blocks[block_id];
        let mut info = self.get_end_info(block_id, Ghost(rank));
        let ghost e_info = info@;
        let ghost e_moves = self.analyzer.moves();
        let ghost stmts = l.blocks[block_id as int].statements;
        assert(stmts == block@.statements);
        let n = block.statements.len();
        let mut i: usize = n;
        // Go through statements backwards, and update info.
        while i > 0
            invariant
                i <= n,
                n == block.statements.len(),
                stmts == block@.statements,
                block@ == l.blocks[block_id as int],
                block_id < l.blocks.len(),
                l == lowered@,
                self.wf(),
                self.lowered@ == l,
                self.analyzer.movable() == movable,
                blocks_visitable(movable, l),
                reachable(l, block_id as int),
                self.cache_view() == analyze_end(movable, l, rank, block_id, old(self).cache_view(), old(self).analyzer.moves()).1,
                visit_stmts(movable, l.droppable, block_id, stmts, i as nat, info@, self.analyzer.moves())
                    == visit_stmts(movable, l.droppable, block_id, stmts, n as nat, e_info, e_moves),
            decreases i,
        {
            i = i - 1;
            assert(stmts[i as int] == block.statements@[i as int]@);
            assert(visitable(movable, l.droppable, l.blocks[block_id as int].statements[i as int]));
            self.analyzer.visit_stmt(&mut info, (block_id, i), &block.statements[i]);
        }
        self.block_info.set(block_id, Some(info.duplicate()));
        assert(self.cache_view() =~= analyze_end(movable, l, rank, block_id, old(self).cache_view(), old(self).analyzer.moves()).1.insert(block_id, info@));
        info
    }

    /// The information at the end of block `block_id`.
    fn get_end_info(&mut self, block_id: BlockId, Ghost(rank): Ghost<Seq<nat>>) -> (info:
        ReorderStatementsInfo)
        requires
            old(self).wf(),
            block_id < old(self).lowered_view().blocks.len(),
            reachable(old(self).lowered_view(), block_id as int),
            valid_rank(old(self).lowered_view(), rank),
            blocks_visitable(old(self).analyzer_view().movable(), old(self).lowered_view()),
        ensures
            final(self).wf(),
            final(self).lowered_view() == old(self).lowered_view(),
            final(self).analyzer_view().lowered_view() == old(self).analyzer_view().lowered_view(),
            final(self).analyzer_view().movable() == old(self).analyzer_view().movable(),
            (info@, final(self).cache_view(), final(self).analyzer_view().moves()) == analyze_end(
                old(self).analyzer_view().movable(),
                old(self).lowered_view(),
                rank,
                block_id,
                old(self).cache_view(),
                old(self).analyzer_view().moves(),
            ),
        decreases rank[block_id as int], 1nat, 0nat,
    {
        let ghost movable = self.analyzer.movable();
        let ghost l = self.lowered@;
        let lowered = self.lowered;
        let block = &lowered.blocks[block_id];
        assert(block@ == l.blocks[block_id as int]);
        let statement_location = (block_id, block.statements.len());
        assert(statement_location == end_location(l, block_id));
        match &block.end {
            FlatBlockEnd::Goto(target_block_id, remapping) => {
                assert(l.blocks[block_id as int].end.successors()[0] == *target_block_id);
                proof {
                    lemma_reachable_successor(l, block_id, 0);
                }
                let mut info = self.get_block_info(*target_block_id, Ghost(rank));
                self.analyzer.visit_goto(&mut info, statement_location, *target_block_id, remapping);
                info
            },
            FlatBlockEnd::Return(vars) => self.analyzer.info_from_return(statement_location, vars),
            FlatBlockEnd::Match { info: match_info } => {
                let mut arm_infos: Vec<ReorderStatementsInfo> = Vec::new();
                let mut k: usize = 0;
                while k < match_info.arms.len()
                    invariant
                        k <= match_info.arms.len(),
                        block@ == l.blocks[block_id as int],
                        block.end@.successors() == match_info.arms@,
                        block_id < l.blocks.len(),
                        l == lowered@,
                        valid_rank(l, rank),
                        self.wf(),
                        self.lowered@ == l,
                        self.analyzer.movable() == movable,
                        self.analyzer.lowered_view() == l,
                        blocks_visitable(movable, l),
                        reachable(l, block_id as int),
                        (info_views(arm_infos@), self.cache_view(), self.analyzer.moves()) == analyze_arms(
                            movable, l, rank, block_id, k as nat, old(self).cache_view(), old(self).analyzer.moves()),
                    decreases match_info.arms.len() - k,
                {
                    let arm = match_info.arms[k];
                    assert(l.blocks[block_id as int].end.successors()[k as int] == arm);
                    proof {
                        lemma_reachable_successor(l, block_id, k as int);
                    }
                    let arm_info = self.get_block_info(arm, Ghost(rank));
                    arm_infos.push(arm_info);
                    k = k + 1;
                    assert(info_views(arm_infos@) =~= analyze_arms(movable, l, rank, block_id, (k - 1) as nat, old(self).cache_view(), old(self).analyzer.moves()).0.push(arm_info@));
                }
                self.analyzer.merge_match(statement_location, match_info, &arm_infos)
            },
            _ => {
                assert(false);
                ReorderStatementsInfo::new()
            },
        }
    }
}

/// The change inserts none of the moved statements, or one of the first `n`.
pub open spec fn refers_below(c: BlockChange, n: int) -> bool {
    c.1 matches Some(k) ==> k < n
}

proof fn lemma_resolve_push(c: Seq<BlockChange>, x: BlockChange, moved: Seq<SpecStatement>)
    ensures
        resolve(c.push(x), moved) == resolve(c, moved).push(resolve(seq![x], moved)[0]),
{
    assert(resolve(c.push(x), moved) =~= resolve(c, moved).push(resolve(seq![x], moved)[0]));
}

proof fn lemma_resolve_extend(c: Seq<BlockChange>, moved: Seq<SpecStatement>, st: SpecStatement)
    requires
        forall|i: int| 0 <= i < c.len() ==> refers_below(#[trigger] c[i], moved.len() as int),
    ensures
        resolve(c, moved.push(st)) == resolve(c, moved),
{
    assert forall|i: int| 0 <= i < c.len() implies #[trigger] resolve(c, moved.push(st))[i] == resolve(c, moved)[i] by {
        if let Some(k) = c[i].1 {
            assert(moved.push(st)[k as int] == moved[k as int]);
        }
    }
    assert(resolve(c, moved.push(st)) =~= resolve(c, moved));
}

/// Reorders the statements of `lowered` to move variable definitions closer
/// to their usage; statements with no side effects and unused outputs are
/// removed. The calls that can be moved are those to `bool_not_func_id`, the
/// function of core's `bool_not_impl`.
pub fn reorder_statements(bool_not_func_id: FunctionId, lowered: &mut FlatLowered)
    requires
        old(lowered)@.blocks.len() > 0 ==> reorderable(set![bool_not_func_id], old(lowered)@),
    ensures
        final(lowered)@ == reordered(bool_not_func_id, old(lowered)@),
{
    if lowered.blocks.len() == 0 {
        return ;
    }
    let ghost l = lowered@;
    let ghost movable = set![bool_not_func_id];
    let ghost rank = choose|rank: Seq<nat>| valid_rank(l, rank);
    assert(lengths_fit(l)) by {
        assert(l.blocks.len() == lowered.blocks@.len());
        assert forall|b: int| 0 <= b < l.blocks.len() implies #[trigger] l.blocks[b].statements.len()
            <= usize::MAX by {
            assert(l.blocks[b] == lowered.blocks@[b]@);
            assert(lowered.blocks@[b].statements.len() == lowered.blocks@[b].statements@.len());
        }
    }
    let moves: Vec<Move> = {
        let ctx = ReorderStatementsContext::new(lowered, bool_not_func_id);
        let mut analysis = BackAnalysis::new(ctx);
        analysis.get_root_info(Ghost(rank));
        analysis.into_analyzer().into_moves()
    };
    proof {
        lemma_analyze_block_valid(movable, l, rank, 0, Map::empty(), seq![]);
    }
    assert(moves@ == root_moves(movable, l));
    let mut moved: Vec<Statement> = Vec::new();
    let mut changes_by_block = changes_default();
    let mut p: usize = 0;
    while p < moves.len()
        invariant
            p <= moves.len(),
            lowered@ == l,
            l.blocks.len() > 0,
            valid_moves(movable, l, moves@),
            forall|b: BlockId| #[trigger] changes_view(changes_by_block).dom().contains(b) ==> b < l.blocks.len(),
            forall|b: BlockId, i: int|
                0 <= i < changes_of(changes_view(changes_by_block), b).len() ==> refers_below(
                #[trigger] changes_of(changes_view(changes_by_block), b)[i], moved@.len() as int),
            forall|b: BlockId|
                #[trigger] block_changes(l, moves@.take(p as int), b) == resolve(
                    changes_of(changes_view(changes_by_block), b),
                    statement_views(moved@),
                ),
        decreases moves.len() - p,
    {
        let (src, opt_dst) = moves[p];
        assert(valid_move(movable, l, moves@[p as int]));
        let ghost cv0 = changes_view(changes_by_block);
        let ghost mv0 = statement_views(moved@);
        changes_push(&mut changes_by_block, src.0, (src.1, None));
        let ghost cv1 = changes_view(changes_by_block);
        match opt_dst {
            Some(dst) => {
                assert(lowered.blocks@[src.0 as int]@.statements[src.1 as int]
                    == lowered.blocks@[src.0 as int].statements@[src.1 as int]@);
                let statement = lowered.blocks[src.0].statements[src.1].duplicate();
                moved.push(statement);
                changes_push(&mut changes_by_block, dst.0, (dst.1, Some(moved.len() - 1)));
            },
            None => {},
        }
        let ghost mv1 = statement_views(moved@);
        let ghost cv2 = changes_view(changes_by_block);
        assert forall|b: BlockId, i: int| 0 <= i < changes_of(cv2, b).len() implies refers_below(
            #[trigger] changes_of(cv2, b)[i], moved@.len() as int) by {
            if i < changes_of(cv0, b).len() {
                if src.0 == b {
                    assert(changes_of(cv1, b)[i] == changes_of(cv0, b)[i]);
                } else {
                    assert(changes_of(cv1, b)[i] == changes_of(cv0, b)[i]);
                }
            }
            if i < changes_of(cv1, b).len() {
                match opt_dst {
                    Some(dst) => {
                        if dst.0 == b {
                            assert(changes_of(cv2, b)[i] == changes_of(cv1, b)[i]);
                        }
                    },
                    None => {},
                }
            }
        }
        assert(moves@.take(p + 1).drop_last() =~= moves@.take(p as int));
        assert forall|b: BlockId| #[trigger] block_changes(l, moves@.take(p + 1), b) == resolve(
            changes_of(cv2, b),
            mv1,
        ) by {
            let prev = block_changes(l, moves@.take(p as int), b);
            assert(prev == resolve(changes_of(cv0, b), mv0));
            if src.0 == b {
                assert(changes_of(cv1, b) == changes_of(cv0, b).push((src.1, None)));
                lemma_resolve_push(changes_of(cv0, b), (src.1, None), mv0);
            } else {
                assert(changes_of(cv1, b) == changes_of(cv0, b));
            }
            match opt_dst {
                Some(dst) => {
                    assert(mv1 == mv0.push(l.statement_at(src)));
                    lemma_resolve_extend(changes_of(cv1, b), mv0, l.statement_at(src));
                    if dst.0 == b {
                        assert(changes_of(cv2, b) == changes_of(cv1, b).push((dst.1, Some((moved@.len() - 1) as usize))));
                        lemma_resolve_push(changes_of(cv1, b), (dst.1, Some((moved@.len() - 1) as usize)), mv1);
                    } else {
                        assert(changes_of(cv2, b) == changes_of(cv1, b));
                    }
                },
                None => {
                    assert(mv1 == mv0);
                },
            }
        }
        p = p + 1;
    }
    assert(moves@.take(moves.len() as int) =~= moves@);
    let ghost cv = changes_view(changes_by_block);
    let ghost mv = statement_views(moved@);
    let entries = changes_into_entries(changes_by_block);
    let mut e: usize = 0;
    while e < entries.len()
        invariant
            e <= entries.len(),
            l.blocks.len() > 0,
            reorderable(set![bool_not_func_id], l),
            lengths_fit(l),
            movable == set![bool_not_func_id],
            moves@ == root_moves(movable, l),
            lowered@.droppable == l.droppable,
            lowered@.blocks.len() == l.blocks.len(),
            mv == statement_views(moved@),
            forall|x: int, y: int| 0 <= x < y < entries@.len() ==> entries@[x].0 != entries@[y].0,
            forall|x: int|
                0 <= x < entries@.len() ==> #[trigger] cv.dom().contains(entries@[x].0) && cv[entries@[x].0]
                    == entries@[x].1@,
            forall|b: BlockId| #[trigger] cv.dom().contains(b) ==> b < l.blocks.len(),
            forall|b: BlockId, i: int|
                0 <= i < changes_of(cv, b).len() ==> refers_below(#[trigger] changes_of(cv, b)[i], moved@.len() as int),
            forall|b: BlockId| #[trigger] block_changes(l, moves@, b) == resolve(changes_of(cv, b), mv),
            forall|b: int| 0 <= b < l.blocks.len() ==> #[trigger] lowered@.blocks[b].end == l.blocks[b].end,
            forall|b: int|
                0 <= b < l.blocks.len() ==> #[trigger] lowered@.blocks[b].statements == if (exists|x: int|
                    0 <= x < e && entries@[x].0 == b) {
                    reordered_statements(movable, l, b)
                } else {
                    l.blocks[b].statements
                },
        decreases entries.len() - e,
    {
        let block_id = entries[e].0;
        assert(cv.dom().contains(block_id));
        let sorted = sort_changes_desc(&entries[e].1);
        proof {
            lemma_sort_desc_elements(entries@[e as int].1@);
            lemma_resolve_sort_desc(changes_of(cv, block_id), mv);
        }
        assert(forall|x: int| 0 <= x < sorted@.len() ==> refers_below(#[trigger] sorted@[x], moved@.len() as int)) by {
            assert forall|x: int| 0 <= x < sorted@.len() implies refers_below(#[trigger] sorted@[x], moved@.len() as int) by {
                assert(changes_of(cv, block_id).contains(sorted@[x]));
                let y = choose|y: int| 0 <= y < changes_of(cv, block_id).len() && changes_of(cv, block_id)[y] == sorted@[x];
                assert(changes_of(cv, block_id)[y] == sorted@[x]);
            }
        }
        let ghost target = reordered_statements(movable, l, block_id as int);
        assert(target == apply_changes(l.blocks[block_id as int].statements, resolve(sorted@, mv)));
        assert(!(exists|x: int| 0 <= x < e && entries@[x].0 == block_id));
        let mut block = FlatBlock { statements: Vec::new(), end: FlatBlockEnd::NotSet };
        assert(lowered.blocks@[block_id as int]@ == lowered@.blocks[block_id as int]);
        assert(lowered@.blocks[block_id as int].statements == l.blocks[block_id as int].statements);
        let ghost start_blocks = lowered@.blocks;
        let ghost empty_block = block@;
        lowered.blocks.set_and_swap(block_id, &mut block);
        assert(lowered@.blocks =~= start_blocks.update(block_id as int, empty_block));
        assert(block@.statements == l.blocks[block_id as int].statements);
        assert(block@.end == l.blocks[block_id as int].end);
        let ghost start = block@.statements;
        let ghost all = sort_desc(block_changes(l, root_moves(movable, l), block_id));
        proof {
            lemma_resolve_sort_desc(changes_of(cv, block_id), mv);
            assert(resolve(sorted@, mv) == all);
            law_changes_fit(bool_not_func_id, l, block_id as int);
        }
        let mut j: usize = 0;
        // Apply the changes in reverse order to prevent a change from invalidating
        // the indices of the others.
        while j < sorted.len()
            invariant
                j <= sorted.len(),
                mv == statement_views(moved@),
                forall|x: int| 0 <= x < sorted@.len() ==> refers_below(#[trigger] sorted@[x], moved@.len() as int),
                statement_views(block.statements@) == apply_changes(start, resolve(sorted@.take(j as int), mv)),
                resolve(sorted@, mv) == all,
                start == l.blocks[block_id as int].statements,
                forall|x: int| 0 <= x < all.len() ==> change_fits(apply_changes(start, all.take(x)), #[trigger] all[x]),
                block_id < l.blocks.len(),
                block@.end == l.blocks[block_id as int].end,
            decreases sorted.len() - j,
        {
            let (index, opt_statement) = sorted[j];
            let ghost before = statement_views(block.statements@);
            assert(resolve(sorted@.take(j + 1), mv).drop_last() =~= resolve(sorted@.take(j as int), mv));
            assert(sorted@[j as int] == (index, opt_statement));
            assert(resolve(sorted@.take(j as int), mv) =~= all.take(j as int));
            assert(change_fits(before, all[j as int]));
            match opt_statement {
                Some(k) => {
                    let statement = moved[k].duplicate();
                    block.statements.insert(index, statement);
                    assert(statement_views(block.statements@) =~= before.insert(index as int, mv[k as int]));
                },
                None => {
                    block.statements.remove(index);
                    assert(statement_views(block.statements@) =~= before.remove(index as int));
                },
            }
            j = j + 1;
        }
        assert(sorted@.take(sorted.len() as int) =~= sorted@);
        assert(block@.statements == target);
        let ghost newb = block@;
        let ghost pre_blocks = lowered@.blocks;
        lowered.blocks.set_and_swap(block_id, &mut block);
        assert(lowered@.blocks =~= pre_blocks.update(block_id as int, newb));
        assert(lowered@.blocks =~= start_blocks.update(block_id as int, newb));
        e = e + 1;
        assert forall|b: int| 0 <= b < l.blocks.len() implies #[trigger] lowered@.blocks[b].statements == if (exists|x: int|
            0 <= x < e && entries@[x].0 == b) {
            reordered_statements(movable, l, b)
        } else {
            l.blocks[b].statements
        } by {
            if b == block_id {
                assert(entries@[e - 1].0 == b);
            } else {
                if exists|x: int| 0 <= x < e && entries@[x].0 == b {
                    let x = choose|x: int| 0 <= x < e && entries@[x].0 == b;
                    assert(x < e - 1);
                }
            }
        }
    }
    assert forall|b: int| 0 <= b < l.blocks.len() implies #[trigger] lowered@.blocks[b].statements == reordered_statements(movable, l, b) by {
        if !(exists|x: int| 0 <= x < entries@.len() && entries@[x].0 == b) {
            assert(!cv.dom().contains(b as usize));
            assert(changes_of(cv, b as usize) =~= seq![]);
            assert(resolve(changes_of(cv, b as usize), mv) =~= seq![]);
        }
    }
    assert(lowered@.droppable =~= reordered(bool_not_func_id, l).droppable);
    assert forall|b: int| 0 <= b < l.blocks.len() implies #[trigger] lowered@.blocks[b] == reordered(
        bool_not_func_id,
        l,
    ).blocks[b] by {
        assert(lowered@.blocks[b].statements == reordered_statements(movable, l, b));
        assert(lowered@.blocks[b].end == l.blocks[b].end);
    }
    assert(lowered@.blocks =~= reordered(bool_not_func_id, l).blocks);
}

/// The pass keeps the variables of the function, its number of blocks and
/// the end of each block: only statements change.
pub proof fn law_structure_preserved(bool_not_func_id: FunctionId, l: SpecLowered)
    ensures
        reordered(bool_not_func_id, l).droppable == l.droppable,
        reordered(bool_not_func_id, l).blocks.len() == l.blocks.len(),
        forall|b: int|
            0 <= b < l.blocks.len() ==> #[trigger] reordered(bool_not_func_id, l).blocks[b].end
                == l.blocks[b].end,
{
}

/// Every statement that the pass moves or removes is a literal, a call to the
/// movable function, the construction of an empty struct or the destructure of
/// a droppable variable; it is a statement of the function, and where it is
/// moved to is a location of the function.
pub proof fn law_only_movable_statements_move(bool_not_func_id: FunctionId, l: SpecLowered)
    requires
        l.blocks.len() > 0,
        reorderable(set![bool_not_func_id], l),
        lengths_fit(l),
    ensures
        valid_moves(set![bool_not_func_id], l, root_moves(set![bool_not_func_id], l)),
{
    let movable = set![bool_not_func_id];
    let rank = choose|rank: Seq<nat>| valid_rank(l, rank);
    lemma_analyze_block_valid(movable, l, rank, 0, Map::empty(), seq![]);
}

/// A function none of whose statements may be moved is left unchanged.
pub proof fn law_nothing_to_move_unchanged(bool_not_func_id: FunctionId, l: SpecLowered)
    requires
        l.blocks.len() > 0 ==> reorderable(set![bool_not_func_id], l),
        lengths_fit(l),
        forall|b: int, i: int|
            0 <= b < l.blocks.len() && 0 <= i < l.blocks[b].statements.len() ==> !movable_kind(
                set![bool_not_func_id],
                l.droppable,
                #[trigger] l.blocks[b].statements[i],
            ),
    ensures
        reordered(bool_not_func_id, l) == l,
{
    if l.blocks.len() > 0 {
        let movable = set![bool_not_func_id];
        law_only_movable_statements_move(bool_not_func_id, l);
        let moves = root_moves(movable, l);
        if moves.len() > 0 {
            assert(valid_move(movable, l, moves[0]));
        }
        assert forall|b: int| 0 <= b < l.blocks.len() implies #[trigger] reordered(bool_not_func_id, l).blocks[b]
            == l.blocks[b] by {
            assert(block_changes(l, moves, b as usize) =~= seq![]);
        }
        assert(reordered(bool_not_func_id, l).blocks =~= l.blocks);
    }
}


/// The variables that the end of a block reads.
pub open spec fn end_uses(end: SpecBlockEnd) -> Seq<VariableId> {
    match end {
        SpecBlockEnd::Return(vars) => vars,
        SpecBlockEnd::Panic(v) => seq![v],
        SpecBlockEnd::Goto(_, remapping) => remapping_sources(remapping),
        SpecBlockEnd::Match { inputs, .. } => inputs,
        SpecBlockEnd::NotSet => seq![],
    }
}

/// No statement and no block end of the function reads `v`.
pub open spec fn unused(l: SpecLowered, v: VariableId) -> bool {
    &&& forall|b: int, i: int|
        0 <= b < l.blocks.len() && 0 <= i < l.blocks[b].statements.len() ==> !(
        #[trigger] l.blocks[b].statements[i]).inputs().contains(v)
    &&& forall|b: int| 0 <= b < l.blocks.len() ==> !end_uses(#[trigger] l.blocks[b].end).contains(v)
}

/// A statement with no side effect whose outputs nothing in the function
/// reads: a literal, an empty struct, a call to a movable function, or the
/// destructure of a droppable variable.
pub open spec fn dead_statement(movable: Set<FunctionId>, l: SpecLowered, stmt: SpecStatement) -> bool {
    match stmt {
        SpecStatement::Literal { output, .. } => unused(l, output),
        SpecStatement::StructConstruct { inputs, output } => inputs.len() == 0 && unused(l, output),
        SpecStatement::Call { function, outputs, .. } => movable.contains(function) && outputs.len() == 1
            && unused(l, outputs[0]),
        SpecStatement::StructDestructure { input, outputs } => l.droppable[input as int] && forall|k: int|
            0 <= k < outputs.len() ==> unused(l, #[trigger] outputs[k]),
        _ => false,
    }
}

/// Only variables that something reads have a next use in `info`.
pub open spec fn only_used(l: SpecLowered, info: NextUse) -> bool {
    forall|v: VariableId| #[trigger] info.dom().contains(v) ==> !unused(l, v)
}

/// `long` starts with `short`.
pub open spec fn extends(long: Seq<Move>, short: Seq<Move>) -> bool {
    &&& short.len() <= long.len()
    &&& forall|i: int| 0 <= i < short.len() ==> long[i] == short[i]
}

/// The removal of each dead statement of block `b` is among `moves`.
pub open spec fn removals_recorded(movable: Set<FunctionId>, l: SpecLowered, b: BlockId, moves: Seq<Move>) -> bool {
    forall|i: int|
        0 <= i < l.blocks[b as int].statements.len() && dead_statement(
            movable,
            l,
            #[trigger] l.blocks[b as int].statements[i],
        ) ==> moves.contains(((b, i as usize), None))
}

/// The blocks in `cache` are blocks of the function whose information holds
/// only variables that something reads and whose dead statements have their
/// removals among `moves`; the successors of each are in `cache` too.
pub open spec fn dead_cache(movable: Set<FunctionId>, l: SpecLowered, cache: Map<BlockId, NextUse>, moves: Seq<Move>) -> bool {
    forall|c: BlockId|
        #[trigger] cache.dom().contains(c) ==> {
            &&& c < l.blocks.len()
            &&& only_used(l, cache[c])
            &&& removals_recorded(movable, l, c, moves)
            &&& forall|j: int|
                0 <= j < l.blocks[c as int].end.successors().len() ==> cache.dom().contains(
                    #[trigger] l.blocks[c as int].end.successors()[j],
                )
        }
}

/// `path` is a way that control may take through the blocks: each block in
/// it passes control to the next one.
pub open spec fn control_path(l: SpecLowered, path: Seq<BlockId>) -> bool {
    forall|k: int|
        0 <= k < path.len() - 1 ==> (#[trigger] path[k]) < l.blocks.len() && l.blocks[path[k] as int].end.successors().contains(
            path[k + 1],
        )
}

proof fn lemma_extends_contains(long: Seq<Move>, short: Seq<Move>, m: Move)
    requires
        extends(long, short),
        short.contains(m),
    ensures
        long.contains(m),
{
    let i = choose|i: int| 0 <= i < short.len() && short[i] == m;
    assert(long[i] == m);
}

proof fn lemma_recorded_extends(movable: Set<FunctionId>, l: SpecLowered, b: BlockId, short: Seq<Move>, long: Seq<Move>)
    requires
        removals_recorded(movable, l, b, short),
        extends(long, short),
    ensures
        removals_recorded(movable, l, b, long),
{
    assert forall|i: int|
        0 <= i < l.blocks[b as int].statements.len() && dead_statement(
            movable,
            l,
            #[trigger] l.blocks[b as int].statements[i],
        ) implies long.contains(((b, i as usize), None)) by {
        lemma_extends_contains(long, short, ((b, i as usize), None));
    }
}

proof fn lemma_demand_all_used(l: SpecLowered, info: NextUse, vars: Seq<VariableId>, loc: StatementLocation)
    requires
        only_used(l, info),
        forall|v: VariableId| vars.contains(v) ==> !unused(l, v),
    ensures
        only_used(l, demand_all(info, vars, loc)),
{
}

proof fn lemma_demand_inputs_used(
    l: SpecLowered,
    info: NextUse,
    inputs: Seq<VariableId>,
    loc: StatementLocation,
    target: StatementLocation,
)
    requires
        only_used(l, info),
        forall|v: VariableId| inputs.contains(v) ==> !unused(l, v),
    ensures
        only_used(l, demand_inputs(info, inputs, loc, target)),
    decreases inputs.len(),
{
    if inputs.len() > 0 {
        assert forall|v: VariableId| inputs.drop_last().contains(v) implies !unused(l, v) by {
            let k = choose|k: int| 0 <= k < inputs.drop_last().len() && inputs.drop_last()[k] == v;
            assert(inputs[k] == v);
        }
        lemma_demand_inputs_used(l, info, inputs.drop_last(), loc, target);
        assert(inputs.contains(inputs.last()));
    }
}

proof fn lemma_visit_stmt_dead(movable: Set<FunctionId>, l: SpecLowered, info: NextUse, b: BlockId, i: int)
    requires
        b < l.blocks.len(),
        0 <= i < l.blocks[b as int].statements.len(),
        i <= usize::MAX,
        only_used(l, info),
        visitable(movable, l.droppable, l.blocks[b as int].statements[i]),
    ensures
        only_used(l, visit_stmt_spec(movable, l.droppable, info, (b, i as usize), l.blocks[b as int].statements[i]).0),
        dead_statement(movable, l, l.blocks[b as int].statements[i]) ==> visit_stmt_spec(
            movable,
            l.droppable,
            info,
            (b, i as usize),
            l.blocks[b as int].statements[i],
        ).1 == Some::<Move>(((b, i as usize), None)),
{
    let stmt = l.blocks[b as int].statements[i];
    assert forall|v: VariableId| stmt.inputs().contains(v) implies !unused(l, v) by {
        if unused(l, v) {
            assert(!l.blocks[b as int].statements[i].inputs().contains(v));
        }
    }
    match stmt {
        SpecStatement::StructDestructure { input, outputs } => {
            assert(stmt.inputs() == seq![input]);
            assert(stmt.inputs().contains(input)) by {
                assert(stmt.inputs()[0] == input);
            }
            assert(seq![input] =~= stmt.inputs());
        },
        _ => {},
    }
    let loc = (b, i as usize);
    match stmt {
        SpecStatement::Call { function, inputs, outputs } => {
            if movable.contains(function) {
                let var = outputs[0];
                if info.dom().contains(var) {
                    lemma_demand_inputs_used(l, info.remove(var), inputs, loc, info[var]);
                }
            }
        },
        SpecStatement::StructDestructure { input, outputs } => {
            if dead_statement(movable, l, stmt) {
                assert(destructure_removable(l.droppable, info, input, outputs)) by {
                    assert forall|k: int| 0 <= k < outputs.len() implies !info.dom().contains(
                        #[trigger] outputs[k],
                    ) by {
                        assert(unused(l, outputs[k]));
                    }
                }
            }
        },
        _ => {},
    }
}


proof fn lemma_visit_stmts_dead(
    movable: Set<FunctionId>,
    l: SpecLowered,
    b: BlockId,
    k: nat,
    info: NextUse,
    moves: Seq<Move>,
)
    requires
        b < l.blocks.len(),
        k <= l.blocks[b as int].statements.len(),
        lengths_fit(l),
        blocks_visitable(movable, l),
        reachable(l, b as int),
        only_used(l, info),
    ensures
        only_used(l, visit_stmts(movable, l.droppable, b, l.blocks[b as int].statements, k, info, moves).0),
        extends(visit_stmts(movable, l.droppable, b, l.blocks[b as int].statements, k, info, moves).1, moves),
        forall|i: int|
            0 <= i < k && dead_statement(movable, l, #[trigger] l.blocks[b as int].statements[i])
                ==> visit_stmts(movable, l.droppable, b, l.blocks[b as int].statements, k, info, moves).1.contains(
                ((b, i as usize), None),
            ),
    decreases k,
{
    let stmts = l.blocks[b as int].statements;
    if k > 0 {
        let i = k - 1;
        assert(stmts.len() <= usize::MAX);
        assert(visitable(movable, l.droppable, stmts[i]));
        lemma_visit_stmt_dead(movable, l, info, b, i);
        let r = visit_stmt_spec(movable, l.droppable, info, (b, i as usize), stmts[i]);
        let moves1 = record(moves, r.1);
        lemma_visit_stmts_dead(movable, l, b, (k - 1) as nat, r.0, moves1);
        let v = visit_stmts(movable, l.droppable, b, stmts, (k - 1) as nat, r.0, moves1);
        assert(extends(moves1, moves));
        assert(extends(v.1, moves));
        if dead_statement(movable, l, stmts[i]) {
            assert(moves1[moves.len() as int] == ((b, i as usize), None::<StatementLocation>));
            assert(v.1[moves.len() as int] == ((b, i as usize), None::<StatementLocation>));
        }
    } else {
        assert(extends(moves, moves));
    }
}

proof fn lemma_merge_infos_used(l: SpecLowered, infos: Seq<NextUse>, loc: StatementLocation)
    requires
        forall|i: int| 0 <= i < infos.len() ==> only_used(l, #[trigger] infos[i]),
    ensures
        only_used(l, merge_infos(infos, loc)),
    decreases infos.len(),
{
    if infos.len() > 0 {
        lemma_merge_infos_used(l, infos.drop_last(), loc);
        assert(only_used(l, infos[infos.len() - 1]));
    }
}

proof fn lemma_end_uses_used(l: SpecLowered, b: BlockId)
    requires
        b < l.blocks.len(),
    ensures
        forall|v: VariableId| end_uses(l.blocks[b as int].end).contains(v) ==> !unused(l, v),
{
}

proof fn lemma_analyze_block_dead(
    movable: Set<FunctionId>,
    l: SpecLowered,
    rank: Seq<nat>,
    b: BlockId,
    cache: Map<BlockId, NextUse>,
    moves: Seq<Move>,
)
    requires
        valid_rank(l, rank),
        b < l.blocks.len(),
        lengths_fit(l),
        blocks_visitable(movable, l),
        reachable(l, b as int),
        dead_cache(movable, l, cache, moves),
    ensures
        only_used(l, analyze_block(movable, l, rank, b, cache, moves).0),
        dead_cache(movable, l, analyze_block(movable, l, rank, b, cache, moves).1, analyze_block(movable, l, rank, b, cache, moves).2),
        extends(analyze_block(movable, l, rank, b, cache, moves).2, moves),
        analyze_block(movable, l, rank, b, cache, moves).1.dom().contains(b),
        forall|c: BlockId| cache.dom().contains(c) ==> #[trigger] analyze_block(movable, l, rank, b, cache, moves).1.dom().contains(c),
    decreases rank[b as int], 2nat, 0nat,
{
    if cache.dom().contains(b) {
        assert(extends(moves, moves));
    } else {
        lemma_analyze_end_dead(movable, l, rank, b, cache, moves);
        let e = analyze_end(movable, l, rank, b, cache, moves);
        let stmts = l.blocks[b as int].statements;
        lemma_visit_stmts_dead(movable, l, b, stmts.len(), e.0, e.2);
        let v = visit_stmts(movable, l.droppable, b, stmts, stmts.len(), e.0, e.2);
        let cache1 = e.1.insert(b, v.0);
        assert(removals_recorded(movable, l, b, v.1));
        assert forall|c: BlockId| #[trigger] cache1.dom().contains(c) implies {
            &&& c < l.blocks.len()
            &&& only_used(l, cache1[c])
            &&& removals_recorded(movable, l, c, v.1)
            &&& forall|j: int|
                0 <= j < l.blocks[c as int].end.successors().len() ==> cache1.dom().contains(
                    #[trigger] l.blocks[c as int].end.successors()[j],
                )
        } by {
            if c != b {
                assert(e.1.dom().contains(c));
                lemma_recorded_extends(movable, l, c, e.2, v.1);
            }
        }
        assert(extends(v.1, moves));
    }
}

proof fn lemma_analyze_end_dead(
    movable: Set<FunctionId>,
    l: SpecLowered,
    rank: Seq<nat>,
    b: BlockId,
    cache: Map<BlockId, NextUse>,
    moves: Seq<Move>,
)
    requires
        valid_rank(l, rank),
        b < l.blocks.len(),
        lengths_fit(l),
        blocks_visitable(movable, l),
        reachable(l, b as int),
        dead_cache(movable, l, cache, moves),
    ensures
        only_used(l, analyze_end(movable, l, rank, b, cache, moves).0),
        dead_cache(movable, l, analyze_end(movable, l, rank, b, cache, moves).1, analyze_end(movable, l, rank, b, cache, moves).2),
        extends(analyze_end(movable, l, rank, b, cache, moves).2, moves),
        forall|c: BlockId| cache.dom().contains(c) ==> #[trigger] analyze_end(movable, l, rank, b, cache, moves).1.dom().contains(c),
        forall|j: int|
            0 <= j < l.blocks[b as int].end.successors().len() ==> analyze_end(movable, l, rank, b, cache, moves).1.dom().contains(
                #[trigger] l.blocks[b as int].end.successors()[j],
            ),
    decreases rank[b as int], 1nat, 0nat,
{
    let loc = end_location(l, b);
    lemma_end_uses_used(l, b);
    match l.blocks[b as int].end {
        SpecBlockEnd::Goto(target, remapping) => {
            assert(l.blocks[b as int].end.successors()[0] == target);
            lemma_reachable_successor(l, b, 0);
            lemma_analyze_block_dead(movable, l, rank, target, cache, moves);
            let r = analyze_block(movable, l, rank, target, cache, moves);
            lemma_demand_all_used(l, r.0, remapping_sources(remapping), loc);
        },
        SpecBlockEnd::Return(vars) => {
            lemma_demand_all_used(l, Map::empty(), vars, loc);
            assert(extends(moves, moves));
        },
        SpecBlockEnd::Match { inputs, arms } => {
            lemma_analyze_arms_dead(movable, l, rank, b, arms.len(), cache, moves);
            let r = analyze_arms(movable, l, rank, b, arms.len(), cache, moves);
            lemma_merge_infos_used(l, r.0, loc);
            lemma_demand_all_used(l, merge_infos(r.0, loc), inputs, loc);
        },
        _ => {
            assert(extends(moves, moves));
        },
    }
}

proof fn lemma_analyze_arms_dead(
    movable: Set<FunctionId>,
    l: SpecLowered,
    rank: Seq<nat>,
    b: BlockId,
    k: nat,
    cache: Map<BlockId, NextUse>,
    moves: Seq<Move>,
)
    requires
        valid_rank(l, rank),
        b < l.blocks.len(),
        k <= l.blocks[b as int].end.successors().len(),
        lengths_fit(l),
        blocks_visitable(movable, l),
        reachable(l, b as int),
        dead_cache(movable, l, cache, moves),
    ensures
        analyze_arms(movable, l, rank, b, k, cache, moves).0.len() == k,
        forall|i: int|
            0 <= i < k ==> only_used(l, #[trigger] analyze_arms(movable, l, rank, b, k, cache, moves).0[i]),
        dead_cache(movable, l, analyze_arms(movable, l, rank, b, k, cache, moves).1, analyze_arms(movable, l, rank, b, k, cache, moves).2),
        extends(analyze_arms(movable, l, rank, b, k, cache, moves).2, moves),
        forall|c: BlockId| cache.dom().contains(c) ==> #[trigger] analyze_arms(movable, l, rank, b, k, cache, moves).1.dom().contains(c),
        forall|j: int|
            0 <= j < k ==> analyze_arms(movable, l, rank, b, k, cache, moves).1.dom().contains(
                #[trigger] l.blocks[b as int].end.successors()[j],
            ),
    decreases rank[b as int], 0nat, k,
{
    if k > 0 {
        lemma_analyze_arms_dead(movable, l, rank, b, (k - 1) as nat, cache, moves);
        let r = analyze_arms(movable, l, rank, b, (k - 1) as nat, cache, moves);
        let arm = l.blocks[b as int].end.successors()[k - 1];
        lemma_reachable_successor(l, b, k - 1);
        lemma_analyze_block_dead(movable, l, rank, arm, r.1, r.2);
        let i = analyze_block(movable, l, rank, arm, r.1, r.2);
        assert forall|j: int| 0 <= j < k implies only_used(l, #[trigger] r.0.push(i.0)[j]) by {
            if j < k - 1 {
                assert(r.0.push(i.0)[j] == r.0[j]);
            }
        }
        assert forall|j: int| 0 <= j < k implies i.1.dom().contains(
            #[trigger] l.blocks[b as int].end.successors()[j],
        ) by {
            if j < k - 1 {
                assert(r.1.dom().contains(l.blocks[b as int].end.successors()[j]));
            }
        }
        assert(extends(i.2, moves));
    } else {
        assert(extends(moves, moves));
    }
}

proof fn lemma_path_cached(l: SpecLowered, cache: Map<BlockId, NextUse>, path: Seq<BlockId>, k: int)
    requires
        control_path(l, path),
        0 <= k < path.len(),
        cache.dom().contains(path[0]),
        forall|c: BlockId|
            #[trigger] cache.dom().contains(c) ==> forall|j: int|
                0 <= j < l.blocks[c as int].end.successors().len() ==> cache.dom().contains(
                    #[trigger] l.blocks[c as int].end.successors()[j],
                ),
    ensures
        cache.dom().contains(path[k]),
    decreases k,
{
    if k > 0 {
        lemma_path_cached(l, cache, path, k - 1);
        assert(l.blocks[path[k - 1] as int].end.successors().contains(path[k]));
        let j = choose|j: int|
            0 <= j < l.blocks[path[k - 1] as int].end.successors().len()
                && #[trigger] l.blocks[path[k - 1] as int].end.successors()[j] == path[k];
        assert(cache.dom().contains(l.blocks[path[k - 1] as int].end.successors()[j]));
    }
}

/// The pass removes every statement with no side effect whose outputs nothing
/// in the function reads (a literal, an empty struct, a call to the movable
/// function, or the destructure of a droppable variable), in every block that
/// control reaches from the root: its removal is among the recorded moves.
pub proof fn law_dead_statements_removed(bool_not_func_id: FunctionId, l: SpecLowered, path: Seq<BlockId>, i: int)
    requires
        l.blocks.len() > 0,
        reorderable(set![bool_not_func_id], l),
        lengths_fit(l),
        control_path(l, path),
        path.len() > 0,
        path[0] == 0,
        path.last() < l.blocks.len(),
        0 <= i < l.blocks[path.last() as int].statements.len(),
        dead_statement(set![bool_not_func_id], l, l.blocks[path.last() as int].statements[i]),
    ensures
        root_moves(set![bool_not_func_id], l).contains(((path.last(), i as usize), None)),
{
    let b = path.last();
    let movable = set![bool_not_func_id];
    let rank = choose|rank: Seq<nat>| valid_rank(l, rank);
    assert(dead_cache(movable, l, Map::empty(), seq![]));
    lemma_analyze_block_dead(movable, l, rank, 0, Map::empty(), seq![]);
    let r = analyze_block(movable, l, rank, 0, Map::empty(), seq![]);
    lemma_path_cached(l, r.1, path, path.len() - 1);
    assert(removals_recorded(movable, l, b, r.2));
}


/// Control passes, in one step or more, from block `from` to block `to`.
pub open spec fn flows_to(l: SpecLowered, from: BlockId, to: BlockId) -> bool {
    exists|path: Seq<BlockId>|
        #[trigger] control_path(l, path) && path.len() > 1 && path[0] == from && path.last() == to
}

/// Location `to` comes after location `from`: later in the same block, or in
/// a block that control reaches from the block of `from`.
pub open spec fn goes_forward(l: SpecLowered, from: StatementLocation, to: StatementLocation) -> bool {
    ||| to.0 == from.0 && to.1 > from.1
    ||| flows_to(l, from.0, to.0)
}

/// Every next use in `info` is in block `b` at index `k` or later, or in a
/// block that control reaches from `b`.
pub open spec fn ahead(l: SpecLowered, info: NextUse, b: BlockId, k: int) -> bool {
    forall|v: VariableId|
        #[trigger] info.dom().contains(v) ==> (info[v].0 == b && info[v].1 >= k) || flows_to(l, b, info[v].0)
}

/// Every recorded move that keeps its statement takes it forward.
pub open spec fn forward_moves(l: SpecLowered, moves: Seq<Move>) -> bool {
    forall|i: int|
        0 <= i < moves.len() ==> ((#[trigger] moves[i]).1 matches Some(t) ==> goes_forward(l, moves[i].0, t))
}

/// The cached information of each block is ahead of the block's start.
pub open spec fn ahead_cache(l: SpecLowered, cache: Map<BlockId, NextUse>) -> bool {
    forall|c: BlockId| #[trigger] cache.dom().contains(c) ==> ahead(l, cache[c], c, 0)
}

proof fn lemma_flows_step(l: SpecLowered, b: BlockId, j: int, x: BlockId)
    requires
        b < l.blocks.len(),
        0 <= j < l.blocks[b as int].end.successors().len(),
        x == l.blocks[b as int].end.successors()[j] || flows_to(l, l.blocks[b as int].end.successors()[j], x),
    ensures
        flows_to(l, b, x),
{
    let s = l.blocks[b as int].end.successors()[j];
    assert(l.blocks[b as int].end.successors().contains(s));
    if x == s {
        let path = seq![b, s];
        assert(control_path(l, path)) by {
            assert forall|k: int| 0 <= k < path.len() - 1 implies (#[trigger] path[k]) < l.blocks.len()
                && l.blocks[path[k] as int].end.successors().contains(path[k + 1]) by {
                assert(k == 0);
            }
        }
        assert(path.last() == x);
    } else {
        let p = choose|p: Seq<BlockId>| #[trigger] control_path(l, p) && p.len() > 1 && p[0] == s && p.last() == x;
        let path = seq![b] + p;
        assert(control_path(l, path)) by {
            assert forall|k: int| 0 <= k < path.len() - 1 implies (#[trigger] path[k]) < l.blocks.len()
                && l.blocks[path[k] as int].end.successors().contains(path[k + 1]) by {
                if k == 0 {
                    assert(path[1] == p[0]);
                } else {
                    assert(path[k] == p[k - 1]);
                    assert(path[k + 1] == p[k]);
                    assert(p[k - 1] < l.blocks.len());
                }
            }
        }
        assert(path.last() == p.last());
    }
}

proof fn lemma_ahead_successor(l: SpecLowered, b: BlockId, j: int, info: NextUse, k: int)
    requires
        b < l.blocks.len(),
        0 <= j < l.blocks[b as int].end.successors().len(),
        ahead(l, info, l.blocks[b as int].end.successors()[j], 0),
    ensures
        ahead(l, info, b, k),
{
    assert forall|v: VariableId| #[trigger] info.dom().contains(v) implies (info[v].0 == b && info[v].1 >= k)
        || flows_to(l, b, info[v].0) by {
        lemma_flows_step(l, b, j, info[v].0);
    }
}

proof fn lemma_demand_inputs_ahead(
    l: SpecLowered,
    info: NextUse,
    inputs: Seq<VariableId>,
    loc: StatementLocation,
    target: StatementLocation,
    k: int,
)
    requires
        ahead(l, info, loc.0, k),
        loc.1 >= k,
        (target.0 == loc.0 && target.1 >= k) || flows_to(l, loc.0, target.0),
    ensures
        ahead(l, demand_inputs(info, inputs, loc, target), loc.0, k),
    decreases inputs.len(),
{
    if inputs.len() > 0 {
        lemma_demand_inputs_ahead(l, info, inputs.drop_last(), loc, target, k);
    }
}

proof fn lemma_visit_stmt_ahead(movable: Set<FunctionId>, l: SpecLowered, info: NextUse, b: BlockId, i: int)
    requires
        b < l.blocks.len(),
        0 <= i < l.blocks[b as int].statements.len(),
        i <= usize::MAX,
        ahead(l, info, b, i + 1),
    ensures
        ahead(l, visit_stmt_spec(movable, l.droppable, info, (b, i as usize), l.blocks[b as int].statements[i]).0, b, i),
        visit_stmt_spec(movable, l.droppable, info, (b, i as usize), l.blocks[b as int].statements[i]).1 matches Some(
            m,
        ) ==> m.0 == (b, i as usize) && (m.1 matches Some(t) ==> goes_forward(l, (b, i as usize), t)),
{
    let stmt = l.blocks[b as int].statements[i];
    let loc = (b, i as usize);
    let var = match stmt {
        SpecStatement::Call { outputs, .. } => outputs[0],
        SpecStatement::Literal { output, .. } => output,
        SpecStatement::StructConstruct { output, .. } => output,
        _ => 0,
    };
    if info.dom().contains(var) {
        let inputs = match stmt {
            SpecStatement::Call { inputs, .. } => inputs,
            _ => seq![],
        };
        lemma_demand_inputs_ahead(l, info.remove(var), inputs, loc, info[var], i);
    }
}

proof fn lemma_visit_stmts_ahead(
    movable: Set<FunctionId>,
    l: SpecLowered,
    b: BlockId,
    k: nat,
    info: NextUse,
    moves: Seq<Move>,
)
    requires
        b < l.blocks.len(),
        k <= l.blocks[b as int].statements.len(),
        lengths_fit(l),
        ahead(l, info, b, k as int),
        forward_moves(l, moves),
    ensures
        ahead(l, visit_stmts(movable, l.droppable, b, l.blocks[b as int].statements, k, info, moves).0, b, 0),
        forward_moves(l, visit_stmts(movable, l.droppable, b, l.blocks[b as int].statements, k, info, moves).1),
    decreases k,
{
    let stmts = l.blocks[b as int].statements;
    if k > 0 {
        let i = k - 1;
        assert(stmts.len() <= usize::MAX);
        lemma_visit_stmt_ahead(movable, l, info, b, i);
        let r = visit_stmt_spec(movable, l.droppable, info, (b, i as usize), stmts[i]);
        assert(forward_moves(l, record(moves, r.1))) by {
            let m1 = record(moves, r.1);
            assert forall|x: int| 0 <= x < m1.len() implies ((#[trigger] m1[x]).1 matches Some(t) ==> goes_forward(
                l,
                m1[x].0,
                t,
            )) by {
                if x < moves.len() {
                    assert(m1[x] == moves[x]);
                }
            }
        }
        lemma_visit_stmts_ahead(movable, l, b, (k - 1) as nat, r.0, record(moves, r.1));
    }
}

proof fn lemma_merge_infos_ahead(l: SpecLowered, b: BlockId, infos: Seq<NextUse>, k: int)
    requires
        b < l.blocks.len(),
        k == l.blocks[b as int].statements.len(),
        k <= usize::MAX,
        forall|i: int| 0 <= i < infos.len() ==> ahead(l, #[trigger] infos[i], b, k),
    ensures
        ahead(l, merge_infos(infos, (b, k as usize)), b, k),
    decreases infos.len(),
{
    if infos.len() > 0 {
        lemma_merge_infos_ahead(l, b, infos.drop_last(), k);
        assert(ahead(l, infos[infos.len() - 1], b, k));
    }
}

proof fn lemma_analyze_block_ahead(
    movable: Set<FunctionId>,
    l: SpecLowered,
    rank: Seq<nat>,
    b: BlockId,
    cache: Map<BlockId, NextUse>,
    moves: Seq<Move>,
)
    requires
        valid_rank(l, rank),
        b < l.blocks.len(),
        reachable(l, b as int),
        lengths_fit(l),
        ahead_cache(l, cache),
        forward_moves(l, moves),
    ensures
        ahead(l, analyze_block(movable, l, rank, b, cache, moves).0, b, 0),
        ahead_cache(l, analyze_block(movable, l, rank, b, cache, moves).1),
        forward_moves(l, analyze_block(movable, l, rank, b, cache, moves).2),
    decreases rank[b as int], 2nat, 0nat,
{
    if !cache.dom().contains(b) {
        lemma_analyze_end_ahead(movable, l, rank, b, cache, moves);
        let e = analyze_end(movable, l, rank, b, cache, moves);
        let stmts = l.blocks[b as int].statements;
        lemma_visit_stmts_ahead(movable, l, b, stmts.len(), e.0, e.2);
    }
}

proof fn lemma_analyze_end_ahead(
    movable: Set<FunctionId>,
    l: SpecLowered,
    rank: Seq<nat>,
    b: BlockId,
    cache: Map<BlockId, NextUse>,
    moves: Seq<Move>,
)
    requires
        valid_rank(l, rank),
        b < l.blocks.len(),
        reachable(l, b as int),
        lengths_fit(l),
        ahead_cache(l, cache),
        forward_moves(l, moves),
    ensures
        ahead(l, analyze_end(movable, l, rank, b, cache, moves).0, b, l.blocks[b as int].statements.len() as int),
        ahead_cache(l, analyze_end(movable, l, rank, b, cache, moves).1),
        forward_moves(l, analyze_end(movable, l, rank, b, cache, moves).2),
    decreases rank[b as int], 1nat, 0nat,
{
    let n = l.blocks[b as int].statements.len() as int;
    let loc = end_location(l, b);
    match l.blocks[b as int].end {
        SpecBlockEnd::Goto(target, _) => {
            assert(l.blocks[b as int].end.successors()[0] == target);
            lemma_reachable_successor(l, b, 0);
            lemma_analyze_block_ahead(movable, l, rank, target, cache, moves);
            let r = analyze_block(movable, l, rank, target, cache, moves);
            lemma_ahead_successor(l, b, 0, r.0, n);
        },
        SpecBlockEnd::Return(vars) => {},
        SpecBlockEnd::Match { inputs, arms } => {
            lemma_analyze_arms_ahead(movable, l, rank, b, arms.len(), cache, moves);
            let r = analyze_arms(movable, l, rank, b, arms.len(), cache, moves);
            assert(l.blocks[b as int].statements.len() <= usize::MAX);
            lemma_merge_infos_ahead(l, b, r.0, n);
        },
        _ => {},
    }
}

proof fn lemma_analyze_arms_ahead(
    movable: Set<FunctionId>,
    l: SpecLowered,
    rank: Seq<nat>,
    b: BlockId,
    k: nat,
    cache: Map<BlockId, NextUse>,
    moves: Seq<Move>,
)
    requires
        valid_rank(l, rank),
        b < l.blocks.len(),
        reachable(l, b as int),
        k <= l.blocks[b as int].end.successors().len(),
        lengths_fit(l),
        ahead_cache(l, cache),
        forward_moves(l, moves),
    ensures
        analyze_arms(movable, l, rank, b, k, cache, moves).0.len() == k,
        forall|i: int|
            0 <= i < k ==> ahead(
                l,
                #[trigger] analyze_arms(movable, l, rank, b, k, cache, moves).0[i],
                b,
                l.blocks[b as int].statements.len() as int,
            ),
        ahead_cache(l, analyze_arms(movable, l, rank, b, k, cache, moves).1),
        forward_moves(l, analyze_arms(movable, l, rank, b, k, cache, moves).2),
    decreases rank[b as int], 0nat, k,
{
    if k > 0 {
        let n = l.blocks[b as int].statements.len() as int;
        lemma_analyze_arms_ahead(movable, l, rank, b, (k - 1) as nat, cache, moves);
        let r = analyze_arms(movable, l, rank, b, (k - 1) as nat, cache, moves);
        let arm = l.blocks[b as int].end.successors()[k - 1];
        lemma_reachable_successor(l, b, k - 1);
        lemma_analyze_block_ahead(movable, l, rank, arm, r.1, r.2);
        let i = analyze_block(movable, l, rank, arm, r.1, r.2);
        lemma_ahead_successor(l, b, k - 1, i.0, n);
        assert forall|j: int| 0 <= j < k implies ahead(l, #[trigger] r.0.push(i.0)[j], b, n) by {
            if j < k - 1 {
                assert(r.0.push(i.0)[j] == r.0[j]);
            }
        }
    }
}

/// The pass only moves a statement forward, toward the use of what it
/// defines: later in its own block, or into a block that control reaches from
/// its block.
pub proof fn law_moves_go_forward(bool_not_func_id: FunctionId, l: SpecLowered)
    requires
        l.blocks.len() > 0,
        reorderable(set![bool_not_func_id], l),
        lengths_fit(l),
    ensures
        forall|i: int|
            0 <= i < root_moves(set![bool_not_func_id], l).len() ==> ((#[trigger] root_moves(
                set![bool_not_func_id],
                l,
            )[i]).1 matches Some(t) ==> goes_forward(l, root_moves(set![bool_not_func_id], l)[i].0, t)),
{
    let movable = set![bool_not_func_id];
    let rank = choose|rank: Seq<nat>| valid_rank(l, rank);
    lemma_analyze_block_ahead(movable, l, rank, 0, Map::empty(), seq![]);
}


/// Arm `i` of `infos` has a next use for `v`.
pub open spec fn arm_uses(infos: Seq<NextUse>, i: int, v: VariableId) -> bool {
    0 <= i < infos.len() && infos[i].dom().contains(v)
}

proof fn lemma_merge_infos_char(infos: Seq<NextUse>, loc: StatementLocation)
    ensures
        forall|v: VariableId|
            #[trigger] merge_infos(infos, loc).dom().contains(v) <==> exists|i: int| arm_uses(infos, i, v),
        forall|v: VariableId, i: int, j: int|
            #![trigger arm_uses(infos, i, v), arm_uses(infos, j, v)]
            i != j && arm_uses(infos, i, v) && arm_uses(infos, j, v) ==> merge_infos(infos, loc)[v] == loc,
        forall|v: VariableId, i: int|
            #![trigger arm_uses(infos, i, v)]
            arm_uses(infos, i, v) && (forall|j: int| j != i ==> !arm_uses(infos, j, v)) ==> merge_infos(
                infos,
                loc,
            )[v] == infos[i][v],
    decreases infos.len(),
{
    if infos.len() > 0 {
        let d = infos.drop_last();
        let n = infos.len() - 1;
        lemma_merge_infos_char(d, loc);
        assert forall|v: VariableId, i: int| arm_uses(d, i, v) <==> (i < n && arm_uses(infos, i, v)) by {
            if 0 <= i < n {
                assert(d[i] == infos[i]);
            }
        }
        let m = merge_infos(infos, loc);
        assert forall|v: VariableId| #[trigger] m.dom().contains(v) <==> exists|i: int| arm_uses(infos, i, v) by {
            if m.dom().contains(v) {
                if merge_infos(d, loc).dom().contains(v) {
                    let i = choose|i: int| arm_uses(d, i, v);
                    assert(arm_uses(infos, i, v));
                } else {
                    assert(arm_uses(infos, n, v));
                }
            }
            if exists|i: int| arm_uses(infos, i, v) {
                let i = choose|i: int| arm_uses(infos, i, v);
                if i < n {
                    assert(arm_uses(d, i, v));
                }
            }
        }
        assert forall|v: VariableId, i: int, j: int|
            #![trigger arm_uses(infos, i, v), arm_uses(infos, j, v)]
            i != j && arm_uses(infos, i, v) && arm_uses(infos, j, v) implies m[v] == loc by {
            let (a, b) = if i < j { (i, j) } else { (j, i) };
            assert(arm_uses(d, a, v));
            if b < n {
                assert(arm_uses(d, b, v));
            }
        }
        assert forall|v: VariableId, i: int|
            #![trigger arm_uses(infos, i, v)]
            arm_uses(infos, i, v) && (forall|j: int| j != i ==> !arm_uses(infos, j, v)) implies m[v]
                == infos[i][v] by {
            if i < n {
                assert(arm_uses(d, i, v));
                assert forall|j: int| j != i implies !arm_uses(d, j, v) by {
                    if arm_uses(d, j, v) {
                        assert(arm_uses(infos, j, v));
                    }
                }
                assert(!arm_uses(infos, n, v));
            } else {
                assert(!merge_infos(d, loc).dom().contains(v)) by {
                    if merge_infos(d, loc).dom().contains(v) {
                        let k = choose|k: int| arm_uses(d, k, v);
                        assert(arm_uses(infos, k, v));
                    }
                }
            }
        }
    }
}

/// The order of the arms of a match does not change what the analysis
/// merges at it: where `infos2` holds the arms of `infos` in another order
/// (`perm` gives, for each of its arms, the index of that arm in `infos`),
/// both give the same next uses.
pub proof fn law_merge_arm_order_irrelevant(
    infos: Seq<NextUse>,
    infos2: Seq<NextUse>,
    perm: Seq<int>,
    inputs: Seq<VariableId>,
    loc: StatementLocation,
)
    requires
        perm.len() == infos.len(),
        infos2.len() == infos.len(),
        forall|i: int| 0 <= i < infos.len() ==> 0 <= #[trigger] perm[i] < infos.len() && infos2[i] == infos[perm[i]],
        forall|i: int, j: int| 0 <= i < infos.len() && 0 <= j < infos.len() && i != j ==> perm[i] != perm[j],
        forall|k: int| 0 <= k < infos.len() ==> #[trigger] perm.contains(k),
    ensures
        merge_infos(infos2, loc) == merge_infos(infos, loc),
        merge_match_spec(infos2, inputs, loc) == merge_match_spec(infos, inputs, loc),
{
    lemma_merge_infos_char(infos, loc);
    lemma_merge_infos_char(infos2, loc);
    let m1 = merge_infos(infos, loc);
    let m2 = merge_infos(infos2, loc);
    assert forall|v: VariableId, i: int| arm_uses(infos2, i, v) <==> (0 <= i < infos.len() && arm_uses(infos, perm[i], v)) by {}
    assert forall|v: VariableId, k: int| arm_uses(infos, k, v) implies exists|i: int|
        0 <= i < infos.len() && perm[i] == k && arm_uses(infos2, i, v) by {
        assert(perm.contains(k));
        let i = choose|i: int| 0 <= i < perm.len() && perm[i] == k;
        assert(arm_uses(infos2, i, v));
    }
    assert forall|v: VariableId| m2.dom().contains(v) <==> m1.dom().contains(v) by {
        if m2.dom().contains(v) {
            let i = choose|i: int| arm_uses(infos2, i, v);
            assert(arm_uses(infos, perm[i], v));
        }
        if m1.dom().contains(v) {
            let k = choose|k: int| arm_uses(infos, k, v);
            let i = choose|i: int| 0 <= i < infos.len() && perm[i] == k && arm_uses(infos2, i, v);
            assert(arm_uses(infos2, i, v));
        }
    }
    assert forall|v: VariableId| m1.dom().contains(v) implies m2[v] == m1[v] by {
        let k = choose|k: int| arm_uses(infos, k, v);
        let i = choose|i: int| 0 <= i < infos.len() && perm[i] == k && arm_uses(infos2, i, v);
        if exists|k2: int| k2 != k && arm_uses(infos, k2, v) {
            let k2 = choose|k2: int| k2 != k && arm_uses(infos, k2, v);
            let i2 = choose|i2: int| 0 <= i2 < infos.len() && perm[i2] == k2 && arm_uses(infos2, i2, v);
            assert(m1[v] == loc);
            assert(i2 != i);
            assert(m2[v] == loc);
        } else {
            assert(m1[v] == infos[k][v]);
            assert forall|j: int| j != i implies !arm_uses(infos2, j, v) by {
                if arm_uses(infos2, j, v) {
                    assert(perm[j] != perm[i]);
                    assert(arm_uses(infos, perm[j], v));
                }
            }
            assert(m2[v] == infos2[i][v]);
        }
    }
    assert(m2 =~= m1);
}


/// `x` is the statement that one of `changes` inserts.
pub open spec fn inserted_by(changes: Seq<Change>, x: SpecStatement) -> bool {
    exists|k: int| 0 <= k < changes.len() && #[trigger] changes[k].1 == Some(x)
}

proof fn lemma_apply_changes_from(stmts: Seq<SpecStatement>, changes: Seq<Change>)
    ensures
        forall|i: int|
            0 <= i < apply_changes(stmts, changes).len() ==> stmts.contains(#[trigger] apply_changes(stmts, changes)[i])
                || inserted_by(changes, apply_changes(stmts, changes)[i]),
    decreases changes.len(),
{
    if changes.len() > 0 {
        let d = changes.drop_last();
        let s = apply_changes(stmts, d);
        let c = changes.last();
        lemma_apply_changes_from(stmts, d);
        let r = apply_changes(stmts, changes);
        assert forall|k: int| 0 <= k < d.len() implies changes[k] == d[k] by {}
        assert forall|x: SpecStatement| inserted_by(d, x) implies inserted_by(changes, x) by {
            let k = choose|k: int| 0 <= k < d.len() && #[trigger] d[k].1 == Some(x);
            assert(changes[k].1 == Some(x));
        }
        assert forall|i: int| 0 <= i < r.len() implies stmts.contains(#[trigger] r[i]) || inserted_by(changes, r[i]) by {
            match c.1 {
                Some(st) => {
                    if c.0 <= s.len() {
                        let j = c.0 as int;
                        if i < j {
                            assert(r[i] == s[i]);
                        } else if i == j {
                            assert(changes[changes.len() - 1].1 == Some(st));
                            assert(r[i] == st);
                        } else {
                            assert(r[i] == s[i - 1]);
                        }
                    }
                },
                None => {
                    if c.0 < s.len() {
                        let j = c.0 as int;
                        if i < j {
                            assert(r[i] == s[i]);
                        } else {
                            assert(r[i] == s[i + 1]);
                        }
                    }
                },
            }
        }
    }
}

proof fn lemma_block_changes_from(l: SpecLowered, moves: Seq<Move>, b: BlockId)
    ensures
        forall|x: SpecStatement|
            inserted_by(block_changes(l, moves, b), x) ==> exists|m: int|
                0 <= m < moves.len() && x == l.statement_at(#[trigger] moves[m].0),
    decreases moves.len(),
{
    if moves.len() > 0 {
        let d = moves.drop_last();
        lemma_block_changes_from(l, d, b);
        let prev = block_changes(l, d, b);
        let c = block_changes(l, moves, b);
        let mv = moves.last();
        assert forall|x: SpecStatement| inserted_by(c, x) implies exists|m: int|
            0 <= m < moves.len() && x == l.statement_at(#[trigger] moves[m].0) by {
            let k = choose|k: int| 0 <= k < c.len() && #[trigger] c[k].1 == Some(x);
            if k < prev.len() {
                assert(c[k] == prev[k]);
                assert(inserted_by(prev, x));
                let m = choose|m: int| 0 <= m < d.len() && x == l.statement_at(#[trigger] d[m].0);
                assert(moves[m] == d[m]);
            } else {
                assert(x == l.statement_at(moves[moves.len() - 1].0));
            }
        }
    }
}

/// The pass creates no statement: every statement of the function after it
/// is a statement of the function before it.
pub proof fn law_no_statement_created(bool_not_func_id: FunctionId, l: SpecLowered)
    requires
        l.blocks.len() > 0,
        reorderable(set![bool_not_func_id], l),
        lengths_fit(l),
    ensures
        forall|b: int, i: int|
            0 <= b < l.blocks.len() && 0 <= i < reordered(bool_not_func_id, l).blocks[b].statements.len()
                ==> exists|b2: int, i2: int|
                0 <= b2 < l.blocks.len() && 0 <= i2 < l.blocks[b2].statements.len() && #[trigger] reordered(
                    bool_not_func_id,
                    l,
                ).blocks[b].statements[i] == l.blocks[b2].statements[i2],
{
    let movable = set![bool_not_func_id];
    law_only_movable_statements_move(bool_not_func_id, l);
    let moves = root_moves(movable, l);
    assert forall|b: int, i: int|
        0 <= b < l.blocks.len() && 0 <= i < reordered(bool_not_func_id, l).blocks[b].statements.len()
            implies exists|b2: int, i2: int|
            0 <= b2 < l.blocks.len() && 0 <= i2 < l.blocks[b2].statements.len() && #[trigger] reordered(
                bool_not_func_id,
                l,
            ).blocks[b].statements[i] == l.blocks[b2].statements[i2] by {
        let stmts = l.blocks[b].statements;
        let bc = block_changes(l, moves, b as usize);
        let changes = sort_desc(bc);
        let r = apply_changes(stmts, changes);
        assert(reordered(bool_not_func_id, l).blocks[b].statements == r);
        lemma_apply_changes_from(stmts, changes);
        let x = r[i];
        if stmts.contains(x) {
            let i2 = choose|i2: int| 0 <= i2 < stmts.len() && stmts[i2] == x;
            assert(l.blocks[b].statements[i2] == x);
        } else {
            assert(inserted_by(changes, x));
            let k = choose|k: int| 0 <= k < changes.len() && #[trigger] changes[k].1 == Some(x);
            lemma_sort_desc_elements(bc);
            assert(bc.contains(changes[k]));
            let k2 = choose|k2: int| 0 <= k2 < bc.len() && bc[k2] == changes[k];
            assert(bc[k2].1 == Some(x));
            assert(inserted_by(bc, x));
            lemma_block_changes_from(l, moves, b as usize);
            let m = choose|m: int| 0 <= m < moves.len() && x == l.statement_at(#[trigger] moves[m].0);
            assert(valid_move(movable, l, moves[m]));
            let loc = moves[m].0;
            assert(l.blocks[loc.0 as int].statements[loc.1 as int] == x);
        }
    }
}


/// No two moves take the statement at the same location.
pub open spec fn sources_distinct(moves: Seq<Move>) -> bool {
    forall|i: int, j: int| 0 <= i < moves.len() && 0 <= j < moves.len() && i != j ==> moves[i].0 != moves[j].0
}

/// Every move takes a statement of a block that `cache` holds.
pub open spec fn sources_cached(moves: Seq<Move>, cache: Map<BlockId, NextUse>) -> bool {
    forall|i: int| 0 <= i < moves.len() ==> cache.dom().contains(#[trigger] moves[i].0.0)
}

/// Every block that `cache` holds is one that control reaches from the root.
pub open spec fn cache_reachable(l: SpecLowered, cache: Map<BlockId, NextUse>) -> bool {
    forall|x: BlockId| #[trigger] cache.dom().contains(x) ==> reachable(l, x as int)
}

/// `after` holds every block of `before`, and the others it holds have a rank
/// below `bound`.
pub open spec fn cache_grows(
    rank: Seq<nat>,
    before: Map<BlockId, NextUse>,
    after: Map<BlockId, NextUse>,
    bound: nat,
) -> bool {
    &&& forall|x: BlockId| #[trigger] before.dom().contains(x) ==> after.dom().contains(x)
    &&& forall|x: BlockId| #[trigger] after.dom().contains(x) ==> before.dom().contains(x) || rank[x as int] < bound
}

proof fn lemma_visit_stmts_sources(
    movable: Set<FunctionId>,
    droppable: Seq<bool>,
    b: BlockId,
    stmts: Seq<SpecStatement>,
    k: nat,
    info: NextUse,
    moves: Seq<Move>,
)
    requires
        k <= stmts.len() <= usize::MAX,
    ensures
        ({
            let r = visit_stmts(movable, droppable, b, stmts, k, info, moves).1;
            &&& r.len() >= moves.len()
            &&& forall|i: int| 0 <= i < moves.len() ==> r[i] == moves[i]
            &&& forall|i: int| moves.len() <= i < r.len() ==> (#[trigger] r[i]).0.0 == b && r[i].0.1 < k
            &&& forall|i: int, j: int| moves.len() <= i < j < r.len() ==> (#[trigger] r[i]).0.1 > (#[trigger] r[j]).0.1
        }),
    decreases k,
{
    if k > 0 {
        let loc = (b, (k - 1) as usize);
        let v = visit_stmt_spec(movable, droppable, info, loc, stmts[k - 1]);
        assert(v.1 matches Some(m) ==> m.0 == loc);
        let moves2 = record(moves, v.1);
        lemma_visit_stmts_sources(movable, droppable, b, stmts, (k - 1) as nat, v.0, moves2);
    }
}


proof fn lemma_analyze_block_sources(
    movable: Set<FunctionId>,
    l: SpecLowered,
    rank: Seq<nat>,
    b: BlockId,
    cache: Map<BlockId, NextUse>,
    moves: Seq<Move>,
)
    requires
        valid_rank(l, rank),
        b < l.blocks.len(),
        reachable(l, b as int),
        lengths_fit(l),
        sources_distinct(moves),
        sources_cached(moves, cache),
        cache_reachable(l, cache),
    ensures
        sources_distinct(analyze_block(movable, l, rank, b, cache, moves).2),
        sources_cached(analyze_block(movable, l, rank, b, cache, moves).2, analyze_block(movable, l, rank, b, cache, moves).1),
        cache_grows(rank, cache, analyze_block(movable, l, rank, b, cache, moves).1, rank[b as int] + 1),
        cache_reachable(l, analyze_block(movable, l, rank, b, cache, moves).1),
    decreases rank[b as int], 2nat, 0nat,
{
    if !cache.dom().contains(b) {
        lemma_analyze_end_sources(movable, l, rank, b, cache, moves);
        let e = analyze_end(movable, l, rank, b, cache, moves);
        let stmts = l.blocks[b as int].statements;
        assert(stmts.len() <= usize::MAX);
        lemma_visit_stmts_sources(movable, l.droppable, b, stmts, stmts.len(), e.0, e.2);
        let v = visit_stmts(movable, l.droppable, b, stmts, stmts.len(), e.0, e.2);
        let c = e.1.insert(b, v.0);
        assert(!e.1.dom().contains(b));
        let r = v.1;
        assert forall|i: int, j: int| 0 <= i < r.len() && 0 <= j < r.len() && i != j implies r[i].0 != r[j].0 by {
            if i < e.2.len() && j < e.2.len() {
                assert(r[i] == e.2[i] && r[j] == e.2[j]);
            } else if i < e.2.len() {
                assert(r[i] == e.2[i]);
                assert(e.1.dom().contains(e.2[i].0.0));
                assert(r[j].0.0 == b);
            } else if j < e.2.len() {
                assert(r[j] == e.2[j]);
                assert(e.1.dom().contains(e.2[j].0.0));
                assert(r[i].0.0 == b);
            } else if i < j {
                assert(r[i].0.1 > r[j].0.1);
            } else {
                assert(r[j].0.1 > r[i].0.1);
            }
        }
        assert forall|i: int| 0 <= i < r.len() implies c.dom().contains(#[trigger] r[i].0.0) by {
            if i < e.2.len() {
                assert(r[i] == e.2[i]);
                assert(e.1.dom().contains(e.2[i].0.0));
            }
        }
    }
}

proof fn lemma_analyze_end_sources(
    movable: Set<FunctionId>,
    l: SpecLowered,
    rank: Seq<nat>,
    b: BlockId,
    cache: Map<BlockId, NextUse>,
    moves: Seq<Move>,
)
    requires
        valid_rank(l, rank),
        b < l.blocks.len(),
        reachable(l, b as int),
        lengths_fit(l),
        sources_distinct(moves),
        sources_cached(moves, cache),
        cache_reachable(l, cache),
    ensures
        sources_distinct(analyze_end(movable, l, rank, b, cache, moves).2),
        sources_cached(analyze_end(movable, l, rank, b, cache, moves).2, analyze_end(movable, l, rank, b, cache, moves).1),
        cache_grows(rank, cache, analyze_end(movable, l, rank, b, cache, moves).1, rank[b as int]),
        cache_reachable(l, analyze_end(movable, l, rank, b, cache, moves).1),
    decreases rank[b as int], 1nat, 0nat,
{
    match l.blocks[b as int].end {
        SpecBlockEnd::Goto(target, remapping) => {
            assert(l.blocks[b as int].end.successors()[0] == target);
            lemma_reachable_successor(l, b, 0);
            lemma_analyze_block_sources(movable, l, rank, target, cache, moves);
        },
        SpecBlockEnd::Match { inputs, arms } => {
            lemma_analyze_arms_sources(movable, l, rank, b, arms.len(), cache, moves);
        },
        _ => {},
    }
}

proof fn lemma_analyze_arms_sources(
    movable: Set<FunctionId>,
    l: SpecLowered,
    rank: Seq<nat>,
    b: BlockId,
    k: nat,
    cache: Map<BlockId, NextUse>,
    moves: Seq<Move>,
)
    requires
        valid_rank(l, rank),
        b < l.blocks.len(),
        reachable(l, b as int),
        k <= l.blocks[b as int].end.successors().len(),
        lengths_fit(l),
        sources_distinct(moves),
        sources_cached(moves, cache),
        cache_reachable(l, cache),
    ensures
        sources_distinct(analyze_arms(movable, l, rank, b, k, cache, moves).2),
        sources_cached(analyze_arms(movable, l, rank, b, k, cache, moves).2, analyze_arms(movable, l, rank, b, k, cache, moves).1),
        cache_grows(rank, cache, analyze_arms(movable, l, rank, b, k, cache, moves).1, rank[b as int]),
        cache_reachable(l, analyze_arms(movable, l, rank, b, k, cache, moves).1),
    decreases rank[b as int], 0nat, k,
{
    if k > 0 {
        lemma_analyze_arms_sources(movable, l, rank, b, (k - 1) as nat, cache, moves);
        let r = analyze_arms(movable, l, rank, b, (k - 1) as nat, cache, moves);
        let arm = l.blocks[b as int].end.successors()[k - 1];
        lemma_reachable_successor(l, b, k - 1);
        lemma_analyze_block_sources(movable, l, rank, arm, r.1, r.2);
    }
}


/// Each removal among `c` occurs in it once.
pub open spec fn removals_distinct(c: Seq<Change>) -> bool {
    forall|i: int, j: int| 0 <= i < c.len() && 0 <= j < c.len() && i != j && c[i].1 is None ==> c[i] != c[j]
}

/// The changes come by decreasing index.
pub open spec fn sorted_desc(c: Seq<Change>) -> bool {
    forall|i: int, j: int| 0 <= i < j < c.len() ==> c[i].0 >= c[j].0
}

/// Each removal among `c` takes a statement of `stmts` that may be moved, and
/// each insertion puts such a statement at most at the end.
pub open spec fn changes_movable(
    movable: Set<FunctionId>,
    droppable: Seq<bool>,
    stmts: Seq<SpecStatement>,
    c: Seq<Change>,
) -> bool {
    forall|i: int|
        0 <= i < c.len() ==> match (#[trigger] c[i]).1 {
            None => c[i].0 < stmts.len() && movable_kind(movable, droppable, stmts[c[i].0 as int]),
            Some(st) => c[i].0 <= stmts.len() && movable_kind(movable, droppable, st),
        }
}

proof fn lemma_block_changes_props(movable: Set<FunctionId>, l: SpecLowered, moves: Seq<Move>, b: BlockId)
    requires
        b < l.blocks.len(),
        valid_moves(movable, l, moves),
        sources_distinct(moves),
    ensures
        forall|i: int|
            0 <= i < block_changes(l, moves, b).len() && (#[trigger] block_changes(l, moves, b)[i]).1 is None
                ==> exists|k: int| 0 <= k < moves.len() && #[trigger] moves[k].0 == (b, block_changes(l, moves, b)[i].0),
        removals_distinct(block_changes(l, moves, b)),
        changes_movable(movable, l.droppable, l.blocks[b as int].statements, block_changes(l, moves, b)),
    decreases moves.len(),
{
    if moves.len() > 0 {
        let d = moves.drop_last();
        assert(valid_moves(movable, l, d)) by {
            assert forall|i: int| 0 <= i < d.len() implies valid_move(movable, l, #[trigger] d[i]) by {
                assert(d[i] == moves[i]);
            }
        }
        assert(sources_distinct(d)) by {
            assert forall|i: int, j: int| 0 <= i < d.len() && 0 <= j < d.len() && i != j implies d[i].0 != d[j].0 by {
                assert(d[i] == moves[i] && d[j] == moves[j]);
            }
        }
        lemma_block_changes_props(movable, l, d, b);
        let prev = block_changes(l, d, b);
        let c = block_changes(l, moves, b);
        let m = moves.last();
        let n = moves.len() - 1;
        assert(valid_move(movable, l, moves[n]));
        let stmts = l.blocks[b as int].statements;
        assert forall|i: int| 0 <= i < c.len() && (#[trigger] c[i]).1 is None implies exists|k: int|
            0 <= k < moves.len() && #[trigger] moves[k].0 == (b, c[i].0) by {
            if i < prev.len() {
                assert(c[i] == prev[i]);
                let k = choose|k: int| 0 <= k < d.len() && #[trigger] d[k].0 == (b, prev[i].0);
                assert(moves[k] == d[k]);
            } else {
                assert(moves[n].0 == (b, c[i].0));
            }
        }
        assert forall|i: int, j: int| 0 <= i < c.len() && 0 <= j < c.len() && i != j && c[i].1 is None implies c[i]
            != c[j] by {
            if i < prev.len() && j < prev.len() {
                assert(c[i] == prev[i] && c[j] == prev[j]);
            } else if i < prev.len() {
                assert(c[i] == prev[i]);
                if c[j].1 is None {
                    assert(c[j] == (m.0.1, None::<SpecStatement>));
                    let k = choose|k: int| 0 <= k < d.len() && #[trigger] d[k].0 == (b, prev[i].0);
                    assert(moves[k] == d[k]);
                    assert(moves[k].0 != moves[n].0);
                }
            } else if j < prev.len() {
                assert(c[j] == prev[j]);
                assert(c[i] == (m.0.1, None::<SpecStatement>));
                if c[j].1 is None {
                    let k = choose|k: int| 0 <= k < d.len() && #[trigger] d[k].0 == (b, prev[j].0);
                    assert(moves[k] == d[k]);
                    assert(moves[k].0 != moves[n].0);
                }
            }
        }
        assert forall|i: int| 0 <= i < c.len() implies match (#[trigger] c[i]).1 {
            None => c[i].0 < stmts.len() && movable_kind(movable, l.droppable, stmts[c[i].0 as int]),
            Some(st) => c[i].0 <= stmts.len() && movable_kind(movable, l.droppable, st),
        } by {
            if i < prev.len() {
                assert(c[i] == prev[i]);
            }
        }
    }
}


proof fn lemma_insert_desc_order(s: Seq<Change>, x: Change)
    requires
        sorted_desc(s),
        removals_distinct(s),
        x.1 is None ==> !s.contains(x),
    ensures
        sorted_desc(insert_desc(s, x)),
        removals_distinct(insert_desc(s, x)),
    decreases s.len(),
{
    lemma_insert_desc_elements(s, x);
    let r = insert_desc(s, x);
    if s.len() == 0 {
    } else if s.last().0 >= x.0 {
        assert forall|i: int, j: int| 0 <= i < j < r.len() implies r[i].0 >= r[j].0 by {
            if j < s.len() {
                assert(r[i] == s[i] && r[j] == s[j]);
            } else {
                assert(r[i] == s[i]);
                assert(s[i].0 >= s[s.len() - 1].0);
            }
        }
        assert forall|i: int, j: int| 0 <= i < r.len() && 0 <= j < r.len() && i != j && r[i].1 is None implies r[i]
            != r[j] by {
            if i < s.len() && j < s.len() {
                assert(r[i] == s[i] && r[j] == s[j]);
            } else if i < s.len() {
                assert(r[i] == s[i] && r[j] == x);
            } else {
                assert(r[j] == s[j] && r[i] == x);
            }
        }
    } else {
        let d = s.drop_last();
        let y = s.last();
        assert(sorted_desc(d) && removals_distinct(d)) by {
            assert forall|i: int| 0 <= i < d.len() implies d[i] == s[i] by {}
        }
        assert(x.1 is None ==> !d.contains(x)) by {
            if x.1 is None && d.contains(x) {
                let k = choose|k: int| 0 <= k < d.len() && d[k] == x;
                assert(s[k] == x);
            }
        }
        lemma_insert_desc_order(d, x);
        let t = insert_desc(d, x);
        lemma_insert_desc_elements(d, x);
        assert(r == t.push(y));
        assert forall|i: int| 0 <= i < t.len() implies (#[trigger] t[i]).0 >= y.0 && (y.1 is None ==> t[i] != y) by {
            assert(d.push(x).contains(t[i]));
            let k = choose|k: int| 0 <= k < d.push(x).len() && d.push(x)[k] == t[i];
            if k < d.len() {
                assert(t[i] == s[k]);
            } else {
                assert(t[i] == x);
                assert(s[s.len() - 1] == y);
            }
        }
        assert forall|i: int, j: int| 0 <= i < j < r.len() implies r[i].0 >= r[j].0 by {
            assert(r[i] == t[i]);
            if j < t.len() {
                assert(r[j] == t[j]);
            }
        }
        assert forall|i: int, j: int| 0 <= i < r.len() && 0 <= j < r.len() && i != j && r[i].1 is None implies r[i]
            != r[j] by {
            if i < t.len() && j < t.len() {
                assert(r[i] == t[i] && r[j] == t[j]);
            } else if i < t.len() {
                assert(r[i] == t[i] && r[j] == y);
            } else {
                assert(r[j] == t[j] && r[i] == y);
            }
        }
    }
}

proof fn lemma_sort_desc_order(s: Seq<Change>)
    requires
        removals_distinct(s),
    ensures
        sorted_desc(sort_desc(s)),
        removals_distinct(sort_desc(s)),
    decreases s.len(),
{
    if s.len() > 0 {
        let d = s.drop_last();
        let x = s.last();
        assert(removals_distinct(d)) by {
            assert forall|i: int| 0 <= i < d.len() implies d[i] == s[i] by {}
        }
        lemma_sort_desc_order(d);
        lemma_sort_desc_elements(d);
        let t = sort_desc(d);
        assert(x.1 is None ==> !t.contains(x)) by {
            if x.1 is None && t.contains(x) {
                let k = choose|k: int| 0 <= k < t.len() && t[k] == x;
                assert(d.contains(t[k]));
                let m = choose|m: int| 0 <= m < d.len() && d[m] == t[k];
                assert(s[m] == s[s.len() - 1]);
            }
        }
        lemma_insert_desc_order(t, x);
    }
}


/// The test for a statement that the pass never moves nor removes.
pub open spec fn fixed_pred(movable: Set<FunctionId>, droppable: Seq<bool>) -> spec_fn(SpecStatement) -> bool {
    |x: SpecStatement| !movable_kind(movable, droppable, x)
}

/// The statements of `stmts` that the pass never moves nor removes, in order.
pub open spec fn fixed_statements(
    movable: Set<FunctionId>,
    droppable: Seq<bool>,
    stmts: Seq<SpecStatement>,
) -> Seq<SpecStatement> {
    stmts.filter(fixed_pred(movable, droppable))
}

proof fn lemma_filter_insert_remove(
    s: Seq<SpecStatement>,
    p: int,
    x: SpecStatement,
    pred: spec_fn(SpecStatement) -> bool,
)
    requires
        0 <= p <= s.len(),
        !pred(x),
    ensures
        s.insert(p, x).filter(pred) == s.filter(pred),
        p < s.len() && !pred(s[p]) ==> s.remove(p).filter(pred) == s.filter(pred),
{
    let a = s.take(p);
    let b = s.skip(p);
    assert(s =~= a + b);
    assert(s.insert(p, x) =~= a.push(x) + b);
    Seq::filter_distributes_over_add(a.push(x), b, pred);
    Seq::filter_distributes_over_add(a, b, pred);
    a.lemma_filter_push(x, pred);
    if p < s.len() && !pred(s[p]) {
        let b2 = s.skip(p + 1);
        assert(s =~= a.push(s[p]) + b2);
        assert(s.remove(p) =~= a + b2);
        Seq::filter_distributes_over_add(a.push(s[p]), b2, pred);
        Seq::filter_distributes_over_add(a, b2, pred);
        a.lemma_filter_push(s[p], pred);
    }
}

/// The index of the change made last, or the end of `stmts` before any.
pub open spec fn last_index(stmts: Seq<SpecStatement>, changes: Seq<Change>) -> int {
    if changes.len() == 0 {
        stmts.len() as int
    } else {
        changes.last().0 as int
    }
}

proof fn lemma_apply_keeps_fixed(
    movable: Set<FunctionId>,
    droppable: Seq<bool>,
    stmts: Seq<SpecStatement>,
    changes: Seq<Change>,
)
    requires
        sorted_desc(changes),
        removals_distinct(changes),
        changes_movable(movable, droppable, stmts, changes),
    ensures
        ({
            let s = apply_changes(stmts, changes);
            let t = last_index(stmts, changes);
            let pred = fixed_pred(movable, droppable);
            &&& 0 <= t <= s.len()
            &&& s.take(t) == stmts.take(t)
            &&& s.filter(pred) == stmts.filter(pred)
            &&& (t < s.len() && !changes.contains((t as usize, None::<SpecStatement>))) ==> (s[t] == stmts[t]
                || movable_kind(movable, droppable, s[t]))
        }),
    decreases changes.len(),
{
    let pred = fixed_pred(movable, droppable);
    if changes.len() > 0 {
        let n = changes.len() - 1;
        let d = changes.drop_last();
        assert forall|i: int| 0 <= i < d.len() implies d[i] == changes[i] by {}
        assert(sorted_desc(d));
        assert(removals_distinct(d));
        assert(changes_movable(movable, droppable, stmts, d)) by {
            assert forall|i: int| 0 <= i < d.len() implies #[trigger] d[i] == changes[i] by {}
        }
        lemma_apply_keeps_fixed(movable, droppable, stmts, d);
        let s0 = apply_changes(stmts, d);
        let t0 = last_index(stmts, d);
        let c = changes[n];
        let t = c.0 as int;
        let s = apply_changes(stmts, changes);
        assert(t == last_index(stmts, changes));
        if n > 0 {
            assert(changes[n - 1].0 >= changes[n].0);
            assert(t <= t0);
        } else {
            assert(t <= t0);
        }
        assert(s0.take(t) =~= stmts.take(t)) by {
            assert forall|i: int| 0 <= i < t implies s0.take(t)[i] == stmts.take(t)[i] by {
                assert(s0.take(t0)[i] == stmts.take(t0)[i]);
            }
        }
        match c.1 {
            Some(st) => {
                assert(movable_kind(movable, droppable, st));
                lemma_filter_insert_remove(s0, t, st, pred);
                assert(s == s0.insert(t, st));
                assert(s.take(t) =~= s0.take(t));
            },
            None => {
                if t < s0.len() {
                    assert(s == s0.remove(t));
                    assert(s.take(t) =~= s0.take(t));
                    assert(movable_kind(movable, droppable, stmts[t]));
                    if t < t0 {
                        assert(s0.take(t0)[t] == stmts.take(t0)[t]);
                    } else {
                        assert(n > 0);
                        assert(!d.contains((t as usize, None::<SpecStatement>))) by {
                            if d.contains((t as usize, None::<SpecStatement>)) {
                                let k = choose|k: int| 0 <= k < d.len() && d[k] == (t as usize, None::<SpecStatement>);
                                assert(changes[k] == changes[n]);
                            }
                        }
                    }
                    assert(!pred(s0[t]));
                    lemma_filter_insert_remove(s0, t, s0[t], pred);
                }
                assert(changes[n] == (t as usize, None::<SpecStatement>));
                assert(changes.contains((t as usize, None::<SpecStatement>)));
            },
        }
    }
}

/// Within each block, the statements that the pass may not move keep their
/// order: only literals, calls to the movable function, constructions of
/// empty structs and destructures of droppable variables change places or go.
pub proof fn law_fixed_statements_keep_order(bool_not_func_id: FunctionId, l: SpecLowered)
    requires
        l.blocks.len() > 0,
        reorderable(set![bool_not_func_id], l),
        lengths_fit(l),
    ensures
        forall|b: int|
            0 <= b < l.blocks.len() ==> fixed_statements(
                set![bool_not_func_id],
                l.droppable,
                #[trigger] reordered(bool_not_func_id, l).blocks[b].statements,
            ) == fixed_statements(set![bool_not_func_id], l.droppable, l.blocks[b].statements),
{
    let movable = set![bool_not_func_id];
    assert forall|b: int| 0 <= b < l.blocks.len() implies fixed_statements(
        movable,
        l.droppable,
        #[trigger] reordered(bool_not_func_id, l).blocks[b].statements,
    ) == fixed_statements(movable, l.droppable, l.blocks[b].statements) by {
        let stmts = l.blocks[b].statements;
        let changes = sort_desc(block_changes(l, root_moves(movable, l), b as usize));
        lemma_block_sorted_changes(bool_not_func_id, l, b);
        lemma_apply_keeps_fixed(movable, l.droppable, stmts, changes);
        assert(reordered(bool_not_func_id, l).blocks[b].statements == apply_changes(stmts, changes));
    }
}


/// The number of removals among `c`.
pub open spec fn removal_count(c: Seq<Change>) -> nat
    decreases c.len(),
{
    if c.len() == 0 {
        0
    } else {
        removal_count(c.drop_last()) + if c.last().1 is None {
            1nat
        } else {
            0nat
        }
    }
}

/// The index of the last removal among `c`, if there is one.
pub open spec fn last_removal(c: Seq<Change>) -> Option<usize>
    decreases c.len(),
{
    if c.len() == 0 {
        None
    } else if c.last().1 is None {
        Some(c.last().0)
    } else {
        last_removal(c.drop_last())
    }
}

/// The change `c` can be made to `s`: an insertion at most at its end, a
/// removal of one of its statements.
pub open spec fn change_fits(s: Seq<SpecStatement>, c: Change) -> bool {
    match c.1 {
        Some(_) => c.0 <= s.len(),
        None => c.0 < s.len(),
    }
}

proof fn lemma_apply_in_range(
    movable: Set<FunctionId>,
    droppable: Seq<bool>,
    stmts: Seq<SpecStatement>,
    changes: Seq<Change>,
)
    requires
        sorted_desc(changes),
        removals_distinct(changes),
        changes_movable(movable, droppable, stmts, changes),
    ensures
        ({
            let s = apply_changes(stmts, changes);
            let t = last_index(stmts, changes);
            let k = removal_count(changes);
            &&& 0 <= t <= s.len()
            &&& s.len() + k >= stmts.len()
            &&& (k > 0) == (last_removal(changes) is Some)
            &&& last_removal(changes) matches Some(r) ==> r >= t && r + k <= stmts.len() && changes.contains(
                (r, None::<SpecStatement>),
            )
            &&& changes.len() > 0 ==> change_fits(apply_changes(stmts, changes.drop_last()), changes.last())
        }),
    decreases changes.len(),
{
    if changes.len() > 0 {
        let n = changes.len() - 1;
        let d = changes.drop_last();
        assert forall|i: int| 0 <= i < d.len() implies d[i] == changes[i] by {}
        assert(sorted_desc(d));
        assert(removals_distinct(d));
        assert(changes_movable(movable, droppable, stmts, d)) by {
            assert forall|i: int| 0 <= i < d.len() implies #[trigger] d[i] == changes[i] by {}
        }
        lemma_apply_in_range(movable, droppable, stmts, d);
        let s0 = apply_changes(stmts, d);
        let t0 = last_index(stmts, d);
        let k0 = removal_count(d);
        let c = changes[n];
        let x = c.0 as int;
        assert(c == changes.last());
        if n > 0 {
            assert(changes[n - 1].0 >= changes[n].0);
        }
        assert(x <= t0);
        match c.1 {
            Some(st) => {
                assert(change_fits(s0, c));
                if let Some(r) = last_removal(d) {
                    let q = choose|q: int| 0 <= q < d.len() && d[q] == (r, None::<SpecStatement>);
                    assert(changes[q] == (r, None::<SpecStatement>));
                }
            },
            None => {
                assert(x < stmts.len());
                match last_removal(d) {
                    Some(r) => {
                        let q = choose|q: int| 0 <= q < d.len() && d[q] == (r, None::<SpecStatement>);
                        assert(changes[q] == d[q]);
                        assert(changes[q] != changes[n]);
                        assert(x < r);
                    },
                    None => {},
                }
                assert(change_fits(s0, c));
                assert(changes[n] == (c.0, None::<SpecStatement>));
            },
        }
    }
}

/// The changes that the pass makes to block `b`, by decreasing index, with
/// their properties: no removal twice, and only statements that may be
/// moved are taken or put.
proof fn lemma_block_sorted_changes(bool_not_func_id: FunctionId, l: SpecLowered, b: int)
    requires
        l.blocks.len() > 0,
        reorderable(set![bool_not_func_id], l),
        lengths_fit(l),
        0 <= b < l.blocks.len(),
    ensures
        ({
            let movable = set![bool_not_func_id];
            let c = sort_desc(block_changes(l, root_moves(movable, l), b as usize));
            &&& sorted_desc(c)
            &&& removals_distinct(c)
            &&& changes_movable(movable, l.droppable, l.blocks[b].statements, c)
        }),
{
    let movable = set![bool_not_func_id];
    law_only_movable_statements_move(bool_not_func_id, l);
    let rank = choose|rank: Seq<nat>| valid_rank(l, rank);
    lemma_analyze_block_sources(movable, l, rank, 0, Map::empty(), seq![]);
    let moves = root_moves(movable, l);
    let stmts = l.blocks[b].statements;
    let bc = block_changes(l, moves, b as usize);
    lemma_block_changes_props(movable, l, moves, b as usize);
    lemma_sort_desc_order(bc);
    lemma_sort_desc_elements(bc);
    let changes = sort_desc(bc);
    assert forall|i: int| 0 <= i < changes.len() implies match (#[trigger] changes[i]).1 {
        None => changes[i].0 < stmts.len() && movable_kind(movable, l.droppable, stmts[changes[i].0 as int]),
        Some(st) => changes[i].0 <= stmts.len() && movable_kind(movable, l.droppable, st),
    } by {
        assert(bc.contains(changes[i]));
        let k = choose|k: int| 0 <= k < bc.len() && bc[k] == changes[i];
        assert(bc[k] == changes[i]);
    }
}

/// Each change that the pass makes to a block can be made where it comes: an
/// insertion at most at the end of the statements at that point, a removal of
/// one of them.
pub proof fn law_changes_fit(bool_not_func_id: FunctionId, l: SpecLowered, b: int)
    requires
        l.blocks.len() > 0,
        reorderable(set![bool_not_func_id], l),
        lengths_fit(l),
        0 <= b < l.blocks.len(),
    ensures
        ({
            let c = sort_desc(block_changes(l, root_moves(set![bool_not_func_id], l), b as usize));
            forall|j: int| 0 <= j < c.len() ==> change_fits(apply_changes(l.blocks[b].statements, c.take(j)), #[trigger] c[j])
        }),
{
    let movable = set![bool_not_func_id];
    let c = sort_desc(block_changes(l, root_moves(movable, l), b as usize));
    let stmts = l.blocks[b].statements;
    lemma_block_sorted_changes(bool_not_func_id, l, b);
    assert forall|j: int| 0 <= j < c.len() implies change_fits(apply_changes(stmts, c.take(j)), #[trigger] c[j]) by {
        let p = c.take(j + 1);
        assert forall|i: int| 0 <= i < p.len() implies #[trigger] p[i] == c[i] by {}
        assert(sorted_desc(p));
        assert(removals_distinct(p));
        assert(changes_movable(movable, l.droppable, stmts, p));
        lemma_apply_in_range(movable, l.droppable, stmts, p);
        assert(p.drop_last() =~= c.take(j));
    }
}


proof fn lemma_same_ends_same_paths(l: SpecLowered, l2: SpecLowered)
    requires
        l2.blocks.len() == l.blocks.len(),
        forall|b: int| 0 <= b < l.blocks.len() ==> #[trigger] l2.blocks[b].end == l.blocks[b].end,
    ensures
        forall|b: int| #[trigger] reachable(l2, b) == reachable(l, b),
{
    assert forall|p: Seq<BlockId>| #[trigger] control_path(l2, p) == control_path(l, p) by {
        if control_path(l, p) {
            assert forall|k: int| 0 <= k < p.len() - 1 implies (#[trigger] p[k]) < l2.blocks.len()
                && l2.blocks[p[k] as int].end.successors().contains(p[k + 1]) by {
                assert(p[k] < l.blocks.len());
                assert(l2.blocks[p[k] as int].end == l.blocks[p[k] as int].end);
            }
        }
        if control_path(l2, p) {
            assert forall|k: int| 0 <= k < p.len() - 1 implies (#[trigger] p[k]) < l.blocks.len()
                && l.blocks[p[k] as int].end.successors().contains(p[k + 1]) by {
                assert(p[k] < l2.blocks.len());
                assert(l2.blocks[p[k] as int].end == l.blocks[p[k] as int].end);
            }
        }
    }
    assert forall|b: int| #[trigger] reachable(l2, b) == reachable(l, b) by {
        if flows_to(l, 0, b as BlockId) {
            let p = choose|p: Seq<BlockId>| #[trigger] control_path(l, p) && p.len() > 1 && p[0] == 0 && p.last() == b as BlockId;
            assert(control_path(l2, p));
        }
        if flows_to(l2, 0, b as BlockId) {
            let p = choose|p: Seq<BlockId>| #[trigger] control_path(l2, p) && p.len() > 1 && p[0] == 0 && p.last() == b as BlockId;
            assert(control_path(l, p));
        }
    }
}

/// The function after the pass can be given to the pass again: the blocks
/// that control reaches are the same and still form an acyclic graph, none
/// of them ends in a panic, and each of their statements can be visited.
pub proof fn law_result_reorderable(bool_not_func_id: FunctionId, l: SpecLowered)
    requires
        l.blocks.len() > 0,
        reorderable(set![bool_not_func_id], l),
        lengths_fit(l),
    ensures
        reorderable(set![bool_not_func_id], reordered(bool_not_func_id, l)),
{
    let movable = set![bool_not_func_id];
    let l2 = reordered(bool_not_func_id, l);
    law_structure_preserved(bool_not_func_id, l);
    lemma_same_ends_same_paths(l, l2);
    let rank = choose|rank: Seq<nat>| valid_rank(l, rank);
    assert(valid_rank(l2, rank)) by {
        assert forall|b: int, i: int|
            0 <= b < l2.blocks.len() && reachable(l2, b) && 0 <= i < l2.blocks[b].end.successors().len() implies (
            #[trigger] l2.blocks[b].end.successors()[i]) < l2.blocks.len() && rank[l2.blocks[b].end.successors()[i] as int]
                < rank[b] by {
            assert(reachable(l, b));
            assert(l2.blocks[b].end == l.blocks[b].end);
            assert(l.blocks[b].end.successors()[i] < l.blocks.len());
        }
    }
    law_only_movable_statements_move(bool_not_func_id, l);
    lemma_analyze_block_sources(movable, l, rank, 0, Map::empty(), seq![]);
    let moves = root_moves(movable, l);
    let cache = analyze_block(movable, l, rank, 0, Map::empty(), seq![]).1;
    assert forall|b: int, i: int|
        0 <= b < l2.blocks.len() && reachable(l2, b) && 0 <= i < l2.blocks[b].statements.len() implies visitable(
            movable,
            l2.droppable,
            #[trigger] l2.blocks[b].statements[i],
        ) by {
        assert(reachable(l, b));
        let stmts = l.blocks[b].statements;
        let bc = block_changes(l, moves, b as usize);
        let changes = sort_desc(bc);
        let r = apply_changes(stmts, changes);
        assert(l2.blocks[b].statements == r);
        lemma_apply_changes_from(stmts, changes);
        let x = r[i];
        if stmts.contains(x) {
            let i2 = choose|i2: int| 0 <= i2 < stmts.len() && stmts[i2] == x;
            assert(visitable(movable, l.droppable, l.blocks[b].statements[i2]));
        } else {
            let k = choose|k: int| 0 <= k < changes.len() && #[trigger] changes[k].1 == Some(x);
            lemma_sort_desc_elements(bc);
            assert(bc.contains(changes[k]));
            let k2 = choose|k2: int| 0 <= k2 < bc.len() && bc[k2] == changes[k];
            assert(bc[k2].1 == Some(x));
            assert(inserted_by(bc, x));
            lemma_block_changes_from(l, moves, b as usize);
            let m = choose|m: int| 0 <= m < moves.len() && x == l.statement_at(#[trigger] moves[m].0);
            assert(valid_move(movable, l, moves[m]));
            let loc = moves[m].0;
            assert(cache.dom().contains(loc.0));
            assert(reachable(l, loc.0 as int));
            assert(visitable(movable, l.droppable, l.blocks[loc.0 as int].statements[loc.1 as int]));
        }
    }
    assert forall|b: int| 0 <= b < l2.blocks.len() && reachable(l2, b) implies !(#[trigger] l2.blocks[b].end is Panic) && !(
        l2.blocks[b].end is NotSet) by {
        assert(reachable(l, b));
        assert(l2.blocks[b].end == l.blocks[b].end);
    }
    assert(blocks_visitable(movable, l2));
}


proof fn lemma_demand_inputs_places(
    info: NextUse,
    inputs: Seq<VariableId>,
    loc: StatementLocation,
    target: StatementLocation,
)
    ensures
        forall|v: VariableId|
            #[trigger] info.dom().contains(v) ==> demand_inputs(info, inputs, loc, target).dom().contains(v) && (
            demand_inputs(info, inputs, loc, target)[v] == info[v] || demand_inputs(info, inputs, loc, target)[v]
                == loc),
        forall|v: VariableId|
            #[trigger] demand_inputs(info, inputs, loc, target).dom().contains(v) && !info.dom().contains(v) ==> (
            demand_inputs(info, inputs, loc, target)[v] == target || demand_inputs(info, inputs, loc, target)[v]
                == loc),
    decreases inputs.len(),
{
    if inputs.len() > 0 {
        let d = inputs.drop_last();
        lemma_demand_inputs_places(info, d, loc, target);
        let m = demand_inputs(info, d, loc, target);
        let r = demand_inputs(info, inputs, loc, target);
        assert forall|v: VariableId| #[trigger] r.dom().contains(v) && !info.dom().contains(v) implies (r[v] == target
            || r[v] == loc) by {
            if v != inputs.last() {
                assert(m.dom().contains(v));
            }
        }
    }
}

/// Visiting a statement never moves the next use of a variable that already
/// has one past that use: the variable keeps its next use, or it gets the
/// place of the statement itself, which comes before. In particular an input
/// of a moved statement that is read again later is demanded where the
/// statement was, not where the statement goes. A literal, a call to a
/// movable function or an empty struct goes to the next use of what it
/// defines, or is removed where that has none; a literal or an empty struct
/// then leaves its output undemanded.
pub proof fn law_visit_keeps_earlier_uses(
    movable: Set<FunctionId>,
    droppable: Seq<bool>,
    info: NextUse,
    loc: StatementLocation,
    stmt: SpecStatement,
)
    ensures
        forall|v: VariableId|
            info.dom().contains(v) && #[trigger] visit_stmt_spec(movable, droppable, info, loc, stmt).0.dom().contains(v)
                ==> visit_stmt_spec(movable, droppable, info, loc, stmt).0[v] == info[v] || visit_stmt_spec(
                movable,
                droppable,
                info,
                loc,
                stmt,
            ).0[v] == loc,
        ({
            let r = visit_stmt_spec(movable, droppable, info, loc, stmt);
            let moved_to = |out: VariableId|
                if info.dom().contains(out) {
                    Some(info[out])
                } else {
                    None
                };
            match stmt {
                SpecStatement::Literal { output, .. } => r.1 == Some((loc, moved_to(output))) && !r.0.dom().contains(
                    output,
                ),
                SpecStatement::Call { function, outputs, .. } => movable.contains(function) ==> r.1 == Some(
                    (loc, moved_to(outputs[0])),
                ),
                SpecStatement::StructConstruct { inputs, output } => inputs.len() == 0 ==> r.1 == Some(
                    (loc, moved_to(output)),
                ) && !r.0.dom().contains(output),
                _ => true,
            }
        }),
{
    match stmt {
        SpecStatement::Call { function, inputs, outputs } => {
            if movable.contains(function) {
                let out = outputs[0];
                let rest = info.remove(out);
                if info.dom().contains(out) {
                    lemma_demand_inputs_places(rest, inputs, loc, info[out]);
                }
            }
        },
        _ => {},
    }
}


/// At a match, a variable is next used at the match when the match reads it
/// or when more than one arm uses it; a variable that exactly one arm uses,
/// and the match does not read, keeps that arm's next use; no other variable
/// is demanded.
pub proof fn law_merge_match_uses(infos: Seq<NextUse>, inputs: Seq<VariableId>, loc: StatementLocation)
    ensures
        forall|v: VariableId|
            #[trigger] merge_match_spec(infos, inputs, loc).dom().contains(v) <==> (inputs.contains(v) || exists|i: int|
                arm_uses(infos, i, v)),
        forall|v: VariableId| #[trigger] inputs.contains(v) ==> merge_match_spec(infos, inputs, loc)[v] == loc,
        forall|v: VariableId, i: int, j: int|
            #![trigger arm_uses(infos, i, v), arm_uses(infos, j, v)]
            i != j && arm_uses(infos, i, v) && arm_uses(infos, j, v) ==> merge_match_spec(infos, inputs, loc)[v]
                == loc,
        forall|v: VariableId, i: int|
            #![trigger arm_uses(infos, i, v)]
            arm_uses(infos, i, v) && !inputs.contains(v) && (forall|j: int| j != i ==> !arm_uses(infos, j, v))
                ==> merge_match_spec(infos, inputs, loc)[v] == infos[i][v],
{
    lemma_merge_infos_char(infos, loc);
}

} // verus!
