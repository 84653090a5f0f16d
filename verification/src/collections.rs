//! The ordered and unordered hash collections of `cairo_lang_utils` that the
//! statement-reordering pass keeps its state in, with the contracts that
//! their source shows.
//!
//! The hasher parameter is fixed to std's `RandomState`: the contents of a map
//! or a set, and the order in which `OrderedHashMap` hands its entries out
//! (insertion order), do not depend on it.
use vstd::prelude::*;
use cairo_lang_utils::ordered_hash_map::OrderedHashMap;
use cairo_lang_utils::unordered_hash_set::UnorderedHashSet;
use std::collections::hash_map::RandomState;
use crate::lowering::{BlockId, FunctionId, StatementLocation, VariableId};

verus! {

#[verifier::external_type_specification]
#[verifier::external_body]
#[verifier::reject_recursive_types(Key)]
#[verifier::reject_recursive_types(Value)]
#[verifier::reject_recursive_types(BH)]
pub struct ExOrderedHashMap<Key, Value, BH>(OrderedHashMap<Key, Value, BH>);

#[verifier::external_type_specification]
#[verifier::external_body]
#[verifier::reject_recursive_types(Key)]
#[verifier::reject_recursive_types(BH)]
pub struct ExUnorderedHashSet<Key, BH>(UnorderedHashSet<Key, BH>);

/// A change to the statements of one block: the index, and `None` for the
/// removal of the statement there, or `Some(k)` for the insertion of the
/// `k`-th moved statement.
pub type BlockChange = (usize, Option<usize>);

/// What an `OrderedHashMap` from variables to locations holds.
pub uninterp spec fn next_use_view(
    m: OrderedHashMap<VariableId, StatementLocation, RandomState>,
) -> Map<VariableId, StatementLocation>;

/// What an `OrderedHashMap` from blocks to lists of changes holds.
pub uninterp spec fn changes_view(
    m: OrderedHashMap<BlockId, Vec<BlockChange>, RandomState>,
) -> Map<BlockId, Seq<BlockChange>>;

/// What an `UnorderedHashSet` of function ids holds.
pub uninterp spec fn function_set_view(s: UnorderedHashSet<FunctionId, RandomState>) -> Set<
    FunctionId,
>;

/// `OrderedHashMap::default`: an empty map.
#[verifier::external_body]
pub(crate) fn next_use_default() -> (r: OrderedHashMap<VariableId, StatementLocation, RandomState>)
    ensures
        next_use_view(r).dom().is_empty(),
{
    OrderedHashMap::default()
}

/// `insert` (through `IndexMap`): afterwards `k` maps to `v`, other keys are unchanged.
#[verifier::external_body]
pub(crate) fn next_use_insert(
    m: &mut OrderedHashMap<VariableId, StatementLocation, RandomState>,
    k: VariableId,
    v: StatementLocation,
)
    ensures
        next_use_view(*final(m)) == next_use_view(*old(m)).insert(k, v),
{
    m.insert(k, v);
}

/// `swap_remove` (through `IndexMap`): removes `k` and returns what it mapped to.
#[verifier::external_body]
pub(crate) fn next_use_swap_remove(
    m: &mut OrderedHashMap<VariableId, StatementLocation, RandomState>,
    k: VariableId,
) -> (r: Option<StatementLocation>)
    ensures
        next_use_view(*final(m)) == next_use_view(*old(m)).remove(k),
        r == (if next_use_view(*old(m)).dom().contains(k) {
            Some(next_use_view(*old(m))[k])
        } else {
            None
        }),
{
    m.swap_remove(&k)
}

/// `contains_key` (through `IndexMap`).
#[verifier::external_body]
pub(crate) fn next_use_contains_key(
    m: &OrderedHashMap<VariableId, StatementLocation, RandomState>,
    k: VariableId,
) -> (r: bool)
    ensures
        r == next_use_view(*m).dom().contains(k),
{
    m.contains_key(&k)
}

/// `iter` (through `IndexMap`), each entry copied out: every key of the map
/// once, with the value it maps to.
#[verifier::external_body]
pub(crate) fn next_use_entries(m: &OrderedHashMap<VariableId, StatementLocation, RandomState>) -> (r: Vec<
    (VariableId, StatementLocation),
>)
    ensures
        forall|i: int, j: int| 0 <= i < j < r@.len() ==> r@[i].0 != r@[j].0,
        forall|i: int|
            0 <= i < r@.len() ==> #[trigger] next_use_view(*m).dom().contains(r@[i].0)
                && next_use_view(*m)[r@[i].0] == r@[i].1,
        forall|k: VariableId|
            #[trigger] next_use_view(*m).dom().contains(k) ==> exists|i: int|
                0 <= i < r@.len() && r@[i].0 == k,
{
    m.iter().map(|(k, v)| (*k, *v)).collect()
}

/// `Clone::clone`: a map with the same entries.
#[verifier::external_body]
pub(crate) fn next_use_clone(m: &OrderedHashMap<VariableId, StatementLocation, RandomState>) -> (r:
    OrderedHashMap<VariableId, StatementLocation, RandomState>)
    ensures
        next_use_view(r) == next_use_view(*m),
{
    m.clone()
}

/// `OrderedHashMap::default`: an empty map.
#[verifier::external_body]
pub(crate) fn changes_default() -> (r: OrderedHashMap<BlockId, Vec<BlockChange>, RandomState>)
    ensures
        changes_view(r).dom().is_empty(),
{
    OrderedHashMap::default()
}

/// `entry(block).or_insert_with(Vec::new).push(change)` (through `IndexMap`).
#[verifier::external_body]
pub(crate) fn changes_push(
    m: &mut OrderedHashMap<BlockId, Vec<BlockChange>, RandomState>,
    block: BlockId,
    change: BlockChange,
)
    ensures
        changes_view(*final(m)) == changes_view(*old(m)).insert(
            block,
            (if changes_view(*old(m)).dom().contains(block) {
                changes_view(*old(m))[block]
            } else {
                Seq::<BlockChange>::empty()
            }).push(change),
        ),
{
    m.entry(block).or_insert_with(Vec::new).push(change);
}

/// `IntoIterator::into_iter`, collected: every key of the map once, with its list.
#[verifier::external_body]
pub(crate) fn changes_into_entries(m: OrderedHashMap<BlockId, Vec<BlockChange>, RandomState>) -> (r: Vec<
    (BlockId, Vec<BlockChange>),
>)
    ensures
        forall|i: int, j: int| 0 <= i < j < r@.len() ==> r@[i].0 != r@[j].0,
        forall|i: int|
            0 <= i < r@.len() ==> #[trigger] changes_view(m).dom().contains(r@[i].0)
                && changes_view(m)[r@[i].0] == r@[i].1@,
        forall|k: BlockId|
            #[trigger] changes_view(m).dom().contains(k) ==> exists|i: int|
                0 <= i < r@.len() && r@[i].0 == k,
{
    m.into_iter().collect()
}

/// `FromIterator::from_iter` on one id: the set of that id.
#[verifier::external_body]
pub(crate) fn function_set_of(id: FunctionId) -> (r: UnorderedHashSet<FunctionId, RandomState>)
    ensures
        function_set_view(r) == set![id],
{
    [id].into_iter().collect()
}

/// `contains`.
#[verifier::external_body]
pub(crate) fn function_set_contains(s: &UnorderedHashSet<FunctionId, RandomState>, id: FunctionId) -> (r:
    bool)
    ensures
        r == function_set_view(*s).contains(id),
{
    s.contains(&id)
}

} // verus!
