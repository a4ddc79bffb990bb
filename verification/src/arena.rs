//! The slot allocator that holds the nodes, and what this library relies on
//! it to do. Nothing in this file is proved: each function hands its work to
//! `generational_arena`, and its contract records what that crate's source
//! shows.
use crate::node::Node;
use generational_arena::{Arena, Index};
use vstd::prelude::*;

verus! {

/// `generational_arena::Arena`, carried as an opaque value.
#[verifier::external_type_specification]
#[verifier::external_body]
#[verifier::reject_recursive_types(T)]
pub struct ExArena<T>(Arena<T>);

/// `generational_arena::Index`, carried as an opaque value.
#[verifier::external_type_specification]
#[verifier::external_body]
pub struct ExIndex(Index);

/// The nodes an arena holds, each under the index that `Arena::insert` gave
/// for it. An index is a key exactly when `Arena::get` finds a node for it.
pub uninterp spec fn arena_nodes(arena: Arena<Node>) -> Map<Index, Node>;

/// The indices of an arena's nodes in the order in which `Arena::iter` yields
/// them: by slot, as the arena's source has it. Its documentation leaves the
/// order open.
pub uninterp spec fn arena_order(arena: Arena<Node>) -> Seq<Index>;

/// The arena's generation: how many nodes were removed from it so far. The
/// arena keeps it in a `u64`.
pub uninterp spec fn arena_generation(arena: Arena<Node>) -> nat;

/// The number of slots an arena has, free and taken: `Arena::capacity`.
pub uninterp spec fn arena_slots(arena: Arena<Node>) -> nat;

/// `Arena::new`: an arena without nodes, at generation zero.
#[verifier::external_body]
pub(crate) fn arena_new() -> (fresh: Arena<Node>)
    ensures
        arena_nodes(fresh).dom() == Set::<Index>::empty(),
        arena_generation(fresh) == 0,
{
    Arena::new()
}

/// `Arena::insert`: stores `node` under an index that no node was held under,
/// and leaves every other node and the generation as they were. The arena
/// adds slots when all are taken, and never drops any; as with `Vec::push`,
/// running out of memory is outside this contract.
#[verifier::external_body]
pub(crate) fn arena_insert(arena: &mut Arena<Node>, node: Node) -> (index: Index)
    ensures
        !arena_nodes(*old(arena)).contains_key(index),
        arena_nodes(*final(arena)) == arena_nodes(*old(arena)).insert(index, node),
        arena_generation(*final(arena)) == arena_generation(*old(arena)),
        arena_slots(*final(arena)) >= arena_slots(*old(arena)),
{
    arena.insert(node)
}

/// `Arena::get`: the node held under `index`, or `None` when there is none.
#[verifier::external_body]
pub(crate) fn arena_get(arena: &Arena<Node>, index: Index) -> (node: Option<&Node>)
    ensures
        match node {
            Some(n) => arena_nodes(*arena).contains_key(index) && *n == arena_nodes(*arena)[index],
            None => !arena_nodes(*arena).contains_key(index),
        },
{
    arena.get(index)
}

/// `Arena::get_mut`: the node held under `index`, for writing. Whatever the
/// caller leaves in it is what the arena holds under `index` afterwards;
/// no other node changes, and neither do the generation and the slots.
#[verifier::external_body]
pub(crate) fn arena_get_mut(arena: &mut Arena<Node>, index: Index) -> (node: Option<&mut Node>)
    ensures
        match node {
            Some(n) => arena_nodes(*old(arena)).contains_key(index) && *n == arena_nodes(
                *old(arena),
            )[index] && arena_nodes(*final(arena)) == arena_nodes(*old(arena)).insert(
                index,
                *final(n),
            ) && arena_generation(*final(arena)) == arena_generation(*old(arena))
                && arena_slots(*final(arena)) == arena_slots(*old(arena)),
            None => !arena_nodes(*old(arena)).contains_key(index) && *final(arena) == *old(arena),
        },
{
    arena.get_mut(index)
}

/// `Arena::remove`: takes the node held under `index` out and returns it, or
/// returns `None` and changes nothing when there is none. The slot stays,
/// free. A removal advances the generation by one; the caller must leave
/// room for that in the `u64`.
#[verifier::external_body]
pub(crate) fn arena_remove(arena: &mut Arena<Node>, index: Index) -> (node: Option<Node>)
    requires
        arena_generation(*old(arena)) < u64::MAX,
    ensures
        match node {
            Some(n) => arena_nodes(*old(arena)).contains_key(index) && n == arena_nodes(
                *old(arena),
            )[index] && arena_generation(*final(arena)) == arena_generation(*old(arena)) + 1,
            None => !arena_nodes(*old(arena)).contains_key(index) && arena_generation(
                *final(arena),
            ) == arena_generation(*old(arena)),
        },
        arena_nodes(*final(arena)) == arena_nodes(*old(arena)).remove(index),
        arena_slots(*final(arena)) == arena_slots(*old(arena)),
{
    arena.remove(index)
}

/// `Arena::len`: the number of nodes held.
#[verifier::external_body]
pub(crate) fn arena_len(arena: &Arena<Node>) -> (count: usize)
    ensures
        count == arena_nodes(*arena).dom().len(),
{
    arena.len()
}

/// `Arena::capacity`: the number of slots.
#[verifier::external_body]
pub(crate) fn arena_capacity(arena: &Arena<Node>) -> (slots: usize)
    ensures
        slots == arena_slots(*arena),
{
    arena.capacity()
}

/// `Arena::reserve`: adds `additional` free slots and leaves the nodes, their
/// order and the generation as they were. A reservation of nothing is left
/// out: the arena would point its free list past its last slot, and the next
/// insertion would panic. The arena also panics when the slot count leaves
/// `usize`; as with `Vec::reserve`, running out of memory is outside this
/// contract.
#[verifier::external_body]
pub(crate) fn arena_reserve(arena: &mut Arena<Node>, additional: usize)
    requires
        additional > 0,
        arena_slots(*old(arena)) + additional <= usize::MAX,
    ensures
        arena_nodes(*final(arena)) == arena_nodes(*old(arena)),
        arena_order(*final(arena)) == arena_order(*old(arena)),
        arena_generation(*final(arena)) == arena_generation(*old(arena)),
        arena_slots(*final(arena)) == arena_slots(*old(arena)) + additional,
{
    arena.reserve(additional)
}

/// `Arena::iter`, keeping the index of each pair: the indices that hold a
/// node, all of them, in the arena's order.
#[verifier::external_body]
pub(crate) fn arena_indices(arena: &Arena<Node>) -> (indices: Vec<Index>)
    ensures
        indices@ == arena_order(*arena),
        forall|i: Index| indices@.contains(i) <==> arena_nodes(*arena).contains_key(i),
{
    arena.iter().map(|(index, _)| index).collect()
}

} // verus!
