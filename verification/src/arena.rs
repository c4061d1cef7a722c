//! Trusted boundary around the `generational_arena` crate.
//!
//! Tree nodes live in a `generational_arena::Arena`, which hands out a stable
//! `Index` for every stored node. Verus does not read that crate, so this
//! module declares its two types and wraps each method the tree algorithms
//! call. Every wrapper contract states, over the named contents `arena_nodes`,
//! what the crate's source shows: an arena behaves as a map from live indices
//! to elements, and `insert` always picks an index that is not live.

use vstd::prelude::*;
use generational_arena::Arena;
use generational_arena::Index;
use crate::Node;

verus! {

#[verifier::external_type_specification]
#[verifier::external_body]
#[verifier::reject_recursive_types(T)]
pub struct ExArena<T>(Arena<T>);

#[verifier::external_type_specification]
#[verifier::external_body]
pub struct ExIndex(Index);

/// The nodes an arena holds: a map from each live index to its node.
pub uninterp spec fn arena_nodes(a: Arena<Node>) -> Map<Index, Node>;

/// Relies on `Arena::get`: returns the element stored at a live index, and
/// `None` for an index that is not live in this arena.
#[verifier::external_body]
pub(crate) fn arena_get(a: &Arena<Node>, i: Index) -> (r: Option<Node>)
    ensures
        r == (if arena_nodes(*a).contains_key(i) {
            Some(arena_nodes(*a)[i])
        } else {
            Option::<Node>::None
        }),
{
    match a.get(i) {
        Some(n) => Some(*n),
        None => None,
    }
}

/// Relies on `Arena::get_mut`: overwrites the element at a live index and
/// leaves every other entry as it was; does nothing at a dead index.
#[verifier::external_body]
pub(crate) fn arena_set(a: &mut Arena<Node>, i: Index, n: Node) -> (r: bool)
    ensures
        r == arena_nodes(*old(a)).contains_key(i),
        r ==> arena_nodes(*final(a)) == arena_nodes(*old(a)).insert(i, n),
        !r ==> arena_nodes(*final(a)) == arena_nodes(*old(a)),
{
    match a.get_mut(i) {
        Some(slot) => {
            *slot = n;
            true
        }
        None => false,
    }
}

/// Relies on `Arena::insert`: stores a node, returns its index. The index is
/// fresh — the slot it names was free, so no live index equals it — and all
/// previously stored entries keep their index and value.
#[verifier::external_body]
pub(crate) fn arena_alloc(a: &mut Arena<Node>, n: Node) -> (r: Index)
    ensures
        !arena_nodes(*old(a)).contains_key(r),
        arena_nodes(*final(a)) == arena_nodes(*old(a)).insert(r, n),
{
    a.insert(n)
}

} // verus!
