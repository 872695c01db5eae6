//! What is taken on trust of the arena in which graphs are allocated.

use vstd::prelude::*;

verus! {

/// The arena of the `typed_arena` crate: it owns the values allocated in it
/// and releases them together. Nothing inside it is visible here.
#[verifier::external_type_specification]
#[verifier::external_body]
#[verifier::reject_recursive_types(T)]
pub struct ExArena<T>(typed_arena::Arena<T>);

/// `typed_arena::Arena::alloc` moves the value into the arena and hands back
/// a mutable reference to it, which lives as long as the borrow of the arena.
/// Claimed here, and not proved: the referent is the value given.
pub assume_specification<T>[ typed_arena::Arena::<T>::alloc ](
    arena: &typed_arena::Arena<T>,
    value: T,
) -> (slot: &mut T)
    ensures
        *slot == value,
;

} // verus!
