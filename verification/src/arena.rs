//! The 'arena' that stores AST nodes.

use vstd::prelude::*;

use typed_arena::Arena as TyArena;

verus! {

#[verifier::external_type_specification]
#[verifier::external_body]
#[verifier::reject_recursive_types(T)]
pub struct ExTyArena<T>(TyArena<T>);

/// An item that is stored in the [`Arena`].  This allows the [`Arena`] to build on
/// [`typed_arena::Arena`] by storing extra detail about the nodes stored in the arena.
pub struct Item<T> {
    pub node: T,
}

impl<T> Item<T> {
    /// Constructs a new `Item` that contains a given node
    pub fn new(node: T) -> (item: Item<T>)
        ensures
            item.node == node,
    {
        Item { node }
    }
}

/// `typed_arena::Arena::new`: creates an arena holding no values.
#[verifier::external_body]
fn ty_arena_new<T>() -> TyArena<T> {
    TyArena::new()
}

/// `typed_arena::Arena::alloc`: moves `value` into the arena and returns a reference to it,
/// valid for as long as the arena is borrowed.  The referenced value is the value moved in.
#[verifier::external_body]
fn ty_arena_alloc<'a, T>(arena: &'a TyArena<T>, value: T) -> (r: &'a T)
    ensures
        *r == value,
{
    arena.alloc(value)
}

/// An arena allocator for syntax tree nodes.  Sapling needs a way to efficiently store AST
/// nodes, because editing code in Sapling will result in many many nodes being created.
/// However, they are not deallocated very often (if at all) so it makes sense to store them in
/// an arena so that when the user closes Sapling all the nodes can be destroyed quickly.
///
/// Nodes added to an [`Arena`] are **always immutable**.  Once they are added they can be
/// cloned but not changed.
#[verifier::reject_recursive_types(T)]
pub struct Arena<T> {
    base_arena: TyArena<Item<T>>,
}

impl<T> Arena<T> {
    /// Creates an empty `Arena` of a given type.
    pub fn new() -> Arena<T> {
        Arena { base_arena: ty_arena_new() }
    }

    /// Add a new node to the `Arena`, and returns an immutable reference to its final location.
    pub fn alloc_node(&self, node: T) -> (r: &T)
        ensures
            *r == node,
    {
        &ty_arena_alloc(&self.base_arena, Item::new(node)).node
    }
}

} // verus!
