use vstd::prelude::*;

verus! {

/// Identifier of a component type. Identifiers are totally ordered by their
/// numeric value; equal identifiers denote the same component type.
#[derive(Clone, Copy, PartialEq, Eq, Structural, Debug, Hash)]
pub struct ComponentTypeId {
    pub id: u64,
}

impl ComponentTypeId {
    pub fn new(id: u64) -> (r: ComponentTypeId)
        ensures
            r.id == id,
    {
        ComponentTypeId { id }
    }
}

/// Identifier of an entity.
#[derive(Clone, Copy, PartialEq, Eq, Structural, Debug, Hash)]
pub struct Entity {
    pub id: u64,
}

impl Entity {
    pub fn new(id: u64) -> (r: Entity)
        ensures
            r.id == id,
    {
        Entity { id }
    }
}

/// A component value stored in an archetype column.
#[derive(Clone, Copy, PartialEq, Eq, Structural, Debug)]
pub enum Value {
    Int(i64),
    Bool(bool),
}

} // verus!
