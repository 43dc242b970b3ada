//! Entity handles.
use vstd::prelude::*;

verus! {

/// Identifies one archetype of a world by its position in declaration order.
#[derive(Clone, Copy, Debug, PartialEq, Eq, Structural, Hash)]
pub struct ArchetypeTag(pub usize);

/// Stable handle of one entity: the archetype that owns it and the id it was
/// given at creation. Handles are plain values and are compared field by field.
#[derive(Clone, Copy, Debug, PartialEq, Eq, Structural, Hash)]
pub struct Entity {
    pub archetype_tag: ArchetypeTag,
    pub id: u64,
}

} // verus!
