use vstd::prelude::*;
use std::collections::HashMap;

verus! {

/// A generational handle into an [`crate::arena::Arena`]: the slot index and
/// the generation that the slot had when the value was stored.
#[derive(Clone, Copy, Debug, PartialEq, Eq, Hash, Structural)]
pub struct Id {
    pub index: u32,
    pub generation: u32,
}

impl Id {
    pub fn new(index: u32, generation: u32) -> (id: Id)
        ensures
            id.index == index,
            id.generation == generation,
    {
        Id { index, generation }
    }
}

/// A JSON value, carried through untouched as part of a [`Dictionary`].
#[verifier::external_type_specification]
#[verifier::external_body]
pub struct ExJsonValue(serde_json::Value);

/// Free-form user data attached to an element of the model.
pub type Dictionary = HashMap<String, serde_json::Value>;

/// Per layer, per edge offsets of a face's layer outline.
pub type EdgeOffsets<N> = Vec<Vec<N>>;

/// How a face names its construction: by the uuid of a layer group, or,
/// once resolved, by the layer group's id.
#[derive(Clone)]
pub enum ConstructionRef {
    Uuid(String),
    Id(Id),
}

/// How two layers meet at a joint.
#[derive(Clone, Copy, Debug, PartialEq, Eq, Structural)]
pub enum JointType {
    Miter,
    Butt,
    DoubleButt,
}

} // verus!
