use vstd::prelude::*;

verus! {

/// An opaque dense identifier for a logical object.
///
/// Identifiers are handed out by the `World` in strict creation order,
/// starting at zero, and are never reused within a `World`'s lifetime. An
/// entity's identifier doubles as the index of its slot in every component
/// array.
#[derive(PartialEq, Eq, Structural, Copy, Clone, Hash, Debug)]
pub struct Entity(pub(crate) usize);

impl Entity {
    /// The identifier as a mathematical index.
    pub closed spec fn id(&self) -> int {
        self.0 as int
    }

    pub fn from_num(num: usize) -> (e: Entity)
        ensures
            e.id() == num,
    {
        Entity(num)
    }

    pub fn to_num(&self) -> (n: usize)
        ensures
            n == self.id(),
    {
        self.0
    }
}

} // verus!
