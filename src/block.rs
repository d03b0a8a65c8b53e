//! The value stored in one voxel.
use vstd::prelude::*;

verus! {

/// The id reserved for empty space.
pub const AIR_ID: u16 = 0;

/// One voxel's material, named by its registry id.
#[derive(Clone, Copy, PartialEq, Eq, Structural, Debug, Hash)]
pub struct Block {
    pub id: u16,
}

pub open spec fn air() -> Block {
    Block { id: AIR_ID }
}

impl Block {
    pub fn new(id: u16) -> (r: Block)
        ensures
            r.id == id,
    {
        Block { id }
    }

    pub fn air() -> (r: Block)
        ensures
            r == air(),
    {
        Block { id: AIR_ID }
    }

    pub fn is_air(&self) -> (r: bool)
        ensures
            r == (self.id == AIR_ID),
    {
        self.id == AIR_ID
    }
}

impl Default for Block {
    fn default() -> (r: Block)
        ensures
            r == air(),
    {
        Block { id: AIR_ID }
    }
}

} // verus!
