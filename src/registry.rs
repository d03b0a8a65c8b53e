//! Tables from numeric ids to block and biome descriptions, filled once at
//! start-up in registration order; an id is never reused.
use vstd::prelude::*;

verus! {

/// Static facts about one kind of block.
pub struct BlockInfo {
    /// Name shown to players.
    pub name: String,
    /// Stable name used by data files.
    pub code_name: String,
    /// Hits needed to break one block of this kind with a bare hand.
    pub durability: u32,
}

/// The generation behaviours that a biome can have.
#[derive(Clone, Copy, PartialEq, Eq, Structural, Debug)]
pub enum BiomeKind {
    /// Grass over dirt over stone, with oak trees and brown mushrooms.
    Forest,
}

/// Static facts about one biome.
pub struct BiomeInfo {
    pub name: String,
    pub kind: BiomeKind,
}

/// Largest number of ids a table can hand out.
pub const MAX_IDS: usize = 65536;

/// The block and biome tables of one world.
pub struct Registry {
    blocks: Vec<BlockInfo>,
    biomes: Vec<BiomeInfo>,
}

impl Registry {
    /// Registered blocks, by id.
    pub closed spec fn spec_blocks(&self) -> Seq<BlockInfo> {
        self.blocks@
    }

    /// Registered biomes, by id.
    pub closed spec fn spec_biomes(&self) -> Seq<BiomeInfo> {
        self.biomes@
    }

    /// An id names the last block registered under `name`.
    pub open spec fn names_block(&self, name: Seq<char>, id: int) -> bool {
        &&& 0 <= id < self.spec_blocks().len()
        &&& self.spec_blocks()[id].code_name@ == name
        &&& forall|j: int|
            id < j < self.spec_blocks().len() ==> #[trigger] self.spec_blocks()[j].code_name@ != name
    }

    pub fn new() -> (r: Registry)
        ensures
            r.spec_blocks().len() == 0,
            r.spec_biomes().len() == 0,
    {
        Registry { blocks: Vec::new(), biomes: Vec::new() }
    }

    /// Adds a biome and returns its id, the number registered before it.
    pub fn register_biome(&mut self, biome: BiomeInfo) -> (id: u16)
        requires
            old(self).spec_biomes().len() < MAX_IDS,
        ensures
            id == old(self).spec_biomes().len(),
            final(self).spec_biomes() == old(self).spec_biomes().push(biome),
            final(self).spec_blocks() == old(self).spec_blocks(),
    {
        let id = self.biomes.len() as u16;
        self.biomes.push(biome);
        id
    }

    pub fn get_biome(&self, id: u16) -> (r: Option<&BiomeInfo>)
        ensures
            match r {
                Some(b) => id < self.spec_biomes().len() && *b == self.spec_biomes()[id as int],
                None => id >= self.spec_biomes().len(),
            },
    {
        if (id as usize) < self.biomes.len() {
            Some(&self.biomes[id as usize])
        } else {
            None
        }
    }

    /// Number of registered biomes.
    pub fn biome_count(&self) -> (r: usize)
        ensures
            r == self.spec_biomes().len(),
    {
        self.biomes.len()
    }

    /// Adds a block and returns its id, the number registered before it.
    pub fn register_block(&mut self, block: BlockInfo) -> (id: u16)
        requires
            old(self).spec_blocks().len() < MAX_IDS,
        ensures
            id == old(self).spec_blocks().len(),
            final(self).spec_blocks() == old(self).spec_blocks().push(block),
            final(self).spec_biomes() == old(self).spec_biomes(),
    {
        let id = self.blocks.len() as u16;
        self.blocks.push(block);
        id
    }

    pub fn get_block(&self, id: u16) -> (r: Option<&BlockInfo>)
        ensures
            match r {
                Some(b) => id < self.spec_blocks().len() && *b == self.spec_blocks()[id as int],
                None => id >= self.spec_blocks().len(),
            },
    {
        if (id as usize) < self.blocks.len() {
            Some(&self.blocks[id as usize])
        } else {
            None
        }
    }

    /// The id of the block registered last under code name `name`.
    pub fn get_block_id(&self, name: &str) -> (r: Option<u16>)
        requires
            self.spec_blocks().len() <= MAX_IDS,
        ensures
            match r {
                Some(id) => self.names_block(name@, id as int),
                None => forall|j: int|
                    0 <= j < self.spec_blocks().len() ==> #[trigger] self.spec_blocks()[j].code_name@
                        != name@,
            },
    {
        let wanted = name.to_owned();
        let mut i: usize = self.blocks.len();
        while i > 0
            invariant
                i <= self.blocks@.len(),
                self.blocks@.len() <= MAX_IDS,
                wanted@ == name@,
                forall|j: int|
                    i <= j < self.blocks@.len() ==> #[trigger] self.blocks@[j].code_name@ != name@,
            decreases i,
        {
            i -= 1;
            if self.blocks[i].code_name == wanted {
                return Some(i as u16);
            }
        }
        None
    }
}

} // verus!
