//! The standard content: its blocks, the forest biome, and the structures
//! that grow on it.
use vstd::prelude::*;
use crate::block::{air, Block};
use crate::chunk::{
    data_block, data_wf, flat_index, lemma_flat_index_injective, set_block_in_chunk, ChunkData,
    CHUNK_VOLUME,
};
use crate::coord::{local_in_range, BlockCoord, ChunkCoord, IVec3, LocalCoord};
use crate::mesh::{cell_local, lemma_cell_local};
use crate::pending::{
    added_write, appended, extends, lemma_added_split, lemma_appended_empty, lemma_appended_trans, lemma_extends_refl, lemma_extends_trans,
    lemma_extends_lists_grow, lemma_recorded_earlier, lemma_recorded_extends, lists_grow, place_all, recorded, table_wf, world_of,
    write_at, PendingTable, UnfinishedChunkData,
};
use crate::random::{draw_two, seeded_draws};
use crate::registry::{BiomeInfo, BiomeKind, BlockInfo, Registry, MAX_IDS};

verus! {

/// The blocks of the standard content, in registration order: a block's
/// id is its position in this list.
#[derive(Clone, Copy, PartialEq, Eq, Structural, Debug)]
pub enum StandardBlocks {
    Air,
    Stone,
    Grass,
    Dirt,
    Cobblestone,
    OakPlank,
    OakLog,
    OakLeaves,
    MushroomStem,
    BrownMushroom,
    RedMushroom,
    GoldOre,
    IronOre,
    CoalOre,
    Sand,
    Gravel,
    BirchLeaves,
    BirchPlank,
}

/// Number of standard blocks.
pub const STANDARD_BLOCK_COUNT: usize = 18;

pub const STONE_ID: u16 = 1;
pub const GRASS_ID: u16 = 2;
pub const DIRT_ID: u16 = 3;

impl StandardBlocks {
    pub open spec fn spec_id(&self) -> u16 {
        match self {
            StandardBlocks::Air => 0,
            StandardBlocks::Stone => 1,
            StandardBlocks::Grass => 2,
            StandardBlocks::Dirt => 3,
            StandardBlocks::Cobblestone => 4,
            StandardBlocks::OakPlank => 5,
            StandardBlocks::OakLog => 6,
            StandardBlocks::OakLeaves => 7,
            StandardBlocks::MushroomStem => 8,
            StandardBlocks::BrownMushroom => 9,
            StandardBlocks::RedMushroom => 10,
            StandardBlocks::GoldOre => 11,
            StandardBlocks::IronOre => 12,
            StandardBlocks::CoalOre => 13,
            StandardBlocks::Sand => 14,
            StandardBlocks::Gravel => 15,
            StandardBlocks::BirchLeaves => 16,
            StandardBlocks::BirchPlank => 17,
        }
    }

    pub open spec fn spec_name(&self) -> &'static str {
        match self {
            StandardBlocks::Air => "Air",
            StandardBlocks::Stone => "Stone",
            StandardBlocks::Grass => "Grass",
            StandardBlocks::Dirt => "Dirt",
            StandardBlocks::Cobblestone => "Cobblestone",
            StandardBlocks::OakPlank => "Oak Plank",
            StandardBlocks::OakLog => "Wood",
            StandardBlocks::OakLeaves => "Leaves",
            StandardBlocks::MushroomStem => "Mushroom Stem",
            StandardBlocks::BrownMushroom => "Brown Mushroom",
            StandardBlocks::RedMushroom => "Red Mushroom",
            StandardBlocks::GoldOre => "Gold Ore",
            StandardBlocks::IronOre => "Iron Ore",
            StandardBlocks::CoalOre => "Coal Ore",
            StandardBlocks::Sand => "Sand",
            StandardBlocks::Gravel => "Gravel",
            StandardBlocks::BirchLeaves => "Birch Leaves",
            StandardBlocks::BirchPlank => "Birch Plank",
        }
    }

    pub open spec fn spec_code_name(&self) -> &'static str {
        match self {
            StandardBlocks::Air => "air",
            StandardBlocks::Stone => "stone",
            StandardBlocks::Grass => "grass",
            StandardBlocks::Dirt => "dirt",
            StandardBlocks::Cobblestone => "cobblestone",
            StandardBlocks::OakPlank => "oak_planks",
            StandardBlocks::OakLog => "oak_log",
            StandardBlocks::OakLeaves => "oak_leaves",
            StandardBlocks::MushroomStem => "mushroom_stem",
            StandardBlocks::BrownMushroom => "brown_mushroom",
            StandardBlocks::RedMushroom => "red_mushroom",
            StandardBlocks::GoldOre => "gold_ore",
            StandardBlocks::IronOre => "iron_ore",
            StandardBlocks::CoalOre => "coal_ore",
            StandardBlocks::Sand => "sand",
            StandardBlocks::Gravel => "gravel",
            StandardBlocks::BirchLeaves => "birch_leaves",
            StandardBlocks::BirchPlank => "birch_planks",
        }
    }

    /// The `n`th standard kind.
    pub open spec fn spec_from_index(n: int) -> StandardBlocks {
        if n == 0 {
            StandardBlocks::Air
        } else if n == 1 {
            StandardBlocks::Stone
        } else if n == 2 {
            StandardBlocks::Grass
        } else if n == 3 {
            StandardBlocks::Dirt
        } else if n == 4 {
            StandardBlocks::Cobblestone
        } else if n == 5 {
            StandardBlocks::OakPlank
        } else if n == 6 {
            StandardBlocks::OakLog
        } else if n == 7 {
            StandardBlocks::OakLeaves
        } else if n == 8 {
            StandardBlocks::MushroomStem
        } else if n == 9 {
            StandardBlocks::BrownMushroom
        } else if n == 10 {
            StandardBlocks::RedMushroom
        } else if n == 11 {
            StandardBlocks::GoldOre
        } else if n == 12 {
            StandardBlocks::IronOre
        } else if n == 13 {
            StandardBlocks::CoalOre
        } else if n == 14 {
            StandardBlocks::Sand
        } else if n == 15 {
            StandardBlocks::Gravel
        } else if n == 16 {
            StandardBlocks::BirchLeaves
        } else {
            StandardBlocks::BirchPlank
        }
    }

    /// The block's id, given by `register_blocks`.
    pub fn get_id(&self) -> (r: u16)
        ensures
            r == self.spec_id(),
            r < STANDARD_BLOCK_COUNT,
    {
        match self {
            StandardBlocks::Air => 0,
            StandardBlocks::Stone => 1,
            StandardBlocks::Grass => 2,
            StandardBlocks::Dirt => 3,
            StandardBlocks::Cobblestone => 4,
            StandardBlocks::OakPlank => 5,
            StandardBlocks::OakLog => 6,
            StandardBlocks::OakLeaves => 7,
            StandardBlocks::MushroomStem => 8,
            StandardBlocks::BrownMushroom => 9,
            StandardBlocks::RedMushroom => 10,
            StandardBlocks::GoldOre => 11,
            StandardBlocks::IronOre => 12,
            StandardBlocks::CoalOre => 13,
            StandardBlocks::Sand => 14,
            StandardBlocks::Gravel => 15,
            StandardBlocks::BirchLeaves => 16,
            StandardBlocks::BirchPlank => 17,
        }
    }

    /// The block of the `n`th standard kind.
    pub fn from_index(n: usize) -> (r: StandardBlocks)
        requires
            n < STANDARD_BLOCK_COUNT,
        ensures
            r == StandardBlocks::spec_from_index(n as int),
            r.spec_id() == n,
    {
        if n == 0 {
            StandardBlocks::Air
        } else if n == 1 {
            StandardBlocks::Stone
        } else if n == 2 {
            StandardBlocks::Grass
        } else if n == 3 {
            StandardBlocks::Dirt
        } else if n == 4 {
            StandardBlocks::Cobblestone
        } else if n == 5 {
            StandardBlocks::OakPlank
        } else if n == 6 {
            StandardBlocks::OakLog
        } else if n == 7 {
            StandardBlocks::OakLeaves
        } else if n == 8 {
            StandardBlocks::MushroomStem
        } else if n == 9 {
            StandardBlocks::BrownMushroom
        } else if n == 10 {
            StandardBlocks::RedMushroom
        } else if n == 11 {
            StandardBlocks::GoldOre
        } else if n == 12 {
            StandardBlocks::IronOre
        } else if n == 13 {
            StandardBlocks::CoalOre
        } else if n == 14 {
            StandardBlocks::Sand
        } else if n == 15 {
            StandardBlocks::Gravel
        } else if n == 16 {
            StandardBlocks::BirchLeaves
        } else {
            StandardBlocks::BirchPlank
        }
    }

    pub fn get_name(&self) -> (r: &'static str)
        ensures
            r == self.spec_name(),
    {
        match self {
            StandardBlocks::Air => "Air",
            StandardBlocks::Stone => "Stone",
            StandardBlocks::Grass => "Grass",
            StandardBlocks::Dirt => "Dirt",
            StandardBlocks::Cobblestone => "Cobblestone",
            StandardBlocks::OakPlank => "Oak Plank",
            StandardBlocks::OakLog => "Wood",
            StandardBlocks::OakLeaves => "Leaves",
            StandardBlocks::MushroomStem => "Mushroom Stem",
            StandardBlocks::BrownMushroom => "Brown Mushroom",
            StandardBlocks::RedMushroom => "Red Mushroom",
            StandardBlocks::GoldOre => "Gold Ore",
            StandardBlocks::IronOre => "Iron Ore",
            StandardBlocks::CoalOre => "Coal Ore",
            StandardBlocks::Sand => "Sand",
            StandardBlocks::Gravel => "Gravel",
            StandardBlocks::BirchLeaves => "Birch Leaves",
            StandardBlocks::BirchPlank => "Birch Plank",
        }
    }

    pub fn get_code_name(&self) -> (r: &'static str)
        ensures
            r == self.spec_code_name(),
    {
        match self {
            StandardBlocks::Air => "air",
            StandardBlocks::Stone => "stone",
            StandardBlocks::Grass => "grass",
            StandardBlocks::Dirt => "dirt",
            StandardBlocks::Cobblestone => "cobblestone",
            StandardBlocks::OakPlank => "oak_planks",
            StandardBlocks::OakLog => "oak_log",
            StandardBlocks::OakLeaves => "oak_leaves",
            StandardBlocks::MushroomStem => "mushroom_stem",
            StandardBlocks::BrownMushroom => "brown_mushroom",
            StandardBlocks::RedMushroom => "red_mushroom",
            StandardBlocks::GoldOre => "gold_ore",
            StandardBlocks::IronOre => "iron_ore",
            StandardBlocks::CoalOre => "coal_ore",
            StandardBlocks::Sand => "sand",
            StandardBlocks::Gravel => "gravel",
            StandardBlocks::BirchLeaves => "birch_leaves",
            StandardBlocks::BirchPlank => "birch_planks",
        }
    }

    /// Hits to break the block by hand: none for air, one for the rest.
    pub fn get_durability(&self) -> (r: u32)
        ensures
            r == if self.spec_id() == 0 { 0u32 } else { 1u32 },
    {
        match self {
            StandardBlocks::Air => 0,
            _ => 1,
        }
    }

    pub fn to_block(&self) -> (r: Block)
        ensures
            r.id == self.spec_id(),
    {
        Block { id: self.get_id() }
    }

    pub fn info(&self) -> (r: BlockInfo)
        ensures
            r.code_name@ == self.spec_code_name()@,
            r.name@ == self.spec_name()@,
            r.durability == if self.spec_id() == 0 { 0u32 } else { 1u32 },
    {
        BlockInfo {
            name: self.get_name().to_owned(),
            code_name: self.get_code_name().to_owned(),
            durability: self.get_durability(),
        }
    }
}

/// Registers the standard blocks in list order, so that each gets the id
/// that `get_id` reports.
pub fn register_blocks(registry: &mut Registry)
    requires
        old(registry).spec_blocks().len() == 0,
    ensures
        final(registry).spec_blocks().len() == STANDARD_BLOCK_COUNT,
        final(registry).spec_biomes() == old(registry).spec_biomes(),
        forall|i: int|
            0 <= i < STANDARD_BLOCK_COUNT ==> (#[trigger] final(registry).spec_blocks()[i]).code_name@
                == StandardBlocks::spec_from_index(i).spec_code_name()@,
{
    let mut n: usize = 0;
    while n < STANDARD_BLOCK_COUNT
        invariant
            n <= STANDARD_BLOCK_COUNT,
            registry.spec_blocks().len() == n,
            registry.spec_biomes() == old(registry).spec_biomes(),
            forall|i: int|
                0 <= i < n ==> (#[trigger] registry.spec_blocks()[i]).code_name@
                    == StandardBlocks::spec_from_index(i).spec_code_name()@,
        decreases STANDARD_BLOCK_COUNT - n,
    {
        let kind = StandardBlocks::from_index(n);
        registry.register_block(kind.info());
        n += 1;
    }
}

/// World voxels far enough from the limits of `i32` for any structure to
/// be placed around them.
pub open spec fn block_in_gen_range(b: BlockCoord) -> bool {
    &&& -1073741824 <= b.x <= 1073741824
    &&& -1073741824 <= b.y <= 1073741824
    &&& -1073741824 <= b.z <= 1073741824
}

/// Chances are given in parts per million.
pub const CHANCE_SCALE: u32 = 1000000;

pub const OAK_CHANCE: u32 = 5000;
pub const MIN_OAK_TREE_HEIGHT: u32 = 4;
pub const MAX_OAK_TREE_HEIGHT: u32 = 8;

pub const BROWN_MUSHROOM_CHANCE: u32 = 2000;
pub const BROWN_MUSHROOM_HEIGHT: i32 = 6;

/// The shapes that structures grow in.
#[derive(Clone, Copy, PartialEq, Eq, Structural, Debug)]
pub enum StructureShape {
    /// An oak whose trunk is this many blocks tall.
    Oak(i32),
    BrownMushroom,
}

pub open spec fn shape_ok(s: StructureShape) -> bool {
    match s {
        StructureShape::Oak(h) => MIN_OAK_TREE_HEIGHT <= h <= MAX_OAK_TREE_HEIGHT,
        StructureShape::BrownMushroom => true,
    }
}

/// Height of the box, above the base, that holds a shape.
pub open spec fn shape_top(s: StructureShape) -> int {
    match s {
        StructureShape::Oak(h) => h + 4,
        StructureShape::BrownMushroom => BROWN_MUSHROOM_HEIGHT + 1,
    }
}

/// A disc of radius two around the axis without its four corners.
pub open spec fn in_wide_layer(dx: int, dz: int) -> bool {
    -2 <= dx <= 2 && -2 <= dz <= 2 && !((dx == 2 || dx == -2) && (dz == 2 || dz == -2))
}

/// A square of radius one around the axis.
pub open spec fn in_narrow_layer(dx: int, dz: int) -> bool {
    -1 <= dx <= 1 && -1 <= dz <= 1
}

/// The block that shape `s` puts at offset `(dx, dy, dz)` from its base.
/// An oak: logs on the axis below `h`; leaves in narrow layers at `h` and
/// `h + 3` and in wide layers at `h + 1` and `h + 2`. A brown mushroom: a
/// stem on the axis below six and a wide cap layer at six.
pub open spec fn shape_block(s: StructureShape, dx: int, dy: int, dz: int) -> Option<Block> {
    match s {
        StructureShape::Oak(h) => {
            if dx == 0 && dz == 0 && 0 <= dy < h {
                Some(Block { id: StandardBlocks::OakLog.spec_id() })
            } else if (dy == h + 1 || dy == h + 2) && in_wide_layer(dx, dz) {
                Some(Block { id: StandardBlocks::OakLeaves.spec_id() })
            } else if (dy == h || dy == h + 3) && in_narrow_layer(dx, dz) {
                Some(Block { id: StandardBlocks::OakLeaves.spec_id() })
            } else {
                None
            }
        },
        StructureShape::BrownMushroom => {
            if dx == 0 && dz == 0 && 0 <= dy < BROWN_MUSHROOM_HEIGHT {
                Some(Block { id: StandardBlocks::MushroomStem.spec_id() })
            } else if dy == BROWN_MUSHROOM_HEIGHT && in_wide_layer(dx, dz) {
                Some(Block { id: StandardBlocks::BrownMushroom.spec_id() })
            } else {
                None
            }
        },
    }
}

/// The world voxel at offset `(dx, dy, dz)` from `pos`.
pub open spec fn offset(pos: BlockCoord, dx: int, dy: int, dz: int) -> BlockCoord {
    IVec3 { x: (pos.x + dx) as i32, y: (pos.y + dy) as i32, z: (pos.z + dz) as i32 }
}

/// `new` holds, beyond `old`, exactly the blocks of shape `s` grown at
/// `pos`: each added write is one of them, and each of them is written.
pub open spec fn grew_shape(
    old: Map<ChunkCoord, UnfinishedChunkData>,
    new: Map<ChunkCoord, UnfinishedChunkData>,
    pos: BlockCoord,
    s: StructureShape,
) -> bool {
    &&& forall|c: ChunkCoord, i: int| #[trigger]
        added_write(old, new, c, i) ==> {
            let w = write_at(new, c, i);
            shape_block(s, w.0.x - pos.x, w.0.y - pos.y, w.0.z - pos.z) == Some(w.1)
        }
    &&& forall|dx: int, dy: int, dz: int| #[trigger]
        shape_block(s, dx, dy, dz) is Some ==> recorded(
            old,
            new,
            (offset(pos, dx, dy, dz), shape_block(s, dx, dy, dz)->0),
        )
}

fn shape_block_at(s: StructureShape, dx: i32, dy: i32, dz: i32) -> (r: Option<Block>)
    requires
        shape_ok(s),
    ensures
        r == shape_block(s, dx as int, dy as int, dz as int),
{
    let wide = -2 <= dx && dx <= 2 && -2 <= dz && dz <= 2 && !((dx == 2 || dx == -2) && (dz == 2
        || dz == -2));
    let narrow = -1 <= dx && dx <= 1 && -1 <= dz && dz <= 1;
    match s {
        StructureShape::Oak(h) => {
            if dx == 0 && dz == 0 && 0 <= dy && dy < h {
                Some(StandardBlocks::OakLog.to_block())
            } else if (dy == h + 1 || dy == h + 2) && wide {
                Some(StandardBlocks::OakLeaves.to_block())
            } else if (dy == h || dy == h + 3) && narrow {
                Some(StandardBlocks::OakLeaves.to_block())
            } else {
                None
            }
        },
        StructureShape::BrownMushroom => {
            if dx == 0 && dz == 0 && 0 <= dy && dy < BROWN_MUSHROOM_HEIGHT {
                Some(StandardBlocks::MushroomStem.to_block())
            } else if dy == BROWN_MUSHROOM_HEIGHT && wide {
                Some(StandardBlocks::BrownMushroom.to_block())
            } else {
                None
            }
        },
    }
}

/// Whether box position `(ty, tx, tz)` comes before `(y, x, z)` in the
/// order `placements` walks the box (y, then x, then z).
pub open spec fn walked_before(ty: int, tx: int, tz: int, y: int, x: int, z: int) -> bool {
    ty < y || (ty == y && (tx < x || (tx == x && tz < z)))
}

/// The blocks of shape `s` grown at `pos` in cells `(dx, dy, dz)` of one
/// row, for `dz` from `-2` up to `z`, excluded.
pub open spec fn row_seq(pos: BlockCoord, s: StructureShape, dy: int, dx: int, z: int) -> Seq<
    (BlockCoord, Block),
>
    decreases z + 2,
{
    if z <= -2 {
        Seq::empty()
    } else {
        let prev = row_seq(pos, s, dy, dx, z - 1);
        match shape_block(s, dx, dy, z - 1) {
            Some(b) => prev.push((offset(pos, dx, dy, z - 1), b)),
            None => prev,
        }
    }
}

/// The blocks of layer `dy`, rows `dx` from `-2` up to `x`, excluded.
pub open spec fn layer_seq(pos: BlockCoord, s: StructureShape, dy: int, x: int) -> Seq<
    (BlockCoord, Block),
>
    decreases x + 2,
{
    if x <= -2 {
        Seq::empty()
    } else {
        layer_seq(pos, s, dy, x - 1) + row_seq(pos, s, dy, x - 1, 3)
    }
}

/// The blocks of layers `0` up to `y`, excluded.
pub open spec fn box_seq(pos: BlockCoord, s: StructureShape, y: int) -> Seq<(BlockCoord, Block)>
    decreases y,
{
    if y <= 0 {
        Seq::empty()
    } else {
        box_seq(pos, s, y - 1) + layer_seq(pos, s, y - 1, 3)
    }
}

/// The blocks of shape `s` grown at `pos` in the order they are placed:
/// layer by layer from the base, each layer by x, then z.
pub open spec fn shape_seq(pos: BlockCoord, s: StructureShape) -> Seq<(BlockCoord, Block)> {
    box_seq(pos, s, shape_top(s))
}

/// The blocks of shape `o` grown at `pos`; none for no structure.
pub open spec fn structure_seq(pos: BlockCoord, o: Option<StructureShape>) -> Seq<
    (BlockCoord, Block),
> {
    match o {
        Some(s) => shape_seq(pos, s),
        None => Seq::empty(),
    }
}

/// The blocks of shape `s` grown at `pos`, layer by layer from the base.
pub fn placements(pos: BlockCoord, s: StructureShape) -> (r: Vec<(BlockCoord, Block)>)
    requires
        block_in_gen_range(pos),
        shape_ok(s),
    ensures
        forall|k: int|
            0 <= k < r@.len() ==> {
                let p = #[trigger] r@[k];
                shape_block(s, p.0.x - pos.x, p.0.y - pos.y, p.0.z - pos.z) == Some(p.1)
            },
        forall|dx: int, dy: int, dz: int| #[trigger]
            shape_block(s, dx, dy, dz) is Some ==> r@.contains(
                (offset(pos, dx, dy, dz), shape_block(s, dx, dy, dz)->0),
            ),
        r@ == shape_seq(pos, s),
{
    let top: i32 = match s {
        StructureShape::Oak(h) => h + 4,
        StructureShape::BrownMushroom => BROWN_MUSHROOM_HEIGHT + 1,
    };
    let mut out: Vec<(BlockCoord, Block)> = Vec::new();
    let mut dy: i32 = 0;
    while dy < top
        invariant
            0 <= dy <= top,
            top == shape_top(s),
            shape_ok(s),
            block_in_gen_range(pos),
            forall|k: int|
                0 <= k < out@.len() ==> {
                    let p = #[trigger] out@[k];
                    shape_block(s, p.0.x - pos.x, p.0.y - pos.y, p.0.z - pos.z) == Some(p.1)
                },
            forall|tx: int, ty: int, tz: int|
                #![trigger shape_block(s, tx, ty, tz)]
                ty < dy && shape_block(s, tx, ty, tz) is Some ==> out@.contains(
                    (offset(pos, tx, ty, tz), shape_block(s, tx, ty, tz)->0),
                ),
            out@ == box_seq(pos, s, dy as int),
        decreases top - dy,
    {
        assert(out@ =~= box_seq(pos, s, dy as int) + layer_seq(pos, s, dy as int, -2));
        let mut dx: i32 = -2;
        while dx <= 2
            invariant
                0 <= dy < top,
                -2 <= dx <= 3,
                top == shape_top(s),
                shape_ok(s),
                block_in_gen_range(pos),
                forall|k: int|
                    0 <= k < out@.len() ==> {
                        let p = #[trigger] out@[k];
                        shape_block(s, p.0.x - pos.x, p.0.y - pos.y, p.0.z - pos.z) == Some(p.1)
                    },
                forall|tx: int, ty: int, tz: int|
                    #![trigger shape_block(s, tx, ty, tz)]
                    walked_before(ty, tx, tz, dy as int, dx as int, -2) && shape_block(
                        s,
                        tx,
                        ty,
                        tz,
                    ) is Some ==> out@.contains(
                        (offset(pos, tx, ty, tz), shape_block(s, tx, ty, tz)->0),
                    ),
                out@ == box_seq(pos, s, dy as int) + layer_seq(pos, s, dy as int, dx as int),
            decreases 3 - dx,
        {
            assert(row_seq(pos, s, dy as int, dx as int, -2) =~= Seq::<(BlockCoord, Block)>::empty());
            assert(out@ =~= box_seq(pos, s, dy as int) + layer_seq(pos, s, dy as int, dx as int)
                + row_seq(pos, s, dy as int, dx as int, -2));
            let mut dz: i32 = -2;
            while dz <= 2
                invariant
                    0 <= dy < top,
                    -2 <= dx <= 2,
                    -2 <= dz <= 3,
                    top == shape_top(s),
                    shape_ok(s),
                    block_in_gen_range(pos),
                    forall|k: int|
                        0 <= k < out@.len() ==> {
                            let p = #[trigger] out@[k];
                            shape_block(s, p.0.x - pos.x, p.0.y - pos.y, p.0.z - pos.z) == Some(
                                p.1,
                            )
                        },
                    forall|tx: int, ty: int, tz: int|
                        #![trigger shape_block(s, tx, ty, tz)]
                        walked_before(ty, tx, tz, dy as int, dx as int, dz as int) && shape_block(
                            s,
                            tx,
                            ty,
                            tz,
                        ) is Some ==> out@.contains(
                            (offset(pos, tx, ty, tz), shape_block(s, tx, ty, tz)->0),
                        ),
                    out@ == box_seq(pos, s, dy as int) + layer_seq(pos, s, dy as int, dx as int)
                        + row_seq(pos, s, dy as int, dx as int, dz as int),
                decreases 3 - dz,
            {
                let ghost before = out@;
                match shape_block_at(s, dx, dy, dz) {
                    Some(block) => {
                        let v = IVec3 { x: pos.x + dx, y: pos.y + dy, z: pos.z + dz };
                        out.push((v, block));
                        proof {
                            assert(out@[before.len() as int] == (v, block));
                            assert(v == offset(pos, dx as int, dy as int, dz as int));
                        }
                    },
                    None => {},
                }
                proof {
                    assert(out@ =~= box_seq(pos, s, dy as int) + layer_seq(pos, s, dy as int, dx as int)
                        + row_seq(pos, s, dy as int, dx as int, dz + 1));
                    assert forall|tx: int, ty: int, tz: int|
                        #![trigger shape_block(s, tx, ty, tz)]
                        walked_before(ty, tx, tz, dy as int, dx as int, dz + 1) && shape_block(
                            s,
                            tx,
                            ty,
                            tz,
                        ) is Some implies out@.contains(
                        (offset(pos, tx, ty, tz), shape_block(s, tx, ty, tz)->0),
                    ) by {
                        let t = (offset(pos, tx, ty, tz), shape_block(s, tx, ty, tz)->0);
                        if walked_before(ty, tx, tz, dy as int, dx as int, dz as int) {
                            assert(before.contains(t));
                            let j = choose|j: int| 0 <= j < before.len() && before[j] == t;
                            assert(out@[j] == t);
                        } else {
                            assert(out@[before.len() as int] == t);
                        }
                    }
                }
                dz += 1;
            }
            assert(out@ =~= box_seq(pos, s, dy as int) + layer_seq(pos, s, dy as int, dx + 1));
            dx += 1;
        }
        assert(out@ =~= box_seq(pos, s, dy + 1));
        proof {
            assert forall|tx: int, ty: int, tz: int|
                #![trigger shape_block(s, tx, ty, tz)]
                ty < dy + 1 && shape_block(s, tx, ty, tz) is Some implies out@.contains(
                (offset(pos, tx, ty, tz), shape_block(s, tx, ty, tz)->0),
            ) by {
                assert(walked_before(ty, tx, tz, dy as int, 3, -2));
            }
        }
        dy += 1;
    }
    out
}

/// Grows shape `s` at `pos` through the pending table.
fn grow(pos: BlockCoord, s: StructureShape, in_progress: &mut PendingTable)
    requires
        block_in_gen_range(pos),
        shape_ok(s),
        table_wf(*old(in_progress)),
    ensures
        table_wf(*final(in_progress)),
        extends(old(in_progress)@, final(in_progress)@),
        grew_shape(old(in_progress)@, final(in_progress)@, pos, s),
        appended(old(in_progress)@, final(in_progress)@, shape_seq(pos, s)),
{
    let ps = placements(pos, s);
    place_all(&ps, in_progress);
    proof {
        let (t0, t1) = (old(in_progress)@, in_progress@);
        assert forall|dx: int, dy: int, dz: int| #[trigger]
            shape_block(s, dx, dy, dz) is Some implies recorded(
            t0,
            t1,
            (offset(pos, dx, dy, dz), shape_block(s, dx, dy, dz)->0),
        ) by {
            let t = (offset(pos, dx, dy, dz), shape_block(s, dx, dy, dz)->0);
            assert(ps@.contains(t));
            let j = choose|j: int| 0 <= j < ps@.len() && ps@[j] == t;
            assert(recorded(t0, t1, ps@[j]));
        }
        assert forall|c: ChunkCoord, i: int| #[trigger] added_write(t0, t1, c, i) implies {
            let w = write_at(t1, c, i);
            shape_block(s, w.0.x - pos.x, w.0.y - pos.y, w.0.z - pos.z) == Some(w.1)
        } by {
            let w = write_at(t1, c, i);
            assert(ps@.contains(w));
            let j = choose|j: int| 0 <= j < ps@.len() && ps@[j] == w;
            assert(ps@[j] == w);
        }
    }
}

/// The structures that a forest grows.
#[derive(Clone, Copy, PartialEq, Eq, Structural, Debug)]
pub enum StructureKind {
    Oak,
    BrownMushroom,
}

/// The structure a drawn chance below `CHANCE_SCALE` picks, walking the
/// structures' chances in order: an oak below `OAK_CHANCE`, a mushroom in
/// the next `BROWN_MUSHROOM_CHANCE`, nothing above.
pub open spec fn spec_pick(chance: u32) -> Option<StructureKind> {
    if chance < OAK_CHANCE {
        Some(StructureKind::Oak)
    } else if chance < OAK_CHANCE + BROWN_MUSHROOM_CHANCE {
        Some(StructureKind::BrownMushroom)
    } else {
        None
    }
}

/// Walks the structures' chances (see `spec_pick`).
pub fn pick_structure(chance: u32) -> (r: Option<StructureKind>)
    requires
        chance < CHANCE_SCALE,
    ensures
        r == spec_pick(chance),
{
    if chance < OakTree.get_chance() {
        Some(StructureKind::Oak)
    } else if chance - OakTree.get_chance() < BrownMushroom.get_chance() {
        Some(StructureKind::BrownMushroom)
    } else {
        None
    }
}

/// The shape grown for a drawn chance and a drawn trunk height.
pub open spec fn structure_of(chance: u32, trunk_height: u32) -> Option<StructureShape> {
    match spec_pick(chance) {
        Some(StructureKind::Oak) => Some(StructureShape::Oak(trunk_height as i32)),
        Some(StructureKind::BrownMushroom) => Some(StructureShape::BrownMushroom),
        None => None,
    }
}

/// The shape grown from the random stream seeded with `seed`: its first
/// value is the chance, its second the trunk height of an oak.
pub open spec fn seeded_structure(seed: u64) -> Option<StructureShape> {
    let d = seeded_draws(seed, CHANCE_SCALE, MIN_OAK_TREE_HEIGHT, (MAX_OAK_TREE_HEIGHT + 1) as u32);
    structure_of(d.0, d.1)
}

/// `new` is `old` grown by `o` at `pos`: unchanged for no structure.
pub open spec fn grew(
    old: Map<ChunkCoord, UnfinishedChunkData>,
    new: Map<ChunkCoord, UnfinishedChunkData>,
    pos: BlockCoord,
    o: Option<StructureShape>,
) -> bool {
    match o {
        Some(s) => grew_shape(old, new, pos, s),
        None => new == old,
    }
}

/// Every block of the shape `o` grown at `pos` is recorded after `old`.
pub open spec fn shape_recorded(
    old: Map<ChunkCoord, UnfinishedChunkData>,
    new: Map<ChunkCoord, UnfinishedChunkData>,
    pos: BlockCoord,
    o: Option<StructureShape>,
) -> bool {
    match o {
        Some(s) => forall|dx: int, dy: int, dz: int| #[trigger]
            shape_block(s, dx, dy, dz) is Some ==> recorded(
                old,
                new,
                (offset(pos, dx, dy, dz), shape_block(s, dx, dy, dz)->0),
            ),
        None => true,
    }
}

pub proof fn lemma_shape_recorded_extends(
    t0: Map<ChunkCoord, UnfinishedChunkData>,
    t1: Map<ChunkCoord, UnfinishedChunkData>,
    t2: Map<ChunkCoord, UnfinishedChunkData>,
    pos: BlockCoord,
    o: Option<StructureShape>,
)
    requires
        lists_grow(t1, t2),
        shape_recorded(t0, t1, pos, o),
    ensures
        shape_recorded(t0, t2, pos, o),
{
    if let Some(s) = o {
        assert forall|dx: int, dy: int, dz: int| #[trigger]
            shape_block(s, dx, dy, dz) is Some implies recorded(
            t0,
            t2,
            (offset(pos, dx, dy, dz), shape_block(s, dx, dy, dz)->0),
        ) by {
            lemma_recorded_extends(t0, t1, t2, (offset(pos, dx, dy, dz), shape_block(s, dx, dy, dz)->0));
        }
    }
}

pub proof fn lemma_shape_recorded_earlier(
    t0: Map<ChunkCoord, UnfinishedChunkData>,
    t1: Map<ChunkCoord, UnfinishedChunkData>,
    t2: Map<ChunkCoord, UnfinishedChunkData>,
    pos: BlockCoord,
    o: Option<StructureShape>,
)
    requires
        lists_grow(t0, t1),
        shape_recorded(t1, t2, pos, o),
    ensures
        shape_recorded(t0, t2, pos, o),
{
    if let Some(s) = o {
        assert forall|dx: int, dy: int, dz: int| #[trigger]
            shape_block(s, dx, dy, dz) is Some implies recorded(
            t0,
            t2,
            (offset(pos, dx, dy, dz), shape_block(s, dx, dy, dz)->0),
        ) by {
            lemma_recorded_earlier(t0, t1, t2, (offset(pos, dx, dy, dz), shape_block(s, dx, dy, dz)->0));
        }
    }
}

/// Whether local position `l` of chunk `coord` holds the surface voxel of
/// its column.
pub open spec fn is_surface(coord: ChunkCoord, heights: Seq<i32>, l: LocalCoord) -> bool {
    column_height(heights, l) == coord.y * 32 + l.1
}

/// The structure that grows at local position `l` of chunk `coord` when it
/// is a surface voxel of a world with seed `seed`.
pub open spec fn surface_structure(seed: u32, coord: ChunkCoord, l: LocalCoord) -> Option<
    StructureShape,
> {
    seeded_structure(spec_voxel_seed(seed, coord, l))
}

/// The structure blocks grown at the surface voxels among the first `n`
/// cells of chunk `coord`, in cell order (x major, z minor).
pub open spec fn surface_seq(seed: u32, coord: ChunkCoord, heights: Seq<i32>, n: int) -> Seq<
    (BlockCoord, Block),
>
    decreases n,
{
    if n <= 0 {
        Seq::empty()
    } else {
        let l = cell_local(n - 1);
        surface_seq(seed, coord, heights, n - 1) + if is_surface(coord, heights, l) {
            structure_seq(world_of(coord, l), surface_structure(seed, coord, l))
        } else {
            Seq::empty()
        }
    }
}

/// Write `w` is a block of the structure grown at some surface voxel of
/// chunk `coord`.
pub open spec fn from_surface(
    seed: u32,
    coord: ChunkCoord,
    heights: Seq<i32>,
    w: (BlockCoord, Block),
) -> bool {
    exists|l: LocalCoord|
        #[trigger] surface_structure(seed, coord, l) is Some && local_in_range(l) && is_surface(
            coord,
            heights,
            l,
        ) && {
            let root = world_of(coord, l);
            shape_block(
                surface_structure(seed, coord, l)->0,
                w.0.x - root.x,
                w.0.y - root.y,
                w.0.z - root.z,
            ) == Some(w.1)
        }
}

/// An oak: a log trunk of four to eight blocks under a crown of leaves.
pub struct OakTree;

impl OakTree {
    pub fn get_chance(&self) -> (r: u32)
        ensures
            r == OAK_CHANCE,
    {
        OAK_CHANCE
    }

    /// Grows an oak of the given trunk height whose trunk starts at
    /// `position`.
    pub fn generate(&self, position: BlockCoord, in_progress: &mut PendingTable, trunk_height: i32)
        requires
            block_in_gen_range(position),
            table_wf(*old(in_progress)),
            MIN_OAK_TREE_HEIGHT <= trunk_height <= MAX_OAK_TREE_HEIGHT,
        ensures
            table_wf(*final(in_progress)),
            extends(old(in_progress)@, final(in_progress)@),
            grew_shape(
                old(in_progress)@,
                final(in_progress)@,
                position,
                StructureShape::Oak(trunk_height),
            ),
            appended(
                old(in_progress)@,
                final(in_progress)@,
                shape_seq(position, StructureShape::Oak(trunk_height)),
            ),
    {
        grow(position, StructureShape::Oak(trunk_height), in_progress);
    }
}

/// A brown mushroom: a stem of six blocks under a flat cap.
pub struct BrownMushroom;

impl BrownMushroom {
    pub fn get_chance(&self) -> (r: u32)
        ensures
            r == BROWN_MUSHROOM_CHANCE,
    {
        BROWN_MUSHROOM_CHANCE
    }

    /// Grows a mushroom whose stem starts at `position`.
    pub fn generate(&self, position: BlockCoord, in_progress: &mut PendingTable)
        requires
            block_in_gen_range(position),
            table_wf(*old(in_progress)),
        ensures
            table_wf(*final(in_progress)),
            extends(old(in_progress)@, final(in_progress)@),
            grew_shape(
                old(in_progress)@,
                final(in_progress)@,
                position,
                StructureShape::BrownMushroom,
            ),
            appended(
                old(in_progress)@,
                final(in_progress)@,
                shape_seq(position, StructureShape::BrownMushroom),
            ),
    {
        grow(position, StructureShape::BrownMushroom, in_progress);
    }
}

/// The block that the layered rule puts at world height `wy` of a column
/// whose surface is at height `h`: grass on top, dirt for the next few
/// layers, stone below; air at and above the surface.
pub open spec fn terrain_block(h: int, wy: int) -> Block {
    if h > wy {
        if h - wy == 1 {
            Block { id: GRASS_ID }
        } else if h - wy < 5 {
            Block { id: DIRT_ID }
        } else {
            Block { id: STONE_ID }
        }
    } else {
        air()
    }
}

/// Surface height of column `(i, k)` in a chunk's height list.
pub open spec fn column_height(heights: Seq<i32>, l: LocalCoord) -> int {
    heights[l.0 * 32 + l.2] as int
}

/// Chunks whose voxels, and the structures around them, stay well inside
/// the range of `i32`.
pub open spec fn chunk_gen_range(c: ChunkCoord) -> bool {
    &&& -16777216 <= c.x <= 16777216
    &&& -16777216 <= c.y <= 16777216
    &&& -16777216 <= c.z <= 16777216
}

/// The seed of the random stream of one surface voxel: a mix of the world
/// seed, the chunk and the local position, so that generating again gives
/// the same structures.
pub open spec fn spec_voxel_seed(seed: u32, coord: ChunkCoord, l: LocalCoord) -> u64 {
    let prime: u64 = 1099511628211;
    let h0: u64 = 14695981039346656037;
    let h1 = (h0 ^ seed as u64).wrapping_mul(prime);
    let h2 = (h1 ^ coord.x as u32 as u64).wrapping_mul(prime);
    let h3 = (h2 ^ coord.y as u32 as u64).wrapping_mul(prime);
    let h4 = (h3 ^ coord.z as u32 as u64).wrapping_mul(prime);
    let h5 = (h4 ^ l.0 as u64).wrapping_mul(prime);
    let h6 = (h5 ^ l.1 as u64).wrapping_mul(prime);
    (h6 ^ l.2 as u64).wrapping_mul(prime)
}

fn voxel_seed(seed: u32, coord: ChunkCoord, l: LocalCoord) -> (r: u64)
    ensures
        r == spec_voxel_seed(seed, coord, l),
{
    let prime: u64 = 1099511628211;
    let mut h: u64 = 14695981039346656037;
    h = (h ^ seed as u64).wrapping_mul(prime);
    h = (h ^ coord.x as u32 as u64).wrapping_mul(prime);
    h = (h ^ coord.y as u32 as u64).wrapping_mul(prime);
    h = (h ^ coord.z as u32 as u64).wrapping_mul(prime);
    h = (h ^ l.0 as u64).wrapping_mul(prime);
    h = (h ^ l.1 as u64).wrapping_mul(prime);
    h = (h ^ l.2 as u64).wrapping_mul(prime);
    h
}

/// The forest: layered terrain with oaks and brown mushrooms on its surface.
pub struct ForestBiome;

impl ForestBiome {
    pub fn get_name(&self) -> (r: &'static str)
        ensures
            r == "Forest",
    {
        "Forest"
    }

    /// Grows the structure that `chance` picks (see `spec_pick`) at
    /// `block_coord`; an oak gets the given trunk height.
    pub fn place_structure(
        &self,
        block_coord: &BlockCoord,
        in_progress: &mut PendingTable,
        chance: u32,
        trunk_height: u32,
    )
        requires
            block_in_gen_range(*block_coord),
            table_wf(*old(in_progress)),
            chance < CHANCE_SCALE,
            MIN_OAK_TREE_HEIGHT <= trunk_height <= MAX_OAK_TREE_HEIGHT,
        ensures
            table_wf(*final(in_progress)),
            extends(old(in_progress)@, final(in_progress)@),
            grew(
                old(in_progress)@,
                final(in_progress)@,
                *block_coord,
                structure_of(chance, trunk_height),
            ),
            appended(
                old(in_progress)@,
                final(in_progress)@,
                structure_seq(*block_coord, structure_of(chance, trunk_height)),
            ),
    {
        match pick_structure(chance) {
            Some(StructureKind::Oak) => {
                OakTree.generate(*block_coord, in_progress, trunk_height as i32);
            },
            Some(StructureKind::BrownMushroom) => {
                BrownMushroom.generate(*block_coord, in_progress);
            },
            None => {
                proof {
                    lemma_extends_refl(in_progress@);
                    lemma_appended_empty(in_progress@);
                }
            },
        }
    }

    /// Draws a chance below `CHANCE_SCALE` and an oak trunk height from the
    /// random stream seeded with `seed`, and grows the structure they pick.
    pub fn generate_structures(&self, block_coord: &BlockCoord, in_progress: &mut PendingTable, seed: u64)
        requires
            block_in_gen_range(*block_coord),
            table_wf(*old(in_progress)),
        ensures
            table_wf(*final(in_progress)),
            extends(old(in_progress)@, final(in_progress)@),
            grew(old(in_progress)@, final(in_progress)@, *block_coord, seeded_structure(seed)),
            appended(
                old(in_progress)@,
                final(in_progress)@,
                structure_seq(*block_coord, seeded_structure(seed)),
            ),
    {
        let (chance, trunk_height) = draw_two(
            seed,
            CHANCE_SCALE,
            MIN_OAK_TREE_HEIGHT,
            MAX_OAK_TREE_HEIGHT + 1,
        );
        self.place_structure(block_coord, in_progress, chance, trunk_height);
    }

    /// Fills a chunk by the layered rule from the surface height of each of
    /// its columns, and starts a structure draw at every column's surface
    /// voxel that lies in this chunk.
    pub fn generate_chunk(
        &self,
        coord: ChunkCoord,
        chunk_data: &mut ChunkData,
        in_progress: &mut PendingTable,
        heights: &Vec<i32>,
        seed: u32,
    )
        requires
            old(chunk_data).is_none(),
            heights@.len() == 1024,
            chunk_gen_range(coord),
            table_wf(*old(in_progress)),
        ensures
            data_wf(*final(chunk_data)),
            final(chunk_data).is_none() == forall|l: LocalCoord|
                local_in_range(l) ==> #[trigger] terrain_block(
                    column_height(heights@, l),
                    coord.y * 32 + l.1,
                ) == air(),
            forall|l: LocalCoord|
                local_in_range(l) ==> #[trigger] data_block(*final(chunk_data), l) == terrain_block(
                    column_height(heights@, l),
                    coord.y * 32 + l.1,
                ),
            table_wf(*final(in_progress)),
            extends(old(in_progress)@, final(in_progress)@),
            forall|c: ChunkCoord, i: int| #[trigger]
                added_write(old(in_progress)@, final(in_progress)@, c, i) ==> from_surface(
                    seed,
                    coord,
                    heights@,
                    write_at(final(in_progress)@, c, i),
                ),
            forall|l: LocalCoord|
                local_in_range(l) && is_surface(coord, heights@, l) ==> #[trigger] shape_recorded(
                    old(in_progress)@,
                    final(in_progress)@,
                    world_of(coord, l),
                    surface_structure(seed, coord, l),
                ),
            appended(
                old(in_progress)@,
                final(in_progress)@,
                surface_seq(seed, coord, heights@, CHUNK_VOLUME as int),
            ),
    {
        let ghost t0 = in_progress@;
        proof {
            lemma_extends_refl(t0);
            lemma_appended_empty(t0);
        }
        let mut n: usize = 0;
        while n < CHUNK_VOLUME
            invariant
                n <= CHUNK_VOLUME,
                heights@.len() == 1024,
                chunk_gen_range(coord),
                data_wf(*chunk_data),
                chunk_data.is_none() == forall|l: LocalCoord|
                    local_in_range(l) && flat_index(l) < n ==> #[trigger] terrain_block(
                        column_height(heights@, l),
                        coord.y * 32 + l.1,
                    ) == air(),
                forall|l: LocalCoord|
                    local_in_range(l) ==> #[trigger] data_block(*chunk_data, l) == if flat_index(l)
                        < n {
                        terrain_block(column_height(heights@, l), coord.y * 32 + l.1)
                    } else {
                        air()
                    },
                table_wf(*in_progress),
                extends(t0, in_progress@),
                forall|c: ChunkCoord, i: int| #[trigger]
                    added_write(t0, in_progress@, c, i) ==> from_surface(
                        seed,
                        coord,
                        heights@,
                        write_at(in_progress@, c, i),
                    ),
                forall|m: LocalCoord|
                    local_in_range(m) && flat_index(m) < n && is_surface(coord, heights@, m)
                        ==> #[trigger] shape_recorded(
                        t0,
                        in_progress@,
                        world_of(coord, m),
                        surface_structure(seed, coord, m),
                    ),
                appended(t0, in_progress@, surface_seq(seed, coord, heights@, n as int)),
            decreases CHUNK_VOLUME - n,
        {
            proof {
                lemma_cell_local(n as int);
            }
            let l: LocalCoord = (n / 1024, (n / 32) % 32, n % 32);
            let height: i64 = heights[l.0 * 32 + l.2] as i64;
            let world_y: i64 = coord.y as i64 * 32 + l.1 as i64;
            let ghost prev = *chunk_data;
            if height > world_y {
                let block = if height - world_y == 1 {
                    Block { id: GRASS_ID }
                } else if height - world_y < 5 {
                    Block { id: DIRT_ID }
                } else {
                    Block { id: STONE_ID }
                };
                set_block_in_chunk(chunk_data, l, block);
            } else if height == world_y {
                let block_coord = IVec3 {
                    x: coord.x * 32 + l.0 as i32,
                    y: coord.y * 32 + l.1 as i32,
                    z: coord.z * 32 + l.2 as i32,
                };
                let ghost mid = in_progress@;
                self.generate_structures(&block_coord, in_progress, voxel_seed(seed, coord, l));
                proof {
                    let t2 = in_progress@;
                    let o = surface_structure(seed, coord, l);
                    assert(block_coord == world_of(coord, l));
                    assert(l == cell_local(n as int));
                    lemma_appended_trans(
                        t0,
                        mid,
                        t2,
                        surface_seq(seed, coord, heights@, n as int),
                        structure_seq(world_of(coord, l), o),
                    );
                    assert(surface_seq(seed, coord, heights@, n + 1) == surface_seq(seed, coord, heights@, n as int) + structure_seq(world_of(coord, l), o));
                    lemma_extends_trans(t0, mid, t2);
                    lemma_extends_lists_grow(t0, mid);
                    lemma_extends_lists_grow(mid, t2);
                    assert forall|c: ChunkCoord, i: int| #[trigger]
                        added_write(t0, t2, c, i) implies from_surface(
                        seed,
                        coord,
                        heights@,
                        write_at(t2, c, i),
                    ) by {
                        lemma_added_split(t0, mid, t2, c, i);
                        if !(added_write(t0, mid, c, i) && write_at(t2, c, i) == write_at(mid, c, i)) {
                            assert(added_write(mid, t2, c, i));
                            assert(o is Some);
                            assert(surface_structure(seed, coord, l) is Some);
                        }
                    }
                    assert forall|m: LocalCoord|
                        local_in_range(m) && flat_index(m) < n + 1 && is_surface(coord, heights@, m)
                            implies #[trigger] shape_recorded(
                            t0,
                            t2,
                            world_of(coord, m),
                            surface_structure(seed, coord, m),
                        ) by {
                        if flat_index(m) == n {
                            lemma_flat_index_injective(m, l);
                            lemma_shape_recorded_earlier(t0, mid, t2, world_of(coord, l), o);
                        } else {
                            lemma_shape_recorded_extends(
                                t0,
                                mid,
                                t2,
                                world_of(coord, m),
                                surface_structure(seed, coord, m),
                            );
                        }
                    }
                }
            } else {
                proof {
                    assert(l == cell_local(n as int));
                    assert(surface_seq(seed, coord, heights@, n + 1) =~= surface_seq(seed, coord, heights@, n as int));
                    assert forall|m: LocalCoord|
                        local_in_range(m) && flat_index(m) < n + 1 && is_surface(coord, heights@, m)
                            implies #[trigger] shape_recorded(
                            t0,
                            in_progress@,
                            world_of(coord, m),
                            surface_structure(seed, coord, m),
                        ) by {
                        if flat_index(m) == n {
                            lemma_flat_index_injective(m, l);
                        }
                    }
                }
            }
            proof {
                assert forall|m: LocalCoord| local_in_range(m) implies #[trigger] data_block(
                    *chunk_data,
                    m,
                ) == if flat_index(m) < n + 1 {
                    terrain_block(column_height(heights@, m), coord.y * 32 + m.1)
                } else {
                    air()
                } by {
                    if flat_index(m) == n {
                        lemma_flat_index_injective(m, l);
                    } else if m == l {
                    }
                }
                if chunk_data.is_none() {
                    assert forall|m: LocalCoord|
                        local_in_range(m) && flat_index(m) < n + 1 implies #[trigger] terrain_block(
                        column_height(heights@, m),
                        coord.y * 32 + m.1,
                    ) == air() by {
                        if flat_index(m) == n {
                            lemma_flat_index_injective(m, l);
                        }
                    }
                } else if prev.is_none() {
                    assert(terrain_block(column_height(heights@, l), coord.y * 32 + l.1) != air());
                }
            }
            n += 1;
        }
    }
}

impl ForestBiome {
    pub fn info(&self) -> (r: BiomeInfo)
        ensures
            r.kind == BiomeKind::Forest,
    {
        BiomeInfo { name: self.get_name().to_owned(), kind: BiomeKind::Forest }
    }
}

/// Registers the standard biomes and returns the forest's id.
pub fn register_everything(registry: &mut Registry) -> (id: u16)
    requires
        old(registry).spec_biomes().len() < MAX_IDS,
    ensures
        id == old(registry).spec_biomes().len(),
        final(registry).spec_biomes().len() == old(registry).spec_biomes().len() + 1,
        final(registry).spec_biomes()[id as int].kind == BiomeKind::Forest,
        final(registry).spec_blocks() == old(registry).spec_blocks(),
{
    registry.register_biome(ForestBiome.info())
}

/// The standard content as a whole.
pub struct StandardPlugin;

impl StandardPlugin {
    /// Registers the standard blocks, in list order, and the forest biome
    /// into an empty registry.
    pub fn build(&self, registry: &mut Registry)
        requires
            old(registry).spec_blocks().len() == 0,
            old(registry).spec_biomes().len() == 0,
        ensures
            final(registry).spec_blocks().len() == STANDARD_BLOCK_COUNT,
            forall|i: int|
                0 <= i < STANDARD_BLOCK_COUNT ==> (#[trigger] final(registry).spec_blocks()[i]).code_name@
                    == StandardBlocks::spec_from_index(i).spec_code_name()@,
            final(registry).spec_biomes().len() == 1,
            final(registry).spec_biomes()[0].kind == BiomeKind::Forest,
    {
        register_blocks(registry);
        register_everything(registry);
    }
}

} // verus!
