//! Integer coordinates in chunk space and in voxel space, and the
//! conversions between them.
use vstd::prelude::*;

verus! {

/// Number of voxels along each axis of a chunk.
pub const CHUNK_SIZE: usize = 32;

/// An integer 3-vector.
#[derive(Clone, Copy, PartialEq, Eq, Structural, Debug, Hash)]
pub struct IVec3 {
    pub x: i32,
    pub y: i32,
    pub z: i32,
}

/// A chunk in chunk space.
pub type ChunkCoord = IVec3;

/// A voxel in world voxel space.
pub type BlockCoord = IVec3;

/// A voxel position inside a chunk, each component below `CHUNK_SIZE`.
pub type LocalCoord = (usize, usize, usize);

/// The range of chunk coordinates that the chunks of `i32` voxels take.
pub open spec fn chunk_in_range(c: ChunkCoord) -> bool {
    -67108864 <= c.x < 67108864 && -67108864 <= c.y < 67108864 && -67108864 <= c.z < 67108864
}

/// Each component of a local position lies in `0..CHUNK_SIZE`.
pub open spec fn local_in_range(l: LocalCoord) -> bool {
    l.0 < CHUNK_SIZE && l.1 < CHUNK_SIZE && l.2 < CHUNK_SIZE
}

/// `floor(v / 32)`: integer division rounds towards minus infinity here.
pub open spec fn floor_chunk(v: int) -> int {
    v / 32
}

/// The chunk that holds world voxel `b`.
pub open spec fn spec_block_to_chunk(b: BlockCoord) -> ChunkCoord {
    IVec3 {
        x: floor_chunk(b.x as int) as i32,
        y: floor_chunk(b.y as int) as i32,
        z: floor_chunk(b.z as int) as i32,
    }
}

/// The position of world voxel `b` inside its chunk.
pub open spec fn spec_block_to_local(b: BlockCoord) -> LocalCoord {
    ((b.x as int % 32) as usize, (b.y as int % 32) as usize, (b.z as int % 32) as usize)
}

/// The world voxel at local position `l` of chunk `c`.
pub open spec fn spec_local_to_block(l: (int, int, int), c: ChunkCoord) -> (int, int, int) {
    (l.0 + c.x * 32, l.1 + c.y * 32, l.2 + c.z * 32)
}

/// Moving by whole chunks moves the chunk index by the same count.
proof fn lemma_floor_chunk_shift(v: int, k: int)
    ensures
        (v + 32 * k) / 32 == v / 32 + k,
        (v + 32 * k) % 32 == v % 32,
{
    vstd::arithmetic::div_mod::lemma_fundamental_div_mod(v, 32);
    let q = v / 32;
    let r = v % 32;
    assert(v + 32 * k == 32 * (q + k) + r) by (nonlinear_arith)
        requires v == 32 * q + r;
    vstd::arithmetic::div_mod::lemma_div_multiples_vanish_fancy(q + k, r, 32);
    vstd::arithmetic::div_mod::lemma_mod_multiples_vanish(q + k, r, 32);
    vstd::arithmetic::div_mod::lemma_small_mod(r as nat, 32);
}

fn floor_div_side(v: i32) -> (r: i32)
    ensures
        r as int == floor_chunk(v as int),
        -67108864 <= r < 67108864,
{
    let shifted: u64 = (v as i64 + 2147483648i64) as u64;
    let q: u64 = shifted / 32;
    let r = (q as i64 - 67108864i64) as i32;
    assert(r as int == floor_chunk(v as int)) by {
        assert(shifted as int == v as int + 2147483648);
        lemma_floor_chunk_shift(v as int, 67108864);
    }
    r
}

/// The chunk that holds a world voxel: `floor(block / CHUNK_SIZE)` per axis.
pub fn block_to_chunk_coord(block_coord: &BlockCoord) -> (r: ChunkCoord)
    ensures
        r == spec_block_to_chunk(*block_coord),
        chunk_in_range(r),
{
    IVec3 {
        x: floor_div_side(block_coord.x),
        y: floor_div_side(block_coord.y),
        z: floor_div_side(block_coord.z),
    }
}

/// The local position of a world voxel inside its chunk.
pub fn block_to_chunk_local_coord(block_coord: &BlockCoord) -> (r: LocalCoord)
    ensures
        r == spec_block_to_local(*block_coord),
        local_in_range(r),
        spec_local_to_block((r.0 as int, r.1 as int, r.2 as int), spec_block_to_chunk(*block_coord))
            == (block_coord.x as int, block_coord.y as int, block_coord.z as int),
{
    let c = block_to_chunk_coord(block_coord);
    proof {
        lemma_decompose(block_coord.x as int);
        lemma_decompose(block_coord.y as int);
        lemma_decompose(block_coord.z as int);
    }
    (
        (block_coord.x as i64 - c.x as i64 * 32) as usize,
        (block_coord.y as i64 - c.y as i64 * 32) as usize,
        (block_coord.z as i64 - c.z as i64 * 32) as usize,
    )
}

/// A value splits into its chunk index and its offset inside that chunk.
pub proof fn lemma_decompose(v: int)
    ensures
        v == floor_chunk(v) * 32 + v % 32,
        0 <= v % 32 < 32,
{
    vstd::arithmetic::div_mod::lemma_fundamental_div_mod(v, 32);
}

/// The world voxel at local position `local` of chunk `chunk_coord`.
pub fn chunk_local_to_block_coord(local: &(i32, i32, i32), chunk_coord: &ChunkCoord) -> (r: BlockCoord)
    requires
        i32::MIN <= local.0 + chunk_coord.x * 32 <= i32::MAX,
        i32::MIN <= local.1 + chunk_coord.y * 32 <= i32::MAX,
        i32::MIN <= local.2 + chunk_coord.z * 32 <= i32::MAX,
    ensures
        (r.x as int, r.y as int, r.z as int) == spec_local_to_block(
            (local.0 as int, local.1 as int, local.2 as int),
            *chunk_coord,
        ),
{
    IVec3 {
        x: (local.0 as i64 + chunk_coord.x as i64 * 32) as i32,
        y: (local.1 as i64 + chunk_coord.y as i64 * 32) as i32,
        z: (local.2 as i64 + chunk_coord.z as i64 * 32) as i32,
    }
}

pub open spec fn spec_world_origin(c: ChunkCoord) -> (int, int, int) {
    (c.x * 32, c.y * 32, c.z * 32)
}

/// The world voxel at the origin corner of a chunk.
pub fn to_world_coord(chunk_coord: &ChunkCoord) -> (r: BlockCoord)
    requires
        chunk_in_range(*chunk_coord),
    ensures
        (r.x as int, r.y as int, r.z as int) == spec_world_origin(*chunk_coord),
{
    IVec3 { x: chunk_coord.x * 32, y: chunk_coord.y * 32, z: chunk_coord.z * 32 }
}

/// The chunk that holds a world position given in whole voxels.
pub fn to_chunk_coord(world_coord: &BlockCoord) -> (r: ChunkCoord)
    ensures
        r == spec_block_to_chunk(*world_coord),
{
    block_to_chunk_coord(world_coord)
}

/// The chunk of any `i32` voxel is within `chunk_in_range`.
pub proof fn lemma_chunk_in_range_of_block(b: BlockCoord)
    ensures
        chunk_in_range(spec_block_to_chunk(b)),
{
    vstd::arithmetic::div_mod::lemma_div_is_ordered(-2147483648, b.x as int, 32);
    vstd::arithmetic::div_mod::lemma_div_is_ordered(b.x as int, 2147483647, 32);
    vstd::arithmetic::div_mod::lemma_div_is_ordered(-2147483648, b.y as int, 32);
    vstd::arithmetic::div_mod::lemma_div_is_ordered(b.y as int, 2147483647, 32);
    vstd::arithmetic::div_mod::lemma_div_is_ordered(-2147483648, b.z as int, 32);
    vstd::arithmetic::div_mod::lemma_div_is_ordered(b.z as int, 2147483647, 32);
}

} // verus!
