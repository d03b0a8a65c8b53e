//! The dense voxel array of a chunk and the chunk itself, which leaves the
//! array unallocated while every voxel is air.
use vstd::prelude::*;
use crate::block::{air, Block, AIR_ID};
use ndarray::Array3;
use crate::coord::{local_in_range, ChunkCoord, LocalCoord, CHUNK_SIZE};
use crate::mesh::lemma_cell_local;

verus! {

/// Voxels in one chunk.
pub const CHUNK_VOLUME: usize = 32768;

/// Position of a local coordinate in the flat voxel array (x major, z minor).
pub open spec fn flat_index(l: LocalCoord) -> int {
    (l.0 as int * 32 + l.1 as int) * 32 + l.2 as int
}

/// Distinct local coordinates occupy distinct array cells.
pub proof fn lemma_flat_index_injective(a: LocalCoord, b: LocalCoord)
    requires
        local_in_range(a),
        local_in_range(b),
        flat_index(a) == flat_index(b),
    ensures
        a == b,
{
}

/// A full `CHUNK_SIZE`³ array of voxels, held in an ndarray array.
#[verifier::external_body]
pub struct VoxelArray {
    voxels: Array3<Block>,
}

/// The elements of a voxel array in the array's logical order (last axis
/// fastest).
pub uninterp spec fn array_elements(a: VoxelArray) -> Seq<Block>;

/// The lengths of the three axes of a voxel array.
pub uninterp spec fn array_shape(a: VoxelArray) -> (nat, nat, nat);

/// Relies on ndarray's `Array::from_elem`: an array of the given shape
/// whose every element is `elem`.
#[verifier::external_body]
fn array_filled(elem: Block) -> (r: VoxelArray)
    ensures
        array_shape(r) == (32nat, 32nat, 32nat),
        array_elements(r) == Seq::new(CHUNK_VOLUME as nat, |n: int| elem),
{
    VoxelArray { voxels: Array3::from_elem((CHUNK_SIZE, CHUNK_SIZE, CHUNK_SIZE), elem) }
}

/// Relies on ndarray's indexing `a[[i, j, k]]`: the element at that index,
/// which stands at `(i * 32 + j) * 32 + k` in the logical order of a
/// 32×32×32 array; it panics outside the shape, which `requires` rules out.
#[verifier::external_body]
fn array_get(a: &VoxelArray, l: LocalCoord) -> (r: Block)
    requires
        array_shape(*a) == (32nat, 32nat, 32nat),
        local_in_range(l),
    ensures
        r == array_elements(*a)[flat_index(l)],
{
    a.voxels[[l.0, l.1, l.2]]
}

/// Relies on ndarray's mutable indexing `a[[i, j, k]] = block`: that one
/// element changes and the shape stays; it panics outside the shape, which
/// `requires` rules out.
#[verifier::external_body]
fn array_set(a: &mut VoxelArray, l: LocalCoord, block: Block)
    requires
        array_shape(*old(a)) == (32nat, 32nat, 32nat),
        local_in_range(l),
    ensures
        array_shape(*final(a)) == array_shape(*old(a)),
        array_elements(*final(a)) == array_elements(*old(a)).update(flat_index(l), block),
{
    a.voxels[[l.0, l.1, l.2]] = block;
}

impl View for VoxelArray {
    type V = Seq<Block>;

    closed spec fn view(&self) -> Seq<Block> {
        array_elements(*self)
    }
}

impl VoxelArray {
    pub open spec fn wf(&self) -> bool {
        &&& array_shape(*self) == (32nat, 32nat, 32nat)
        &&& self@.len() == CHUNK_VOLUME
    }

    /// The block at a local coordinate, in the model.
    pub open spec fn at(&self, l: LocalCoord) -> Block {
        self@[flat_index(l)]
    }

    /// An array that is air everywhere.
    pub fn new_air() -> (r: VoxelArray)
        ensures
            r.wf(),
            forall|n: int| 0 <= n < CHUNK_VOLUME ==> #[trigger] r@[n] == air(),
    {
        array_filled(Block { id: AIR_ID })
    }

    pub fn get(&self, l: LocalCoord) -> (r: Block)
        requires
            self.wf(),
            local_in_range(l),
        ensures
            r == self.at(l),
    {
        array_get(self, l)
    }

    /// The block in flat cell `n`.
    pub fn get_flat(&self, n: usize) -> (r: Block)
        requires
            self.wf(),
            n < CHUNK_VOLUME,
        ensures
            r == self@[n as int],
    {
        proof {
            lemma_cell_local(n as int);
        }
        self.get((n / 1024, (n / 32) % 32, n % 32))
    }

    pub fn set(&mut self, l: LocalCoord, block: Block)
        requires
            old(self).wf(),
            local_in_range(l),
        ensures
            final(self).wf(),
            final(self)@ == old(self)@.update(flat_index(l), block),
    {
        array_set(self, l, block);
    }
}

/// The voxel contents of a chunk: `None` while the chunk is entirely air.
pub type ChunkData = Option<VoxelArray>;

pub open spec fn data_wf(d: ChunkData) -> bool {
    match d {
        Some(a) => a.wf(),
        None => true,
    }
}

/// The block at a local coordinate of chunk contents; air where unallocated.
pub open spec fn data_block(d: ChunkData, l: LocalCoord) -> Block {
    match d {
        Some(a) => a.at(l),
        None => air(),
    }
}

/// The block stored at `coord`, or `None` when nothing is allocated.
pub fn get_block_from_chunk(chunk_data: &ChunkData, coord: LocalCoord) -> (r: Option<Block>)
    requires
        data_wf(*chunk_data),
        local_in_range(coord),
    ensures
        r == match *chunk_data {
            Some(a) => Some(a.at(coord)),
            None => None::<Block>,
        },
{
    match chunk_data {
        Some(a) => Some(a.get(coord)),
        None => None,
    }
}

/// Writes one voxel, allocating an all-air array first when there is none.
pub fn set_block_in_chunk(chunk_data: &mut ChunkData, coord: LocalCoord, block: Block)
    requires
        data_wf(*old(chunk_data)),
        local_in_range(coord),
    ensures
        data_wf(*final(chunk_data)),
        final(chunk_data).is_some(),
        forall|l: LocalCoord|
            local_in_range(l) ==> #[trigger] data_block(*final(chunk_data), l) == if l == coord {
                block
            } else {
                data_block(*old(chunk_data), l)
            },
{
    if chunk_data.is_none() {
        *chunk_data = Some(VoxelArray::new_air());
    }
    let ghost before = *chunk_data;
    match chunk_data {
        Some(a) => {
            a.set(coord, block);
        },
        None => {},
    }
    proof {
        assert forall|l: LocalCoord| local_in_range(l) implies #[trigger] data_block(
            *chunk_data,
            l,
        ) == if l == coord {
            block
        } else {
            data_block(*old(chunk_data), l)
        } by {
            if l != coord {
                if flat_index(l) == flat_index(coord) {
                    lemma_flat_index_injective(l, coord);
                }
            }
        }
    }
}

/// A cubic region of the world with its voxels and a flag that asks for a
/// new mesh.
pub struct Chunk {
    coord: ChunkCoord,
    block_data: ChunkData,
    needs_update: bool,
}

impl Chunk {
    pub closed spec fn spec_coord(&self) -> ChunkCoord {
        self.coord
    }

    pub closed spec fn spec_data(&self) -> ChunkData {
        self.block_data
    }

    pub closed spec fn spec_needs_update(&self) -> bool {
        self.needs_update
    }

    pub open spec fn wf(&self) -> bool {
        data_wf(self.spec_data())
    }

    pub open spec fn block_at(&self, l: LocalCoord) -> Block {
        data_block(self.spec_data(), l)
    }

    /// An all-air chunk that needs no mesh.
    pub fn empty(coord: ChunkCoord) -> (r: Chunk)
        ensures
            r.wf(),
            r.spec_coord() == coord,
            r.spec_data().is_none(),
            !r.spec_needs_update(),
    {
        Chunk { coord, block_data: None, needs_update: false }
    }

    /// An all-air chunk flagged for meshing.
    pub fn new(coord: ChunkCoord) -> (r: Chunk)
        ensures
            r.wf(),
            r.spec_coord() == coord,
            r.spec_data().is_none(),
            r.spec_needs_update(),
    {
        Chunk { coord, block_data: None, needs_update: true }
    }

    /// A chunk holding `data`, flagged for meshing.
    pub fn from_data(coord: ChunkCoord, data: VoxelArray) -> (r: Chunk)
        requires
            data.wf(),
        ensures
            r.wf(),
            r.spec_coord() == coord,
            r.spec_data() == Some(data),
            r.spec_needs_update(),
    {
        Chunk { coord, block_data: Some(data), needs_update: true }
    }

    /// Writes a voxel and reports whether its value changed; a change flags
    /// the chunk for meshing. The first write allocates the array.
    pub fn set_block(&mut self, l: LocalCoord, block: Block) -> (changed: bool)
        requires
            old(self).wf(),
            local_in_range(l),
        ensures
            set_block_post(*old(self), *final(self), l, block, changed),
    {
        let previous = match &self.block_data {
            Some(a) => a.get(l),
            None => Block { id: AIR_ID },
        };
        set_block_in_chunk(&mut self.block_data, l, block);
        let changed = previous != block;
        if changed {
            self.needs_update = true;
        }
        changed
    }

    /// The block at a local coordinate; air while nothing is allocated.
    pub fn get_block(&self, l: LocalCoord) -> (r: Option<Block>)
        requires
            self.wf(),
            local_in_range(l),
        ensures
            r == Some(self.block_at(l)),
    {
        match &self.block_data {
            Some(a) => Some(a.get(l)),
            None => Some(Block { id: AIR_ID }),
        }
    }

    pub fn get_coord(&self) -> (r: ChunkCoord)
        ensures
            r == self.spec_coord(),
    {
        self.coord
    }

    pub fn get_data(&self) -> (r: &ChunkData)
        ensures
            *r == self.spec_data(),
    {
        &self.block_data
    }

    /// Marks the current contents as meshed.
    pub fn set_updated(&mut self)
        ensures
            !final(self).spec_needs_update(),
            final(self).spec_data() == old(self).spec_data(),
            final(self).spec_coord() == old(self).spec_coord(),
    {
        self.needs_update = false;
    }

    pub fn is_empty(&self) -> (r: bool)
        ensures
            r == self.spec_data().is_none(),
    {
        self.block_data.is_none()
    }

    pub fn needs_update(&self) -> (r: bool)
        ensures
            r == self.spec_needs_update(),
    {
        self.needs_update
    }

    /// Asks for a new mesh without touching the voxels.
    pub fn request_update(&mut self)
        ensures
            final(self).spec_needs_update(),
            final(self).spec_data() == old(self).spec_data(),
            final(self).spec_coord() == old(self).spec_coord(),
    {
        self.needs_update = true;
    }
}

/// What `Chunk::set_block(l, block)` does, taking `before` to `after` and
/// reporting `changed`.
pub open spec fn set_block_post(
    before: Chunk,
    after: Chunk,
    l: LocalCoord,
    block: Block,
    changed: bool,
) -> bool {
    &&& after.wf()
    &&& changed == (before.block_at(l) != block)
    &&& after.spec_data().is_some()
    &&& after.spec_coord() == before.spec_coord()
    &&& after.spec_needs_update() == (before.spec_needs_update() || changed)
    &&& forall|m: LocalCoord|
        local_in_range(m) ==> #[trigger] after.block_at(m) == if m == l {
            block
        } else {
            before.block_at(m)
        }
}

/// Every voxel of a chunk with no array is air.
pub proof fn lemma_air_default(c: Chunk, l: LocalCoord)
    requires
        c.spec_data().is_none(),
    ensures
        c.block_at(l) == air(),
        c.block_at(l).id == 0,
{
}

/// Writing a solid block into an empty chunk allocates it, reports a
/// change, and the block reads back.
pub proof fn lemma_sparse_allocation(
    before: Chunk,
    after: Chunk,
    l: LocalCoord,
    block: Block,
    changed: bool,
)
    requires
        before.spec_data().is_none(),
        local_in_range(l),
        block.id != 0,
        set_block_post(before, after, l, block, changed),
    ensures
        after.spec_data().is_some(),
        after.block_at(l) == block,
        changed,
{
    assert(after.block_at(l) == block);
}

/// A block written at a local position reads back there.
pub proof fn lemma_set_then_get(
    before: Chunk,
    after: Chunk,
    l: LocalCoord,
    block: Block,
    changed: bool,
)
    requires
        local_in_range(l),
        set_block_post(before, after, l, block, changed),
    ensures
        after.block_at(l) == block,
{
    assert(after.block_at(l) == block);
}

/// Writing the same block twice reports no change the second time and
/// leaves the update flag as the first write left it.
pub proof fn lemma_change_detection(
    c0: Chunk,
    c1: Chunk,
    c2: Chunk,
    l: LocalCoord,
    block: Block,
    changed1: bool,
    changed2: bool,
)
    requires
        local_in_range(l),
        set_block_post(c0, c1, l, block, changed1),
        set_block_post(c1, c2, l, block, changed2),
    ensures
        !changed2,
        c2.spec_needs_update() == c1.spec_needs_update(),
{
    assert(c1.block_at(l) == block);
}

} // verus!
