//! The streaming orchestrator: which chunks exist, which are queued for
//! generation or meshing, and the edits and evictions that change them.
use vstd::prelude::*;
use crate::block::Block;
use crate::chunk::{Chunk, VoxelArray};
use crate::mesh::{
    atlas_covers_drawn, drawn_faces_covered, mesh_matches, neighbor_views, neighbors_wf, visible_faces, MeshData,
    TextureMapInfo, FACE_SLOTS,
};
use crate::coord::{
    block_to_chunk_coord, block_to_chunk_local_coord, local_in_range, spec_block_to_chunk,
    spec_block_to_local, BlockCoord, ChunkCoord, IVec3, LocalCoord,
};
use crate::coord_map::CoordMap;
use crate::generator::{
    generation_result, in_neighborhood, neighbor_at, neighborhood_gen_range, sample_ok,
    SampleMap, TerrainGenerator,
};
use crate::pending::{folded_block, UnfinishedChunkData};
use crate::registry::Registry;
use crate::scanner::{in_scan_cube, ChunkScanner, MAX_RANGE};
use crate::pending::{settled, table_wf, PendingTable};

verus! {

/// A chunk whose face neighbours still have `i32` coordinates.
pub open spec fn chunk_coord_ok(c: ChunkCoord) -> bool {
    &&& -1073741824 <= c.x <= 1073741824
    &&& -1073741824 <= c.y <= 1073741824
    &&& -1073741824 <= c.z <= 1073741824
}

/// The chunk across face `f` of chunk `c` (right, left, bottom, top, front,
/// back).
pub open spec fn face_neighbor(c: ChunkCoord, f: int) -> ChunkCoord {
    if f == 0 {
        IVec3 { x: (c.x + 1) as i32, ..c }
    } else if f == 1 {
        IVec3 { x: (c.x - 1) as i32, ..c }
    } else if f == 2 {
        IVec3 { y: (c.y - 1) as i32, ..c }
    } else if f == 3 {
        IVec3 { y: (c.y + 1) as i32, ..c }
    } else if f == 4 {
        IVec3 { z: (c.z + 1) as i32, ..c }
    } else {
        IVec3 { z: (c.z - 1) as i32, ..c }
    }
}

/// The world's chunks, their meshes, the work queued on them, and the
/// pending table of generation.
pub struct Worldgen<M> {
    chunk_map: CoordMap<Chunk>,
    mesh_map: CoordMap<M>,
    generator: TerrainGenerator,
    needs_mesh_build: CoordMap<()>,
    needs_chunk_build: CoordMap<()>,
    in_progress: PendingTable,
}

impl<M> Worldgen<M> {
    pub closed spec fn spec_chunks(&self) -> Map<ChunkCoord, Chunk> {
        self.chunk_map@
    }

    pub closed spec fn spec_meshes(&self) -> Map<ChunkCoord, M> {
        self.mesh_map@
    }

    /// Chunks waiting for a mesh.
    pub closed spec fn spec_mesh_queue(&self) -> Set<ChunkCoord> {
        self.needs_mesh_build@.dom()
    }

    /// Chunks whose generation has been handed out.
    pub closed spec fn spec_chunk_queue(&self) -> Set<ChunkCoord> {
        self.needs_chunk_build@.dom()
    }

    pub closed spec fn spec_pending(&self) -> PendingTable {
        self.in_progress
    }

    pub closed spec fn spec_seed(&self) -> u32 {
        self.generator.spec_seed()
    }

    pub closed spec fn wf(&self) -> bool {
        &&& self.chunk_map.wf()
        &&& self.mesh_map.wf()
        &&& self.needs_mesh_build.wf()
        &&& self.needs_chunk_build.wf()
        &&& table_wf(self.in_progress)
        &&& settled(self.in_progress@)
        &&& forall|c: ChunkCoord| #[trigger]
            self.chunk_map@.contains_key(c) ==> self.chunk_map@[c].wf()
                && self.chunk_map@[c].spec_coord() == c && chunk_coord_ok(c)
    }

    /// An empty world generated from `seed`.
    pub fn new(seed: u32) -> (r: Worldgen<M>)
        ensures
            r.wf(),
            r.spec_seed() == seed,
            r.spec_chunks() == Map::<ChunkCoord, Chunk>::empty(),
            r.spec_meshes() == Map::<ChunkCoord, M>::empty(),
            r.spec_mesh_queue() == Set::<ChunkCoord>::empty(),
            r.spec_chunk_queue() == Set::<ChunkCoord>::empty(),
            r.spec_pending()@ == Map::<ChunkCoord, crate::pending::UnfinishedChunkData>::empty(),
    {
        let r = Worldgen {
            chunk_map: CoordMap::new(),
            mesh_map: CoordMap::new(),
            generator: TerrainGenerator::new(seed),
            needs_mesh_build: CoordMap::new(),
            needs_chunk_build: CoordMap::new(),
            in_progress: CoordMap::new(),
        };
        assert(r.needs_mesh_build@.dom() =~= Set::<ChunkCoord>::empty());
        assert(r.needs_chunk_build@.dom() =~= Set::<ChunkCoord>::empty());
        r
    }

    /// Number of chunks in the world.
    pub fn loaded_chunk_count(&self) -> (r: usize)
        requires
            self.wf(),
        ensures
            r == self.spec_chunks().len(),
    {
        self.chunk_map.len()
    }

    /// Takes a generated chunk into the world and queues it for meshing.
    pub fn build_chunk(&mut self, chunk_coord: ChunkCoord, chunk: Chunk)
        requires
            old(self).wf(),
            chunk.wf(),
            chunk.spec_coord() == chunk_coord,
            chunk_coord_ok(chunk_coord),
        ensures
            final(self).wf(),
            final(self).spec_chunks() == old(self).spec_chunks().insert(chunk_coord, chunk),
            final(self).spec_mesh_queue() == old(self).spec_mesh_queue().insert(chunk_coord),
            final(self).spec_chunk_queue() == old(self).spec_chunk_queue().remove(chunk_coord),
            final(self).spec_meshes() == old(self).spec_meshes(),
            final(self).spec_pending() == old(self).spec_pending(),
            final(self).spec_seed() == old(self).spec_seed(),
    {
        self.chunk_map.insert(chunk_coord, chunk);
        self.needs_mesh_build.insert(chunk_coord, ());
        self.needs_chunk_build.remove(&chunk_coord);
        assert(self.needs_mesh_build@.dom() =~= old(self).needs_mesh_build@.dom().insert(chunk_coord));
        assert(self.needs_chunk_build@.dom() =~= old(self).needs_chunk_build@.dom().remove(chunk_coord));
    }

    /// The block at a world voxel, or `None` when its chunk is not loaded.
    pub fn get_block(&self, coord: &BlockCoord) -> (r: Option<Block>)
        requires
            self.wf(),
        ensures
            r == if self.spec_chunks().contains_key(spec_block_to_chunk(*coord)) {
                Some(
                    self.spec_chunks()[spec_block_to_chunk(*coord)].block_at(
                        spec_block_to_local(*coord),
                    ),
                )
            } else {
                None::<Block>
            },
    {
        let chunk_coord = block_to_chunk_coord(coord);
        let local = block_to_chunk_local_coord(coord);
        match self.chunk_map.get(&chunk_coord) {
            Some(chunk) => chunk.get_block(local),
            None => None,
        }
    }

    /// Flags the loaded face neighbours of chunk `coord` for meshing.
    fn update_neighbors(&mut self, coord: ChunkCoord)
        requires
            old(self).wf(),
            chunk_coord_ok(coord),
        ensures
            final(self).wf(),
            final(self).spec_chunks().dom() == old(self).spec_chunks().dom(),
            forall|c: ChunkCoord| #[trigger]
                final(self).spec_chunks().contains_key(c) ==> {
                    let was = old(self).spec_chunks()[c];
                    let now = final(self).spec_chunks()[c];
                    &&& now.spec_data() == was.spec_data()
                    &&& now.spec_coord() == was.spec_coord()
                    &&& now.spec_needs_update() == (was.spec_needs_update() || is_face_neighbor(
                        coord,
                        c,
                    ))
                },
            final(self).spec_meshes() == old(self).spec_meshes(),
            final(self).spec_mesh_queue() == old(self).spec_mesh_queue(),
            final(self).spec_chunk_queue() == old(self).spec_chunk_queue(),
            final(self).spec_pending() == old(self).spec_pending(),
            final(self).spec_seed() == old(self).spec_seed(),
    {
        let mut f: usize = 0;
        while f < 6
            invariant
                f <= 6,
                self.wf(),
                chunk_coord_ok(coord),
                self.chunk_map@.dom() == old(self).chunk_map@.dom(),
                forall|c: ChunkCoord| #[trigger]
                    self.chunk_map@.contains_key(c) ==> {
                        let was = old(self).chunk_map@[c];
                        let now = self.chunk_map@[c];
                        &&& now.spec_data() == was.spec_data()
                        &&& now.spec_coord() == was.spec_coord()
                        &&& now.spec_needs_update() == (was.spec_needs_update() || exists|g: int|
                            0 <= g < f && c == face_neighbor(coord, g))
                    },
                self.mesh_map == old(self).mesh_map,
                self.needs_mesh_build == old(self).needs_mesh_build,
                self.needs_chunk_build == old(self).needs_chunk_build,
                self.in_progress == old(self).in_progress,
                self.generator == old(self).generator,
            decreases 6 - f,
        {
            let n = face_neighbor_of(coord, f);
            let ghost before = self.chunk_map@;
            match self.chunk_map.remove(&n) {
                Some(mut chunk) => {
                    chunk.request_update();
                    self.chunk_map.insert(n, chunk);
                    proof {
                        assert(self.chunk_map@ == before.insert(n, chunk));
                        assert(self.chunk_map@.dom() =~= before.dom());
                    }
                },
                None => {},
            }
            proof {
                assert forall|c: ChunkCoord| #[trigger] self.chunk_map@.contains_key(c) implies {
                    let was = old(self).chunk_map@[c];
                    let now = self.chunk_map@[c];
                    &&& now.spec_data() == was.spec_data()
                    &&& now.spec_coord() == was.spec_coord()
                    &&& now.spec_needs_update() == (was.spec_needs_update() || exists|g: int|
                        0 <= g < f + 1 && c == face_neighbor(coord, g))
                } by {
                    assert(before.contains_key(c));
                    if c == n {
                        assert(c == face_neighbor(coord, f as int));
                    } else {
                        if exists|g: int| 0 <= g < f + 1 && c == face_neighbor(coord, g) {
                            let g = choose|g: int| 0 <= g < f + 1 && c == face_neighbor(coord, g);
                            assert(g != f);
                        }
                    }
                }
            }
            f += 1;
        }
        proof {
            assert forall|c: ChunkCoord| #[trigger] self.chunk_map@.contains_key(c) implies (exists|g: int|
                0 <= g < 6 && c == face_neighbor(coord, g)) == is_face_neighbor(coord, c) by {
                if is_face_neighbor(coord, c) {
                    let g = choose|g: int| 0 <= g < 6 && c == face_neighbor(coord, g);
                }
            }
        }
    }

    /// Writes a voxel in its loaded chunk. A change of value flags that
    /// chunk and its six face neighbours for meshing. Writing into a chunk
    /// that is not loaded changes nothing and returns the chunk's
    /// coordinate as the error.
    pub fn set_block(&mut self, coord: &BlockCoord, block: Block) -> (r: Result<(), ChunkCoord>)
        requires
            old(self).wf(),
        ensures
            final(self).wf(),
            ({
                let cc = spec_block_to_chunk(*coord);
                let l = spec_block_to_local(*coord);
                let was = old(self).spec_chunks();
                let now = final(self).spec_chunks();
                if !was.contains_key(cc) {
                    &&& r == Err::<(), ChunkCoord>(cc)
                    &&& now == was
                } else {
                    let changed = was[cc].block_at(l) != block;
                    &&& r == Ok::<(), ChunkCoord>(())
                    &&& now.dom() == was.dom()
                    &&& now[cc].block_at(l) == block
                    &&& forall|m: LocalCoord|
                        local_in_range(m) && m != l ==> #[trigger] now[cc].block_at(m)
                            == was[cc].block_at(m)
                    &&& now[cc].spec_needs_update() == (was[cc].spec_needs_update() || changed)
                    &&& forall|c: ChunkCoord| #[trigger]
                        now.contains_key(c) && c != cc ==> {
                            &&& now[c].spec_data() == was[c].spec_data()
                            &&& now[c].spec_needs_update() == (was[c].spec_needs_update() || (
                            changed && is_face_neighbor(cc, c)))
                        }
                }
            }),
            final(self).spec_meshes() == old(self).spec_meshes(),
            final(self).spec_mesh_queue() == old(self).spec_mesh_queue(),
            final(self).spec_chunk_queue() == old(self).spec_chunk_queue(),
            final(self).spec_pending() == old(self).spec_pending(),
            final(self).spec_seed() == old(self).spec_seed(),
    {
        let chunk_coord = block_to_chunk_coord(coord);
        let local = block_to_chunk_local_coord(coord);
        match self.chunk_map.remove(&chunk_coord) {
            None => {
                assert(self.chunk_map@ =~= old(self).chunk_map@);
                Err(chunk_coord)
            },
            Some(mut chunk) => {
                let ghost before = chunk;
                let changed = chunk.set_block(local, block);
                self.chunk_map.insert(chunk_coord, chunk);
                let ghost mid = self.chunk_map@;
                proof {
                    assert(mid == old(self).chunk_map@.insert(chunk_coord, chunk));
                    assert(mid.dom() =~= old(self).chunk_map@.dom());
                    assert forall|c: ChunkCoord| #[trigger]
                        self.chunk_map@.contains_key(c) implies self.chunk_map@[c].wf()
                        && self.chunk_map@[c].spec_coord() == c by {}
                }
                if changed {
                    proof {
                        lemma_chunk_coord_ok(*coord);
                    }
                    self.update_neighbors(chunk_coord);
                    proof {
                        assert(!is_face_neighbor(chunk_coord, chunk_coord));
                    }
                }
                proof {
                    assert(self.chunk_map@.contains_key(chunk_coord));
                    let now = self.chunk_map@[chunk_coord];
                    assert(now.spec_data() == chunk.spec_data());
                    assert(chunk.block_at(local) == block);
                    assert(now.block_at(local) == chunk.block_at(local));
                    assert forall|m: LocalCoord| local_in_range(m) && m != local implies #[trigger] now.block_at(m)
                        == before.block_at(m) by {
                        assert(chunk.block_at(m) == before.block_at(m));
                    }
                }
                Ok(())
            },
        }
    }
}

/// Whether `c` is one of the six chunks sharing a face with `center`.
pub open spec fn is_face_neighbor(center: ChunkCoord, c: ChunkCoord) -> bool {
    exists|g: int| 0 <= g < 6 && c == face_neighbor(center, g)
}

/// The chunk of any `i32` voxel has neighbours that are chunks of `i32`
/// voxels too.
proof fn lemma_chunk_coord_ok(b: BlockCoord)
    ensures
        chunk_coord_ok(spec_block_to_chunk(b)),
{
    vstd::arithmetic::div_mod::lemma_div_is_ordered(-2147483648, b.x as int, 32);
    vstd::arithmetic::div_mod::lemma_div_is_ordered(b.x as int, 2147483647, 32);
    vstd::arithmetic::div_mod::lemma_div_is_ordered(-2147483648, b.y as int, 32);
    vstd::arithmetic::div_mod::lemma_div_is_ordered(b.y as int, 2147483647, 32);
    vstd::arithmetic::div_mod::lemma_div_is_ordered(-2147483648, b.z as int, 32);
    vstd::arithmetic::div_mod::lemma_div_is_ordered(b.z as int, 2147483647, 32);
}

fn face_neighbor_of(c: ChunkCoord, f: usize) -> (r: ChunkCoord)
    requires
        chunk_coord_ok(c),
        f < 6,
    ensures
        r == face_neighbor(c, f as int),
{
    if f == 0 {
        IVec3 { x: c.x + 1, ..c }
    } else if f == 1 {
        IVec3 { x: c.x - 1, ..c }
    } else if f == 2 {
        IVec3 { y: c.y - 1, ..c }
    } else if f == 3 {
        IVec3 { y: c.y + 1, ..c }
    } else if f == 4 {
        IVec3 { z: c.z + 1, ..c }
    } else {
        IVec3 { z: c.z - 1, ..c }
    }
}

/// What `scan_chunks(scanner)` does, taking `before` to `after` and
/// returning `jobs`: every chunk of the scanner's cube that is neither
/// loaded nor queued is queued and gets exactly one request.
pub open spec fn scan_post<M>(
    before: Worldgen<M>,
    after: Worldgen<M>,
    scanner: &ChunkScanner,
    jobs: Seq<ChunkBuildJob>,
) -> bool {
    &&& after.spec_chunk_queue() == before.spec_chunk_queue().union(
        job_coords(jobs).to_set(),
    )
    &&& job_coords(jobs).no_duplicates()
    &&& forall|i: int|
        0 <= i < jobs.len() ==> {
            let c = (#[trigger] jobs[i]).coord;
            &&& in_scan_cube(scanner.center_chunk(), scanner.spec_range() as int, c)
            &&& !before.spec_chunks().contains_key(c)
            &&& !before.spec_chunk_queue().contains(c)
            &&& chunk_coord_ok(c)
            &&& loaded_mask_ok(jobs[i].loaded, before.spec_chunks(), c)
        }
    &&& forall|c: ChunkCoord|
        in_scan_cube(scanner.center_chunk(), scanner.spec_range() as int, c)
            && !before.spec_chunks().contains_key(c)
            && !before.spec_chunk_queue().contains(c) ==> job_coords(jobs).contains(c)
}

/// Scanning twice with nothing built in between hands out no second
/// request: every chunk the first scan missed it queued.
pub proof fn lemma_scan_dedup<M>(
    w0: Worldgen<M>,
    w1: Worldgen<M>,
    w2: Worldgen<M>,
    scanner: &ChunkScanner,
    jobs1: Seq<ChunkBuildJob>,
    jobs2: Seq<ChunkBuildJob>,
)
    requires
        scan_post(w0, w1, scanner, jobs1),
        scan_post(w1, w2, scanner, jobs2),
        w1.spec_chunks() == w0.spec_chunks(),
    ensures
        jobs2.len() == 0,
        w2.spec_chunk_queue() == w1.spec_chunk_queue(),
{
    if jobs2.len() > 0 {
        let c = jobs2[0].coord;
        assert(job_coords(jobs2)[0] == c);
        if !w0.spec_chunk_queue().contains(c) {
            assert(job_coords(jobs1).contains(c));
            assert(job_coords(jobs1).to_set().contains(c));
        }
    }
    assert(job_coords(jobs2) =~= Seq::<ChunkCoord>::empty());
    assert(w2.spec_chunk_queue() =~= w1.spec_chunk_queue());
}

/// A generation request: the chunk, and which chunks of its 3×3×3
/// neighbourhood were loaded when it was made (bit `i` for
/// `neighbor_at(coord, i)`).
pub struct ChunkBuildJob {
    pub coord: ChunkCoord,
    pub loaded: u32,
}

pub open spec fn job_coords(jobs: Seq<ChunkBuildJob>) -> Seq<ChunkCoord> {
    jobs.map_values(|j: ChunkBuildJob| j.coord)
}

/// Bit `i` of `mask` says whether neighbour `i` of `c` is loaded.
pub open spec fn loaded_mask_ok(mask: u32, chunks: Map<ChunkCoord, Chunk>, c: ChunkCoord) -> bool {
    forall|i: u32| i < 27 ==> (((mask >> i) & 1u32) == 1u32) == chunks.contains_key(
        #[trigger] neighbor_at(c, i as int),
    )
}

proof fn lemma_bit_set(x: u32, i: u32, j: u32)
    by (bit_vector)
    requires
        i < 32,
        j < 32,
    ensures
        i == j ==> ((x | (1u32 << i)) >> j) & 1u32 == 1u32,
        i != j ==> ((x | (1u32 << i)) >> j) & 1u32 == (x >> j) & 1u32,
{
}

proof fn lemma_bit_zero(j: u32)
    by (bit_vector)
    requires
        j < 32,
    ensures
        (0u32 >> j) & 1u32 == 0u32,
{
}

/// Whether a loaded chunk wants a mesh: it was changed since its last
/// mesh, or it has voxels, lies in the mesh sphere and has no mesh yet.
pub open spec fn wants_mesh<M>(
    chunk: Chunk,
    c: ChunkCoord,
    scanner: &ChunkScanner,
    meshes: Map<ChunkCoord, M>,
) -> bool {
    chunk.spec_needs_update() || (chunk.spec_data().is_some() && scanner.spec_loads_mesh(c)
        && !meshes.contains_key(c))
}

impl<M> Worldgen<M> {
    /// Which chunks of the neighbourhood of `coord` are loaded.
    fn loaded_mask(&self, coord: ChunkCoord) -> (r: u32)
        requires
            self.wf(),
            chunk_coord_ok(coord),
        ensures
            loaded_mask_ok(r, self.spec_chunks(), coord),
    {
        let mut mask: u32 = 0;
        let mut i: u32 = 0;
        proof {
            assert forall|j: u32| j < 32 implies (#[trigger] (mask >> j) & 1u32) == 0u32 by {
                lemma_bit_zero(j);
            }
        }
        while i < 27
            invariant
                i <= 27,
                self.wf(),
                chunk_coord_ok(coord),
                forall|j: u32|
                    j < i ==> (((mask >> j) & 1u32) == 1u32) == self.chunk_map@.contains_key(
                        #[trigger] neighbor_at(coord, j as int),
                    ),
                forall|j: u32| i <= j < 32 ==> (#[trigger] (mask >> j) & 1u32) == 0u32,
            decreases 27 - i,
        {
            let n = IVec3 {
                x: coord.x + (i / 9) as i32 - 1,
                y: coord.y + ((i / 3) % 3) as i32 - 1,
                z: coord.z + (i % 3) as i32 - 1,
            };
            assert(n == neighbor_at(coord, i as int));
            if self.chunk_map.contains_key(&n) {
                let ghost before = mask;
                mask = mask | (1u32 << i);
                proof {
                    assert forall|j: u32| j < 32 implies (#[trigger] (mask >> j) & 1u32) == (if j
                        == i {
                        1u32
                    } else {
                        (before >> j) & 1u32
                    }) by {
                        lemma_bit_set(before, i, j);
                    }
                }
            }
            i += 1;
        }
        mask
    }

    /// Queues every chunk of the scanner's cube that is neither loaded nor
    /// queued, and returns one generation request for each; a chunk that
    /// is queued already gets none.
    pub fn scan_chunks(&mut self, scanner: &ChunkScanner) -> (jobs: Vec<ChunkBuildJob>)
        requires
            old(self).wf(),
            scanner.spec_range() <= MAX_RANGE,
        ensures
            final(self).wf(),
            final(self).spec_chunks() == old(self).spec_chunks(),
            final(self).spec_meshes() == old(self).spec_meshes(),
            final(self).spec_mesh_queue() == old(self).spec_mesh_queue(),
            final(self).spec_pending() == old(self).spec_pending(),
            final(self).spec_seed() == old(self).spec_seed(),
            scan_post(*old(self), *final(self), scanner, jobs@),
    {
        let coords = scanner.iterate();
        let ghost cc = scanner.center_chunk();
        let ghost r = scanner.spec_range() as int;
        let ghost q0 = self.needs_chunk_build@.dom();
        let mut jobs: Vec<ChunkBuildJob> = Vec::new();
        let mut k: usize = 0;
        proof {
            crate::coord::lemma_chunk_in_range_of_block(scanner.spec_center());
        }
        while k < coords.len()
            invariant
                k <= coords@.len(),
                self.wf(),
                self.chunk_map == old(self).chunk_map,
                self.mesh_map == old(self).mesh_map,
                self.needs_mesh_build == old(self).needs_mesh_build,
                self.in_progress == old(self).in_progress,
                self.generator == old(self).generator,
                q0 == old(self).needs_chunk_build@.dom(),
                cc == scanner.center_chunk(),
                r == scanner.spec_range(),
                r <= MAX_RANGE,
                crate::coord::chunk_in_range(cc),
                forall|i: int| 0 <= i < coords@.len() ==> in_scan_cube(cc, r, #[trigger] coords@[i]),
                self.needs_chunk_build@.dom() == q0.union(job_coords(jobs@).to_set()),
                job_coords(jobs@).no_duplicates(),
                forall|i: int|
                    0 <= i < jobs@.len() ==> {
                        let c = (#[trigger] jobs@[i]).coord;
                        &&& in_scan_cube(cc, r, c)
                        &&& !self.chunk_map@.contains_key(c)
                        &&& !q0.contains(c)
                        &&& chunk_coord_ok(c)
                        &&& loaded_mask_ok(jobs@[i].loaded, self.chunk_map@, c)
                    },
                forall|i: int|
                    0 <= i < k ==> {
                        let c = #[trigger] coords@[i];
                        !self.chunk_map@.contains_key(c) && !q0.contains(c) ==> job_coords(
                            jobs@,
                        ).contains(c)
                    },
            decreases coords@.len() - k,
        {
            let c = coords[k];
            assert(in_scan_cube(cc, r, coords@[k as int]));
            let ghost jc = job_coords(jobs@);
            if !self.chunk_map.contains_key(&c) && !self.needs_chunk_build.contains_key(&c) {
                self.needs_chunk_build.insert(c, ());
                let loaded = self.loaded_mask(c);
                jobs.push(ChunkBuildJob { coord: c, loaded });
                proof {
                    let njc = job_coords(jobs@);
                    assert(njc =~= jc.push(c));
                    assert(!jc.contains(c));
                    assert(njc.to_set() =~= jc.to_set().insert(c)) by {
                        assert forall|x: ChunkCoord| njc.to_set().contains(x) == jc.to_set().insert(
                            c,
                        ).contains(x) by {
                            if jc.contains(x) {
                                let i = choose|i: int| 0 <= i < jc.len() && jc[i] == x;
                                assert(njc[i] == x);
                            }
                            if x == c {
                                assert(njc[jc.len() as int] == c);
                            }
                        }
                    }
                    assert(self.needs_chunk_build@.dom() =~= q0.union(njc.to_set()));
                    assert forall|a: int, b: int|
                        0 <= a < njc.len() && 0 <= b < njc.len() && a != b implies njc[a] != njc[b] by {
                        if a < jc.len() && b < jc.len() {
                            assert(jc[a] != jc[b]);
                        } else if a < jc.len() {
                            assert(jc.contains(jc[a]));
                        } else if b < jc.len() {
                            assert(jc.contains(jc[b]));
                        }
                    }
                    assert forall|i: int| 0 <= i < k + 1 implies {
                        let x = #[trigger] coords@[i];
                        !self.chunk_map@.contains_key(x) && !q0.contains(x) ==> njc.contains(x)
                    } by {
                        let x = coords@[i];
                        if i < k && !self.chunk_map@.contains_key(x) && !q0.contains(x) {
                            assert(jc.contains(x));
                            let j = choose|j: int| 0 <= j < jc.len() && jc[j] == x;
                            assert(njc[j] == x);
                        }
                        if i == k {
                            assert(njc[jc.len() as int] == c);
                        }
                    }
                }
            } else {
                proof {
                    if !self.chunk_map@.contains_key(c) && !q0.contains(c) {
                        assert(self.needs_chunk_build@.dom().contains(c));
                        assert(jc.to_set().contains(c));
                    }
                }
            }
            k += 1;
        }
        proof {
            assert forall|c: ChunkCoord|
                in_scan_cube(cc, r, c) && !self.chunk_map@.contains_key(c) && !q0.contains(
                    c,
                ) implies job_coords(jobs@).contains(c) by {
                assert(coords@.contains(c));
                let i = choose|i: int| 0 <= i < coords@.len() && coords@[i] == c;
                assert(coords@[i] == c);
            }
        }
        jobs
    }

    /// Runs a generation request against this world's pending table (see
    /// `TerrainGenerator::generate_chunk`).
    pub fn run_chunk_build(
        &mut self,
        registry: &Registry,
        job: &ChunkBuildJob,
        samples: &SampleMap,
    ) -> (r: (ChunkCoord, Chunk))
        requires
            old(self).wf(),
            neighborhood_gen_range(job.coord),
            (job.loaded >> 13u32) & 1u32 == 0u32,
            samples.wf(),
            forall|n: ChunkCoord| in_neighborhood(job.coord, n) ==> sample_ok(*samples, registry, n),
        ensures
            final(self).wf(),
            final(self).spec_chunks() == old(self).spec_chunks(),
            final(self).spec_meshes() == old(self).spec_meshes(),
            final(self).spec_mesh_queue() == old(self).spec_mesh_queue(),
            final(self).spec_chunk_queue() == old(self).spec_chunk_queue(),
            final(self).spec_seed() == old(self).spec_seed(),
            r.0 == job.coord,
            r.1.spec_coord() == job.coord,
            r.1.wf(),
            !final(self).spec_pending()@.contains_key(job.coord),
            exists|mid: Map<ChunkCoord, UnfinishedChunkData>|
                {
                    &&& generation_result(
                        old(self).spec_pending()@,
                        mid,
                        old(self).spec_seed(),
                        job.coord,
                        job.loaded,
                        samples@,
                    )
                    &&& #[trigger] mid.contains_key(job.coord)
                    &&& mid[job.coord].finished
                    &&& final(self).spec_pending()@ == mid.remove(job.coord)
                    &&& forall|l: LocalCoord|
                        local_in_range(l) ==> #[trigger] r.1.block_at(l) == folded_block(
                            mid[job.coord],
                            l,
                        )
                },
    {
        self.generator.generate_chunk(registry, job.loaded, job.coord, &mut self.in_progress, samples)
    }

    /// Queues for meshing every loaded chunk that wants a mesh.
    pub fn queue_mesh_rebuild(&mut self, scanner: &ChunkScanner)
        requires
            old(self).wf(),
        ensures
            final(self).wf(),
            final(self).spec_chunks() == old(self).spec_chunks(),
            final(self).spec_meshes() == old(self).spec_meshes(),
            final(self).spec_chunk_queue() == old(self).spec_chunk_queue(),
            final(self).spec_pending() == old(self).spec_pending(),
            final(self).spec_seed() == old(self).spec_seed(),
            forall|c: ChunkCoord| #[trigger]
                final(self).spec_mesh_queue().contains(c) == (old(self).spec_mesh_queue().contains(c)
                    || (old(self).spec_chunks().contains_key(c) && wants_mesh(
                    old(self).spec_chunks()[c],
                    c,
                    scanner,
                    old(self).spec_meshes(),
                ))),
    {
        let keys = self.chunk_map.keys();
        let ghost q0 = self.needs_mesh_build@.dom();
        let mut k: usize = 0;
        while k < keys.len()
            invariant
                k <= keys@.len(),
                self.wf(),
                self.chunk_map == old(self).chunk_map,
                self.mesh_map == old(self).mesh_map,
                self.needs_chunk_build == old(self).needs_chunk_build,
                self.in_progress == old(self).in_progress,
                self.generator == old(self).generator,
                q0 == old(self).needs_mesh_build@.dom(),
                forall|i: int| 0 <= i < keys@.len() ==> self.chunk_map@.contains_key(#[trigger] keys@[i]),
                forall|c: ChunkCoord| self.chunk_map@.contains_key(c) ==> keys@.contains(c),
                forall|c: ChunkCoord| #[trigger]
                    self.needs_mesh_build@.dom().contains(c) == (q0.contains(c) || (
                    self.chunk_map@.contains_key(c) && wants_mesh(
                        self.chunk_map@[c],
                        c,
                        scanner,
                        self.mesh_map@,
                    ) && keys@.subrange(0, k as int).contains(c))),
            decreases keys@.len() - k,
        {
            let c = keys[k];
            assert(self.chunk_map@.contains_key(keys@[k as int]));
            let wants = match self.chunk_map.get(&c) {
                Some(chunk) => chunk.needs_update() || (!chunk.is_empty() && scanner.should_load_mesh(
                    &c,
                ) && !self.mesh_map.contains_key(&c)),
                None => false,
            };
            let ghost before = self.needs_mesh_build@.dom();
            if wants {
                self.needs_mesh_build.insert(c, ());
            }
            proof {
                assert forall|x: ChunkCoord| #[trigger]
                    self.needs_mesh_build@.dom().contains(x) == (q0.contains(x) || (
                    self.chunk_map@.contains_key(x) && wants_mesh(
                        self.chunk_map@[x],
                        x,
                        scanner,
                        self.mesh_map@,
                    ) && keys@.subrange(0, k + 1).contains(x))) by {
                    let p = keys@.subrange(0, k as int);
                    let p1 = keys@.subrange(0, k + 1);
                    assert(p1 =~= p.push(c));
                    if p.contains(x) {
                        let i = choose|i: int| 0 <= i < p.len() && p[i] == x;
                        assert(p1[i] == x);
                    }
                    if p1.contains(x) && x != c {
                        let i = choose|i: int| 0 <= i < p1.len() && p1[i] == x;
                        assert(p[i] == x);
                    }
                    assert(p1[k as int] == c);
                }
            }
            k += 1;
        }
        proof {
            assert(keys@.subrange(0, keys@.len() as int) =~= keys@);
        }
    }

    /// Drops every chunk beyond the scanner's unload distance, and every
    /// pending entry beyond its looser distance for unfinished work.
    pub fn unload_chunks(&mut self, scanner: &ChunkScanner)
        requires
            old(self).wf(),
        ensures
            final(self).wf(),
            final(self).spec_chunks() == old(self).spec_chunks().restrict(
                Set::new(|c: ChunkCoord| !scanner.spec_unloads(c)),
            ),
            final(self).spec_pending()@ == old(self).spec_pending()@.restrict(
                Set::new(|c: ChunkCoord| !scanner.spec_unloads_unfinished(c)),
            ),
            final(self).spec_meshes() == old(self).spec_meshes(),
            final(self).spec_mesh_queue() == old(self).spec_mesh_queue(),
            final(self).spec_chunk_queue() == old(self).spec_chunk_queue(),
            final(self).spec_seed() == old(self).spec_seed(),
    {
        let keys = self.chunk_map.keys();
        let mut k: usize = 0;
        while k < keys.len()
            invariant
                k <= keys@.len(),
                self.wf(),
                self.mesh_map == old(self).mesh_map,
                self.needs_mesh_build == old(self).needs_mesh_build,
                self.needs_chunk_build == old(self).needs_chunk_build,
                self.in_progress == old(self).in_progress,
                self.generator == old(self).generator,
                keys@.no_duplicates(),
                forall|i: int| 0 <= i < keys@.len() ==> old(self).chunk_map@.contains_key(#[trigger] keys@[i]),
                forall|c: ChunkCoord| old(self).chunk_map@.contains_key(c) ==> keys@.contains(c),
                forall|c: ChunkCoord| #[trigger]
                    self.chunk_map@.contains_key(c) == (old(self).chunk_map@.contains_key(c) && !(
                    keys@.subrange(0, k as int).contains(c) && scanner.spec_unloads(c))),
                forall|c: ChunkCoord| #[trigger]
                    self.chunk_map@.contains_key(c) ==> self.chunk_map@[c] == old(self).chunk_map@[c],
            decreases keys@.len() - k,
        {
            let c = keys[k];
            if scanner.should_unload_chunk(&c) {
                self.chunk_map.remove(&c);
            }
            proof {
                let p = keys@.subrange(0, k as int);
                let p1 = keys@.subrange(0, k + 1);
                assert(p1 =~= p.push(c));
                assert forall|x: ChunkCoord| #[trigger] p1.contains(x) == (p.contains(x) || x == c) by {
                    if p.contains(x) {
                        let i = choose|i: int| 0 <= i < p.len() && p[i] == x;
                        assert(p1[i] == x);
                    }
                    if p1.contains(x) && x != c {
                        let i = choose|i: int| 0 <= i < p1.len() && p1[i] == x;
                        assert(p[i] == x);
                    }
                    assert(p1[k as int] == c);
                }
            }
            k += 1;
        }
        proof {
            assert(keys@.subrange(0, keys@.len() as int) =~= keys@);
            assert(self.chunk_map@ =~= old(self).chunk_map@.restrict(
                Set::new(|c: ChunkCoord| !scanner.spec_unloads(c)),
            ));
        }
        let keys = self.in_progress.keys();
        let ghost p0 = self.in_progress@;
        let mut k: usize = 0;
        while k < keys.len()
            invariant
                k <= keys@.len(),
                self.chunk_map.wf(),
                self.mesh_map == old(self).mesh_map,
                self.needs_mesh_build == old(self).needs_mesh_build,
                self.needs_chunk_build == old(self).needs_chunk_build,
                self.generator == old(self).generator,
                forall|c: ChunkCoord| #[trigger]
                    self.chunk_map@.contains_key(c) ==> self.chunk_map@[c].wf()
                        && self.chunk_map@[c].spec_coord() == c && chunk_coord_ok(c),
                self.chunk_map@ == old(self).chunk_map@.restrict(
                    Set::new(|c: ChunkCoord| !scanner.spec_unloads(c)),
                ),
                p0 == old(self).in_progress@,
                self.in_progress.wf(),
                keys@.no_duplicates(),
                forall|i: int| 0 <= i < keys@.len() ==> p0.contains_key(#[trigger] keys@[i]),
                forall|c: ChunkCoord| p0.contains_key(c) ==> keys@.contains(c),
                forall|c: ChunkCoord| #[trigger]
                    self.in_progress@.contains_key(c) == (p0.contains_key(c) && !(keys@.subrange(
                        0,
                        k as int,
                    ).contains(c) && scanner.spec_unloads_unfinished(c))),
                forall|c: ChunkCoord| #[trigger]
                    self.in_progress@.contains_key(c) ==> self.in_progress@[c] == p0[c],
                table_wf(old(self).in_progress),
                settled(p0),
            decreases keys@.len() - k,
        {
            let c = keys[k];
            if scanner.should_unload_unfinished_chunk(&c) {
                self.in_progress.remove(&c);
            }
            proof {
                let p = keys@.subrange(0, k as int);
                let p1 = keys@.subrange(0, k + 1);
                assert(p1 =~= p.push(c));
                assert forall|x: ChunkCoord| #[trigger] p1.contains(x) == (p.contains(x) || x == c) by {
                    if p.contains(x) {
                        let i = choose|i: int| 0 <= i < p.len() && p[i] == x;
                        assert(p1[i] == x);
                    }
                    if p1.contains(x) && x != c {
                        let i = choose|i: int| 0 <= i < p1.len() && p1[i] == x;
                        assert(p[i] == x);
                    }
                    assert(p1[k as int] == c);
                }
            }
            k += 1;
        }
        proof {
            assert(keys@.subrange(0, keys@.len() as int) =~= keys@);
            assert(self.in_progress@ =~= p0.restrict(
                Set::new(|c: ChunkCoord| !scanner.spec_unloads_unfinished(c)),
            ));
            assert forall|c: ChunkCoord| #[trigger]
                self.in_progress@.contains_key(c) implies crate::pending::entry_wf(self.in_progress@[c]) by {
                assert(p0.contains_key(c));
            }
            assert forall|c: ChunkCoord|
                self.in_progress@.contains_key(c) && (#[trigger] self.in_progress@[c]).started implies self.in_progress@[c].finished by {
                assert(p0.contains_key(c));
            }
        }
    }

    /// Drops every mesh outside the scanner's mesh sphere and hands the
    /// dropped handles back, with their chunks, for disposal.
    pub fn unload_meshes(&mut self, scanner: &ChunkScanner) -> (r: Vec<(ChunkCoord, M)>)
        requires
            old(self).wf(),
        ensures
            final(self).wf(),
            final(self).spec_meshes() == old(self).spec_meshes().restrict(
                Set::new(|c: ChunkCoord| scanner.spec_loads_mesh(c)),
            ),
            pair_coords(r@).no_duplicates(),
            forall|i: int|
                0 <= i < r@.len() ==> {
                    let c = (#[trigger] r@[i]).0;
                    &&& old(self).spec_meshes().contains_key(c)
                    &&& !scanner.spec_loads_mesh(c)
                    &&& r@[i].1 == old(self).spec_meshes()[c]
                },
            forall|c: ChunkCoord|
                old(self).spec_meshes().contains_key(c) && !scanner.spec_loads_mesh(c)
                    ==> #[trigger] pair_coords(r@).contains(c),
            final(self).spec_chunks() == old(self).spec_chunks(),
            final(self).spec_mesh_queue() == old(self).spec_mesh_queue(),
            final(self).spec_chunk_queue() == old(self).spec_chunk_queue(),
            final(self).spec_pending() == old(self).spec_pending(),
            final(self).spec_seed() == old(self).spec_seed(),
    {
        let keys = self.mesh_map.keys();
        let mut dropped: Vec<(ChunkCoord, M)> = Vec::new();
        let mut k: usize = 0;
        while k < keys.len()
            invariant
                k <= keys@.len(),
                self.mesh_map.wf(),
                pair_coords(dropped@).no_duplicates(),
                forall|i: int|
                    0 <= i < dropped@.len() ==> {
                        let c = (#[trigger] dropped@[i]).0;
                        &&& old(self).mesh_map@.contains_key(c)
                        &&& !scanner.spec_loads_mesh(c)
                        &&& dropped@[i].1 == old(self).mesh_map@[c]
                        &&& keys@.subrange(0, k as int).contains(c)
                    },
                forall|c: ChunkCoord|
                    old(self).mesh_map@.contains_key(c) && !scanner.spec_loads_mesh(c)
                        && keys@.subrange(0, k as int).contains(c) ==> #[trigger] pair_coords(
                        dropped@,
                    ).contains(c),
                self.chunk_map == old(self).chunk_map,
                self.needs_mesh_build == old(self).needs_mesh_build,
                self.needs_chunk_build == old(self).needs_chunk_build,
                self.in_progress == old(self).in_progress,
                self.generator == old(self).generator,
                old(self).wf(),
                keys@.no_duplicates(),
                forall|i: int| 0 <= i < keys@.len() ==> old(self).mesh_map@.contains_key(#[trigger] keys@[i]),
                forall|c: ChunkCoord| old(self).mesh_map@.contains_key(c) ==> keys@.contains(c),
                forall|c: ChunkCoord| #[trigger]
                    self.mesh_map@.contains_key(c) == (old(self).mesh_map@.contains_key(c) && !(
                    keys@.subrange(0, k as int).contains(c) && !scanner.spec_loads_mesh(c))),
                forall|c: ChunkCoord| #[trigger]
                    self.mesh_map@.contains_key(c) ==> self.mesh_map@[c] == old(self).mesh_map@[c],
            decreases keys@.len() - k,
        {
            let c = keys[k];
            proof {
                let p = keys@.subrange(0, k as int);
                if p.contains(c) {
                    let i = choose|i: int| 0 <= i < p.len() && p[i] == c;
                    assert(keys@[i] == keys@[k as int]);
                }
                assert(old(self).mesh_map@.contains_key(keys@[k as int]));
            }
            let ghost d0 = dropped@;
            let ghost p = keys@.subrange(0, k as int);
            let ghost p1 = keys@.subrange(0, k + 1);
            proof {
                assert(p1 =~= p.push(c));
                assert forall|x: ChunkCoord| #[trigger] p1.contains(x) == (p.contains(x) || x == c) by {
                    if p.contains(x) {
                        let i = choose|i: int| 0 <= i < p.len() && p[i] == x;
                        assert(p1[i] == x);
                    }
                    if p1.contains(x) && x != c {
                        let i = choose|i: int| 0 <= i < p1.len() && p1[i] == x;
                        assert(p[i] == x);
                    }
                    assert(p1[k as int] == c);
                }
            }
            if !scanner.should_load_mesh(&c) {
                match self.mesh_map.remove(&c) {
                    Some(handle) => {
                        dropped.push((c, handle));
                        proof {
                            let pc0 = pair_coords(d0);
                            let pc = pair_coords(dropped@);
                            assert(pc =~= pc0.push(c));
                            assert(!pc0.contains(c)) by {
                                if pc0.contains(c) {
                                    let i = choose|i: int| 0 <= i < pc0.len() && pc0[i] == c;
                                    assert(d0[i].0 == c);
                                    assert(p.contains(c));
                                }
                            }
                            assert forall|a: int, b: int|
                                0 <= a < pc.len() && 0 <= b < pc.len() && a != b implies pc[a] != pc[b] by {
                                if a < pc0.len() && b < pc0.len() {
                                    assert(pc0[a] != pc0[b]);
                                } else if a < pc0.len() {
                                    assert(pc0.contains(pc0[a]));
                                } else if b < pc0.len() {
                                    assert(pc0.contains(pc0[b]));
                                }
                            }
                            assert forall|x: ChunkCoord|
                                old(self).mesh_map@.contains_key(x) && !scanner.spec_loads_mesh(x)
                                    && p1.contains(x) implies #[trigger] pc.contains(x) by {
                                if x == c {
                                    assert(pc[pc0.len() as int] == c);
                                } else {
                                    assert(pc0.contains(x));
                                    let i = choose|i: int| 0 <= i < pc0.len() && pc0[i] == x;
                                    assert(pc[i] == x);
                                }
                            }
                            assert forall|i: int| 0 <= i < dropped@.len() implies {
                                let x = (#[trigger] dropped@[i]).0;
                                &&& old(self).mesh_map@.contains_key(x)
                                &&& !scanner.spec_loads_mesh(x)
                                &&& dropped@[i].1 == old(self).mesh_map@[x]
                                &&& p1.contains(x)
                            } by {
                                if i < d0.len() {
                                    assert(dropped@[i] == d0[i]);
                                }
                            }
                        }
                    },
                    None => {},
                }
            } else {
                proof {
                    assert forall|i: int| 0 <= i < dropped@.len() implies #[trigger] p1.contains(
                        dropped@[i].0,
                    ) by {
                        assert(p.contains(dropped@[i].0));
                    }
                }
            }
            k += 1;
        }
        proof {
            assert(keys@.subrange(0, keys@.len() as int) =~= keys@);
            assert(self.mesh_map@ =~= old(self).mesh_map@.restrict(
                Set::new(|c: ChunkCoord| scanner.spec_loads_mesh(c)),
            ));
        }
        dropped
    }

    /// Records the mesh handle of a chunk and returns the one it replaces.
    pub fn insert_mesh(&mut self, coord: ChunkCoord, handle: M) -> (r: Option<M>)
        requires
            old(self).wf(),
        ensures
            final(self).wf(),
            final(self).spec_meshes() == old(self).spec_meshes().insert(coord, handle),
            r == if old(self).spec_meshes().contains_key(coord) {
                Some(old(self).spec_meshes()[coord])
            } else {
                None::<M>
            },
            final(self).spec_chunks() == old(self).spec_chunks(),
            final(self).spec_mesh_queue() == old(self).spec_mesh_queue(),
            final(self).spec_chunk_queue() == old(self).spec_chunk_queue(),
            final(self).spec_pending() == old(self).spec_pending(),
            final(self).spec_seed() == old(self).spec_seed(),
    {
        self.mesh_map.insert(coord, handle)
    }
}

/// Voxel contents of the six face neighbours of `c` in `chunks`.
pub open spec fn chunk_neighbor_views(chunks: Map<ChunkCoord, Chunk>, c: ChunkCoord) -> Seq<
    Option<Seq<Block>>,
> {
    Seq::new(
        6,
        |f: int|
            if chunks.contains_key(face_neighbor(c, f)) {
                match chunks[face_neighbor(c, f)].spec_data() {
                    Some(a) => Some(a@),
                    None => None::<Seq<Block>>,
                }
            } else {
                None::<Seq<Block>>
            },
    )
}

pub open spec fn neighbors_loaded(chunks: Map<ChunkCoord, Chunk>, c: ChunkCoord) -> bool {
    forall|f: int| 0 <= f < 6 ==> chunks.contains_key(#[trigger] face_neighbor(c, f))
}

/// Whether loaded chunk `c` can be meshed now: it lies in the mesh sphere,
/// its six face neighbours are loaded, and the atlas knows its blocks.
pub open spec fn mesh_ready(chunks: Map<ChunkCoord, Chunk>, c: ChunkCoord, scanner: &ChunkScanner) -> bool {
    &&& scanner.spec_loads_mesh(c)
    &&& neighbors_loaded(chunks, c)
    &&& chunks[c].spec_data() is Some
}

/// The atlas knows every solid block of every loaded chunk that has a
/// face drawn with the neighbours loaded now.
pub open spec fn atlas_ready(chunks: Map<ChunkCoord, Chunk>, atlas: Map<u16, crate::mesh::FaceUvs>) -> bool {
    forall|c: ChunkCoord| #[trigger]
        chunks.contains_key(c) ==> match chunks[c].spec_data() {
            Some(a) => atlas_covers_drawn(a@, chunk_neighbor_views(chunks, c), atlas),
            None => true,
        }
}

/// Whether a queued chunk leaves the mesh queue: it is loaded and either
/// empty or ready.
pub open spec fn mesh_dequeued(chunks: Map<ChunkCoord, Chunk>, c: ChunkCoord, scanner: &ChunkScanner) -> bool {
    chunks.contains_key(c) && (chunks[c].spec_data().is_none() || mesh_ready(chunks, c, scanner))
}

pub open spec fn pair_coords<M>(pairs: Seq<(ChunkCoord, M)>) -> Seq<ChunkCoord> {
    pairs.map_values(|p: (ChunkCoord, M)| p.0)
}

pub open spec fn mesh_coords(out: Seq<(ChunkCoord, MeshData)>) -> Seq<ChunkCoord> {
    out.map_values(|p: (ChunkCoord, MeshData)| p.0)
}

impl<M> Worldgen<M> {
    /// The voxels of the face neighbour of `coord` across face `f`; `None`
    /// when it is not loaded or holds no voxels.
    fn neighbor_or_absent(&self, coord: ChunkCoord, f: usize) -> (r: Option<&VoxelArray>)
        requires
            self.wf(),
            chunk_coord_ok(coord),
            f < 6,
        ensures
            match r {
                Some(a) => a.wf() && chunk_neighbor_views(self.spec_chunks(), coord)[f as int] == Some(a@),
                None => chunk_neighbor_views(self.spec_chunks(), coord)[f as int] == None::<Seq<Block>>,
            },
    {
        match self.chunk_map.get(&face_neighbor_of(coord, f)) {
            Some(ch) => ch.get_data().as_ref(),
            None => None,
        }
    }

    /// The voxels of the six face neighbours of `coord`, each `None` where
    /// the neighbour is not loaded or holds no voxels.
    fn neighbors_or_absent(&self, coord: ChunkCoord) -> (r: [Option<&VoxelArray>; 6])
        requires
            self.wf(),
            chunk_coord_ok(coord),
        ensures
            neighbors_wf(r),
            neighbor_views(r) == chunk_neighbor_views(self.spec_chunks(), coord),
    {
        let r = [
            self.neighbor_or_absent(coord, 0),
            self.neighbor_or_absent(coord, 1),
            self.neighbor_or_absent(coord, 2),
            self.neighbor_or_absent(coord, 3),
            self.neighbor_or_absent(coord, 4),
            self.neighbor_or_absent(coord, 5),
        ];
        proof {
            assert forall|f: int| 0 <= f < 6 implies match #[trigger] r@[f] {
                Some(a) => a.wf(),
                None => true,
            } by {}
            assert(neighbor_views(r) =~= chunk_neighbor_views(self.spec_chunks(), coord));
        }
        r
    }

    /// The voxels of the six face neighbours of `coord`, or `None` when one
    /// of them is not loaded.
    fn get_neighbors_data(&self, coord: ChunkCoord) -> (r: Option<[Option<&VoxelArray>; 6]>)
        requires
            self.wf(),
            chunk_coord_ok(coord),
        ensures
            match r {
                Some(a) => {
                    &&& neighbors_loaded(self.spec_chunks(), coord)
                    &&& neighbors_wf(a)
                    &&& neighbor_views(a) == chunk_neighbor_views(self.spec_chunks(), coord)
                },
                None => !neighbors_loaded(self.spec_chunks(), coord),
            },
    {
        let n0 = match self.chunk_map.get(&face_neighbor_of(coord, 0)) {
            Some(ch) => ch.get_data().as_ref(),
            None => {
                return None;
            },
        };
        let n1 = match self.chunk_map.get(&face_neighbor_of(coord, 1)) {
            Some(ch) => ch.get_data().as_ref(),
            None => {
                return None;
            },
        };
        let n2 = match self.chunk_map.get(&face_neighbor_of(coord, 2)) {
            Some(ch) => ch.get_data().as_ref(),
            None => {
                return None;
            },
        };
        let n3 = match self.chunk_map.get(&face_neighbor_of(coord, 3)) {
            Some(ch) => ch.get_data().as_ref(),
            None => {
                return None;
            },
        };
        let n4 = match self.chunk_map.get(&face_neighbor_of(coord, 4)) {
            Some(ch) => ch.get_data().as_ref(),
            None => {
                return None;
            },
        };
        let n5 = match self.chunk_map.get(&face_neighbor_of(coord, 5)) {
            Some(ch) => ch.get_data().as_ref(),
            None => {
                return None;
            },
        };
        let r = [n0, n1, n2, n3, n4, n5];
        proof {
            let chunks = self.chunk_map@;
            assert forall|f: int| 0 <= f < 6 implies chunks.contains_key(
                #[trigger] face_neighbor(coord, f),
            ) by {}
            assert forall|f: int| 0 <= f < 6 implies match #[trigger] r@[f] {
                Some(a) => a.wf(),
                None => true,
            } by {
                assert(chunks.contains_key(face_neighbor(coord, f)));
            }
            assert(neighbor_views(r) =~= chunk_neighbor_views(chunks, coord));
        }
        Some(r)
    }

    /// Whether the atlas knows every solid block of every loaded chunk, as
    /// `build_meshes` requires.
    pub fn atlas_covers_world(&self, texture_map_info: &TextureMapInfo) -> (r: bool)
        requires
            self.wf(),
        ensures
            r == atlas_ready(self.spec_chunks(), texture_map_info@),
    {
        let keys = self.chunk_map.keys();
        let mut k: usize = 0;
        while k < keys.len()
            invariant
                self.wf(),
                k <= keys@.len(),
                forall|i: int| 0 <= i < keys@.len() ==> self.chunk_map@.contains_key(#[trigger] keys@[i]),
                forall|c: ChunkCoord| self.chunk_map@.contains_key(c) ==> keys@.contains(c),
                forall|i: int|
                    0 <= i < k ==> match #[trigger] self.chunk_map@[keys@[i]].spec_data() {
                        Some(a) => atlas_covers_drawn(a@, chunk_neighbor_views(self.chunk_map@, keys@[i]), texture_map_info@),
                        None => true,
                    },
            decreases keys@.len() - k,
        {
            let c = keys[k];
            assert(self.chunk_map@.contains_key(keys@[k as int]));
            let chunk = self.chunk_map.get(&c).unwrap();
            match chunk.get_data() {
                Some(data) => {
                    let nbrs = self.neighbors_or_absent(c);
                    if !drawn_faces_covered(data, &nbrs, texture_map_info) {
                        assert(self.chunk_map@.contains_key(c));
                        return false;
                    }
                },
                None => {},
            }
            k += 1;
        }
        proof {
            assert forall|c: ChunkCoord| #[trigger] self.chunk_map@.contains_key(c) implies match self.chunk_map@[c].spec_data() {
                Some(a) => atlas_covers_drawn(a@, chunk_neighbor_views(self.chunk_map@, c), texture_map_info@),
                None => true,
            } by {
                assert(keys@.contains(c));
                let i = choose|i: int| 0 <= i < keys@.len() && keys@[i] == c;
                assert(keys@[i] == c);
            }
        }
        true
    }

    /// Meshes every queued chunk that is ready (see `mesh_ready`) and takes
    /// it off the queue with its update flag cleared; drops empty chunks
    /// from the queue with no mesh; leaves the rest queued for a later
    /// cycle. Returns each new mesh with its chunk.
    pub fn build_meshes(&mut self, scanner: &ChunkScanner, texture_map_info: &TextureMapInfo) -> (r:
        Vec<(ChunkCoord, MeshData)>)
        requires
            old(self).wf(),
            atlas_ready(old(self).spec_chunks(), texture_map_info@),
        ensures
            final(self).wf(),
            final(self).spec_meshes() == old(self).spec_meshes(),
            final(self).spec_chunk_queue() == old(self).spec_chunk_queue(),
            final(self).spec_pending() == old(self).spec_pending(),
            final(self).spec_seed() == old(self).spec_seed(),
            final(self).spec_chunks().dom() == old(self).spec_chunks().dom(),
            forall|c: ChunkCoord| #[trigger]
                final(self).spec_chunks().contains_key(c) ==> {
                    &&& final(self).spec_chunks()[c].spec_data() == old(
                        self,
                    ).spec_chunks()[c].spec_data()
                    &&& final(self).spec_chunks()[c].spec_coord() == old(
                        self,
                    ).spec_chunks()[c].spec_coord()
                    &&& final(self).spec_chunks()[c].spec_needs_update() == (old(
                        self,
                    ).spec_chunks()[c].spec_needs_update() && !mesh_coords(r@).contains(c))
                },
            forall|c: ChunkCoord| #[trigger]
                final(self).spec_mesh_queue().contains(c) == (old(self).spec_mesh_queue().contains(c)
                    && !mesh_dequeued(old(self).spec_chunks(), c, scanner)),
            mesh_coords(r@).no_duplicates(),
            forall|c: ChunkCoord| #[trigger]
                mesh_coords(r@).contains(c) == (old(self).spec_mesh_queue().contains(c)
                    && old(self).spec_chunks().contains_key(c) && mesh_ready(old(self).spec_chunks(), c, scanner)),
            forall|i: int|
                0 <= i < r@.len() ==> {
                    let c = (#[trigger] r@[i]).0;
                    let m = r@[i].1;
                    let data = old(self).spec_chunks()[c].spec_data()->0@;
                    mesh_matches(
                        m.positions@,
                        m.normals@,
                        m.uvs@,
                        m.indices@,
                        visible_faces(
                            data,
                            chunk_neighbor_views(old(self).spec_chunks(), c),
                            FACE_SLOTS as nat,
                        ),
                        data,
                        texture_map_info@,
                    )
                },
    {
        let keys = self.needs_mesh_build.keys();
        let ghost c0 = self.chunk_map@;
        let ghost q0 = self.needs_mesh_build@.dom();
        let ghost atlas = texture_map_info@;
        let mut out: Vec<(ChunkCoord, MeshData)> = Vec::new();
        let mut k: usize = 0;
        while k < keys.len()
            invariant
                k <= keys@.len(),
                self.wf(),
                self.mesh_map == old(self).mesh_map,
                self.needs_chunk_build == old(self).needs_chunk_build,
                self.in_progress == old(self).in_progress,
                self.generator == old(self).generator,
                c0 == old(self).chunk_map@,
                q0 == old(self).needs_mesh_build@.dom(),
                atlas == texture_map_info@,
                atlas_ready(c0, atlas),
                keys@.no_duplicates(),
                forall|i: int| 0 <= i < keys@.len() ==> q0.contains(#[trigger] keys@[i]),
                forall|c: ChunkCoord| q0.contains(c) ==> keys@.contains(c),
                self.chunk_map@.dom() == c0.dom(),
                forall|c: ChunkCoord| #[trigger]
                    self.chunk_map@.contains_key(c) ==> {
                        &&& self.chunk_map@[c].spec_data() == c0[c].spec_data()
                        &&& self.chunk_map@[c].spec_coord() == c0[c].spec_coord()
                        &&& self.chunk_map@[c].spec_needs_update() == (c0[c].spec_needs_update()
                            && !mesh_coords(out@).contains(c))
                    },
                forall|c: ChunkCoord| #[trigger]
                    self.needs_mesh_build@.dom().contains(c) == (q0.contains(c) && !(keys@.subrange(
                        0,
                        k as int,
                    ).contains(c) && mesh_dequeued(c0, c, scanner))),
                mesh_coords(out@).no_duplicates(),
                forall|c: ChunkCoord| #[trigger]
                    mesh_coords(out@).contains(c) == (keys@.subrange(0, k as int).contains(c)
                        && c0.contains_key(c) && mesh_ready(c0, c, scanner)),
                forall|i: int|
                    0 <= i < out@.len() ==> {
                        let c = (#[trigger] out@[i]).0;
                        let m = out@[i].1;
                        let data = c0[c].spec_data()->0@;
                        mesh_matches(
                            m.positions@,
                            m.normals@,
                            m.uvs@,
                            m.indices@,
                            visible_faces(data, chunk_neighbor_views(c0, c), FACE_SLOTS as nat),
                            data,
                            atlas,
                        )
                    },
            decreases keys@.len() - k,
        {
            let c = keys[k];
            let ghost p = keys@.subrange(0, k as int);
            let ghost p1 = keys@.subrange(0, k + 1);
            proof {
                assert(p1 =~= p.push(c));
                assert(q0.contains(keys@[k as int]));
                assert forall|x: ChunkCoord| #[trigger] p1.contains(x) == (p.contains(x) || x == c) by {
                    if p.contains(x) {
                        let i = choose|i: int| 0 <= i < p.len() && p[i] == x;
                        assert(p1[i] == x);
                    }
                    if p1.contains(x) && x != c {
                        let i = choose|i: int| 0 <= i < p1.len() && p1[i] == x;
                        assert(p[i] == x);
                    }
                    assert(p1[k as int] == c);
                }
                if p.contains(c) {
                    let i = choose|i: int| 0 <= i < p.len() && p[i] == c;
                    assert(keys@[i] == keys@[k as int]);
                }
                assert forall|a: ChunkCoord| #[trigger] chunk_neighbor_views(self.chunk_map@, a)
                    == chunk_neighbor_views(c0, a) by {
                    assert forall|f: int| 0 <= f < 6 implies #[trigger] chunk_neighbor_views(
                        self.chunk_map@,
                        a,
                    )[f] == chunk_neighbor_views(c0, a)[f] by {
                        let n = face_neighbor(a, f);
                        if self.chunk_map@.contains_key(n) {
                        } else {
                            assert(!c0.contains_key(n));
                        }
                    }
                    assert(chunk_neighbor_views(self.chunk_map@, a) =~= chunk_neighbor_views(c0, a));
                }
            }
            let (dequeue, mesh) = match self.chunk_map.get(&c) {
                None => (false, None),
                Some(chunk) => {
                    match chunk.get_data() {
                        None => (true, None),
                        Some(data) => {
                            if scanner.should_load_mesh(&c) {
                                match self.get_neighbors_data(c) {
                                    Some(nbrs) => {
                                        proof {
                                            assert(c0.contains_key(c));
                                        }
                                        (true, Some(Chunk::gen_mesh(data, &nbrs, texture_map_info)))
                                    },
                                    None => (false, None),
                                }
                            } else {
                                (false, None)
                            }
                        },
                    }
                },
            };
            proof {
                assert(dequeue == mesh_dequeued(c0, c, scanner));
                assert(mesh.is_some() == (c0.contains_key(c) && mesh_ready(c0, c, scanner)));
            }
            if dequeue {
                self.needs_mesh_build.remove(&c);
            }
            let ghost out0 = out@;
            match mesh {
                Some(m) => {
                    let ghost before = self.chunk_map@;
                    let mut chunk = self.chunk_map.remove(&c).unwrap();
                    chunk.set_updated();
                    self.chunk_map.insert(c, chunk);
                    out.push((c, m));
                    proof {
                        assert(self.chunk_map@ =~= before.insert(c, self.chunk_map@[c]));
                        let mc0 = mesh_coords(out0);
                        let mc = mesh_coords(out@);
                        assert(mc =~= mc0.push(c));
                        assert(!mc0.contains(c));
                        assert forall|x: ChunkCoord| #[trigger] mc.contains(x) == (mc0.contains(x)
                            || x == c) by {
                            if mc0.contains(x) {
                                let i = choose|i: int| 0 <= i < mc0.len() && mc0[i] == x;
                                assert(mc[i] == x);
                            }
                            if mc.contains(x) && x != c {
                                let i = choose|i: int| 0 <= i < mc.len() && mc[i] == x;
                                assert(mc0[i] == x);
                            }
                            assert(mc[mc0.len() as int] == c);
                        }
                        assert forall|a: int, b: int|
                            0 <= a < mc.len() && 0 <= b < mc.len() && a != b implies mc[a] != mc[b] by {
                            if a < mc0.len() && b < mc0.len() {
                                assert(mc0[a] != mc0[b]);
                            } else if a < mc0.len() {
                                assert(mc0.contains(mc0[a]));
                            } else if b < mc0.len() {
                                assert(mc0.contains(mc0[b]));
                            }
                        }
                        assert forall|i: int| 0 <= i < out@.len() implies {
                            let x = (#[trigger] out@[i]).0;
                            let mm = out@[i].1;
                            let data = c0[x].spec_data()->0@;
                            mesh_matches(
                                mm.positions@,
                                mm.normals@,
                                mm.uvs@,
                                mm.indices@,
                                visible_faces(data, chunk_neighbor_views(c0, x), FACE_SLOTS as nat),
                                data,
                                atlas,
                            )
                        } by {
                            if i < out0.len() {
                                assert(out@[i] == out0[i]);
                            }
                        }
                    }
                },
                None => {
                    proof {
                        assert(mesh_coords(out@) == mesh_coords(out0));
                    }
                },
            }
            k += 1;
        }
        proof {
            assert(keys@.subrange(0, keys@.len() as int) =~= keys@);
        }
        out
    }
}

} // verus!
