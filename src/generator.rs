//! Generation of a chunk together with its neighbourhood, so that
//! structures growing out of any neighbour have reached it before it is
//! finished.
use vstd::prelude::*;
use crate::block::Block;
use crate::chunk::{data_block, Chunk, CHUNK_VOLUME};
use crate::block::air;
use crate::coord::{local_in_range, BlockCoord, ChunkCoord, IVec3, LocalCoord};
use crate::coord_map::CoordMap;
use crate::pending::{
    added_write, entry_wf, lemma_added_split, lemma_writes_for_concat, writes_for, finish_chunk, folded_block, lemma_same_writes, lists_grow, recorded,
    same_writes, settled, table_wf, world_of, write_at, writes_of, PendingTable,
    UnfinishedChunkData,
};
use crate::registry::{BiomeKind, Registry};
use crate::standard::{
    chunk_gen_range, column_height, from_surface, surface_seq, is_surface, lemma_shape_recorded_earlier,
    lemma_shape_recorded_extends, offset, shape_block, shape_recorded, surface_structure,
    terrain_block, ForestBiome,
};

verus! {

/// Chunk layers from this one up to `TERRAIN_TOP` hold terrain; the others
/// are air.
pub const TERRAIN_BOTTOM: i32 = -4;
pub const TERRAIN_TOP: i32 = 4;

/// What the noise fields say about one chunk: the surface height of each
/// of its columns, `(i, k)` at `i * 32 + k`, and the id of its biome.
pub struct TerrainSample {
    pub heights: Vec<i32>,
    pub biome: u16,
}

/// Samples by chunk.
pub type SampleMap = CoordMap<TerrainSample>;

/// Chunk layers that hold terrain.
pub open spec fn in_band(c: ChunkCoord) -> bool {
    TERRAIN_BOTTOM <= c.y <= TERRAIN_TOP
}

/// What the terrain pass of an in-band chunk `coord` did, from `old` to
/// `new`: its voxels follow the layered rule of its column heights; every
/// write it added belongs to a structure grown at one of its surface
/// voxels; and the whole structure of each surface voxel was written.
pub open spec fn terrain_pass(
    old: Map<ChunkCoord, UnfinishedChunkData>,
    new: Map<ChunkCoord, UnfinishedChunkData>,
    seed: u32,
    coord: ChunkCoord,
    heights: Seq<i32>,
) -> bool {
    &&& forall|l: LocalCoord|
        local_in_range(l) ==> #[trigger] data_block(new[coord].data, l) == terrain_block(
            column_height(heights, l),
            coord.y * 32 + l.1,
        )
    &&& new[coord].data.is_none() == forall|l: LocalCoord|
        local_in_range(l) ==> #[trigger] terrain_block(column_height(heights, l), coord.y * 32 + l.1)
            == air()
    &&& forall|c: ChunkCoord, i: int| #[trigger]
        added_write(old, new, c, i) ==> from_surface(seed, coord, heights, write_at(new, c, i))
    &&& forall|l: LocalCoord|
        local_in_range(l) && is_surface(coord, heights, l) ==> #[trigger] shape_recorded(
            old,
            new,
            world_of(coord, l),
            surface_structure(seed, coord, l),
        )
}

/// The structure writes of the terrain pass of chunk `n`: those of its
/// surface voxels in cell order inside the band, none outside.
pub open spec fn pass_seq(seed: u32, n: ChunkCoord, samples: Map<ChunkCoord, TerrainSample>) -> Seq<
    (BlockCoord, Block),
> {
    if in_band(n) {
        surface_seq(seed, n, samples[n].heights@, CHUNK_VOLUME as int)
    } else {
        Seq::empty()
    }
}

/// `new` holds the lists of `old` with `ws` appended chunk by chunk, and
/// an entry exactly where `old` has one, at `n`, or where `ws` writes.
pub open spec fn pass_writes(
    old: Map<ChunkCoord, UnfinishedChunkData>,
    new: Map<ChunkCoord, UnfinishedChunkData>,
    n: ChunkCoord,
    ws: Seq<(BlockCoord, Block)>,
) -> bool {
    &&& forall|c: ChunkCoord| #[trigger] writes_of(new, c) == writes_of(old, c) + writes_for(ws, c)
    &&& forall|c: ChunkCoord| #[trigger]
        new.contains_key(c) <==> (old.contains_key(c) || c == n || writes_for(ws, c).len() > 0)
}

/// The 3×3×3 block of chunks centred on `c`.
pub open spec fn in_neighborhood(c: ChunkCoord, n: ChunkCoord) -> bool {
    &&& c.x - 1 <= n.x <= c.x + 1
    &&& c.y - 1 <= n.y <= c.y + 1
    &&& c.z - 1 <= n.z <= c.z + 1
}

/// Neighbour number `i` of `c`, counting x, then y, then z from -1 to 1.
pub open spec fn neighbor_at(c: ChunkCoord, i: int) -> ChunkCoord {
    IVec3 {
        x: (c.x + i / 9 - 1) as i32,
        y: (c.y + (i / 3) % 3 - 1) as i32,
        z: (c.z + i % 3 - 1) as i32,
    }
}

/// A sample fit for generating `c`.
pub open spec fn sample_ok(samples: SampleMap, registry: &Registry, c: ChunkCoord) -> bool {
    &&& samples@.contains_key(c)
    &&& samples@[c].heights@.len() == 1024
    &&& samples@[c].biome < registry.spec_biomes().len()
}

/// `new` differs from `old` only by structure writes added at the end of
/// lists, and by the terrain passes of the chunks in `s`.
pub open spec fn grows(
    old: Map<ChunkCoord, UnfinishedChunkData>,
    new: Map<ChunkCoord, UnfinishedChunkData>,
    s: Set<ChunkCoord>,
) -> bool {
    &&& forall|c: ChunkCoord|
        #[trigger] old.contains_key(c) ==> {
            &&& new.contains_key(c)
            &&& old[c].block_list@.is_prefix_of(new[c].block_list@)
            &&& !s.contains(c) ==> {
                &&& new[c].data == old[c].data
                &&& new[c].started == old[c].started
                &&& new[c].finished == old[c].finished
            }
        }
    &&& forall|c: ChunkCoord|
        #[trigger] new.contains_key(c) && !old.contains_key(c) && !s.contains(c) ==> {
            &&& new[c].data.is_none()
            &&& !new[c].started
            &&& !new[c].finished
        }
}

proof fn lemma_grows_trans(
    a: Map<ChunkCoord, UnfinishedChunkData>,
    b: Map<ChunkCoord, UnfinishedChunkData>,
    c: Map<ChunkCoord, UnfinishedChunkData>,
    s: Set<ChunkCoord>,
)
    requires
        grows(a, b, s),
        grows(b, c, s),
    ensures
        grows(a, c, s),
{
    assert forall|k: ChunkCoord| #[trigger] a.contains_key(k) implies a[k].block_list@.is_prefix_of(
        c[k].block_list@,
    ) by {
        let x = a[k].block_list@;
        let y = b[k].block_list@;
        let z = c[k].block_list@;
        assert(x =~= z.subrange(0, x.len() as int)) by {
            assert forall|i: int| 0 <= i < x.len() implies x[i] == z[i] by {
                assert(x[i] == y[i]);
                assert(y[i] == z[i]);
            }
        }
    }
    assert forall|k: ChunkCoord| #[trigger]
        c.contains_key(k) && !a.contains_key(k) && !s.contains(k) implies {
        &&& c[k].data.is_none()
        &&& !c[k].started
        &&& !c[k].finished
    } by {
        if b.contains_key(k) {
            assert(b[k].data.is_none());
        }
    }
}

/// Generates chunks from noise samples and the biomes of a registry.
pub struct TerrainGenerator {
    seed: u32,
}

impl TerrainGenerator {
    pub closed spec fn spec_seed(&self) -> u32 {
        self.seed
    }

    pub fn new(seed: u32) -> (r: TerrainGenerator)
        ensures
            r.spec_seed() == seed,
    {
        TerrainGenerator { seed }
    }

    /// Returns the world seed.
    pub fn get_seed(&self) -> (r: u32)
        ensures
            r == self.spec_seed(),
    {
        self.seed
    }

    /// Runs the terrain pass of chunk `coord`: marks its entry started.
    /// Outside the terrain band it finishes the entry with no voxels and
    /// touches nothing else. Inside, it fills the chunk by its biome from
    /// its sample, grows a structure at each surface voxel through the
    /// table, and marks the entry finished.
    fn gen(
        &self,
        registry: &Registry,
        coord: ChunkCoord,
        in_progress: &mut PendingTable,
        samples: &SampleMap,
    )
        requires
            table_wf(*old(in_progress)),
            settled(old(in_progress)@),
            !(old(in_progress)@.contains_key(coord) && old(in_progress)@[coord].started),
            chunk_gen_range(coord),
            sample_ok(*samples, registry, coord),
            samples.wf(),
        ensures
            table_wf(*final(in_progress)),
            settled(final(in_progress)@),
            final(in_progress)@.contains_key(coord),
            final(in_progress)@[coord].started,
            final(in_progress)@[coord].finished,
            grows(old(in_progress)@, final(in_progress)@, set![coord]),
            lists_grow(old(in_progress)@, final(in_progress)@),
            !in_band(coord) ==> {
                &&& final(in_progress)@.dom() == old(in_progress)@.dom().insert(coord)
                &&& final(in_progress)@[coord].data.is_none()
                &&& final(in_progress)@[coord].block_list@ == writes_of(old(in_progress)@, coord)
                &&& forall|c: ChunkCoord|
                    c != coord && #[trigger] old(in_progress)@.contains_key(c)
                        ==> final(in_progress)@[c] == old(in_progress)@[c]
            },
            in_band(coord) ==> terrain_pass(
                old(in_progress)@,
                final(in_progress)@,
                self.spec_seed(),
                coord,
                samples@[coord].heights@,
            ),
            pass_writes(
                old(in_progress)@,
                final(in_progress)@,
                coord,
                pass_seq(self.spec_seed(), coord, samples@),
            ),
    {
        let ghost t0 = in_progress@;
        let mut entry = match in_progress.remove(&coord) {
            Some(e) => e,
            None => UnfinishedChunkData {
                data: None,
                block_list: Vec::new(),
                started: false,
                finished: false,
            },
        };
        entry.started = true;
        if coord.y > TERRAIN_TOP || coord.y < TERRAIN_BOTTOM {
            entry.data = None;
            entry.finished = true;
            in_progress.insert(coord, entry);
            proof {
                assert(in_progress@ == t0.insert(coord, entry));
                assert(in_progress@.dom() =~= t0.dom().insert(coord));
                assert(entry.block_list@ == writes_of(t0, coord));
                if t0.contains_key(coord) {
                    assert(t0[coord].block_list@ =~= entry.block_list@.subrange(
                        0,
                        entry.block_list@.len() as int,
                    ));
                }
                assert forall|c: ChunkCoord| #[trigger] t0.contains_key(c) implies t0[c].block_list@.is_prefix_of(
                    in_progress@[c].block_list@,
                ) by {
                    assert(t0[c].block_list@ =~= t0[c].block_list@.subrange(
                        0,
                        t0[c].block_list@.len() as int,
                    ));
                }
                assert forall|c: ChunkCoord| #[trigger] writes_of(in_progress@, c) == writes_of(t0, c)
                    + writes_for(Seq::<(BlockCoord, Block)>::empty(), c) by {
                    assert(writes_of(t0, c) + writes_for(Seq::<(BlockCoord, Block)>::empty(), c) =~= writes_of(t0, c));
                }
            }
            return ;
        }
        let ghost removed = in_progress@;
        let ghost list0 = entry.block_list@;
        in_progress.insert(coord, entry);
        let ghost t1 = in_progress@;
        let mut chunk_data = None;
        let sample = samples.get(&coord).unwrap();
        let biome = registry.get_biome(sample.biome).unwrap().kind;
        match biome {
            BiomeKind::Forest => {
                ForestBiome.generate_chunk(
                    coord,
                    &mut chunk_data,
                    in_progress,
                    &sample.heights,
                    self.seed,
                );
            },
        }
        let ghost t2 = in_progress@;
        assert(t1.contains_key(coord));
        let mut entry = in_progress.remove(&coord).unwrap();
        entry.data = chunk_data;
        entry.finished = true;
        in_progress.insert(coord, entry);
        proof {
            assert(t2.contains_key(coord));
            assert(in_progress@ == t2.insert(coord, entry));
            assert(entry_wf(entry));
            assert forall|c: ChunkCoord| #[trigger]
                in_progress@.contains_key(c) implies entry_wf(in_progress@[c]) by {
                if c != coord {
                    assert(t2.contains_key(c));
                }
            }
            assert forall|c: ChunkCoord|
                in_progress@.contains_key(c) && (#[trigger] in_progress@[c]).started implies in_progress@[c].finished by {
                if c != coord {
                    if t1.contains_key(c) {
                        assert(t0.contains_key(c));
                    }
                }
            }
            assert(removed == t0.remove(coord));
            assert(t1 == removed.insert(coord, t1[coord]));
            assert forall|c: ChunkCoord| #[trigger] t0.contains_key(c) && c != coord implies {
                &&& in_progress@[c].data == t0[c].data
                &&& in_progress@[c].started == t0[c].started
                &&& in_progress@[c].finished == t0[c].finished
            } by {
                assert(t1.contains_key(c));
                assert(t1[c] == t0[c]);
            }
            assert forall|c: ChunkCoord| #[trigger] t0.contains_key(c) implies in_progress@.contains_key(c)
                && t0[c].block_list@.is_prefix_of(in_progress@[c].block_list@) by {
                assert(t1.contains_key(c));
                assert(t2.contains_key(c));
                if c == coord {
                    assert(t1[c].block_list@ == list0);
                }
                let x = t0[c].block_list@;
                let y = t1[c].block_list@;
                let z = in_progress@[c].block_list@;
                assert(x =~= y.subrange(0, x.len() as int));
                assert(y =~= z.subrange(0, y.len() as int));
                assert(x =~= z.subrange(0, x.len() as int)) by {
                    assert forall|i: int| 0 <= i < x.len() implies x[i] == z[i] by {
                        assert(x[i] == y[i]);
                        assert(y[i] == z[i]);
                    }
                }
            }
            assert forall|c: ChunkCoord| #[trigger]
                in_progress@.contains_key(c) && !t0.contains_key(c) && !set![coord].contains(
                    c,
                ) implies {
                &&& in_progress@[c].data.is_none()
                &&& !in_progress@[c].started
                &&& !in_progress@[c].finished
            } by {
                assert(!t1.contains_key(c));
            }
            // The terrain pass as the biome reported it, moved from `t1`/`t2`
            // to `t0`/the final table, which hold the same writes.
            assert(same_writes(t1, t0)) by {
                assert forall|c: ChunkCoord| #[trigger] writes_of(t1, c) == writes_of(t0, c) by {
                    if c == coord {
                        assert(t1[c].block_list@ == list0);
                    } else if t0.contains_key(c) {
                        assert(t1[c] == t0[c]);
                    }
                }
            }
            assert(t2.dom() =~= in_progress@.dom());
            lemma_same_writes(t1, t0, t2, in_progress@);
            let ws = pass_seq(self.seed, coord, samples@);
            assert forall|c: ChunkCoord| #[trigger] writes_of(in_progress@, c) == writes_of(t0, c) + writes_for(ws, c) by {
                assert(writes_of(t2, c) == writes_of(t1, c) + writes_for(ws, c));
                assert(writes_of(t1, c) == writes_of(t0, c));
                if c == coord {
                } else if t2.contains_key(c) {
                    assert(in_progress@[c] == t2[c]);
                }
            }
            assert forall|c: ChunkCoord| #[trigger] in_progress@.contains_key(c) <==> (t0.contains_key(c) || c == coord || writes_for(ws, c).len() > 0) by {
                assert(t2.contains_key(c) <==> (t1.contains_key(c) || writes_for(ws, c).len() > 0));
            }
            let heights = samples@[coord].heights@;
            assert forall|l: LocalCoord| local_in_range(l) && is_surface(coord, heights, l) implies #[trigger] shape_recorded(
                t0,
                in_progress@,
                world_of(coord, l),
                surface_structure(self.seed, coord, l),
            ) by {
                assert(shape_recorded(t1, t2, world_of(coord, l), surface_structure(self.seed, coord, l)));
                if let Some(sh) = surface_structure(self.seed, coord, l) {
                    assert forall|dx: int, dy: int, dz: int| #[trigger]
                        shape_block(sh, dx, dy, dz) is Some implies recorded(
                        t0,
                        in_progress@,
                        (offset(world_of(coord, l), dx, dy, dz), shape_block(sh, dx, dy, dz)->0),
                    ) by {
                        assert(recorded(t1, t2, (offset(world_of(coord, l), dx, dy, dz), shape_block(sh, dx, dy, dz)->0)));
                    }
                }
            }
            assert forall|c: ChunkCoord, i: int| #[trigger]
                added_write(t0, in_progress@, c, i) implies from_surface(
                self.seed,
                coord,
                heights,
                write_at(in_progress@, c, i),
            ) by {
                assert(added_write(t1, t2, c, i));
            }
        }
    }

    /// Generates chunk `coord`. First the terrain pass runs for every chunk
    /// of its 3×3×3 neighbourhood whose bit in `loaded` is clear and whose
    /// pass has not started, so that every structure reaching into `coord`
    /// from there has been placed; each pass runs to its end before the
    /// next starts. Then the entry of `coord` leaves the table and its
    /// structure writes are applied over its voxels. The bit of `coord`
    /// itself must be clear: a chunk being generated is not loaded.
    pub fn generate_chunk(
        &self,
        registry: &Registry,
        loaded: u32,
        coord: ChunkCoord,
        in_progress: &mut PendingTable,
        samples: &SampleMap,
    ) -> (r: (ChunkCoord, Chunk))
        requires
            table_wf(*old(in_progress)),
            settled(old(in_progress)@),
            neighborhood_gen_range(coord),
            (loaded >> 13u32) & 1u32 == 0u32,
            samples.wf(),
            forall|n: ChunkCoord| in_neighborhood(coord, n) ==> sample_ok(*samples, registry, n),
        ensures
            r.0 == coord,
            r.1.spec_coord() == coord,
            r.1.wf(),
            table_wf(*final(in_progress)),
            settled(final(in_progress)@),
            !final(in_progress)@.contains_key(coord),
            exists|mid: Map<ChunkCoord, UnfinishedChunkData>|
                {
                    &&& generation_result(old(in_progress)@, mid, self.spec_seed(), coord, loaded, samples@)
                    &&& #[trigger] mid.contains_key(coord)
                    &&& mid[coord].finished
                    &&& final(in_progress)@ == mid.remove(coord)
                    &&& r.1.spec_data().is_none() == (mid[coord].data.is_none()
                        && mid[coord].block_list@.len() == 0)
                    &&& forall|l: LocalCoord|
                        local_in_range(l) ==> #[trigger] r.1.block_at(l) == folded_block(
                            mid[coord],
                            l,
                        )
                },
    {
        let ghost t0 = in_progress@;
        let ghost nb = run_set(coord, loaded);
        let ghost rs = ran_set(t0, coord, loaded);
        let ghost seed = self.spec_seed();
        proof {
            lemma_grows_refl(t0, rs);
            assert forall|c: ChunkCoord| #[trigger] writes_of(t0, c) == writes_of(t0, c) + writes_for(
                run_seq(t0, seed, coord, loaded, samples@, 0),
                c,
            ) by {
                assert(writes_of(t0, c) + writes_for(run_seq(t0, seed, coord, loaded, samples@, 0), c) =~= writes_of(t0, c));
            }
            lemma_lists_grow_refl(t0);
            assert forall|c: ChunkCoord, i: int| #[trigger] added_write(t0, t0, c, i) implies false by {}
        }
        let mut i: u32 = 0;
        while i < 27
            invariant
                i <= 27,
                nb == run_set(coord, loaded),
                seed == self.spec_seed(),
                table_wf(*in_progress),
                settled(in_progress@),
                rs == ran_set(t0, coord, loaded),
                grows(t0, in_progress@, rs),
                lists_grow(t0, in_progress@),
                forall|c: ChunkCoord| #[trigger]
                    writes_of(in_progress@, c) == writes_of(t0, c) + writes_for(
                        run_seq(t0, seed, coord, loaded, samples@, i as int),
                        c,
                    ),
                forall|c: ChunkCoord| #[trigger]
                    in_progress@.contains_key(c) <==> (t0.contains_key(c) || run_prefix(
                        coord,
                        loaded,
                        i as int,
                        c,
                    ) || writes_for(run_seq(t0, seed, coord, loaded, samples@, i as int), c).len() > 0),
                forall|j: u32|
                    j < i && (loaded >> j) & 1u32 == 0u32 ==> {
                        let m = #[trigger] neighbor_at(coord, j as int);
                        &&& in_progress@.contains_key(m)
                        &&& in_progress@[m].started
                        &&& in_progress@[m].finished
                    },
                forall|j: u32|
                    i <= j < 27 ==> unstarted(in_progress@, #[trigger] neighbor_at(coord, j as int))
                        == unstarted(t0, neighbor_at(coord, j as int)),
                forall|j: u32|
                    j < i && (loaded >> j) & 1u32 == 0u32 && unstarted(t0, #[trigger] neighbor_at(coord, j as int))
                        ==> pass_done(t0, in_progress@, seed, neighbor_at(coord, j as int), samples@),
                writes_from_ran(t0, in_progress@, seed, coord, loaded, samples@),
                neighborhood_gen_range(coord),
                samples.wf(),
                forall|n: ChunkCoord| in_neighborhood(coord, n) ==> sample_ok(*samples, registry, n),
            decreases 27 - i,
        {
            let n = IVec3 {
                x: coord.x + (i / 9) as i32 - 1,
                y: coord.y + ((i / 3) % 3) as i32 - 1,
                z: coord.z + (i % 3) as i32 - 1,
            };
            assert(n == neighbor_at(coord, i as int));
            let ghost before = in_progress@;
            let mut ran_here = false;
            if (loaded >> i) & 1 == 0 {
                assert(nb.contains(n));
                let run = match in_progress.get(&n) {
                    Some(e) => !e.started,
                    None => true,
                };
                if run {
                    assert(in_neighborhood(coord, n));
                    self.gen(registry, n, in_progress, samples);
                    ran_here = true;
                    proof {
                        assert(unstarted(before, n));
                        assert(unstarted(t0, neighbor_at(coord, i as int)));
                        assert(rs.contains(n));
                        lemma_grows_widen(before, in_progress@, set![n], rs);
                        lemma_grows_trans(t0, before, in_progress@, rs);
                        lemma_lists_grow_trans(t0, before, in_progress@);
                        lemma_gen_step(t0, before, in_progress@, seed, coord, loaded, samples@, i, n);
                    }
                }
            }
            proof {
                if !ran_here {
                    assert(in_progress@ == before);
                }
                let rq = run_seq(t0, seed, coord, loaded, samples@, i as int);
                let rq1 = run_seq(t0, seed, coord, loaded, samples@, i + 1);
                let ps = pass_seq(seed, n, samples@);
                let runs = (loaded >> i) & 1u32 == 0u32 && unstarted(t0, n);
                assert(runs == ran_here) by {
                    if (loaded >> i) & 1u32 == 0u32 {
                        assert(unstarted(before, n) == unstarted(t0, neighbor_at(coord, i as int)));
                    }
                }
                assert(rq1 == rq + if runs { ps } else { Seq::empty() });
                assert forall|c: ChunkCoord| #[trigger] writes_of(in_progress@, c) == writes_of(t0, c) + writes_for(rq1, c) by {
                    if runs {
                        lemma_writes_for_concat(rq, ps, c);
                        assert(writes_of(in_progress@, c) == writes_of(before, c) + writes_for(ps, c));
                        assert(writes_of(t0, c) + writes_for(rq1, c) =~= writes_of(t0, c) + writes_for(rq, c) + writes_for(ps, c));
                    } else {
                        assert(rq1 =~= rq);
                    }
                }
                assert forall|c: ChunkCoord| #[trigger] in_progress@.contains_key(c) <==> (t0.contains_key(c) || run_prefix(
                    coord,
                    loaded,
                    i + 1,
                    c,
                ) || writes_for(rq1, c).len() > 0) by {
                    if run_prefix(coord, loaded, i as int, c) {
                        let j = choose|j: int| 0 <= j < i && c == neighbor_at(coord, j) && (loaded >> (j as u32)) & 1u32 == 0u32;
                        assert(0 <= j < i + 1 && c == neighbor_at(coord, j) && (loaded >> (j as u32)) & 1u32 == 0u32);
                    }
                    if run_prefix(coord, loaded, i + 1, c) && !run_prefix(coord, loaded, i as int, c) {
                        let j = choose|j: int| 0 <= j < i + 1 && c == neighbor_at(coord, j) && (loaded >> (j as u32)) & 1u32 == 0u32;
                        assert(j == i);
                        assert((loaded >> i) & 1u32 == 0u32);
                        if !runs {
                            assert(!unstarted(t0, n));
                        }
                    }
                    if !run_prefix(coord, loaded, i + 1, c) {
                        assert(!run_prefix(coord, loaded, i as int, c)) by {
                            if run_prefix(coord, loaded, i as int, c) {
                                let j = choose|j: int| 0 <= j < i && c == neighbor_at(coord, j) && (loaded >> (j as u32)) & 1u32 == 0u32;
                                assert(0 <= j < i + 1 && c == neighbor_at(coord, j) && (loaded >> (j as u32)) & 1u32 == 0u32);
                            }
                        }
                        if runs {
                            assert(c != n) by {
                                if c == n {
                                    assert(0 <= i < i + 1 && c == neighbor_at(coord, i as int) && (loaded >> ((i as int) as u32)) & 1u32 == 0u32);
                                }
                            }
                        }
                    }
                    if runs {
                        lemma_writes_for_concat(rq, ps, c);
                        assert(in_progress@.contains_key(c) <==> (before.contains_key(c) || c == n || writes_for(ps, c).len() > 0));
                    } else {
                        assert(rq1 =~= rq);
                    }
                }
                assert forall|j: u32|
                    j < i + 1 && (loaded >> j) & 1u32 == 0u32 implies {
                    let m = #[trigger] neighbor_at(coord, j as int);
                    &&& in_progress@.contains_key(m)
                    &&& in_progress@[m].started
                    &&& in_progress@[m].finished
                } by {
                    let m = neighbor_at(coord, j as int);
                    if m != n {
                        assert(before.contains_key(m));
                    } else {
                        assert(in_progress@.contains_key(n));
                    }
                }
                assert forall|j: u32|
                    i + 1 <= j < 27 implies unstarted(in_progress@, #[trigger] neighbor_at(coord, j as int))
                        == unstarted(t0, neighbor_at(coord, j as int)) by {
                    lemma_neighbor_at_injective(coord, i as int, j as int);
                    assert(unstarted(before, neighbor_at(coord, j as int)) == unstarted(t0, neighbor_at(coord, j as int)));
                }
                assert forall|j: u32|
                    j < i + 1 && (loaded >> j) & 1u32 == 0u32 && unstarted(t0, #[trigger] neighbor_at(coord, j as int))
                        implies pass_done(t0, in_progress@, seed, neighbor_at(coord, j as int), samples@) by {
                    if j == i {
                        assert(unstarted(before, n));
                    } else {
                        lemma_neighbor_at_injective(coord, i as int, j as int);
                        assert(pass_done(t0, before, seed, neighbor_at(coord, j as int), samples@));
                        if ran_here {
                            lemma_pass_done_keeps(t0, before, in_progress@, seed, neighbor_at(coord, j as int), n, samples@);
                        }
                    }
                }
            }
            i += 1;
        }
        let ghost mid = in_progress@;
        proof {
            assert(neighbor_at(coord, 13) == coord);
            assert(nb.contains(coord)) by {
                assert(0 <= 13 < 27 && coord == neighbor_at(coord, 13) && (loaded >> (13int as u32)) & 1u32 == 0u32);
            }
            assert forall|n: ChunkCoord| #[trigger] nb.contains(n) implies mid.contains_key(n)
                && mid[n].started && mid[n].finished by {
                let j = choose|j: int| 0 <= j < 27 && n == neighbor_at(coord, j) && (loaded >> (j as u32)) & 1u32 == 0u32;
                assert(neighbor_at(coord, (j as u32) as int) == n);
            }
            assert forall|n: ChunkCoord| #[trigger] ran(t0, coord, loaded, n) implies pass_done(t0, mid, seed, n, samples@) by {
                let j = choose|j: int| 0 <= j < 27 && n == neighbor_at(coord, j) && (loaded >> (j as u32)) & 1u32 == 0u32;
                assert(neighbor_at(coord, (j as u32) as int) == n);
            }
        }
        assert(mid.contains_key(coord) && mid[coord].finished);
        let chunk = finish_chunk(coord, in_progress.remove(&coord).unwrap());
        proof {
            assert forall|c: ChunkCoord| #[trigger]
                in_progress@.contains_key(c) implies entry_wf(in_progress@[c]) by {
                assert(mid.contains_key(c));
            }
            assert forall|c: ChunkCoord|
                in_progress@.contains_key(c) && (#[trigger] in_progress@[c]).started implies in_progress@[c].finished by {
                assert(mid.contains_key(c));
            }
        }
        (coord, chunk)
    }
}

/// A structure block recorded for chunk `coord` before its generation lands
/// in the generated chunk when no later write in the old list targets the
/// same voxel and no structure that the run grows has a block there: `old`
/// and `mid` are the tables of `generate_chunk`'s contract, `chunk` its
/// result.
pub proof fn lemma_overflow_survives_generation(
    old: Map<ChunkCoord, UnfinishedChunkData>,
    mid: Map<ChunkCoord, UnfinishedChunkData>,
    seed: u32,
    coord: ChunkCoord,
    loaded: u32,
    samples: Map<ChunkCoord, TerrainSample>,
    i: int,
    chunk: Chunk,
)
    requires
        old.contains_key(coord),
        mid.contains_key(coord),
        entry_wf(mid[coord]),
        lists_grow(old, mid),
        generation_done(old, mid, seed, coord, loaded, samples),
        0 <= i < old[coord].block_list@.len(),
        forall|j: int|
            i < j < old[coord].block_list@.len() ==> (#[trigger] old[coord].block_list@[j]).0
                != old[coord].block_list@[i].0,
        forall|n: ChunkCoord, b: Block|
            ran(old, coord, loaded, n) && in_band(n) ==> !#[trigger] from_surface(
                seed,
                n,
                samples[n].heights@,
                (world_of(coord, old[coord].block_list@[i].0), b),
            ),
        forall|l: LocalCoord|
            local_in_range(l) ==> #[trigger] chunk.block_at(l) == folded_block(mid[coord], l),
    ensures
        chunk.block_at(old[coord].block_list@[i].0) == old[coord].block_list@[i].1,
{
    let w = old[coord].block_list@[i];
    let ml = mid[coord].block_list@;
    assert(ml[i] == w);
    assert forall|j: int| i < j < ml.len() implies (#[trigger] ml[j]).0 != ml[i].0 by {
        if j < old[coord].block_list@.len() {
            assert(ml[j] == old[coord].block_list@[j]);
        } else if ml[j].0 == w.0 {
            assert(added_write(old, mid, coord, j));
            let n = choose|n: ChunkCoord| #[trigger]
                ran(old, coord, loaded, n) && in_band(n) && from_surface(
                    seed,
                    n,
                    samples[n].heights@,
                    write_at(mid, coord, j),
                );
            assert(write_at(mid, coord, j) == (world_of(coord, w.0), ml[j].1));
        }
    }
    crate::pending::lemma_overflow_lands(old, mid, coord, i, chunk);
}

/// A chunk with no pending entry whose whole run lies outside the terrain
/// band comes out of generation with no voxels and no writes, so the chunk
/// built from it is empty.
pub proof fn lemma_empty_outside_band(
    old: Map<ChunkCoord, UnfinishedChunkData>,
    mid: Map<ChunkCoord, UnfinishedChunkData>,
    seed: u32,
    coord: ChunkCoord,
    loaded: u32,
    samples: Map<ChunkCoord, TerrainSample>,
)
    requires
        !old.contains_key(coord),
        mid.contains_key(coord),
        run_set(coord, loaded).contains(coord),
        forall|n: ChunkCoord| run_set(coord, loaded).contains(n) ==> !in_band(n),
        generation_done(old, mid, seed, coord, loaded, samples),
    ensures
        mid[coord].data.is_none(),
        mid[coord].block_list@.len() == 0,
{
    assert(ran(old, coord, loaded, coord));
    if mid[coord].block_list@.len() > 0 {
        assert(added_write(old, mid, coord, 0));
        let n = choose|n: ChunkCoord| #[trigger]
            ran(old, coord, loaded, n) && in_band(n) && from_surface(
                seed,
                n,
                samples[n].heights@,
                write_at(mid, coord, 0),
            );
    }
}

/// The chunks whose terrain pass `generate_chunk(loaded, coord)` runs on
/// table `old`, as a set.
pub open spec fn ran_set(old: Map<ChunkCoord, UnfinishedChunkData>, coord: ChunkCoord, loaded: u32) -> Set<
    ChunkCoord,
> {
    Set::new(|n: ChunkCoord| ran(old, coord, loaded, n))
}

/// The structure writes of the passes among the first `i` neighbours of
/// `coord` that `generate_chunk(loaded, coord)` runs on table `old`, in
/// neighbour order.
pub open spec fn run_seq(
    old: Map<ChunkCoord, UnfinishedChunkData>,
    seed: u32,
    coord: ChunkCoord,
    loaded: u32,
    samples: Map<ChunkCoord, TerrainSample>,
    i: int,
) -> Seq<(BlockCoord, Block)>
    decreases i,
{
    if i <= 0 {
        Seq::empty()
    } else {
        let n = neighbor_at(coord, i - 1);
        run_seq(old, seed, coord, loaded, samples, i - 1) + if (loaded >> ((i - 1) as u32)) & 1u32
            == 0u32 && unstarted(old, n) {
            pass_seq(seed, n, samples)
        } else {
            Seq::empty()
        }
    }
}

/// Some neighbour among the first `i` whose bit is clear is `c`.
pub open spec fn run_prefix(coord: ChunkCoord, loaded: u32, i: int, c: ChunkCoord) -> bool {
    exists|j: int| 0 <= j < i && c == neighbor_at(coord, j) && (loaded >> (j as u32)) & 1u32 == 0u32
}

/// The table `mid` that the passes of `generate_chunk(loaded, coord)` leave
/// behind on table `old`, before `coord` is taken out: only the chunks
/// that ran changed their voxels and flags, each of them is done, and
/// every list is the old one followed by the writes of the passes, in
/// neighbour order.
pub open spec fn generation_result(
    old: Map<ChunkCoord, UnfinishedChunkData>,
    mid: Map<ChunkCoord, UnfinishedChunkData>,
    seed: u32,
    coord: ChunkCoord,
    loaded: u32,
    samples: Map<ChunkCoord, TerrainSample>,
) -> bool {
    &&& grows(old, mid, ran_set(old, coord, loaded))
    &&& forall|n: ChunkCoord| #[trigger]
        run_set(coord, loaded).contains(n) ==> mid.contains_key(n) && mid[n].started
            && mid[n].finished
    &&& generation_done(old, mid, seed, coord, loaded, samples)
    &&& forall|c: ChunkCoord| #[trigger]
        writes_of(mid, c) == writes_of(old, c) + writes_for(
            run_seq(old, seed, coord, loaded, samples, 27),
            c,
        )
    &&& forall|c: ChunkCoord| #[trigger]
        mid.contains_key(c) <==> (old.contains_key(c) || run_set(coord, loaded).contains(c)
            || writes_for(run_seq(old, seed, coord, loaded, samples, 27), c).len() > 0)
}

/// Generation is reproducible: two runs on the same table with the same
/// seed, samples and request leave tables with the same entries, lists,
/// flags and voxels, and chunks with the same blocks.
pub proof fn lemma_generation_reproducible(
    old: Map<ChunkCoord, UnfinishedChunkData>,
    mid1: Map<ChunkCoord, UnfinishedChunkData>,
    mid2: Map<ChunkCoord, UnfinishedChunkData>,
    seed: u32,
    coord: ChunkCoord,
    loaded: u32,
    samples: Map<ChunkCoord, TerrainSample>,
    chunk1: Chunk,
    chunk2: Chunk,
)
    requires
        generation_result(old, mid1, seed, coord, loaded, samples),
        generation_result(old, mid2, seed, coord, loaded, samples),
        mid1.contains_key(coord),
        chunk1.spec_data().is_none() == (mid1[coord].data.is_none() && mid1[coord].block_list@.len() == 0),
        chunk2.spec_data().is_none() == (mid2[coord].data.is_none() && mid2[coord].block_list@.len() == 0),
        forall|l: LocalCoord| local_in_range(l) ==> #[trigger] chunk1.block_at(l) == folded_block(mid1[coord], l),
        forall|l: LocalCoord| local_in_range(l) ==> #[trigger] chunk2.block_at(l) == folded_block(mid2[coord], l),
    ensures
        forall|c: ChunkCoord| #[trigger] mid1.contains_key(c) == mid2.contains_key(c),
        forall|c: ChunkCoord| #[trigger] writes_of(mid1, c) == writes_of(mid2, c),
        forall|c: ChunkCoord| #[trigger]
            mid1.contains_key(c) ==> {
                &&& mid1[c].started == mid2[c].started
                &&& mid1[c].finished == mid2[c].finished
                &&& mid1[c].data.is_none() == mid2[c].data.is_none()
                &&& forall|l: LocalCoord| local_in_range(l) ==> #[trigger] data_block(mid1[c].data, l) == data_block(mid2[c].data, l)
            },
        chunk1.spec_data().is_none() == chunk2.spec_data().is_none(),
        forall|l: LocalCoord| local_in_range(l) ==> #[trigger] chunk1.block_at(l) == chunk2.block_at(l),
{
    assert forall|c: ChunkCoord| #[trigger] mid1.contains_key(c) implies {
        &&& mid1[c].started == mid2[c].started
        &&& mid1[c].finished == mid2[c].finished
        &&& mid1[c].data.is_none() == mid2[c].data.is_none()
        &&& forall|l: LocalCoord| local_in_range(l) ==> #[trigger] data_block(mid1[c].data, l) == data_block(mid2[c].data, l)
    } by {
        assert(mid2.contains_key(c));
        if ran(old, coord, loaded, c) {
            assert(pass_done(old, mid1, seed, c, samples));
            assert(pass_done(old, mid2, seed, c, samples));
            assert(run_set(coord, loaded).contains(c));
            if in_band(c) {
                let heights = samples[c].heights@;
                assert forall|l: LocalCoord| local_in_range(l) implies #[trigger] data_block(mid1[c].data, l) == data_block(mid2[c].data, l) by {
                    assert(data_block(mid1[c].data, l) == terrain_block(column_height(heights, l), c.y * 32 + l.1));
                    assert(data_block(mid2[c].data, l) == terrain_block(column_height(heights, l), c.y * 32 + l.1));
                }
            }
        } else {
            assert(!ran_set(old, coord, loaded).contains(c));
            if old.contains_key(c) {
                assert(mid1[c].data == old[c].data);
                assert(mid2[c].data == old[c].data);
            }
        }
    }
    assert(writes_of(mid1, coord) == writes_of(mid2, coord));
    assert(mid2.contains_key(coord));
    assert forall|l: LocalCoord| local_in_range(l) implies #[trigger] chunk1.block_at(l) == chunk2.block_at(l) by {
        assert(data_block(mid1[coord].data, l) == data_block(mid2[coord].data, l));
    }
}

/// The chunk has no pass started in `m`.
pub open spec fn unstarted(m: Map<ChunkCoord, UnfinishedChunkData>, n: ChunkCoord) -> bool {
    !(m.contains_key(n) && m[n].started)
}

/// The chunks whose terrain pass `generate_chunk(loaded, coord)` runs on
/// table `old`: those of `run_set` whose pass has not started.
pub open spec fn ran(
    old: Map<ChunkCoord, UnfinishedChunkData>,
    coord: ChunkCoord,
    loaded: u32,
    n: ChunkCoord,
) -> bool {
    run_set(coord, loaded).contains(n) && unstarted(old, n)
}

/// The terrain pass of `n` has happened between `old` and `new`: outside
/// the band it left no voxels; inside, its voxels follow the layered rule
/// and the whole structure of each of its surface voxels was written.
pub open spec fn pass_done(
    old: Map<ChunkCoord, UnfinishedChunkData>,
    new: Map<ChunkCoord, UnfinishedChunkData>,
    seed: u32,
    n: ChunkCoord,
    samples: Map<ChunkCoord, TerrainSample>,
) -> bool {
    let heights = samples[n].heights@;
    &&& new.contains_key(n)
    &&& !in_band(n) ==> new[n].data.is_none()
    &&& in_band(n) ==> forall|l: LocalCoord|
        local_in_range(l) ==> #[trigger] data_block(new[n].data, l) == terrain_block(
            column_height(heights, l),
            n.y * 32 + l.1,
        )
    &&& in_band(n) ==> (new[n].data.is_none() == forall|l: LocalCoord|
        local_in_range(l) ==> #[trigger] terrain_block(column_height(heights, l), n.y * 32 + l.1)
            == air())
    &&& in_band(n) ==> forall|l: LocalCoord|
        local_in_range(l) && is_surface(n, heights, l) ==> #[trigger] shape_recorded(
            old,
            new,
            world_of(n, l),
            surface_structure(seed, n, l),
        )
}

/// Every write added between `old` and `new` belongs to a structure grown
/// at a surface voxel of an in-band chunk whose pass ran.
pub open spec fn writes_from_ran(
    old: Map<ChunkCoord, UnfinishedChunkData>,
    new: Map<ChunkCoord, UnfinishedChunkData>,
    seed: u32,
    coord: ChunkCoord,
    loaded: u32,
    samples: Map<ChunkCoord, TerrainSample>,
) -> bool {
    forall|c: ChunkCoord, i: int| #[trigger]
        added_write(old, new, c, i) ==> exists|n: ChunkCoord| #[trigger]
            ran(old, coord, loaded, n) && in_band(n) && from_surface(
                seed,
                n,
                samples[n].heights@,
                write_at(new, c, i),
            )
}

/// What the passes of `generate_chunk(loaded, coord)` did, from `old` to
/// `mid`: each chunk that ran is done, and every added write grew out of
/// one of them.
pub open spec fn generation_done(
    old: Map<ChunkCoord, UnfinishedChunkData>,
    mid: Map<ChunkCoord, UnfinishedChunkData>,
    seed: u32,
    coord: ChunkCoord,
    loaded: u32,
    samples: Map<ChunkCoord, TerrainSample>,
) -> bool {
    &&& forall|n: ChunkCoord| #[trigger] ran(old, coord, loaded, n) ==> pass_done(old, mid, seed, n, samples)
    &&& writes_from_ran(old, mid, seed, coord, loaded, samples)
}

/// The chunks whose terrain pass `generate_chunk(loaded, c)` makes sure
/// of: every chunk of the neighbourhood whose bit in `loaded` is clear.
pub open spec fn run_set(c: ChunkCoord, loaded: u32) -> Set<ChunkCoord> {
    Set::new(
        |n: ChunkCoord|
            exists|i: int|
                0 <= i < 27 && n == neighbor_at(c, i) && (loaded >> (i as u32)) & 1u32 == 0u32,
    )
}

/// Chunks whose whole neighbourhood may be generated.
pub open spec fn neighborhood_gen_range(c: ChunkCoord) -> bool {
    &&& -16777215 <= c.x <= 16777215
    &&& -16777215 <= c.y <= 16777215
    &&& -16777215 <= c.z <= 16777215
}

proof fn lemma_lists_grow_refl(m: Map<ChunkCoord, UnfinishedChunkData>)
    ensures
        lists_grow(m, m),
{
    assert forall|c: ChunkCoord| #[trigger] m.contains_key(c) implies m[c].block_list@.is_prefix_of(
        m[c].block_list@,
    ) by {
        assert(m[c].block_list@ =~= m[c].block_list@.subrange(0, m[c].block_list@.len() as int));
    }
}

proof fn lemma_lists_grow_trans(
    a: Map<ChunkCoord, UnfinishedChunkData>,
    b: Map<ChunkCoord, UnfinishedChunkData>,
    c: Map<ChunkCoord, UnfinishedChunkData>,
)
    requires
        lists_grow(a, b),
        lists_grow(b, c),
    ensures
        lists_grow(a, c),
{
    assert forall|k: ChunkCoord| #[trigger] a.contains_key(k) implies c.contains_key(k)
        && a[k].block_list@.is_prefix_of(c[k].block_list@) by {
        assert(b.contains_key(k));
        let x = a[k].block_list@;
        let y = b[k].block_list@;
        let z = c[k].block_list@;
        assert(x =~= z.subrange(0, x.len() as int)) by {
            assert forall|i: int| 0 <= i < x.len() implies x[i] == z[i] by {
                assert(x[i] == y[i]);
                assert(y[i] == z[i]);
            }
        }
    }
}

/// Distinct neighbour numbers name distinct chunks.
proof fn lemma_neighbor_at_injective(c: ChunkCoord, a: int, b: int)
    requires
        neighborhood_gen_range(c),
        0 <= a < 27,
        0 <= b < 27,
        a != b,
    ensures
        neighbor_at(c, a) != neighbor_at(c, b),
{
    lemma_neighbor_index(a);
    lemma_neighbor_index(b);
}

proof fn lemma_neighbor_index(a: int)
    requires
        0 <= a < 27,
    ensures
        a == 9 * (a / 9) + 3 * ((a / 3) % 3) + a % 3,
        0 <= a / 9 < 3,
        0 <= (a / 3) % 3 < 3,
        0 <= a % 3 < 3,
{
    vstd::arithmetic::div_mod::lemma_fundamental_div_mod(a, 3);
    vstd::arithmetic::div_mod::lemma_fundamental_div_mod(a / 3, 3);
    vstd::arithmetic::div_mod::lemma_div_denominator(a, 3, 3);
}

/// One terrain pass inside `generate_chunk`, from `t` to `t2`, keeps the
/// account of what the passes so far did, and adds its own.
proof fn lemma_gen_step(
    t0: Map<ChunkCoord, UnfinishedChunkData>,
    t: Map<ChunkCoord, UnfinishedChunkData>,
    t2: Map<ChunkCoord, UnfinishedChunkData>,
    seed: u32,
    coord: ChunkCoord,
    loaded: u32,
    samples: Map<ChunkCoord, TerrainSample>,
    i: u32,
    n: ChunkCoord,
)
    requires
        i < 27,
        n == neighbor_at(coord, i as int),
        (loaded >> i) & 1u32 == 0u32,
        unstarted(t0, n),
        lists_grow(t0, t),
        lists_grow(t, t2),
        writes_from_ran(t0, t, seed, coord, loaded, samples),
        t2.contains_key(n),
        !in_band(n) ==> {
            &&& t2.dom() == t.dom().insert(n)
            &&& t2[n].data.is_none()
            &&& t2[n].block_list@ == writes_of(t, n)
            &&& forall|c: ChunkCoord| c != n && #[trigger] t.contains_key(c) ==> t2[c] == t[c]
        },
        in_band(n) ==> terrain_pass(t, t2, seed, n, samples[n].heights@),
    ensures
        writes_from_ran(t0, t2, seed, coord, loaded, samples),
        pass_done(t0, t2, seed, n, samples),
{
    assert(ran(t0, coord, loaded, n)) by {
        assert(0 <= i < 27 && n == neighbor_at(coord, i as int) && (loaded >> ((i as int) as u32)) & 1u32 == 0u32);
    }
    assert forall|c: ChunkCoord, k: int| #[trigger] added_write(t0, t2, c, k) implies exists|m: ChunkCoord| #[trigger]
        ran(t0, coord, loaded, m) && in_band(m) && from_surface(
            seed,
            m,
            samples[m].heights@,
            write_at(t2, c, k),
        ) by {
        lemma_added_split(t0, t, t2, c, k);
        if added_write(t0, t, c, k) && write_at(t2, c, k) == write_at(t, c, k) {
        } else {
            assert(added_write(t, t2, c, k));
            if !in_band(n) {
                if c != n {
                    assert(t.contains_key(c));
                }
                assert(false);
            }
        }
    }
    if in_band(n) {
        let heights = samples[n].heights@;
        assert forall|l: LocalCoord|
            local_in_range(l) && is_surface(n, heights, l) implies #[trigger] shape_recorded(
            t0,
            t2,
            world_of(n, l),
            surface_structure(seed, n, l),
        ) by {
            lemma_shape_recorded_earlier(t0, t, t2, world_of(n, l), surface_structure(seed, n, l));
        }
    }
}

/// A later terrain pass of another chunk keeps what an earlier one did.
proof fn lemma_pass_done_keeps(
    t0: Map<ChunkCoord, UnfinishedChunkData>,
    t: Map<ChunkCoord, UnfinishedChunkData>,
    t2: Map<ChunkCoord, UnfinishedChunkData>,
    seed: u32,
    m: ChunkCoord,
    n: ChunkCoord,
    samples: Map<ChunkCoord, TerrainSample>,
)
    requires
        pass_done(t0, t, seed, m, samples),
        m != n,
        grows(t, t2, set![n]),
        lists_grow(t, t2),
    ensures
        pass_done(t0, t2, seed, m, samples),
{
    assert(t.contains_key(m));
    assert(t2[m].data == t[m].data);
    if in_band(m) {
        let heights = samples[m].heights@;
        assert forall|l: LocalCoord|
            local_in_range(l) && is_surface(m, heights, l) implies #[trigger] shape_recorded(
            t0,
            t2,
            world_of(m, l),
            surface_structure(seed, m, l),
        ) by {
            lemma_shape_recorded_extends(t0, t, t2, world_of(m, l), surface_structure(seed, m, l));
        }
        assert forall|l: LocalCoord| local_in_range(l) implies #[trigger] data_block(t2[m].data, l)
            == terrain_block(column_height(heights, l), m.y * 32 + l.1) by {
            assert(data_block(t[m].data, l) == terrain_block(column_height(heights, l), m.y * 32 + l.1));
        }
    }
}

proof fn lemma_grows_refl(m: Map<ChunkCoord, UnfinishedChunkData>, s: Set<ChunkCoord>)
    ensures
        grows(m, m, s),
{
    assert forall|c: ChunkCoord| #[trigger] m.contains_key(c) implies m[c].block_list@.is_prefix_of(
        m[c].block_list@,
    ) by {
        assert(m[c].block_list@ =~= m[c].block_list@.subrange(0, m[c].block_list@.len() as int));
    }
}

proof fn lemma_grows_widen(
    a: Map<ChunkCoord, UnfinishedChunkData>,
    b: Map<ChunkCoord, UnfinishedChunkData>,
    s: Set<ChunkCoord>,
    t: Set<ChunkCoord>,
)
    requires
        grows(a, b, s),
        s.subset_of(t),
    ensures
        grows(a, b, t),
{
    assert forall|c: ChunkCoord| #[trigger] a.contains_key(c) && !t.contains(c) implies !s.contains(c) by {}
}

} // verus!
