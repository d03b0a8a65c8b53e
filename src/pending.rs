//! The table that buffers generation work per chunk while its neighbourhood
//! is being generated, including blocks that structures place across chunk
//! borders.
use vstd::prelude::*;
use crate::block::Block;
use crate::chunk::{data_block, data_wf, set_block_in_chunk, Chunk, ChunkData};
use crate::coord::{
    block_to_chunk_coord, block_to_chunk_local_coord, lemma_decompose, local_in_range,
    spec_block_to_chunk, spec_block_to_local, BlockCoord, ChunkCoord, IVec3, LocalCoord,
};
use crate::coord_map::CoordMap;

verus! {

/// Generation state of one chunk that is not final yet.
pub struct UnfinishedChunkData {
    /// Voxels produced by the chunk's own terrain pass.
    pub data: ChunkData,
    /// Writes placed by structures, in the order they were made.
    pub block_list: Vec<(LocalCoord, Block)>,
    /// The chunk's own terrain pass has begun.
    pub started: bool,
    /// The chunk's own terrain pass is done.
    pub finished: bool,
}

/// Pending generation state, by chunk.
pub type PendingTable = CoordMap<UnfinishedChunkData>;

pub open spec fn entry_wf(e: UnfinishedChunkData) -> bool {
    &&& data_wf(e.data)
    &&& forall|i: int| 0 <= i < e.block_list@.len() ==> local_in_range(#[trigger] e.block_list@[i].0)
}

pub open spec fn table_wf(t: PendingTable) -> bool {
    &&& t.wf()
    &&& forall|c: ChunkCoord| t@.contains_key(c) ==> entry_wf(#[trigger] t@[c])
}

/// No terrain pass is half done: every started entry is finished.
pub open spec fn settled(m: Map<ChunkCoord, UnfinishedChunkData>) -> bool {
    forall|c: ChunkCoord| m.contains_key(c) && (#[trigger] m[c]).started ==> m[c].finished
}

/// `new` differs from `old` only by added structure writes: every entry
/// keeps its voxels and flags and gains writes at the end of its list, and
/// every new entry holds writes alone.
pub open spec fn extends(
    old: Map<ChunkCoord, UnfinishedChunkData>,
    new: Map<ChunkCoord, UnfinishedChunkData>,
) -> bool {
    &&& forall|c: ChunkCoord|
        #[trigger] old.contains_key(c) ==> {
            &&& new.contains_key(c)
            &&& new[c].data == old[c].data
            &&& new[c].started == old[c].started
            &&& new[c].finished == old[c].finished
            &&& old[c].block_list@.is_prefix_of(new[c].block_list@)
        }
    &&& forall|c: ChunkCoord|
        #[trigger] new.contains_key(c) && !old.contains_key(c) ==> {
            &&& new[c].data.is_none()
            &&& !new[c].started
            &&& !new[c].finished
        }
}

pub proof fn lemma_extends_refl(m: Map<ChunkCoord, UnfinishedChunkData>)
    ensures
        extends(m, m),
{
    assert forall|c: ChunkCoord| #[trigger] m.contains_key(c) implies m[c].block_list@.is_prefix_of(
        m[c].block_list@,
    ) by {
        assert(m[c].block_list@ =~= m[c].block_list@.subrange(0, m[c].block_list@.len() as int));
    }
}

pub proof fn lemma_extends_trans(
    a: Map<ChunkCoord, UnfinishedChunkData>,
    b: Map<ChunkCoord, UnfinishedChunkData>,
    c: Map<ChunkCoord, UnfinishedChunkData>,
)
    requires
        extends(a, b),
        extends(b, c),
    ensures
        extends(a, c),
{
    assert forall|k: ChunkCoord| #[trigger] a.contains_key(k) implies a[k].block_list@.is_prefix_of(
        c[k].block_list@,
    ) by {
        assert(b.contains_key(k));
        let x = a[k].block_list@;
        let y = b[k].block_list@;
        let z = c[k].block_list@;
        assert(x =~= z.subrange(0, x.len() as int)) by {
            assert forall|i: int| 0 <= i < x.len() implies x[i] == z[i] by {
                assert(x[i] == y[i]);
                assert(y[i] == z[i]);
            }
        }
    }
    assert forall|k: ChunkCoord| #[trigger] c.contains_key(k) && !a.contains_key(k) implies {
        &&& c[k].data.is_none()
        &&& !c[k].started
        &&& !c[k].finished
    } by {
        if b.contains_key(k) {
            assert(b[k].data.is_none());
        }
    }
}

/// The list of structure writes for `c` before a new one is added.
pub open spec fn writes_of(m: Map<ChunkCoord, UnfinishedChunkData>, c: ChunkCoord) -> Seq<
    (LocalCoord, Block),
> {
    if m.contains_key(c) {
        m[c].block_list@
    } else {
        Seq::empty()
    }
}

/// Records a structure's block at world voxel `coord` in the pending entry
/// of the chunk that owns it, creating that entry when it is absent,
/// whether or not that chunk's terrain pass has run.
pub fn set_block_in_neighborhood(coord: BlockCoord, block: Block, in_progress: &mut PendingTable)
    requires
        table_wf(*old(in_progress)),
    ensures
        table_wf(*final(in_progress)),
        extends(old(in_progress)@, final(in_progress)@),
        ({
            let cc = spec_block_to_chunk(coord);
            &&& final(in_progress)@.dom() == old(in_progress)@.dom().insert(cc)
            &&& final(in_progress)@[cc].block_list@ == writes_of(old(in_progress)@, cc).push(
                (spec_block_to_local(coord), block),
            )
            &&& forall|c: ChunkCoord|
                c != cc && #[trigger] old(in_progress)@.contains_key(c) ==> final(in_progress)@[c]
                    == old(in_progress)@[c]
        }),
{
    let chunk_coord = block_to_chunk_coord(&coord);
    let local = block_to_chunk_local_coord(&coord);
    let ghost before = in_progress@;
    let entry = match in_progress.remove(&chunk_coord) {
        Some(mut e) => {
            e.block_list.push((local, block));
            e
        },
        None => {
            let mut list: Vec<(LocalCoord, Block)> = Vec::new();
            list.push((local, block));
            UnfinishedChunkData { data: None, block_list: list, started: false, finished: false }
        },
    };
    proof {
        assert(entry.block_list@ == writes_of(before, chunk_coord).push((local, block)));
        assert(entry_wf(entry));
    }
    in_progress.insert(chunk_coord, entry);
    proof {
        assert(in_progress@ == before.insert(chunk_coord, entry));
        assert(in_progress@.dom() =~= before.dom().insert(chunk_coord));
        if before.contains_key(chunk_coord) {
            let x = before[chunk_coord].block_list@;
            assert(x =~= entry.block_list@.subrange(0, x.len() as int));
        }
        assert forall|c: ChunkCoord| #[trigger]
            in_progress@.contains_key(c) implies entry_wf(in_progress@[c]) by {
            if c != chunk_coord {
                assert(before.contains_key(c));
            }
        }
        assert forall|c: ChunkCoord| #[trigger] before.contains_key(c) implies before[c].block_list@.is_prefix_of(
            in_progress@[c].block_list@,
        ) by {
            if c != chunk_coord {
                assert(before[c].block_list@ =~= before[c].block_list@.subrange(
                    0,
                    before[c].block_list@.len() as int,
                ));
            }
        }
    }
}

/// The world voxel at local position `l` of chunk `c`.
pub open spec fn world_of(c: ChunkCoord, l: LocalCoord) -> BlockCoord {
    IVec3 {
        x: (c.x * 32 + l.0) as i32,
        y: (c.y * 32 + l.1) as i32,
        z: (c.z * 32 + l.2) as i32,
    }
}

pub proof fn lemma_world_of(v: BlockCoord)
    ensures
        world_of(spec_block_to_chunk(v), spec_block_to_local(v)) == v,
{
    lemma_decompose(v.x as int);
    lemma_decompose(v.y as int);
    lemma_decompose(v.z as int);
}

/// Write `i` of the list of chunk `c` in `new` was added after `old`.
pub open spec fn added_write(
    old: Map<ChunkCoord, UnfinishedChunkData>,
    new: Map<ChunkCoord, UnfinishedChunkData>,
    c: ChunkCoord,
    i: int,
) -> bool {
    &&& new.contains_key(c)
    &&& writes_of(old, c).len() <= i < new[c].block_list@.len()
}

/// The world voxel and block of write `i` of chunk `c` in `m`.
pub open spec fn write_at(m: Map<ChunkCoord, UnfinishedChunkData>, c: ChunkCoord, i: int) -> (
    BlockCoord,
    Block,
) {
    (world_of(c, m[c].block_list@[i].0), m[c].block_list@[i].1)
}

/// A write of `p.1` at world voxel `p.0` was added after `old`.
pub open spec fn recorded(
    old: Map<ChunkCoord, UnfinishedChunkData>,
    new: Map<ChunkCoord, UnfinishedChunkData>,
    p: (BlockCoord, Block),
) -> bool {
    exists|c: ChunkCoord, i: int| #[trigger] added_write(old, new, c, i) && write_at(new, c, i) == p
}

/// Every list of `old` stands, as a prefix, in `new`.
pub open spec fn lists_grow(
    old: Map<ChunkCoord, UnfinishedChunkData>,
    new: Map<ChunkCoord, UnfinishedChunkData>,
) -> bool {
    forall|c: ChunkCoord| #[trigger]
        old.contains_key(c) ==> new.contains_key(c) && old[c].block_list@.is_prefix_of(
            new[c].block_list@,
        )
}

pub proof fn lemma_extends_lists_grow(
    a: Map<ChunkCoord, UnfinishedChunkData>,
    b: Map<ChunkCoord, UnfinishedChunkData>,
)
    requires
        extends(a, b),
    ensures
        lists_grow(a, b),
{
}

/// A write added between `t0` and `t2` was added between `t0` and `t1`,
/// where it stands unchanged in `t2`, or between `t1` and `t2`.
pub proof fn lemma_added_split(
    t0: Map<ChunkCoord, UnfinishedChunkData>,
    t1: Map<ChunkCoord, UnfinishedChunkData>,
    t2: Map<ChunkCoord, UnfinishedChunkData>,
    c: ChunkCoord,
    i: int,
)
    requires
        lists_grow(t0, t1),
        lists_grow(t1, t2),
        added_write(t0, t2, c, i),
    ensures
        (added_write(t0, t1, c, i) && write_at(t2, c, i) == write_at(t1, c, i)) || added_write(
            t1,
            t2,
            c,
            i,
        ),
{
    if t1.contains_key(c) && i < t1[c].block_list@.len() {
        assert(t1[c].block_list@ == t2[c].block_list@.subrange(0, t1[c].block_list@.len() as int));
        assert(t2[c].block_list@[i] == t1[c].block_list@[i]);
        if t0.contains_key(c) {
            assert(t0[c].block_list@.len() <= t1[c].block_list@.len());
        }
    }
}

/// A recorded write stays recorded as the table grows.
pub proof fn lemma_recorded_extends(
    t0: Map<ChunkCoord, UnfinishedChunkData>,
    t1: Map<ChunkCoord, UnfinishedChunkData>,
    t2: Map<ChunkCoord, UnfinishedChunkData>,
    p: (BlockCoord, Block),
)
    requires
        lists_grow(t1, t2),
        recorded(t0, t1, p),
    ensures
        recorded(t0, t2, p),
{
    let (c, i) = choose|c: ChunkCoord, i: int| #[trigger] added_write(t0, t1, c, i) && write_at(t1, c, i) == p;
    assert(t1.contains_key(c));
    assert(t1[c].block_list@ == t2[c].block_list@.subrange(0, t1[c].block_list@.len() as int));
    assert(t2[c].block_list@[i] == t1[c].block_list@[i]);
    assert(added_write(t0, t2, c, i));
}

/// A write recorded after `t1` is recorded after any earlier `t0`.
pub proof fn lemma_recorded_earlier(
    t0: Map<ChunkCoord, UnfinishedChunkData>,
    t1: Map<ChunkCoord, UnfinishedChunkData>,
    t2: Map<ChunkCoord, UnfinishedChunkData>,
    p: (BlockCoord, Block),
)
    requires
        lists_grow(t0, t1),
        recorded(t1, t2, p),
    ensures
        recorded(t0, t2, p),
{
    let (c, i) = choose|c: ChunkCoord, i: int| #[trigger] added_write(t1, t2, c, i) && write_at(t2, c, i) == p;
    if t0.contains_key(c) {
        assert(t1.contains_key(c));
    }
    assert(added_write(t0, t2, c, i));
}

/// `a` and `b` hold the same list of writes for every chunk.
pub open spec fn same_writes(
    a: Map<ChunkCoord, UnfinishedChunkData>,
    b: Map<ChunkCoord, UnfinishedChunkData>,
) -> bool {
    forall|c: ChunkCoord| #[trigger] writes_of(a, c) == writes_of(b, c)
}

/// Tables with the same writes have the same added and recorded writes.
pub proof fn lemma_same_writes(
    a: Map<ChunkCoord, UnfinishedChunkData>,
    b: Map<ChunkCoord, UnfinishedChunkData>,
    x: Map<ChunkCoord, UnfinishedChunkData>,
    y: Map<ChunkCoord, UnfinishedChunkData>,
)
    requires
        same_writes(a, b),
        x.dom() == y.dom(),
        forall|c: ChunkCoord| #[trigger] x.contains_key(c) ==> x[c].block_list@ == y[c].block_list@,
    ensures
        forall|c: ChunkCoord, i: int| #[trigger] added_write(a, x, c, i) ==> added_write(b, y, c, i) && write_at(x, c, i) == write_at(y, c, i),
        forall|c: ChunkCoord, i: int| #[trigger] added_write(b, y, c, i) ==> added_write(a, x, c, i) && write_at(x, c, i) == write_at(y, c, i),
        forall|p: (BlockCoord, Block)| #[trigger] recorded(a, x, p) ==> recorded(b, y, p),
{
    assert forall|c: ChunkCoord, i: int| #[trigger] added_write(a, x, c, i) implies added_write(b, y, c, i) && write_at(x, c, i) == write_at(y, c, i) by {
        assert(writes_of(a, c) == writes_of(b, c));
        assert(y.contains_key(c));
    }
    assert forall|c: ChunkCoord, i: int| #[trigger] added_write(b, y, c, i) implies added_write(a, x, c, i) && write_at(x, c, i) == write_at(y, c, i) by {
        assert(writes_of(a, c) == writes_of(b, c));
        assert(x.contains_key(c));
    }
    assert forall|p: (BlockCoord, Block)| #[trigger] recorded(a, x, p) implies recorded(b, y, p) by {
        let (c, i) = choose|c: ChunkCoord, i: int| #[trigger] added_write(a, x, c, i) && write_at(x, c, i) == p;
        assert(writes_of(a, c) == writes_of(b, c));
        assert(added_write(b, y, c, i));
    }
}

/// The writes of `ws` that land in chunk `c`, at their local positions,
/// in order.
pub open spec fn writes_for(ws: Seq<(BlockCoord, Block)>, c: ChunkCoord) -> Seq<(LocalCoord, Block)>
    decreases ws.len(),
{
    if ws.len() == 0 {
        Seq::empty()
    } else {
        let prev = writes_for(ws.drop_last(), c);
        let w = ws.last();
        if spec_block_to_chunk(w.0) == c {
            prev.push((spec_block_to_local(w.0), w.1))
        } else {
            prev
        }
    }
}

pub proof fn lemma_writes_for_concat(
    a: Seq<(BlockCoord, Block)>,
    b: Seq<(BlockCoord, Block)>,
    c: ChunkCoord,
)
    ensures
        writes_for(a + b, c) == writes_for(a, c) + writes_for(b, c),
    decreases b.len(),
{
    if b.len() == 0 {
        assert(a + b =~= a);
        assert(writes_for(a, c) + writes_for(b, c) =~= writes_for(a, c));
    } else {
        lemma_writes_for_concat(a, b.drop_last(), c);
        assert((a + b).drop_last() =~= a + b.drop_last());
        assert((a + b).last() == b.last());
        let w = b.last();
        if spec_block_to_chunk(w.0) == c {
            assert(writes_for(a, c) + writes_for(b, c) =~= (writes_for(a, c) + writes_for(
                b.drop_last(),
                c,
            )).push((spec_block_to_local(w.0), w.1)));
        }
    }
}

/// `new` holds the lists of `old` with the writes of `ws` appended chunk by
/// chunk, and an entry exactly where `old` has one or `ws` writes.
pub open spec fn appended(
    old: Map<ChunkCoord, UnfinishedChunkData>,
    new: Map<ChunkCoord, UnfinishedChunkData>,
    ws: Seq<(BlockCoord, Block)>,
) -> bool {
    &&& forall|c: ChunkCoord| #[trigger] writes_of(new, c) == writes_of(old, c) + writes_for(ws, c)
    &&& forall|c: ChunkCoord| #[trigger]
        new.contains_key(c) <==> (old.contains_key(c) || writes_for(ws, c).len() > 0)
}

pub proof fn lemma_appended_empty(m: Map<ChunkCoord, UnfinishedChunkData>)
    ensures
        appended(m, m, Seq::empty()),
{
    assert forall|c: ChunkCoord| #[trigger] writes_of(m, c) == writes_of(m, c) + writes_for(Seq::<(BlockCoord, Block)>::empty(), c) by {
        assert(writes_of(m, c) + writes_for(Seq::<(BlockCoord, Block)>::empty(), c) =~= writes_of(m, c));
    }
}

pub proof fn lemma_appended_trans(
    a: Map<ChunkCoord, UnfinishedChunkData>,
    b: Map<ChunkCoord, UnfinishedChunkData>,
    c: Map<ChunkCoord, UnfinishedChunkData>,
    ws1: Seq<(BlockCoord, Block)>,
    ws2: Seq<(BlockCoord, Block)>,
)
    requires
        appended(a, b, ws1),
        appended(b, c, ws2),
    ensures
        appended(a, c, ws1 + ws2),
{
    assert forall|k: ChunkCoord| #[trigger] writes_of(c, k) == writes_of(a, k) + writes_for(ws1 + ws2, k) by {
        lemma_writes_for_concat(ws1, ws2, k);
        assert(writes_of(b, k) == writes_of(a, k) + writes_for(ws1, k));
        assert(writes_of(c, k) == writes_of(b, k) + writes_for(ws2, k));
        assert(writes_of(a, k) + writes_for(ws1 + ws2, k) =~= writes_of(a, k) + writes_for(ws1, k) + writes_for(ws2, k));
    }
    assert forall|k: ChunkCoord| #[trigger] c.contains_key(k) <==> (a.contains_key(k) || writes_for(ws1 + ws2, k).len() > 0) by {
        lemma_writes_for_concat(ws1, ws2, k);
        assert(b.contains_key(k) <==> (a.contains_key(k) || writes_for(ws1, k).len() > 0));
        assert(c.contains_key(k) <==> (b.contains_key(k) || writes_for(ws2, k).len() > 0));
    }
}

/// Records each placement, in order, as a structure write.
pub fn place_all(placements: &Vec<(BlockCoord, Block)>, in_progress: &mut PendingTable)
    requires
        table_wf(*old(in_progress)),
    ensures
        table_wf(*final(in_progress)),
        extends(old(in_progress)@, final(in_progress)@),
        forall|c: ChunkCoord, i: int| #[trigger]
            added_write(old(in_progress)@, final(in_progress)@, c, i) ==> placements@.contains(
                write_at(final(in_progress)@, c, i),
            ),
        forall|k: int|
            0 <= k < placements@.len() ==> recorded(
                old(in_progress)@,
                final(in_progress)@,
                #[trigger] placements@[k],
            ),
        appended(old(in_progress)@, final(in_progress)@, placements@),
{
    let ghost t0 = in_progress@;
    proof {
        lemma_extends_refl(t0);
        lemma_appended_empty(t0);
        assert(placements@.subrange(0, 0) =~= Seq::<(BlockCoord, Block)>::empty());
    }
    let mut k: usize = 0;
    while k < placements.len()
        invariant
            k <= placements@.len(),
            table_wf(*in_progress),
            extends(t0, in_progress@),
            forall|c: ChunkCoord, i: int| #[trigger]
                added_write(t0, in_progress@, c, i) ==> placements@.subrange(0, k as int).contains(
                    write_at(in_progress@, c, i),
                ),
            forall|j: int| 0 <= j < k ==> recorded(t0, in_progress@, #[trigger] placements@[j]),
            appended(t0, in_progress@, placements@.subrange(0, k as int)),
        decreases placements@.len() - k,
    {
        let (v, block) = placements[k];
        let ghost t1 = in_progress@;
        let ghost cc = spec_block_to_chunk(v);
        let ghost len1 = writes_of(t1, cc).len() as int;
        set_block_in_neighborhood(v, block, in_progress);
        proof {
            let t2 = in_progress@;
            lemma_extends_trans(t0, t1, t2);
            lemma_world_of(v);
            let pre = placements@.subrange(0, k as int);
            let pre1 = placements@.subrange(0, k + 1);
            assert(pre1 =~= pre.push(placements@[k as int]));
            assert(pre1.drop_last() =~= pre);
            assert(pre1.last() == (v, block));
            assert forall|c: ChunkCoord| #[trigger] writes_of(t2, c) == writes_of(t0, c) + writes_for(pre1, c) by {
                assert(writes_of(t1, c) == writes_of(t0, c) + writes_for(pre, c));
                if c == cc {
                    assert(writes_of(t2, c) == writes_of(t1, c).push((spec_block_to_local(v), block)));
                    assert(writes_of(t0, c) + writes_for(pre1, c) =~= (writes_of(t0, c) + writes_for(pre, c)).push((spec_block_to_local(v), block)));
                } else {
                    if t1.contains_key(c) {
                        assert(t2[c] == t1[c]);
                    }
                    assert(t2.contains_key(c) == t1.contains_key(c));
                }
            }
            assert forall|c: ChunkCoord| #[trigger] t2.contains_key(c) <==> (t0.contains_key(c) || writes_for(pre1, c).len() > 0) by {
                assert(t1.contains_key(c) <==> (t0.contains_key(c) || writes_for(pre, c).len() > 0));
                assert(t2.dom() == t1.dom().insert(cc));
            }
            assert(t2.contains_key(cc));
            assert(write_at(t2, cc, len1) == placements@[k as int]);
            assert forall|c: ChunkCoord, i: int| #[trigger]
                added_write(t0, t2, c, i) implies pre1.contains(write_at(t2, c, i)) by {
                if c == cc && i == len1 {
                    assert(pre1[k as int] == placements@[k as int]);
                } else {
                    if c != cc {
                        assert(t1.contains_key(c));
                        assert(t2[c] == t1[c]);
                    } else {
                        assert(t2[c].block_list@[i] == t1[c].block_list@[i]);
                    }
                    assert(added_write(t0, t1, c, i));
                    let w = write_at(t1, c, i);
                    assert(pre.contains(w));
                    let j = choose|j: int| 0 <= j < pre.len() && pre[j] == w;
                    assert(pre1[j] == w);
                }
            }
            assert forall|j: int| 0 <= j < k + 1 implies recorded(t0, t2, #[trigger] placements@[j]) by {
                if j == k {
                    assert(added_write(t0, t2, cc, len1));
                } else {
                    assert(recorded(t0, t1, placements@[j]));
                    let (c, i) = choose|c: ChunkCoord, i: int|
                        #[trigger] added_write(t0, t1, c, i) && write_at(t1, c, i) == placements@[j];
                    if c != cc {
                        assert(t2[c] == t1[c]);
                    } else {
                        assert(t2[c].block_list@[i] == t1[c].block_list@[i]);
                    }
                    assert(added_write(t0, t2, c, i));
                }
            }
        }
        k += 1;
    }
    proof {
        assert(placements@.subrange(0, placements@.len() as int) =~= placements@);
    }
}

/// The block at `l` once `writes` are applied in order over `base`: the
/// last write to `l`, or `base` where there is none.
pub open spec fn last_write(writes: Seq<(LocalCoord, Block)>, l: LocalCoord, base: Block) -> Block
    decreases writes.len(),
{
    if writes.len() == 0 {
        base
    } else if writes.last().0 == l {
        writes.last().1
    } else {
        last_write(writes.drop_last(), l, base)
    }
}

/// The final block at `l` of a pending entry.
pub open spec fn folded_block(e: UnfinishedChunkData, l: LocalCoord) -> Block {
    last_write(e.block_list@, l, data_block(e.data, l))
}

/// Applies a finished entry's structure writes over its own voxels and
/// makes the chunk; an entry with no voxels and no writes gives an empty
/// chunk.
pub fn finish_chunk(coord: ChunkCoord, entry: UnfinishedChunkData) -> (r: Chunk)
    requires
        entry_wf(entry),
    ensures
        r.wf(),
        r.spec_coord() == coord,
        r.spec_data().is_none() == (entry.data.is_none() && entry.block_list@.len() == 0),
        r.spec_needs_update() == r.spec_data().is_some(),
        forall|l: LocalCoord| local_in_range(l) ==> #[trigger] r.block_at(l) == folded_block(entry, l),
{
    let UnfinishedChunkData { data, block_list, started: _, finished: _ } = entry;
    let mut chunk_data = data;
    let ghost writes = block_list@;
    let mut i: usize = 0;
    while i < block_list.len()
        invariant
            i <= writes.len(),
            writes == block_list@,
            writes == entry.block_list@,
            entry_wf(entry),
            data_wf(chunk_data),
            i > 0 ==> chunk_data.is_some(),
            i == 0 ==> chunk_data == entry.data,
            forall|l: LocalCoord|
                local_in_range(l) ==> #[trigger] data_block(chunk_data, l) == last_write(
                    writes.subrange(0, i as int),
                    l,
                    data_block(entry.data, l),
                ),
        decreases writes.len() - i,
    {
        let (local, block) = block_list[i];
        assert(local_in_range(writes[i as int].0));
        let ghost prev = chunk_data;
        set_block_in_chunk(&mut chunk_data, local, block);
        proof {
            assert forall|l: LocalCoord| local_in_range(l) implies #[trigger] data_block(
                chunk_data,
                l,
            ) == last_write(writes.subrange(0, i + 1), l, data_block(entry.data, l)) by {
                assert(writes.subrange(0, i + 1).drop_last() =~= writes.subrange(0, i as int));
            }
        }
        i += 1;
    }
    assert(writes.subrange(0, writes.len() as int) =~= writes);
    match chunk_data {
        Some(d) => Chunk::from_data(coord, d),
        None => Chunk::empty(coord),
    }
}

/// A structure write survives finishing when no later write in the list
/// targets the same voxel.
pub proof fn lemma_last_write_survives(
    writes: Seq<(LocalCoord, Block)>,
    i: int,
    base: Block,
)
    requires
        0 <= i < writes.len(),
        forall|j: int| i < j < writes.len() ==> (#[trigger] writes[j]).0 != writes[i].0,
    ensures
        last_write(writes, writes[i].0, base) == writes[i].1,
    decreases writes.len(),
{
    if i < writes.len() - 1 {
        assert(writes.last() == writes[writes.len() - 1]);
        let w = writes.drop_last();
        assert forall|j: int| i < j < w.len() implies (#[trigger] w[j]).0 != w[i].0 by {
            assert(w[j] == writes[j]);
        }
        lemma_last_write_survives(w, i, base);
    }
}

/// A structure's block recorded for a chunk before that chunk is
/// generated lands in the finished chunk at its local position, unless a
/// later write in the same list targets that voxel: `old` is the table when
/// the block was recorded, `mid` the table when the chunk was finished
/// (whose list for `c` extends the old one), and `chunk` the result.
pub proof fn lemma_overflow_lands(
    old: Map<ChunkCoord, UnfinishedChunkData>,
    mid: Map<ChunkCoord, UnfinishedChunkData>,
    c: ChunkCoord,
    i: int,
    chunk: Chunk,
)
    requires
        old.contains_key(c),
        mid.contains_key(c),
        entry_wf(mid[c]),
        old[c].block_list@.is_prefix_of(mid[c].block_list@),
        0 <= i < old[c].block_list@.len(),
        forall|j: int|
            i < j < mid[c].block_list@.len() ==> (#[trigger] mid[c].block_list@[j]).0
                != old[c].block_list@[i].0,
        forall|l: LocalCoord| local_in_range(l) ==> #[trigger] chunk.block_at(l) == folded_block(mid[c], l),
    ensures
        chunk.block_at(old[c].block_list@[i].0) == old[c].block_list@[i].1,
{
    let w = mid[c].block_list@;
    assert(w[i] == old[c].block_list@[i]);
    assert(local_in_range(w[i].0));
    lemma_last_write_survives(w, i, data_block(mid[c].data, w[i].0));
}

} // verus!
