//! Which chunks should exist, be meshed, or be dropped around an observer.
use vstd::prelude::*;
use crate::coord::{
    block_to_chunk_coord, chunk_in_range, spec_block_to_chunk, spec_world_origin, to_world_coord,
    BlockCoord, ChunkCoord, IVec3,
};

verus! {

/// Largest scan radius, in chunks; the cube of side `2 * radius` must be
/// listed in memory.
pub const MAX_RANGE: u32 = 1024;

pub open spec fn abs(v: int) -> int {
    if v < 0 {
        -v
    } else {
        v
    }
}

/// Chebyshev distance between two chunk coordinates.
pub open spec fn chebyshev(a: ChunkCoord, b: ChunkCoord) -> int {
    let dx = abs(a.x - b.x);
    let dy = abs(a.y - b.y);
    let dz = abs(a.z - b.z);
    if dx >= dy && dx >= dz {
        dx
    } else if dy >= dz {
        dy
    } else {
        dz
    }
}

/// Squared Euclidean distance between two points of voxel space.
pub open spec fn dist2(a: (int, int, int), b: (int, int, int)) -> int {
    (a.0 - b.0) * (a.0 - b.0) + (a.1 - b.1) * (a.1 - b.1) + (a.2 - b.2) * (a.2 - b.2)
}

/// The half-open cube `[c - r, c + r)` on each axis around chunk `c`.
pub open spec fn in_scan_cube(c: ChunkCoord, r: int, p: ChunkCoord) -> bool {
    &&& c.x - r <= p.x < c.x + r
    &&& c.y - r <= p.y < c.y + r
    &&& c.z - r <= p.z < c.z + r
}

/// An observer's position and the radius, in chunks, kept around it.
pub struct ChunkScanner {
    range: u32,
    center: BlockCoord,
}

impl ChunkScanner {
    pub closed spec fn spec_range(&self) -> nat {
        self.range as nat
    }

    /// The observer's position in whole voxels.
    pub closed spec fn spec_center(&self) -> BlockCoord {
        self.center
    }

    /// The chunk the observer stands in.
    pub open spec fn center_chunk(&self) -> ChunkCoord {
        spec_block_to_chunk(self.spec_center())
    }

    /// Whether a loaded chunk at `pos` is to be dropped.
    pub open spec fn spec_unloads(&self, pos: ChunkCoord) -> bool {
        chebyshev(self.center_chunk(), pos) > self.spec_range() + 1
    }

    /// Whether a pending entry at `pos` is to be dropped.
    pub open spec fn spec_unloads_unfinished(&self, pos: ChunkCoord) -> bool {
        chebyshev(self.center_chunk(), pos) > self.spec_range() + 3
    }

    /// Whether the chunk at `pos` is to have a mesh.
    pub open spec fn spec_loads_mesh(&self, pos: ChunkCoord) -> bool {
        dist2(
            spec_world_origin(pos),
            (self.spec_center().x as int, self.spec_center().y as int, self.spec_center().z as int),
        ) <= (self.spec_range() * 32) * (self.spec_range() * 32)
    }

    /// A scanner of radius `range` at the origin corner of chunk `center`.
    pub fn new(range: u32, center: ChunkCoord) -> (r: ChunkScanner)
        requires
            chunk_in_range(center),
        ensures
            r.spec_range() == range,
            (r.spec_center().x as int, r.spec_center().y as int, r.spec_center().z as int)
                == spec_world_origin(center),
    {
        ChunkScanner { range, center: to_world_coord(&center) }
    }

    /// Moves the observer.
    pub fn update(&mut self, pos: BlockCoord)
        ensures
            final(self).spec_center() == pos,
            final(self).spec_range() == old(self).spec_range(),
    {
        self.center = pos;
    }

    /// Whether a loaded chunk lies beyond the kept cube plus one chunk of
    /// slack.
    pub fn should_unload_chunk(&self, pos: &ChunkCoord) -> (r: bool)
        ensures
            r == (chebyshev(self.center_chunk(), *pos) > self.spec_range() + 1),
            r == self.spec_unloads(*pos),
    {
        let center = block_to_chunk_coord(&self.center);
        let limit: i64 = self.range as i64 + 1;
        abs_diff(center.x, pos.x) > limit || abs_diff(center.y, pos.y) > limit || abs_diff(
            center.z,
            pos.z,
        ) > limit
    }

    /// Whether a chunk whose generation is under way lies beyond the kept
    /// cube plus three chunks of slack.
    pub fn should_unload_unfinished_chunk(&self, pos: &ChunkCoord) -> (r: bool)
        ensures
            r == (chebyshev(self.center_chunk(), *pos) > self.spec_range() + 3),
            r == self.spec_unloads_unfinished(*pos),
    {
        let center = block_to_chunk_coord(&self.center);
        let limit: i64 = self.range as i64 + 3;
        abs_diff(center.x, pos.x) > limit || abs_diff(center.y, pos.y) > limit || abs_diff(
            center.z,
            pos.z,
        ) > limit
    }

    /// Whether a chunk's origin lies within the mesh sphere of radius
    /// `range * CHUNK_SIZE` voxels around the observer.
    pub fn should_load_mesh(&self, pos: &ChunkCoord) -> (r: bool)
        ensures
            r == (dist2(
                spec_world_origin(*pos),
                (self.spec_center().x as int, self.spec_center().y as int, self.spec_center().z as int),
            ) <= (self.spec_range() * 32) * (self.spec_range() * 32)),
            r == self.spec_loads_mesh(*pos),
    {
        let dx = square(pos.x as i128 * 32 - self.center.x as i128);
        let dy = square(pos.y as i128 * 32 - self.center.y as i128);
        let dz = square(pos.z as i128 * 32 - self.center.z as i128);
        let radius = square(self.range as i128 * 32);
        dx + dy + dz <= radius
    }

    /// The observer's position in whole voxels.
    pub fn get_center(&self) -> (r: BlockCoord)
        ensures
            r == self.spec_center(),
    {
        self.center
    }

    pub fn range(&self) -> (r: u32)
        ensures
            r == self.spec_range(),
    {
        self.range
    }

    /// Every chunk of the cube of side `2 * range` around the observer's
    /// chunk, once each.
    pub fn iterate(&self) -> (r: Vec<ChunkCoord>)
        requires
            self.spec_range() <= MAX_RANGE,
        ensures
            forall|i: int|
                0 <= i < r@.len() ==> in_scan_cube(
                    self.center_chunk(),
                    self.spec_range() as int,
                    #[trigger] r@[i],
                ),
            forall|p: ChunkCoord|
                in_scan_cube(self.center_chunk(), self.spec_range() as int, p) ==> r@.contains(p),
            r@.no_duplicates(),
    {
        let center = block_to_chunk_coord(&self.center);
        let from: i32 = -(self.range as i32);
        let to: i32 = self.range as i32;
        let ghost r = self.spec_range() as int;
        let ghost cc = center;
        let mut out: Vec<ChunkCoord> = Vec::new();
        let mut x: i32 = from;
        while x < to
            invariant
                cc == self.center_chunk(),
                cc == center,
                chunk_in_range(center),
                r == self.spec_range() as int,
                r <= MAX_RANGE,
                from == -r,
                to == r,
                from <= x <= to || (from == to && x == from),
                forall|i: int|
                    0 <= i < out@.len() ==> in_scan_cube(cc, r, #[trigger] out@[i]) && out@[i].x
                        < cc.x + x,
                forall|p: ChunkCoord|
                    in_scan_cube(cc, r, p) && p.x < cc.x + x ==> out@.contains(p),
                out@.no_duplicates(),
            decreases to - x,
        {
            let mut y: i32 = from;
            while y < to
                invariant
                    cc == center,
                    chunk_in_range(center),
                    from == -r,
                    to == r,
                    r <= MAX_RANGE,
                    from <= x < to,
                    from <= y <= to,
                    forall|i: int|
                        0 <= i < out@.len() ==> in_scan_cube(cc, r, #[trigger] out@[i]) && (
                        out@[i].x < cc.x + x || (out@[i].x == cc.x + x && out@[i].y < cc.y + y)),
                    forall|p: ChunkCoord|
                        in_scan_cube(cc, r, p) && (p.x < cc.x + x || (p.x == cc.x + x && p.y < cc.y
                            + y)) ==> out@.contains(p),
                    out@.no_duplicates(),
                decreases to - y,
            {
                let mut z: i32 = from;
                while z < to
                    invariant
                        cc == center,
                        chunk_in_range(center),
                        from == -r,
                        to == r,
                        r <= MAX_RANGE,
                        from <= x < to,
                        from <= y < to,
                        from <= z <= to,
                        forall|i: int|
                            0 <= i < out@.len() ==> in_scan_cube(cc, r, #[trigger] out@[i]) && (
                            out@[i].x < cc.x + x || (out@[i].x == cc.x + x && (out@[i].y < cc.y + y
                                || (out@[i].y == cc.y + y && out@[i].z < cc.z + z)))),
                        forall|p: ChunkCoord|
                            in_scan_cube(cc, r, p) && (p.x < cc.x + x || (p.x == cc.x + x && (p.y
                                < cc.y + y || (p.y == cc.y + y && p.z < cc.z + z)))) ==> out@.contains(p),
                        out@.no_duplicates(),
                    decreases to - z,
                {
                    let p = IVec3 { x: center.x + x, y: center.y + y, z: center.z + z };
                    proof {
                        assert(!out@.contains(p)) by {
                            if out@.contains(p) {
                                let i = choose|i: int| 0 <= i < out@.len() && out@[i] == p;
                                assert(in_scan_cube(cc, r, out@[i]));
                            }
                        }
                    }
                    let ghost prev = out@;
                    out.push(p);
                    proof {
                        assert forall|q: ChunkCoord|
                            in_scan_cube(cc, r, q) && (q.x < cc.x + x || (q.x == cc.x + x && (q.y
                                < cc.y + y || (q.y == cc.y + y && q.z < cc.z + z + 1)))) implies out@.contains(q) by {
                            if q == p {
                                assert(out@[prev.len() as int] == p);
                            } else {
                                assert(prev.contains(q));
                                let i = choose|i: int| 0 <= i < prev.len() && prev[i] == q;
                                assert(out@[i] == q);
                            }
                        }
                        assert forall|i: int, j: int|
                            0 <= i < out@.len() && 0 <= j < out@.len() && i != j implies out@[i]
                            != out@[j] by {
                            if i < prev.len() && j < prev.len() {
                                assert(prev[i] != prev[j]);
                            } else if i < prev.len() {
                                assert(prev.contains(prev[i]));
                            } else if j < prev.len() {
                                assert(prev.contains(prev[j]));
                            }
                        }
                    }
                    z += 1;
                }
                y += 1;
            }
            x += 1;
        }
        out
    }
}

/// `|a - b|`, widened so that it cannot overflow.
fn abs_diff(a: i32, b: i32) -> (r: i64)
    ensures
        r == abs(a - b),
{
    let d: i64 = a as i64 - b as i64;
    if d < 0 {
        -d
    } else {
        d
    }
}

fn square(v: i128) -> (r: i128)
    requires
        -1099511627776i128 <= v <= 1099511627776i128,
    ensures
        r == v * v,
        0 <= r <= 1099511627776 * 1099511627776,
{
    proof {
        assert(0 <= v * v <= 1099511627776 * 1099511627776) by (nonlinear_arith)
            requires
                -1099511627776 <= v <= 1099511627776,
        ;
    }
    v * v
}

/// One chunk of slack: a chunk exactly `range` away is kept, one
/// `range + 2` away is dropped, yet a pending entry `range + 2` away is
/// kept, since pending work is only dropped beyond `range + 3`.
pub proof fn lemma_hysteresis(s: &ChunkScanner, pos: ChunkCoord)
    ensures
        chebyshev(s.center_chunk(), pos) == s.spec_range() ==> !s.spec_unloads(pos),
        chebyshev(s.center_chunk(), pos) == s.spec_range() + 2 ==> s.spec_unloads(pos)
            && !s.spec_unloads_unfinished(pos),
{
}

/// The corner chunk of the scan cube, `range` chunks below the observer's
/// chunk on every axis, is kept but not meshed: its origin lies outside the
/// mesh sphere when the observer stands at the origin of its own chunk.
pub proof fn lemma_cube_corner_not_meshed(s: &ChunkScanner, center: ChunkCoord)
    requires
        s.spec_range() >= 1,
        s.spec_range() <= MAX_RANGE,
        chunk_in_range(center),
        (s.spec_center().x as int, s.spec_center().y as int, s.spec_center().z as int)
            == spec_world_origin(center),
    ensures
        ({
            let r = s.spec_range() as int;
            let corner = IVec3 {
                x: (center.x - r) as i32,
                y: (center.y - r) as i32,
                z: (center.z - r) as i32,
            };
            &&& s.center_chunk() == center
            &&& in_scan_cube(s.center_chunk(), r, corner)
            &&& !s.spec_unloads(corner)
            &&& !s.spec_loads_mesh(corner)
        }),
{
    let r = s.spec_range() as int;
    vstd::arithmetic::div_mod::lemma_div_multiples_vanish(center.x as int, 32);
    vstd::arithmetic::div_mod::lemma_div_multiples_vanish(center.y as int, 32);
    vstd::arithmetic::div_mod::lemma_div_multiples_vanish(center.z as int, 32);
    assert(s.center_chunk() == center);
    let corner = IVec3 { x: (center.x - r) as i32, y: (center.y - r) as i32, z: (center.z - r) as i32 };
    let d = r * 32;
    assert(spec_world_origin(corner).0 - s.spec_center().x == -d);
    assert(spec_world_origin(corner).1 - s.spec_center().y == -d);
    assert(spec_world_origin(corner).2 - s.spec_center().z == -d);
    assert((-d) * (-d) == d * d) by (nonlinear_arith);
    assert(dist2(
        spec_world_origin(corner),
        (s.spec_center().x as int, s.spec_center().y as int, s.spec_center().z as int),
    ) == 3 * (d * d));
    assert(d * d > 0) by (nonlinear_arith)
        requires
            d >= 32,
    ;
}

} // verus!
