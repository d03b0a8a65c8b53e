//! Face-culling mesh extraction: a face of a solid voxel is drawn exactly
//! when the voxel across it is air, or lies in a neighbour chunk that is
//! not loaded.
use vstd::prelude::*;
use std::collections::HashMap;
use crate::block::Block;
use crate::chunk::{flat_index, Chunk, VoxelArray, CHUNK_VOLUME};
use crate::coord::{local_in_range, LocalCoord};

verus! {

broadcast use vstd::std_specs::hash::group_hash_axioms;

/// Faces per voxel, in the order right (+x), left (-x), bottom (-y),
/// top (+y), front (+z), back (-z).
pub const FACE_COUNT: usize = 6;

/// Every (voxel, face) pair of a chunk: `CHUNK_VOLUME * FACE_COUNT`.
pub const FACE_SLOTS: usize = 196608;

/// Atlas coordinates of the four corners of each of the six faces.
pub type FaceUvs = [[(u32, u32); 4]; 6];

/// Atlas coordinates of every block id that can be drawn.
pub type TextureMapInfo = HashMap<u16, FaceUvs>;

/// Triangle data of one chunk: four vertices and six indices per face.
pub struct MeshData {
    pub positions: Vec<(u32, u32, u32)>,
    pub normals: Vec<(i32, i32, i32)>,
    pub uvs: Vec<(u32, u32)>,
    pub indices: Vec<u32>,
}

/// Outward normal of face `f`, which is also the step to the voxel across it.
pub open spec fn face_normal(f: int) -> (int, int, int) {
    if f == 0 {
        (1, 0, 0)
    } else if f == 1 {
        (-1, 0, 0)
    } else if f == 2 {
        (0, -1, 0)
    } else if f == 3 {
        (0, 1, 0)
    } else if f == 4 {
        (0, 0, 1)
    } else {
        (0, 0, -1)
    }
}

/// Corner `c` of face `f` of the unit cube, wound around the outward normal.
pub open spec fn face_corner(f: int, c: int) -> (int, int, int) {
    if f == 0 {
        if c == 0 { (1, 0, 0) } else if c == 1 { (1, 1, 0) } else if c == 2 { (1, 1, 1) } else { (1, 0, 1) }
    } else if f == 1 {
        if c == 0 { (0, 0, 1) } else if c == 1 { (0, 1, 1) } else if c == 2 { (0, 1, 0) } else { (0, 0, 0) }
    } else if f == 2 {
        if c == 0 { (1, 0, 0) } else if c == 1 { (1, 0, 1) } else if c == 2 { (0, 0, 1) } else { (0, 0, 0) }
    } else if f == 3 {
        if c == 0 { (1, 1, 1) } else if c == 1 { (1, 1, 0) } else if c == 2 { (0, 1, 0) } else { (0, 1, 1) }
    } else if f == 4 {
        if c == 0 { (1, 0, 1) } else if c == 1 { (1, 1, 1) } else if c == 2 { (0, 1, 1) } else { (0, 0, 1) }
    } else {
        if c == 0 { (0, 0, 0) } else if c == 1 { (0, 1, 0) } else if c == 2 { (1, 1, 0) } else { (1, 0, 0) }
    }
}

/// The two triangles of a quad, as corner numbers.
pub open spec fn quad_index(t: int) -> int {
    if t == 0 { 0 } else if t == 1 { 1 } else if t == 2 { 2 } else if t == 3 { 2 } else if t == 4 { 3 } else { 0 }
}

/// The local coordinate of flat cell `n`.
pub open spec fn cell_local(n: int) -> LocalCoord {
    ((n / 1024) as usize, ((n / 32) % 32) as usize, (n % 32) as usize)
}

pub proof fn lemma_cell_local(n: int)
    requires
        0 <= n < CHUNK_VOLUME,
    ensures
        local_in_range(cell_local(n)),
        flat_index(cell_local(n)) == n,
{
    vstd::arithmetic::div_mod::lemma_fundamental_div_mod(n, 32);
    vstd::arithmetic::div_mod::lemma_fundamental_div_mod(n / 32, 32);
    vstd::arithmetic::div_mod::lemma_div_denominator(n, 32, 32);
    vstd::arithmetic::div_mod::lemma_div_pos_is_pos(n, 32);
    assert(n / 32 < 1024) by {
        vstd::arithmetic::div_mod::lemma_div_by_multiple_is_strongly_ordered(n, 32768, 1024, 32);
    }
    vstd::arithmetic::div_mod::lemma_div_pos_is_pos(n / 32, 32);
    assert(n / 1024 < 32) by {
        vstd::arithmetic::div_mod::lemma_div_by_multiple_is_strongly_ordered(n, 32768, 32, 1024);
    }
}

/// Brings a coordinate that is one step outside the chunk back into the
/// neighbouring chunk's range.
pub open spec fn wrap_axis(v: int) -> int {
    if v < 0 {
        v + 32
    } else if v >= 32 {
        v - 32
    } else {
        v
    }
}

pub open spec fn inside_axis(v: int) -> bool {
    0 <= v < 32
}

/// Voxel contents of the six neighbours, by face.
pub open spec fn neighbor_views(neighbors: [Option<&VoxelArray>; 6]) -> Seq<Option<Seq<Block>>> {
    Seq::new(
        6,
        |f: int|
            match neighbors@[f] {
                Some(a) => Some(a@),
                None => None::<Seq<Block>>,
            },
    )
}

pub open spec fn neighbors_wf(neighbors: [Option<&VoxelArray>; 6]) -> bool {
    forall|f: int|
        0 <= f < 6 ==> match #[trigger] neighbors@[f] {
            Some(a) => a.wf(),
            None => true,
        }
}

/// Whether face `f` of the voxel at `l` looks onto air: inside the chunk,
/// the voxel across it; on the border, the facing voxel of the neighbour,
/// with an absent neighbour counting as air.
pub open spec fn face_open(
    data: Seq<Block>,
    nbrs: Seq<Option<Seq<Block>>>,
    l: LocalCoord,
    f: int,
) -> bool {
    let o = face_normal(f);
    let p = (l.0 + o.0, l.1 + o.1, l.2 + o.2);
    if inside_axis(p.0) && inside_axis(p.1) && inside_axis(p.2) {
        data[flat_index((p.0 as usize, p.1 as usize, p.2 as usize))].id == 0
    } else {
        match nbrs[f] {
            None => true,
            Some(nd) => nd[flat_index(
                (wrap_axis(p.0) as usize, wrap_axis(p.1) as usize, wrap_axis(p.2) as usize),
            )].id == 0,
        }
    }
}

/// Whether face slot `s` (cell `s / 6`, face `s % 6`) is drawn.
pub open spec fn slot_drawn(data: Seq<Block>, nbrs: Seq<Option<Seq<Block>>>, s: int) -> bool {
    data[s / 6].id != 0 && face_open(data, nbrs, cell_local(s / 6), s % 6)
}

/// The drawn faces among the first `m` slots, as (cell, face) pairs in slot
/// order.
pub open spec fn visible_faces(data: Seq<Block>, nbrs: Seq<Option<Seq<Block>>>, m: nat) -> Seq<
    (int, int),
>
    decreases m,
{
    if m == 0 {
        Seq::empty()
    } else {
        let prev = visible_faces(data, nbrs, (m - 1) as nat);
        let s = m - 1;
        if slot_drawn(data, nbrs, s) {
            prev.push((s / 6, s % 6))
        } else {
            prev
        }
    }
}

pub proof fn lemma_visible_faces_shape(data: Seq<Block>, nbrs: Seq<Option<Seq<Block>>>, m: nat)
    ensures
        visible_faces(data, nbrs, m).len() <= m,
        forall|q: int|
            0 <= q < visible_faces(data, nbrs, m).len() ==> {
                let fc = #[trigger] visible_faces(data, nbrs, m)[q];
                &&& 0 <= fc.0 && fc.0 * 6 + fc.1 < m
                &&& 0 <= fc.1 < 6
                &&& slot_drawn(data, nbrs, fc.0 * 6 + fc.1)
            },
    decreases m,
{
    if m > 0 {
        lemma_visible_faces_shape(data, nbrs, (m - 1) as nat);
        let s = m - 1;
        assert((s / 6) * 6 + s % 6 == s);
    }
}

/// Vertex `c` of drawn face `q` carries the face's corner, normal and atlas
/// coordinate.
pub open spec fn vertex_ok(
    positions: Seq<(u32, u32, u32)>,
    normals: Seq<(i32, i32, i32)>,
    uvs: Seq<(u32, u32)>,
    faces: Seq<(int, int)>,
    data: Seq<Block>,
    info: Map<u16, FaceUvs>,
    q: int,
    c: int,
) -> bool {
    let cell = faces[q].0;
    let f = faces[q].1;
    let l = cell_local(cell);
    let o = face_corner(f, c);
    let n = face_normal(f);
    &&& positions[4 * q + c] == ((l.0 + o.0) as u32, (l.1 + o.1) as u32, (l.2 + o.2) as u32)
    &&& normals[4 * q + c] == (n.0 as i32, n.1 as i32, n.2 as i32)
    &&& uvs[4 * q + c] == info[data[cell].id]@[f]@[c]
}

/// The mesh arrays hold exactly the quads of `faces`.
pub open spec fn mesh_matches(
    positions: Seq<(u32, u32, u32)>,
    normals: Seq<(i32, i32, i32)>,
    uvs: Seq<(u32, u32)>,
    indices: Seq<u32>,
    faces: Seq<(int, int)>,
    data: Seq<Block>,
    info: Map<u16, FaceUvs>,
) -> bool {
    &&& positions.len() == 4 * faces.len()
    &&& normals.len() == 4 * faces.len()
    &&& uvs.len() == 4 * faces.len()
    &&& indices.len() == 6 * faces.len()
    &&& forall|q: int, c: int|
        0 <= q < faces.len() && 0 <= c < 4 ==> #[trigger] vertex_ok(
            positions,
            normals,
            uvs,
            faces,
            data,
            info,
            q,
            c,
        )
    &&& forall|q: int, t: int|
        0 <= q < faces.len() && 0 <= t < 6 ==> #[trigger] indices[6 * q + t] == 4 * q
            + quad_index(t)
}

/// Every solid voxel with a drawn face has atlas coordinates.
pub open spec fn atlas_covers_drawn(
    data: Seq<Block>,
    nbrs: Seq<Option<Seq<Block>>>,
    info: Map<u16, FaceUvs>,
) -> bool {
    forall|s: int| 0 <= s < FACE_SLOTS && #[trigger] slot_drawn(data, nbrs, s) ==> info.contains_key(data[s / 6].id)
}

/// Vertex `c` of the quad for face `f` of the voxel at `l` stands at
/// `positions[at_p + c]`, `normals[at_n + c]` and `uvs[at_u + c]`.
pub open spec fn quad_at(
    positions: Seq<(u32, u32, u32)>,
    normals: Seq<(i32, i32, i32)>,
    uvs: Seq<(u32, u32)>,
    at_p: int,
    at_n: int,
    at_u: int,
    l: LocalCoord,
    f: int,
    face_uvs: FaceUvs,
    c: int,
) -> bool {
    let o = face_corner(f, c);
    let n = face_normal(f);
    &&& positions[at_p + c] == ((l.0 + o.0) as u32, (l.1 + o.1) as u32, (l.2 + o.2) as u32)
    &&& normals[at_n + c] == (n.0 as i32, n.1 as i32, n.2 as i32)
    &&& uvs[at_u + c] == face_uvs@[f]@[c]
}

/// Index `t` of the quad whose indices start at `at` and whose vertices
/// start at `base`.
pub open spec fn index_at(indices: Seq<u32>, at: int, base: int, t: int) -> bool {
    indices[at + t] == base + quad_index(t)
}

fn corner_offset(f: usize, c: usize) -> (r: (u32, u32, u32))
    requires
        f < 6,
        c < 4,
    ensures
        (r.0 as int, r.1 as int, r.2 as int) == face_corner(f as int, c as int),
{
    if f == 0 {
        if c == 0 { (1, 0, 0) } else if c == 1 { (1, 1, 0) } else if c == 2 { (1, 1, 1) } else { (1, 0, 1) }
    } else if f == 1 {
        if c == 0 { (0, 0, 1) } else if c == 1 { (0, 1, 1) } else if c == 2 { (0, 1, 0) } else { (0, 0, 0) }
    } else if f == 2 {
        if c == 0 { (1, 0, 0) } else if c == 1 { (1, 0, 1) } else if c == 2 { (0, 0, 1) } else { (0, 0, 0) }
    } else if f == 3 {
        if c == 0 { (1, 1, 1) } else if c == 1 { (1, 1, 0) } else if c == 2 { (0, 1, 0) } else { (0, 1, 1) }
    } else if f == 4 {
        if c == 0 { (1, 0, 1) } else if c == 1 { (1, 1, 1) } else if c == 2 { (0, 1, 1) } else { (0, 0, 1) }
    } else {
        if c == 0 { (0, 0, 0) } else if c == 1 { (0, 1, 0) } else if c == 2 { (1, 1, 0) } else { (1, 0, 0) }
    }
}

fn normal_of(f: usize) -> (r: (i32, i32, i32))
    requires
        f < 6,
    ensures
        (r.0 as int, r.1 as int, r.2 as int) == face_normal(f as int),
{
    if f == 0 {
        (1, 0, 0)
    } else if f == 1 {
        (-1, 0, 0)
    } else if f == 2 {
        (0, -1, 0)
    } else if f == 3 {
        (0, 1, 0)
    } else if f == 4 {
        (0, 0, 1)
    } else {
        (0, 0, -1)
    }
}

fn wrap(v: i64) -> (r: usize)
    requires
        -1 <= v <= 32,
    ensures
        r as int == wrap_axis(v as int),
        r < 32,
{
    if v < 0 {
        31
    } else if v >= 32 {
        0
    } else {
        v as usize
    }
}

/// Whether every solid voxel with a drawn face has atlas coordinates.
pub fn drawn_faces_covered(
    block_data: &VoxelArray,
    neighbors: &[Option<&VoxelArray>; 6],
    texture_map_info: &TextureMapInfo,
) -> (r: bool)
    requires
        block_data.wf(),
        neighbors_wf(*neighbors),
    ensures
        r == atlas_covers_drawn(block_data@, neighbor_views(*neighbors), texture_map_info@),
{
    let ghost data = block_data@;
    let ghost nbrs = neighbor_views(*neighbors);
    let mut s: usize = 0;
    while s < FACE_SLOTS
        invariant
            s <= FACE_SLOTS,
            block_data.wf(),
            neighbors_wf(*neighbors),
            data == block_data@,
            nbrs == neighbor_views(*neighbors),
            forall|t: int| 0 <= t < s && #[trigger] slot_drawn(data, nbrs, t) ==> texture_map_info@.contains_key(data[t / 6].id),
        decreases FACE_SLOTS - s,
    {
        let cell = s / 6;
        let f = s % 6;
        proof {
            lemma_cell_local(cell as int);
        }
        let l = (cell / 1024, (cell / 32) % 32, cell % 32);
        let block = block_data.get(l);
        if block.id != 0 && face_is_open(block_data, neighbors, l, f) {
            if !texture_map_info.contains_key(&block.id) {
                assert(slot_drawn(data, nbrs, s as int));
                return false;
            }
        }
        s += 1;
    }
    true
}

/// Whether face `f` of the voxel at `l` looks onto air (see `face_open`).
fn face_is_open(
    block_data: &VoxelArray,
    neighbors: &[Option<&VoxelArray>; 6],
    l: LocalCoord,
    f: usize,
) -> (r: bool)
    requires
        block_data.wf(),
        neighbors_wf(*neighbors),
        local_in_range(l),
        f < 6,
    ensures
        r == face_open(block_data@, neighbor_views(*neighbors), l, f as int),
{
    let n = normal_of(f);
    let pi: i64 = l.0 as i64 + n.0 as i64;
    let pj: i64 = l.1 as i64 + n.1 as i64;
    let pk: i64 = l.2 as i64 + n.2 as i64;
    if 0 <= pi && pi < 32 && 0 <= pj && pj < 32 && 0 <= pk && pk < 32 {
        block_data.get((pi as usize, pj as usize, pk as usize)).id == 0
    } else {
        match neighbors[f] {
            None => true,
            Some(nd) => nd.get((wrap(pi), wrap(pj), wrap(pk))).id == 0,
        }
    }
}

impl Chunk {
    /// Appends the quad of face `f` of the voxel at `l`: four vertices and two
    /// triangles.
    fn add_face(
        block: Block,
        mesh: &mut MeshData,
        l: LocalCoord,
        f: usize,
        face_uvs: &FaceUvs,
    )
        requires
            local_in_range(l),
            f < 6,
            old(mesh).positions@.len() + 4 <= u32::MAX,
        ensures
            final(mesh).positions@.len() == old(mesh).positions@.len() + 4,
            final(mesh).normals@.len() == old(mesh).normals@.len() + 4,
            final(mesh).uvs@.len() == old(mesh).uvs@.len() + 4,
            final(mesh).indices@.len() == old(mesh).indices@.len() + 6,
            forall|i: int|
                0 <= i < old(mesh).positions@.len() ==> #[trigger] final(mesh).positions@[i] == old(
                    mesh,
                ).positions@[i],
            forall|i: int|
                0 <= i < old(mesh).normals@.len() ==> #[trigger] final(mesh).normals@[i] == old(
                    mesh,
                ).normals@[i],
            forall|i: int|
                0 <= i < old(mesh).uvs@.len() ==> #[trigger] final(mesh).uvs@[i] == old(mesh).uvs@[i],
            forall|i: int|
                0 <= i < old(mesh).indices@.len() ==> #[trigger] final(mesh).indices@[i] == old(
                    mesh,
                ).indices@[i],
            forall|c: int|
                0 <= c < 4 ==> #[trigger] quad_at(
                    final(mesh).positions@,
                    final(mesh).normals@,
                    final(mesh).uvs@,
                    old(mesh).positions@.len() as int,
                    old(mesh).normals@.len() as int,
                    old(mesh).uvs@.len() as int,
                    l,
                    f as int,
                    *face_uvs,
                    c,
                ),
            forall|t: int|
                0 <= t < 6 ==> #[trigger] index_at(
                    final(mesh).indices@,
                    old(mesh).indices@.len() as int,
                    old(mesh).positions@.len() as int,
                    t,
                ),
    {
        let base = mesh.positions.len() as u32;
        let normal = normal_of(f);
        let mut c: usize = 0;
        while c < 4
            invariant
                c <= 4,
                local_in_range(l),
                f < 6,
                base == old(mesh).positions@.len(),
                mesh.positions@.len() == old(mesh).positions@.len() + c,
                mesh.normals@.len() == old(mesh).normals@.len() + c,
                mesh.uvs@.len() == old(mesh).uvs@.len() + c,
                mesh.indices@ == old(mesh).indices@,
                (normal.0 as int, normal.1 as int, normal.2 as int) == face_normal(f as int),
                forall|i: int|
                    0 <= i < old(mesh).positions@.len() ==> #[trigger] mesh.positions@[i] == old(
                        mesh,
                    ).positions@[i],
                forall|i: int|
                    0 <= i < old(mesh).normals@.len() ==> #[trigger] mesh.normals@[i] == old(
                        mesh,
                    ).normals@[i],
                forall|i: int|
                    0 <= i < old(mesh).uvs@.len() ==> #[trigger] mesh.uvs@[i] == old(mesh).uvs@[i],
                forall|d: int|
                    0 <= d < c ==> #[trigger] quad_at(
                        mesh.positions@,
                        mesh.normals@,
                        mesh.uvs@,
                        old(mesh).positions@.len() as int,
                        old(mesh).normals@.len() as int,
                        old(mesh).uvs@.len() as int,
                        l,
                        f as int,
                        *face_uvs,
                        d,
                    ),
            decreases 4 - c,
        {
            let ghost pb = mesh.positions@;
            let ghost nb = mesh.normals@;
            let ghost ub = mesh.uvs@;
            let o = corner_offset(f, c);
            mesh.positions.push((l.0 as u32 + o.0, l.1 as u32 + o.1, l.2 as u32 + o.2));
            mesh.normals.push(normal);
            mesh.uvs.push(face_uvs[f][c]);
            proof {
                let (p0, n0, u0) = (
                    old(mesh).positions@.len() as int,
                    old(mesh).normals@.len() as int,
                    old(mesh).uvs@.len() as int,
                );
                assert forall|d: int| 0 <= d < c + 1 implies #[trigger] quad_at(
                    mesh.positions@,
                    mesh.normals@,
                    mesh.uvs@,
                    p0,
                    n0,
                    u0,
                    l,
                    f as int,
                    *face_uvs,
                    d,
                ) by {
                    if d < c {
                        assert(quad_at(pb, nb, ub, p0, n0, u0, l, f as int, *face_uvs, d));
                    }
                }
            }
            c += 1;
        }
        mesh.indices.push(base);
        mesh.indices.push(base + 1);
        mesh.indices.push(base + 2);
        mesh.indices.push(base + 2);
        mesh.indices.push(base + 3);
        mesh.indices.push(base);
    }

    /// Builds the mesh of a chunk from its voxels and the voxels of its six
    /// neighbours: one quad for every face of a solid voxel that looks onto air
    /// or onto a neighbour that is absent, in voxel order (x major, z minor) and
    /// face order within a voxel.
    pub fn gen_mesh(
        block_data: &VoxelArray,
        neighbors: &[Option<&VoxelArray>; 6],
        texture_map_info: &TextureMapInfo,
    ) -> (r: MeshData)
        requires
            block_data.wf(),
            neighbors_wf(*neighbors),
            atlas_covers_drawn(block_data@, neighbor_views(*neighbors), texture_map_info@),
        ensures
            mesh_matches(
                r.positions@,
                r.normals@,
                r.uvs@,
                r.indices@,
                visible_faces(block_data@, neighbor_views(*neighbors), FACE_SLOTS as nat),
                block_data@,
                texture_map_info@,
            ),
    {
        let mut mesh = MeshData {
            positions: Vec::new(),
            normals: Vec::new(),
            uvs: Vec::new(),
            indices: Vec::new(),
        };
        let ghost data = block_data@;
        let ghost nbrs = neighbor_views(*neighbors);
        let ghost info = texture_map_info@;
        let mut s: usize = 0;
        while s < FACE_SLOTS
            invariant
                s <= FACE_SLOTS,
                block_data.wf(),
                neighbors_wf(*neighbors),
                data == block_data@,
                nbrs == neighbor_views(*neighbors),
                info == texture_map_info@,
                atlas_covers_drawn(data, nbrs, info),
                mesh_matches(
                    mesh.positions@,
                    mesh.normals@,
                    mesh.uvs@,
                    mesh.indices@,
                    visible_faces(data, nbrs, s as nat),
                    data,
                    info,
                ),
            decreases FACE_SLOTS - s,
        {
            let cell = s / 6;
            let f = s % 6;
            let ghost faces = visible_faces(data, nbrs, s as nat);
            proof {
                lemma_cell_local(cell as int);
                lemma_visible_faces_shape(data, nbrs, s as nat);
            }
            let l = (cell / 1024, (cell / 32) % 32, cell % 32);
            let block = block_data.get(l);
            if block.id != 0 && face_is_open(block_data, neighbors, l, f) {
                assert(slot_drawn(data, nbrs, s as int));
                let face_uvs = texture_map_info.get(&block.id).unwrap();
                let ghost before = mesh;
                Chunk::add_face(block, &mut mesh, l, f, face_uvs);
                proof {
                    let nf = faces.push((cell as int, f as int));
                    assert(visible_faces(data, nbrs, (s + 1) as nat) == nf);
                    let qq = faces.len() as int;
                    assert forall|q: int, c: int|
                        0 <= q < nf.len() && 0 <= c < 4 implies #[trigger] vertex_ok(
                        mesh.positions@,
                        mesh.normals@,
                        mesh.uvs@,
                        nf,
                        data,
                        info,
                        q,
                        c,
                    ) by {
                        if q < qq {
                            assert(vertex_ok(
                                before.positions@,
                                before.normals@,
                                before.uvs@,
                                faces,
                                data,
                                info,
                                q,
                                c,
                            ));
                        } else {
                            assert(quad_at(
                                mesh.positions@,
                                mesh.normals@,
                                mesh.uvs@,
                                4 * qq,
                                4 * qq,
                                4 * qq,
                                l,
                                f as int,
                                *face_uvs,
                                c,
                            ));
                        }
                    }
                    assert forall|q: int, t: int|
                        0 <= q < nf.len() && 0 <= t < 6 implies #[trigger] mesh.indices@[6 * q
                        + t] == 4 * q + quad_index(t) by {
                        if q < qq {
                            assert(before.indices@[6 * q + t] == 4 * q + quad_index(t));
                        } else {
                            assert(index_at(mesh.indices@, 6 * qq, 4 * qq, t));
                        }
                    }
                }
            } else {
                assert(visible_faces(data, nbrs, (s + 1) as nat) == faces);
            }
            s += 1;
        }
        mesh
    }
}

/// A (cell, face) pair is among the drawn faces of the first `m` slots
/// exactly when its slot is one of them and is drawn.
pub proof fn lemma_visible_faces_member(
    data: Seq<Block>,
    nbrs: Seq<Option<Seq<Block>>>,
    m: nat,
    cell: int,
    f: int,
)
    requires
        0 <= cell,
        0 <= f < 6,
    ensures
        visible_faces(data, nbrs, m).contains((cell, f)) == (cell * 6 + f < m && slot_drawn(
            data,
            nbrs,
            cell * 6 + f,
        )),
    decreases m,
{
    if m > 0 {
        lemma_visible_faces_member(data, nbrs, (m - 1) as nat, cell, f);
        let prev = visible_faces(data, nbrs, (m - 1) as nat);
        let s = m - 1;
        assert((cell * 6 + f) / 6 == cell && (cell * 6 + f) % 6 == f);
        if slot_drawn(data, nbrs, s) {
            let now = prev.push((s / 6, s % 6));
            assert(now[prev.len() as int] == (s / 6, s % 6));
            if prev.contains((cell, f)) {
                let i = choose|i: int| 0 <= i < prev.len() && prev[i] == (cell, f);
                assert(now[i] == (cell, f));
            }
            if now.contains((cell, f)) && !prev.contains((cell, f)) {
                let i = choose|i: int| 0 <= i < now.len() && now[i] == (cell, f);
                if i < prev.len() {
                    assert(prev[i] == (cell, f));
                }
                assert((s / 6) * 6 + s % 6 == s);
            }
            if cell * 6 + f == s {
                assert(now[prev.len() as int] == (cell, f));
            }
        } else {
            if cell * 6 + f == s {
                assert(!slot_drawn(data, nbrs, cell * 6 + f));
            }
        }
    }
}

/// Between two chunks side by side along x, the shared face of two solid
/// voxels is not drawn when the right neighbour is supplied, and is drawn
/// when that neighbour is absent.
pub proof fn lemma_boundary_meshing(
    data: Seq<Block>,
    neighbor: Seq<Block>,
    nbrs: Seq<Option<Seq<Block>>>,
    j: usize,
    k: usize,
)
    requires
        data.len() == CHUNK_VOLUME,
        neighbor.len() == CHUNK_VOLUME,
        nbrs.len() == 6,
        nbrs[0] == Some(neighbor),
        j < 32,
        k < 32,
        data[flat_index((31, j, k))].id != 0,
        neighbor[flat_index((0, j, k))].id != 0,
    ensures
        !visible_faces(data, nbrs, FACE_SLOTS as nat).contains((flat_index((31, j, k)), 0)),
        visible_faces(data, nbrs.update(0, None), FACE_SLOTS as nat).contains(
            (flat_index((31, j, k)), 0),
        ),
{
    let cell = flat_index((31usize, j, k));
    lemma_cell_local(cell);
    vstd::arithmetic::div_mod::lemma_fundamental_div_mod(cell, 32);
    vstd::arithmetic::div_mod::lemma_fundamental_div_mod(cell / 32, 32);
    vstd::arithmetic::div_mod::lemma_div_denominator(cell, 32, 32);
    assert(cell_local(cell) == (31usize, j, k)) by {
        assert(cell == 31 * 1024 + j * 32 + k);
        assert(cell / 32 == 31 * 32 + j) by {
            vstd::arithmetic::div_mod::lemma_div_multiples_vanish_fancy(31 * 32 + j as int, k as int, 32);
        }
        assert((cell / 32) % 32 == j) by {
            vstd::arithmetic::div_mod::lemma_mod_multiples_vanish(31, j as int, 32);
            vstd::arithmetic::div_mod::lemma_small_mod(j as nat, 32);
        }
        assert(cell % 32 == k) by {
            vstd::arithmetic::div_mod::lemma_mod_multiples_vanish(31 * 32 + j as int, k as int, 32);
            vstd::arithmetic::div_mod::lemma_small_mod(k as nat, 32);
        }
        assert(cell / 1024 == 31) by {
            vstd::arithmetic::div_mod::lemma_div_multiples_vanish_fancy(31, j as int * 32 + k as int, 1024);
        }
    }
    assert((cell * 6) / 6 == cell && (cell * 6) % 6 == 0);
    lemma_visible_faces_member(data, nbrs, FACE_SLOTS as nat, cell, 0);
    lemma_visible_faces_member(data, nbrs.update(0, None), FACE_SLOTS as nat, cell, 0);
}

/// The boundary law read on the mesh arrays: with the right neighbour
/// supplied, no quad faces +x at the shared face of two solid voxels;
/// with it absent, some quad does.
pub proof fn lemma_boundary_quads(
    data: Seq<Block>,
    neighbor: Seq<Block>,
    nbrs: Seq<Option<Seq<Block>>>,
    j: usize,
    k: usize,
    info: Map<u16, FaceUvs>,
    positions: Seq<(u32, u32, u32)>,
    normals: Seq<(i32, i32, i32)>,
    uvs: Seq<(u32, u32)>,
    indices: Seq<u32>,
    positions2: Seq<(u32, u32, u32)>,
    normals2: Seq<(i32, i32, i32)>,
    uvs2: Seq<(u32, u32)>,
    indices2: Seq<u32>,
)
    requires
        data.len() == CHUNK_VOLUME,
        neighbor.len() == CHUNK_VOLUME,
        nbrs.len() == 6,
        nbrs[0] == Some(neighbor),
        j < 32,
        k < 32,
        data[flat_index((31, j, k))].id != 0,
        neighbor[flat_index((0, j, k))].id != 0,
        mesh_matches(positions, normals, uvs, indices, visible_faces(data, nbrs, FACE_SLOTS as nat), data, info),
        mesh_matches(
            positions2,
            normals2,
            uvs2,
            indices2,
            visible_faces(data, nbrs.update(0, None), FACE_SLOTS as nat),
            data,
            info,
        ),
    ensures
        forall|q: int|
            0 <= q < positions.len() / 4 ==> !(#[trigger] normals[4 * q] == (1i32, 0i32, 0i32)
                && positions[4 * q] == (32u32, j as u32, k as u32)),
        exists|q: int|
            0 <= q < positions2.len() / 4 && #[trigger] normals2[4 * q] == (1i32, 0i32, 0i32)
                && positions2[4 * q] == (32u32, j as u32, k as u32),
{
    lemma_boundary_meshing(data, neighbor, nbrs, j, k);
    let cell = flat_index((31usize, j, k));
    let faces = visible_faces(data, nbrs, FACE_SLOTS as nat);
    lemma_visible_faces_shape(data, nbrs, FACE_SLOTS as nat);
    assert forall|q: int|
        0 <= q < positions.len() / 4 implies !(#[trigger] normals[4 * q] == (1i32, 0i32, 0i32)
            && positions[4 * q] == (32u32, j as u32, k as u32)) by {
        assert(q < faces.len());
        assert(vertex_ok(positions, normals, uvs, faces, data, info, q, 0));
        let fc = faces[q];
        if normals[4 * q] == (1i32, 0i32, 0i32) && positions[4 * q] == (32u32, j as u32, k as u32) {
            assert(fc.1 == 0);
            lemma_cell_local(fc.0);
            let l = cell_local(fc.0);
            assert(l == (31usize, j, k));
            assert(fc.0 == cell);
            assert(faces.contains((cell, 0int)));
        }
    }
    let faces2 = visible_faces(data, nbrs.update(0, None), FACE_SLOTS as nat);
    assert(faces2.contains((cell, 0int)));
    let q = choose|q: int| 0 <= q < faces2.len() && faces2[q] == (cell, 0int);
    assert(vertex_ok(positions2, normals2, uvs2, faces2, data, info, q, 0));
    lemma_cell_local(cell);
    assert(cell_local(cell) == (31usize, j, k)) by {
        lemma_flat_index_round_trip(31, j, k);
    }
    assert(normals2[4 * q] == (1i32, 0i32, 0i32) && positions2[4 * q] == (32u32, j as u32, k as u32));
}

/// Decoding the flat index of a local position gives the position back.
pub proof fn lemma_flat_index_round_trip(i: usize, j: usize, k: usize)
    requires
        i < 32,
        j < 32,
        k < 32,
    ensures
        cell_local(flat_index((i, j, k))) == (i, j, k),
{
    let cell = flat_index((i, j, k));
    lemma_cell_local(cell);
    crate::chunk::lemma_flat_index_injective(cell_local(cell), (i, j, k));
}

} // verus!
