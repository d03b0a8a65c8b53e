//! The texture atlas: which atlas cell each face of each block shows, and
//! where each mip level of a texture starts in its data.
use vstd::prelude::*;
use std::collections::HashMap;
use crate::mesh::{FaceUvs, TextureMapInfo};
use crate::registry::{Registry, MAX_IDS};

verus! {

broadcast use vstd::std_specs::hash::group_hash_axioms;

/// The texture name of each face of a block.
pub struct BlockTextures {
    pub top: String,
    pub bottom: String,
    pub left: String,
    pub right: String,
    pub front: String,
    pub back: String,
}

impl BlockTextures {
    /// The texture of mesh face `f` (right, left, bottom, top, front,
    /// back): the two x faces are numbered the other way round here.
    pub open spec fn mesh_face_name(&self, f: int) -> Seq<char> {
        self.face_name(texture_face(f))
    }

    pub open spec fn face_name(&self, id: int) -> Seq<char> {
        if id == 0 {
            self.left@
        } else if id == 1 {
            self.right@
        } else if id == 2 {
            self.bottom@
        } else if id == 3 {
            self.top@
        } else if id == 4 {
            self.front@
        } else {
            self.back@
        }
    }

    /// The texture of face `id`: left, right, bottom, top, front, back.
    pub fn get(&self, id: usize) -> (r: &str)
        requires
            id < 6,
        ensures
            r@ == self.face_name(id as int),
    {
        if id == 0 {
            self.left.as_str()
        } else if id == 1 {
            self.right.as_str()
        } else if id == 2 {
            self.bottom.as_str()
        } else if id == 3 {
            self.top.as_str()
        } else if id == 4 {
            self.front.as_str()
        } else {
            self.back.as_str()
        }
    }
}

/// The texture face shown on mesh face `f`.
pub open spec fn texture_face(f: int) -> int {
    if f == 0 {
        1
    } else if f == 1 {
        0
    } else {
        f
    }
}

fn texture_face_of(f: usize) -> (r: usize)
    requires
        f < 6,
    ensures
        r == texture_face(f as int),
        r < 6,
{
    if f == 0 {
        1
    } else if f == 1 {
        0
    } else {
        f
    }
}

/// Size in bytes of mip level `level` of a texture whose main level takes
/// `main` bytes: each level holds a quarter of the one before.
pub open spec fn mip_size(main: nat, level: nat) -> nat
    decreases level,
{
    if level == 0 {
        main
    } else {
        mip_size(main, (level - 1) as nat) / 4
    }
}

/// Offset of mip level `level`: the sizes of the levels before it.
pub open spec fn mip_start(main: nat, level: nat) -> nat
    decreases level,
{
    if level == 0 {
        0
    } else {
        mip_start(main, (level - 1) as nat) + mip_size(main, (level - 1) as nat)
    }
}

proof fn lemma_mip_bound(main: nat, level: nat)
    ensures
        3 * mip_start(main, level) + 4 * mip_size(main, level) <= 4 * main,
    decreases level,
{
    if level > 0 {
        lemma_mip_bound(main, (level - 1) as nat);
    }
}

/// Largest main level size that `get_mipmap_size` accepts.
pub const MAX_MAIN_SIZE: u32 = 2147483648;

/// The byte range `(start, end)` of mip level `mipmap_level`.
pub fn get_mipmap_size(main_size: u32, mipmap_level: u32) -> (r: (usize, usize))
    requires
        main_size <= MAX_MAIN_SIZE,
    ensures
        r.0 == mip_start(main_size as nat, mipmap_level as nat),
        r.1 == mip_start(main_size as nat, mipmap_level as nat) + mip_size(
            main_size as nat,
            mipmap_level as nat,
        ),
{
    let mut start: u32 = 0;
    let mut size: u32 = main_size;
    let mut level: u32 = 0;
    while level < mipmap_level
        invariant
            level <= mipmap_level,
            main_size <= MAX_MAIN_SIZE,
            start == mip_start(main_size as nat, level as nat),
            size == mip_size(main_size as nat, level as nat),
        decreases mipmap_level - level,
    {
        proof {
            lemma_mip_bound(main_size as nat, level as nat);
        }
        start += size;
        size /= 4;
        level += 1;
    }
    proof {
        lemma_mip_bound(main_size as nat, level as nat);
    }
    (start as usize, (start + size) as usize)
}

/// Corner `c` of the atlas cell at `loc` in a grid `grid` cells wide.
pub open spec fn cell_corner(loc: u32, grid: u32, c: int) -> (u32, u32) {
    let y = loc / grid;
    let x = loc % grid;
    if c == 0 {
        ((x + 1) as u32, (y + 1) as u32)
    } else if c == 1 {
        ((x + 1) as u32, y)
    } else if c == 2 {
        (x, y)
    } else {
        (x, (y + 1) as u32)
    }
}

/// The atlas corners of each face of a block whose faces show the cells
/// `locs`.
pub fn block_face_uvs(locs: &[u32; 6], grid: u32) -> (r: FaceUvs)
    requires
        grid > 0,
        forall|f: int| 0 <= f < 6 ==> #[trigger] locs@[f] / grid < u32::MAX,
    ensures
        forall|f: int, c: int| 0 <= f < 6 && 0 <= c < 4 ==> #[trigger] r@[f]@[c] == cell_corner(locs@[f], grid, c),
{
    let mut faces: FaceUvs = [[(0, 0); 4]; 6];
    let mut f: usize = 0;
    while f < 6
        invariant
            f <= 6,
            grid > 0,
            forall|g: int| 0 <= g < 6 ==> #[trigger] locs@[g] / grid < u32::MAX,
            forall|g: int, c: int| 0 <= g < f && 0 <= c < 4 ==> #[trigger] faces@[g]@[c] == cell_corner(locs@[g], grid, c),
        decreases 6 - f,
    {
        let loc = locs[f];
        assert(locs@[f as int] / grid < u32::MAX);
        let y = loc / grid;
        let x = loc % grid;
        let quad = [(x + 1, y + 1), (x + 1, y), (x, y), (x, y + 1)];
        faces[f] = quad;
        f += 1;
    }
    faces
}

/// The atlas table of a list of blocks, each given by its id and the
/// atlas cells of its six faces.
pub fn texture_map_info(blocks: &Vec<(u16, [u32; 6])>, grid: u32) -> (r: TextureMapInfo)
    requires
        grid > 0,
        forall|i: int, f: int| 0 <= i < blocks@.len() && 0 <= f < 6 ==> #[trigger] blocks@[i].1@[f] / grid < u32::MAX,
        forall|i: int, j: int| 0 <= i < j < blocks@.len() ==> #[trigger] blocks@[i].0 != #[trigger] blocks@[j].0,
    ensures
        forall|id: u16| #[trigger] r@.contains_key(id) <==> exists|i: int| 0 <= i < blocks@.len() && #[trigger] blocks@[i].0 == id,
        forall|i: int, f: int, c: int|
            0 <= i < blocks@.len() && 0 <= f < 6 && 0 <= c < 4 ==> #[trigger] r@[blocks@[i].0]@[f]@[c] == cell_corner(blocks@[i].1@[f], grid, c),
{
    let mut map: TextureMapInfo = HashMap::new();
    let mut i: usize = 0;
    while i < blocks.len()
        invariant
            i <= blocks@.len(),
            grid > 0,
            forall|i: int, f: int| 0 <= i < blocks@.len() && 0 <= f < 6 ==> #[trigger] blocks@[i].1@[f] / grid < u32::MAX,
            forall|i: int, j: int| 0 <= i < j < blocks@.len() ==> #[trigger] blocks@[i].0 != #[trigger] blocks@[j].0,
            forall|id: u16| #[trigger] map@.contains_key(id) <==> exists|k: int| 0 <= k < i && #[trigger] blocks@[k].0 == id,
            forall|k: int, f: int, c: int|
                0 <= k < i && 0 <= f < 6 && 0 <= c < 4 ==> #[trigger] map@[blocks@[k].0]@[f]@[c] == cell_corner(blocks@[k].1@[f], grid, c),
        decreases blocks@.len() - i,
    {
        let (id, locs) = blocks[i];
        proof {
            assert forall|f: int| 0 <= f < 6 implies #[trigger] locs@[f] / grid < u32::MAX by {
                assert(blocks@[i as int].1@[f] / grid < u32::MAX);
            }
        }
        let faces = block_face_uvs(&locs, grid);
        let ghost before = map@;
        map.insert(id, faces);
        proof {
            assert forall|x: u16| #[trigger] map@.contains_key(x) <==> exists|k: int| 0 <= k < i + 1 && #[trigger] blocks@[k].0 == x by {
                if x == id {
                    assert(blocks@[i as int].0 == x);
                } else if before.contains_key(x) {
                    let k = choose|k: int| 0 <= k < i && #[trigger] blocks@[k].0 == x;
                    assert(0 <= k < i + 1 && blocks@[k].0 == x);
                } else if exists|k: int| 0 <= k < i + 1 && #[trigger] blocks@[k].0 == x {
                    let k = choose|k: int| 0 <= k < i + 1 && #[trigger] blocks@[k].0 == x;
                    assert(k != i);
                }
            }
            assert forall|k: int, f: int, c: int|
                0 <= k < i + 1 && 0 <= f < 6 && 0 <= c < 4 implies #[trigger] map@[blocks@[k].0]@[f]@[c] == cell_corner(blocks@[k].1@[f], grid, c) by {
                if k < i {
                    assert(blocks@[k].0 != blocks@[i as int].0);
                }
            }
        }
        i += 1;
    }
    map
}

/// Mip level `level` of the first `n` images, one after another.
pub open spec fn level_slices(images: Seq<Seq<u8>>, main: nat, level: nat, n: nat) -> Seq<u8>
    decreases n,
{
    if n == 0 {
        Seq::empty()
    } else {
        level_slices(images, main, level, (n - 1) as nat) + images[n - 1].subrange(
            mip_start(main, level) as int,
            (mip_start(main, level) + mip_size(main, level)) as int,
        )
    }
}

/// The data of an atlas stitched from `images`: mip level 0 of every
/// image, then level 1 of every image, and so on for `levels` levels.
pub open spec fn stitched(images: Seq<Seq<u8>>, main: nat, levels: nat) -> Seq<u8>
    decreases levels,
{
    if levels == 0 {
        Seq::empty()
    } else {
        stitched(images, main, (levels - 1) as nat) + level_slices(
            images,
            main,
            (levels - 1) as nat,
            images.len(),
        )
    }
}

proof fn lemma_mip_monotone(main: nat, a: nat, b: nat)
    requires
        a <= b,
    ensures
        mip_start(main, a) + mip_size(main, a) <= mip_start(main, b) + mip_size(main, b) || a == b,
        mip_start(main, a) + mip_size(main, a) <= mip_start(main, b + 1),
    decreases b - a,
{
    if a < b {
        lemma_mip_monotone(main, a, (b - 1) as nat);
    }
}

/// Stitches the data of equally sized textures into one atlas, mip level
/// by mip level, each image holding `mipmap_levels` levels of a main level
/// of `main_size` bytes.
pub fn stitch_mipmaps(images: &Vec<Vec<u8>>, main_size: u32, mipmap_levels: u32) -> (r: Vec<u8>)
    requires
        main_size <= MAX_MAIN_SIZE,
        forall|i: int|
            0 <= i < images@.len() ==> (#[trigger] images@[i])@.len() >= mip_start(
                main_size as nat,
                mipmap_levels as nat,
            ),
    ensures
        r@ == stitched(images@.map_values(|v: Vec<u8>| v@), main_size as nat, mipmap_levels as nat),
{
    let ghost imgs = images@.map_values(|v: Vec<u8>| v@);
    let ghost main = main_size as nat;
    let mut data: Vec<u8> = Vec::new();
    let mut level: u32 = 0;
    while level < mipmap_levels
        invariant
            level <= mipmap_levels,
            main == main_size,
            main_size <= MAX_MAIN_SIZE,
            imgs == images@.map_values(|v: Vec<u8>| v@),
            forall|i: int|
                0 <= i < images@.len() ==> (#[trigger] images@[i])@.len() >= mip_start(
                    main,
                    mipmap_levels as nat,
                ),
            data@ == stitched(imgs, main, level as nat),
        decreases mipmap_levels - level,
    {
        let (start, end) = get_mipmap_size(main_size, level);
        proof {
            lemma_mip_monotone(main, level as nat, (mipmap_levels - 1) as nat);
            if level + 1 < mipmap_levels {
                lemma_mip_monotone(main, (level + 1) as nat, (mipmap_levels - 1) as nat);
            }
        }
        let ghost before = data@;
        let mut n: usize = 0;
        while n < images.len()
            invariant
                n <= images@.len(),
                level < mipmap_levels,
                main == main_size,
                imgs == images@.map_values(|v: Vec<u8>| v@),
                start == mip_start(main, level as nat),
                end == start + mip_size(main, level as nat),
                start <= end,
                forall|i: int| 0 <= i < images@.len() ==> (#[trigger] images@[i])@.len() >= end,
                data@ == before + level_slices(imgs, main, level as nat, n as nat),
            decreases images@.len() - n,
        {
            let image = &images[n];
            assert(images@[n as int]@.len() >= end);
            let ghost mid = data@;
            let mut b: usize = start;
            while b < end
                invariant
                    start <= b <= end,
                    image@.len() >= end,
                    data@ == mid + image@.subrange(start as int, b as int),
                decreases end - b,
            {
                data.push(image[b]);
                assert(image@.subrange(start as int, b + 1) =~= image@.subrange(start as int, b as int).push(image@[b as int]));
                b += 1;
            }
            proof {
                assert(imgs[n as int] == image@);
                assert(data@ =~= before + level_slices(imgs, main, level as nat, (n + 1) as nat));
            }
            n += 1;
        }
        proof {
            assert(imgs.len() == images@.len());
            assert(data@ =~= stitched(imgs, main, (level + 1) as nat));
        }
        level += 1;
    }
    data
}

/// `i` is the first position of a texture named `name`.
pub open spec fn texture_index(names: Seq<String>, name: Seq<char>, i: int) -> bool {
    &&& 0 <= i < names.len()
    &&& names[i]@ == name
    &&& forall|j: int| 0 <= j < i ==> (#[trigger] names[j])@ != name
}

pub open spec fn has_texture(names: Seq<String>, name: Seq<char>) -> bool {
    exists|j: int| 0 <= j < names.len() && (#[trigger] names[j])@ == name
}

/// A block's name is registered and each of its faces names a texture.
pub open spec fn block_resolvable(
    registry: &Registry,
    entry: (String, BlockTextures),
    names: Seq<String>,
) -> bool {
    &&& exists|id: int| registry.names_block(entry.0@, id)
    &&& forall|f: int| 0 <= f < 6 ==> has_texture(names, #[trigger] entry.1.mesh_face_name(f))
}

/// The position of the first texture named `name`.
fn find_texture(names: &Vec<String>, name: &str) -> (r: Option<u32>)
    requires
        names@.len() < u32::MAX,
    ensures
        match r {
            Some(i) => texture_index(names@, name@, i as int),
            None => !has_texture(names@, name@),
        },
{
    let wanted = name.to_owned();
    let mut i: usize = 0;
    while i < names.len()
        invariant
            i <= names@.len(),
            names@.len() < u32::MAX,
            wanted@ == name@,
            forall|j: int| 0 <= j < i ==> (#[trigger] names@[j])@ != name@,
        decreases names@.len() - i,
    {
        if names[i] == wanted {
            return Some(i as u32);
        }
        i += 1;
    }
    None
}

proof fn lemma_names_block_unique(registry: &Registry, name: Seq<char>, a: int, b: int)
    requires
        registry.names_block(name, a),
        registry.names_block(name, b),
    ensures
        a == b,
{
    if a < b {
        assert(registry.spec_blocks()[b].code_name@ != name);
    } else if b < a {
        assert(registry.spec_blocks()[a].code_name@ != name);
    }
}

proof fn lemma_texture_index_unique(names: Seq<String>, name: Seq<char>, a: int, b: int)
    requires
        texture_index(names, name, a),
        texture_index(names, name, b),
    ensures
        a == b,
{
}

/// The atlas table of blocks described by name: each block's id is looked
/// up in the registry and each face's cell is the position of its texture
/// in `texture_names`, the atlas being one column of cells. `None` when a
/// block or a texture is unknown.
pub fn gen_texture_map_info(
    registry: &Registry,
    block_data: &Vec<(String, BlockTextures)>,
    texture_names: &Vec<String>,
) -> (r: Option<TextureMapInfo>)
    requires
        registry.spec_blocks().len() <= MAX_IDS,
        texture_names@.len() < u32::MAX,
        forall|i: int, j: int|
            0 <= i < j < block_data@.len() ==> (#[trigger] block_data@[i]).0@ != (
            #[trigger] block_data@[j]).0@,
    ensures
        r.is_some() == forall|i: int|
            0 <= i < block_data@.len() ==> block_resolvable(
                registry,
                #[trigger] block_data@[i],
                texture_names@,
            ),
        match r {
            Some(m) => forall|id: u16| #[trigger] m@.contains_key(id) <==> exists|i: int|
                0 <= i < block_data@.len() && registry.names_block(#[trigger] block_data@[i].0@, id as int),
            None => true,
        },
        match r {
            Some(m) => forall|i: int, id: int, f: int, loc: int, c: int|
                #![trigger registry.names_block(block_data@[i].0@, id), texture_index(texture_names@, block_data@[i].1.mesh_face_name(f), loc), m@[id as u16]@[f]@[c]]
                0 <= i < block_data@.len() && registry.names_block(block_data@[i].0@, id) && 0 <= f < 6
                    && texture_index(texture_names@, block_data@[i].1.mesh_face_name(f), loc) && 0 <= c < 4
                    ==> m@[id as u16]@[f]@[c] == cell_corner(loc as u32, 1, c),
            None => true,
        },
{
    let mut list: Vec<(u16, [u32; 6])> = Vec::new();
    let mut i: usize = 0;
    while i < block_data.len()
        invariant
            i <= block_data@.len(),
            list@.len() == i,
            registry.spec_blocks().len() <= MAX_IDS,
            texture_names@.len() < u32::MAX,
            forall|k: int|
                0 <= k < i ==> block_resolvable(registry, #[trigger] block_data@[k], texture_names@),
            forall|k: int|
                0 <= k < i ==> registry.names_block(
                    block_data@[k].0@,
                    (#[trigger] list@[k]).0 as int,
                ),
            forall|k: int, f: int|
                0 <= k < i && 0 <= f < 6 ==> texture_index(
                    texture_names@,
                    block_data@[k].1.mesh_face_name(f),
                    #[trigger] list@[k].1@[f] as int,
                ),
        decreases block_data@.len() - i,
    {
        let (name, textures) = (&block_data[i].0, &block_data[i].1);
        let id = match registry.get_block_id(name.as_str()) {
            Some(id) => id,
            None => {
                proof {
                    assert(!block_resolvable(registry, block_data@[i as int], texture_names@));
                }
                return None;
            },
        };
        let mut locs: [u32; 6] = [0; 6];
        let mut f: usize = 0;
        while f < 6
            invariant
                f <= 6,
                texture_names@.len() < u32::MAX,
                i < block_data@.len(),
                *textures == block_data@[i as int].1,
                forall|g: int|
                    0 <= g < f ==> texture_index(
                        texture_names@,
                        textures.mesh_face_name(g),
                        #[trigger] locs@[g] as int,
                    ),
            decreases 6 - f,
        {
            match find_texture(texture_names, textures.get(texture_face_of(f))) {
                Some(loc) => {
                    locs[f] = loc;
                },
                None => {
                    proof {
                        assert(!has_texture(texture_names@, block_data@[i as int].1.mesh_face_name(f as int)));
                        assert(!block_resolvable(registry, block_data@[i as int], texture_names@));
                    }
                    return None;
                },
            }
            f += 1;
        }
        list.push((id, locs));
        proof {
            assert forall|g: int| 0 <= g < 6 implies has_texture(
                texture_names@,
                #[trigger] block_data@[i as int].1.mesh_face_name(g),
            ) by {
                assert(texture_index(texture_names@, textures.mesh_face_name(g), locs@[g] as int));
                assert(texture_names@[locs@[g] as int]@ == textures.mesh_face_name(g));
            }
            assert(registry.names_block(block_data@[i as int].0@, id as int));
            assert(block_resolvable(registry, block_data@[i as int], texture_names@));
            assert(list@[i as int] == (id, locs));
        }
        i += 1;
    }
    proof {
        assert forall|a: int, b: int| 0 <= a < b < list@.len() implies #[trigger] list@[a].0 != #[trigger] list@[b].0 by {
            assert(registry.names_block(block_data@[a].0@, list@[a].0 as int));
            assert(registry.names_block(block_data@[b].0@, list@[b].0 as int));
            assert(block_data@[a].0@ != block_data@[b].0@);
        }
        assert forall|k: int, f: int| 0 <= k < list@.len() && 0 <= f < 6 implies #[trigger] list@[k].1@[f] / 1 < u32::MAX by {
            assert(texture_index(texture_names@, block_data@[k].1.mesh_face_name(f), list@[k].1@[f] as int));
        }
    }
    let m = texture_map_info(&list, 1);
    proof {
        assert forall|id: u16| #[trigger] m@.contains_key(id) <==> exists|i: int|
            0 <= i < block_data@.len() && registry.names_block(#[trigger] block_data@[i].0@, id as int) by {
            if m@.contains_key(id) {
                let k = choose|k: int| 0 <= k < list@.len() && #[trigger] list@[k].0 == id;
                assert(registry.names_block(block_data@[k].0@, list@[k].0 as int));
            }
            if exists|i: int| 0 <= i < block_data@.len() && registry.names_block(#[trigger] block_data@[i].0@, id as int) {
                let i = choose|i: int| 0 <= i < block_data@.len() && registry.names_block(#[trigger] block_data@[i].0@, id as int);
                assert(registry.names_block(block_data@[i].0@, list@[i].0 as int));
                lemma_names_block_unique(registry, block_data@[i].0@, id as int, list@[i].0 as int);
                assert(list@[i].0 == id);
            }
        }
        assert forall|i: int, id: int, f: int, loc: int, c: int|
            #![trigger registry.names_block(block_data@[i].0@, id), texture_index(texture_names@, block_data@[i].1.mesh_face_name(f), loc), m@[id as u16]@[f]@[c]]
            0 <= i < block_data@.len() && registry.names_block(block_data@[i].0@, id) && 0 <= f < 6
                && texture_index(texture_names@, block_data@[i].1.mesh_face_name(f), loc) && 0 <= c < 4
                implies m@[id as u16]@[f]@[c] == cell_corner(loc as u32, 1, c) by {
            assert(registry.names_block(block_data@[i].0@, list@[i].0 as int));
            assert(list@[i].0 as int == id);
            lemma_texture_index_unique(texture_names@, block_data@[i].1.mesh_face_name(f), loc, list@[i].1@[f] as int);
            assert(m@[list@[i].0]@[f]@[c] == cell_corner(list@[i].1@[f], 1, c));
        }
    }
    Some(m)
}

/// The dimensions that all textures of one atlas share.
#[derive(Clone, Copy, PartialEq, Eq, Structural, Debug)]
pub struct TextureLayout {
    pub width: u32,
    pub height: u32,
    pub depth: u32,
    pub array_layers: u32,
    pub mipmap_levels: u32,
}

/// Whether every texture has the layout of the first one.
pub fn layouts_match(layouts: &Vec<TextureLayout>) -> (r: bool)
    ensures
        r == forall|i: int| 0 <= i < layouts@.len() ==> #[trigger] layouts@[i] == layouts@[0],
{
    let mut i: usize = 1;
    while i < layouts.len()
        invariant
            1 <= i,
            i <= layouts@.len() || layouts@.len() == 0,
            forall|j: int| 0 <= j < i && j < layouts@.len() ==> #[trigger] layouts@[j] == layouts@[0],
        decreases layouts@.len() - i,
    {
        if layouts[i] != layouts[0] {
            return false;
        }
        i += 1;
    }
    true
}

} // verus!
