use std::collections::HashMap;

use vixen::block::Block;
use vixen::chunk::{Chunk, VoxelArray};
use vixen::coord::{
    block_to_chunk_coord, block_to_chunk_local_coord, chunk_local_to_block_coord, to_world_coord,
    IVec3,
};
use vixen::coord_map::CoordMap;
use vixen::generator::{SampleMap, TerrainGenerator, TerrainSample};
use vixen::mesh::{FaceUvs, TextureMapInfo};
use vixen::pending::{finish_chunk, set_block_in_neighborhood, PendingTable, UnfinishedChunkData};
use vixen::registry::{BiomeInfo, BiomeKind, BlockInfo, Registry};
use vixen::scanner::ChunkScanner;
use vixen::standard::{
    pick_structure, register_blocks, BrownMushroom, ForestBiome, OakTree, StandardBlocks,
    StructureKind,
};
use vixen::texture::{
    block_face_uvs, gen_texture_map_info, get_mipmap_size, layouts_match, stitch_mipmaps,
    texture_map_info, BlockTextures, TextureLayout,
};
use vixen::worldgen::{ChunkBuildJob, Worldgen};

fn v(x: i32, y: i32, z: i32) -> IVec3 {
    IVec3 { x, y, z }
}

fn atlas_for(ids: &[u16]) -> TextureMapInfo {
    let mut m: TextureMapInfo = HashMap::new();
    for id in ids {
        let uvs: FaceUvs = [[(*id as u32, 0); 4]; 6];
        m.insert(*id, uvs);
    }
    m
}

fn forest_registry() -> Registry {
    let mut r = Registry::new();
    register_blocks(&mut r);
    r.register_biome(BiomeInfo { name: "Forest".to_string(), kind: BiomeKind::Forest });
    r
}

fn flat_samples(center: IVec3, height: i32) -> SampleMap {
    let mut s: SampleMap = CoordMap::new();
    for dx in -1..=1 {
        for dy in -1..=1 {
            for dz in -1..=1 {
                s.insert(
                    v(center.x + dx, center.y + dy, center.z + dz),
                    TerrainSample { heights: vec![height; 1024], biome: 0 },
                );
            }
        }
    }
    s
}

#[test]
fn unallocated_chunk_reads_air_everywhere() {
    let chunk = Chunk::new(v(3, -1, 2));
    for l in [(0, 0, 0), (31, 31, 31), (5, 17, 30)] {
        let b = chunk.get_block(l).unwrap();
        assert_eq!(b.id, 0);
        assert!(b.is_air());
    }
    assert!(chunk.is_empty());
}

#[test]
fn first_solid_write_allocates() {
    let mut chunk = Chunk::empty(v(0, 0, 0));
    assert!(chunk.is_empty());
    assert!(!chunk.needs_update());
    let changed = chunk.set_block((4, 5, 6), Block::new(3));
    assert!(changed);
    assert!(!chunk.is_empty());
    assert!(chunk.needs_update());
    assert_eq!(chunk.get_block((4, 5, 6)), Some(Block::new(3)));
    assert_eq!(chunk.get_block((4, 5, 7)), Some(Block::air()));
}

#[test]
fn set_then_get_round_trips() {
    let mut chunk = Chunk::empty(v(1, 1, 1));
    for (l, id) in [((0, 0, 0), 1u16), ((31, 31, 31), 7), ((31, 0, 15), 65535)] {
        chunk.set_block(l, Block::new(id));
        assert_eq!(chunk.get_block(l).unwrap().id, id);
    }
}

#[test]
fn same_write_twice_is_no_change() {
    let mut chunk = Chunk::empty(v(0, 0, 0));
    assert!(chunk.set_block((1, 2, 3), Block::new(2)));
    chunk.set_updated();
    assert!(!chunk.set_block((1, 2, 3), Block::new(2)));
    assert!(!chunk.needs_update());
    assert!(chunk.set_block((1, 2, 3), Block::new(4)));
    assert!(chunk.needs_update());
}

#[test]
fn air_write_into_empty_chunk_changes_nothing() {
    let mut chunk = Chunk::empty(v(0, 0, 0));
    assert!(!chunk.set_block((1, 2, 3), Block::air()));
    assert!(!chunk.needs_update());
    assert_eq!(chunk.get_block((1, 2, 3)), Some(Block::air()));
}

#[test]
fn coordinate_conversions_floor_towards_minus_infinity() {
    assert_eq!(block_to_chunk_coord(&v(-1, 0, 31)), v(-1, 0, 0));
    assert_eq!(block_to_chunk_coord(&v(32, -32, -33)), v(1, -1, -2));
    assert_eq!(block_to_chunk_local_coord(&v(-1, 0, 31)), (31, 0, 31));
    assert_eq!(block_to_chunk_local_coord(&v(32, -32, -33)), (0, 0, 31));
    assert_eq!(chunk_local_to_block_coord(&(31, 0, 2), &v(-1, 2, 0)), v(-1, 64, 2));
    assert_eq!(to_world_coord(&v(-2, 3, 0)), v(-64, 96, 0));
    assert_eq!(block_to_chunk_coord(&v(i32::MIN, i32::MAX, 0)), v(-67108864, 67108863, 0));
}

fn solid_at(l: (usize, usize, usize), id: u16) -> VoxelArray {
    let mut a = VoxelArray::new_air();
    a.set(l, Block::new(id));
    a
}

#[test]
fn shared_boundary_face_is_culled_only_with_neighbor() {
    let data = solid_at((31, 5, 5), 1);
    let right = solid_at((0, 5, 5), 1);
    let atlas = atlas_for(&[1]);
    let with = Chunk::gen_mesh(&data, &[Some(&right), None, None, None, None, None], &atlas);
    assert_eq!(with.positions.len(), 5 * 4);
    assert_eq!(with.indices.len(), 5 * 6);
    assert!(with.normals.iter().all(|n| *n != (1, 0, 0)));
    let without = Chunk::gen_mesh(&data, &[None, None, None, None, None, None], &atlas);
    assert_eq!(without.positions.len(), 6 * 4);
    assert_eq!(without.normals[0], (1, 0, 0));
    assert_eq!(without.positions[0..4], [(32, 5, 5), (32, 6, 5), (32, 6, 6), (32, 5, 6)]);
    assert_eq!(without.indices[0..6], [0, 1, 2, 2, 3, 0]);
    assert_eq!(without.uvs[0], (1, 0));
}

#[test]
fn air_neighbor_voxel_keeps_face() {
    let data = solid_at((31, 5, 5), 1);
    let right = solid_at((0, 6, 5), 1);
    let atlas = atlas_for(&[1]);
    let mesh = Chunk::gen_mesh(&data, &[Some(&right), None, None, None, None, None], &atlas);
    assert_eq!(mesh.positions.len(), 6 * 4);
}

#[test]
fn adjacent_voxels_inside_chunk_hide_their_shared_faces() {
    let mut data = VoxelArray::new_air();
    data.set((3, 3, 3), Block::new(2));
    data.set((4, 3, 3), Block::new(2));
    let atlas = atlas_for(&[2]);
    let mesh = Chunk::gen_mesh(&data, &[None, None, None, None, None, None], &atlas);
    assert_eq!(mesh.positions.len(), 10 * 4);
    assert_eq!(mesh.indices[6..12], [4, 5, 6, 6, 7, 4]);
    assert_eq!(mesh.uvs[0], (2, 0));
}

#[test]
fn empty_array_has_no_mesh() {
    let data = VoxelArray::new_air();
    let mesh = Chunk::gen_mesh(&data, &[None, None, None, None, None, None], &atlas_for(&[]));
    assert!(mesh.positions.is_empty() && mesh.indices.is_empty());
}

#[test]
fn second_scan_dispatches_nothing() {
    let mut world: Worldgen<u32> = Worldgen::new(7);
    let scanner = ChunkScanner::new(1, v(0, 0, 0));
    let first = world.scan_chunks(&scanner);
    assert_eq!(first.len(), 8);
    let second = world.scan_chunks(&scanner);
    assert!(second.is_empty());
}

#[test]
fn scan_skips_loaded_chunks_and_marks_loaded_neighbors() {
    let mut world: Worldgen<u32> = Worldgen::new(7);
    world.build_chunk(v(0, 0, 0), Chunk::empty(v(0, 0, 0)));
    let scanner = ChunkScanner::new(1, v(0, 0, 0));
    let jobs = world.scan_chunks(&scanner);
    assert_eq!(jobs.len(), 7);
    assert!(jobs.iter().all(|j| j.coord != v(0, 0, 0)));
    let job = jobs.iter().find(|j| j.coord == v(-1, -1, -1)).unwrap();
    // (0, 0, 0) is neighbour 26 of (-1, -1, -1): dx = dy = dz = +1.
    assert_eq!(job.loaded, 1 << 26);
}

#[test]
fn structure_write_reaches_later_generated_chunk() {
    let registry = forest_registry();
    let generator = TerrainGenerator::new(1);
    let mut table: PendingTable = CoordMap::new();
    let target = v(0, 1, 0);
    set_block_in_neighborhood(v(5, 40, 5), Block::new(6), &mut table);
    assert!(table.contains_key(&target));
    let samples = flat_samples(target, -1000);
    let (coord, chunk) = generator.generate_chunk(&registry, 0, target, &mut table, &samples);
    assert_eq!(coord, target);
    assert_eq!(chunk.get_block((5, 8, 5)), Some(Block::new(6)));
    assert_eq!(chunk.get_block((5, 9, 5)), Some(Block::air()));
    assert!(!table.contains_key(&target));
    // The neighbours' passes ran and stay in the table, finished.
    let side = table.get(&v(1, 1, 0)).unwrap();
    assert!(side.started && side.finished);
}

#[test]
fn later_overflow_write_wins() {
    let mut table: PendingTable = CoordMap::new();
    set_block_in_neighborhood(v(-1, -1, -1), Block::new(6), &mut table);
    set_block_in_neighborhood(v(-1, -1, -1), Block::new(7), &mut table);
    let entry: UnfinishedChunkData = table.remove(&v(-1, -1, -1)).unwrap();
    assert_eq!(entry.block_list.len(), 2);
    assert!(!entry.started && !entry.finished);
    let chunk = finish_chunk(v(-1, -1, -1), entry);
    assert_eq!(chunk.get_block((31, 31, 31)), Some(Block::new(7)));
    assert!(chunk.needs_update());
}

#[test]
fn finishing_nothing_gives_empty_chunk() {
    let entry = UnfinishedChunkData { data: None, block_list: Vec::new(), started: true, finished: true };
    let chunk = finish_chunk(v(2, 2, 2), entry);
    assert!(chunk.is_empty());
    assert!(!chunk.needs_update());
}

#[test]
fn terrain_layers_follow_surface_height() {
    let registry = forest_registry();
    let generator = TerrainGenerator::new(9);
    let mut table: PendingTable = CoordMap::new();
    let target = v(0, 0, 0);
    let samples = flat_samples(target, 10);
    let (_, chunk) = generator.generate_chunk(&registry, 0, target, &mut table, &samples);
    let grass = StandardBlocks::Grass.to_block();
    let dirt = StandardBlocks::Dirt.to_block();
    let stone = StandardBlocks::Stone.to_block();
    assert_eq!(chunk.get_block((3, 9, 4)).unwrap(), grass);
    assert_eq!(chunk.get_block((3, 8, 4)).unwrap(), dirt);
    assert_eq!(chunk.get_block((3, 6, 4)).unwrap(), dirt);
    assert_eq!(chunk.get_block((3, 5, 4)).unwrap(), stone);
    assert_eq!(chunk.get_block((3, 0, 4)).unwrap(), stone);
    assert!(!chunk.is_empty());
}

#[test]
fn chunks_outside_terrain_band_are_empty() {
    let registry = forest_registry();
    let generator = TerrainGenerator::new(9);
    let mut table: PendingTable = CoordMap::new();
    let target = v(0, 6, 0);
    let samples = flat_samples(target, 1000);
    let (_, chunk) = generator.generate_chunk(&registry, 0, target, &mut table, &samples);
    assert!(chunk.is_empty());
}

#[test]
fn loaded_neighbors_are_not_pregenerated() {
    let registry = forest_registry();
    let generator = TerrainGenerator::new(9);
    let mut table: PendingTable = CoordMap::new();
    let target = v(0, 0, 0);
    let samples = flat_samples(target, -1000);
    // Every neighbour but the centre is marked loaded.
    let loaded: u32 = ((1u32 << 27) - 1) & !(1u32 << 13);
    generator.generate_chunk(&registry, loaded, target, &mut table, &samples);
    assert_eq!(table.len(), 0);
    generator.generate_chunk(&registry, 0, target, &mut table, &samples);
    assert_eq!(table.len(), 26);
}

#[test]
fn oak_tree_writes_trunk_and_crown() {
    let mut table: PendingTable = CoordMap::new();
    OakTree.generate(v(8, 8, 8), &mut table, 6);
    let entry = table.get(&v(0, 0, 0)).unwrap();
    let logs = entry.block_list.iter().filter(|(_, b)| *b == StandardBlocks::OakLog.to_block()).count();
    assert_eq!(logs, 6);
    assert_eq!(entry.block_list.len(), 6 + 60);
    assert!(entry.block_list.contains(&((8, 13, 8), StandardBlocks::OakLog.to_block())));
    assert!(entry.block_list.contains(&((9, 14, 9), StandardBlocks::OakLeaves.to_block())));
    assert!(!entry.block_list.iter().any(|(l, _)| *l == (10, 14, 10)));
    assert_eq!(entry.block_list[0], ((8, 8, 8), StandardBlocks::OakLog.to_block()));
    assert_eq!(OakTree.get_chance(), 5000);
}

#[test]
fn mushroom_spans_chunk_border() {
    let mut table: PendingTable = CoordMap::new();
    BrownMushroom.generate(v(0, 0, 0), &mut table);
    assert_eq!(table.len(), 4);
    let origin = table.get(&v(0, 0, 0)).unwrap();
    assert_eq!(origin.block_list[0], ((0, 0, 0), StandardBlocks::MushroomStem.to_block()));
    assert!(table.contains_key(&v(-1, 0, -1)));
}

#[test]
fn forest_structures_only_extend_the_table() {
    let mut table: PendingTable = CoordMap::new();
    let mut total = 0;
    for seed in 0..400u64 {
        ForestBiome.generate_structures(&v(16, 16, 16), &mut table, seed);
        let now = table.get(&v(0, 0, 0)).map(|e| e.block_list.len()).unwrap_or(0);
        assert!(now >= total);
        total = now;
    }
    assert_eq!(ForestBiome.get_name(), "Forest");
}

#[test]
fn hysteresis_keeps_one_chunk_of_slack() {
    let scanner = ChunkScanner::new(2, v(0, 0, 0));
    assert!(!scanner.should_unload_chunk(&v(2, 0, 0)));
    assert!(!scanner.should_unload_chunk(&v(3, -3, 3)));
    assert!(scanner.should_unload_chunk(&v(4, 0, 0)));
    assert!(!scanner.should_unload_unfinished_chunk(&v(4, 0, 0)));
    assert!(!scanner.should_unload_unfinished_chunk(&v(0, -5, 0)));
    assert!(scanner.should_unload_unfinished_chunk(&v(0, 0, 6)));
}

#[test]
fn cube_corner_is_kept_but_not_meshed() {
    let scanner = ChunkScanner::new(2, v(0, 0, 0));
    let coords = scanner.iterate();
    assert_eq!(coords.len(), 64);
    assert!(coords.contains(&v(-2, -2, -2)));
    assert!(!coords.contains(&v(2, 0, 0)));
    assert!(!scanner.should_unload_chunk(&v(-2, -2, -2)));
    assert!(!scanner.should_load_mesh(&v(-2, -2, -2)));
    assert!(scanner.should_load_mesh(&v(-2, 0, 0)));
    assert!(!scanner.should_load_mesh(&v(-2, -1, 0)));
}

#[test]
fn scanner_follows_observer() {
    let mut scanner = ChunkScanner::new(1, v(0, 0, 0));
    scanner.update(v(-40, 70, 5));
    assert_eq!(scanner.get_center(), v(-40, 70, 5));
    assert_eq!(scanner.range(), 1);
    let coords = scanner.iterate();
    assert!(coords.contains(&v(-3, 1, -1)));
    assert!(coords.contains(&v(-2, 2, 0)));
    assert!(!coords.contains(&v(-1, 2, 0)));
}

#[test]
fn world_edits_flag_neighbors() {
    let mut world: Worldgen<u32> = Worldgen::new(0);
    for c in [v(0, 0, 0), v(1, 0, 0), v(0, 0, 1), v(2, 0, 0)] {
        world.build_chunk(c, Chunk::empty(c));
    }
    assert_eq!(world.loaded_chunk_count(), 4);
    assert_eq!(world.set_block(&v(5, 5, 5), Block::new(3)), Ok(()));
    assert_eq!(world.get_block(&v(5, 5, 5)), Some(Block::new(3)));
    assert_eq!(world.get_block(&v(37, 5, 5)), Some(Block::air()));
    assert_eq!(world.get_block(&v(-1, 5, 5)), None);
    assert_eq!(world.set_block(&v(-1, 5, 5), Block::new(3)), Err(v(-1, 0, 0)));
}

#[test]
fn meshes_wait_for_neighbors_and_unload_outside_sphere() {
    let mut world: Worldgen<u32> = Worldgen::new(0);
    let center = v(0, 0, 0);
    let mut solid = Chunk::empty(center);
    solid.set_block((0, 0, 0), Block::new(1));
    world.build_chunk(center, solid);
    let scanner = ChunkScanner::new(2, center);
    let atlas = atlas_for(&[1]);
    assert!(world.build_meshes(&scanner, &atlas).is_empty());
    for c in [v(1, 0, 0), v(-1, 0, 0), v(0, 1, 0), v(0, -1, 0), v(0, 0, 1), v(0, 0, -1)] {
        world.build_chunk(c, Chunk::empty(c));
    }
    let built = world.build_meshes(&scanner, &atlas);
    assert_eq!(built.len(), 1);
    assert_eq!(built[0].0, center);
    assert_eq!(built[0].1.positions.len(), 24);
    assert_eq!(world.insert_mesh(center, 11), None);
    assert_eq!(world.insert_mesh(center, 12), Some(11));
    assert!(world.build_meshes(&scanner, &atlas).is_empty());
    world.queue_mesh_rebuild(&scanner);
    assert!(world.build_meshes(&scanner, &atlas).is_empty());
    let mut far = ChunkScanner::new(2, center);
    far.update(v(1000, 0, 0));
    assert_eq!(world.unload_meshes(&far), vec![(center, 12)]);
    world.unload_chunks(&far);
    assert_eq!(world.loaded_chunk_count(), 0);
}

#[test]
fn generation_pipeline_fills_world() {
    let registry = forest_registry();
    let mut world: Worldgen<u32> = Worldgen::new(3);
    let scanner = ChunkScanner::new(1, v(0, 0, 0));
    let jobs: Vec<ChunkBuildJob> = world.scan_chunks(&scanner);
    for job in &jobs {
        let samples = flat_samples(job.coord, 4);
        let (coord, chunk) = world.run_chunk_build(&registry, job, &samples);
        world.build_chunk(coord, chunk);
    }
    assert_eq!(world.loaded_chunk_count(), 8);
    assert_eq!(world.get_block(&v(0, 3, 0)), Some(StandardBlocks::Grass.to_block()));
    assert_eq!(world.get_block(&v(-5, -20, -5)), Some(StandardBlocks::Stone.to_block()));
}

#[test]
fn registry_hands_out_ids_in_order() {
    let mut r = Registry::new();
    register_blocks(&mut r);
    assert_eq!(r.get_block_id("air"), Some(0));
    assert_eq!(r.get_block_id("grass"), Some(StandardBlocks::Grass.get_id()));
    assert_eq!(r.get_block_id("birch_planks"), Some(17));
    assert_eq!(r.get_block_id("nothing"), None);
    assert_eq!(r.get_block(6).unwrap().name, "Wood");
    assert!(r.get_block(18).is_none());
    let id = r.register_block(BlockInfo { name: "Grass 2".to_string(), code_name: "grass".to_string(), durability: 2 });
    assert_eq!(id, 18);
    assert_eq!(r.get_block_id("grass"), Some(18));
    assert_eq!(r.register_biome(BiomeInfo { name: "Forest".to_string(), kind: BiomeKind::Forest }), 0);
    assert_eq!(r.get_biome(0).unwrap().kind, BiomeKind::Forest);
    assert!(r.get_biome(1).is_none());
    assert_eq!(r.biome_count(), 1);
}

#[test]
fn standard_block_names() {
    assert_eq!(StandardBlocks::OakLog.get_name(), "Wood");
    assert_eq!(StandardBlocks::OakPlank.get_code_name(), "oak_planks");
    assert_eq!(StandardBlocks::Air.get_durability(), 0);
    assert_eq!(StandardBlocks::Sand.get_durability(), 1);
    assert_eq!(StandardBlocks::from_index(9), StandardBlocks::BrownMushroom);
}

#[test]
fn mip_levels_shrink_by_four() {
    assert_eq!(get_mipmap_size(64, 0), (0, 64));
    assert_eq!(get_mipmap_size(64, 1), (64, 80));
    assert_eq!(get_mipmap_size(64, 2), (80, 84));
    assert_eq!(get_mipmap_size(64, 4), (85, 85));
}

#[test]
fn atlas_cells_follow_grid() {
    let uvs = block_face_uvs(&[0, 1, 5, 6, 7, 8], 4);
    assert_eq!(uvs[0], [(1, 1), (1, 0), (0, 0), (0, 1)]);
    assert_eq!(uvs[2], [(2, 2), (2, 1), (1, 1), (1, 2)]);
    let table = texture_map_info(&vec![(3, [0, 1, 2, 3, 4, 5]), (9, [5; 6])], 1);
    assert_eq!(table.len(), 2);
    assert_eq!(table[&9][5][0], (1, 6));
}

#[test]
fn block_texture_faces() {
    let t = BlockTextures {
        top: "t".to_string(),
        bottom: "b".to_string(),
        left: "l".to_string(),
        right: "r".to_string(),
        front: "f".to_string(),
        back: "k".to_string(),
    };
    let faces: Vec<&str> = (0..6).map(|i| t.get(i)).collect();
    assert_eq!(faces, vec!["l", "r", "b", "t", "f", "k"]);
}

#[test]
fn stitched_atlas_goes_level_by_level() {
    let images = vec![vec![1u8, 2, 3, 4, 5], vec![6u8, 7, 8, 9, 10]];
    assert_eq!(stitch_mipmaps(&images, 4, 2), vec![1, 2, 3, 4, 6, 7, 8, 9, 5, 10]);
    assert_eq!(stitch_mipmaps(&images, 4, 0), Vec::<u8>::new());
}

fn textures(side: &str, top: &str, bottom: &str) -> BlockTextures {
    BlockTextures {
        top: top.to_string(),
        bottom: bottom.to_string(),
        left: side.to_string(),
        right: side.to_string(),
        front: side.to_string(),
        back: side.to_string(),
    }
}

#[test]
fn atlas_from_names() {
    let mut r = Registry::new();
    register_blocks(&mut r);
    let names: Vec<String> = ["dirt", "grass_side", "grass_top"].iter().map(|s| s.to_string()).collect();
    let blocks = vec![
        ("grass".to_string(), textures("grass_side", "grass_top", "dirt")),
        ("dirt".to_string(), textures("dirt", "dirt", "dirt")),
    ];
    let atlas = gen_texture_map_info(&r, &blocks, &names).unwrap();
    assert_eq!(atlas.len(), 2);
    assert_eq!(atlas[&2][3], [(1, 3), (1, 2), (0, 2), (0, 3)]);
    assert_eq!(atlas[&2][0], [(1, 2), (1, 1), (0, 1), (0, 2)]);
    assert_eq!(atlas[&3][2], [(1, 1), (1, 0), (0, 0), (0, 1)]);
    let unknown_block = vec![("marble".to_string(), textures("dirt", "dirt", "dirt"))];
    assert!(gen_texture_map_info(&r, &unknown_block, &names).is_none());
    let unknown_texture = vec![("dirt".to_string(), textures("dirt", "snow", "dirt"))];
    assert!(gen_texture_map_info(&r, &unknown_texture, &names).is_none());
}

#[test]
fn standard_plugin_registers_forest() {
    let mut r = Registry::new();
    vixen::standard::StandardPlugin.build(&mut r);
    assert_eq!(r.biome_count(), 1);
    assert_eq!(r.get_biome(0).unwrap().name, "Forest");
    assert_eq!(r.get_block_id("oak_log"), Some(6));
}

#[test]
fn seeded_structures_are_reproducible_and_varied() {
    let mut heights = std::collections::HashSet::new();
    let mut grown = 0;
    for seed in 0..2000u64 {
        let mut a: PendingTable = CoordMap::new();
        let mut b: PendingTable = CoordMap::new();
        ForestBiome.generate_structures(&v(8, 8, 8), &mut a, seed);
        ForestBiome.generate_structures(&v(8, 8, 8), &mut b, seed);
        let la = a.get(&v(0, 0, 0)).map(|e| e.block_list.clone()).unwrap_or_default();
        let lb = b.get(&v(0, 0, 0)).map(|e| e.block_list.clone()).unwrap_or_default();
        assert_eq!(la, lb);
        if !la.is_empty() {
            grown += 1;
        }
        let logs = la.iter().filter(|(_, b)| *b == StandardBlocks::OakLog.to_block()).count();
        if logs > 0 {
            heights.insert(logs);
        }
    }
    // About 0.7% of the draws grow a structure.
    assert!(grown > 0 && grown < 100);
    assert!(heights.iter().all(|h| (4..=8).contains(h)));
}

#[test]
fn chance_walk_picks_first_match() {
    assert_eq!(pick_structure(0), Some(StructureKind::Oak));
    assert_eq!(pick_structure(4999), Some(StructureKind::Oak));
    assert_eq!(pick_structure(5000), Some(StructureKind::BrownMushroom));
    assert_eq!(pick_structure(6999), Some(StructureKind::BrownMushroom));
    assert_eq!(pick_structure(7000), None);
    assert_eq!(pick_structure(999999), None);
    let mut table: PendingTable = CoordMap::new();
    ForestBiome.place_structure(&v(8, 8, 8), &mut table, 7000, 4);
    assert_eq!(table.len(), 0);
    ForestBiome.place_structure(&v(8, 8, 8), &mut table, 5500, 4);
    assert_eq!(table.get(&v(0, 0, 0)).unwrap().block_list.len(), 27);
}

#[test]
fn atlas_needs_uniform_layouts() {
    let a = TextureLayout { width: 16, height: 16, depth: 1, array_layers: 1, mipmap_levels: 5 };
    let b = TextureLayout { mipmap_levels: 4, ..a };
    assert!(layouts_match(&vec![]));
    assert!(layouts_match(&vec![a, a, a]));
    assert!(!layouts_match(&vec![a, a, b]));
}

#[test]
fn mushroom_cap_is_a_disc_without_corners() {
    let mut table: PendingTable = CoordMap::new();
    BrownMushroom.generate(v(8, 8, 8), &mut table);
    let entry = table.get(&v(0, 0, 0)).unwrap();
    let stem = StandardBlocks::MushroomStem.to_block();
    let cap = StandardBlocks::BrownMushroom.to_block();
    assert_eq!(entry.block_list.len(), 6 + 21);
    assert!(entry.block_list.contains(&((8, 13, 8), stem)));
    assert!(entry.block_list.contains(&((10, 14, 9), cap)));
    assert!(!entry.block_list.iter().any(|(l, _)| *l == (10, 14, 10)));
}

#[test]
fn atlas_puts_right_texture_on_plus_x_face() {
    let mut r = Registry::new();
    register_blocks(&mut r);
    let names: Vec<String> = ["l", "r", "b", "t", "f", "k"].iter().map(|s| s.to_string()).collect();
    let t = BlockTextures {
        top: "t".to_string(),
        bottom: "b".to_string(),
        left: "l".to_string(),
        right: "r".to_string(),
        front: "f".to_string(),
        back: "k".to_string(),
    };
    let atlas = gen_texture_map_info(&r, &vec![("stone".to_string(), t)], &names).unwrap();
    // Mesh face 0 is +x: the right texture, cell 1; face 1 is -x: the left, cell 0.
    assert_eq!(atlas[&1][0][2], (0, 1));
    assert_eq!(atlas[&1][1][2], (0, 0));
    assert_eq!(atlas[&1][3][2], (0, 3));
}

#[test]
fn atlas_needed_only_for_drawn_faces() {
    let mut world: Worldgen<u32> = Worldgen::new(0);
    let center = v(0, 0, 0);
    let mut solid = Chunk::empty(center);
    solid.set_block((0, 0, 0), Block::new(1));
    world.build_chunk(center, solid);
    assert!(!world.atlas_covers_world(&atlas_for(&[])));
    assert!(world.atlas_covers_world(&atlas_for(&[1])));
}

#[test]
fn enclosed_voxel_needs_no_atlas_entry() {
    let mut data = VoxelArray::new_air();
    for i in 4..7 {
        for j in 4..7 {
            for k in 4..7 {
                data.set((i, j, k), Block::new(1));
            }
        }
    }
    data.set((5, 5, 5), Block::new(2));
    let mesh = Chunk::gen_mesh(&data, &[None, None, None, None, None, None], &atlas_for(&[1]));
    assert_eq!(mesh.positions.len(), 6 * 9 * 4);
}
