use terrain_lod::base::{Box3, ChunkCacheKey, Point2, Point3, Region};
use terrain_lod::chunk::{chunk_voxel_count, Chunk, Size3};
use terrain_lod::chunk_mesh::{ChunkMesh, EdgeVoxel};
use terrain_lod::mesh::{Mesh, Triangle};
use terrain_lod::terrain::{sort_by_distance, Step, StitchStride, Terrain, TerrainRegion, TerrainTask};

type Land = Terrain<u8, f32, u32>;

fn square(x0: i32, y0: i32, x1: i32, y1: i32) -> Region {
    Region::new(vec![
        Point2::new(x0, y0),
        Point2::new(x1, y0),
        Point2::new(x1, y1),
        Point2::new(x0, y1),
    ])
}

fn mesh_for(key: &ChunkCacheKey) -> ChunkMesh<f32, u32> {
    let size = chunk_voxel_count(key.level).unwrap();
    let voxels = vec![0.0f32; (size.width * size.height * size.depth) as usize];
    let tris: Vec<Triangle<[f32; 3]>> = vec![];
    ChunkMesh::new(key.bounds, Mesh::from_triangles(&tris), size, EdgeVoxel::from_voxels(&voxels, size))
}

fn build_ready_meshes(t: &mut Land, keys: &[ChunkCacheKey]) {
    for (i, k) in keys.iter().enumerate() {
        assert!(matches!(t.write_mesh(k, mesh_for(k)), Step::Next(TerrainTask::GenerateMeshResources(_))));
        assert!(matches!(t.generate_mesh_resources(k), Step::BuildResources(_)));
        assert!(matches!(t.attach_render_resources(k, i as u32), Step::Done));
    }
}

fn key_at(x: i32, y: i32, side: i32, level: u32) -> ChunkCacheKey {
    ChunkCacheKey {
        bounds: Box3 {
            min: Point3 { x, y, z: -1 },
            max: Point3 { x: x + side, y: y + side, z: 1 },
        },
        level,
    }
}

#[test]
fn generate_chunk_is_a_no_op_for_a_ready_mesh() {
    let mut t: Land = Terrain::new(0.5f32.to_bits());
    let k = key_at(0, 0, 64, 2);
    build_ready_meshes(&mut t, &[k]);
    assert!(matches!(t.generate_chunk(&k), Step::Done));
    assert!(matches!(t.generate_chunk(&k), Step::Done));
    assert!(matches!(t.generate_mesh(&k), Step::Done));
}

#[test]
fn pipeline_stages_follow_the_caches() {
    let mut t: Land = Terrain::new(0);
    let k = key_at(0, 0, 64, 2);
    let chunk = match t.generate_chunk(&k) {
        Step::BuildChunk(key, c) => {
            assert_eq!(key, k);
            c
        }
        _ => panic!("a fresh key needs a chunk"),
    };
    assert_eq!(chunk.voxel_count(), Size3 { width: 32, height: 32, depth: 1 });
    // without triangles the mesh stage sends the key back
    assert!(matches!(t.generate_mesh(&k), Step::Next(TerrainTask::GenerateChunk(_))));
    let mut chunk = chunk;
    chunk.set_voxel_buffers(1, Some(2));
    chunk.set_triangle_buffers(3, Some(4));
    assert!(matches!(t.write_chunk(&k, chunk), Step::Next(TerrainTask::GenerateMesh(_))));
    assert!(matches!(t.generate_chunk(&k), Step::Next(TerrainTask::GenerateMesh(_))));
    assert!(matches!(t.generate_mesh(&k), Step::BuildMesh(_)));
    assert!(matches!(t.write_mesh(&k, mesh_for(&k)), Step::Next(TerrainTask::GenerateMeshResources(_))));
    assert!(matches!(t.generate_chunk(&k), Step::Next(TerrainTask::GenerateMeshResources(_))));
    assert!(matches!(t.stitch_mesh(&k, &StitchStride { min_x: 1, max_x: 2, min_y: 1, max_y: 1 }), Step::Done));
    assert!(matches!(t.attach_render_resources(&k, 9), Step::Done));
    assert!(matches!(t.stitch_mesh(&k, &StitchStride { min_x: 1, max_x: 2, min_y: 1, max_y: 1 }), Step::Stitch(_, _)));
    // after an isolevel change the chunk keeps its samples and is triangulated again
    t.set_isolevel(0.25f32.to_bits());
    assert_eq!(t.isolevel(), 0.25f32.to_bits());
    assert!(matches!(t.generate_chunk(&k), Step::Next(TerrainTask::RegenerateTriangle(_))));
    assert!(matches!(t.regenerate_triangle(&k), Step::Retriangulate(_)));
    assert!(matches!(t.store_triangles(&k, 5, Some(6)), Step::Next(TerrainTask::GenerateMesh(_))));
    assert!(matches!(t.generate_mesh(&k), Step::BuildMesh(_)));
}

#[test]
fn too_coarse_key_fails() {
    let t: Land = Terrain::new(0);
    let k = key_at(0, 0, 256, 0);
    assert!(matches!(t.generate_chunk(&k), Step::Failed(_)));
}

#[test]
fn isolevel_change_empties_the_render_set() {
    let mut t: Land = Terrain::new(0);
    let region = square(0, 0, 256, 256);
    let keys = t.update_terrain(&Point3 { x: 0, y: 0, z: 0 }, &vec![TerrainRegion { region: region.duplicate(), level: 2 }]);
    assert_eq!(keys.len(), 16);
    build_ready_meshes(&mut t, &keys);
    let drawn = t.render(&[region.duplicate()]);
    assert_eq!(drawn.len(), 16);
    t.set_isolevel(0.75f32.to_bits());
    assert!(t.render(&[region]).is_empty());
    assert_eq!(t.mesh_cache().len(), 0);
}

#[test]
fn parent_is_drawn_while_a_child_is_not_ready() {
    let mut t: Land = Terrain::new(0);
    let region = square(0, 0, 256, 256);
    let coarse = t.update_terrain(&Point3 { x: 0, y: 0, z: 0 }, &vec![TerrainRegion { region: region.duplicate(), level: 2 }]);
    build_ready_meshes(&mut t, &coarse);
    // refine the top-left level-2 cell; its children have no mesh yet
    let fine = t.update_terrain(
        &Point3 { x: 0, y: 0, z: 0 },
        &vec![
            TerrainRegion { region: region.duplicate(), level: 2 },
            TerrainRegion { region: square(1, 1, 20, 20), level: 3 },
        ],
    );
    assert_eq!(fine.len(), 16 - 1 + 4);
    let drawn = t.render(&[region.duplicate()]);
    assert_eq!(drawn.len(), 16);
    assert!(drawn.contains(&key_at(0, 0, 64, 2)));
    // once the four children are ready they replace their parent
    let children: Vec<ChunkCacheKey> = fine.iter().filter(|k| k.level == 3).cloned().collect();
    build_ready_meshes(&mut t, &children);
    let drawn = t.render(&[region]);
    assert_eq!(drawn.len(), 19);
    assert!(!drawn.contains(&key_at(0, 0, 64, 2)));
}

#[test]
fn keys_come_farthest_first() {
    let keys = vec![key_at(0, 0, 32, 3), key_at(320, 0, 32, 3), key_at(64, 64, 32, 3), key_at(-96, 0, 32, 3)];
    let sorted = sort_by_distance(&keys, &Point3 { x: 0, y: 0, z: 0 });
    // centers at (336, 16), (80, 80), (-80, 16) and (16, 16)
    assert_eq!(sorted, vec![key_at(320, 0, 32, 3), key_at(64, 64, 32, 3), key_at(-96, 0, 32, 3), key_at(0, 0, 32, 3)]);
}

#[test]
fn update_terrain_orders_keys_by_distance() {
    let mut t: Land = Terrain::new(0);
    let keys = t.update_terrain(
        &Point3 { x: 250, y: 250, z: 0 },
        &vec![TerrainRegion { region: square(0, 0, 256, 256), level: 1 }],
    );
    assert_eq!(keys.len(), 4);
    assert_eq!(keys[0], key_at(0, 0, 128, 1));
    assert_eq!(keys[3], key_at(128, 128, 128, 1));
}

#[test]
fn chunk_cache_is_bounded() {
    let mut t: Land = Terrain::new(0);
    for i in 0..200 {
        let k = key_at(64 * i, 0, 64, 2);
        let c: Chunk<u8> = Chunk::new(k.bounds, 2, chunk_voxel_count(2).unwrap());
        t.write_chunk(&k, c);
    }
    assert_eq!(t.chunk_cache().len(), 128);
    assert!(t.chunk_cache().contains_key(&key_at(64 * 199, 0, 64, 2)));
    assert!(!t.chunk_cache().contains_key(&key_at(0, 0, 64, 2)));
}

#[test]
fn invalidation_drops_triangles_but_keeps_samples() {
    let mut t: Land = Terrain::new(0);
    let k = key_at(0, 0, 64, 2);
    let mut c: Chunk<u8> = Chunk::new(k.bounds, 2, chunk_voxel_count(2).unwrap());
    c.set_voxel_buffers(1, Some(2));
    c.set_triangle_buffers(3, Some(4));
    t.write_chunk(&k, c);
    assert!(matches!(t.run_task(TerrainTask::InvalidateTriangle), Step::Done));
    let chunk = t.chunk_cache().get(&k).unwrap();
    assert!(chunk.triangle_buffer().is_none());
    assert_eq!(chunk.voxel_buffer(), Some(&1));
}

#[test]
fn render_resources_record_side_vertices() {
    // identifiers name two grid points: low half first
    let size = Size3 { width: 4, height: 4, depth: 2 };
    let id = |a: u32, b: u32| a as u64 | ((b as u64) << 32);
    let on_min_x = id(0, 16);
    let on_max_y = id(13, 14);
    let inside = id(5, 6);
    let tris = vec![Triangle { position: [[0.0f32; 3]; 3], id: [on_min_x, on_max_y, inside] }];
    let voxels = vec![0.0f32; 32];
    let mut m: ChunkMesh<f32, u32> =
        ChunkMesh::new(key_at(0, 0, 64, 2).bounds, Mesh::from_triangles(&tris), size, EdgeVoxel::from_voxels(&voxels, size));
    m.create_render_resources(7);
    assert_eq!(m.render_bundle(), Some(&7));
    let e = m.edge_vertex();
    // the first vertex lies on the corner column: on both least-x and least-y faces
    assert_eq!(e.min_x, vec![0]);
    assert_eq!(e.min_y, vec![0]);
    assert_eq!(e.max_y, vec![1]);
    assert!(e.max_x.is_empty());
}

#[test]
fn refreshed_meshes_are_newer_than_the_rest() {
    let mut t: Land = Terrain::new(0);
    let keys: Vec<ChunkCacheKey> = (0..4).map(|i| key_at(64 * i, 0, 64, 2)).collect();
    build_ready_meshes(&mut t, &keys);
    // refresh the two oldest, then fill the cache past its bound: the two
    // not refreshed go first
    t.update_last_accessed(&vec![keys[0], keys[1]]);
    for i in 4..(4 + 256 - 2) {
        let k = key_at(64 * i, 0, 64, 2);
        t.write_mesh(&k, mesh_for(&k));
    }
    assert!(t.mesh_cache().contains_key(&keys[0]));
    assert!(t.mesh_cache().contains_key(&keys[1]));
    assert!(!t.mesh_cache().contains_key(&keys[2]));
    assert!(!t.mesh_cache().contains_key(&keys[3]));
}
