use terrain_lod::base::{Box3, Point3};
use terrain_lod::chunk::{chunk_voxel_count, decode_triangles, decode_voxels, split_id, Chunk, Size3};
use terrain_lod::chunk_mesh::{stride_endpoints, voxel_index_to_point, EdgeVoxel, GridPoint};

fn cell() -> Box3 {
    Box3 { min: Point3 { x: 0, y: 0, z: -1 }, max: Point3 { x: 64, y: 64, z: 1 } }
}

#[test]
fn grid_size_per_level() {
    assert_eq!(chunk_voxel_count(0), None);
    assert_eq!(chunk_voxel_count(1), None);
    assert_eq!(chunk_voxel_count(2), Some(Size3 { width: 32, height: 32, depth: 1 }));
    assert_eq!(chunk_voxel_count(5), Some(Size3 { width: 32, height: 32, depth: 8 }));
    assert_eq!(chunk_voxel_count(8), Some(Size3 { width: 32, height: 32, depth: 64 }));
    assert_eq!(chunk_voxel_count(9), None);
}

#[test]
fn buffer_sizes_and_workgroups() {
    let grid = chunk_voxel_count(4).unwrap();
    let chunk: Chunk<u8> = Chunk::new(cell(), 4, grid);
    assert_eq!(chunk.total_voxel_count(), 32 * 32 * 4);
    assert_eq!(chunk.total_cell_count(), 31 * 31 * 3);
    assert_eq!(chunk.voxel_buffer_size(), 32 * 32 * 4 * 4);
    assert_eq!(chunk.triangle_buffer_size(), 8 + 31 * 31 * 3 * 5 * 80);
    assert_eq!(chunk.workgroup_counts(), (4, 4, 1));
}

#[test]
fn staged_voxel_buffer_decodes_to_one_sample_per_voxel() {
    for level in 2..=8 {
        let grid = chunk_voxel_count(level).unwrap();
        let chunk: Chunk<u8> = Chunk::new(cell(), level, grid);
        let bytes = vec![0u8; chunk.voxel_buffer_size() as usize];
        let voxels = decode_voxels(&bytes);
        assert_eq!(voxels.len() as u32, grid.width * grid.height * grid.depth);
    }
}

#[test]
fn voxel_values_are_little_endian_float_bits() {
    let mut bytes = vec![];
    bytes.extend_from_slice(&0.5f32.to_le_bytes());
    bytes.extend_from_slice(&(-2.0f32).to_le_bytes());
    let v = decode_voxels(&bytes);
    assert_eq!(v, vec![0.5f32.to_bits(), (-2.0f32).to_bits()]);
}

#[test]
fn triangle_buffer_records() {
    let mut bytes = vec![0u8; 16 + 80];
    bytes[0..4].copy_from_slice(&1u32.to_le_bytes());
    let base = 16;
    for k in 0..3 {
        for c in 0..3 {
            let off = base + 16 * k + 4 * c;
            bytes[off..off + 4].copy_from_slice(&((10 * k + c) as f32).to_le_bytes());
        }
        let off = base + 48 + 8 * k;
        bytes[off..off + 4].copy_from_slice(&(100 + k as u32).to_le_bytes());
        bytes[off + 4..off + 8].copy_from_slice(&(200 + k as u32).to_le_bytes());
    }
    let tris = decode_triangles(&bytes).unwrap();
    assert_eq!(tris.len(), 1);
    assert_eq!(f32::from_bits(tris[0].position_bits[2][1]), 21.0);
    let (lo, hi) = split_id(tris[0].id[1]);
    assert_eq!((lo, hi), (101, 201));
}

#[test]
fn triangle_buffer_too_short_or_empty() {
    let mut bytes = vec![0u8; 20];
    assert_eq!(decode_triangles(&bytes).map(|v| v.len()), Some(0));
    bytes[0..4].copy_from_slice(&2u32.to_le_bytes());
    assert!(decode_triangles(&bytes).is_none());
    assert!(decode_triangles(&[1u8, 0]).is_none());
}

#[test]
fn triangle_buffer_marks_and_clears() {
    let mut chunk: Chunk<&str> = Chunk::new(cell(), 3, chunk_voxel_count(3).unwrap());
    assert!(chunk.triangle_buffer().is_none());
    chunk.set_voxel_buffers("voxels", Some("staged voxels"));
    chunk.set_triangle_buffers("tris", Some("staged tris"));
    assert_eq!(chunk.triangle_buffer(), Some(&"tris"));
    chunk.clear_triangle_buffer();
    assert!(chunk.triangle_buffer().is_none());
    assert_eq!(chunk.voxel_buffer(), Some(&"voxels"));
}

#[test]
fn side_faces_of_the_grid() {
    let size = Size3 { width: 3, height: 2, depth: 2 };
    let voxels: Vec<u32> = (0..12).collect();
    let e = EdgeVoxel::from_voxels(&voxels, size);
    // x = 0: indices y + 2 z -> x + 3 (y + 2 z)
    assert_eq!(e.min_x().voxels(), &vec![0, 3, 6, 9]);
    assert_eq!(e.max_x().voxels(), &vec![2, 5, 8, 11]);
    assert_eq!(e.min_y().voxels(), &vec![0, 1, 2, 6, 7, 8]);
    assert_eq!(e.max_y().voxels(), &vec![3, 4, 5, 9, 10, 11]);
    assert_eq!(e.min_y().point_to_index(2, 1), 5);
}

#[test]
fn index_to_grid_point() {
    let size = Size3 { width: 32, height: 32, depth: 4 };
    assert_eq!(voxel_index_to_point(0, size), GridPoint { x: 0, y: 0, z: 0 });
    assert_eq!(voxel_index_to_point(33, size), GridPoint { x: 1, y: 1, z: 0 });
    assert_eq!(voxel_index_to_point(32 * 32 * 3 + 31, size), GridPoint { x: 31, y: 0, z: 3 });
}

#[test]
fn stride_endpoints_round_away_from_each_other() {
    assert_eq!(stride_endpoints((5, 3), (6, 3), 1), ((5, 3), (6, 3)));
    assert_eq!(stride_endpoints((5, 3), (6, 3), 4), ((4, 4), (8, 4)));
    assert_eq!(stride_endpoints((6, 3), (5, 3), 4), ((8, 4), (4, 4)));
}

#[test]
fn side_faces_read_only_the_grid_prefix() {
    let size = Size3 { width: 2, height: 2, depth: 1 };
    let voxels: Vec<u32> = (0..10).collect();
    let e = EdgeVoxel::from_voxels(&voxels, size);
    assert_eq!(e.min_x().voxels(), &vec![0, 2]);
    assert_eq!(e.max_y().voxels(), &vec![2, 3]);
}
