use terrain_lod::mesh::{Mesh, Triangle};

#[test]
fn shared_identifiers_are_welded_in_first_seen_order() {
    let tris = vec![
        Triangle { position: [[0.0f32, 0.0, 0.0], [1.0, 0.0, 0.0], [0.0, 1.0, 0.0]], id: [10, 20, 30] },
        Triangle { position: [[9.0f32, 9.0, 9.0], [1.0, 1.0, 0.0], [0.0, 1.0, 0.0]], id: [20, 40, 30] },
    ];
    let mesh = Mesh::from_triangles(&tris);
    assert_eq!(mesh.ids(), &vec![10, 20, 30, 40]);
    assert_eq!(mesh.faces(), &vec![[0, 1, 2], [1, 3, 2]]);
    // a vertex keeps the position of its first corner
    assert_eq!(mesh.vertex()[1], [1.0, 0.0, 0.0]);
    assert_eq!(mesh.vertex()[3], [1.0, 1.0, 0.0]);
    assert_eq!(mesh.vertex().len(), 4);
}

#[test]
fn empty_soup_gives_empty_mesh() {
    let tris: Vec<Triangle<[f32; 3]>> = vec![];
    let mesh = Mesh::from_triangles(&tris);
    assert!(mesh.ids().is_empty());
    assert!(mesh.faces().is_empty());
}

#[test]
fn faces_around_each_vertex() {
    let tris = vec![
        Triangle { position: [(0, 0, 0), (1, 0, 0), (0, 1, 0)], id: [1, 2, 3] },
        Triangle { position: [(1, 0, 0), (1, 1, 0), (0, 1, 0)], id: [2, 4, 3] },
    ];
    let mesh = Mesh::from_triangles(&tris);
    let around = mesh.vertex_faces();
    assert_eq!(around, vec![vec![0], vec![0, 1], vec![0, 1], vec![1]]);
}

#[test]
fn normals_are_stored_per_vertex() {
    let tris = vec![Triangle { position: [[0.0f32; 3], [1.0, 0.0, 0.0], [0.0, 1.0, 0.0]], id: [1, 2, 3] }];
    let mut mesh = Mesh::from_triangles(&tris);
    mesh.set_normals(vec![[0.0, 0.0, 1.0]; 3]);
    assert_eq!(mesh.normals().len(), 3);
    assert_eq!(mesh.normals()[2], [0.0, 0.0, 1.0]);
}
