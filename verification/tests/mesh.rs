use renderer::datatypes::Vertex;
use renderer::mesh::Mesh;

#[test]
fn mesh_without_indices_keeps_vertex_order() {
    let vertices = vec![
        Vertex::new(glam::Vec3::new(0.0, 0.0, 0.0), 1u32),
        Vertex::new(glam::Vec3::new(1.0, 0.0, 0.0), 2u32),
        Vertex::new(glam::Vec3::new(0.0, 1.0, 0.0), 3u32),
    ];
    let mesh = Mesh::new(vertices, None);
    assert_eq!(mesh.data(), &[1, 2, 3]);
    assert_eq!(mesh.positions()[1], glam::Vec3::new(1.0, 0.0, 0.0));
}

#[test]
fn mesh_with_indices_expands_them() {
    let vertices = vec![
        Vertex::new(glam::Vec3::new(0.0, 0.0, 0.0), 'a'),
        Vertex::new(glam::Vec3::new(1.0, 0.0, 0.0), 'b'),
        Vertex::new(glam::Vec3::new(0.0, 1.0, 0.0), 'c'),
    ];
    let mesh = Mesh::new(vertices, Some(vec![2, 0, 1, 1, 1, 0]));
    assert_eq!(mesh.data(), &['c', 'a', 'b', 'b', 'b', 'a']);
    assert_eq!(mesh.positions().len(), 6);
    assert_eq!(mesh.positions()[0], glam::Vec3::new(0.0, 1.0, 0.0));
}
