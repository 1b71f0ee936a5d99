use claimlands::mesh::MeshCounts;

fn empty() -> MeshCounts {
    MeshCounts { positions: 0, normals: 0, uvs: 0, colors: 0, face_tiles: 0 }
}

#[test]
fn validate_checks_every_attribute() {
    let mut m = empty();
    assert!(m.is_empty() && m.validate().is_ok());
    // Three vertices with a position and a normal each.
    m.positions = 9;
    m.normals = 9;
    assert_eq!((m.vertex_count(), m.triangle_count()), (3, 1));
    assert!(m.validate().is_ok());
    m.uvs = 5;
    assert!(m.validate().unwrap_err().starts_with("uvs"));
    m.uvs = 0;
    m.face_tiles = 2;
    assert!(m.validate().unwrap_err().starts_with("face_tile"));
}

#[test]
fn mesh_messages_name_the_lengths() {
    let mut m = empty();
    m.positions = 10;
    assert_eq!(m.validate(), Err("positions length 10 is not a multiple of 9".to_string()));
    m.positions = 18;
    m.normals = 9;
    assert_eq!(m.validate(), Err("normals length 9 != positions length 18".to_string()));
    m.normals = 18;
    m.uvs = 4;
    assert_eq!(m.validate(), Err("uvs length 4 for 6 vertices".to_string()));
    m.uvs = 12;
    m.colors = 3;
    assert_eq!(m.validate(), Err("colors length 3 != positions length 18".to_string()));
    m.colors = 18;
    m.face_tiles = 3;
    assert_eq!(m.validate(), Err("face_tile length 3 for 2 triangles".to_string()));
    m.face_tiles = 2;
    assert_eq!(m.validate(), Ok(()));
}
