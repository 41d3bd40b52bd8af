use voxel_mesher::{draw_quad, greedy_mesh, BlockScale, Quad, Vec3Bits, Vertex, VoxelMesh,
    VoxelMeshDecodeError};

const MAGIC: [u8; 10] = [0x56, 0x4f, 0x58, 0x45, 0x4c, 0x5f, 0x4d, 0x45, 0x53, 0x48];

fn sample_mesh() -> VoxelMesh {
    let mut vertices = Vec::new();
    let mut indices = Vec::new();
    let quad = Quad {
        colour: 0xDEADBEEF,
        corners: [
            Vec3Bits { x: 1.0f32.to_bits(), y: 2.0f32.to_bits(), z: 3.0f32.to_bits() },
            Vec3Bits { x: 4.5f32.to_bits(), y: 5.5f32.to_bits(), z: 6.5f32.to_bits() },
            Vec3Bits { x: (-1.25f32).to_bits(), y: 0.0f32.to_bits(), z: 7.0f32.to_bits() },
            Vec3Bits { x: 8.0f32.to_bits(), y: (-2.0f32).to_bits(), z: 9.0f32.to_bits() },
        ],
    };
    draw_quad(&mut vertices, &mut indices, quad);
    VoxelMesh { vertices, indices }
}

#[test]
fn draw_quad_appends_four_vertices_and_six_indices() {
    let m = sample_mesh();
    assert_eq!(m.vertices.len(), 4);
    assert_eq!(m.indices, vec![0, 1, 2, 2, 3, 0]);
    for v in &m.vertices {
        assert_eq!(v.rgba, 0xDEADBEEF);
    }
    assert_eq!(m.vertices[0].position.x, 1.0f32.to_bits());
    assert_eq!(m.vertices[3].position.z, 9.0f32.to_bits());
}

#[test]
fn vertex_new_packs_position_and_colour() {
    let p = Vec3Bits { x: 1, y: 2, z: 3 };
    let v = Vertex::new(p, 77);
    assert_eq!(v.position, p);
    assert_eq!(v.rgba, 77);
}

#[test]
fn encode_empty_mesh_layout() {
    let m = VoxelMesh { vertices: Vec::new(), indices: Vec::new() };
    let bytes = m.encode();
    let mut expected = Vec::new();
    expected.extend_from_slice(&MAGIC);
    expected.extend_from_slice(&[0, 0, 0, 1]);
    expected.extend_from_slice(&[0, 0, 0, 0]); // vertex count
    expected.extend_from_slice(&[0, 0, 0, 0]); // index count
    assert_eq!(bytes, expected);
}

#[test]
fn encode_writes_little_endian_fields() {
    let m = VoxelMesh {
        vertices: vec![Vertex { position: Vec3Bits { x: 0x01020304, y: 0, z: 0 }, rgba: 0xA1B2C3D4 }],
        indices: vec![0x00010203],
    };
    let bytes = m.encode();
    assert_eq!(bytes.len(), 22 + 16 + 4);
    assert_eq!(&bytes[14..18], &[1, 0, 0, 0]); // one vertex
    assert_eq!(&bytes[18..22], &[0x04, 0x03, 0x02, 0x01]); // x bits LE
    assert_eq!(&bytes[30..34], &[0xD4, 0xC3, 0xB2, 0xA1]); // rgba LE
    assert_eq!(&bytes[34..38], &[1, 0, 0, 0]); // one index
    assert_eq!(&bytes[38..42], &[0x03, 0x02, 0x01, 0x00]); // index LE
}

#[test]
fn round_trip_of_a_hand_built_mesh() {
    let m = sample_mesh();
    let bytes = m.encode();
    let back = VoxelMesh::decode(&bytes).unwrap();
    assert_eq!(m, back);
}

#[test]
fn round_trip_of_a_meshed_grid() {
    let dims = [3usize, 2, 2];
    let mut grid = vec![0u32; 12];
    grid[0] = 0x10203040;
    grid[1] = 0x10203040;
    grid[5] = 0x99999999;
    let mut axis: [Vec<u32>; 3] = [Vec::new(), Vec::new(), Vec::new()];
    for c in 0..3 {
        for t in 0..=dims[c] {
            let coord = (t as f32 - dims[c] as f32 * 0.5) * 0.5;
            axis[c].push(coord.to_bits());
        }
    }
    let scale = BlockScale { axis };
    let mut vertices = Vec::new();
    let mut indices = Vec::new();
    assert!(greedy_mesh(&grid, dims, &mut vertices, &mut indices, &scale));
    let m = VoxelMesh { vertices, indices };
    let bytes = m.encode();
    let back = VoxelMesh::decode(&bytes).unwrap();
    assert_eq!(m, back);
}

#[test]
fn decode_empty_buffer_is_invalid_reader() {
    assert!(matches!(
        VoxelMesh::decode(&[]),
        Err(VoxelMeshDecodeError::InvalidByteWriter)
    ));
}

#[test]
fn decode_short_buffer_is_end_of_input() {
    assert!(matches!(VoxelMesh::decode(&[0x56, 0x4f]), Err(VoxelMeshDecodeError::EOI)));
}

#[test]
fn decode_header_only_is_end_of_input() {
    let mut bytes = Vec::new();
    bytes.extend_from_slice(&MAGIC);
    bytes.extend_from_slice(&[0, 0, 0, 1]);
    assert!(matches!(VoxelMesh::decode(&bytes), Err(VoxelMeshDecodeError::EOI)));
}

#[test]
fn decode_truncated_vertex_data_is_end_of_input() {
    let m = sample_mesh();
    let bytes = m.encode();
    for cut in [bytes.len() - 1, 30, 20, 18] {
        assert!(matches!(
            VoxelMesh::decode(&bytes[..cut]),
            Err(VoxelMeshDecodeError::EOI)
        ));
    }
}

#[test]
fn decode_wrong_magic_is_invalid_magic() {
    let m = sample_mesh();
    let mut bytes = m.encode();
    bytes[0] = b'W';
    assert!(matches!(
        VoxelMesh::decode(&bytes),
        Err(VoxelMeshDecodeError::InvalidMagicValue)
    ));
}

#[test]
fn decode_wrong_version_reports_both_versions() {
    let m = sample_mesh();
    let mut bytes = m.encode();
    bytes[10] = 9;
    bytes[11] = 9;
    bytes[12] = 9;
    bytes[13] = 9;
    match VoxelMesh::decode(&bytes) {
        Err(VoxelMeshDecodeError::InvalidVersion { lib_version, file_version }) => {
            assert_eq!(lib_version, [0, 0, 0, 1]);
            assert_eq!(file_version, [9, 9, 9, 9]);
        }
        other => panic!("expected InvalidVersion, got {:?}", other),
    }
}

#[test]
fn decode_rejects_overstated_vertex_count() {
    let m = VoxelMesh { vertices: Vec::new(), indices: Vec::new() };
    let mut bytes = m.encode();
    bytes[14] = 5; // claims 5 vertices that are not there
    assert!(matches!(VoxelMesh::decode(&bytes), Err(VoxelMeshDecodeError::EOI)));
}

#[test]
fn decode_rejects_overstated_index_count() {
    let m = sample_mesh();
    let mut bytes = m.encode();
    let ioff = 18 + 16 * m.vertices.len();
    bytes[ioff] = 200; // claims 200 indices that are not there
    assert!(matches!(VoxelMesh::decode(&bytes), Err(VoxelMeshDecodeError::EOI)));
}
