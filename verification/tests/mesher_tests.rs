use voxel_mesher::mesher::mask_cell;
use voxel_mesher::{greedy_mesh, BlockScale, MaskCell, VoxelMesh};

/// Builds the per-axis coordinate tables the mesher expects: entry `t` of
/// axis `c` is `((t - dims[c]/2) * scale[c])` as an f32 bit pattern.
fn make_scale(dims: [usize; 3], scale: [f32; 3]) -> BlockScale {
    let max_dim = dims[0].max(dims[1]).max(dims[2]);
    let mut axis: [Vec<u32>; 3] = [Vec::new(), Vec::new(), Vec::new()];
    for c in 0..3 {
        let mut table = Vec::new();
        for t in 0..=max_dim.max(dims[c]) {
            let coord = (t as f32 - dims[c] as f32 * 0.5) * scale[c];
            table.push(coord.to_bits());
        }
        table.truncate(dims[c] + 1);
        axis[c] = table;
    }
    BlockScale { axis }
}

fn mesh_grid(grid: &[u32], dims: [usize; 3]) -> VoxelMesh {
    let scale = make_scale(dims, [0.25, 0.25, 0.25]);
    let mut vertices = Vec::new();
    let mut indices = Vec::new();
    let ok = greedy_mesh(grid, dims, &mut vertices, &mut indices, &scale);
    assert!(ok);
    VoxelMesh { vertices, indices }
}

fn assert_valid_mesh(m: &VoxelMesh) {
    assert_eq!(m.vertices.len() % 4, 0);
    assert_eq!(m.indices.len() % 6, 0);
    assert_eq!(3 * m.vertices.len(), 2 * m.indices.len());
    for &ix in &m.indices {
        assert!((ix as usize) < m.vertices.len());
    }
}

#[test]
fn empty_grid_yields_empty_mesh() {
    let dims = [4usize, 5, 6];
    let grid = vec![0u32; 4 * 5 * 6];
    let m = mesh_grid(&grid, dims);
    assert!(m.vertices.is_empty());
    assert!(m.indices.is_empty());
}

#[test]
fn empty_one_by_one_grid_yields_empty_mesh() {
    let m = mesh_grid(&[0u32], [1, 1, 1]);
    assert!(m.vertices.is_empty());
    assert!(m.indices.is_empty());
}

#[test]
fn single_voxel_produces_six_quads() {
    let dims = [3usize, 3, 3];
    let mut grid = vec![0u32; 27];
    grid[1 * 9 + 1 * 3 + 1] = 0xFF0000FF;
    let m = mesh_grid(&grid, dims);
    assert_eq!(m.vertices.len(), 24);
    assert_eq!(m.indices.len(), 36);
    assert_valid_mesh(&m);
    for v in &m.vertices {
        assert_eq!(v.rgba, 0xFF0000FF);
    }
}

#[test]
fn single_voxel_in_unit_grid_produces_six_quads() {
    let m = mesh_grid(&[0x11223344], [1, 1, 1]);
    assert_eq!(m.vertices.len(), 24);
    assert_eq!(m.indices.len(), 36);
    assert_valid_mesh(&m);
}

#[test]
fn row_of_identical_voxels_merges_to_six_quads() {
    let n = 7usize;
    let dims = [n, 1, 1];
    let grid = vec![0xAABBCCFF; n];
    let m = mesh_grid(&grid, dims);
    assert_eq!(m.vertices.len(), 24);
    assert_eq!(m.indices.len(), 36);
    assert_valid_mesh(&m);
}

#[test]
fn solid_block_of_uniform_color_merges_to_six_quads() {
    let dims = [4usize, 3, 2];
    let grid = vec![0x55AA55FF; 4 * 3 * 2];
    let m = mesh_grid(&grid, dims);
    assert_eq!(m.vertices.len(), 24);
    assert_eq!(m.indices.len(), 36);
    assert_valid_mesh(&m);
}

#[test]
fn different_colors_produce_no_face_between_them() {
    let dims = [2usize, 1, 1];
    let c1 = 0x111111FF;
    let c2 = 0x222222FF;
    let m = mesh_grid(&[c1, c2], dims);
    // 2 end caps along x, plus 4 unmerged side faces per voxel; the shared
    // boundary produces nothing, else there would be 12 quads.
    assert_eq!(m.vertices.len(), 40);
    assert_eq!(m.indices.len(), 60);
    assert_valid_mesh(&m);
    for v in &m.vertices {
        assert!(v.rgba == c1 || v.rgba == c2);
    }
    // Each quad carries exactly one colour.
    for q in 0..m.vertices.len() / 4 {
        let c = m.vertices[4 * q].rgba;
        for k in 0..4 {
            assert_eq!(m.vertices[4 * q + k].rgba, c);
        }
    }
}

#[test]
fn same_colors_merge_across_the_boundary() {
    let dims = [2usize, 1, 1];
    let c = 0x111111FF;
    let m = mesh_grid(&[c, c], dims);
    assert_eq!(m.vertices.len(), 24);
    assert_eq!(m.indices.len(), 36);
    assert_valid_mesh(&m);
}

#[test]
fn mesher_appends_to_existing_buffers() {
    let scale = make_scale([1, 1, 1], [1.0, 1.0, 1.0]);
    let mut vertices = Vec::new();
    let mut indices = Vec::new();
    greedy_mesh(&[7u32], [1, 1, 1], &mut vertices, &mut indices, &scale);
    let first_len = vertices.len();
    assert_eq!(first_len, 24);
    greedy_mesh(&[7u32], [1, 1, 1], &mut vertices, &mut indices, &scale);
    assert_eq!(vertices.len(), 48);
    assert_eq!(indices.len(), 72);
    // the first mesh is still a prefix
    for k in 0..36 {
        assert!((indices[k] as usize) < 24);
    }
}

#[test]
fn vertex_positions_come_from_the_scale_tables() {
    let dims = [1usize, 1, 1];
    let scale = make_scale(dims, [2.0, 2.0, 2.0]);
    let expected_lo = ((0.0f32 - 0.5) * 2.0).to_bits();
    let expected_hi = ((1.0f32 - 0.5) * 2.0).to_bits();
    let m = mesh_grid(&[5u32], dims);
    let scale_used = make_scale(dims, [0.25, 0.25, 0.25]);
    for v in &m.vertices {
        assert!(v.position.x == scale_used.axis[0][0] || v.position.x == scale_used.axis[0][1]);
        assert!(v.position.y == scale_used.axis[1][0] || v.position.y == scale_used.axis[1][1]);
        assert!(v.position.z == scale_used.axis[2][0] || v.position.z == scale_used.axis[2][1]);
    }
    assert_eq!(scale.axis[0][0], expected_lo);
    assert_eq!(scale.axis[0][1], expected_hi);
}

#[test]
fn mask_cell_reports_transitions_only() {
    assert_eq!(mask_cell(0, 5), MaskCell { color: 5, negative_face: true });
    assert_eq!(mask_cell(5, 0), MaskCell { color: 5, negative_face: false });
    assert_eq!(mask_cell(0, 0), MaskCell { color: 0, negative_face: false });
    // two different solid colours: no face at all
    assert_eq!(mask_cell(3, 7), MaskCell { color: 0, negative_face: false });
}
