//! Mesh data types and quad emission.

use vstd::prelude::*;

verus! {

/// A 3-component vector whose components are IEEE 754 single-precision bit
/// patterns.  The mesher never does float arithmetic itself: callers hand it
/// the scaled lattice coordinates already converted to bit patterns, and the
/// codec moves the patterns byte for byte, so positions survive a round trip
/// bit for bit.
#[derive(PartialEq, Debug, Clone, Copy)]
pub struct Vec3Bits {
    pub x: u32,
    pub y: u32,
    pub z: u32,
}

/// One mesh vertex: a position and a packed RGBA colour.
#[derive(PartialEq, Debug, Clone, Copy)]
pub struct Vertex {
    pub position: Vec3Bits,
    pub rgba: u32,
}

impl Vertex {
    pub fn new(position: Vec3Bits, colour: u32) -> (r: Self)
        ensures
            r == (Vertex { position, rgba: colour }),
    {
        Self { position, rgba: colour }
    }
}

/// Plane data with 4 corners, wound clockwise or counter-clockwise depending
/// on the face orientation.  A quad lives only long enough to be expanded
/// into 4 vertices and 6 indices by [`draw_quad`].
#[derive(Debug, Clone, Copy)]
pub struct Quad {
    pub colour: u32,
    pub corners: [Vec3Bits; 4],
}

/// A single voxel of a sparse voxel list: a lattice position and a colour.
#[derive(Debug)]
pub struct Voxel {
    pub pos: [i32; 3],
    pub colour: u32,
}

/// A triangulated mesh: a vertex buffer and a triangle-index buffer.
/// Every index references a position in `vertices`.
#[derive(PartialEq, Debug)]
pub struct VoxelMesh {
    pub vertices: Vec<Vertex>,
    pub indices: Vec<u32>,
}

/// The 4 vertices a quad expands into: its corners in order, each carrying
/// the quad's colour.
pub open spec fn quad_vertices(q: Quad) -> Seq<Vertex> {
    seq![
        Vertex { position: q.corners@[0], rgba: q.colour },
        Vertex { position: q.corners@[1], rgba: q.colour },
        Vertex { position: q.corners@[2], rgba: q.colour },
        Vertex { position: q.corners@[3], rgba: q.colour },
    ]
}

/// The 6 indices a quad expands into when its first vertex lands at offset
/// `k`: two triangles sharing the `k`..`k+2` diagonal.
pub open spec fn quad_indices(k: u32) -> Seq<u32>
    recommends
        k + 3 <= u32::MAX,
{
    seq![k, (k + 1) as u32, (k + 2) as u32, (k + 2) as u32, (k + 3) as u32, k]
}

/// `(v1, i1)` is `(v0, i0)` with whole quads appended: the old buffers are
/// prefixes, vertices grow by fours and indices by sixes in a 4:6 ratio, and
/// every appended index points into `v1`.
pub open spec fn mesh_extends(v0: Seq<Vertex>, i0: Seq<u32>, v1: Seq<Vertex>, i1: Seq<u32>) -> bool {
    &&& v0.is_prefix_of(v1)
    &&& i0.is_prefix_of(i1)
    &&& (v1.len() - v0.len()) % 4 == 0
    &&& (i1.len() - i0.len()) % 6 == 0
    &&& 3 * (v1.len() - v0.len()) == 2 * (i1.len() - i0.len())
    &&& forall|k: int|
        i0.len() <= k < i1.len() ==> v0.len() <= (#[trigger] i1[k] as int) < v1.len()
}

pub proof fn lemma_mesh_extends_refl(v: Seq<Vertex>, i: Seq<u32>)
    ensures
        mesh_extends(v, i, v, i),
{
    assert(v =~= v.subrange(0, v.len() as int));
    assert(i =~= i.subrange(0, i.len() as int));
}

pub proof fn lemma_mesh_extends_trans(
    v0: Seq<Vertex>, i0: Seq<u32>,
    v1: Seq<Vertex>, i1: Seq<u32>,
    v2: Seq<Vertex>, i2: Seq<u32>,
)
    requires
        mesh_extends(v0, i0, v1, i1),
        mesh_extends(v1, i1, v2, i2),
    ensures
        mesh_extends(v0, i0, v2, i2),
{
    assert(v0 =~= v2.subrange(0, v0.len() as int)) by {
        assert(v0 =~= v1.subrange(0, v0.len() as int));
        assert(v1 =~= v2.subrange(0, v1.len() as int));
    }
    assert(i0 =~= i2.subrange(0, i0.len() as int)) by {
        assert(i0 =~= i1.subrange(0, i0.len() as int));
        assert(i1 =~= i2.subrange(0, i1.len() as int));
    }
    assert forall|k: int|
        i0.len() <= k < i2.len() implies v0.len() <= (#[trigger] i2[k] as int) < v2.len() by {
        if k < i1.len() {
            assert(i1 =~= i2.subrange(0, i1.len() as int));
            assert(i2[k] == i1[k]);
            assert(v0.len() <= (i1[k] as int) < v1.len());
            assert(v1.len() <= v2.len());
        } else {
            assert(v1.len() <= (i2[k] as int));
            assert(v0.len() <= v1.len());
        }
    }
}

/// Appending one quad keeps [`mesh_extends`] from any starting point.
pub proof fn lemma_mesh_extends_quad(
    v0: Seq<Vertex>, i0: Seq<u32>,
    v1: Seq<Vertex>, i1: Seq<u32>,
    q: Quad,
    v2: Seq<Vertex>, i2: Seq<u32>,
)
    requires
        mesh_extends(v0, i0, v1, i1),
        v1.len() + 4 <= u32::MAX,
        v2 == v1 + quad_vertices(q),
        i2 == i1 + quad_indices(v1.len() as u32),
    ensures
        mesh_extends(v0, i0, v2, i2),
{
    assert(v1 =~= v2.subrange(0, v1.len() as int));
    assert(i1 =~= i2.subrange(0, i1.len() as int));
    assert forall|k: int|
        i1.len() <= k < i2.len() implies v1.len() <= (#[trigger] i2[k] as int) < v2.len() by {
        assert(i2[k] == quad_indices(v1.len() as u32)[k - i1.len()]);
    }
    lemma_mesh_extends_trans(v0, i0, v1, i1, v2, i2);
}

/// Index validity: a mesh assembled entirely out of quads, starting from
/// empty buffers, references only valid vertices, and its buffer lengths are
/// whole numbers of quads (4 vertices and 6 indices each).
pub proof fn lemma_index_validity(v: Seq<Vertex>, i: Seq<u32>)
    requires
        mesh_extends(Seq::<Vertex>::empty(), Seq::<u32>::empty(), v, i),
    ensures
        forall|k: int| 0 <= k < i.len() ==> (i[k] as int) < v.len(),
        v.len() % 4 == 0,
        i.len() % 6 == 0,
        3 * v.len() == 2 * i.len(),
{
}

/// Appended indices reference only appended vertices: every index a batch
/// of quads adds lies at or above the vertex offset the batch started at.
pub proof fn lemma_appended_indices_local(v0: Seq<Vertex>, i0: Seq<u32>, v: Seq<Vertex>, i: Seq<u32>)
    requires
        mesh_extends(v0, i0, v, i),
    ensures
        forall|k: int| i0.len() <= k < i.len() ==> v0.len() <= (#[trigger] i[k] as int) < v.len(),
{
}

/// Appends a quad to the output buffers: its 4 corners as vertices (all
/// carrying the quad's colour), then 6 indices forming two triangles that
/// share the first-to-third-corner diagonal.
pub fn draw_quad(vertices: &mut Vec<Vertex>, indices: &mut Vec<u32>, quad: Quad)
    requires
        old(vertices)@.len() + 4 <= u32::MAX,
    ensures
        final(vertices)@ == old(vertices)@ + quad_vertices(quad),
        final(indices)@ == old(indices)@ + quad_indices(old(vertices)@.len() as u32),
{
    let k = vertices.len() as u32;
    vertices.push(Vertex::new(quad.corners[0], quad.colour));
    vertices.push(Vertex::new(quad.corners[1], quad.colour));
    vertices.push(Vertex::new(quad.corners[2], quad.colour));
    vertices.push(Vertex::new(quad.corners[3], quad.colour));

    indices.push(k);
    indices.push(k + 1);
    indices.push(k + 2);
    indices.push(k + 2);
    indices.push(k + 3);
    indices.push(k);

    assert(vertices@ =~= old(vertices)@ + quad_vertices(quad));
    assert(indices@ =~= old(indices)@ + quad_indices(k));
}

} // verus!
