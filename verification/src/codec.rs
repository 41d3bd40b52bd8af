//! Binary mesh codec.
//!
//! Layout (little-endian): a 10-byte magic marker, a 4-byte version tag, a
//! `u32` vertex count, the vertices (four `u32` little-endian fields each:
//! three position bit patterns and the colour), a `u32` index count, then the
//! indices.  Decoding validates the magic marker and the version tag and
//! treats any truncation after a valid header as a single generic
//! end-of-input error.

use vstd::prelude::*;

use crate::mesh::{Vec3Bits, Vertex, VoxelMesh};

verus! {

/// Decoding failures.  Decoding is atomic: any structural problem discards
/// the whole parse and reports exactly one of these.
#[derive(PartialEq, Debug)]
pub enum VoxelMeshDecodeError {
    /// The buffer was too short to construct a byte reader over it at all.
    InvalidByteWriter,
    /// The first 10 bytes did not match the magic marker.
    InvalidMagicValue,
    /// The buffer ran out while a fixed-size field was being read.
    EOI,
    /// The version tag did not match the version this library writes.
    InvalidVersion { lib_version: [u8; 4], file_version: [u8; 4] },
}

/// The fixed 10-byte magic marker, the ASCII bytes of `VOXEL_MESH`.
pub open spec fn spec_magic() -> Seq<u8> {
    seq![0x56u8, 0x4fu8, 0x58u8, 0x45u8, 0x4cu8, 0x5fu8, 0x4du8, 0x45u8, 0x53u8, 0x48u8]
}

/// The 4-byte version tag of the format this library writes.
pub open spec fn spec_version() -> Seq<u8> {
    seq![0u8, 0u8, 0u8, 1u8]
}

/// The 4 little-endian bytes of a `u32`.
pub open spec fn le32(x: u32) -> Seq<u8> {
    seq![(x & 0xff) as u8, ((x >> 8) & 0xff) as u8, ((x >> 16) & 0xff) as u8, ((x >> 24) & 0xff) as u8]
}

/// The `u32` assembled from 4 little-endian bytes.
pub open spec fn u32_from_le(b0: u8, b1: u8, b2: u8, b3: u8) -> u32 {
    (b0 as u32) | ((b1 as u32) << 8) | ((b2 as u32) << 16) | ((b3 as u32) << 24)
}

proof fn lemma_le32_recompose(x: u32)
    by (bit_vector)
    ensures
        u32_from_le(
            (x & 0xff) as u8,
            ((x >> 8) & 0xff) as u8,
            ((x >> 16) & 0xff) as u8,
            ((x >> 24) & 0xff) as u8,
        ) == x,
{
}

/// The 16 bytes of one vertex: position bit patterns, then the colour.
pub open spec fn vertex_bytes(v: Vertex) -> Seq<u8> {
    le32(v.position.x) + le32(v.position.y) + le32(v.position.z) + le32(v.rgba)
}

/// The vertex buffer serialised back to back.
pub open spec fn vertices_bytes(vs: Seq<Vertex>) -> Seq<u8>
    decreases vs.len(),
{
    if vs.len() == 0 {
        Seq::empty()
    } else {
        vertices_bytes(vs.drop_last()) + vertex_bytes(vs.last())
    }
}

/// The index buffer serialised back to back.
pub open spec fn indices_bytes(is: Seq<u32>) -> Seq<u8>
    decreases is.len(),
{
    if is.len() == 0 {
        Seq::empty()
    } else {
        indices_bytes(is.drop_last()) + le32(is.last())
    }
}

/// The full encoding of a mesh: magic, version, vertex count, vertices,
/// index count, indices.
pub open spec fn spec_encode(vs: Seq<Vertex>, is: Seq<u32>) -> Seq<u8>
    recommends
        vs.len() <= u32::MAX,
        is.len() <= u32::MAX,
{
    spec_magic() + spec_version() + le32(vs.len() as u32) + vertices_bytes(vs)
        + le32(is.len() as u32) + indices_bytes(is)
}

pub proof fn lemma_vertices_bytes_len(vs: Seq<Vertex>)
    ensures
        vertices_bytes(vs).len() == 16 * vs.len(),
    decreases vs.len(),
{
    if vs.len() > 0 {
        lemma_vertices_bytes_len(vs.drop_last());
    }
}

pub proof fn lemma_indices_bytes_len(is: Seq<u32>)
    ensures
        indices_bytes(is).len() == 4 * is.len(),
    decreases is.len(),
{
    if is.len() > 0 {
        lemma_indices_bytes_len(is.drop_last());
    }
}

proof fn lemma_vertices_bytes_index(vs: Seq<Vertex>, i: int)
    requires
        0 <= i < vs.len(),
    ensures
        vertices_bytes(vs).subrange(16 * i, 16 * i + 16) == vertex_bytes(vs[i]),
    decreases vs.len(),
{
    lemma_vertices_bytes_len(vs);
    lemma_vertices_bytes_len(vs.drop_last());
    if i == vs.len() - 1 {
        assert(vertices_bytes(vs).subrange(16 * i, 16 * i + 16) =~= vertex_bytes(vs.last()));
    } else {
        lemma_vertices_bytes_index(vs.drop_last(), i);
        assert(vertices_bytes(vs).subrange(16 * i, 16 * i + 16) =~= vertices_bytes(
            vs.drop_last(),
        ).subrange(16 * i, 16 * i + 16));
        assert(vs.drop_last()[i] == vs[i]);
    }
}

proof fn lemma_indices_bytes_index(is: Seq<u32>, i: int)
    requires
        0 <= i < is.len(),
    ensures
        indices_bytes(is).subrange(4 * i, 4 * i + 4) == le32(is[i]),
    decreases is.len(),
{
    lemma_indices_bytes_len(is);
    lemma_indices_bytes_len(is.drop_last());
    if i == is.len() - 1 {
        assert(indices_bytes(is).subrange(4 * i, 4 * i + 4) =~= le32(is.last()));
    } else {
        lemma_indices_bytes_index(is.drop_last(), i);
        assert(indices_bytes(is).subrange(4 * i, 4 * i + 4) =~= indices_bytes(
            is.drop_last(),
        ).subrange(4 * i, 4 * i + 4));
        assert(is.drop_last()[i] == is[i]);
    }
}

/// The `u32` stored little-endian at byte offset `off`.
pub open spec fn u32_at(d: Seq<u8>, off: int) -> u32
    recommends
        0 <= off,
        off + 4 <= d.len(),
{
    u32_from_le(d[off], d[off + 1], d[off + 2], d[off + 3])
}

/// The vertex stored at byte offset `off`.
pub open spec fn vertex_at(d: Seq<u8>, off: int) -> Vertex
    recommends
        0 <= off,
        off + 16 <= d.len(),
{
    Vertex {
        position: Vec3Bits { x: u32_at(d, off), y: u32_at(d, off + 4), z: u32_at(d, off + 8) },
        rgba: u32_at(d, off + 12),
    }
}

/// The buffer carries the magic marker and the version tag this library
/// writes.
pub open spec fn header_ok(d: Seq<u8>) -> bool {
    &&& d.len() >= 14
    &&& d.subrange(0, 10) == spec_magic()
    &&& d.subrange(10, 14) == spec_version()
}

/// The vertex count the buffer declares.
pub open spec fn decoded_vertex_count(d: Seq<u8>) -> int {
    u32_at(d, 14) as int
}

/// The index count the buffer declares, stored after the vertices.
pub open spec fn decoded_index_count(d: Seq<u8>) -> int {
    u32_at(d, 18 + 16 * decoded_vertex_count(d)) as int
}

/// The buffer decodes successfully: valid header, and long enough for both
/// counted arrays.
pub open spec fn decode_ok(d: Seq<u8>) -> bool {
    &&& header_ok(d)
    &&& d.len() >= 18
    &&& d.len() >= 22 + 16 * decoded_vertex_count(d)
    &&& d.len() >= 22 + 16 * decoded_vertex_count(d) + 4 * decoded_index_count(d)
}

/// The vertex buffer a successful decode yields.
pub open spec fn decoded_vertices(d: Seq<u8>) -> Seq<Vertex>
    recommends
        decode_ok(d),
{
    Seq::new(decoded_vertex_count(d) as nat, |i: int| vertex_at(d, 18 + 16 * i))
}

/// The index buffer a successful decode yields.
pub open spec fn decoded_indices(d: Seq<u8>) -> Seq<u32>
    recommends
        decode_ok(d),
{
    Seq::new(
        decoded_index_count(d) as nat,
        |i: int| u32_at(d, 22 + 16 * decoded_vertex_count(d) + 4 * i),
    )
}

/// Appends the 4 little-endian bytes of `x`.
fn push_u32_le(out: &mut Vec<u8>, x: u32)
    ensures
        final(out)@ == old(out)@ + le32(x),
{
    out.push((x & 0xff) as u8);
    out.push(((x >> 8) & 0xff) as u8);
    out.push(((x >> 16) & 0xff) as u8);
    out.push(((x >> 24) & 0xff) as u8);
    assert(out@ =~= old(out)@ + le32(x));
}

/// Reads the `u32` stored little-endian at byte offset `off`.
fn read_u32_at(data: &[u8], off: usize) -> (r: u32)
    requires
        off + 4 <= data@.len(),
    ensures
        r == u32_at(data@, off as int),
{
    let dlen: usize = data.len();
    assert(off + 3 < dlen);
    let b3 = data[off + 3];
    (data[off] as u32) | ((data[off + 1] as u32) << 8) | ((data[off + 2] as u32) << 16) | ((
    b3 as u32) << 24)
}

impl VoxelMesh {
    /// Serialises the mesh to the binary layout: magic marker, version tag,
    /// vertex count and vertices, index count and indices, everything
    /// little-endian.  Encoding always succeeds.
    pub fn encode(&self) -> (r: Vec<u8>)
        requires
            self.vertices@.len() <= u32::MAX,
            self.indices@.len() <= u32::MAX,
        ensures
            r@ == spec_encode(self.vertices@, self.indices@),
    {
        let mut out: Vec<u8> = Vec::new();
        out.push(0x56);
        out.push(0x4f);
        out.push(0x58);
        out.push(0x45);
        out.push(0x4c);
        out.push(0x5f);
        out.push(0x4d);
        out.push(0x45);
        out.push(0x53);
        out.push(0x48);
        out.push(0);
        out.push(0);
        out.push(0);
        out.push(1);
        assert(out@ =~= spec_magic() + spec_version());

        push_u32_le(&mut out, self.vertices.len() as u32);
        let ghost head = spec_magic() + spec_version() + le32(self.vertices@.len() as u32);
        assert(out@ == head);

        let mut k: usize = 0;
        while k < self.vertices.len()
            invariant
                k <= self.vertices@.len(),
                out@ == head + vertices_bytes(self.vertices@.take(k as int)),
            decreases self.vertices@.len() - k,
        {
            let v = self.vertices[k];
            push_u32_le(&mut out, v.position.x);
            push_u32_le(&mut out, v.position.y);
            push_u32_le(&mut out, v.position.z);
            push_u32_le(&mut out, v.rgba);
            proof {
                let pre = self.vertices@.take(k as int);
                let post = self.vertices@.take(k + 1 as int);
                assert(post.drop_last() =~= pre);
                assert(post.last() == self.vertices@[k as int]);
                assert(vertices_bytes(post) == vertices_bytes(pre) + vertex_bytes(
                    self.vertices@[k as int],
                ));
                assert(out@ =~= head + vertices_bytes(post));
            }
            k = k + 1;
        }
        assert(self.vertices@.take(self.vertices@.len() as int) =~= self.vertices@);

        push_u32_le(&mut out, self.indices.len() as u32);
        let ghost head2 = head + vertices_bytes(self.vertices@) + le32(self.indices@.len() as u32);
        assert(out@ =~= head2);

        let mut k2: usize = 0;
        while k2 < self.indices.len()
            invariant
                k2 <= self.indices@.len(),
                out@ == head2 + indices_bytes(self.indices@.take(k2 as int)),
            decreases self.indices@.len() - k2,
        {
            push_u32_le(&mut out, self.indices[k2]);
            proof {
                let pre = self.indices@.take(k2 as int);
                let post = self.indices@.take(k2 + 1 as int);
                assert(post.drop_last() =~= pre);
                assert(post.last() == self.indices@[k2 as int]);
                assert(indices_bytes(post) == indices_bytes(pre) + le32(self.indices@[k2 as int]));
                assert(out@ =~= head2 + indices_bytes(post));
            }
            k2 = k2 + 1;
        }
        assert(self.indices@.take(self.indices@.len() as int) =~= self.indices@);
        assert(out@ =~= spec_encode(self.vertices@, self.indices@));
        out
    }

    /// Decodes a buffer produced by [`VoxelMesh::encode`].  Validates, in
    /// order: that the buffer is long enough to read from at all, the magic
    /// marker, the version tag, and that every counted field fits; any
    /// truncation after a valid header collapses to the single generic
    /// end-of-input error.
    pub fn decode(data: &[u8]) -> (r: Result<VoxelMesh, VoxelMeshDecodeError>)
        ensures
            data@.len() == 0 ==> r == Err::<VoxelMesh, _>(VoxelMeshDecodeError::InvalidByteWriter),
            1 <= data@.len() < 10 ==> r == Err::<VoxelMesh, _>(VoxelMeshDecodeError::EOI),
            data@.len() >= 10 && data@.subrange(0, 10) != spec_magic() ==> r == Err::<
                VoxelMesh,
                _,
            >(VoxelMeshDecodeError::InvalidMagicValue),
            data@.len() >= 10 && data@.subrange(0, 10) == spec_magic() && data@.len() < 14 ==> r
                == Err::<VoxelMesh, _>(VoxelMeshDecodeError::EOI),
            data@.len() >= 14 && data@.subrange(0, 10) == spec_magic() && data@.subrange(10, 14)
                != spec_version() ==> (r matches Err(VoxelMeshDecodeError::InvalidVersion {
                lib_version,
                file_version,
            }) && lib_version@ == spec_version() && file_version@ == data@.subrange(10, 14)),
            header_ok(data@) && !decode_ok(data@) ==> r == Err::<VoxelMesh, _>(
                VoxelMeshDecodeError::EOI,
            ),
            decode_ok(data@) ==> (r matches Ok(m) && m.vertices@ == decoded_vertices(data@)
                && m.indices@ == decoded_indices(data@)),
    {
        let n = data.len();
        if n == 0 {
            return Err(VoxelMeshDecodeError::InvalidByteWriter);
        }
        if n < 10 {
            return Err(VoxelMeshDecodeError::EOI);
        }
        let magic_ok = data[0] == 0x56 && data[1] == 0x4f && data[2] == 0x58 && data[3] == 0x45
            && data[4] == 0x4c && data[5] == 0x5f && data[6] == 0x4d && data[7] == 0x45 && data[8]
            == 0x53 && data[9] == 0x48;
        proof {
            let s = data@.subrange(0, 10);
            assert(forall|i: int| 0 <= i < 10 ==> s[i] == data@[i]);
            if magic_ok {
                assert(s =~= spec_magic());
            } else {
                assert(s != spec_magic());
            }
        }
        if !magic_ok {
            return Err(VoxelMeshDecodeError::InvalidMagicValue);
        }
        if n < 14 {
            return Err(VoxelMeshDecodeError::EOI);
        }
        let version_ok = data[10] == 0 && data[11] == 0 && data[12] == 0 && data[13] == 1;
        proof {
            let s = data@.subrange(10, 14);
            assert(forall|i: int| 0 <= i < 4 ==> s[i] == data@[10 + i]);
            if version_ok {
                assert(s =~= spec_version());
            } else {
                assert(s != spec_version());
            }
        }
        if !version_ok {
            let file_version: [u8; 4] = [data[10], data[11], data[12], data[13]];
            let lib_version: [u8; 4] = [0, 0, 0, 1];
            assert(file_version@ =~= data@.subrange(10, 14));
            assert(lib_version@ =~= spec_version());
            return Err(VoxelMeshDecodeError::InvalidVersion { lib_version, file_version });
        }
        if n < 18 {
            return Err(VoxelMeshDecodeError::EOI);
        }
        let vcount = read_u32_at(data, 14);
        if ((n - 18) as u64) < 16u64 * (vcount as u64) + 4u64 {
            return Err(VoxelMeshDecodeError::EOI);
        }
        assert(n >= 22 + 16 * (vcount as int));

        let mut vertices: Vec<Vertex> = Vec::new();
        let mut idx: usize = 0;
        while idx < vcount as usize
            invariant
                n == data@.len(),
                n >= 22 + 16 * (vcount as int),
                idx <= vcount as usize,
                vcount == u32_at(data@, 14),
                vertices@.len() == idx,
                forall|i: int| 0 <= i < idx ==> vertices@[i] == vertex_at(data@, 18 + 16 * i),
            decreases vcount as int - idx,
        {
            let off = 18 + 16 * idx;
            let x = read_u32_at(data, off);
            let y = read_u32_at(data, off + 4);
            let z = read_u32_at(data, off + 8);
            let rgba = read_u32_at(data, off + 12);
            vertices.push(Vertex { position: Vec3Bits { x, y, z }, rgba });
            idx = idx + 1;
        }

        let ioff = 18 + 16 * (vcount as usize);
        let icount = read_u32_at(data, ioff);
        if ((n - ioff - 4) as u64) < 4u64 * (icount as u64) {
            return Err(VoxelMeshDecodeError::EOI);
        }
        assert(n >= 22 + 16 * (vcount as int) + 4 * (icount as int));

        let mut indices: Vec<u32> = Vec::new();
        let mut jdx: usize = 0;
        while jdx < icount as usize
            invariant
                n == data@.len(),
                n >= 22 + 16 * (vcount as int) + 4 * (icount as int),
                jdx <= icount as usize,
                ioff == 18 + 16 * (vcount as int),
                indices@.len() == jdx,
                forall|i: int| 0 <= i < jdx ==> indices@[i] == u32_at(data@, 22 + 16 * (vcount as int) + 4 * i),
            decreases icount as int - jdx,
        {
            let v = read_u32_at(data, ioff + 4 + 4 * jdx);
            indices.push(v);
            jdx = jdx + 1;
        }

        proof {
            assert(decode_ok(data@));
            assert(vertices@ =~= decoded_vertices(data@));
            assert(indices@ =~= decoded_indices(data@));
        }
        Ok(VoxelMesh { vertices, indices })
    }
}

/// A region of `d` that holds the 4 little-endian bytes of `x` reads back
/// as `x`.
proof fn lemma_u32_at_of_bytes(d: Seq<u8>, off: int, x: u32)
    requires
        0 <= off,
        off + 4 <= d.len(),
        d.subrange(off, off + 4) == le32(x),
    ensures
        u32_at(d, off) == x,
{
    assert(d[off] == le32(x)[0]) by {
        assert(d.subrange(off, off + 4)[0] == d[off]);
    }
    assert(d[off + 1] == le32(x)[1]) by {
        assert(d.subrange(off, off + 4)[1] == d[off + 1]);
    }
    assert(d[off + 2] == le32(x)[2]) by {
        assert(d.subrange(off, off + 4)[2] == d[off + 2]);
    }
    assert(d[off + 3] == le32(x)[3]) by {
        assert(d.subrange(off, off + 4)[3] == d[off + 3]);
    }
    lemma_le32_recompose(x);
}

/// A region of `d` that holds the 16 bytes of a vertex reads back as that
/// vertex.
proof fn lemma_vertex_at_of_bytes(d: Seq<u8>, off: int, v: Vertex)
    requires
        0 <= off,
        off + 16 <= d.len(),
        d.subrange(off, off + 16) == vertex_bytes(v),
    ensures
        vertex_at(d, off) == v,
{
    let chunk = vertex_bytes(v);
    assert forall|j: int| 0 <= j < 16 implies d[off + j] == chunk[j] by {
        assert(d.subrange(off, off + 16)[j] == d[off + j]);
    }
    assert(chunk[0] == le32(v.position.x)[0]);
    assert(chunk[1] == le32(v.position.x)[1]);
    assert(chunk[2] == le32(v.position.x)[2]);
    assert(chunk[3] == le32(v.position.x)[3]);
    assert(chunk[4] == le32(v.position.y)[0]);
    assert(chunk[5] == le32(v.position.y)[1]);
    assert(chunk[6] == le32(v.position.y)[2]);
    assert(chunk[7] == le32(v.position.y)[3]);
    assert(chunk[8] == le32(v.position.z)[0]);
    assert(chunk[9] == le32(v.position.z)[1]);
    assert(chunk[10] == le32(v.position.z)[2]);
    assert(chunk[11] == le32(v.position.z)[3]);
    assert(chunk[12] == le32(v.rgba)[0]);
    assert(chunk[13] == le32(v.rgba)[1]);
    assert(chunk[14] == le32(v.rgba)[2]);
    assert(chunk[15] == le32(v.rgba)[3]);
    assert(d[off + 0] == chunk[0]);
    assert(d[off + 1] == chunk[1]);
    assert(d[off + 2] == chunk[2]);
    assert(d[off + 3] == chunk[3]);
    assert(d[off + 4] == chunk[4]);
    assert(d[off + 5] == chunk[5]);
    assert(d[off + 6] == chunk[6]);
    assert(d[off + 7] == chunk[7]);
    assert(d[off + 8] == chunk[8]);
    assert(d[off + 9] == chunk[9]);
    assert(d[off + 10] == chunk[10]);
    assert(d[off + 11] == chunk[11]);
    assert(d[off + 12] == chunk[12]);
    assert(d[off + 13] == chunk[13]);
    assert(d[off + 14] == chunk[14]);
    assert(d[off + 15] == chunk[15]);
    lemma_le32_recompose(v.position.x);
    lemma_le32_recompose(v.position.y);
    lemma_le32_recompose(v.position.z);
    lemma_le32_recompose(v.rgba);
    assert(u32_at(d, off) == v.position.x);
    assert(u32_at(d, off + 4) == v.position.y);
    assert(u32_at(d, off + 8) == v.position.z);
    assert(u32_at(d, off + 12) == v.rgba);
}

/// Round trip: any mesh whose buffer lengths fit the format's `u32` counts
/// decodes, after encoding, back to exactly the same vertex and index
/// buffers.
#[verifier::rlimit(60)]
pub proof fn lemma_round_trip(vs: Seq<Vertex>, is: Seq<u32>)
    requires
        vs.len() <= u32::MAX,
        is.len() <= u32::MAX,
    ensures
        decode_ok(spec_encode(vs, is)),
        decoded_vertices(spec_encode(vs, is)) == vs,
        decoded_indices(spec_encode(vs, is)) == is,
{
    let d = spec_encode(vs, is);
    lemma_vertices_bytes_len(vs);
    lemma_indices_bytes_len(is);
    let vb = vertices_bytes(vs);
    let ib = indices_bytes(is);
    let nv = vs.len() as u32;
    let ni = is.len() as u32;
    let ioff = 18 + 16 * vs.len() as int;
    assert(d.len() == 22 + 16 * vs.len() + 4 * is.len());

    assert(d.subrange(0, 10) =~= spec_magic());
    assert(d.subrange(10, 14) =~= spec_version());
    assert(d.subrange(14, 18) =~= le32(nv));
    assert(forall|j: int| 0 <= j < vb.len() ==> d[18 + j] == vb[j]);
    assert(d.subrange(ioff, ioff + 4) =~= le32(ni));
    assert(forall|j: int| 0 <= j < ib.len() ==> d[ioff + 4 + j] == ib[j]);

    lemma_u32_at_of_bytes(d, 14, nv);
    assert(decoded_vertex_count(d) == vs.len());
    lemma_u32_at_of_bytes(d, ioff, ni);
    assert(decoded_index_count(d) == is.len());
    assert(decode_ok(d));

    assert forall|i: int| 0 <= i < vs.len() implies vertex_at(d, 18 + 16 * i) == vs[i] by {
        lemma_vertices_bytes_index(vs, i);
        assert(d.subrange(18 + 16 * i, 18 + 16 * i + 16) =~= vb.subrange(16 * i, 16 * i + 16)) by {
            assert forall|b: int| 0 <= b < 16 implies #[trigger] d.subrange(
                18 + 16 * i,
                18 + 16 * i + 16,
            )[b] == vb.subrange(16 * i, 16 * i + 16)[b] by {
                assert(vb.subrange(16 * i, 16 * i + 16)[b] == vb[16 * i + b]);
                assert(d[18 + (16 * i + b)] == vb[16 * i + b]);
            }
        }
        lemma_vertex_at_of_bytes(d, 18 + 16 * i, vs[i]);
    }
    assert(decoded_vertices(d) =~= vs);

    assert forall|i: int| 0 <= i < is.len() implies u32_at(d, 22 + 16 * vs.len() + 4 * i) == is[i]
        by {
        lemma_indices_bytes_index(is, i);
        assert(d.subrange(ioff + 4 + 4 * i, ioff + 4 + 4 * i + 4) =~= ib.subrange(4 * i, 4 * i + 4))
            by {
            assert forall|b: int| 0 <= b < 4 implies #[trigger] d.subrange(
                ioff + 4 + 4 * i,
                ioff + 4 + 4 * i + 4,
            )[b] == ib.subrange(4 * i, 4 * i + 4)[b] by {
                assert(ib.subrange(4 * i, 4 * i + 4)[b] == ib[4 * i + b]);
                assert(d[ioff + 4 + (4 * i + b)] == ib[4 * i + b]);
            }
        }
        lemma_u32_at_of_bytes(d, ioff + 4 + 4 * i, is[i]);
        assert(22 + 16 * vs.len() + 4 * i == ioff + 4 + 4 * i);
    }
    assert(decoded_indices(d) =~= is);
}

} // verus!
