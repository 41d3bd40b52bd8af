//! Greedy meshing: a three-axis sweep that merges coplanar, same-coloured,
//! same-orientation voxel faces into maximal rectangles.
//!
//! The grid is a flat sequence of packed RGBA colours of length `X*Y*Z`,
//! indexed by `z*Y*X + y*X + x`; colour 0 means "no voxel".  For each axis
//! the sweep walks every slice boundary, records in a 2D mask which cells
//! show a visible face (a solid/empty transition) together with the face's
//! colour and orientation, then greedily grows each unconsumed mask cell
//! into the widest, then tallest, rectangle of identical cells and emits it
//! as one quad.

use vstd::prelude::*;

use crate::mesh::{
    draw_quad, lemma_mesh_extends_quad, lemma_mesh_extends_refl, lemma_mesh_extends_trans,
    mesh_extends, quad_indices, quad_vertices, Quad, Vec3Bits, Vertex,
};

verus! {

/// Per-sweep-slice mask cell: the colour of the visible face at this cell
/// (0 when there is none) and whether the face points toward the negative
/// sweep direction.
#[derive(PartialEq, Eq, Structural, Clone, Copy, Debug)]
pub struct MaskCell {
    pub color: u32,
    pub negative_face: bool,
}

/// Per-axis lookup tables of scaled lattice coordinates, stored as IEEE 754
/// single-precision bit patterns.  Entry `t` of axis `c` is the final mesh
/// coordinate of lattice position `t` along `c` (the lattice position,
/// shifted so the grid is centred at the origin, times the block scale),
/// already converted to bits.  Table `c` must cover lattice positions `0`
/// through `dims[c]` inclusive.
pub struct BlockScale {
    pub axis: [Vec<u32>; 3],
}

impl BlockScale {
    /// Each table covers its axis' lattice range `0 ..= dims[c]`.
    pub open spec fn wf(&self, dims: [usize; 3]) -> bool {
        forall|c: int| 0 <= c < 3 ==> self.axis@[c]@.len() == dims@[c] + 1
    }

    /// The bit pattern stored for lattice position `t` along axis `c`.
    pub open spec fn at(&self, c: int, t: int) -> u32 {
        self.axis@[c]@[t]
    }
}

/// A cleared mask cell: no visible face.
pub open spec fn empty_cell() -> MaskCell {
    MaskCell { color: 0, negative_face: false }
}

/// The mask cell for a pair of grid samples along the sweep axis: a face
/// exists exactly at solid/empty transitions, coloured by the solid side,
/// negative-facing when the solid side is the far one.
pub open spec fn face_cell(current: u32, compare: u32) -> MaskCell {
    if current == 0 && compare != 0 {
        MaskCell { color: compare, negative_face: true }
    } else if current != 0 && compare == 0 {
        MaskCell { color: current, negative_face: false }
    } else {
        MaskCell { color: 0, negative_face: false }
    }
}

/// Colour boundary: two adjacent solid voxels produce no face between them,
/// whatever their colours.  Only solid/empty transitions generate geometry.
pub proof fn lemma_color_boundary(current: u32, compare: u32)
    requires
        current != 0,
        compare != 0,
    ensures
        face_cell(current, compare) == empty_cell(),
{
}

/// The flat index of lattice cell `(x, y, z)` in a grid of width `xd` and
/// height `yd`.
pub open spec fn grid_index(xd: int, yd: int, x: int, y: int, z: int) -> int {
    z * (yd * xd) + y * xd + x
}

/// The colour at `(x, y, z)`, with every out-of-bounds coordinate reading
/// as empty.
pub open spec fn grid_sample(
    grid: Seq<u32>,
    xd: int,
    yd: int,
    zd: int,
    x: int,
    y: int,
    z: int,
) -> u32
    recommends
        grid.len() == xd * yd * zd,
{
    if 0 <= x < xd && 0 <= y < yd && 0 <= z < zd {
        grid[grid_index(xd, yd, x, y, z)]
    } else {
        0
    }
}

/// The whole grid is empty.
pub open spec fn grid_all_empty(g: Seq<u32>) -> bool {
    forall|k: int| 0 <= k < g.len() ==> g[k] == 0
}

/// Every mask cell is cleared.
pub open spec fn mask_all_empty(m: Seq<MaskCell>) -> bool {
    forall|n: int| 0 <= n < m.len() ==> m[n].color == 0
}

/// The vertex carries the colour of one of the mask's face cells.
pub open spec fn color_from_mask(m: Seq<MaskCell>, vtx: Vertex) -> bool {
    vtx.rgba != 0 && exists|q: int| 0 <= q < m.len() && (#[trigger] m[q]).color == vtx.rgba
}

/// The vertex carries the colour of one of the grid's solid voxels.
pub open spec fn color_from_grid(g: Seq<u32>, vtx: Vertex) -> bool {
    vtx.rgba != 0 && exists|q: int| 0 <= q < g.len() && g[q] == vtx.rgba
}

/// `(d, u, v)` is one of the three cyclic axis assignments of the sweep.
pub open spec fn axes_ok(d: int, u: int, v: int) -> bool {
    ||| (d == 0 && u == 1 && v == 2)
    ||| (d == 1 && u == 2 && v == 0)
    ||| (d == 2 && u == 0 && v == 1)
}

/// The lattice coordinate along axis `a` of the in-plane point `(i, j)` at
/// sweep position `t`: `t` along the sweep axis, `i` along `u`, `j` along
/// `v`.
pub open spec fn lattice(d: int, u: int, v: int, t: int, i: int, j: int, a: int) -> int {
    if a == d {
        t
    } else if a == u {
        i
    } else {
        j
    }
}

/// The mask cell of slice `s` at in-plane position `(i, j)`: the face, if
/// any, between the voxel just below the slice along `d` and the voxel just
/// above it.
pub open spec fn slice_cell(
    grid: Seq<u32>,
    xd: int,
    yd: int,
    zd: int,
    d: int,
    u: int,
    v: int,
    s: int,
    i: int,
    j: int,
) -> MaskCell {
    face_cell(
        grid_sample(
            grid,
            xd,
            yd,
            zd,
            lattice(d, u, v, s - 1, i, j, 0),
            lattice(d, u, v, s - 1, i, j, 1),
            lattice(d, u, v, s - 1, i, j, 2),
        ),
        grid_sample(
            grid,
            xd,
            yd,
            zd,
            lattice(d, u, v, s, i, j, 0),
            lattice(d, u, v, s, i, j, 1),
            lattice(d, u, v, s, i, j, 2),
        ),
    )
}

/// One emitted quad, described abstractly: the sweep axes, the slice, the
/// seed cell, and the merged rectangle's place and extent in the slice's
/// `(u, v)` plane.
pub ghost struct QuadSpec {
    pub d: int,
    pub u: int,
    pub v: int,
    pub s: int,
    pub i: int,
    pub j: int,
    pub w: int,
    pub h: int,
    pub cell: MaskCell,
}

/// The grid dimension along axis `a`.
pub open spec fn dim_at(xd: int, yd: int, zd: int, a: int) -> int {
    if a == 0 {
        xd
    } else if a == 1 {
        yd
    } else {
        zd
    }
}

/// In-plane cell `(a, b)` lies inside the quad's rectangle.
pub open spec fn in_rect(q: QuadSpec, a: int, b: int) -> bool {
    q.i <= a < q.i + q.w && q.j <= b < q.j + q.h
}

/// The mask cell at in-plane position `(a, b)` of a mask with row length
/// `du`.
pub open spec fn mask_at(m: Seq<MaskCell>, du: int, a: int, b: int) -> MaskCell {
    m[b * du + a]
}

/// The quad is a rectangle of one slice's mask, every cell of which holds
/// its seed: a visible face of one colour and orientation.
pub open spec fn rect_matches_mask(
    m: Seq<MaskCell>,
    du: int,
    dv: int,
    d: int,
    u: int,
    v: int,
    s: int,
    q: QuadSpec,
) -> bool {
    &&& q.d == d && q.u == u && q.v == v && q.s == s
    &&& 0 <= q.i && 1 <= q.w && q.i + q.w <= du
    &&& 0 <= q.j && 1 <= q.h && q.j + q.h <= dv
    &&& q.cell.color != 0
    &&& forall|a: int, b: int| in_rect(q, a, b) ==> #[trigger] mask_at(m, du, a, b) == q.cell
}

/// The quad is a rectangle of identical visible faces of the grid itself:
/// a valid axis assignment and slice, in-plane bounds, and every covered
/// cell showing exactly the seed face (so no quad exists where two solid
/// voxels meet, and each quad carries the single colour of its solid side).
pub open spec fn quad_on_grid(grid: Seq<u32>, xd: int, yd: int, zd: int, q: QuadSpec) -> bool {
    &&& axes_ok(q.d, q.u, q.v)
    &&& 0 <= q.s <= dim_at(xd, yd, zd, q.d)
    &&& 0 <= q.i && 1 <= q.w && q.i + q.w <= dim_at(xd, yd, zd, q.u)
    &&& 0 <= q.j && 1 <= q.h && q.j + q.h <= dim_at(xd, yd, zd, q.v)
    &&& q.cell.color != 0
    &&& forall|a: int, b: int|
        in_rect(q, a, b) ==> #[trigger] slice_cell(grid, xd, yd, zd, q.d, q.u, q.v, q.s, a, b)
            == q.cell
}

/// The mesh position (as bit patterns) of the lattice corner at in-plane
/// `(a, b)` of slice `s`, read from the scale tables.
pub open spec fn corner_at(
    scale: BlockScale,
    d: int,
    u: int,
    v: int,
    s: int,
    a: int,
    b: int,
) -> Vec3Bits {
    Vec3Bits {
        x: scale.at(0, lattice(d, u, v, s, a, b, 0)),
        y: scale.at(1, lattice(d, u, v, s, a, b, 1)),
        z: scale.at(2, lattice(d, u, v, s, a, b, 2)),
    }
}

/// The 4 vertices a described quad expands to: its rectangle's lattice
/// corners read from the scale tables, wound forward for positive faces and
/// reversed for negative ones, all carrying the seed colour.
pub open spec fn quad_spec_vertices(scale: BlockScale, q: QuadSpec) -> Seq<Vertex> {
    let p0 = Vertex { position: corner_at(scale, q.d, q.u, q.v, q.s, q.i, q.j), rgba: q.cell.color };
    let p1 = Vertex {
        position: corner_at(scale, q.d, q.u, q.v, q.s, q.i + q.w, q.j),
        rgba: q.cell.color,
    };
    let p2 = Vertex {
        position: corner_at(scale, q.d, q.u, q.v, q.s, q.i + q.w, q.j + q.h),
        rgba: q.cell.color,
    };
    let p3 = Vertex {
        position: corner_at(scale, q.d, q.u, q.v, q.s, q.i, q.j + q.h),
        rgba: q.cell.color,
    };
    if q.cell.negative_face {
        seq![p3, p2, p1, p0]
    } else {
        seq![p0, p1, p2, p3]
    }
}

/// The vertices of a run of described quads, in emission order.
pub open spec fn quads_vertices(scale: BlockScale, qs: Seq<QuadSpec>) -> Seq<Vertex>
    decreases qs.len(),
{
    if qs.len() == 0 {
        Seq::empty()
    } else {
        quads_vertices(scale, qs.drop_last()) + quad_spec_vertices(scale, qs.last())
    }
}

/// The indices of a run of described quads: quad `k`'s first vertex lands
/// at offset `base + 4*k`.
pub open spec fn quads_indices(base: int, qs: Seq<QuadSpec>) -> Seq<u32>
    decreases qs.len(),
{
    if qs.len() == 0 {
        Seq::empty()
    } else {
        quads_indices(base, qs.drop_last()) + quad_indices((base + 4 * (qs.len() - 1)) as u32)
    }
}

pub proof fn lemma_quads_vertices_len(scale: BlockScale, qs: Seq<QuadSpec>)
    ensures
        quads_vertices(scale, qs).len() == 4 * qs.len(),
    decreases qs.len(),
{
    if qs.len() > 0 {
        lemma_quads_vertices_len(scale, qs.drop_last());
    }
}

pub proof fn lemma_quads_indices_len(base: int, qs: Seq<QuadSpec>)
    ensures
        quads_indices(base, qs).len() == 6 * qs.len(),
    decreases qs.len(),
{
    if qs.len() > 0 {
        lemma_quads_indices_len(base, qs.drop_last());
    }
}

proof fn lemma_quads_push(scale: BlockScale, base: int, qs: Seq<QuadSpec>, q: QuadSpec)
    ensures
        quads_vertices(scale, qs.push(q)) == quads_vertices(scale, qs) + quad_spec_vertices(
            scale,
            q,
        ),
        quads_indices(base, qs.push(q)) == quads_indices(base, qs) + quad_indices(
            (base + 4 * qs.len()) as u32,
        ),
{
    assert(qs.push(q).drop_last() =~= qs);
    assert(qs.push(q).last() == q);
}

proof fn lemma_quads_concat(scale: BlockScale, base: int, qs1: Seq<QuadSpec>, qs2: Seq<QuadSpec>)
    ensures
        quads_vertices(scale, qs1 + qs2) == quads_vertices(scale, qs1) + quads_vertices(
            scale,
            qs2,
        ),
        quads_indices(base, qs1 + qs2) == quads_indices(base, qs1) + quads_indices(
            base + 4 * qs1.len(),
            qs2,
        ),
    decreases qs2.len(),
{
    if qs2.len() == 0 {
        assert(qs1 + qs2 =~= qs1);
        assert(quads_vertices(scale, qs1) + quads_vertices(scale, qs2) =~= quads_vertices(
            scale,
            qs1,
        ));
        assert(quads_indices(base, qs1) + quads_indices(base + 4 * qs1.len(), qs2)
            =~= quads_indices(base, qs1));
    } else {
        lemma_quads_concat(scale, base, qs1, qs2.drop_last());
        assert((qs1 + qs2).drop_last() =~= qs1 + qs2.drop_last());
        assert((qs1 + qs2).last() == qs2.last());
        assert(quads_vertices(scale, qs1 + qs2) =~= quads_vertices(scale, qs1) + quads_vertices(
            scale,
            qs2,
        ));
        assert(quads_indices(base, qs1 + qs2) =~= quads_indices(base, qs1) + quads_indices(
            base + 4 * qs1.len(),
            qs2,
        ));
    }
}

/// The in-plane axes of sweep axis `dd`, in the fixed cyclic order.
pub open spec fn axis_u(dd: int) -> int {
    if dd == 0 {
        1
    } else if dd == 1 {
        2
    } else {
        0
    }
}

pub open spec fn axis_v(dd: int) -> int {
    if dd == 0 {
        2
    } else if dd == 1 {
        0
    } else {
        1
    }
}

/// How many quads of the run cover in-plane cell `(a, b)` of slice `s` of
/// the sweep along axis `d`.
pub open spec fn face_count(qs: Seq<QuadSpec>, d: int, s: int, a: int, b: int) -> int
    decreases qs.len(),
{
    if qs.len() == 0 {
        0
    } else {
        face_count(qs.drop_last(), d, s, a, b) + if qs.last().d == d && qs.last().s == s
            && in_rect(qs.last(), a, b) {
            1int
        } else {
            0
        }
    }
}

proof fn lemma_face_count_push(qs: Seq<QuadSpec>, q: QuadSpec)
    ensures
        forall|d: int, s: int, a: int, b: int|
            #[trigger] face_count(qs.push(q), d, s, a, b) == face_count(qs, d, s, a, b) + if q.d
                == d && q.s == s && in_rect(q, a, b) {
                1int
            } else {
                0
            },
{
    assert(qs.push(q).drop_last() =~= qs);
    assert(qs.push(q).last() == q);
}

proof fn lemma_face_count_concat(qs1: Seq<QuadSpec>, qs2: Seq<QuadSpec>)
    ensures
        forall|d: int, s: int, a: int, b: int|
            #[trigger] face_count(qs1 + qs2, d, s, a, b) == face_count(qs1, d, s, a, b)
                + face_count(qs2, d, s, a, b),
    decreases qs2.len(),
{
    if qs2.len() == 0 {
        assert(qs1 + qs2 =~= qs1);
        assert forall|d: int, s: int, a: int, b: int|
            #[trigger] face_count(qs1 + qs2, d, s, a, b) == face_count(qs1, d, s, a, b)
                + face_count(qs2, d, s, a, b) by {
            assert(face_count(qs2, d, s, a, b) == 0);
        }
    } else {
        lemma_face_count_concat(qs1, qs2.drop_last());
        assert((qs1 + qs2).drop_last() =~= qs1 + qs2.drop_last());
        assert((qs1 + qs2).last() == qs2.last());
        assert forall|d: int, s: int, a: int, b: int|
            #[trigger] face_count(qs1 + qs2, d, s, a, b) == face_count(qs1, d, s, a, b)
                + face_count(qs2, d, s, a, b) by {
            assert(face_count(qs1 + qs2, d, s, a, b) == face_count((qs1 + qs2).drop_last(), d, s, a, b)
                + if (qs1 + qs2).last().d == d && (qs1 + qs2).last().s == s && in_rect(
                (qs1 + qs2).last(),
                a,
                b,
            ) {
                1int
            } else {
                0
            });
            assert(face_count(qs1 + qs2.drop_last(), d, s, a, b) == face_count(qs1, d, s, a, b)
                + face_count(qs2.drop_last(), d, s, a, b));
        }
    }
}

/// A run whose quads all sit on one slice covers nothing anywhere else.
proof fn lemma_face_count_elsewhere(qs: Seq<QuadSpec>, d0: int)
    requires
        forall|k: int| 0 <= k < qs.len() ==> (#[trigger] qs[k]).d == d0,
    ensures
        forall|d: int, s: int, a: int, b: int|
            d != d0 ==> #[trigger] face_count(qs, d, s, a, b) == 0,
    decreases qs.len(),
{
    if qs.len() > 0 {
        assert(forall|k: int|
            0 <= k < qs.drop_last().len() ==> (#[trigger] qs.drop_last()[k]).d == d0);
        lemma_face_count_elsewhere(qs.drop_last(), d0);
        assert(qs.last() == qs[qs.len() - 1]);
        assert forall|d: int, s: int, a: int, b: int|
            d != d0 implies #[trigger] face_count(qs, d, s, a, b) == 0 by {
            assert(face_count(qs.drop_last(), d, s, a, b) == 0);
        }
    }
}

proof fn lemma_face_count_other_slice(qs: Seq<QuadSpec>, d0: int, s0: int)
    requires
        forall|k: int| 0 <= k < qs.len() ==> (#[trigger] qs[k]).d == d0 && qs[k].s == s0,
    ensures
        forall|d: int, s: int, a: int, b: int|
            d != d0 || s != s0 ==> #[trigger] face_count(qs, d, s, a, b) == 0,
    decreases qs.len(),
{
    if qs.len() > 0 {
        assert(forall|k: int|
            0 <= k < qs.drop_last().len() ==> (#[trigger] qs.drop_last()[k]).d == d0
                && qs.drop_last()[k].s == s0);
        lemma_face_count_other_slice(qs.drop_last(), d0, s0);
        assert(qs.last() == qs[qs.len() - 1]);
        assert forall|d: int, s: int, a: int, b: int|
            d != d0 || s != s0 implies #[trigger] face_count(qs, d, s, a, b) == 0 by {
            assert(face_count(qs.drop_last(), d, s, a, b) == 0);
        }
    }
}

/// One slice's emission: the buffers grew by exactly the vertices and
/// indices of a run of quads, each a rectangle of identical visible faces
/// of the slice's mask.
pub open spec fn slice_emission(
    m: Seq<MaskCell>,
    du: int,
    dv: int,
    d: int,
    u: int,
    v: int,
    s: int,
    scale: BlockScale,
    v0: Seq<Vertex>,
    i0: Seq<u32>,
    v1: Seq<Vertex>,
    i1: Seq<u32>,
    qs: Seq<QuadSpec>,
) -> bool {
    &&& forall|k: int|
        0 <= k < qs.len() ==> rect_matches_mask(m, du, dv, d, u, v, s, #[trigger] qs[k])
    &&& v1 == v0 + quads_vertices(scale, qs)
    &&& i1 == i0 + quads_indices(v0.len() as int, qs)
    &&& forall|a: int, b: int|
        0 <= a < du && 0 <= b < dv ==> #[trigger] face_count(qs, d, s, a, b) == (
        if mask_at(m, du, a, b).color != 0 {
            1int
        } else {
            0
        })
}

/// Every quad of the run sweeps along axis `d`, and together the run's
/// quads cover every visible face of every slice of that sweep exactly
/// once.
pub open spec fn axis_cover(
    grid: Seq<u32>,
    xd: int,
    yd: int,
    zd: int,
    d: int,
    qs: Seq<QuadSpec>,
) -> bool {
    &&& forall|k: int| 0 <= k < qs.len() ==> (#[trigger] qs[k]).d == d
    &&& forall|ss: int, a: int, b: int|
        0 <= ss <= dim_at(xd, yd, zd, d) && 0 <= a < dim_at(xd, yd, zd, axis_u(d)) && 0 <= b
            < dim_at(xd, yd, zd, axis_v(d)) ==> #[trigger] face_count(qs, d, ss, a, b) == (
        if slice_cell(grid, xd, yd, zd, d, axis_u(d), axis_v(d), ss, a, b).color != 0 {
            1int
        } else {
            0
        })
}

/// The three sweeps together cover every visible face of the grid exactly
/// once: along each axis, each slice, each in-plane cell with a visible
/// face lies in exactly one emitted quad, and cells without one in none.
pub open spec fn grid_cover(grid: Seq<u32>, xd: int, yd: int, zd: int, qs: Seq<QuadSpec>) -> bool {
    forall|dd: int, ss: int, a: int, b: int|
        0 <= dd < 3 && 0 <= ss <= dim_at(xd, yd, zd, dd) && 0 <= a < dim_at(
            xd,
            yd,
            zd,
            axis_u(dd),
        ) && 0 <= b < dim_at(xd, yd, zd, axis_v(dd)) ==> #[trigger] face_count(qs, dd, ss, a, b)
            == (if slice_cell(grid, xd, yd, zd, dd, axis_u(dd), axis_v(dd), ss, a, b).color != 0 {
            1int
        } else {
            0
        })
}

/// The buffers grew by exactly the vertices and indices of a run of quads,
/// each a rectangle of identical visible faces of the grid, with corners
/// from the scale tables and winding by orientation.
pub open spec fn emitted_quads(
    grid: Seq<u32>,
    xd: int,
    yd: int,
    zd: int,
    scale: BlockScale,
    v0: Seq<Vertex>,
    i0: Seq<u32>,
    v1: Seq<Vertex>,
    i1: Seq<u32>,
    qs: Seq<QuadSpec>,
) -> bool {
    &&& forall|k: int| 0 <= k < qs.len() ==> quad_on_grid(grid, xd, yd, zd, #[trigger] qs[k])
    &&& v1 == v0 + quads_vertices(scale, qs)
    &&& i1 == i0 + quads_indices(v0.len() as int, qs)
}

/// The largest number of quads one axis sweep can emit times nothing: an
/// upper bound used to keep vertex offsets inside `u32`.  One sweep along
/// axis `d` visits `dims[d] + 1` slices of `dims[u] * dims[v]` cells, and a
/// slice emits at most one quad per cell.
pub open spec fn quad_capacity(xd: int, yd: int, zd: int) -> int {
    (xd + 1) * (yd * zd) + (yd + 1) * (zd * xd) + (zd + 1) * (xd * yd)
}

proof fn lemma_grid_index_bounds(xd: int, yd: int, zd: int, x: int, y: int, z: int)
    by (nonlinear_arith)
    requires
        0 <= x < xd,
        0 <= y < yd,
        0 <= z < zd,
    ensures
        0 <= y * xd,
        0 <= z * (yd * xd),
        0 <= z * (yd * xd) + y * xd + x < xd * yd * zd,
        yd * xd <= xd * yd * zd,
{
}

/// An all-empty grid samples as empty everywhere.
proof fn lemma_sample_zero(grid: Seq<u32>, xd: int, yd: int, zd: int, x: int, y: int, z: int)
    requires
        grid.len() == xd * yd * zd,
        grid_all_empty(grid),
    ensures
        grid_sample(grid, xd, yd, zd, x, y, z) == 0,
{
    if 0 <= x < xd && 0 <= y < yd && 0 <= z < zd {
        lemma_grid_index_bounds(xd, yd, zd, x, y, z);
    }
}

/// A nonzero sample is the colour of a voxel stored in the grid.
proof fn lemma_sample_in_grid(grid: Seq<u32>, xd: int, yd: int, zd: int, x: int, y: int, z: int)
    requires
        grid.len() == xd * yd * zd,
        grid_sample(grid, xd, yd, zd, x, y, z) != 0,
    ensures
        exists|g: int|
            0 <= g < grid.len() && grid[g] == grid_sample(grid, xd, yd, zd, x, y, z),
{
    lemma_grid_index_bounds(xd, yd, zd, x, y, z);
    assert(grid[grid_index(xd, yd, x, y, z)] == grid_sample(grid, xd, yd, zd, x, y, z));
}

/// Decomposes a flat grid index into its lattice coordinates.
proof fn lemma_flat_coords(xd: int, yd: int, zd: int, k: int)
    requires
        1 <= xd,
        1 <= yd,
        1 <= zd,
        0 <= k < xd * yd * zd,
    ensures
        0 <= k % xd < xd,
        0 <= (k / xd) % yd < yd,
        0 <= (k / xd) / yd < zd,
        grid_index(xd, yd, k % xd, (k / xd) % yd, (k / xd) / yd) == k,
{
    vstd::arithmetic::div_mod::lemma_fundamental_div_mod(k, xd);
    vstd::arithmetic::div_mod::lemma_mod_bound(k, xd);
    vstd::arithmetic::div_mod::lemma_div_pos_is_pos(k, xd);
    let x = k % xd;
    let q1 = k / xd;
    vstd::arithmetic::div_mod::lemma_fundamental_div_mod(q1, yd);
    vstd::arithmetic::div_mod::lemma_mod_bound(q1, yd);
    vstd::arithmetic::div_mod::lemma_div_pos_is_pos(q1, yd);
    let y = q1 % yd;
    let z = q1 / yd;
    assert(q1 < yd * zd) by (nonlinear_arith)
        requires
            k < xd * yd * zd,
            k == xd * q1 + x,
            0 <= x,
            1 <= xd,
            0 <= q1,
            0 <= yd,
            0 <= zd,
    ;
    assert(z < zd) by (nonlinear_arith)
        requires
            q1 < yd * zd,
            q1 == yd * z + y,
            0 <= y,
            1 <= yd,
            0 <= z,
    ;
    assert(grid_index(xd, yd, x, y, z) == k) by (nonlinear_arith)
        requires
            k == xd * q1 + x,
            q1 == yd * z + y,
    ;
}

/// Every solid voxel has, at or before it along its x column, a first
/// solid: one with an empty sample just below it.
proof fn lemma_first_solid(grid: Seq<u32>, xd: int, yd: int, zd: int, x: int, y: int, z: int)
    requires
        grid.len() == xd * yd * zd,
        0 <= x < xd,
        0 <= y < yd,
        0 <= z < zd,
        grid_sample(grid, xd, yd, zd, x, y, z) != 0,
    ensures
        exists|t: int|
            0 <= t <= x && #[trigger] grid_sample(grid, xd, yd, zd, t, y, z) != 0 && grid_sample(
                grid,
                xd,
                yd,
                zd,
                t - 1,
                y,
                z,
            ) == 0,
    decreases x,
{
    if grid_sample(grid, xd, yd, zd, x - 1, y, z) == 0 {
        assert(0 <= x <= x && grid_sample(grid, xd, yd, zd, x, y, z) != 0 && grid_sample(
            grid,
            xd,
            yd,
            zd,
            x - 1,
            y,
            z,
        ) == 0);
    } else {
        lemma_first_solid(grid, xd, yd, zd, x - 1, y, z);
        let t = choose|t: int|
            0 <= t <= x - 1 && #[trigger] grid_sample(grid, xd, yd, zd, t, y, z) != 0
                && grid_sample(
                grid,
                xd,
                yd,
                zd,
                t - 1,
                y,
                z,
            ) == 0;
        assert(0 <= t <= x && grid_sample(grid, xd, yd, zd, t, y, z) != 0 && grid_sample(
            grid,
            xd,
            yd,
            zd,
            t - 1,
            y,
            z,
        ) == 0);
    }
}

proof fn lemma_mul_le(a: int, b: int, c: int)
    by (nonlinear_arith)
    requires
        a <= b,
        0 <= c,
    ensures
        a * c <= b * c,
{
}

proof fn lemma_row_bound(j: int, du: int, dv: int)
    by (nonlinear_arith)
    requires
        0 <= j < dv,
        0 <= du,
    ensures
        (j + 1) * du == j * du + du,
        j * du + du <= dv * du,
        dv * du == du * dv,
        0 <= j * du,
{
}

proof fn lemma_rect_bound(j: int, hh: int, du: int, dv: int)
    by (nonlinear_arith)
    requires
        0 <= j,
        0 <= hh,
        j + hh < dv,
        0 <= du,
    ensures
        (j + hh) * du == j * du + hh * du,
        (j + hh) * du + du <= dv * du,
        0 <= hh * du,
        0 <= j * du,
        dv * du == du * dv,
{
}

/// Returns `p` with component `a` replaced by `val`.
fn axis_set(p: [usize; 3], a: usize, val: usize) -> (r: [usize; 3])
    requires
        a < 3,
    ensures
        r@ == p@.update(a as int, val),
{
    let r = if a == 0 {
        [val, p[1], p[2]]
    } else if a == 1 {
        [p[0], val, p[2]]
    } else {
        [p[0], p[1], val]
    };
    assert(r@ =~= p@.update(a as int, val));
    r
}

/// Builds the lattice coordinate with `t` along the sweep axis and `(i, j)`
/// in the face plane.
fn lattice_coord(d: usize, u: usize, v: usize, t: usize, i: usize, j: usize) -> (r: [usize; 3])
    requires
        axes_ok(d as int, u as int, v as int),
    ensures
        forall|a: int|
            0 <= a < 3 ==> r@[a] == lattice(
                d as int,
                u as int,
                v as int,
                t as int,
                i as int,
                j as int,
                a,
            ),
{
    let c: [usize; 3] = [0, 0, 0];
    let c = axis_set(c, d, t);
    let c = axis_set(c, u, i);
    let c = axis_set(c, v, j);
    c
}

/// Samples the grid at `(x, y, z)`, reading out-of-bounds coordinates as
/// empty.
fn grid_fetch(grid: &[u32], dims: [usize; 3], x: usize, y: usize, z: usize) -> (r: u32)
    requires
        grid@.len() == dims@[0] * dims@[1] * dims@[2],
    ensures
        r == grid_sample(
            grid@,
            dims@[0] as int,
            dims@[1] as int,
            dims@[2] as int,
            x as int,
            y as int,
            z as int,
        ),
{
    let glen: usize = grid.len();
    if x < dims[0] && y < dims[1] && z < dims[2] {
        proof {
            lemma_grid_index_bounds(
                dims@[0] as int,
                dims@[1] as int,
                dims@[2] as int,
                x as int,
                y as int,
                z as int,
            );
        }
        let yx = dims[1] * dims[0];
        grid[z * yx + y * dims[0] + x]
    } else {
        0
    }
}

/// The mask cell for a pair of samples along the sweep axis.
pub fn mask_cell(current: u32, compare: u32) -> (r: MaskCell)
    ensures
        r == face_cell(current, compare),
{
    if current == 0 && compare != 0 {
        MaskCell { color: compare, negative_face: true }
    } else if current != 0 && compare == 0 {
        MaskCell { color: current, negative_face: false }
    } else {
        MaskCell { color: 0, negative_face: false }
    }
}

/// Builds the mask of slice `s` of the sweep along axis `d`: cell
/// `j*dims[u] + i` records the face, if any, at in-plane position `(i, j)`.
#[verifier::loop_isolation(false)]
fn build_mask(grid: &[u32], dims: [usize; 3], d: usize, u: usize, v: usize, s: usize) -> (mask: Vec<
    MaskCell,
>)
    requires
        axes_ok(d as int, u as int, v as int),
        grid@.len() == dims@[0] * dims@[1] * dims@[2],
        s <= dims@[d as int],
    ensures
        mask@.len() == dims@[u as int] * dims@[v as int],
        forall|n: int|
            0 <= n < mask@.len() ==> mask@[n] == slice_cell(
                grid@,
                dims@[0] as int,
                dims@[1] as int,
                dims@[2] as int,
                d as int,
                u as int,
                v as int,
                s as int,
                n % (dims@[u as int] as int),
                n / (dims@[u as int] as int),
            ),
{
    let du = dims[u];
    let dv = dims[v];
    let ghost xd = dims@[0] as int;
    let ghost yd = dims@[1] as int;
    let ghost zd = dims@[2] as int;
    let mut mask: Vec<MaskCell> = Vec::new();
    let mut j: usize = 0;
    while j < dv
        invariant
            j <= dv,
            mask@.len() == j * (du as int),
            forall|n: int|
                0 <= n < mask@.len() ==> mask@[n] == slice_cell(
                    grid@,
                    xd,
                    yd,
                    zd,
                    d as int,
                    u as int,
                    v as int,
                    s as int,
                    n % (du as int),
                    n / (du as int),
                ),
        decreases dv - j,
    {
        proof {
            lemma_row_bound(j as int, du as int, dv as int);
        }
        let mut i: usize = 0;
        while i < du
            invariant
                i <= du,
                j < dv,
                mask@.len() == j * (du as int) + i,
                forall|n: int|
                    0 <= n < mask@.len() ==> mask@[n] == slice_cell(
                        grid@,
                        xd,
                        yd,
                        zd,
                        d as int,
                        u as int,
                        v as int,
                        s as int,
                        n % (du as int),
                        n / (du as int),
                    ),
            decreases du - i,
        {
            let current: u32 = if s == 0 {
                0
            } else {
                let c = lattice_coord(d, u, v, s - 1, i, j);
                grid_fetch(grid, dims, c[0], c[1], c[2])
            };
            let compare: u32 = {
                let c = lattice_coord(d, u, v, s, i, j);
                grid_fetch(grid, dims, c[0], c[1], c[2])
            };
            let cell = mask_cell(current, compare);
            proof {
                let di = d as int;
                let ui = u as int;
                let vi = v as int;
                let si = s as int;
                let ii = i as int;
                let ji = j as int;
                if s == 0 {
                    assert(grid_sample(
                        grid@,
                        xd,
                        yd,
                        zd,
                        lattice(di, ui, vi, si - 1, ii, ji, 0),
                        lattice(di, ui, vi, si - 1, ii, ji, 1),
                        lattice(di, ui, vi, si - 1, ii, ji, 2),
                    ) == 0) by {
                        assert(lattice(di, ui, vi, si - 1, ii, ji, di) == -1);
                    }
                }
                assert(cell == slice_cell(grid@, xd, yd, zd, di, ui, vi, si, ii, ji));
                let n = mask@.len() as int;
                vstd::arithmetic::div_mod::lemma_fundamental_div_mod_converse(
                    n,
                    du as int,
                    ji,
                    ii,
                );
            }
            mask.push(cell);
            i = i + 1;
        }
        j = j + 1;
    }
    proof {
        assert((dv as int) * (du as int) == (du as int) * (dv as int)) by (nonlinear_arith);
    }
    mask
}

/// Whether the whole row of `w` cells starting at `base` still matches the
/// seed cell.
#[verifier::loop_isolation(false)]
fn row_matches(mask: &Vec<MaskCell>, base: usize, w: usize, cell: MaskCell) -> (r: bool)
    requires
        base + w <= mask@.len(),
    ensures
        r == (forall|k: int| base <= k < base + w ==> mask@[k] == cell),
{
    let mlen: usize = mask.len();
    let mut k: usize = 0;
    while k < w
        invariant
            k <= w,
            forall|kk: int| base <= kk < base + k ==> mask@[kk] == cell,
        decreases w - k,
    {
        if mask[base + k] != cell {
            assert(mask@[base + k as int] != cell);
            return false;
        }
        k = k + 1;
    }
    true
}

/// Reads the position bit patterns of the lattice corner `c` out of the
/// scale tables.
fn corner_bits(scale: &BlockScale, dims: [usize; 3], c: [usize; 3]) -> (r: Vec3Bits)
    requires
        scale.wf(dims),
        forall|a: int| 0 <= a < 3 ==> c@[a] <= dims@[a],
    ensures
        r == (Vec3Bits {
            x: scale.at(0, c@[0] as int),
            y: scale.at(1, c@[1] as int),
            z: scale.at(2, c@[2] as int),
        }),
{
    Vec3Bits { x: scale.axis[0][c[0]], y: scale.axis[1][c[1]], z: scale.axis[2][c[2]] }
}

/// After a merged rectangle starting at the scan cursor is cleared, every
/// cell up to the advanced cursor reads as empty.
proof fn lemma_scan_advance(
    m: Seq<MaskCell>,
    mcp: Seq<MaskCell>,
    du: int,
    dv: int,
    n: int,
    i: int,
    j: int,
    w: int,
    h: int,
)
    requires
        m.len() == du * dv,
        0 <= i,
        1 <= w,
        i + w <= du,
        0 <= j,
        1 <= h,
        j + h <= dv,
        n == j * du + i,
        forall|t: int| 0 <= t < n ==> (#[trigger] mcp[t]).color == 0,
        forall|a: int, b: int|
            i <= a < i + w && j <= b < j + h ==> (#[trigger] mask_at(m, du, a, b)).color == 0,
        forall|a: int, b: int|
            0 <= a < du && 0 <= b < dv && !(i <= a < i + w && j <= b < j + h)
                ==> #[trigger] mask_at(m, du, a, b) == mask_at(mcp, du, a, b),
    ensures
        forall|t: int| 0 <= t < n + w ==> (#[trigger] m[t]).color == 0,
{
    assert forall|t: int| 0 <= t < n + w implies (#[trigger] m[t]).color == 0 by {
        vstd::arithmetic::div_mod::lemma_fundamental_div_mod(t, du);
        vstd::arithmetic::div_mod::lemma_mod_bound(t, du);
        vstd::arithmetic::div_mod::lemma_div_pos_is_pos(t, du);
        let a = t % du;
        let b = t / du;
        assert(0 < du);
        assert(t == du * (t / du) + (t % du));
        assert(t == du * b + a);
        assert(b * du == du * b) by (nonlinear_arith);
        assert(m[b * du + a] == m[t]);
        assert(0 <= a < du);
        assert(0 <= b < dv) by {
            assert(du * b + a == t);
            assert(du * b <= t);
            assert(t < dv * du) by {
                lemma_row_bound(dv - 1, du, dv);
                lemma_mul_le(j, dv - 1, du);
            }
            if b >= dv {
                assert(du * b >= du * dv) by (nonlinear_arith)
                    requires
                        b >= dv,
                        du >= 0,
                ;
            }
        }
        if i <= a < i + w && j <= b < j + h {
            assert((mask_at(m, du, a, b)).color == 0);
        } else {
            assert(mask_at(m, du, a, b) == mask_at(mcp, du, a, b));
            if t < n {
                assert(mcp[b * du + a] == mcp[t]);
                assert(mcp[t].color == 0);
            } else {
                assert(b * du + a == j * du + (i + (t - n)));
                vstd::arithmetic::div_mod::lemma_fundamental_div_mod_converse(
                    t,
                    du,
                    j,
                    i + (t - n),
                );
            }
        }
    }
}

/// Clears a `w` by `h` rectangle of the mask back to "no face", leaving
/// every other cell untouched.
#[verifier::loop_isolation(false)]
fn clear_rect(
    m: &mut Vec<MaskCell>,
    du: usize,
    dv: usize,
    n: usize,
    i: usize,
    j: usize,
    w: usize,
    h: usize,
)
    requires
        old(m)@.len() == du * dv,
        1 <= w,
        1 <= h,
        i + w <= du,
        j + h <= dv,
        n == j * du + i,
    ensures
        final(m)@.len() == old(m)@.len(),
        forall|a: int, b: int|
            i <= a < i + w && j <= b < j + h ==> (#[trigger] mask_at(
                final(m)@,
                du as int,
                a,
                b,
            )).color == 0,
        forall|a: int, b: int|
            0 <= a < du && 0 <= b < dv && !(i <= a < i + w && j <= b < j + h)
                ==> #[trigger] mask_at(final(m)@, du as int, a, b) == mask_at(
                old(m)@,
                du as int,
                a,
                b,
            ),
        forall|q: int|
            0 <= q < final(m)@.len() ==> (#[trigger] final(m)@[q]).color == 0 || final(m)@[q]
                == old(m)@[q],
{
    let mlen: usize = m.len();
    let ghost mcp = m@;
    let mut hh: usize = 0;
    while hh < h
        invariant
            hh <= h,
            m@.len() == mcp.len(),
            forall|q: int| 0 <= q < m@.len() ==> (#[trigger] m@[q]).color == 0 || m@[q] == mcp[q],
            forall|a: int, b: int|
                i <= a < i + w && j <= b < j + hh ==> (#[trigger] mask_at(
                    m@,
                    du as int,
                    a,
                    b,
                )).color == 0,
            forall|a: int, b: int|
                0 <= a < du && 0 <= b < dv && !(i <= a < i + w && j <= b < j + h)
                    ==> #[trigger] mask_at(m@, du as int, a, b) == mask_at(mcp, du as int, a, b),
        decreases h - hh,
    {
        proof {
            lemma_rect_bound(j as int, hh as int, du as int, dv as int);
        }
        let mut ww: usize = 0;
        while ww < w
            invariant
                ww <= w,
                hh < h,
                m@.len() == mcp.len(),
                forall|q: int| 0 <= q < m@.len() ==> (#[trigger] m@[q]).color == 0 || m@[q]
                    == mcp[q],
                forall|a: int, b: int|
                    i <= a < i + w && j <= b < j + hh ==> (#[trigger] mask_at(
                        m@,
                        du as int,
                        a,
                        b,
                    )).color == 0,
                forall|t: int|
                    n + hh * (du as int) <= t < n + hh * (du as int) + ww
                        ==> (#[trigger] m@[t]).color == 0,
                forall|a: int, b: int|
                    0 <= a < du && 0 <= b < dv && !(i <= a < i + w && j <= b < j + h)
                        ==> #[trigger] mask_at(m@, du as int, a, b) == mask_at(
                        mcp,
                        du as int,
                        a,
                        b,
                    ),
            decreases w - ww,
        {
            let ghost mprev = m@;
            m[n + ww + hh * du] = MaskCell { color: 0, negative_face: false };
            proof {
                let idx = n as int + ww + hh * (du as int);
                assert forall|a: int, b: int|
                    0 <= a < du && 0 <= b < dv && !(i <= a < i + w && j <= b < j + h)
                        implies #[trigger] mask_at(m@, du as int, a, b) == mask_at(
                    mcp,
                    du as int,
                    a,
                    b,
                ) by {
                    lemma_rect_bound(j as int, hh as int, du as int, dv as int);
                    lemma_row_bound(b, du as int, dv as int);
                    assert(0 <= b * (du as int) + a < mprev.len());
                    if b * (du as int) + a == idx {
                        vstd::arithmetic::div_mod::lemma_fundamental_div_mod_converse(
                            idx,
                            du as int,
                            b,
                            a,
                        );
                        vstd::arithmetic::div_mod::lemma_fundamental_div_mod_converse(
                            idx,
                            du as int,
                            (j + hh) as int,
                            (i + ww) as int,
                        );
                    } else {
                        assert(m@[b * (du as int) + a] == mprev[b * (du as int) + a]);
                        assert(mask_at(mprev, du as int, a, b) == mask_at(mcp, du as int, a, b));
                    }
                }
                assert forall|a: int, b: int|
                    i <= a < i + w && j <= b < j + hh implies (#[trigger] mask_at(
                    m@,
                    du as int,
                    a,
                    b,
                )).color == 0 by {
                    assert((mask_at(mprev, du as int, a, b)).color == 0);
                    lemma_row_bound(b, du as int, dv as int);
                    assert(m@[b * (du as int) + a] == mprev[b * (du as int) + a] || m@[b * (
                    du as int) + a].color == 0);
                }
                assert forall|t: int|
                    n + hh * (du as int) <= t < n + hh * (du as int) + ww + 1 implies (
                #[trigger] m@[t]).color == 0 by {
                    if t < n + hh * (du as int) + ww {
                        assert(mprev[t].color == 0);
                    }
                }
            }
            ww = ww + 1;
        }
        proof {
            assert forall|a: int, b: int|
                i <= a < i + w && j <= b < j + hh + 1 implies (#[trigger] mask_at(
                m@,
                du as int,
                a,
                b,
            )).color == 0 by {
                if b == j + hh {
                    assert(m@[n as int + hh * (du as int) + (a - i as int)].color == 0);
                    assert(b * (du as int) + a == n as int + hh * (du as int) + (a - i as int));
                }
            }
        }
        hh = hh + 1;
    }
}

/// Greedily merges one slice's mask into maximal rectangles and emits each
/// as one quad.  Scans row-major, grows each seed cell as wide then as tall
/// as the cells keep matching it exactly, emits the rectangle, clears it,
/// and moves on.  Appends at most one quad per mask cell; an all-empty mask
/// emits nothing.
#[verifier::loop_isolation(false)]
#[verifier::rlimit(100)]
fn merge_slice(
    dims: [usize; 3],
    d: usize,
    u: usize,
    v: usize,
    s: usize,
    mask: Vec<MaskCell>,
    scale: &BlockScale,
    vertices: &mut Vec<Vertex>,
    indices: &mut Vec<u32>,
)
    requires
        axes_ok(d as int, u as int, v as int),
        scale.wf(dims),
        mask@.len() == dims@[u as int] * dims@[v as int],
        s <= dims@[d as int],
        old(vertices)@.len() + 4 * (dims@[u as int] * dims@[v as int]) <= u32::MAX,
    ensures
        mesh_extends(old(vertices)@, old(indices)@, final(vertices)@, final(indices)@),
        final(vertices)@.len() <= old(vertices)@.len() + 4 * (dims@[u as int]
            * dims@[v as int]),
        mask_all_empty(mask@) ==> final(vertices)@ == old(vertices)@ && final(indices)@ == old(
            indices,
        )@,
        final(vertices)@.len() == old(vertices)@.len() ==> mask_all_empty(mask@),
        forall|k: int|
            old(vertices)@.len() <= k < final(vertices)@.len() ==> color_from_mask(
                mask@,
                #[trigger] final(vertices)@[k],
            ),
        exists|qs: Seq<QuadSpec>|
            slice_emission(
                mask@,
                dims@[u as int] as int,
                dims@[v as int] as int,
                d as int,
                u as int,
                v as int,
                s as int,
                *scale,
                old(vertices)@,
                old(indices)@,
                final(vertices)@,
                final(indices)@,
                qs,
            ),
{
    let du = dims[u];
    let dv = dims[v];
    let mut m = mask;
    let ghost m0 = m@;
    let ghost v0 = vertices@;
    let ghost i0 = indices@;
    let ghost mut qs: Seq<QuadSpec> = Seq::empty();
    proof {
        lemma_mesh_extends_refl(v0, i0);
        assert(vertices@ =~= v0 + quads_vertices(*scale, qs));
        assert(indices@ =~= i0 + quads_indices(v0.len() as int, qs));
        assert(forall|a: int, b: int| #[trigger] face_count(qs, d as int, s as int, a, b) == 0);
    }
    let mut j: usize = 0;
    let mut n: usize = 0;
    while j < dv
        invariant
            j <= dv,
            n == j * (du as int),
            m@.len() == m0.len(),
            mesh_extends(v0, i0, vertices@, indices@),
            vertices@.len() <= v0.len() + 4 * (j * (du as int)),
            mask_all_empty(m0) ==> m@ == m0 && vertices@ == v0 && indices@ == i0,
            vertices@.len() == v0.len() ==> m@ == m0 && (forall|k: int|
                0 <= k < n ==> m0[k].color == 0),
            forall|q: int| 0 <= q < m@.len() ==> (#[trigger] m@[q]).color == 0 || m@[q] == m0[q],
            forall|k: int|
                v0.len() <= k < vertices@.len() ==> color_from_mask(
                    m0,
                    #[trigger] vertices@[k],
                ),
            forall|k: int|
                0 <= k < qs.len() ==> rect_matches_mask(
                    m0,
                    du as int,
                    dv as int,
                    d as int,
                    u as int,
                    v as int,
                    s as int,
                    #[trigger] qs[k],
                ),
            vertices@ == v0 + quads_vertices(*scale, qs),
            indices@ == i0 + quads_indices(v0.len() as int, qs),
            forall|t: int| 0 <= t < n ==> (#[trigger] m@[t]).color == 0,
            forall|a: int, b: int|
                0 <= a < du && 0 <= b < dv ==> #[trigger] face_count(qs, d as int, s as int, a, b)
                    == (if mask_at(m0, du as int, a, b).color != 0 && mask_at(
                    m@,
                    du as int,
                    a,
                    b,
                ).color == 0 {
                    1int
                } else {
                    0
                }),
        decreases dv - j,
    {
        proof {
            lemma_row_bound(j as int, du as int, dv as int);
        }
        let mut i: usize = 0;
        while i < du
            invariant
                i <= du,
                j < dv,
                n == j * (du as int) + i,
                m@.len() == m0.len(),
                mesh_extends(v0, i0, vertices@, indices@),
                vertices@.len() <= v0.len() + 4 * (j * (du as int) + i),
                mask_all_empty(m0) ==> m@ == m0 && vertices@ == v0 && indices@ == i0,
                vertices@.len() == v0.len() ==> m@ == m0 && (forall|k: int|
                    0 <= k < n ==> m0[k].color == 0),
                forall|q: int| 0 <= q < m@.len() ==> (#[trigger] m@[q]).color == 0 || m@[q]
                    == m0[q],
                forall|k: int|
                    v0.len() <= k < vertices@.len() ==> color_from_mask(
                        m0,
                        #[trigger] vertices@[k],
                    ),
                forall|k: int|
                    0 <= k < qs.len() ==> rect_matches_mask(
                        m0,
                        du as int,
                        dv as int,
                        d as int,
                        u as int,
                        v as int,
                        s as int,
                        #[trigger] qs[k],
                    ),
                vertices@ == v0 + quads_vertices(*scale, qs),
                indices@ == i0 + quads_indices(v0.len() as int, qs),
                forall|t: int| 0 <= t < n ==> (#[trigger] m@[t]).color == 0,
                forall|a: int, b: int|
                    0 <= a < du && 0 <= b < dv ==> #[trigger] face_count(
                        qs,
                        d as int,
                        s as int,
                        a,
                        b,
                    ) == (if mask_at(m0, du as int, a, b).color != 0 && mask_at(
                        m@,
                        du as int,
                        a,
                        b,
                    ).color == 0 {
                        1int
                    } else {
                        0
                    }),
            decreases du - i,
        {
            let cell = m[n];
            if cell.color == 0 {
                i = i + 1;
                n = n + 1;
            } else {
                proof {
                    if mask_all_empty(m0) {
                        assert(m0[n as int].color == 0);
                        assert(false);
                    }
                }
                // Width: extend while successive cells along `u` match the
                // seed exactly.
                let mut w: usize = 1;
                while i + w < du && m[n + w] == cell
                    invariant
                        1 <= w,
                        i + w <= du,
                        forall|t: int| n <= t < n + w ==> (#[trigger] m@[t]) == cell,
                    decreases du - i - w,
                {
                    w = w + 1;
                }
                // Height: accept a row only if every cell across the
                // rectangle's width matches the seed.
                let mut h: usize = 1;
                let mut growing = true;
                while growing && j + h < dv
                    invariant
                        1 <= h,
                        j + h <= dv,
                        forall|a: int, b: int|
                            i <= a < i + w && j < b < j + h ==> #[trigger] mask_at(
                                m@,
                                du as int,
                                a,
                                b,
                            ) == cell,
                    decreases dv - j - h + (if growing { 1int } else { 0int }),
                {
                    proof {
                        lemma_rect_bound(j as int, h as int, du as int, dv as int);
                    }
                    let base = n + h * du;
                    if row_matches(&m, base, w, cell) {
                        proof {
                            let row = (j + h) as int;
                            assert forall|a: int|
                                i <= a < i + w implies #[trigger] mask_at(
                                m@,
                                du as int,
                                a,
                                row,
                            ) == cell by {
                                assert(m@[base as int + (a - i as int)] == cell);
                            }
                        }
                        h = h + 1;
                    } else {
                        growing = false;
                    }
                }
                // Emit the w-by-h rectangle as one quad.
                let o = lattice_coord(d, u, v, s, i, j);
                let c1 = lattice_coord(d, u, v, s, i + w, j);
                let c2 = lattice_coord(d, u, v, s, i + w, j + h);
                let c3 = lattice_coord(d, u, v, s, i, j + h);
                let p0 = corner_bits(scale, dims, o);
                let p1 = corner_bits(scale, dims, c1);
                let p2 = corner_bits(scale, dims, c2);
                let p3 = corner_bits(scale, dims, c3);
                let quad = if cell.negative_face {
                    Quad { colour: cell.color, corners: [p3, p2, p1, p0] }
                } else {
                    Quad { colour: cell.color, corners: [p0, p1, p2, p3] }
                };
                let ghost vp = vertices@;
                let ghost ip = indices@;
                let ghost rect = QuadSpec {
                    d: d as int,
                    u: u as int,
                    v: v as int,
                    s: s as int,
                    i: i as int,
                    j: j as int,
                    w: w as int,
                    h: h as int,
                    cell,
                };
                proof {
                    assert forall|a: int, b: int| in_rect(rect, a, b) implies #[trigger] mask_at(
                        m0,
                        du as int,
                        a,
                        b,
                    ) == cell by {
                        lemma_row_bound(b, du as int, dv as int);
                        if b == j as int {
                            assert(m@[(j as int) * (du as int) + a] == cell);
                        } else {
                            assert(mask_at(m@, du as int, a, b) == cell);
                        }
                        assert(m@[b * (du as int) + a] == cell);
                        assert(m@[b * (du as int) + a] == m0[b * (du as int) + a]);
                    }
                    assert(rect_matches_mask(
                        m0,
                        du as int,
                        dv as int,
                        d as int,
                        u as int,
                        v as int,
                        s as int,
                        rect,
                    ));
                    assert(p0 == corner_at(
                        *scale, d as int, u as int, v as int, s as int, i as int, j as int,
                    ));
                    assert(p1 == corner_at(
                        *scale, d as int, u as int, v as int, s as int, i + w, j as int,
                    ));
                    assert(p2 == corner_at(
                        *scale, d as int, u as int, v as int, s as int, i + w, j + h,
                    ));
                    assert(p3 == corner_at(
                        *scale, d as int, u as int, v as int, s as int, i as int, j + h,
                    ));
                    assert(quad_vertices(quad) =~= quad_spec_vertices(*scale, rect));
                }
                draw_quad(vertices, indices, quad);
                proof {
                    lemma_mesh_extends_quad(v0, i0, vp, ip, quad, vertices@, indices@);
                    assert(m0[n as int].color == cell.color);
                    assert forall|k: int|
                        v0.len() <= k < vertices@.len() implies color_from_mask(
                        m0,
                        #[trigger] vertices@[k],
                    ) by {
                        if k >= vp.len() {
                            assert(vertices@[k] == quad_vertices(quad)[k - vp.len()]);
                            assert(vertices@[k].rgba == cell.color);
                        }
                    }
                    lemma_quads_vertices_len(*scale, qs);
                    lemma_quads_push(*scale, v0.len() as int, qs, rect);
                    lemma_face_count_push(qs, rect);
                    qs = qs.push(rect);
                    assert(vertices@ =~= v0 + quads_vertices(*scale, qs));
                    assert(indices@ =~= i0 + quads_indices(v0.len() as int, qs));
                }
                // Clear the rectangle so its cells are not reused.
                let ghost mcp = m@;
                proof {
                    assert(forall|t: int| 0 <= t < n ==> (#[trigger] mcp[t]).color == 0);
                }
                clear_rect(&mut m, du, dv, n, i, j, w, h);
                proof {
                    assert forall|a: int, b: int|
                        0 <= a < du && 0 <= b < dv implies #[trigger] face_count(
                        qs,
                        d as int,
                        s as int,
                        a,
                        b,
                    ) == (if mask_at(m0, du as int, a, b).color != 0 && mask_at(
                        m@,
                        du as int,
                        a,
                        b,
                    ).color == 0 {
                        1int
                    } else {
                        0
                    }) by {
                        if in_rect(rect, a, b) {
                            assert(mask_at(mcp, du as int, a, b) == cell);
                            assert(mask_at(m0, du as int, a, b) == cell);
                            assert((mask_at(m@, du as int, a, b)).color == 0);
                        } else {
                            assert(mask_at(m@, du as int, a, b) == mask_at(mcp, du as int, a, b));
                        }
                    }
                    lemma_scan_advance(
                        m@,
                        mcp,
                        du as int,
                        dv as int,
                        n as int,
                        i as int,
                        j as int,
                        w as int,
                        h as int,
                    );
                }
                i = i + w;
                n = n + w;
            }
        }
        j = j + 1;
    }
    proof {
        assert((dv as int) * (du as int) == (du as int) * (dv as int)) by (nonlinear_arith);
        assert forall|a: int, b: int|
            0 <= a < du && 0 <= b < dv implies #[trigger] face_count(qs, d as int, s as int, a, b)
                == (if mask_at(m0, du as int, a, b).color != 0 {
                1int
            } else {
                0
            }) by {
            lemma_row_bound(b, du as int, dv as int);
            assert(m@[b * (du as int) + a].color == 0);
        }
        assert(slice_emission(
            m0,
            du as int,
            dv as int,
            d as int,
            u as int,
            v as int,
            s as int,
            *scale,
            v0,
            i0,
            vertices@,
            indices@,
            qs,
        ));
    }
}

/// One axis sweep: builds and merges the mask of every slice boundary along
/// axis `d`, from the grid's near face to its far face inclusive.
#[verifier::loop_isolation(false)]
fn mesh_axis(
    grid: &[u32],
    dims: [usize; 3],
    d: usize,
    u: usize,
    v: usize,
    scale: &BlockScale,
    vertices: &mut Vec<Vertex>,
    indices: &mut Vec<u32>,
)
    requires
        axes_ok(d as int, u as int, v as int),
        grid@.len() == dims@[0] * dims@[1] * dims@[2],
        dims@[0] >= 1,
        dims@[1] >= 1,
        dims@[2] >= 1,
        scale.wf(dims),
        old(vertices)@.len() + 4 * ((dims@[d as int] + 1) * (dims@[u as int] * dims@[v as int]))
            <= u32::MAX,
    ensures
        mesh_extends(old(vertices)@, old(indices)@, final(vertices)@, final(indices)@),
        final(vertices)@.len() <= old(vertices)@.len() + 4 * ((dims@[d as int] + 1)
            * (dims@[u as int] * dims@[v as int])),
        grid_all_empty(grid@) ==> final(vertices)@ == old(vertices)@ && final(indices)@ == old(
            indices,
        )@,
        forall|k: int|
            old(vertices)@.len() <= k < final(vertices)@.len() ==> color_from_grid(
                grid@,
                #[trigger] final(vertices)@[k],
            ),
        exists|qs: Seq<QuadSpec>|
            emitted_quads(
                grid@,
                dims@[0] as int,
                dims@[1] as int,
                dims@[2] as int,
                *scale,
                old(vertices)@,
                old(indices)@,
                final(vertices)@,
                final(indices)@,
                qs,
            ) && axis_cover(
                grid@,
                dims@[0] as int,
                dims@[1] as int,
                dims@[2] as int,
                d as int,
                qs,
            ),
        final(vertices)@.len() == old(vertices)@.len() ==> (forall|si: int, i: int, j: int|
            0 <= si <= dims@[d as int] && 0 <= i < dims@[u as int] && 0 <= j < dims@[v as int]
                ==> slice_cell(
                grid@,
                dims@[0] as int,
                dims@[1] as int,
                dims@[2] as int,
                d as int,
                u as int,
                v as int,
                si,
                i,
                j,
            ) == empty_cell()),
{
    let dd = dims[d];
    let du = dims[u];
    let dv = dims[v];
    let ghost xd = dims@[0] as int;
    let ghost yd = dims@[1] as int;
    let ghost zd = dims@[2] as int;
    let ghost area = (du as int) * (dv as int);
    let ghost v0 = vertices@;
    let ghost i0 = indices@;
    let ghost mut qs_ax: Seq<QuadSpec> = Seq::empty();
    proof {
        lemma_mesh_extends_refl(v0, i0);
        assert(vertices@ =~= v0 + quads_vertices(*scale, qs_ax));
        assert(indices@ =~= i0 + quads_indices(v0.len() as int, qs_ax));
        assert(forall|dd2: int, ss: int, a: int, b: int|
            #[trigger] face_count(qs_ax, dd2, ss, a, b) == 0);
        assert(1 <= area) by (nonlinear_arith)
            requires
                1 <= du,
                1 <= dv,
                area == (du as int) * (dv as int),
        ;
        lemma_mul_le(1, (dd + 1) as int, area);
        assert((dd as int) + 1 <= ((dd as int) + 1) * area) by (nonlinear_arith)
            requires
                1 <= area,
                0 <= dd as int,
        ;
    }
    let mut s: usize = 0;
    while s <= dd
        invariant
            s <= dd + 1,
            mesh_extends(v0, i0, vertices@, indices@),
            vertices@.len() <= v0.len() + 4 * ((s as int) * area),
            grid_all_empty(grid@) ==> vertices@ == v0 && indices@ == i0,
            forall|k: int|
                v0.len() <= k < vertices@.len() ==> color_from_grid(
                    grid@,
                    #[trigger] vertices@[k],
                ),
            forall|k: int|
                0 <= k < qs_ax.len() ==> quad_on_grid(grid@, xd, yd, zd, #[trigger] qs_ax[k]),
            vertices@ == v0 + quads_vertices(*scale, qs_ax),
            indices@ == i0 + quads_indices(v0.len() as int, qs_ax),
            forall|k: int| 0 <= k < qs_ax.len() ==> (#[trigger] qs_ax[k]).d == d,
            forall|ss: int, a: int, b: int|
                0 <= ss <= dd && 0 <= a < du && 0 <= b < dv ==> #[trigger] face_count(
                    qs_ax,
                    d as int,
                    ss,
                    a,
                    b,
                ) == (if ss < s && slice_cell(
                    grid@,
                    xd,
                    yd,
                    zd,
                    d as int,
                    u as int,
                    v as int,
                    ss,
                    a,
                    b,
                ).color != 0 {
                    1int
                } else {
                    0
                }),
            forall|dd2: int, ss: int, a: int, b: int|
                dd2 != d ==> #[trigger] face_count(qs_ax, dd2, ss, a, b) == 0,
            vertices@.len() == v0.len() ==> (forall|si: int, i: int, j: int|
                0 <= si < s && 0 <= i < du && 0 <= j < dv ==> slice_cell(
                    grid@,
                    xd,
                    yd,
                    zd,
                    d as int,
                    u as int,
                    v as int,
                    si,
                    i,
                    j,
                ) == empty_cell()),
        decreases dd + 1 - s,
    {
        proof {
            lemma_mul_le((s + 1) as int, (dd + 1) as int, area);
            assert(((s + 1) as int) * area == (s as int) * area + area) by (nonlinear_arith);
        }
        let mask = build_mask(grid, dims, d, u, v, s);
        proof {
            if grid_all_empty(grid@) {
                assert forall|n: int| 0 <= n < mask@.len() implies mask@[n].color == 0 by {
                    let di = d as int;
                    let ui = u as int;
                    let vi = v as int;
                    let si = s as int;
                    let ii = n % (du as int);
                    let ji = n / (du as int);
                    lemma_sample_zero(
                        grid@,
                        xd,
                        yd,
                        zd,
                        lattice(di, ui, vi, si - 1, ii, ji, 0),
                        lattice(di, ui, vi, si - 1, ii, ji, 1),
                        lattice(di, ui, vi, si - 1, ii, ji, 2),
                    );
                    lemma_sample_zero(
                        grid@,
                        xd,
                        yd,
                        zd,
                        lattice(di, ui, vi, si, ii, ji, 0),
                        lattice(di, ui, vi, si, ii, ji, 1),
                        lattice(di, ui, vi, si, ii, ji, 2),
                    );
                }
            }
        }
        let ghost vp = vertices@;
        let ghost ip = indices@;
        let ghost mk = mask@;
        merge_slice(dims, d, u, v, s, mask, scale, vertices, indices);
        proof {
            lemma_mesh_extends_trans(v0, i0, vp, ip, vertices@, indices@);
            let qs_s = choose|qq: Seq<QuadSpec>|
                slice_emission(
                    mk,
                    du as int,
                    dv as int,
                    d as int,
                    u as int,
                    v as int,
                    s as int,
                    *scale,
                    vp,
                    ip,
                    vertices@,
                    indices@,
                    qq,
                );
            assert forall|k: int|
                0 <= k < qs_s.len() implies quad_on_grid(grid@, xd, yd, zd, #[trigger] qs_s[k]) by {
                let q = qs_s[k];
                assert forall|a: int, b: int|
                    in_rect(q, a, b) implies #[trigger] slice_cell(
                    grid@,
                    xd,
                    yd,
                    zd,
                    q.d,
                    q.u,
                    q.v,
                    q.s,
                    a,
                    b,
                ) == q.cell by {
                    lemma_row_bound(b, du as int, dv as int);
                    vstd::arithmetic::div_mod::lemma_fundamental_div_mod_converse(
                        b * (du as int) + a,
                        du as int,
                        b,
                        a,
                    );
                    assert(mask_at(mk, du as int, a, b) == q.cell);
                    assert(mk[b * (du as int) + a] == slice_cell(
                        grid@,
                        xd,
                        yd,
                        zd,
                        d as int,
                        u as int,
                        v as int,
                        s as int,
                        a,
                        b,
                    ));
                }
            }
            let qa0 = qs_ax;
            lemma_quads_vertices_len(*scale, qa0);
            lemma_quads_concat(*scale, v0.len() as int, qa0, qs_s);
            qs_ax = qa0 + qs_s;
            assert(vertices@ =~= v0 + quads_vertices(*scale, qs_ax));
            assert(indices@ =~= i0 + quads_indices(v0.len() as int, qs_ax));
            assert forall|k: int|
                0 <= k < qs_ax.len() implies quad_on_grid(grid@, xd, yd, zd, #[trigger] qs_ax[k])
                    && qs_ax[k].d == d as int by {
                if k < qa0.len() {
                    assert(qs_ax[k] == qa0[k]);
                } else {
                    assert(qs_ax[k] == qs_s[k - qa0.len()]);
                }
            }
            assert(forall|k: int|
                0 <= k < qs_s.len() ==> (#[trigger] qs_s[k]).d == d as int && qs_s[k].s
                    == s as int);
            lemma_face_count_concat(qa0, qs_s);
            lemma_face_count_other_slice(qs_s, d as int, s as int);
            lemma_face_count_elsewhere(qs_s, d as int);
            assert forall|ss: int, a: int, b: int|
                0 <= ss <= dd && 0 <= a < du && 0 <= b < dv implies #[trigger] face_count(
                qs_ax,
                d as int,
                ss,
                a,
                b,
            ) == (if ss < s + 1 && slice_cell(
                grid@,
                xd,
                yd,
                zd,
                d as int,
                u as int,
                v as int,
                ss,
                a,
                b,
            ).color != 0 {
                1int
            } else {
                0
            }) by {
                assert(face_count(qs_ax, d as int, ss, a, b) == face_count(qa0, d as int, ss, a, b)
                    + face_count(qs_s, d as int, ss, a, b));
                if ss == s as int {
                    assert(face_count(qa0, d as int, ss, a, b) == 0);
                    lemma_row_bound(b, du as int, dv as int);
                    vstd::arithmetic::div_mod::lemma_fundamental_div_mod_converse(
                        b * (du as int) + a,
                        du as int,
                        b,
                        a,
                    );
                    assert(mk[b * (du as int) + a] == slice_cell(
                        grid@,
                        xd,
                        yd,
                        zd,
                        d as int,
                        u as int,
                        v as int,
                        s as int,
                        a,
                        b,
                    ));
                    assert(face_count(qs_s, d as int, s as int, a, b) == (if mask_at(
                        mk,
                        du as int,
                        a,
                        b,
                    ).color != 0 {
                        1int
                    } else {
                        0
                    }));
                } else {
                    assert(face_count(qs_s, d as int, ss, a, b) == 0);
                }
            }
            assert forall|dd2: int, ss: int, a: int, b: int|
                dd2 != d as int implies #[trigger] face_count(qs_ax, dd2, ss, a, b) == 0 by {
                assert(face_count(qs_ax, dd2, ss, a, b) == face_count(qa0, dd2, ss, a, b)
                    + face_count(qs_s, dd2, ss, a, b));
            }
            assert forall|k: int|
                v0.len() <= k < vertices@.len() implies color_from_grid(
                grid@,
                #[trigger] vertices@[k],
            ) by {
                if k < vp.len() {
                    assert(vertices@[k] == vp[k]);
                } else {
                    let vtx = vertices@[k];
                    let q = choose|q: int|
                        0 <= q < mk.len() && (#[trigger] mk[q]).color == vtx.rgba;
                    let di = d as int;
                    let ui = u as int;
                    let vi = v as int;
                    let si = s as int;
                    let ii = q % (du as int);
                    let ji = q / (du as int);
                    assert(mk[q] == slice_cell(grid@, xd, yd, zd, di, ui, vi, si, ii, ji));
                    let cur = grid_sample(
                        grid@,
                        xd,
                        yd,
                        zd,
                        lattice(di, ui, vi, si - 1, ii, ji, 0),
                        lattice(di, ui, vi, si - 1, ii, ji, 1),
                        lattice(di, ui, vi, si - 1, ii, ji, 2),
                    );
                    if cur != 0 {
                        lemma_sample_in_grid(
                            grid@,
                            xd,
                            yd,
                            zd,
                            lattice(di, ui, vi, si - 1, ii, ji, 0),
                            lattice(di, ui, vi, si - 1, ii, ji, 1),
                            lattice(di, ui, vi, si - 1, ii, ji, 2),
                        );
                    } else {
                        lemma_sample_in_grid(
                            grid@,
                            xd,
                            yd,
                            zd,
                            lattice(di, ui, vi, si, ii, ji, 0),
                            lattice(di, ui, vi, si, ii, ji, 1),
                            lattice(di, ui, vi, si, ii, ji, 2),
                        );
                    }
                }
            }
            if vertices@.len() == v0.len() {
                assert(vp.len() == v0.len());
                assert(mask_all_empty(mk));
                assert forall|i: int, j: int| 0 <= i < du && 0 <= j < dv implies slice_cell(
                    grid@,
                    xd,
                    yd,
                    zd,
                    d as int,
                    u as int,
                    v as int,
                    s as int,
                    i,
                    j,
                ) == empty_cell() by {
                    lemma_row_bound(j, du as int, dv as int);
                    let nn = j * (du as int) + i;
                    vstd::arithmetic::div_mod::lemma_fundamental_div_mod_converse(
                        nn,
                        du as int,
                        j,
                        i,
                    );
                    assert(mk[nn].color == 0);
                }
            }
        }
        s = s + 1;
    }
    proof {
        assert(emitted_quads(
            grid@,
            xd,
            yd,
            zd,
            *scale,
            v0,
            i0,
            vertices@,
            indices@,
            qs_ax,
        ));
        assert(axis_u(d as int) == u as int && axis_v(d as int) == v as int);
        assert(dim_at(xd, yd, zd, d as int) == dd as int);
        assert(dim_at(xd, yd, zd, u as int) == du as int);
        assert(dim_at(xd, yd, zd, v as int) == dv as int);
        assert(axis_cover(grid@, xd, yd, zd, d as int, qs_ax));
    }
}

/// Greedy meshing: converts a dense voxel-colour grid into a triangle mesh,
/// appending to the caller's vertex and index buffers.
///
/// The grid holds `dims[0]*dims[1]*dims[2]` packed RGBA colours indexed by
/// `z*dims[1]*dims[0] + y*dims[0] + x`, colour 0 meaning empty.  `scale`
/// supplies, per axis, the final mesh coordinate of every lattice position
/// as an IEEE 754 bit pattern.  One sweep runs per axis; every visible face
/// (a solid/empty transition) ends up covered by exactly one emitted
/// rectangle.  Always returns `true`.
///
/// Whole quads are appended: the old buffer contents stay as a prefix,
/// vertices grow by fours and indices by sixes, every appended index points
/// into the grown vertex buffer, and an all-empty grid appends nothing.
pub fn greedy_mesh(
    rgba_data: &[u32],
    dims: [usize; 3],
    vertices: &mut Vec<Vertex>,
    indices: &mut Vec<u32>,
    scale: &BlockScale,
) -> (r: bool)
    requires
        rgba_data@.len() == dims@[0] * dims@[1] * dims@[2],
        dims@[0] >= 1,
        dims@[1] >= 1,
        dims@[2] >= 1,
        scale.wf(dims),
        old(vertices)@.len() + 4 * quad_capacity(
            dims@[0] as int,
            dims@[1] as int,
            dims@[2] as int,
        ) <= u32::MAX,
    ensures
        r,
        mesh_extends(old(vertices)@, old(indices)@, final(vertices)@, final(indices)@),
        grid_all_empty(rgba_data@) ==> final(vertices)@ == old(vertices)@ && final(indices)@
            == old(indices)@,
        !grid_all_empty(rgba_data@) ==> final(vertices)@.len() > old(vertices)@.len(),
        forall|k: int|
            old(vertices)@.len() <= k < final(vertices)@.len() ==> color_from_grid(
                rgba_data@,
                #[trigger] final(vertices)@[k],
            ),
        exists|qs: Seq<QuadSpec>|
            emitted_quads(
                rgba_data@,
                dims@[0] as int,
                dims@[1] as int,
                dims@[2] as int,
                *scale,
                old(vertices)@,
                old(indices)@,
                final(vertices)@,
                final(indices)@,
                qs,
            ) && grid_cover(rgba_data@, dims@[0] as int, dims@[1] as int, dims@[2] as int, qs),
{
    let ghost v0 = vertices@;
    let ghost i0 = indices@;
    let ghost xd = dims@[0] as int;
    let ghost yd = dims@[1] as int;
    let ghost zd = dims@[2] as int;
    proof {
        assert(0 <= (xd + 1) * (yd * zd) && 0 <= (yd + 1) * (zd * xd) && 0 <= (zd + 1) * (xd
            * yd)) by (nonlinear_arith)
            requires
                1 <= xd,
                1 <= yd,
                1 <= zd,
        ;
    }
    mesh_axis(rgba_data, dims, 0, 1, 2, scale, vertices, indices);
    let ghost v1 = vertices@;
    let ghost i1 = indices@;
    mesh_axis(rgba_data, dims, 1, 2, 0, scale, vertices, indices);
    proof {
        lemma_mesh_extends_trans(v0, i0, v1, i1, vertices@, indices@);
    }
    let ghost v2 = vertices@;
    let ghost i2 = indices@;
    mesh_axis(rgba_data, dims, 2, 0, 1, scale, vertices, indices);
    proof {
        lemma_mesh_extends_trans(v0, i0, v2, i2, vertices@, indices@);
        let qs_a = choose|qq: Seq<QuadSpec>|
            emitted_quads(rgba_data@, xd, yd, zd, *scale, v0, i0, v1, i1, qq) && axis_cover(
                rgba_data@,
                xd,
                yd,
                zd,
                0,
                qq,
            );
        let qs_b = choose|qq: Seq<QuadSpec>|
            emitted_quads(rgba_data@, xd, yd, zd, *scale, v1, i1, v2, i2, qq) && axis_cover(
                rgba_data@,
                xd,
                yd,
                zd,
                1,
                qq,
            );
        let qs_c = choose|qq: Seq<QuadSpec>|
            emitted_quads(rgba_data@, xd, yd, zd, *scale, v2, i2, vertices@, indices@, qq)
                && axis_cover(rgba_data@, xd, yd, zd, 2, qq);
        lemma_quads_vertices_len(*scale, qs_a);
        lemma_quads_vertices_len(*scale, qs_b);
        lemma_quads_concat(*scale, v0.len() as int, qs_a, qs_b);
        let qs_ab = qs_a + qs_b;
        assert(v2 =~= v0 + quads_vertices(*scale, qs_ab));
        assert(i2 =~= i0 + quads_indices(v0.len() as int, qs_ab));
        lemma_quads_vertices_len(*scale, qs_ab);
        lemma_quads_concat(*scale, v0.len() as int, qs_ab, qs_c);
        let qs_all = qs_ab + qs_c;
        assert(vertices@ =~= v0 + quads_vertices(*scale, qs_all));
        assert(indices@ =~= i0 + quads_indices(v0.len() as int, qs_all));
        assert forall|k: int|
            0 <= k < qs_all.len() implies quad_on_grid(rgba_data@, xd, yd, zd, #[trigger] qs_all[k]) by {
            if k < qs_a.len() {
                assert(qs_all[k] == qs_ab[k] && qs_ab[k] == qs_a[k]);
            } else if k < qs_ab.len() {
                assert(qs_all[k] == qs_ab[k] && qs_ab[k] == qs_b[k - qs_a.len()]);
            } else {
                assert(qs_all[k] == qs_c[k - qs_ab.len()]);
            }
        }
        assert(emitted_quads(
            rgba_data@,
            xd,
            yd,
            zd,
            *scale,
            v0,
            i0,
            vertices@,
            indices@,
            qs_all,
        ));
        lemma_face_count_concat(qs_a, qs_b);
        lemma_face_count_concat(qs_ab, qs_c);
        lemma_face_count_elsewhere(qs_a, 0);
        lemma_face_count_elsewhere(qs_b, 1);
        lemma_face_count_elsewhere(qs_c, 2);
        assert forall|dd: int, ss: int, a: int, b: int|
            0 <= dd < 3 && 0 <= ss <= dim_at(xd, yd, zd, dd) && 0 <= a < dim_at(
                xd,
                yd,
                zd,
                axis_u(dd),
            ) && 0 <= b < dim_at(xd, yd, zd, axis_v(dd)) implies #[trigger] face_count(
            qs_all,
            dd,
            ss,
            a,
            b,
        ) == (if slice_cell(rgba_data@, xd, yd, zd, dd, axis_u(dd), axis_v(dd), ss, a, b).color
            != 0 {
            1int
        } else {
            0
        }) by {
            assert(face_count(qs_all, dd, ss, a, b) == face_count(qs_ab, dd, ss, a, b)
                + face_count(qs_c, dd, ss, a, b));
            assert(face_count(qs_ab, dd, ss, a, b) == face_count(qs_a, dd, ss, a, b)
                + face_count(qs_b, dd, ss, a, b));
        }
        assert(grid_cover(rgba_data@, xd, yd, zd, qs_all));
        assert forall|k: int|
            v0.len() <= k < vertices@.len() implies color_from_grid(
            rgba_data@,
            #[trigger] vertices@[k],
        ) by {
            if k < v1.len() {
                assert(vertices@[k] == v2[k]);
                assert(v2[k] == v1[k]);
            } else if k < v2.len() {
                assert(vertices@[k] == v2[k]);
            }
        }
        if vertices@.len() == v0.len() {
            assert(v1.len() == v0.len());
            assert forall|k: int| 0 <= k < rgba_data@.len() implies rgba_data@[k] == 0 by {
                if rgba_data@[k] != 0 {
                    lemma_flat_coords(xd, yd, zd, k);
                    let x = k % xd;
                    let y = (k / xd) % yd;
                    let z = (k / xd) / yd;
                    assert(grid_sample(rgba_data@, xd, yd, zd, x, y, z) != 0);
                    lemma_first_solid(rgba_data@, xd, yd, zd, x, y, z);
                    let t = choose|t: int|
                        0 <= t <= x && #[trigger] grid_sample(rgba_data@, xd, yd, zd, t, y, z)
                            != 0 && grid_sample(rgba_data@, xd, yd, zd, t - 1, y, z) == 0;
                    assert(slice_cell(rgba_data@, xd, yd, zd, 0, 1, 2, t, y, z)
                        == empty_cell());
                    assert(slice_cell(rgba_data@, xd, yd, zd, 0, 1, 2, t, y, z).color != 0);
                    assert(false);
                }
            }
            assert(grid_all_empty(rgba_data@));
        }
    }
    true
}

} // verus!
