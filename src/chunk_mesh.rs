//! A chunk's finished mesh: the welded mesh, the density samples on its four
//! side faces, which vertices lie on those faces, and its render resource.
use crate::base::Box3;
use crate::chunk::{id_high, id_low, split_id, Size3};
use crate::mesh::Mesh;
use vstd::prelude::*;

verus! {

/// A point of the density grid.
#[derive(Clone, Copy, Debug, PartialEq, Eq, Structural, Hash)]
pub struct GridPoint {
    pub x: u32,
    pub y: u32,
    pub z: u32,
}

/// Samples along the two axes of one side face of the grid.
#[derive(Clone, Copy, Debug, PartialEq, Eq, Structural, Hash)]
pub struct Size2 {
    pub width: u32,
    pub height: u32,
}

/// The grid point of linear sample index `i` in a grid of `size`.
pub open spec fn index_to_point(i: u32, size: Size3) -> GridPoint {
    GridPoint {
        x: (i % size.width) as u32,
        y: ((i / size.width) % size.height) as u32,
        z: (i as int / (size.width * size.height)) as u32,
    }
}

/// The linear sample index of `(x, y, z)` in a grid of `size`.
pub open spec fn point_to_index(x: int, y: int, z: int, size: Size3) -> int {
    x + size.width * (y + size.height * z)
}

proof fn lemma_index_in_grid(x: int, y: int, z: int, w: int, h: int, d: int)
    requires
        0 <= x < w,
        0 <= y < h,
        0 <= z < d,
    ensures
        0 <= h * z <= y + h * z < h * d,
        0 <= w * (y + h * z) <= x + w * (y + h * z) < w * h * d,
        0 <= h * z <= h * d <= w * h * d,
{
    assert(0 <= h * z <= y + h * z < h * d) by (nonlinear_arith)
        requires
            0 <= y < h,
            0 <= z < d,
    ;
    assert(0 <= w * (y + h * z) <= x + w * (y + h * z) < w * h * d) by (nonlinear_arith)
        requires
            0 <= x < w,
            0 <= y < h,
            0 <= z < d,
            y + h * z < h * d,
    ;
    assert(h * d <= w * h * d) by (nonlinear_arith)
        requires
            1 <= w,
            0 <= h,
            0 <= d,
    ;
}

proof fn lemma_row_before(a: int, b: int, n: int, k: int)
    requires
        0 <= a < n,
        0 <= b < k,
    ensures
        0 <= a + n * b < n * k,
{
    assert(0 <= a + n * b < n * k) by (nonlinear_arith)
        requires
            0 <= a < n,
            0 <= b < k,
    ;
}

/// The density samples on one side face of a chunk's grid, row by row.
#[derive(Debug)]
pub struct VoxelFace<T> {
    voxel_count: Size2,
    voxels: Vec<T>,
}

impl<T> VoxelFace<T> {
    pub closed spec fn size_of(&self) -> Size2 {
        self.voxel_count
    }

    pub closed spec fn samples(&self) -> Seq<T> {
        self.voxels@
    }

    pub fn new(voxel_count: Size2, voxels: Vec<T>) -> (r: VoxelFace<T>)
        ensures
            r.size_of() == voxel_count,
            r.samples() == voxels@,
    {
        VoxelFace { voxel_count, voxels }
    }

    /// The index on this face of the point `(x, y)`.
    pub fn point_to_index(&self, x: u32, y: u32) -> (r: u32)
        requires
            x + self.size_of().width * y <= u32::MAX,
        ensures
            r == x + self.size_of().width * y,
    {
        x + self.voxel_count.width * y
    }

    pub fn voxels(&self) -> (r: &Vec<T>)
        ensures
            r@ == self.samples(),
    {
        &self.voxels
    }

    pub fn voxel_count(&self) -> (r: Size2)
        ensures
            r == self.size_of(),
    {
        self.voxel_count
    }
}

/// The grid points that interpolation at a coarser `stride` uses for the
/// grid edge from `voxel1` to `voxel2`: each coordinate goes to the nearest
/// multiple of `stride` away from the other end of the edge.
pub open spec fn stride_endpoint(a: u32, b: u32, stride: u32) -> u32 {
    let lo = if a <= b { a } else { b };
    let hi = if a <= b { b } else { a };
    if a < b {
        (lo / stride * stride) as u32
    } else {
        ((hi + stride - 1) / (stride as int) * stride) as u32
    }
}

/// The two grid points that stitching at `stride` samples for the edge
/// between two neighbouring face points.
pub fn stride_endpoints(voxel1: (u32, u32), voxel2: (u32, u32), stride: u32) -> (r: (
    (u32, u32),
    (u32, u32),
))
    requires
        stride >= 1,
        voxel1.0 <= voxel2.0 + 1 && voxel2.0 <= voxel1.0 + 1,
        voxel1.1 <= voxel2.1 + 1 && voxel2.1 <= voxel1.1 + 1,
        voxel1.0 + stride <= u32::MAX && voxel2.0 + stride <= u32::MAX,
        voxel1.1 + stride <= u32::MAX && voxel2.1 + stride <= u32::MAX,
    ensures
        r.0.0 == stride_endpoint(voxel1.0, voxel2.0, stride),
        r.0.1 == stride_endpoint(voxel1.1, voxel2.1, stride),
        r.1.0 == stride_endpoint(voxel2.0, voxel1.0, stride),
        r.1.1 == stride_endpoint(voxel2.1, voxel1.1, stride),
{
    let min_x = if voxel1.0 <= voxel2.0 { voxel1.0 } else { voxel2.0 };
    let max_x = if voxel1.0 <= voxel2.0 { voxel2.0 } else { voxel1.0 };
    let min_y = if voxel1.1 <= voxel2.1 { voxel1.1 } else { voxel2.1 };
    let max_y = if voxel1.1 <= voxel2.1 { voxel2.1 } else { voxel1.1 };
    proof {
        assert((min_x / stride) * stride <= min_x) by (nonlinear_arith)
            requires
                stride >= 1,
        ;
        assert((min_y / stride) * stride <= min_y) by (nonlinear_arith)
            requires
                stride >= 1,
        ;
        let tx = (max_x + stride - 1) as int;
        let ty = (max_y + stride - 1) as int;
        assert((tx / stride as int) * stride <= tx) by (nonlinear_arith)
            requires
                stride >= 1,
                tx >= 0,
        ;
        assert((ty / stride as int) * stride <= ty) by (nonlinear_arith)
            requires
                stride >= 1,
                ty >= 0,
        ;
    }
    let min_stride_x = min_x / stride * stride;
    let min_stride_y = min_y / stride * stride;
    let max_stride_x = (max_x + stride - 1) / stride * stride;
    let max_stride_y = (max_y + stride - 1) / stride * stride;
    let stride1 = (
        if voxel1.0 < voxel2.0 { min_stride_x } else { max_stride_x },
        if voxel1.1 < voxel2.1 { min_stride_y } else { max_stride_y },
    );
    let stride2 = (
        if voxel2.0 < voxel1.0 { min_stride_x } else { max_stride_x },
        if voxel2.1 < voxel1.1 { min_stride_y } else { max_stride_y },
    );
    (stride1, stride2)
}

/// The density samples on the four side faces of a chunk's grid: `x` at its
/// least and greatest, `y` at its least and greatest.
#[derive(Debug)]
pub struct EdgeVoxel<T> {
    min_x: VoxelFace<T>,
    max_x: VoxelFace<T>,
    min_y: VoxelFace<T>,
    max_y: VoxelFace<T>,
}

/// `face` holds, row by row over `z`, the samples of `voxels` where `x` is
/// fixed at `x0`.
pub open spec fn x_face_of<T>(face: VoxelFace<T>, voxels: Seq<T>, size: Size3, x0: int) -> bool {
    &&& face.size_of() == (Size2 { width: size.height, height: size.depth })
    &&& face.samples().len() == size.height * size.depth
    &&& forall|y: int, z: int|
        0 <= y < size.height && 0 <= z < size.depth ==> #[trigger] face.samples()[y + size.height
            * z] == voxels[point_to_index(x0, y, z, size)]
}

/// `face` holds, row by row over `z`, the samples of `voxels` where `y` is
/// fixed at `y0`.
pub open spec fn y_face_of<T>(face: VoxelFace<T>, voxels: Seq<T>, size: Size3, y0: int) -> bool {
    &&& face.size_of() == (Size2 { width: size.width, height: size.depth })
    &&& face.samples().len() == size.width * size.depth
    &&& forall|x: int, z: int|
        0 <= x < size.width && 0 <= z < size.depth ==> #[trigger] face.samples()[x + size.width
            * z] == voxels[point_to_index(x, y0, z, size)]
}

impl<T> EdgeVoxel<T> {
    pub closed spec fn face_min_x(&self) -> VoxelFace<T> {
        self.min_x
    }

    pub closed spec fn face_max_x(&self) -> VoxelFace<T> {
        self.max_x
    }

    pub closed spec fn face_min_y(&self) -> VoxelFace<T> {
        self.min_y
    }

    pub closed spec fn face_max_y(&self) -> VoxelFace<T> {
        self.max_y
    }

    pub fn min_x(&self) -> (r: &VoxelFace<T>)
        ensures
            *r == self.face_min_x(),
    {
        &self.min_x
    }

    pub fn max_x(&self) -> (r: &VoxelFace<T>)
        ensures
            *r == self.face_max_x(),
    {
        &self.max_x
    }

    pub fn min_y(&self) -> (r: &VoxelFace<T>)
        ensures
            *r == self.face_min_y(),
    {
        &self.min_y
    }

    pub fn max_y(&self) -> (r: &VoxelFace<T>)
        ensures
            *r == self.face_max_y(),
    {
        &self.max_y
    }
}

impl<T: Copy> EdgeVoxel<T> {
    /// Gathers the samples of the four side faces from a full grid of
    /// samples.
    #[verifier::rlimit(60)]
    pub fn from_voxels(voxels: &[T], size: Size3) -> (r: EdgeVoxel<T>)
        requires
            size.fits(),
            voxels@.len() >= size.volume(),
        ensures
            x_face_of(r.face_min_x(), voxels@, size, 0),
            x_face_of(r.face_max_x(), voxels@, size, size.width - 1),
            y_face_of(r.face_min_y(), voxels@, size, 0),
            y_face_of(r.face_max_y(), voxels@, size, size.height - 1),
    {
        let w = size.width;
        let h = size.height;
        let d = size.depth;
        let mut min_x_voxels: Vec<T> = Vec::new();
        let mut max_x_voxels: Vec<T> = Vec::new();
        let mut min_y_voxels: Vec<T> = Vec::new();
        let mut max_y_voxels: Vec<T> = Vec::new();
        let mut z: u32 = 0;
        while z < d
            invariant
                size.fits(),
                w == size.width && h == size.height && d == size.depth,
                voxels@.len() >= w * h * d,
                z <= d,
                min_x_voxels@.len() == h * z,
                max_x_voxels@.len() == h * z,
                forall|yy: int, zz: int|
                    0 <= yy < h && 0 <= zz < z ==> #[trigger] min_x_voxels@[yy + h * zz]
                        == voxels@[point_to_index(0, yy, zz, size)],
                forall|yy: int, zz: int|
                    0 <= yy < h && 0 <= zz < z ==> #[trigger] max_x_voxels@[yy + h * zz]
                        == voxels@[point_to_index(w - 1, yy, zz, size)],
            decreases d - z,
        {
            let mut y: u32 = 0;
            while y < h
                invariant
                    size.fits(),
                    w == size.width && h == size.height && d == size.depth,
                    voxels@.len() >= w * h * d,
                    z < d,
                    y <= h,
                    min_x_voxels@.len() == h * z + y,
                    max_x_voxels@.len() == h * z + y,
                    forall|yy: int, zz: int|
                        0 <= yy < h && 0 <= zz < z ==> #[trigger] min_x_voxels@[yy + h * zz]
                            == voxels@[point_to_index(0, yy, zz, size)],
                    forall|yy: int, zz: int|
                        0 <= yy < h && 0 <= zz < z ==> #[trigger] max_x_voxels@[yy + h * zz]
                            == voxels@[point_to_index(w - 1, yy, zz, size)],
                    forall|yy: int|
                        0 <= yy < y ==> #[trigger] min_x_voxels@[yy + h * z] == voxels@[point_to_index(
                            0,
                            yy,
                            z as int,
                            size,
                        )],
                    forall|yy: int|
                        0 <= yy < y ==> #[trigger] max_x_voxels@[yy + h * z] == voxels@[point_to_index(
                            w - 1,
                            yy,
                            z as int,
                            size,
                        )],
                decreases h - y,
            {
                proof {
                    lemma_index_in_grid(0, y as int, z as int, w as int, h as int, d as int);
                    lemma_index_in_grid((w - 1) as int, y as int, z as int, w as int, h as int, d as int);
                }
                let i0 = (w * (y + h * z)) as usize;
                let i1 = (w - 1 + w * (y + h * z)) as usize;
                let ghost before_min = min_x_voxels@;
                let ghost before_max = max_x_voxels@;
                min_x_voxels.push(voxels[i0]);
                max_x_voxels.push(voxels[i1]);
                proof {
                    assert forall|yy: int, zz: int| 0 <= yy < h && 0 <= zz < z implies #[trigger] min_x_voxels@[yy + h * zz]
                        == before_min[yy + h * zz] by {
                        lemma_row_before(yy, zz, h as int, z as int);
                    }
                    assert forall|yy: int, zz: int| 0 <= yy < h && 0 <= zz < z implies #[trigger] max_x_voxels@[yy + h * zz]
                        == before_max[yy + h * zz] by {
                        lemma_row_before(yy, zz, h as int, z as int);
                    }
                }
                y += 1;
            }
            proof {
                assert(h * z + h == h * (z + 1)) by (nonlinear_arith);
            }
            z += 1;
        }
        let mut z: u32 = 0;
        while z < d
            invariant
                size.fits(),
                w == size.width && h == size.height && d == size.depth,
                voxels@.len() >= w * h * d,
                z <= d,
                min_y_voxels@.len() == w * z,
                max_y_voxels@.len() == w * z,
                forall|xx: int, zz: int|
                    0 <= xx < w && 0 <= zz < z ==> #[trigger] min_y_voxels@[xx + w * zz]
                        == voxels@[point_to_index(xx, 0, zz, size)],
                forall|xx: int, zz: int|
                    0 <= xx < w && 0 <= zz < z ==> #[trigger] max_y_voxels@[xx + w * zz]
                        == voxels@[point_to_index(xx, h - 1, zz, size)],
            decreases d - z,
        {
            let mut x: u32 = 0;
            while x < w
                invariant
                    size.fits(),
                    w == size.width && h == size.height && d == size.depth,
                    voxels@.len() >= w * h * d,
                    z < d,
                    x <= w,
                    min_y_voxels@.len() == w * z + x,
                    max_y_voxels@.len() == w * z + x,
                    forall|xx: int, zz: int|
                        0 <= xx < w && 0 <= zz < z ==> #[trigger] min_y_voxels@[xx + w * zz]
                            == voxels@[point_to_index(xx, 0, zz, size)],
                    forall|xx: int, zz: int|
                        0 <= xx < w && 0 <= zz < z ==> #[trigger] max_y_voxels@[xx + w * zz]
                            == voxels@[point_to_index(xx, h - 1, zz, size)],
                    forall|xx: int|
                        0 <= xx < x ==> #[trigger] min_y_voxels@[xx + w * z] == voxels@[point_to_index(
                            xx,
                            0,
                            z as int,
                            size,
                        )],
                    forall|xx: int|
                        0 <= xx < x ==> #[trigger] max_y_voxels@[xx + w * z] == voxels@[point_to_index(
                            xx,
                            h - 1,
                            z as int,
                            size,
                        )],
                decreases w - x,
            {
                proof {
                    lemma_index_in_grid(x as int, 0, z as int, w as int, h as int, d as int);
                    lemma_index_in_grid(x as int, (h - 1) as int, z as int, w as int, h as int, d as int);
                }
                let i0 = (x + w * (h * z)) as usize;
                let i1 = (x + w * (h - 1 + h * z)) as usize;
                let ghost before_min = min_y_voxels@;
                let ghost before_max = max_y_voxels@;
                min_y_voxels.push(voxels[i0]);
                max_y_voxels.push(voxels[i1]);
                proof {
                    assert forall|xx: int, zz: int| 0 <= xx < w && 0 <= zz < z implies #[trigger] min_y_voxels@[xx + w * zz]
                        == before_min[xx + w * zz] by {
                        lemma_row_before(xx, zz, w as int, z as int);
                    }
                    assert forall|xx: int, zz: int| 0 <= xx < w && 0 <= zz < z implies #[trigger] max_y_voxels@[xx + w * zz]
                        == before_max[xx + w * zz] by {
                        lemma_row_before(xx, zz, w as int, z as int);
                    }
                }
                x += 1;
            }
            proof {
                assert(w * z + w == w * (z + 1)) by (nonlinear_arith);
            }
            z += 1;
        }
        EdgeVoxel {
            min_x: VoxelFace::new(Size2 { width: h, height: d }, min_x_voxels),
            max_x: VoxelFace::new(Size2 { width: h, height: d }, max_x_voxels),
            min_y: VoxelFace::new(Size2 { width: w, height: d }, min_y_voxels),
            max_y: VoxelFace::new(Size2 { width: w, height: d }, max_y_voxels),
        }
    }
}


/// The grid point of a linear sample index.
pub fn voxel_index_to_point(i: u32, size: Size3) -> (r: GridPoint)
    requires
        size.fits(),
    ensures
        r == index_to_point(i, size),
{
    proof {
        assert(size.width * size.height <= size.width * size.height * size.depth) by (nonlinear_arith)
            requires
                size.depth >= 1,
        ;
        assert(size.width * size.height >= 1) by (nonlinear_arith)
            requires
                size.width >= 1,
                size.height >= 1,
        ;
    }
    GridPoint {
        x: i % size.width,
        y: (i / size.width) % size.height,
        z: i / (size.width * size.height),
    }
}

/// Whether a welded vertex lies on side face `side` (1 for least `x`, 2 for
/// least `y`, 3 for greatest `x`, 4 for greatest `y`): both grid points of the
/// edge its identifier names lie on that face. A vertex on a corner column
/// lies on two faces.
pub open spec fn on_face(id: u64, size: Size3, side: int) -> bool {
    let pt1 = index_to_point(id_low(id), size);
    let pt2 = index_to_point(id_high(id), size);
    if side == 1 {
        pt1.x == 0 && pt2.x == 0
    } else if side == 2 {
        pt1.y == 0 && pt2.y == 0
    } else if side == 3 {
        pt1.x == size.width - 1 && pt2.x == size.width - 1
    } else if side == 4 {
        pt1.y == size.height - 1 && pt2.y == size.height - 1
    } else {
        false
    }
}

/// The vertices among the first `k` of `ids` that lie on side `side`, in
/// increasing order.
pub open spec fn side_vertices(ids: Seq<u64>, size: Size3, side: int, k: int) -> Seq<usize>
    decreases k,
{
    if k <= 0 {
        Seq::empty()
    } else {
        side_vertices(ids, size, side, k - 1) + if on_face(ids[k - 1], size, side) {
            seq![(k - 1) as usize]
        } else {
            Seq::empty()
        }
    }
}

/// The welded vertices that lie on each side face.
#[derive(Debug, Default)]
pub struct EdgeVertex {
    pub min_x: Vec<usize>,
    pub max_x: Vec<usize>,
    pub min_y: Vec<usize>,
    pub max_y: Vec<usize>,
}

/// The finished mesh of one chunk: positions and normals of type `[F; 3]`
/// in the chunk's unit cube, the density samples of its side faces, the
/// vertices on those faces, and the render resource `R` once it is built.
pub struct ChunkMesh<F, R> {
    bounds: Box3,
    voxel_count: Size3,
    mesh: Mesh<[F; 3]>,
    edge_voxel: EdgeVoxel<F>,
    edge_vertex: EdgeVertex,
    render_bundle: Option<R>,
}

impl<F, R> ChunkMesh<F, R> {
    pub closed spec fn bounds_of(&self) -> Box3 {
        self.bounds
    }

    pub closed spec fn grid(&self) -> Size3 {
        self.voxel_count
    }

    pub closed spec fn mesh_of(&self) -> Mesh<[F; 3]> {
        self.mesh
    }

    pub closed spec fn resource(&self) -> Option<R> {
        self.render_bundle
    }

    /// The vertices found on each side face: least `x`, greatest `x`, least
    /// `y`, greatest `y`.
    pub closed spec fn sides(&self) -> (Seq<usize>, Seq<usize>, Seq<usize>, Seq<usize>) {
        (
            self.edge_vertex.min_x@,
            self.edge_vertex.max_x@,
            self.edge_vertex.min_y@,
            self.edge_vertex.max_y@,
        )
    }

    /// A mesh with no render resource yet.
    pub fn new(bounds: Box3, mesh: Mesh<[F; 3]>, voxel_count: Size3, edge_voxel: EdgeVoxel<F>) -> (r:
        ChunkMesh<F, R>)
        ensures
            r.bounds_of() == bounds,
            r.grid() == voxel_count,
            r.mesh_of() == mesh,
            r.resource() is None,
            r.sides() == (Seq::<usize>::empty(), Seq::<usize>::empty(), Seq::<usize>::empty(), Seq::<
                usize,
            >::empty()),
    {
        let r = ChunkMesh {
            bounds,
            mesh,
            voxel_count,
            edge_voxel,
            edge_vertex: EdgeVertex {
                min_x: Vec::new(),
                max_x: Vec::new(),
                min_y: Vec::new(),
                max_y: Vec::new(),
            },
            render_bundle: None,
        };
        assert(r.sides() =~= (Seq::<usize>::empty(), Seq::<usize>::empty(), Seq::<usize>::empty(), Seq::<
            usize,
        >::empty()));
        r
    }

    /// Takes the render resource built for this mesh, and records which
    /// vertices lie on each side face; a mesh that has a resource already is
    /// left as it is.
    pub fn create_render_resources(&mut self, resource: R)
        requires
            old(self).grid().fits(),
        ensures
            final(self).bounds_of() == old(self).bounds_of(),
            final(self).grid() == old(self).grid(),
            final(self).mesh_of() == old(self).mesh_of(),
            old(self).resource() is Some ==> *final(self) == *old(self),
            old(self).resource() is None ==> final(self).resource() == Some(resource) && {
                let ids = old(self).mesh_of().ids_view();
                let g = old(self).grid();
                let n = ids.len() as int;
                final(self).sides() == (
                    side_vertices(ids, g, 1, n),
                    side_vertices(ids, g, 3, n),
                    side_vertices(ids, g, 2, n),
                    side_vertices(ids, g, 4, n),
                )
            },
    {
        if self.render_bundle.is_some() {
            return;
        }
        let size = self.voxel_count;
        let mut min_x: Vec<usize> = Vec::new();
        let mut max_x: Vec<usize> = Vec::new();
        let mut min_y: Vec<usize> = Vec::new();
        let mut max_y: Vec<usize> = Vec::new();
        let ids = self.mesh.ids();
        let mut i: usize = 0;
        while i < ids.len()
            invariant
                size.fits(),
                size == self.grid(),
                ids@ == self.mesh_of().ids_view(),
                i <= ids@.len(),
                min_x@ == side_vertices(ids@, size, 1, i as int),
                min_y@ == side_vertices(ids@, size, 2, i as int),
                max_x@ == side_vertices(ids@, size, 3, i as int),
                max_y@ == side_vertices(ids@, size, 4, i as int),
            decreases ids@.len() - i,
        {
            let (i1, i2) = split_id(ids[i]);
            let pt1 = voxel_index_to_point(i1, size);
            let pt2 = voxel_index_to_point(i2, size);
            if pt1.x == 0 && pt2.x == 0 {
                min_x.push(i);
            }
            if pt1.y == 0 && pt2.y == 0 {
                min_y.push(i);
            }
            if pt1.x == size.width - 1 && pt2.x == size.width - 1 {
                max_x.push(i);
            }
            if pt1.y == size.height - 1 && pt2.y == size.height - 1 {
                max_y.push(i);
            }
            proof {
                assert(min_x@ =~= side_vertices(ids@, size, 1, i + 1));
                assert(min_y@ =~= side_vertices(ids@, size, 2, i + 1));
                assert(max_x@ =~= side_vertices(ids@, size, 3, i + 1));
                assert(max_y@ =~= side_vertices(ids@, size, 4, i + 1));
            }
            i += 1;
        }
        self.edge_vertex = EdgeVertex { min_x, max_x, min_y, max_y };
        self.render_bundle = Some(resource);
    }

    pub fn render_bundle(&self) -> (r: Option<&R>)
        ensures
            match r {
                Some(b) => self.resource() == Some(*b),
                None => self.resource() is None,
            },
    {
        match &self.render_bundle {
            Some(b) => Some(b),
            None => None,
        }
    }

    pub fn bounds(&self) -> (r: Box3)
        ensures
            r == self.bounds_of(),
    {
        self.bounds
    }

    pub fn voxel_count(&self) -> (r: Size3)
        ensures
            r == self.grid(),
    {
        self.voxel_count
    }

    pub fn mesh(&self) -> (r: &Mesh<[F; 3]>)
        ensures
            *r == self.mesh_of(),
    {
        &self.mesh
    }

    pub fn edge_voxel(&self) -> (r: &EdgeVoxel<F>)
    {
        &self.edge_voxel
    }

    pub fn edge_vertex(&self) -> (r: &EdgeVertex)
        ensures
            (r.min_x@, r.max_x@, r.min_y@, r.max_y@) == self.sides(),
    {
        &self.edge_vertex
    }
}

} // verus!
