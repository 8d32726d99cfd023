//! The terrain pipeline: the quadtree index and the two caches, the
//! decisions of each pipeline stage (re-derived from what the caches hold),
//! per-frame key selection, and the choice of meshes to draw.
use crate::base::{bounding_box, polygon_meets_box, Box3, ChunkCacheKey, Point2, Point3, Region};
use crate::cache::{inserted, lemma_cache_stamped_dom, lemma_stamps_bounded, Cache};
use crate::chunk::{chunk_grid, chunk_voxel_count, Chunk, Size3};
use crate::chunk_mesh::ChunkMesh;
use crate::tree::{
    has_root, is_tile_origin, key_of, lemma_meets_same_polygons, lemma_same_cells_same_tiles,
    rebuild_result, roots_ensured, roots_leveled, roots_rebuilt, tile_in_range, tile_of, lemma_walk_roots_same_regions, meets_any, settled, walk_roots,
    Node, Tree, MAX_LEVEL,
};
use vstd::prelude::*;

verus! {

/// Entries the chunk cache keeps.
pub const CHUNK_CACHE_SIZE: usize = 128;

/// Entries the mesh cache keeps.
pub const MESH_CACHE_SIZE: usize = 256;

/// A camera band: a region and the level of detail wanted inside it.
pub struct TerrainRegion {
    pub region: Region,
    pub level: u32,
}

/// For each side face of a chunk, the stride of the coarser neighbour's grid.
#[derive(Clone, Copy, Debug, PartialEq, Eq, Structural)]
pub struct StitchStride {
    pub min_x: u32,
    pub max_x: u32,
    pub min_y: u32,
    pub max_y: u32,
}

/// One stage of the pipeline for one key.
pub enum TerrainTask<B, F, R> {
    GenerateChunk(ChunkCacheKey),
    WriteChunk(ChunkCacheKey, Chunk<B>),
    InvalidateTriangle,
    RegenerateTriangle(ChunkCacheKey),
    GenerateMesh(ChunkCacheKey),
    WriteMesh(ChunkCacheKey, ChunkMesh<F, R>),
    GenerateMeshResources(ChunkCacheKey),
    StitchMesh(ChunkCacheKey, StitchStride),
}

/// What a stage asks for once it has looked at the caches.
pub enum Step<B, F, R> {
    /// Nothing is left to do for the key.
    Done,
    /// Go on with this stage at once, on the same worker.
    Next(TerrainTask<B, F, R>),
    /// Have the backend fill this fresh chunk's density samples and
    /// triangles, staged for read-back; then write it.
    BuildChunk(ChunkCacheKey, Chunk<B>),
    /// Read back the cached chunk's triangles and samples and assemble its
    /// mesh; then write it.
    BuildMesh(ChunkCacheKey),
    /// Build the render resource of the cached mesh; then attach it.
    BuildResources(ChunkCacheKey),
    /// Run the triangulation of the cached chunk again on its samples; then
    /// store the triangles.
    Retriangulate(ChunkCacheKey),
    /// Move the cached mesh's side-face vertices onto a coarser neighbour's
    /// grid.
    Stitch(ChunkCacheKey, StitchStride),
    /// The key has no density grid: its level is too coarse.
    Failed(ChunkCacheKey),
}

/// The mesh of `k` is cached and has its render resource.
pub open spec fn mesh_ready<F, R>(m: Map<ChunkCacheKey, ChunkMesh<F, R>>, k: ChunkCacheKey) -> bool {
    m.contains_key(k) && m[k].resource() is Some
}

/// The chunk of `k` is cached with its triangles.
pub open spec fn chunk_has_triangles<B>(m: Map<ChunkCacheKey, Chunk<B>>, k: ChunkCacheKey) -> bool {
    m.contains_key(k) && m[k].triangles() is Some
}

/// The keys that drawing yields from `n`: a leaf with a ready mesh yields
/// itself. A parent whose children that meet the regions are all leaves, one
/// of them not ready, yields itself if its own mesh is ready, and nothing
/// otherwise; any other parent passes on to its children that meet the
/// regions, the last quadrant first.
#[verifier::opaque]
pub open spec fn render_node<F, R>(
    n: Node,
    regions: Seq<Region>,
    m: Map<ChunkCacheKey, ChunkMesh<F, R>>,
) -> Seq<ChunkCacheKey>
    decreases MAX_LEVEL - n.level_of(),
{
    match n.children() {
        None => if mesh_ready(m, key_of(n)) {
            seq![key_of(n)]
        } else {
            Seq::empty()
        },
        Some(c) => {
            if c.len() == 4 && n.level_of() < MAX_LEVEL && forall|i: int|
                0 <= i < 4 ==> (#[trigger] c[i]).level_of() == n.level_of() + 1 {
                if falls_back(c, regions, m) {
                    if mesh_ready(m, key_of(n)) {
                        seq![key_of(n)]
                    } else {
                        Seq::empty()
                    }
                } else {
                    (if meets_any(regions, c[3].bounds_of()) {
                        render_node(c[3], regions, m)
                    } else {
                        Seq::empty()
                    }) + (if meets_any(regions, c[2].bounds_of()) {
                        render_node(c[2], regions, m)
                    } else {
                        Seq::empty()
                    }) + (if meets_any(regions, c[1].bounds_of()) {
                        render_node(c[1], regions, m)
                    } else {
                        Seq::empty()
                    }) + (if meets_any(regions, c[0].bounds_of()) {
                        render_node(c[0], regions, m)
                    } else {
                        Seq::empty()
                    })
                }
            } else {
                Seq::empty()
            }
        },
    }
}

/// The children of a parent that meet the regions are all leaves, and one
/// of them has no ready mesh: the parent is drawn in their place.
pub open spec fn falls_back<F, R>(
    c: Seq<Node>,
    regions: Seq<Region>,
    m: Map<ChunkCacheKey, ChunkMesh<F, R>>,
) -> bool {
    &&& forall|i: int|
        0 <= i < 4 && #[trigger] meets_any(regions, c[i].bounds_of()) ==> c[i].children() is None
    &&& exists|i: int|
        0 <= i < 4 && #[trigger] meets_any(regions, c[i].bounds_of()) && !mesh_ready(m, key_of(c[i]))
}

/// The keys that drawing yields from the first `k` roots that meet the
/// regions, the last root first.
pub open spec fn render_roots<F, R>(
    roots: Seq<Node>,
    k: int,
    regions: Seq<Region>,
    m: Map<ChunkCacheKey, ChunkMesh<F, R>>,
) -> Seq<ChunkCacheKey>
    decreases k,
{
    if k <= 0 {
        Seq::empty()
    } else {
        (if meets_any(regions, roots[k - 1].bounds_of()) {
            render_node(roots[k - 1], regions, m)
        } else {
            Seq::empty()
        }) + render_roots(roots, k - 1, regions, m)
    }
}

/// Four times the squared distance from the center of `b` to `p`.
pub open spec fn center_distance(b: Box3, p: Point3) -> int {
    let dx = b.min.x + b.max.x - 2 * p.x;
    let dy = b.min.y + b.max.y - 2 * p.y;
    let dz = b.min.z + b.max.z - 2 * p.z;
    dx * dx + dy * dy + dz * dz
}

/// `stages[0]` are the roots `start`, and band `i` of `bands` turns
/// `stages[i]` into `mids[i]` by creating its roots, then `mids[i]` into
/// `stages[i + 1]` by asking for its level of detail.
pub open spec fn band_updates(
    start: Seq<Node>,
    stages: Seq<Seq<Node>>,
    mids: Seq<Seq<Node>>,
    bands: Seq<TerrainRegion>,
) -> bool {
    &&& stages.len() == bands.len() + 1
    &&& mids.len() == bands.len()
    &&& stages[0] == start
    &&& forall|i: int|
        0 <= i < bands.len() ==> {
            &&& roots_ensured(stages[i], #[trigger] mids[i], bands[i].region@)
            &&& roots_leveled(mids[i], stages[i + 1], bands[i].region@, bands[i].level)
        }
}

/// The regions of the camera bands.
pub open spec fn band_regions(regions: Seq<TerrainRegion>) -> Seq<Region> {
    regions.map_values(|r: TerrainRegion| r.region)
}

/// Keys ordered by decreasing distance of their centers from `p`.
pub open spec fn farthest_first(keys: Seq<ChunkCacheKey>, p: Point3) -> bool {
    forall|i: int, j: int|
        0 <= i < j < keys.len() ==> center_distance((#[trigger] keys[i]).bounds, p)
            >= center_distance((#[trigger] keys[j]).bounds, p)
}

proof fn lemma_square_bound(a: int)
    requires
        -0x4_0000_0000 <= a <= 0x4_0000_0000,
    ensures
        0 <= a * a <= 0x10_0000_0000_0000_0000,
{
    assert(0 <= a * a <= 0x10_0000_0000_0000_0000) by (nonlinear_arith)
        requires
            -0x4_0000_0000 <= a <= 0x4_0000_0000,
    ;
}

/// Four times the squared distance from the center of `b` to `p`, exactly.
pub fn center_distance_exec(b: &Box3, p: &Point3) -> (r: i128)
    ensures
        r == center_distance(*b, *p),
{
    let dx = b.min.x as i128 + b.max.x as i128 - 2 * p.x as i128;
    let dy = b.min.y as i128 + b.max.y as i128 - 2 * p.y as i128;
    let dz = b.min.z as i128 + b.max.z as i128 - 2 * p.z as i128;
    proof {
        lemma_square_bound(dx as int);
        lemma_square_bound(dy as int);
        lemma_square_bound(dz as int);
    }
    dx * dx + dy * dy + dz * dz
}

/// Orders `keys` by decreasing distance of their centers from `position`.
pub fn sort_by_distance(keys: &Vec<ChunkCacheKey>, position: &Point3) -> (r: Vec<ChunkCacheKey>)
    ensures
        r@.to_multiset() == keys@.to_multiset(),
        farthest_first(r@, *position),
{
    broadcast use vstd::seq_lib::group_to_multiset_ensures;

    let mut r: Vec<ChunkCacheKey> = Vec::new();
    let mut i: usize = 0;
    while i < keys.len()
        invariant
            i <= keys@.len(),
            r@.to_multiset() == keys@.take(i as int).to_multiset(),
            farthest_first(r@, *position),
        decreases keys@.len() - i,
    {
        let k = keys[i];
        let d = center_distance_exec(&k.bounds, position);
        let mut j: usize = 0;
        while j < r.len() && center_distance_exec(&r[j].bounds, position) >= d
            invariant
                j <= r@.len(),
                forall|a: int| 0 <= a < j ==> center_distance((#[trigger] r@[a]).bounds, *position) >= d,
            decreases r@.len() - j,
        {
            j += 1;
        }
        let ghost before = r@;
        r.insert(j, k);
        proof {
            assert(r@ == before.insert(j as int, k));
            assert(keys@.take(i + 1) =~= keys@.take(i as int).push(k));
            vstd::seq_lib::to_multiset_insert(before, j as int, k);
            vstd::seq_lib::to_multiset_build(keys@.take(i as int), k);
            assert(r@.to_multiset() == keys@.take(i + 1).to_multiset());
            assert forall|a: int, b: int| 0 <= a < b < r@.len() implies center_distance(
                (#[trigger] r@[a]).bounds,
                *position,
            ) >= center_distance((#[trigger] r@[b]).bounds, *position) by {
                if j < before.len() {
                    assert(center_distance(before[j as int].bounds, *position) < d);
                }
                if a < j && b == j {
                } else if a == j && b > j {
                    assert(r@[b] == before[b - 1]);
                    if b - 1 > j {
                        assert(center_distance(before[j as int].bounds, *position) >= center_distance(before[b - 1].bounds, *position));
                    }
                } else if b < j {
                } else if a > j {
                    assert(r@[a] == before[a - 1] && r@[b] == before[b - 1]);
                } else {
                    assert(r@[b] == before[b - 1]);
                }
            }
        }
        i += 1;
    }
    assert(keys@.take(keys@.len() as int) =~= keys@);
    r
}

/// The terrain: the quadtree index, the cache of chunks and the cache of
/// finished meshes. `B` is the backend's buffer, `F` a float sample, `R` a
/// render resource.
pub struct Terrain<B, F, R> {
    tree: Tree,
    chunk_cache: Cache<Chunk<B>>,
    mesh_cache: Cache<ChunkMesh<F, R>>,
    isolevel: u32,
}

impl<B, F, R> Terrain<B, F, R> {
    pub closed spec fn tree_of(&self) -> Tree {
        self.tree
    }

    pub closed spec fn chunks(&self) -> Cache<Chunk<B>> {
        self.chunk_cache
    }

    pub closed spec fn meshes(&self) -> Cache<ChunkMesh<F, R>> {
        self.mesh_cache
    }

    /// The bit pattern of the isolevel, the density threshold of the surface.
    pub closed spec fn isolevel_bits(&self) -> u32 {
        self.isolevel
    }

    /// The tree and both caches are well formed, and every cached chunk and
    /// mesh has a density grid that fits.
    pub open spec fn wf(&self) -> bool {
        &&& self.tree_of().wf()
        &&& self.chunks().wf()
        &&& self.meshes().wf()
        &&& forall|k: ChunkCacheKey| #[trigger]
            self.chunks()@.contains_key(k) ==> self.chunks()@[k].grid().fits()
        &&& forall|k: ChunkCacheKey| #[trigger]
            self.meshes()@.contains_key(k) ==> self.meshes()@[k].grid().fits()
    }

    /// What the first stage returns for `key`: a ready mesh is done; a mesh
    /// without a resource goes on to its resource; a cached chunk goes on to
    /// its mesh, or to a new triangulation when it lost its triangles; any
    /// other key gets a fresh chunk for the backend to fill, or fails when its
    /// level has no density grid.
    pub open spec fn chunk_stage(&self, key: ChunkCacheKey, r: Step<B, F, R>) -> bool {
        if mesh_ready(self.meshes()@, key) {
            r is Done
        } else if self.meshes()@.contains_key(key) {
            r == Step::<B, F, R>::Next(TerrainTask::GenerateMeshResources(key))
        } else if self.chunks()@.contains_key(key) {
            r == if self.chunks()@[key].triangles() is None {
                Step::<B, F, R>::Next(TerrainTask::RegenerateTriangle(key))
            } else {
                Step::<B, F, R>::Next(TerrainTask::GenerateMesh(key))
            }
        } else {
            match chunk_grid(key.level) {
                None => r == Step::<B, F, R>::Failed(key),
                Some(g) => r matches Step::BuildChunk(k, c) && k == key && c.bounds_of()
                    == key.bounds && c.level_of() == key.level && c.grid() == g && c.voxels() is None
                    && c.staged_voxels() is None && c.triangles() is None && c.staged_triangles()
                    is None,
            }
        }
    }

    /// What the mesh stage returns for `key`: a ready mesh is done; a mesh
    /// without a resource goes on to its resource; a chunk with triangles is
    /// read back; any other key goes back to the first stage.
    pub open spec fn mesh_stage(&self, key: ChunkCacheKey, r: Step<B, F, R>) -> bool {
        r == if mesh_ready(self.meshes()@, key) {
            Step::<B, F, R>::Done
        } else if self.meshes()@.contains_key(key) {
            Step::<B, F, R>::Next(TerrainTask::GenerateMeshResources(key))
        } else if chunk_has_triangles(self.chunks()@, key) {
            Step::<B, F, R>::BuildMesh(key)
        } else {
            Step::<B, F, R>::Next(TerrainTask::GenerateChunk(key))
        }
    }

    /// What the resource stage returns for `key`.
    pub open spec fn resources_stage(&self, key: ChunkCacheKey, r: Step<B, F, R>) -> bool {
        r == if mesh_ready(self.meshes()@, key) {
            Step::<B, F, R>::Done
        } else if self.meshes()@.contains_key(key) {
            Step::<B, F, R>::BuildResources(key)
        } else {
            Step::<B, F, R>::Next(TerrainTask::GenerateMesh(key))
        }
    }

    /// What the triangulation stage returns for `key`.
    pub open spec fn retriangulate_stage(&self, key: ChunkCacheKey, r: Step<B, F, R>) -> bool {
        r == if self.chunks()@.contains_key(key) {
            Step::<B, F, R>::Retriangulate(key)
        } else {
            Step::<B, F, R>::Done
        }
    }

    /// What the stitching stage returns for `key`.
    pub open spec fn stitch_stage(&self, key: ChunkCacheKey, stride: StitchStride, r: Step<B, F, R>) -> bool {
        r == if mesh_ready(self.meshes()@, key) {
            Step::<B, F, R>::Stitch(key, stride)
        } else {
            Step::<B, F, R>::Done
        }
    }

    /// `new` is `self` after `chunk` was cached under `key`, and `r` asks for
    /// the mesh stage.
    pub open spec fn chunk_written(&self, new: Self, key: ChunkCacheKey, chunk: Chunk<B>, r: Step<B, F, R>) -> bool {
        &&& r == Step::<B, F, R>::Next(TerrainTask::GenerateMesh(key))
        &&& inserted(self.chunks(), new.chunks(), key, chunk, new.chunks().clock())
        &&& new.meshes() == self.meshes()
        &&& new.tree_of() == self.tree_of()
        &&& new.isolevel_bits() == self.isolevel_bits()
    }

    /// `new` is `self` after `mesh` was cached under `key`, and `r` asks for
    /// the resource stage.
    pub open spec fn mesh_written(&self, new: Self, key: ChunkCacheKey, mesh: ChunkMesh<F, R>, r: Step<B, F, R>) -> bool {
        &&& r == Step::<B, F, R>::Next(TerrainTask::GenerateMeshResources(key))
        &&& inserted(self.meshes(), new.meshes(), key, mesh, new.meshes().clock())
        &&& new.chunks() == self.chunks()
        &&& new.tree_of() == self.tree_of()
        &&& new.isolevel_bits() == self.isolevel_bits()
    }

    /// `new` is `self` with every triangle and every mesh dropped, the
    /// chunks' samples kept, and `r` is done.
    pub open spec fn invalidated(&self, new: Self, r: Step<B, F, R>) -> bool {
        &&& r is Done
        &&& new.meshes()@ == Map::<ChunkCacheKey, ChunkMesh<F, R>>::empty()
        &&& new.chunks()@.dom() == self.chunks()@.dom()
        &&& forall|k: ChunkCacheKey| #[trigger]
            new.chunks()@.contains_key(k) ==> new.chunks()@[k].triangles() is None
                && new.chunks()@[k].voxels() == self.chunks()@[k].voxels()
                && new.chunks()@[k].grid() == self.chunks()@[k].grid()
                && new.chunks()@[k].bounds_of() == self.chunks()@[k].bounds_of()
        &&& new.tree_of() == self.tree_of()
        &&& new.isolevel_bits() == self.isolevel_bits()
    }

    /// An empty terrain with the given isolevel (as the bits of a float).
    pub fn new(isolevel: u32) -> (r: Terrain<B, F, R>)
        ensures
            r.wf(),
            r.tree_of().roots().len() == 0,
            r.chunks()@ == Map::<ChunkCacheKey, Chunk<B>>::empty(),
            r.meshes()@ == Map::<ChunkCacheKey, ChunkMesh<F, R>>::empty(),
            r.chunks().max_size() == CHUNK_CACHE_SIZE,
            r.meshes().max_size() == MESH_CACHE_SIZE,
            r.isolevel_bits() == isolevel,
    {
        Terrain {
            tree: Tree::new(),
            chunk_cache: Cache::new(CHUNK_CACHE_SIZE),
            mesh_cache: Cache::new(MESH_CACHE_SIZE),
            isolevel,
        }
    }

    fn is_mesh_ready(&self, key: &ChunkCacheKey) -> (r: Option<bool>)
        requires
            self.wf(),
        ensures
            r == if self.meshes()@.contains_key(*key) {
                Some(self.meshes()@[*key].resource() is Some)
            } else {
                None::<bool>
            },
    {
        match self.mesh_cache.get(key) {
            Some(mesh) => Some(mesh.render_bundle().is_some()),
            None => None,
        }
    }

    /// The first stage: a key whose mesh is cached goes on to its render
    /// resource, or is done when that exists; one whose chunk is cached goes
    /// on to its mesh, or to a new triangulation when the chunk lost its
    /// triangles; any other key gets a fresh chunk for the backend to fill.
    pub fn generate_chunk(&self, key: &ChunkCacheKey) -> (r: Step<B, F, R>)
        requires
            self.wf(),
        ensures
            self.chunk_stage(*key, r),
    {
        match self.is_mesh_ready(key) {
            Some(true) => return Step::Done,
            Some(false) => return Step::Next(TerrainTask::GenerateMeshResources(*key)),
            None => {},
        }
        match self.chunk_cache.get(key) {
            Some(chunk) => {
                if chunk.triangle_buffer().is_none() {
                    return Step::Next(TerrainTask::RegenerateTriangle(*key));
                }
                return Step::Next(TerrainTask::GenerateMesh(*key));
            },
            None => {},
        }
        match chunk_voxel_count(key.level) {
            Some(grid) => Step::BuildChunk(*key, Chunk::new(key.bounds, key.level, grid)),
            None => Step::Failed(*key),
        }
    }

    /// Caches a chunk the backend filled; its mesh comes next.
    pub fn write_chunk(&mut self, key: &ChunkCacheKey, chunk: Chunk<B>) -> (r: Step<B, F, R>)
        requires
            old(self).wf(),
            chunk.grid().fits(),
        ensures
            final(self).wf(),
            old(self).chunk_written(*final(self), *key, chunk, r),
    {
        let ghost g = chunk.grid();
        self.chunk_cache.insert(key, chunk);
        proof {
            let o = old(self).chunks()@;
            let n = self.chunks()@;
            assert forall|k: ChunkCacheKey| #[trigger] n.contains_key(k) implies n[k].grid().fits() by {
                assert(o.insert(*key, chunk).contains_key(k));
            }
        }
        Step::Next(TerrainTask::GenerateMesh(*key))
    }

    /// The mesh stage: a key whose mesh is cached goes on to its render
    /// resource, or is done; one without a chunk that has triangles goes
    /// back to the first stage; otherwise the backend reads the chunk back.
    pub fn generate_mesh(&self, key: &ChunkCacheKey) -> (r: Step<B, F, R>)
        requires
            self.wf(),
        ensures
            self.mesh_stage(*key, r),
    {
        match self.is_mesh_ready(key) {
            Some(true) => return Step::Done,
            Some(false) => return Step::Next(TerrainTask::GenerateMeshResources(*key)),
            None => {},
        }
        match self.chunk_cache.get(key) {
            Some(chunk) => {
                if chunk.triangle_buffer().is_none() {
                    Step::Next(TerrainTask::GenerateChunk(*key))
                } else {
                    Step::BuildMesh(*key)
                }
            },
            None => Step::Next(TerrainTask::GenerateChunk(*key)),
        }
    }

    /// Caches a finished mesh; its render resource comes next.
    pub fn write_mesh(&mut self, key: &ChunkCacheKey, mesh: ChunkMesh<F, R>) -> (r: Step<B, F, R>)
        requires
            old(self).wf(),
            mesh.grid().fits(),
        ensures
            final(self).wf(),
            old(self).mesh_written(*final(self), *key, mesh, r),
    {
        self.mesh_cache.insert(key, mesh);
        proof {
            let o = old(self).meshes()@;
            let n = self.meshes()@;
            assert forall|k: ChunkCacheKey| #[trigger] n.contains_key(k) implies n[k].grid().fits() by {
                assert(o.insert(*key, mesh).contains_key(k));
            }
        }
        Step::Next(TerrainTask::GenerateMeshResources(*key))
    }

    /// The resource stage: a cached mesh without a render resource gets one
    /// built; one with a resource is done; a missing mesh goes back to the
    /// mesh stage.
    pub fn generate_mesh_resources(&self, key: &ChunkCacheKey) -> (r: Step<B, F, R>)
        requires
            self.wf(),
        ensures
            self.resources_stage(*key, r),
    {
        match self.is_mesh_ready(key) {
            Some(true) => Step::Done,
            Some(false) => Step::BuildResources(*key),
            None => Step::Next(TerrainTask::GenerateMesh(*key)),
        }
    }

    /// Hands a built render resource to the cached mesh of `key`; when the
    /// mesh was evicted meanwhile, the mesh stage runs again.
    pub fn attach_render_resources(&mut self, key: &ChunkCacheKey, resource: R) -> (r: Step<B, F, R>)
        requires
            old(self).wf(),
        ensures
            final(self).wf(),
            final(self).chunks() == old(self).chunks(),
            final(self).tree_of() == old(self).tree_of(),
            final(self).isolevel_bits() == old(self).isolevel_bits(),
            final(self).meshes()@.dom() == old(self).meshes()@.dom(),
            final(self).meshes().stamps() == old(self).meshes().stamps(),
            !old(self).meshes()@.contains_key(*key) ==> r == Step::<B, F, R>::Next(
                TerrainTask::GenerateMesh(*key),
            ) && final(self).meshes()@ == old(self).meshes()@,
            old(self).meshes()@.contains_key(*key) ==> r is Done && mesh_ready(final(self).meshes()@, *key)
                && (old(self).meshes()@[*key].resource() is None ==> final(self).meshes()@[*key].resource()
                == Some(resource)) && (old(self).meshes()@[*key].resource() is Some ==> final(self).meshes()@
                == old(self).meshes()@),
    {
        let ghost o = self.mesh_cache@;
        match self.mesh_cache.get_mut(key) {
            Some(mesh) => {
                mesh.create_render_resources(resource);
                proof {
                    assert(self.mesh_cache@ == o.insert(*key, self.mesh_cache@[*key]));
                    assert(self.mesh_cache@.dom() =~= o.dom());
                    if o[*key].resource() is Some {
                        assert(self.mesh_cache@ =~= o);
                    }
                    let n = self.meshes()@;
                    assert forall|k: ChunkCacheKey| #[trigger] n.contains_key(k) implies n[k].grid().fits() by {
                        assert(o.contains_key(k));
                    }
                }
                Step::Done
            },
            None => Step::Next(TerrainTask::GenerateMesh(*key)),
        }
    }

    /// After an isolevel change: a cached chunk is triangulated again on its
    /// samples; an evicted one is done with.
    pub fn regenerate_triangle(&self, key: &ChunkCacheKey) -> (r: Step<B, F, R>)
        requires
            self.wf(),
        ensures
            self.retriangulate_stage(*key, r),
    {
        if self.chunk_cache.contains_key(key) {
            Step::Retriangulate(*key)
        } else {
            Step::Done
        }
    }

    /// Stores the triangles a new triangulation produced into the cached
    /// chunk; its mesh comes next. An evicted chunk is done with.
    pub fn store_triangles(&mut self, key: &ChunkCacheKey, buffer: B, staging: Option<B>) -> (r: Step<
        B,
        F,
        R,
    >)
        requires
            old(self).wf(),
        ensures
            final(self).wf(),
            final(self).meshes() == old(self).meshes(),
            final(self).tree_of() == old(self).tree_of(),
            final(self).isolevel_bits() == old(self).isolevel_bits(),
            final(self).chunks()@.dom() == old(self).chunks()@.dom(),
            !old(self).chunks()@.contains_key(*key) ==> r is Done && final(self).chunks()@ == old(
                self,
            ).chunks()@,
            old(self).chunks()@.contains_key(*key) ==> r == Step::<B, F, R>::Next(
                TerrainTask::GenerateMesh(*key),
            ) && final(self).chunks()@[*key].triangles() == Some(buffer)
                && final(self).chunks()@[*key].staged_triangles() == staging
                && final(self).chunks()@[*key].voxels() == old(self).chunks()@[*key].voxels()
                && final(self).chunks()@[*key].grid() == old(self).chunks()@[*key].grid(),
    {
        let ghost o = self.chunk_cache@;
        match self.chunk_cache.get_mut(key) {
            Some(chunk) => {
                chunk.set_triangle_buffers(buffer, staging);
                proof {
                    assert(self.chunk_cache@.dom() =~= o.dom());
                    let n = self.chunks()@;
                    assert forall|k: ChunkCacheKey| #[trigger] n.contains_key(k) implies n[k].grid().fits() by {
                        assert(o.contains_key(k));
                    }
                }
                Step::Next(TerrainTask::GenerateMesh(*key))
            },
            None => Step::Done,
        }
    }

    /// Drops the triangles of every cached chunk (their samples are kept)
    /// and every cached mesh.
    pub fn invalidate_triangle(&mut self) -> (r: Step<B, F, R>)
        requires
            old(self).wf(),
        ensures
            final(self).wf(),
            old(self).invalidated(*final(self), r),
    {
        let keys = self.chunk_cache.keys();
        let ghost o = self.chunk_cache@;
        let mut i: usize = 0;
        while i < keys.len()
            invariant
                self.chunk_cache.wf(),
                self.mesh_cache == old(self).mesh_cache,
                self.tree == old(self).tree,
                self.isolevel == old(self).isolevel,
                o == old(self).chunks()@,
                i <= keys@.len(),
                keys@.no_duplicates(),
                forall|k: ChunkCacheKey| o.contains_key(k) <==> keys@.contains(k),
                self.chunk_cache@.dom() == o.dom(),
                forall|k: ChunkCacheKey| #[trigger]
                    self.chunk_cache@.contains_key(k) ==> self.chunk_cache@[k].voxels() == o[k].voxels()
                        && self.chunk_cache@[k].grid() == o[k].grid()
                        && self.chunk_cache@[k].bounds_of() == o[k].bounds_of(),
                forall|j: int| 0 <= j < i ==> (#[trigger] self.chunk_cache@[keys@[j]]).triangles() is None,
            decreases keys@.len() - i,
        {
            let ghost before = self.chunk_cache@;
            let k = keys[i];
            assert(keys@.contains(k));
            match self.chunk_cache.get_mut(&k) {
                Some(chunk) => {
                    chunk.clear_triangle_buffer();
                },
                None => {},
            }
            proof {
                assert(self.chunk_cache@.dom() =~= o.dom());
                assert forall|j: int| 0 <= j < i + 1 implies (#[trigger] self.chunk_cache@[keys@[j]]).triangles() is None by {
                    if j < i {
                        assert(keys@[j] != k);
                    }
                }
            }
            i += 1;
        }
        self.mesh_cache.clear();
        proof {
            assert forall|k: ChunkCacheKey| #[trigger] self.chunks()@.contains_key(k) implies self.chunks()@[k].triangles() is None by {
                assert(keys@.contains(k));
                let j = choose|j: int| 0 <= j < keys@.len() && keys@[j] == k;
            }
        }
        Step::Done
    }

    /// Stitching is asked for only for a mesh that has its render resource.
    pub fn stitch_mesh(&self, key: &ChunkCacheKey, stride: &StitchStride) -> (r: Step<B, F, R>)
        requires
            self.wf(),
        ensures
            self.stitch_stage(*key, *stride, r),
    {
        match self.is_mesh_ready(key) {
            Some(true) => Step::Stitch(*key, *stride),
            _ => Step::Done,
        }
    }

    fn falls_back_exec(&self, c: &Vec<Node>, regions: &[Region]) -> (r: bool)
        requires
            self.wf(),
            c@.len() == 4,
        ensures
            r == falls_back(c@, regions@, self.meshes()@),
    {
        let m = Ghost(self.meshes()@);
        let m0 = c[0].meets_any_of(regions);
        let m1 = c[1].meets_any_of(regions);
        let m2 = c[2].meets_any_of(regions);
        let m3 = c[3].meets_any_of(regions);
        let all_leaves = (!m0 || c[0].sub_nodes().is_none()) && (!m1 || c[1].sub_nodes().is_none())
            && (!m2 || c[2].sub_nodes().is_none()) && (!m3 || c[3].sub_nodes().is_none());
        let k0 = ChunkCacheKey { bounds: c[0].bounds(), level: c[0].level() };
        let k1 = ChunkCacheKey { bounds: c[1].bounds(), level: c[1].level() };
        let k2 = ChunkCacheKey { bounds: c[2].bounds(), level: c[2].level() };
        let k3 = ChunkCacheKey { bounds: c[3].bounds(), level: c[3].level() };
        let some_unready = (m0 && self.is_mesh_ready(&k0) != Some(true)) || (m1
            && self.is_mesh_ready(&k1) != Some(true)) || (m2 && self.is_mesh_ready(&k2)
            != Some(true)) || (m3 && self.is_mesh_ready(&k3) != Some(true));
        proof {
            let cs = c@;
            assert(all_leaves == forall|i: int|
                0 <= i < 4 && #[trigger] meets_any(regions@, cs[i].bounds_of()) ==> cs[i].children() is None) by {
                if !all_leaves {
                    if m0 && c@[0].children() is Some {
                assert(meets_any(regions@, cs[0].bounds_of()));
                    }
                    if m1 && c@[1].children() is Some {
                assert(meets_any(regions@, cs[1].bounds_of()));
                    }
                    if m2 && c@[2].children() is Some {
                assert(meets_any(regions@, cs[2].bounds_of()));
                    }
                    if m3 && c@[3].children() is Some {
                assert(meets_any(regions@, cs[3].bounds_of()));
                    }
                }
            }
            assert(key_of(cs[0]) == k0 && key_of(cs[1]) == k1 && key_of(cs[2]) == k2 && key_of(cs[3]) == k3);
            assert(some_unready == exists|i: int|
                0 <= i < 4 && #[trigger] meets_any(regions@, cs[i].bounds_of()) && !mesh_ready(m@, key_of(cs[i]))) by {
                if some_unready {
                    if m0 && !mesh_ready(m@, k0) {
                assert(meets_any(regions@, cs[0].bounds_of()));
                    } else if m1 && !mesh_ready(m@, k1) {
                assert(meets_any(regions@, cs[1].bounds_of()));
                    } else if m2 && !mesh_ready(m@, k2) {
                assert(meets_any(regions@, cs[2].bounds_of()));
                    } else {
                assert(meets_any(regions@, cs[3].bounds_of()));
                    }
                }
            }
        }
        all_leaves && some_unready
    }

    /// One frame's update: for each band, creates the roots its region
    /// touches and asks for its level of detail there; commits the demotions;
    /// then takes the leaves that meet some band, farthest from `position`
    /// first, refreshes the recency of their cached meshes, and returns them
    /// for generation.
    pub fn update_terrain(&mut self, position: &Point3, regions: &Vec<TerrainRegion>) -> (r: Vec<
        ChunkCacheKey,
    >)
        requires
            old(self).wf(),
            forall|i: int|
                0 <= i < regions@.len() ==> (#[trigger] regions@[i]).region.in_world()
                    && regions@[i].level <= MAX_LEVEL,
        ensures
            final(self).wf(),
            final(self).tree_of().roots().len() >= old(self).tree_of().roots().len(),
            forall|p: Point2| #[trigger]
                has_root(old(self).tree_of().roots(), p) ==> has_root(final(self).tree_of().roots(), p),
            forall|i: int, p: Point2|
                #![trigger regions@[i], has_root(final(self).tree_of().roots(), p)]
                0 <= i < regions@.len() && is_tile_origin(p) && tile_in_range(
                    bounding_box(regions@[i].region@),
                    p,
                ) && polygon_meets_box(regions@[i].region@, tile_of(p)) ==> has_root(
                    final(self).tree_of().roots(),
                    p,
                ),
            forall|i: int|
                0 <= i < final(self).tree_of().roots().len() ==> settled(
                    #[trigger] final(self).tree_of().roots()[i],
                ),
            r@.to_multiset() == walk_roots(
                final(self).tree_of().roots(),
                final(self).tree_of().roots().len() as int,
                band_regions(regions@),
                true,
                false,
            ).to_multiset(),
            farthest_first(r@, *position),
            exists|stages: Seq<Seq<Node>>, mids: Seq<Seq<Node>>|
                #[trigger] band_updates(old(self).tree_of().roots(), stages, mids, regions@)
                    && roots_rebuilt(stages.last(), final(self).tree_of().roots()),
            final(self).meshes()@ == old(self).meshes()@,
            final(self).meshes().stamps().dom() == old(self).meshes().stamps().dom(),
            forall|k: ChunkCacheKey|
                !r@.contains(k) && #[trigger] old(self).meshes().stamps().contains_key(k)
                    ==> final(self).meshes().stamps()[k] == old(self).meshes().stamps()[k],
            old(self).meshes().clock() + r@.len() < u64::MAX ==> forall|k: ChunkCacheKey, j: ChunkCacheKey|
                r@.contains(k) && !r@.contains(j) && #[trigger] final(self).meshes()@.contains_key(k)
                    && #[trigger] final(self).meshes()@.contains_key(j) ==> final(self).meshes().stamps()[k]
                    > final(self).meshes().stamps()[j],
            final(self).chunks() == old(self).chunks(),
            final(self).isolevel_bits() == old(self).isolevel_bits(),
    {
        let ghost mut stages: Seq<Seq<Node>> = seq![self.tree_of().roots()];
        let ghost mut mids: Seq<Seq<Node>> = Seq::empty();
        let mut i: usize = 0;
        while i < regions.len()
            invariant
                self.wf(),
                i <= regions@.len(),
                self.tree_of().roots().len() >= old(self).tree_of().roots().len(),
                self.meshes() == old(self).meshes(),
                self.chunks() == old(self).chunks(),
                self.isolevel_bits() == old(self).isolevel_bits(),
                forall|j: int|
                    0 <= j < regions@.len() ==> (#[trigger] regions@[j]).region.in_world()
                        && regions@[j].level <= MAX_LEVEL,
                forall|p: Point2| #[trigger]
                    has_root(old(self).tree_of().roots(), p) ==> has_root(self.tree_of().roots(), p),
                band_updates(old(self).tree_of().roots(), stages, mids, regions@.take(i as int)),
                stages.last() == self.tree_of().roots(),
                forall|j: int, p: Point2|
                    #![trigger regions@[j], has_root(self.tree_of().roots(), p)]
                    0 <= j < i && is_tile_origin(p) && tile_in_range(
                        bounding_box(regions@[j].region@),
                        p,
                    ) && polygon_meets_box(regions@[j].region@, tile_of(p)) ==> has_root(
                        self.tree_of().roots(),
                        p,
                    ),
            decreases regions@.len() - i,
        {
            let band = &regions[i];
            assert(band.region.in_world() && band.level <= MAX_LEVEL);
            let ghost r0 = self.tree_of().roots();
            self.tree.ensure_node_in_region(&band.region);
            let ghost r1 = self.tree_of().roots();
            self.tree.set_level_in_region(&band.region, band.level);
            proof {
                let r2 = self.tree_of().roots();
                let ghost old_stages = stages;
                let ghost old_mids = mids;
                stages = stages.push(r2);
                mids = mids.push(r1);
                assert(regions@.take(i + 1) =~= regions@.take(i as int).push(regions@[i as int]));
                assert forall|j: int| 0 <= j < i + 1 implies {
                    &&& roots_ensured(stages[j], #[trigger] mids[j], regions@.take(i + 1)[j].region@)
                    &&& roots_leveled(mids[j], stages[j + 1], regions@.take(i + 1)[j].region@, regions@.take(i + 1)[j].level)
                } by {
                    if j < i {
                        assert(old_mids[j] == mids[j]);
                        assert(old_stages[j] == stages[j]);
                        assert(old_stages[j + 1] == stages[j + 1]);
                        assert(regions@.take(i as int)[j] == regions@.take(i + 1)[j]);
                    }
                }
                lemma_same_cells_same_tiles(r2, r1);
                assert forall|j: int, p: Point2|
                    #![trigger regions@[j], has_root(r2, p)]
                    0 <= j < i + 1 && is_tile_origin(p) && tile_in_range(
                        bounding_box(regions@[j].region@),
                        p,
                    ) && polygon_meets_box(regions@[j].region@, tile_of(p)) implies has_root(
                        r2,
                        p,
                    ) by {
                    if j < i {
                        assert(has_root(r0, p));
                    }
                    assert(has_root(r1, p));
                }
            }
            i += 1;
        }
        proof {
            assert(regions@.take(regions@.len() as int) =~= regions@);
        }
        let ghost before = self.tree;
        self.tree.rebuild_tree();
        assert(band_updates(old(self).tree_of().roots(), stages, mids, regions@)
            && roots_rebuilt(stages.last(), self.tree_of().roots()));
        proof {
            lemma_same_cells_same_tiles(self.tree_of().roots(), before.roots());
        }
        proof {
            assert forall|i: int| 0 <= i < self.tree_of().roots().len() implies settled(
                #[trigger] self.tree_of().roots()[i],
            ) by {
                assert(self.tree.roots().len() == before.roots().len());
                assert(rebuild_result(before.roots()[i], self.tree.roots()[i]));
                assert(settled(self.tree.roots()[i]));
            }
        }
        let mut rs: Vec<Region> = Vec::new();
        let mut j: usize = 0;
        while j < regions.len()
            invariant
                j <= regions@.len(),
                rs@.len() == j,
                forall|a: int| 0 <= a < j ==> (#[trigger] rs@[a])@ == regions@[a].region@,
            decreases regions@.len() - j,
        {
            rs.push(regions[j].region.duplicate());
            j += 1;
        }
        let rs_slice = rs.as_slice();
        assert(rs_slice@ == rs@);
        let mut leaves = self.tree.leaf_intersect_regions_iter(rs_slice);
        let ghost all = leaves@;
        assert(all == walk_roots(
            self.tree_of().roots(),
            self.tree_of().roots().len() as int,
            rs@,
            true,
            false,
        ));
        let mut keys: Vec<ChunkCacheKey> = Vec::new();
        loop
            invariant
                leaves.wf(),
                keys@ + leaves@ == all,
            ensures
                keys@ == all,
            decreases leaves@.len(),
        {
            let ghost rest = leaves@;
            match leaves.next() {
                Some(k) => {
                    keys.push(k);
                    assert(keys@ + leaves@ =~= all);
                },
                None => {
                    assert(keys@ =~= all);
                    break;
                },
            }
        }
        proof {
            let bands = band_regions(regions@);
            assert forall|bx: Box3| #[trigger] meets_any(rs@, bx) == meets_any(bands, bx) by {
                lemma_meets_same_polygons(rs@, bands, bx);
            }
            lemma_walk_roots_same_regions(
                self.tree_of().roots(),
                self.tree_of().roots().len() as int,
                rs@,
                bands,
                true,
                false,
            );
        }
        proof {
            assert(keys@ == all);
            assert(all == walk_roots(
                self.tree_of().roots(),
                self.tree_of().roots().len() as int,
                band_regions(regions@),
                true,
                false,
            ));
        }
        let sorted = sort_by_distance(&keys, position);
        let ghost t = self.tree_of();
        self.update_last_accessed(&sorted);
        assert(self.tree_of() == t);
        sorted
    }

    /// Refreshes the recency of every cached mesh among `keys`: those meshes
    /// end up stamped later than every mesh not among them, whose stamps are
    /// left as they were. (The clock stops at its largest value; until then
    /// each key takes a tick.)
    pub fn update_last_accessed(&mut self, keys: &Vec<ChunkCacheKey>)
        requires
            old(self).wf(),
        ensures
            final(self).wf(),
            final(self).meshes()@ == old(self).meshes()@,
            final(self).meshes().stamps().dom() == old(self).meshes().stamps().dom(),
            forall|k: ChunkCacheKey|
                !keys@.contains(k) && #[trigger] old(self).meshes().stamps().contains_key(k)
                    ==> final(self).meshes().stamps()[k] == old(self).meshes().stamps()[k],
            old(self).meshes().clock() + keys@.len() < u64::MAX ==> forall|k: ChunkCacheKey, j: ChunkCacheKey|
                keys@.contains(k) && !keys@.contains(j) && #[trigger] final(self).meshes()@.contains_key(k)
                    && #[trigger] final(self).meshes()@.contains_key(j) ==> final(self).meshes().stamps()[k]
                    > final(self).meshes().stamps()[j],
            final(self).chunks() == old(self).chunks(),
            final(self).tree_of() == old(self).tree_of(),
            final(self).isolevel_bits() == old(self).isolevel_bits(),
    {
        let ghost c0 = old(self).meshes().clock();
        let ghost s0 = old(self).meshes().stamps();
        let ghost fits = c0 + keys@.len() < u64::MAX;
        proof {
            lemma_stamps_bounded(old(self).meshes());
        }
        let mut i: usize = 0;
        while i < keys.len()
            invariant
                self.wf(),
                i <= keys@.len(),
                c0 == old(self).meshes().clock(),
                s0 == old(self).meshes().stamps(),
                fits == (c0 + keys@.len() < u64::MAX),
                self.meshes()@ == old(self).meshes()@,
                self.meshes().stamps().dom() == s0.dom(),
                fits ==> self.meshes().clock() == c0 + i,
                forall|k: ChunkCacheKey| #[trigger] s0.contains_key(k) ==> s0[k] <= c0,
                forall|k: ChunkCacheKey|
                    !keys@.take(i as int).contains(k) && #[trigger] s0.contains_key(k)
                        ==> self.meshes().stamps()[k] == s0[k],
                fits ==> forall|k: ChunkCacheKey|
                    keys@.take(i as int).contains(k) && #[trigger] s0.contains_key(k)
                        ==> self.meshes().stamps()[k] > c0,
                self.chunks() == old(self).chunks(),
                self.tree_of() == old(self).tree_of(),
                self.isolevel_bits() == old(self).isolevel_bits(),
            decreases keys@.len() - i,
        {
            let ghost before_cache = self.mesh_cache;
            let ghost before = self.mesh_cache.stamps();
            proof {
                lemma_stamps_bounded(before_cache);
            }
            self.mesh_cache.update_last_accessed(&keys[i]);
            proof {
                let key = keys@[i as int];
                assert(keys@.take(i + 1) =~= keys@.take(i as int).push(key));
                if before_cache@.contains_key(key) {
                    lemma_cache_stamped_dom(before_cache, key);
                    assert(self.mesh_cache.stamps().dom() =~= before.dom());
                }
                assert forall|k: ChunkCacheKey|
                    !keys@.take(i + 1).contains(k) && #[trigger] s0.contains_key(k)
                        implies self.meshes().stamps()[k] == s0[k] by {
                    assert(keys@.take(i + 1)[i as int] == key);
                    assert(k != key);
                    assert(!keys@.take(i as int).contains(k));
                }
                if fits {
                    assert forall|k: ChunkCacheKey|
                        keys@.take(i + 1).contains(k) && #[trigger] s0.contains_key(k)
                            implies self.meshes().stamps()[k] > c0 by {
                        if k != key {
                            assert(keys@.take(i as int).contains(k));
                        } else {
                            assert(before.contains_key(k));
                        }
                    }
                }
            }
            i += 1;
        }
        proof {
            assert(keys@.take(keys@.len() as int) =~= keys@);
            lemma_stamps_bounded(self.meshes());
            lemma_stamps_bounded(old(self).meshes());
            if fits {
                assert forall|k: ChunkCacheKey, j: ChunkCacheKey|
                    keys@.contains(k) && !keys@.contains(j) && #[trigger] self.meshes()@.contains_key(k)
                        && #[trigger] self.meshes()@.contains_key(j) implies self.meshes().stamps()[k]
                        > self.meshes().stamps()[j] by {
                    assert(s0.contains_key(k));
                    assert(s0.contains_key(j));
                }
            }
        }
    }

    /// Sets the isolevel (as the bits of a float) and invalidates every
    /// triangle and mesh, which were extracted at the old isolevel.
    pub fn set_isolevel(&mut self, isolevel: u32)
        requires
            old(self).wf(),
        ensures
            final(self).wf(),
            final(self).isolevel_bits() == isolevel,
            final(self).meshes()@ == Map::<ChunkCacheKey, ChunkMesh<F, R>>::empty(),
            final(self).chunks()@.dom() == old(self).chunks()@.dom(),
            forall|k: ChunkCacheKey| #[trigger]
                final(self).chunks()@.contains_key(k) ==> final(self).chunks()@[k].triangles() is None,
            final(self).tree_of() == old(self).tree_of(),
    {
        self.isolevel = isolevel;
        self.invalidate_triangle();
    }

    /// The isolevel, as the bits of a float.
    pub fn isolevel(&self) -> (r: u32)
        ensures
            r == self.isolevel_bits(),
    {
        self.isolevel
    }

    pub fn tree(&self) -> (r: &Tree)
        ensures
            *r == self.tree_of(),
    {
        &self.tree
    }

    pub fn mesh_cache(&self) -> (r: &Cache<ChunkMesh<F, R>>)
        ensures
            *r == self.meshes(),
    {
        &self.mesh_cache
    }

    pub fn chunk_cache(&self) -> (r: &Cache<Chunk<B>>)
        ensures
            *r == self.chunks(),
    {
        &self.chunk_cache
    }

    /// Runs one stage of the pipeline on the caches.
    pub fn run_task(&mut self, task: TerrainTask<B, F, R>) -> (r: Step<B, F, R>)
        requires
            old(self).wf(),
            task matches TerrainTask::WriteChunk(_, c) ==> c.grid().fits(),
            task matches TerrainTask::WriteMesh(_, m) ==> m.grid().fits(),
        ensures
            final(self).wf(),
            match task {
                TerrainTask::GenerateChunk(k) => *final(self) == *old(self) && old(self).chunk_stage(k, r),
                TerrainTask::WriteChunk(k, c) => old(self).chunk_written(*final(self), k, c, r),
                TerrainTask::GenerateMesh(k) => *final(self) == *old(self) && old(self).mesh_stage(k, r),
                TerrainTask::WriteMesh(k, m) => old(self).mesh_written(*final(self), k, m, r),
                TerrainTask::GenerateMeshResources(k) => *final(self) == *old(self)
                    && old(self).resources_stage(k, r),
                TerrainTask::RegenerateTriangle(k) => *final(self) == *old(self)
                    && old(self).retriangulate_stage(k, r),
                TerrainTask::InvalidateTriangle => old(self).invalidated(*final(self), r),
                TerrainTask::StitchMesh(k, s) => *final(self) == *old(self) && old(self).stitch_stage(
                    k,
                    s,
                    r,
                ),
            },
    {
        match task {
            TerrainTask::GenerateChunk(key) => self.generate_chunk(&key),
            TerrainTask::WriteChunk(key, chunk) => self.write_chunk(&key, chunk),
            TerrainTask::GenerateMesh(key) => self.generate_mesh(&key),
            TerrainTask::WriteMesh(key, mesh) => self.write_mesh(&key, mesh),
            TerrainTask::GenerateMeshResources(key) => self.generate_mesh_resources(&key),
            TerrainTask::RegenerateTriangle(key) => self.regenerate_triangle(&key),
            TerrainTask::InvalidateTriangle => self.invalidate_triangle(),
            TerrainTask::StitchMesh(key, stride) => self.stitch_mesh(&key, &stride),
        }
    }

    /// Appends to `out` the keys that drawing yields from `n`.
    fn render_into(&self, n: &Node, regions: &[Region], out: &mut Vec<ChunkCacheKey>)
        requires
            self.wf(),
            n.wf(),
        ensures
            final(out)@ == old(out)@ + render_node(*n, regions@, self.meshes()@),
        decreases MAX_LEVEL - n.level_of(), 0int,
    {
        proof {
            reveal(render_node);
        }
        let m = Ghost(self.meshes()@);
        match n.sub_nodes() {
            None => {
                let key = ChunkCacheKey { bounds: n.bounds(), level: n.level() };
                if self.is_mesh_ready(&key) == Some(true) {
                    out.push(key);
                }
            },
            Some(c) => {
                proof {
                    assert(n.children() == Some(c@));
                    assert(c@[0].level_of() == n.level_of() + 1 && c@[0].wf());
                    assert(c@[1].level_of() == n.level_of() + 1 && c@[1].wf());
                    assert(c@[2].level_of() == n.level_of() + 1 && c@[2].wf());
                    assert(c@[3].level_of() == n.level_of() + 1 && c@[3].wf());
                }
                let fall_back = self.falls_back_exec(c, regions);
                if fall_back {
                    let key = ChunkCacheKey { bounds: n.bounds(), level: n.level() };
                    if self.is_mesh_ready(&key) == Some(true) {
                        out.push(key);
                    }
                } else {
                    self.render_quadrants(c, regions, out);
                }
            },
        }
    }

    /// Appends to `out` what drawing yields from the four children `c` that
    /// meet the regions, the last quadrant first.
    fn render_quadrants(&self, c: &Vec<Node>, regions: &[Region], out: &mut Vec<ChunkCacheKey>)
        requires
            self.wf(),
            c@.len() == 4,
            c@[0].level_of() <= MAX_LEVEL,
            forall|i: int| 0 <= i < 4 ==> (#[trigger] c@[i]).wf() && c@[i].level_of() == c@[0].level_of(),
        ensures
            final(out)@ == old(out)@ + ((if meets_any(regions@, c@[3].bounds_of()) {
                render_node(c@[3], regions@, self.meshes()@)
            } else {
                Seq::empty()
            }) + (if meets_any(regions@, c@[2].bounds_of()) {
                render_node(c@[2], regions@, self.meshes()@)
            } else {
                Seq::empty()
            }) + (if meets_any(regions@, c@[1].bounds_of()) {
                render_node(c@[1], regions@, self.meshes()@)
            } else {
                Seq::empty()
            }) + (if meets_any(regions@, c@[0].bounds_of()) {
                render_node(c@[0], regions@, self.meshes()@)
            } else {
                Seq::empty()
            })),
        decreases MAX_LEVEL - c@[0].level_of(), 1int,
    {
        let m = Ghost(self.meshes()@);
        proof {
            assert(c@[1].wf() && c@[2].wf() && c@[3].wf());
        }
        let m0 = c[0].meets_any_of(regions);
        let m1 = c[1].meets_any_of(regions);
        let m2 = c[2].meets_any_of(regions);
        let m3 = c[3].meets_any_of(regions);
        let ghost o = out@;
        if m3 {
            self.render_into(&c[3], regions, out);
        }
        let ghost o3 = out@;
        if m2 {
            self.render_into(&c[2], regions, out);
        }
        let ghost o2 = out@;
        if m1 {
            self.render_into(&c[1], regions, out);
        }
        let ghost o1 = out@;
        if m0 {
            self.render_into(&c[0], regions, out);
        }
        proof {
            let cs = c@;
            let part3 = if m3 { render_node(cs[3], regions@, m@) } else { Seq::empty() };
            let part2 = if m2 { render_node(cs[2], regions@, m@) } else { Seq::empty() };
            let part1 = if m1 { render_node(cs[1], regions@, m@) } else { Seq::empty() };
            let part0 = if m0 { render_node(cs[0], regions@, m@) } else { Seq::empty() };
            assert(o3 =~= o + part3);
            assert(o2 =~= o + part3 + part2);
            assert(o1 =~= o + part3 + part2 + part1);
            assert(out@ =~= o + (part3 + part2 + part1 + part0));
        }
    }

    /// The keys of the meshes to draw for `regions`: for each visible leaf
    /// its mesh when ready, or its parent's when a sibling is not ready yet.
    pub fn render(&self, regions: &[Region]) -> (r: Vec<ChunkCacheKey>)
        requires
            self.wf(),
        ensures
            r@ == render_roots(
                self.tree_of().roots(),
                self.tree_of().roots().len() as int,
                regions@,
                self.meshes()@,
            ),
            forall|i: int| 0 <= i < r@.len() ==> mesh_ready(self.meshes()@, #[trigger] r@[i]),
    {
        let roots = self.tree.root_nodes();
        let mut out: Vec<ChunkCacheKey> = Vec::new();
        let mut k: usize = roots.len();
        while k > 0
            invariant
                self.wf(),
                roots@ == self.tree_of().roots(),
                k <= roots@.len(),
                out@ + render_roots(roots@, k as int, regions@, self.meshes()@) == render_roots(
                    roots@,
                    roots@.len() as int,
                    regions@,
                    self.meshes()@,
                ),
            decreases k,
        {
            let ghost before = out@;
            proof {
                assert(roots@[k - 1].wf());
            }
            if roots[k - 1].meets_any_of(regions) {
                self.render_into(&roots[k - 1], regions, &mut out);
            }
            proof {
                let part = if meets_any(regions@, roots@[k - 1].bounds_of()) {
                    render_node(roots@[k - 1], regions@, self.meshes()@)
                } else {
                    Seq::empty()
                };
                let rest = render_roots(roots@, k - 1, regions@, self.meshes()@);
                assert(out@ == before + part);
                assert(before + (part + rest) =~= (before + part) + rest);
            }
            k -= 1;
        }
        proof {
            lemma_render_roots_ready(roots@, roots@.len() as int, regions@, self.meshes()@);
        }
        out
    }
}

proof fn lemma_render_node_ready<F, R>(n: Node, regions: Seq<Region>, m: Map<ChunkCacheKey, ChunkMesh<F, R>>)
    ensures
        forall|i: int| 0 <= i < render_node(n, regions, m).len() ==> mesh_ready(m, #[trigger] render_node(n, regions, m)[i]),
    decreases MAX_LEVEL - n.level_of(),
{
    reveal(render_node);
    if let Some(c) = n.children() {
        if c.len() == 4 && n.level_of() < MAX_LEVEL && forall|i: int|
            0 <= i < 4 ==> (#[trigger] c[i]).level_of() == n.level_of() + 1 {
            if !falls_back(c, regions, m) {
                assert(c[0].level_of() == n.level_of() + 1);
                assert(c[1].level_of() == n.level_of() + 1);
                assert(c[2].level_of() == n.level_of() + 1);
                assert(c[3].level_of() == n.level_of() + 1);
                lemma_render_node_ready(c[0], regions, m);
                lemma_render_node_ready(c[1], regions, m);
                lemma_render_node_ready(c[2], regions, m);
                lemma_render_node_ready(c[3], regions, m);
                let part3 = if meets_any(regions, c[3].bounds_of()) { render_node(c[3], regions, m) } else { Seq::empty() };
                let part2 = if meets_any(regions, c[2].bounds_of()) { render_node(c[2], regions, m) } else { Seq::empty() };
                let part1 = if meets_any(regions, c[1].bounds_of()) { render_node(c[1], regions, m) } else { Seq::empty() };
                let part0 = if meets_any(regions, c[0].bounds_of()) { render_node(c[0], regions, m) } else { Seq::empty() };
                let s = render_node(n, regions, m);
                assert(s == part3 + part2 + part1 + part0);
                assert forall|i: int| 0 <= i < s.len() implies mesh_ready(m, #[trigger] s[i]) by {
                    let a = part3.len();
                    let b = a + part2.len();
                    let d = b + part1.len();
                    if i < a {
                        assert(s[i] == part3[i]);
                    } else if i < b {
                        assert(s[i] == part2[i - a]);
                    } else if i < d {
                        assert(s[i] == part1[i - b]);
                    } else {
                        assert(s[i] == part0[i - d]);
                    }
                }
            }
        }
    }
}

proof fn lemma_render_roots_ready<F, R>(roots: Seq<Node>, k: int, regions: Seq<Region>, m: Map<ChunkCacheKey, ChunkMesh<F, R>>)
    ensures
        forall|i: int| 0 <= i < render_roots(roots, k, regions, m).len() ==> mesh_ready(m, #[trigger] render_roots(roots, k, regions, m)[i]),
    decreases k,
{
    if k > 0 {
        lemma_render_node_ready(roots[k - 1], regions, m);
        lemma_render_roots_ready(roots, k - 1, regions, m);
        let p = if meets_any(regions, roots[k - 1].bounds_of()) {
            render_node(roots[k - 1], regions, m)
        } else {
            Seq::empty()
        };
        let rest = render_roots(roots, k - 1, regions, m);
        let s = render_roots(roots, k, regions, m);
        assert(s == p + rest);
        assert forall|i: int| 0 <= i < s.len() implies mesh_ready(m, #[trigger] s[i]) by {
            if i < p.len() {
                assert(s[i] == p[i]);
            } else {
                assert(s[i] == rest[i - p.len()]);
            }
        }
    }
}

/// Drawing never yields a key whose mesh is not ready: with no ready mesh at
/// all (as right after an isolevel change empties the mesh cache), it yields
/// nothing.
pub proof fn lemma_render_without_meshes<F, R>(
    roots: Seq<Node>,
    regions: Seq<Region>,
    m: Map<ChunkCacheKey, ChunkMesh<F, R>>,
)
    requires
        forall|k: ChunkCacheKey| !mesh_ready(m, k),
    ensures
        render_roots(roots, roots.len() as int, regions, m) == Seq::<ChunkCacheKey>::empty(),
{
    lemma_render_roots_ready(roots, roots.len() as int, regions, m);
    let s = render_roots(roots, roots.len() as int, regions, m);
    if s.len() > 0 {
        assert(mesh_ready(m, s[0]));
    }
    assert(s =~= Seq::<ChunkCacheKey>::empty());
}

} // verus!
