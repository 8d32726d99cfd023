//! A chunk: the density samples of one key, the sizes of its backend
//! buffers, and the decoding of what the backend stages for read-back.
use crate::base::Box3;
use crate::tree::MAX_LEVEL;
use vstd::prelude::*;

verus! {

/// Local size of the backend's compute workgroups along each axis.
pub const SHADER_WORKGROUP_SIZE: u32 = 8;

/// Bytes per density sample.
pub const VOXEL_BYTES: u64 = 4;

/// Bytes per triangle record: three positions of four 32-bit floats, three
/// identifiers of two 32-bit halves, and eight bytes of padding.
pub const TRIANGLE_BYTES: u64 = 80;

/// Offset of the first triangle record in the triangle buffer.
pub const TRIANGLE_HEADER_BYTES: usize = 16;

/// Most triangles that one grid cell yields.
pub const TRIANGLES_PER_CELL: u64 = 5;

/// Samples along each axis of a chunk's density grid.
#[derive(Clone, Copy, Debug, PartialEq, Eq, Structural, Hash)]
pub struct Size3 {
    pub width: u32,
    pub height: u32,
    pub depth: u32,
}

impl Size3 {
    pub open spec fn volume(self) -> int {
        self.width * self.height * self.depth
    }

    /// Each axis has at least one sample and the count fits in `u32`, with
    /// room to round it up to whole workgroups.
    pub open spec fn fits(self) -> bool {
        &&& self.width >= 1
        &&& self.height >= 1
        &&& self.depth >= 1
        &&& self.volume() <= u32::MAX - 7
    }

    pub open spec fn cells(self) -> int {
        (self.width - 1) * (self.height - 1) * (self.depth - 1)
    }
}

/// The grid of a chunk at `level`: 32 by 32 samples, and `2^(level-2)` deep.
pub open spec fn chunk_grid(level: u32) -> Option<Size3> {
    if 2 <= level <= MAX_LEVEL {
        Some(Size3 { width: 32, height: 32, depth: (1u32 << ((level - 2) as u32)) as u32 })
    } else {
        None
    }
}

/// The density grid of a chunk at `level`; levels coarser than 2 have none.
pub fn chunk_voxel_count(level: u32) -> (r: Option<Size3>)
    ensures
        r == chunk_grid(level),
        r matches Some(s) ==> s.fits() && 1 <= s.depth <= 64,
{
    if 2 <= level && level <= MAX_LEVEL {
        let d: u32 = 1u32 << (level - 2);
        proof {
            let e = (level - 2) as u32;
            assert(e <= 6);
            assert(1 <= d <= 64) by (bit_vector)
                requires
                    e <= 6,
                    d == 1u32 << e,
            ;
            assert(32 * 32 * d <= u32::MAX - 7) by (nonlinear_arith)
                requires
                    d <= 64,
            ;
        }
        Some(Size3 { width: 32, height: 32, depth: d })
    } else {
        None
    }
}

/// Bytes of a density buffer for `grid`.
pub open spec fn voxel_buffer_bytes(grid: Size3) -> int {
    grid.volume() * VOXEL_BYTES
}

/// Bytes of a triangle buffer for `grid`: room for the count and for the
/// most triangles its cells can yield.
pub open spec fn triangle_buffer_bytes(grid: Size3) -> int {
    8 + grid.cells() * TRIANGLES_PER_CELL * TRIANGLE_BYTES
}

/// Little-endian 32-bit word at `off`.
pub open spec fn le_u32(s: Seq<u8>, off: int) -> int {
    s[off] + 256 * s[off + 1] + 65536 * s[off + 2] + 16777216 * s[off + 3]
}

/// Little-endian 64-bit word at `off`.
pub open spec fn le_u64(s: Seq<u8>, off: int) -> int {
    le_u32(s, off) + 4294967296 * le_u32(s, off + 4)
}

fn read_u32(data: &[u8], off: usize) -> (r: u32)
    requires
        off + 4 <= data@.len() <= usize::MAX,
    ensures
        r == le_u32(data@, off as int),
{
    data[off] as u32 + (data[off + 1] as u32) * 256 + (data[off + 2] as u32) * 65536 + (data[off
        + 3] as u32) * 16777216
}

fn read_u64(data: &[u8], off: usize) -> (r: u64)
    requires
        off + 8 <= data@.len() <= usize::MAX,
    ensures
        r == le_u64(data@, off as int),
{
    let lo = read_u32(data, off) as u64;
    let hi = read_u32(data, off + 4) as u64;
    proof {
        assert(lo + hi * 4294967296 <= u64::MAX) by (nonlinear_arith)
            requires
                lo <= 0xffff_ffff,
                hi <= 0xffff_ffff,
        ;
    }
    lo + hi * 4294967296
}

/// The density samples of a staged density buffer, as the bit patterns of
/// their 32-bit floats.
pub open spec fn decoded_voxels(bytes: Seq<u8>) -> Seq<u32> {
    Seq::new((bytes.len() / 4) as nat, |i: int| le_u32(bytes, 4 * i) as u32)
}

/// Decodes a staged density buffer: one sample per four bytes.
pub fn decode_voxels(data: &[u8]) -> (r: Vec<u32>)
    requires
        data@.len() % 4 == 0,
    ensures
        r@ == decoded_voxels(data@),
        r@.len() == data@.len() / 4,
{
    let n = data.len() / 4;
    let mut r: Vec<u32> = Vec::new();
    let mut i: usize = 0;
    while i < n
        invariant
            n == data@.len() / 4,
            data@.len() <= usize::MAX,
            i <= n,
            r@ =~= decoded_voxels(data@).take(i as int),
        decreases n - i,
    {
        proof {
            assert(4 * i + 4 <= data@.len()) by (nonlinear_arith)
                requires
                    i < n,
                    n == data@.len() / 4,
            ;
        }
        let v = read_u32(data, 4 * i);
        r.push(v);
        i += 1;
    }
    assert(decoded_voxels(data@).take(n as int) =~= decoded_voxels(data@));
    r
}

/// A triangle as the backend writes it: the bit patterns of three positions
/// in the chunk's unit cube, and three corner identifiers.
#[derive(Clone, Copy, Debug)]
pub struct RawTriangle {
    pub position_bits: [[u32; 3]; 3],
    pub id: [u64; 3],
}

/// Record `i` of a staged triangle buffer is `t`.
pub open spec fn triangle_record(bytes: Seq<u8>, i: int, t: RawTriangle) -> bool {
    let base = TRIANGLE_HEADER_BYTES + TRIANGLE_BYTES * i;
    &&& forall|k: int, c: int|
        0 <= k < 3 && 0 <= c < 3 ==> (#[trigger] t.position_bits@[k]@[c]) == le_u32(
            bytes,
            base + 16 * k + 4 * c,
        )
    &&& forall|k: int| 0 <= k < 3 ==> (#[trigger] t.id@[k]) == le_u64(bytes, base + 48 + 8 * k)
}

/// The number of triangles that a staged triangle buffer announces.
pub open spec fn triangle_count(bytes: Seq<u8>) -> int {
    le_u32(bytes, 0)
}

fn decode_triangle(data: &[u8], base: usize) -> (r: RawTriangle)
    requires
        base + TRIANGLE_BYTES <= data@.len() <= usize::MAX,
    ensures
        forall|k: int, c: int|
            0 <= k < 3 && 0 <= c < 3 ==> (#[trigger] r.position_bits@[k]@[c]) == le_u32(
                data@,
                base + 16 * k + 4 * c,
            ),
        forall|k: int| 0 <= k < 3 ==> (#[trigger] r.id@[k]) == le_u64(data@, base + 48 + 8 * k),
{
    let corner0 = [read_u32(data, base), read_u32(data, base + 4), read_u32(data, base + 8)];
    let corner1 = [read_u32(data, base + 16), read_u32(data, base + 20), read_u32(data, base + 24)];
    let corner2 = [read_u32(data, base + 32), read_u32(data, base + 36), read_u32(data, base + 40)];
    let id = [read_u64(data, base + 48), read_u64(data, base + 56), read_u64(data, base + 64)];
    let r = RawTriangle { position_bits: [corner0, corner1, corner2], id };
    assert forall|k: int, c: int| 0 <= k < 3 && 0 <= c < 3 implies (
    #[trigger] r.position_bits@[k]@[c]) == le_u32(data@, base + 16 * k + 4 * c) by {
        if k == 0 {
            assert(r.position_bits@[k] == corner0);
        } else if k == 1 {
            assert(r.position_bits@[k] == corner1);
        } else {
            assert(r.position_bits@[k] == corner2);
        }
    }
    r
}

/// Decodes a staged triangle buffer: the count in the first word, then that
/// many records from byte 16 on. `None` when the buffer is too short for the
/// records it announces.
pub fn decode_triangles(data: &[u8]) -> (r: Option<Vec<RawTriangle>>)
    ensures
        data@.len() < 4 ==> r is None,
        data@.len() >= 4 ==> (r is Some <==> triangle_count(data@) == 0
            || TRIANGLE_HEADER_BYTES + TRIANGLE_BYTES * triangle_count(data@) <= data@.len()),
        r matches Some(v) ==> v@.len() == triangle_count(data@) && forall|i: int|
            0 <= i < v@.len() ==> triangle_record(data@, i, #[trigger] v@[i]),
{
    if data.len() < 4 {
        return None;
    }
    let count = read_u32(data, 0);
    let mut r: Vec<RawTriangle> = Vec::new();
    if count == 0 {
        return Some(r);
    }
    let n = count as usize;
    if data.len() < TRIANGLE_HEADER_BYTES || (data.len() - TRIANGLE_HEADER_BYTES) / 80 < n {
        proof {
            if TRIANGLE_HEADER_BYTES <= data@.len() {
                let room = (data@.len() - 16) as int;
                assert(room / 80 < n);
                assert(room < 80 * n) by (nonlinear_arith)
                    requires
                        room / 80 < n,
                        room >= 0,
                ;
            }
        }
        return None;
    }
    proof {
        let room = (data@.len() - 16) as int;
        assert(80 * n <= room) by (nonlinear_arith)
            requires
                room / 80 >= n,
                room >= 0,
        ;
    }
    let mut i: usize = 0;
    while i < n
        invariant
            i <= n,
            n == triangle_count(data@),
            TRIANGLE_HEADER_BYTES + TRIANGLE_BYTES * n <= data@.len() <= usize::MAX,
            r@.len() == i,
            forall|j: int| 0 <= j < i ==> triangle_record(data@, j, #[trigger] r@[j]),
        decreases n - i,
    {
        proof {
            assert(16 + 80 * i + 80 <= 16 + 80 * n) by (nonlinear_arith)
                requires
                    i < n,
            ;
        }
        let t = decode_triangle(data, TRIANGLE_HEADER_BYTES + 80 * i);
        r.push(t);
        i += 1;
    }
    Some(r)
}

/// The identifier of a corner, from the two 32-bit halves the backend writes:
/// the low half first.
pub open spec fn corner_id(lo: u32, hi: u32) -> int {
    lo + 4294967296 * hi
}

/// The low half of an identifier: the linear index of the first voxel of the
/// grid edge the corner lies on.
pub open spec fn id_low(id: u64) -> u32 {
    (id % 0x1_0000_0000) as u32
}

/// The high half of an identifier: the linear index of the second voxel.
pub open spec fn id_high(id: u64) -> u32 {
    (id / 0x1_0000_0000) as u32
}

/// Splits an identifier into its two voxel indices.
pub fn split_id(id: u64) -> (r: (u32, u32))
    ensures
        r.0 == id_low(id),
        r.1 == id_high(id),
        corner_id(r.0, r.1) == id,
{
    ((id % 0x1_0000_0000) as u32, (id / 0x1_0000_0000) as u32)
}

/// One chunk of terrain: its key's bounds and level, its density grid, and
/// the backend buffers `B` it holds (device buffers and their staging copies
/// for read-back).
pub struct Chunk<B> {
    bounds: Box3,
    level: u32,
    voxel_count: Size3,
    staging_voxel_buffer: Option<B>,
    voxel_buffer: Option<B>,
    staging_triangle_buffer: Option<B>,
    triangle_buffer: Option<B>,
}

impl<B> Chunk<B> {
    pub closed spec fn bounds_of(&self) -> Box3 {
        self.bounds
    }

    pub closed spec fn level_of(&self) -> u32 {
        self.level
    }

    pub closed spec fn grid(&self) -> Size3 {
        self.voxel_count
    }

    pub closed spec fn voxels(&self) -> Option<B> {
        self.voxel_buffer
    }

    pub closed spec fn staged_voxels(&self) -> Option<B> {
        self.staging_voxel_buffer
    }

    pub closed spec fn triangles(&self) -> Option<B> {
        self.triangle_buffer
    }

    pub closed spec fn staged_triangles(&self) -> Option<B> {
        self.staging_triangle_buffer
    }

    /// A chunk with no buffers yet.
    pub fn new(bounds: Box3, level: u32, voxel_count: Size3) -> (r: Chunk<B>)
        ensures
            r.bounds_of() == bounds,
            r.level_of() == level,
            r.grid() == voxel_count,
            r.voxels() is None && r.staged_voxels() is None,
            r.triangles() is None && r.staged_triangles() is None,
    {
        Chunk {
            bounds,
            level,
            voxel_count,
            voxel_buffer: None,
            staging_voxel_buffer: None,
            triangle_buffer: None,
            staging_triangle_buffer: None,
        }
    }

    /// Samples in the density grid.
    pub fn total_voxel_count(&self) -> (r: u32)
        requires
            self.grid().fits(),
        ensures
            r == self.grid().volume(),
    {
        let s = self.voxel_count;
        proof {
            assert(s.width * s.height <= s.width * s.height * s.depth) by (nonlinear_arith)
                requires
                    s.depth >= 1,
                    s.width >= 1,
                    s.height >= 1,
            ;
        }
        s.width * s.height * s.depth
    }

    /// Cells of the density grid: one fewer than the samples along each axis.
    pub fn total_cell_count(&self) -> (r: u32)
        requires
            self.grid().fits(),
        ensures
            r == self.grid().cells(),
    {
        let s = self.voxel_count;
        proof {
            let (a, b, c) = ((s.width - 1) as int, (s.height - 1) as int, (s.depth - 1) as int);
            assert(0 <= a * b <= a * b * c <= s.width * s.height * s.depth || c == 0) by (nonlinear_arith)
                requires
                    a >= 0,
                    b >= 0,
                    c >= 0,
                    a < s.width,
                    b < s.height,
                    c < s.depth,
            ;
            assert(0 <= a * b <= s.width * s.height) by (nonlinear_arith)
                requires
                    a >= 0,
                    b >= 0,
                    a < s.width,
                    b < s.height,
            ;
            assert(s.width * s.height <= s.width * s.height * s.depth) by (nonlinear_arith)
                requires
                    s.depth >= 1,
            ;
            assert(a * b * c <= s.width * s.height * s.depth) by (nonlinear_arith)
                requires
                    a >= 0,
                    b >= 0,
                    c >= 0,
                    a < s.width,
                    b < s.height,
                    c < s.depth,
            ;
        }
        (s.width - 1) * (s.height - 1) * (s.depth - 1)
    }

    /// Bytes of the density buffer.
    pub fn voxel_buffer_size(&self) -> (r: u64)
        requires
            self.grid().fits(),
        ensures
            r == voxel_buffer_bytes(self.grid()),
    {
        self.total_voxel_count() as u64 * VOXEL_BYTES
    }

    /// Bytes of the triangle buffer.
    pub fn triangle_buffer_size(&self) -> (r: u64)
        requires
            self.grid().fits(),
        ensures
            r == triangle_buffer_bytes(self.grid()),
    {
        8 + self.total_cell_count() as u64 * TRIANGLES_PER_CELL * TRIANGLE_BYTES
    }

    /// Workgroups to dispatch along each axis: the samples divided by the
    /// workgroup size, rounded up.
    pub fn workgroup_counts(&self) -> (r: (u32, u32, u32))
        requires
            self.grid().fits(),
        ensures
            r.0 == (self.grid().width + 7) / 8,
            r.1 == (self.grid().height + 7) / 8,
            r.2 == (self.grid().depth + 7) / 8,
    {
        let s = self.voxel_count;
        proof {
            assert(s.width <= s.width * s.height * s.depth) by (nonlinear_arith)
                requires
                    s.height >= 1,
                    s.depth >= 1,
                    s.width >= 1,
            ;
            assert(s.height <= s.width * s.height * s.depth) by (nonlinear_arith)
                requires
                    s.height >= 1,
                    s.depth >= 1,
                    s.width >= 1,
            ;
            assert(s.depth <= s.width * s.height * s.depth) by (nonlinear_arith)
                requires
                    s.height >= 1,
                    s.depth >= 1,
                    s.width >= 1,
            ;
        }
        (
            (s.width + (SHADER_WORKGROUP_SIZE - 1)) / SHADER_WORKGROUP_SIZE,
            (s.height + (SHADER_WORKGROUP_SIZE - 1)) / SHADER_WORKGROUP_SIZE,
            (s.depth + (SHADER_WORKGROUP_SIZE - 1)) / SHADER_WORKGROUP_SIZE,
        )
    }

    /// Records the density buffer the backend filled, and its staging copy
    /// when one was made.
    pub fn set_voxel_buffers(&mut self, buffer: B, staging: Option<B>)
        ensures
            final(self).voxels() == Some(buffer),
            final(self).staged_voxels() == staging,
            final(self).triangles() == old(self).triangles(),
            final(self).staged_triangles() == old(self).staged_triangles(),
            final(self).bounds_of() == old(self).bounds_of(),
            final(self).level_of() == old(self).level_of(),
            final(self).grid() == old(self).grid(),
    {
        self.voxel_buffer = Some(buffer);
        self.staging_voxel_buffer = staging;
    }

    /// Records the triangle buffer the backend filled, and its staging copy
    /// when one was made.
    pub fn set_triangle_buffers(&mut self, buffer: B, staging: Option<B>)
        ensures
            final(self).triangles() == Some(buffer),
            final(self).staged_triangles() == staging,
            final(self).voxels() == old(self).voxels(),
            final(self).staged_voxels() == old(self).staged_voxels(),
            final(self).bounds_of() == old(self).bounds_of(),
            final(self).level_of() == old(self).level_of(),
            final(self).grid() == old(self).grid(),
    {
        self.triangle_buffer = Some(buffer);
        self.staging_triangle_buffer = staging;
    }

    /// Drops the triangle buffer; the density samples are kept.
    pub fn clear_triangle_buffer(&mut self)
        ensures
            final(self).triangles() is None,
            final(self).staged_triangles() == old(self).staged_triangles(),
            final(self).voxels() == old(self).voxels(),
            final(self).staged_voxels() == old(self).staged_voxels(),
            final(self).bounds_of() == old(self).bounds_of(),
            final(self).level_of() == old(self).level_of(),
            final(self).grid() == old(self).grid(),
    {
        self.triangle_buffer = None;
    }

    pub fn bounds(&self) -> (r: Box3)
        ensures
            r == self.bounds_of(),
    {
        self.bounds
    }

    pub fn level(&self) -> (r: u32)
        ensures
            r == self.level_of(),
    {
        self.level
    }

    pub fn voxel_count(&self) -> (r: Size3)
        ensures
            r == self.grid(),
    {
        self.voxel_count
    }

    pub fn voxel_buffer(&self) -> (r: Option<&B>)
        ensures
            match r {
                Some(b) => self.voxels() == Some(*b),
                None => self.voxels() is None,
            },
    {
        match &self.voxel_buffer {
            Some(b) => Some(b),
            None => None,
        }
    }

    pub fn staging_voxel_buffer(&self) -> (r: Option<&B>)
        ensures
            match r {
                Some(b) => self.staged_voxels() == Some(*b),
                None => self.staged_voxels() is None,
            },
    {
        match &self.staging_voxel_buffer {
            Some(b) => Some(b),
            None => None,
        }
    }

    pub fn triangle_buffer(&self) -> (r: Option<&B>)
        ensures
            match r {
                Some(b) => self.triangles() == Some(*b),
                None => self.triangles() is None,
            },
    {
        match &self.triangle_buffer {
            Some(b) => Some(b),
            None => None,
        }
    }

    pub fn staging_triangle_buffer(&self) -> (r: Option<&B>)
        ensures
            match r {
                Some(b) => self.staged_triangles() == Some(*b),
                None => self.staged_triangles() is None,
            },
    {
        match &self.staging_triangle_buffer {
            Some(b) => Some(b),
            None => None,
        }
    }
}

/// A staged density buffer of a chunk's size decodes to exactly one sample
/// per voxel of its grid.
pub proof fn lemma_staged_voxels_round_trip(grid: Size3, bytes: Seq<u8>)
    requires
        grid.fits(),
        bytes.len() == voxel_buffer_bytes(grid),
    ensures
        decoded_voxels(bytes).len() == grid.width * grid.height * grid.depth,
{
}

} // verus!
