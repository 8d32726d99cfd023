//! World-space primitives: integer points and boxes, and convex-ish polygon
//! regions with their intersection predicates.
use vstd::prelude::*;

verus! {

/// Marker for world-space coordinates.
#[derive(Debug)]
pub struct WorldSpace;

/// Marker for camera view-space coordinates.
#[derive(Debug)]
pub struct ViewSpace;

/// Marker for screen-space coordinates.
#[derive(Debug)]
pub struct ScreenSpace;

/// Marker for chunk-local unit-cube coordinates.
#[derive(Debug)]
pub struct LocalSpace;

/// Marker for the debug visualizer's canvas coordinates.
#[derive(Debug)]
pub struct TerrainVisualizerSpace;

/// Largest absolute world coordinate that a region may use: one tile's room
/// from the limits of `i32`, so that rounding out to whole tiles stays within
/// `i32`.
pub const WORLD_LIMIT: i32 = 0x7FFF_FEFF;

/// A world-space point with integer coordinates.
#[derive(Clone, Copy, Debug, PartialEq, Eq, Structural, Hash)]
pub struct Point2 {
    pub x: i32,
    pub y: i32,
}

/// An axis-aligned 2D box given by its minimum and maximum corners.
#[derive(Clone, Copy, Debug, PartialEq, Eq, Structural, Hash)]
pub struct Box2 {
    pub min: Point2,
    pub max: Point2,
}

/// A world-space 3D point with integer coordinates.
#[derive(Clone, Copy, Debug, PartialEq, Eq, Structural, Hash)]
pub struct Point3 {
    pub x: i32,
    pub y: i32,
    pub z: i32,
}

/// An axis-aligned 3D box given by its minimum and maximum corners.
#[derive(Clone, Copy, Debug, PartialEq, Eq, Structural, Hash)]
pub struct Box3 {
    pub min: Point3,
    pub max: Point3,
}

/// Identifies one unit of terrain at one resolution: a tree cell's bounds and
/// its level. Keys both the chunk cache and the mesh cache.
#[derive(Clone, Copy, Debug, PartialEq, Eq, Structural, Hash)]
pub struct ChunkCacheKey {
    pub bounds: Box3,
    pub level: u32,
}

pub open spec fn point2(x: i32, y: i32) -> Point2 {
    Point2 { x, y }
}

impl Point2 {
    pub fn new(x: i32, y: i32) -> (r: Point2)
        ensures
            r == point2(x, y),
    {
        Point2 { x, y }
    }
}

impl Box2 {
    /// A box is empty when it has no positive extent along some axis.
    pub open spec fn spec_is_empty(self) -> bool {
        !(self.max.x > self.min.x && self.max.y > self.min.y)
    }

    /// `other` lies inside `self` (an empty box lies inside every box).
    pub open spec fn spec_contains_box(self, other: Box2) -> bool {
        other.spec_is_empty() || (self.min.x <= other.min.x && other.max.x <= self.max.x
            && self.min.y <= other.min.y && other.max.y <= self.max.y)
    }

    pub fn new(min: Point2, max: Point2) -> (r: Box2)
        ensures
            r.min == min,
            r.max == max,
    {
        Box2 { min, max }
    }

    pub fn is_empty(&self) -> (r: bool)
        ensures
            r == self.spec_is_empty(),
    {
        !(self.max.x > self.min.x && self.max.y > self.min.y)
    }

    pub fn contains_box(&self, other: &Box2) -> (r: bool)
        ensures
            r == self.spec_contains_box(*other),
    {
        other.is_empty() || (self.min.x <= other.min.x && other.max.x <= self.max.x
            && self.min.y <= other.min.y && other.max.y <= self.max.y)
    }
}

impl Box3 {
    /// The 2D footprint of the box.
    pub open spec fn spec_xy(self) -> Box2 {
        Box2 { min: point2(self.min.x, self.min.y), max: point2(self.max.x, self.max.y) }
    }

    pub fn xy(&self) -> (r: Box2)
        ensures
            r == self.spec_xy(),
    {
        Box2 {
            min: Point2 { x: self.min.x, y: self.min.y },
            max: Point2 { x: self.max.x, y: self.max.y },
        }
    }
}

/// The smallest box holding every point of `s`; the zero box when `s` is empty.
pub open spec fn bounding_box(s: Seq<Point2>) -> Box2
    decreases s.len(),
{
    if s.len() == 0 {
        Box2 { min: point2(0, 0), max: point2(0, 0) }
    } else if s.len() == 1 {
        Box2 { min: s[0], max: s[0] }
    } else {
        let b = bounding_box(s.drop_last());
        let p = s.last();
        Box2 {
            min: point2(
                if p.x < b.min.x { p.x } else { b.min.x },
                if p.y < b.min.y { p.y } else { b.min.y },
            ),
            max: point2(
                if p.x > b.max.x { p.x } else { b.max.x },
                if p.y > b.max.y { p.y } else { b.max.y },
            ),
        }
    }
}

/// Twice the signed area of the triangle `(o, a, p)`: positive when `p` lies
/// on one side of the line through `o` and `a`, negative on the other.
pub open spec fn cross(o: Point2, a: Point2, p: Point2) -> int {
    (p.x - o.x) * (a.y - o.y) - (p.y - o.y) * (a.x - o.x)
}

/// Strict counter-clockwise orientation of `a`, `b`, `c`.
pub open spec fn ccw(a: Point2, b: Point2, c: Point2) -> bool {
    (c.y - a.y) * (b.x - a.x) > (b.y - a.y) * (c.x - a.x)
}

/// Segment `ab` crosses segment `cd` (collinear overlaps are not detected).
pub open spec fn segments_cross(a: Point2, b: Point2, c: Point2, d: Point2) -> bool {
    ccw(a, c, d) != ccw(b, c, d) && ccw(a, b, c) != ccw(a, b, d)
}

/// The edge of polygon `s` that starts at vertex `i` ends at this vertex.
pub open spec fn next_vertex(s: Seq<Point2>, i: int) -> Point2 {
    s[(i + 1) % (s.len() as int)]
}

/// Some edge among the first `k` lies with `p` strictly on its positive side.
pub open spec fn sees_positive(s: Seq<Point2>, p: Point2, k: int) -> bool {
    exists|i: int| 0 <= i < k && #[trigger] cross(s[i], next_vertex(s, i), p) > 0
}

/// Some edge among the first `k` lies with `p` strictly on its negative side.
pub open spec fn sees_negative(s: Seq<Point2>, p: Point2, k: int) -> bool {
    exists|i: int| 0 <= i < k && #[trigger] cross(s[i], next_vertex(s, i), p) < 0
}

/// `p` lies on both sides of the first `k` edges of `s`.
pub open spec fn sides_mixed(s: Seq<Point2>, p: Point2, k: int) -> bool {
    sees_positive(s, p, k) && sees_negative(s, p, k)
}

/// The same-side containment test of a polygon: `p` is inside when it is not
/// on both sides of the edges, or when it is met as a vertex before the edges
/// walked so far put it on both sides.
pub open spec fn polygon_contains(s: Seq<Point2>, p: Point2) -> bool {
    s.len() >= 3 && (!sides_mixed(s, p, s.len() as int) || exists|h: int|
        0 <= h < s.len() && s[h] == p && !sides_mixed(s, p, h))
}

/// Segment `ab` touches polygon `s`: an endpoint is a vertex, or it crosses an edge.
pub open spec fn polygon_meets_segment(s: Seq<Point2>, a: Point2, b: Point2) -> bool {
    s.len() >= 3 && exists|i: int|
        0 <= i < s.len() && (s[i] == a || s[i] == b || segments_cross(
            a,
            b,
            s[i],
            next_vertex(s, i),
        ))
}

/// All four corners of `bx` are inside polygon `s`.
pub open spec fn polygon_contains_box(s: Seq<Point2>, bx: Box2) -> bool {
    polygon_contains(s, point2(bx.min.x, bx.min.y)) && polygon_contains(
        s,
        point2(bx.min.x, bx.max.y),
    ) && polygon_contains(s, point2(bx.max.x, bx.min.y)) && polygon_contains(
        s,
        point2(bx.max.x, bx.max.y),
    )
}

/// Polygon `s` and box `bx` overlap: a box edge meets the polygon, or one
/// holds the other.
pub open spec fn polygon_meets_box(s: Seq<Point2>, bx: Box2) -> bool {
    let a = point2(bx.min.x, bx.min.y);
    let b = point2(bx.max.x, bx.min.y);
    let c = point2(bx.max.x, bx.max.y);
    let d = point2(bx.min.x, bx.max.y);
    polygon_meets_segment(s, a, b) || polygon_meets_segment(s, b, c) || polygon_meets_segment(
        s,
        c,
        d,
    ) || polygon_meets_segment(s, d, a) || bx.spec_contains_box(bounding_box(s))
        || polygon_contains_box(s, bx)
}

proof fn lemma_mul_bound(a: int, b: int)
    requires
        -0x1_0000_0000 <= a <= 0x1_0000_0000,
        -0x1_0000_0000 <= b <= 0x1_0000_0000,
    ensures
        -0x1_0000_0000_0000_0000 <= a * b <= 0x1_0000_0000_0000_0000,
{
    assert(-0x1_0000_0000_0000_0000 <= a * b <= 0x1_0000_0000_0000_0000) by (nonlinear_arith)
        requires
            -0x1_0000_0000 <= a <= 0x1_0000_0000,
            -0x1_0000_0000 <= b <= 0x1_0000_0000,
    ;
}

/// `ax * by - ay * bx` for differences of two `i32` coordinates, exactly.
fn det(ax: i128, ay: i128, bx: i128, by: i128) -> (r: i128)
    requires
        -0x1_0000_0000 <= ax <= 0x1_0000_0000,
        -0x1_0000_0000 <= ay <= 0x1_0000_0000,
        -0x1_0000_0000 <= bx <= 0x1_0000_0000,
        -0x1_0000_0000 <= by <= 0x1_0000_0000,
    ensures
        r == ax * by - ay * bx,
{
    proof {
        lemma_mul_bound(ax as int, by as int);
        lemma_mul_bound(ay as int, bx as int);
    }
    ax * by - ay * bx
}

fn cross_exec(o: &Point2, a: &Point2, p: &Point2) -> (r: i128)
    ensures
        r == cross(*o, *a, *p),
{
    det(
        p.x as i128 - o.x as i128,
        p.y as i128 - o.y as i128,
        a.x as i128 - o.x as i128,
        a.y as i128 - o.y as i128,
    )
}

fn ccw_exec(a: &Point2, b: &Point2, c: &Point2) -> (r: bool)
    ensures
        r == ccw(*a, *b, *c),
{
    // (c - a) x (b - a) compared with zero, as two products
    let cy = c.y as i128 - a.y as i128;
    let bx = b.x as i128 - a.x as i128;
    let by = b.y as i128 - a.y as i128;
    let cx = c.x as i128 - a.x as i128;
    proof {
        lemma_mul_bound(cy as int, bx as int);
        lemma_mul_bound(by as int, cx as int);
    }
    cy * bx > by * cx
}

/// Whether segment `ab` crosses segment `cd`; collinear overlaps are not detected.
fn line_intersects(a: &Point2, b: &Point2, c: &Point2, d: &Point2) -> (r: bool)
    ensures
        r == segments_cross(*a, *b, *c, *d),
{
    (ccw_exec(a, c, d) != ccw_exec(b, c, d)) && (ccw_exec(a, b, c) != ccw_exec(a, b, d))
}

/// An immutable world-space polygon, given by its vertices in order.
#[derive(Clone, Debug)]
pub struct Region {
    points: Vec<Point2>,
}

impl View for Region {
    type V = Seq<Point2>;

    closed spec fn view(&self) -> Seq<Point2> {
        self.points@
    }
}

impl Region {
    pub fn new(points: Vec<Point2>) -> (r: Region)
        ensures
            r@ == points@,
    {
        Region { points }
    }

    /// Every vertex lies within the world's coordinate limits.
    pub open spec fn in_world(&self) -> bool {
        forall|i: int|
            0 <= i < self@.len() ==> -WORLD_LIMIT <= (#[trigger] self@[i]).x <= WORLD_LIMIT
                && -WORLD_LIMIT <= self@[i].y <= WORLD_LIMIT
    }

    pub fn is_in_world(&self) -> (r: bool)
        ensures
            r == self.in_world(),
    {
        let mut i: usize = 0;
        while i < self.points.len()
            invariant
                i <= self@.len(),
                forall|j: int|
                    0 <= j < i ==> -WORLD_LIMIT <= (#[trigger] self@[j]).x <= WORLD_LIMIT
                        && -WORLD_LIMIT <= self@[j].y <= WORLD_LIMIT,
            decreases self@.len() - i,
        {
            let p = self.points[i];
            if !(-WORLD_LIMIT <= p.x && p.x <= WORLD_LIMIT && -WORLD_LIMIT <= p.y && p.y
                <= WORLD_LIMIT) {
                return false;
            }
            i += 1;
        }
        true
    }

    /// Same-side containment: true on a vertex met before the edges disagree,
    /// false as soon as `point` has been seen on both sides of the edges.
    pub fn contains_point(&self, point: &Point2) -> (r: bool)
        ensures
            r == polygon_contains(self@, *point),
    {
        let n = self.points.len();
        if n < 3 {
            return false;
        }
        let ghost s = self@;
        let mut pos = false;
        let mut neg = false;
        let mut i: usize = 0;
        while i < n
            invariant
                n == s.len(),
                s == self@,
                n >= 3,
                i <= n,
                pos == sees_positive(s, *point, i as int),
                neg == sees_negative(s, *point, i as int),
                !(pos && neg),
                forall|j: int| 0 <= j < i ==> s[j] != *point,
            decreases n - i,
        {
            if self.points[i] == *point {
                assert(!sides_mixed(s, *point, i as int));
                return true;
            }
            let i2 = (i + 1) % n;
            let d = cross_exec(&self.points[i], &self.points[i2], point);
            assert(self.points[i2 as int] == next_vertex(s, i as int));
            if d > 0 {
                pos = true;
            }
            if d < 0 {
                neg = true;
            }
            assert(pos == sees_positive(s, *point, i + 1)) by {
                if cross(s[i as int], next_vertex(s, i as int), *point) > 0 {
                    assert(sees_positive(s, *point, i + 1));
                }
                if sees_positive(s, *point, i + 1) {
                    let w = choose|w: int|
                        0 <= w < i + 1 && #[trigger] cross(s[w], next_vertex(s, w), *point) > 0;
                    if w < i {
                        assert(sees_positive(s, *point, i as int));
                    }
                }
            }
            assert(neg == sees_negative(s, *point, i + 1)) by {
                if cross(s[i as int], next_vertex(s, i as int), *point) < 0 {
                    assert(sees_negative(s, *point, i + 1));
                }
                if sees_negative(s, *point, i + 1) {
                    let w = choose|w: int|
                        0 <= w < i + 1 && #[trigger] cross(s[w], next_vertex(s, w), *point) < 0;
                    if w < i {
                        assert(sees_negative(s, *point, i as int));
                    }
                }
            }
            if pos && neg {
                proof {
                    lemma_mixed_grows(s, *point, i + 1, n as int);
                    assert forall|h: int| 0 <= h < n && s[h] == *point implies sides_mixed(
                        s,
                        *point,
                        h,
                    ) by {
                        lemma_mixed_grows(s, *point, i + 1, h);
                    }
                }
                return false;
            }
            i += 1;
        }
        true
    }

    /// Segment `ab` meets the polygon: an endpoint is a vertex, or it crosses
    /// an edge (strict orientation test).
    pub fn intersects_line(&self, a: &Point2, b: &Point2) -> (r: bool)
        ensures
            r == polygon_meets_segment(self@, *a, *b),
    {
        let n = self.points.len();
        if n < 3 {
            return false;
        }
        let mut i: usize = 0;
        while i < n
            invariant
                n == self@.len(),
                n >= 3,
                i <= n,
                forall|j: int|
                    0 <= j < i ==> !(self@[j] == *a || self@[j] == *b || segments_cross(
                        *a,
                        *b,
                        #[trigger] self@[j],
                        next_vertex(self@, j),
                    )),
            decreases n - i,
        {
            if self.points[i] == *a || self.points[i] == *b {
                return true;
            }
            let i2 = (i + 1) % n;
            assert(self.points[i2 as int] == next_vertex(self@, i as int));
            if line_intersects(a, b, &self.points[i], &self.points[i2]) {
                return true;
            }
            i += 1;
        }
        false
    }

    /// The smallest box holding every vertex.
    pub fn bounding_box(&self) -> (r: Box2)
        ensures
            r == bounding_box(self@),
    {
        let n = self.points.len();
        if n == 0 {
            return Box2 { min: Point2 { x: 0, y: 0 }, max: Point2 { x: 0, y: 0 } };
        }
        let first = self.points[0];
        let mut min_x = first.x;
        let mut min_y = first.y;
        let mut max_x = first.x;
        let mut max_y = first.y;
        let mut i: usize = 1;
        assert(self@.take(1).drop_last() =~= Seq::<Point2>::empty());
        while i < n
            invariant
                n == self@.len(),
                1 <= i <= n,
                bounding_box(self@.take(i as int)) == (Box2 {
                    min: point2(min_x, min_y),
                    max: point2(max_x, max_y),
                }),
            decreases n - i,
        {
            let p = self.points[i];
            assert(self@.take(i + 1).drop_last() =~= self@.take(i as int));
            if p.x < min_x {
                min_x = p.x;
            }
            if p.x > max_x {
                max_x = p.x;
            }
            if p.y < min_y {
                min_y = p.y;
            }
            if p.y > max_y {
                max_y = p.y;
            }
            i += 1;
        }
        assert(self@.take(n as int) =~= self@);
        Box2 { min: Point2 { x: min_x, y: min_y }, max: Point2 { x: max_x, y: max_y } }
    }

    /// All four corners of the box are inside the polygon.
    pub fn contains_box(&self, other: &Box2) -> (r: bool)
        ensures
            r == polygon_contains_box(self@, *other),
    {
        self.contains_point(&Point2 { x: other.min.x, y: other.min.y }) && self.contains_point(
            &Point2 { x: other.min.x, y: other.max.y },
        ) && self.contains_point(&Point2 { x: other.max.x, y: other.min.y })
            && self.contains_point(&Point2 { x: other.max.x, y: other.max.y })
    }

    /// The polygon and the box overlap: one of the box's edges meets the
    /// polygon, the box holds the polygon's bounding box, or the polygon holds
    /// the box.
    pub fn intersects_box(&self, other: &Box2) -> (r: bool)
        ensures
            r == polygon_meets_box(self@, *other),
    {
        let bounding_box = self.bounding_box();
        let a = Point2 { x: other.min.x, y: other.min.y };
        let b = Point2 { x: other.max.x, y: other.min.y };
        let c = Point2 { x: other.max.x, y: other.max.y };
        let d = Point2 { x: other.min.x, y: other.max.y };
        self.intersects_line(&a, &b) || self.intersects_line(&b, &c) || self.intersects_line(
            &c,
            &d,
        ) || self.intersects_line(&d, &a) || other.contains_box(&bounding_box)
            || self.contains_box(other)
    }

    /// A copy of the region.
    pub fn duplicate(&self) -> (r: Region)
        ensures
            r@ == self@,
    {
        let mut points: Vec<Point2> = Vec::new();
        let mut i: usize = 0;
        while i < self.points.len()
            invariant
                i <= self@.len(),
                points@ == self@.take(i as int),
            decreases self@.len() - i,
        {
            points.push(self.points[i]);
            i += 1;
            assert(points@ =~= self@.take(i as int));
        }
        assert(self@.take(self@.len() as int) =~= self@);
        Region { points }
    }

    /// The vertices, in order.
    pub fn points(&self) -> (r: &Vec<Point2>)
        ensures
            r@ == self@,
    {
        &self.points
    }
}

proof fn lemma_mixed_grows(s: Seq<Point2>, p: Point2, k: int, m: int)
    requires
        sides_mixed(s, p, k),
        k <= m,
    ensures
        sides_mixed(s, p, m),
{
    let a = choose|i: int| 0 <= i < k && #[trigger] cross(s[i], next_vertex(s, i), p) > 0;
    let b = choose|i: int| 0 <= i < k && #[trigger] cross(s[i], next_vertex(s, i), p) < 0;
    assert(sees_positive(s, p, m));
    assert(sees_negative(s, p, m));
}

/// A vertex of a polygon of at least three points is inside it, whenever the
/// edges walked before that vertex do not place it on both of their sides (as
/// holds for every vertex of a convex polygon).
pub proof fn lemma_vertex_is_contained(r: Region, h: int)
    requires
        r@.len() >= 3,
        0 <= h < r@.len(),
        !sides_mixed(r@, r@[h], h),
    ensures
        polygon_contains(r@, r@[h]),
{
}

/// Every vertex of `s` lies on the same closed side of every edge: the
/// polygon is convex.
pub open spec fn is_convex(s: Seq<Point2>) -> bool {
    (forall|i: int, j: int|
        0 <= i < s.len() && 0 <= j < s.len() ==> #[trigger] cross(s[i], next_vertex(s, i), s[j])
            >= 0) || (forall|i: int, j: int|
        0 <= i < s.len() && 0 <= j < s.len() ==> #[trigger] cross(s[i], next_vertex(s, i), s[j])
            <= 0)
}

/// Every vertex of a convex polygon of at least three points is inside it.
pub proof fn lemma_convex_polygon_contains_vertices(r: Region, h: int)
    requires
        r@.len() >= 3,
        0 <= h < r@.len(),
        is_convex(r@),
    ensures
        polygon_contains(r@, r@[h]),
{
    let s = r@;
    let p = s[h];
    if sides_mixed(s, p, h) {
        let a = choose|i: int| 0 <= i < h && #[trigger] cross(s[i], next_vertex(s, i), p) > 0;
        let b = choose|i: int| 0 <= i < h && #[trigger] cross(s[i], next_vertex(s, i), p) < 0;
        assert(cross(s[a], next_vertex(s, a), s[h]) > 0);
        assert(cross(s[b], next_vertex(s, b), s[h]) < 0);
    }
    lemma_vertex_is_contained(r, h);
}

} // verus!
