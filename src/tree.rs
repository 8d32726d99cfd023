//! The quadtree level-of-detail index: one tree per root tile, with
//! two-phase edits (mark, then rebuild) and region-filtered leaf walks.
use crate::base::{
    bounding_box, polygon_meets_box, Box2, Box3, ChunkCacheKey, Point2, Point3, Region,
    WORLD_LIMIT,
};
use vstd::prelude::*;

verus! {

/// Deepest level of subdivision.
pub const MAX_LEVEL: u32 = 8;

/// Side of a root tile (level 0): `2^MAX_LEVEL`.
pub const ROOT_LEVEL_SIZE: i32 = 256;

/// Fixed vertical extent of every cell.
pub const MIN_Z: i32 = -1;

pub const MAX_Z: i32 = 1;

/// Side of a cell at `level`: the root tile's side halved once per level.
pub open spec fn side(level: int) -> int {
    if level <= 0 {
        256
    } else if level == 1 {
        128
    } else if level == 2 {
        64
    } else if level == 3 {
        32
    } else if level == 4 {
        16
    } else if level == 5 {
        8
    } else if level == 6 {
        4
    } else if level == 7 {
        2
    } else {
        1
    }
}

/// `bounds` is a square cell of the side that `level` gives, with the fixed
/// vertical extent, inside the world's limits.
pub open spec fn cell_ok(bounds: Box3, level: u32) -> bool {
    &&& level <= MAX_LEVEL
    &&& bounds.max.x - bounds.min.x == side(level as int)
    &&& bounds.max.y - bounds.min.y == side(level as int)
    &&& bounds.min.z == MIN_Z
    &&& bounds.max.z == MAX_Z
    &&& -WORLD_LIMIT - ROOT_LEVEL_SIZE <= bounds.min.x
    &&& -WORLD_LIMIT - ROOT_LEVEL_SIZE <= bounds.min.y
    &&& bounds.max.x <= WORLD_LIMIT + ROOT_LEVEL_SIZE
    &&& bounds.max.y <= WORLD_LIMIT + ROOT_LEVEL_SIZE
}

/// Quadrant `i` of `b` in the order top-left, top-right, bottom-left,
/// bottom-right, split at the 2D center; the vertical extent is kept.
pub open spec fn quadrant(b: Box3, i: int) -> Box3 {
    let cx = (b.min.x + (b.max.x - b.min.x) / 2) as i32;
    let cy = (b.min.y + (b.max.y - b.min.y) / 2) as i32;
    if i == 0 {
        Box3 { min: b.min, max: Point3 { x: cx, y: cy, z: b.max.z } }
    } else if i == 1 {
        Box3 {
            min: Point3 { x: cx, y: b.min.y, z: b.min.z },
            max: Point3 { x: b.max.x, y: cy, z: b.max.z },
        }
    } else if i == 2 {
        Box3 {
            min: Point3 { x: b.min.x, y: cy, z: b.min.z },
            max: Point3 { x: cx, y: b.max.y, z: b.max.z },
        }
    } else {
        Box3 { min: Point3 { x: cx, y: cy, z: b.min.z }, max: b.max }
    }
}

/// Some region of `regions` overlaps the 2D footprint of `b`.
#[verifier::opaque]
pub open spec fn meets_any(regions: Seq<Region>, b: Box3) -> bool {
    exists|i: int| 0 <= i < regions.len() && polygon_meets_box(#[trigger] regions[i]@, b.spec_xy())
}

/// `new` is the node that `set_level_in_region(region, target)` makes of a
/// node with the given cell, children and demotion mark. A node that the
/// region misses is unchanged; one at or past the target level is marked for
/// demotion; a coarser one gets children if it had none (fresh leaves), loses
/// its mark, and the update goes on in each child.
pub open spec fn set_level_result(
    bounds: Box3,
    level: u32,
    children: Option<Seq<Node>>,
    marked: bool,
    new: Node,
    region: Seq<crate::base::Point2>,
    target: u32,
) -> bool
    decreases MAX_LEVEL - level,
{
    &&& new.bounds_of() == bounds
    &&& new.level_of() == level
    &&& if !polygon_meets_box(region, bounds.spec_xy()) {
        new.children() == children && new.marked() == marked
    } else if level >= target {
        new.children() == children && new.marked()
    } else {
        &&& !new.marked()
        &&& level < MAX_LEVEL
        &&& new.children() matches Some(nc)
        &&& nc.len() == 4
        &&& forall|i: int|
            0 <= i < 4 ==> set_level_result(
                quadrant(bounds, i),
                (level + 1) as u32,
                match children {
                    Some(c) => c[i].children(),
                    None => None,
                },
                match children {
                    Some(c) => c[i].marked(),
                    None => false,
                },
                #[trigger] nc[i],
                region,
                target,
            )
    }
}

/// `new` is what `rebuild_tree` makes of `old`: a marked node loses its
/// children and its mark; an unmarked one keeps its shape and each child is
/// rebuilt.
pub open spec fn rebuild_result(old: Node, new: Node) -> bool
    decreases MAX_LEVEL - old.level_of(),
{
    &&& new.bounds_of() == old.bounds_of()
    &&& new.level_of() == old.level_of()
    &&& !new.marked()
    &&& if old.marked() {
        new.children() is None
    } else {
        match old.children() {
            None => new.children() is None,
            Some(c) => {
                &&& old.level_of() < MAX_LEVEL
                &&& new.children() matches Some(nc)
                &&& nc.len() == c.len()
                &&& forall|i: int|
                    0 <= i < c.len() ==> (#[trigger] c[i]).level_of() == old.level_of() + 1
                        ==> rebuild_result(c[i], nc[i])
            },
        }
    }
}

/// No node of the subtree is marked for demotion.
pub open spec fn settled(n: Node) -> bool
    decreases MAX_LEVEL - n.level_of(),
{
    &&& !n.marked()
    &&& match n.children() {
        None => true,
        Some(c) => n.level_of() < MAX_LEVEL && forall|i: int|
            0 <= i < c.len() ==> (#[trigger] c[i]).level_of() == n.level_of() + 1 ==> settled(
                c[i],
            ),
    }
}

/// One node of a root tile's quadtree.
pub struct Node {
    bounds: Box3,
    sub_nodes: Option<Vec<Node>>,
    level: u32,
    remove_sub_nodes: bool,
}

impl Node {
    pub closed spec fn bounds_of(self) -> Box3 {
        self.bounds
    }

    pub closed spec fn level_of(self) -> u32 {
        self.level
    }

    /// The children, when the node has any.
    pub closed spec fn children(self) -> Option<Seq<Node>> {
        match self.sub_nodes {
            Some(v) => Some(v@),
            None => None,
        }
    }

    /// The node is marked for demotion to a leaf at the next rebuild.
    pub closed spec fn marked(self) -> bool {
        self.remove_sub_nodes
    }

    /// The node's cell is well formed, and it has no children or exactly four,
    /// one level deeper, on its four quadrants, each well formed in turn.
    pub open spec fn wf(self) -> bool
        decreases MAX_LEVEL - self.level_of(),
    {
        &&& cell_ok(self.bounds_of(), self.level_of())
        &&& match self.children() {
            None => true,
            Some(c) => {
                &&& c.len() == 4
                &&& self.level_of() < MAX_LEVEL
                &&& forall|i: int|
                    0 <= i < 4 ==> (#[trigger] c[i]).level_of() == self.level_of() + 1
                        && c[i].bounds_of() == quadrant(self.bounds_of(), i) && c[i].wf()
            },
        }
    }

    pub fn new(bounds: Box3, level: u32) -> (r: Node)
        requires
            level <= MAX_LEVEL,
        ensures
            r.bounds_of() == bounds,
            r.level_of() == level,
            r.children() is None,
            !r.marked(),
    {
        Node { bounds, sub_nodes: None, level, remove_sub_nodes: false }
    }

    /// Whether some part of the node's 2D footprint overlaps `region`.
    pub fn intersects_region(&self, region: &Region) -> (r: bool)
        ensures
            r == polygon_meets_box(region@, self.bounds_of().spec_xy()),
    {
        region.intersects_box(&self.bounds.xy())
    }

    /// Gives a leaf four children on its quadrants, one level deeper; a node
    /// that has children is left as it is.
    pub fn subdivide(&mut self)
        requires
            old(self).wf(),
            old(self).level_of() < MAX_LEVEL,
        ensures
            final(self).wf(),
            final(self).bounds_of() == old(self).bounds_of(),
            final(self).level_of() == old(self).level_of(),
            final(self).marked() == old(self).marked(),
            old(self).children() is Some ==> final(self).children() == old(self).children(),
            old(self).children() is None ==> (final(self).children() matches Some(c) && c.len()
                == 4 && forall|i: int|
                0 <= i < 4 ==> (#[trigger] c[i]).children() is None && !c[i].marked()),
    {
        if self.sub_nodes.is_some() {
            return;
        }
        let b = self.bounds;
        let cx = b.min.x + (b.max.x - b.min.x) / 2;
        let cy = b.min.y + (b.max.y - b.min.y) / 2;
        let top_left_node = Self::new(
            Box3 { min: b.min, max: Point3 { x: cx, y: cy, z: b.max.z } },
            self.level + 1,
        );
        let top_right_node = Self::new(
            Box3 {
                min: Point3 { x: cx, y: b.min.y, z: b.min.z },
                max: Point3 { x: b.max.x, y: cy, z: b.max.z },
            },
            self.level + 1,
        );
        let bottom_left_node = Self::new(
            Box3 {
                min: Point3 { x: b.min.x, y: cy, z: b.min.z },
                max: Point3 { x: cx, y: b.max.y, z: b.max.z },
            },
            self.level + 1,
        );
        let bottom_right_node = Self::new(
            Box3 { min: Point3 { x: cx, y: cy, z: b.min.z }, max: b.max },
            self.level + 1,
        );
        self.sub_nodes = Some(
            vec![top_left_node, top_right_node, bottom_left_node, bottom_right_node],
        );
        proof {
            let c = self.children()->Some_0;
            assert forall|i: int| 0 <= i < 4 implies (#[trigger] c[i]).level_of() == self.level_of()
                + 1 && c[i].bounds_of() == quadrant(self.bounds_of(), i) && c[i].wf() by {
                assert(c[i].children() is None);
            }
        }
    }

    /// Marks for demotion every node that meets `region` at or past `level`,
    /// and subdivides toward `level` every coarser node that meets it. The
    /// marks take effect at the next `rebuild_tree`.
    pub fn set_level_in_region(&mut self, region: &Region, level: u32)
        requires
            old(self).wf(),
            level <= MAX_LEVEL,
        ensures
            final(self).wf(),
            set_level_result(
                old(self).bounds_of(),
                old(self).level_of(),
                old(self).children(),
                old(self).marked(),
                *final(self),
                region@,
                level,
            ),
        decreases MAX_LEVEL - old(self).level_of(),
    {
        if self.intersects_region(region) {
            if self.level >= level {
                self.remove_sub_nodes = true;
            } else {
                let ghost before = self.children();
                self.subdivide();
                self.remove_sub_nodes = false;
                let mut children = self.sub_nodes.take().unwrap();
                let ghost start = children@;
                let ghost b = self.bounds;
                let ghost lv = self.level;
                let mut i: usize = 0;
                while i < 4
                    invariant
                        0 <= i <= 4,
                        children@.len() == 4,
                        lv == old(self).level_of(),
                        lv < MAX_LEVEL,
                        level <= MAX_LEVEL,
                        lv < level,
                        start.len() == 4,
                        forall|j: int|
                            0 <= j < 4 ==> (#[trigger] start[j]).level_of() == lv + 1
                                && start[j].bounds_of() == quadrant(b, j) && start[j].wf(),
                        forall|j: int|
                            0 <= j < 4 ==> (#[trigger] children@[j]).level_of() == lv + 1
                                && children@[j].bounds_of() == quadrant(b, j) && children@[j].wf(),
                        forall|j: int| i <= j < 4 ==> #[trigger] children@[j] == start[j],
                        forall|j: int|
                            0 <= j < i ==> set_level_result(
                                quadrant(b, j),
                                (lv + 1) as u32,
                                start[j].children(),
                                start[j].marked(),
                                #[trigger] children@[j],
                                region@,
                                level,
                            ),
                    decreases 4 - i,
                {
                    let child = &mut children[i];
                    child.set_level_in_region(region, level);
                    i += 1;
                }
                self.sub_nodes = Some(children);
                proof {
                    let nc = self.children()->Some_0;
                    assert(nc == children@);
                    assert forall|j: int| 0 <= j < 4 implies set_level_result(
                        quadrant(b, j),
                        (lv + 1) as u32,
                        match before {
                            Some(c) => c[j].children(),
                            None => None,
                        },
                        match before {
                            Some(c) => c[j].marked(),
                            None => false,
                        },
                        #[trigger] nc[j],
                        region@,
                        level,
                    ) by {
                        assert(start[j] == start[j]);
                    }
                }
            }
        }
    }

    /// Commits the pending demotions: a marked node drops its children; the
    /// others pass the rebuild on to theirs.
    pub fn rebuild_tree(&mut self)
        requires
            old(self).wf(),
        ensures
            final(self).wf(),
            rebuild_result(*old(self), *final(self)),
            settled(*final(self)),
        decreases MAX_LEVEL - old(self).level_of(),
    {
        if self.remove_sub_nodes {
            self.sub_nodes = None;
            self.remove_sub_nodes = false;
        } else if self.sub_nodes.is_some() {
            let mut children = self.sub_nodes.take().unwrap();
            let ghost start = children@;
            let ghost b = self.bounds;
            let ghost lv = self.level;
            let mut i: usize = 0;
            while i < 4
                invariant
                    0 <= i <= 4,
                    children@.len() == 4,
                    lv == old(self).level_of(),
                    lv < MAX_LEVEL,
                    start.len() == 4,
                    forall|j: int|
                        0 <= j < 4 ==> (#[trigger] start[j]).level_of() == lv + 1
                            && start[j].bounds_of() == quadrant(b, j) && start[j].wf(),
                    forall|j: int|
                        0 <= j < 4 ==> (#[trigger] children@[j]).level_of() == lv + 1
                            && children@[j].bounds_of() == quadrant(b, j) && children@[j].wf(),
                    forall|j: int| i <= j < 4 ==> #[trigger] children@[j] == start[j],
                    forall|j: int|
                        0 <= j < i ==> rebuild_result(start[j], #[trigger] children@[j])
                            && settled(children@[j]),
                decreases 4 - i,
            {
                let child = &mut children[i];
                child.rebuild_tree();
                i += 1;
            }
            self.sub_nodes = Some(children);
        }
    }

    pub fn bounds(&self) -> (r: Box3)
        ensures
            r == self.bounds_of(),
    {
        self.bounds
    }

    /// Whether some region of `regions` meets the node's 2D footprint.
    pub fn meets_any_of(&self, regions: &[Region]) -> (r: bool)
        ensures
            r == meets_any(regions@, self.bounds_of()),
    {
        meets_any_exec(self, regions)
    }

    pub fn level(&self) -> (r: u32)
        ensures
            r == self.level_of(),
    {
        self.level
    }

    pub fn sub_nodes(&self) -> (r: Option<&Vec<Node>>)
        ensures
            match r {
                Some(v) => self.children() == Some(v@),
                None => self.children() is None,
            },
    {
        match &self.sub_nodes {
            Some(v) => Some(v),
            None => None,
        }
    }
}

proof fn lemma_multiple(q: int, m: int)
    requires
        m > 0,
    ensures
        (q * m) % m == 0,
{
    vstd::arithmetic::div_mod::lemma_mod_multiples_basic(q, m);
}

/// Rounds `n` down to a multiple of `m`: the largest multiple of `m` that is
/// at most `n`.
pub fn round_down_to_multiple_of(n: i32, m: i32) -> (r: i32)
    requires
        m > 0,
        n >= i32::MIN + m - 1,
    ensures
        (r as int) % (m as int) == 0,
        r <= n < r + m,
{
    if n >= 0 {
        let q = n / m;
        proof {
            assert(0 <= q * m <= n < q * m + m) by (nonlinear_arith)
                requires
                    q == n / m,
                    n >= 0,
                    m > 0,
            ;
            lemma_multiple(q as int, m as int);
        }
        q * m
    } else {
        let t = n + (1 - m);
        let q = t / m;
        proof {
            let u = -t;
            let k = u / (m as int);
            assert(q == -k);
            assert(k * m <= u < k * m + m) by (nonlinear_arith)
                requires
                    k == u / (m as int),
                    u >= 0,
                    m > 0,
            ;
            assert(q * m == -(k * m)) by (nonlinear_arith)
                requires
                    q == -k,
            ;
            lemma_multiple(q as int, m as int);
        }
        q * m
    }
}

/// Rounds `n` up to a multiple of `m`: the smallest multiple of `m` that is
/// at least `n`.
pub fn round_up_to_multiple_of(n: i32, m: i32) -> (r: i32)
    requires
        m > 0,
        n <= i32::MAX - m + 1,
    ensures
        (r as int) % (m as int) == 0,
        r - m < n <= r,
{
    if n >= 0 {
        let t = n + (m - 1);
        let q = t / m;
        proof {
            assert(q * m <= t < q * m + m) by (nonlinear_arith)
                requires
                    q == t / m,
                    t >= 0,
                    m > 0,
            ;
            lemma_multiple(q as int, m as int);
        }
        q * m
    } else {
        let q = n / m;
        proof {
            let u = -n;
            let k = u / (m as int);
            assert(q == -k);
            assert(0 <= k * m <= u < k * m + m) by (nonlinear_arith)
                requires
                    k == u / (m as int),
                    u >= 0,
                    m > 0,
            ;
            assert(q * m == -(k * m)) by (nonlinear_arith)
                requires
                    q == -k,
            ;
            lemma_multiple(q as int, m as int);
        }
        q * m
    }
}

} // verus!

verus! {

/// The 2D tile of side `ROOT_LEVEL_SIZE` whose minimum corner is `p`.
pub open spec fn tile_of(p: Point2) -> Box2 {
    Box2 {
        min: p,
        max: Point2 { x: (p.x + ROOT_LEVEL_SIZE) as i32, y: (p.y + ROOT_LEVEL_SIZE) as i32 },
    }
}

/// The 3D cell of the root tile at `p`.
pub open spec fn root_cell(p: Point2) -> Box3 {
    Box3 {
        min: Point3 { x: p.x, y: p.y, z: MIN_Z },
        max: Point3 {
            x: (p.x + ROOT_LEVEL_SIZE) as i32,
            y: (p.y + ROOT_LEVEL_SIZE) as i32,
            z: MAX_Z,
        },
    }
}

/// `p` is the corner of a root tile: both coordinates are multiples of the
/// tile size, within the world's limits.
pub open spec fn is_tile_origin(p: Point2) -> bool {
    &&& p.x % ROOT_LEVEL_SIZE == 0
    &&& p.y % ROOT_LEVEL_SIZE == 0
    &&& -WORLD_LIMIT - ROOT_LEVEL_SIZE <= p.x <= WORLD_LIMIT
    &&& -WORLD_LIMIT - ROOT_LEVEL_SIZE <= p.y <= WORLD_LIMIT
}

/// The tile at `p` is one that `ensure_node_in_region` considers for a region
/// whose bounding box is `b`: tiles rounded outward from the box, and at least
/// one along an axis on which the box is flat.
pub open spec fn tile_in_range(b: Box2, p: Point2) -> bool {
    &&& b.min.x - ROOT_LEVEL_SIZE < p.x
    &&& (p.x < b.max.x || p.x == b.min.x)
    &&& b.min.y - ROOT_LEVEL_SIZE < p.y
    &&& (p.y < b.max.y || p.y == b.min.y)
}

proof fn lemma_tile_span(lo: int, hi: int, rd: int, ru: int, p: int)
    requires
        lo <= hi,
        rd % 256 == 0,
        rd <= lo < rd + 256,
        ru % 256 == 0,
        (ru - 256 < hi <= ru && rd < ru) || (ru - 512 < hi <= ru - 256 && rd == ru - 256 && lo
            == hi),
        p % 256 == 0,
    ensures
        (rd <= p < ru) == (lo - 256 < p && (p < hi || p == lo)),
{
    vstd::arithmetic::div_mod::lemma_fundamental_div_mod(p, 256);
    vstd::arithmetic::div_mod::lemma_fundamental_div_mod(rd, 256);
    vstd::arithmetic::div_mod::lemma_fundamental_div_mod(ru, 256);
    let k = p / 256;
    let a = rd / 256;
    let b = ru / 256;
    assert(p == 256 * k);
    assert(rd == 256 * a);
    assert(ru == 256 * b);
}

proof fn lemma_next_multiple(a: int, b: int)
    requires
        a % 256 == 0,
        b % 256 == 0,
        a < b,
    ensures
        a + 256 <= b,
{
    vstd::arithmetic::div_mod::lemma_fundamental_div_mod(a, 256);
    vstd::arithmetic::div_mod::lemma_fundamental_div_mod(b, 256);
    let ka = a / 256;
    let kb = b / 256;
    assert(a == 256 * ka);
    assert(b == 256 * kb);
}

proof fn lemma_bounding_box_in_world(s: Seq<Point2>)
    requires
        forall|i: int|
            0 <= i < s.len() ==> -WORLD_LIMIT <= (#[trigger] s[i]).x <= WORLD_LIMIT && -WORLD_LIMIT
                <= s[i].y <= WORLD_LIMIT,
    ensures
        -WORLD_LIMIT <= bounding_box(s).min.x <= bounding_box(s).max.x <= WORLD_LIMIT,
        -WORLD_LIMIT <= bounding_box(s).min.y <= bounding_box(s).max.y <= WORLD_LIMIT,
    decreases s.len(),
{
    if s.len() > 1 {
        lemma_bounding_box_in_world(s.drop_last());
    }
}

/// Some root of `roots` sits on the tile at `p`.
pub open spec fn has_root(roots: Seq<Node>, p: Point2) -> bool {
    exists|i: int|
        0 <= i < roots.len() && (#[trigger] roots[i]).bounds_of().min.x == p.x
            && roots[i].bounds_of().min.y == p.y
}

/// `n` is a new root: a level-0 leaf, unmarked, on the tile at `p`.
pub open spec fn fresh_root(n: Node, p: Point2) -> bool {
    &&& n.bounds_of() == root_cell(p)
    &&& n.level_of() == 0
    &&& n.children() is None
    &&& !n.marked()
}

/// The key of a node: its bounds and level.
pub open spec fn key_of(n: Node) -> ChunkCacheKey {
    ChunkCacheKey { bounds: n.bounds_of(), level: n.level_of() }
}

/// The leaves that a walk yields from `n`, in the order it yields them. The
/// walk tests a node against the regions only while `check` holds (its parent
/// met them); it descends into a node that meets them when `intersect`, and
/// into one that does not, or that was tested, when `outside`; it yields a
/// leaf that meets them when `intersect`, and one that does not when `outside`.
/// Children are visited last quadrant first.
#[verifier::opaque]
pub open spec fn walk(
    n: Node,
    check: bool,
    regions: Seq<Region>,
    intersect: bool,
    outside: bool,
) -> Seq<ChunkCacheKey>
    decreases MAX_LEVEL - n.level_of(),
{
    let collide = check && meets_any(regions, n.bounds_of());
    match n.children() {
        Some(c) => {
            if (intersect && collide) || (outside && (!collide || check)) {
                if c.len() == 4 && n.level_of() < MAX_LEVEL && forall|i: int|
                    0 <= i < 4 ==> (#[trigger] c[i]).level_of() == n.level_of() + 1 {
                    walk(c[3], collide, regions, intersect, outside) + walk(
                        c[2],
                        collide,
                        regions,
                        intersect,
                        outside,
                    ) + walk(c[1], collide, regions, intersect, outside) + walk(
                        c[0],
                        collide,
                        regions,
                        intersect,
                        outside,
                    )
                } else {
                    Seq::empty()
                }
            } else {
                Seq::empty()
            }
        },
        None => {
            if (intersect && collide) || (outside && !collide) {
                seq![key_of(n)]
            } else {
                Seq::empty()
            }
        },
    }
}

/// The leaves that a walk yields from the first `k` roots, the last root first.
pub open spec fn walk_roots(
    roots: Seq<Node>,
    k: int,
    regions: Seq<Region>,
    intersect: bool,
    outside: bool,
) -> Seq<ChunkCacheKey>
    decreases k,
{
    if k <= 0 {
        Seq::empty()
    } else {
        walk(roots[k - 1], true, regions, intersect, outside) + walk_roots(
            roots,
            k - 1,
            regions,
            intersect,
            outside,
        )
    }
}

/// Whether some region of `regions` meets the 2D footprint of `n`.
fn meets_any_exec(n: &Node, regions: &[Region]) -> (r: bool)
    ensures
        r == meets_any(regions@, n.bounds_of()),
{
    reveal(meets_any);
    let mut i: usize = 0;
    while i < regions.len()
        invariant
            i <= regions@.len(),
            forall|j: int|
                0 <= j < i ==> !polygon_meets_box(#[trigger] regions@[j]@, n.bounds_of().spec_xy()),
        decreases regions@.len() - i,
    {
        if n.intersects_region(&regions[i]) {
            proof {
                reveal(meets_any);
                assert(polygon_meets_box(regions@[i as int]@, n.bounds_of().spec_xy()));
            }
            return true;
        }
        i += 1;
    }
    false
}

/// Appends to `out` the leaves that the walk yields from `n`.
fn collect_leaves(
    n: &Node,
    check: bool,
    regions: &[Region],
    intersect: bool,
    outside: bool,
    out: &mut Vec<ChunkCacheKey>,
)
    requires
        n.wf(),
    ensures
        final(out)@ == old(out)@ + walk(*n, check, regions@, intersect, outside),
    decreases MAX_LEVEL - n.level_of(), 0int,
{
    let collide = check && meets_any_exec(n, regions);
    proof {
        reveal(walk);
    }
    match &n.sub_nodes {
        Some(c) => {
            if (intersect && collide) || (outside && (!collide || check)) {
                proof {
                    assert(n.children() == Some(c@));
                    assert(c@[0].level_of() == n.level_of() + 1);
                    assert(c@[1].level_of() == n.level_of() + 1);
                    assert(c@[2].level_of() == n.level_of() + 1);
                    assert(c@[3].level_of() == n.level_of() + 1);
                    assert(c@[0].wf() && c@[1].wf() && c@[2].wf() && c@[3].wf());
                }
                collect_quadrants(c, collide, regions, intersect, outside, out);
            }
        },
        None => {
            if (intersect && collide) || (outside && !collide) {
                out.push(ChunkCacheKey { bounds: n.bounds, level: n.level });
            }
        },
    }
}

/// Appends to `out` the leaves that the walk yields from the four children
/// `c`, the last quadrant first.
fn collect_quadrants(
    c: &Vec<Node>,
    check: bool,
    regions: &[Region],
    intersect: bool,
    outside: bool,
    out: &mut Vec<ChunkCacheKey>,
)
    requires
        c@.len() == 4,
        c@[0].level_of() <= MAX_LEVEL,
        forall|i: int| 0 <= i < 4 ==> (#[trigger] c@[i]).wf() && c@[i].level_of() == c@[0].level_of(),
    ensures
        final(out)@ == old(out)@ + (walk(c@[3], check, regions@, intersect, outside) + walk(
            c@[2],
            check,
            regions@,
            intersect,
            outside,
        ) + walk(c@[1], check, regions@, intersect, outside) + walk(
            c@[0],
            check,
            regions@,
            intersect,
            outside,
        )),
    decreases MAX_LEVEL - c@[0].level_of(), 1int,
{
    proof {
        assert(c@[1].wf() && c@[2].wf() && c@[3].wf());
    }
    let ghost o = out@;
    collect_leaves(&c[3], check, regions, intersect, outside, out);
    let ghost o3 = out@;
    collect_leaves(&c[2], check, regions, intersect, outside, out);
    let ghost o2 = out@;
    collect_leaves(&c[1], check, regions, intersect, outside, out);
    let ghost o1 = out@;
    collect_leaves(&c[0], check, regions, intersect, outside, out);
    proof {
        let w3 = walk(c@[3], check, regions@, intersect, outside);
        let w2 = walk(c@[2], check, regions@, intersect, outside);
        let w1 = walk(c@[1], check, regions@, intersect, outside);
        let w0 = walk(c@[0], check, regions@, intersect, outside);
        assert(o2 =~= o + w3 + w2);
        assert(o1 =~= o + w3 + w2 + w1);
        assert(out@ =~= o + (w3 + w2 + w1 + w0));
    }
}

/// The leaves of a tree walk, handed out one at a time.
pub struct LeafIter {
    leaves: Vec<ChunkCacheKey>,
    next: usize,
}

impl View for LeafIter {
    type V = Seq<ChunkCacheKey>;

    /// The leaves not handed out yet.
    closed spec fn view(&self) -> Seq<ChunkCacheKey> {
        self.leaves@.subrange(self.next as int, self.leaves@.len() as int)
    }
}

impl LeafIter {
    pub closed spec fn wf(&self) -> bool {
        self.next <= self.leaves@.len()
    }

    /// A walk from `initial_nodes`, the last one first; see `walk` for what
    /// `intersect` and `outside` select.
    pub fn new(initial_nodes: &Vec<Node>, regions: &[Region], intersect: bool, outside: bool) -> (r:
        LeafIter)
        requires
            forall|i: int| 0 <= i < initial_nodes@.len() ==> (#[trigger] initial_nodes@[i]).wf(),
        ensures
            r.wf(),
            r@ == walk_roots(
                initial_nodes@,
                initial_nodes@.len() as int,
                regions@,
                intersect,
                outside,
            ),
    {
        let mut leaves: Vec<ChunkCacheKey> = Vec::new();
        let mut k: usize = initial_nodes.len();
        while k > 0
            invariant
                k <= initial_nodes@.len(),
                forall|i: int| 0 <= i < initial_nodes@.len() ==> (#[trigger] initial_nodes@[i]).wf(),
                leaves@ + walk_roots(initial_nodes@, k as int, regions@, intersect, outside)
                    == walk_roots(
                    initial_nodes@,
                    initial_nodes@.len() as int,
                    regions@,
                    intersect,
                    outside,
                ),
            decreases k,
        {
            let ghost before = leaves@;
            collect_leaves(&initial_nodes[k - 1], true, regions, intersect, outside, &mut leaves);
            proof {
                let w = walk(initial_nodes@[k - 1], true, regions@, intersect, outside);
                let rest = walk_roots(initial_nodes@, k - 1, regions@, intersect, outside);
                assert(before + (w + rest) =~= (before + w) + rest);
            }
            k -= 1;
        }
        let r = LeafIter { leaves, next: 0 };
        assert(r@ =~= leaves@);
        r
    }

    /// Hands out the next leaf, if any is left.
    pub fn next(&mut self) -> (r: Option<ChunkCacheKey>)
        requires
            old(self).wf(),
        ensures
            final(self).wf(),
            old(self)@.len() == 0 ==> r is None && final(self)@ == old(self)@,
            old(self)@.len() > 0 ==> r == Some(old(self)@[0]) && final(self)@ == old(self)@.drop_first(),
    {
        if self.next < self.leaves.len() {
            let k = self.leaves[self.next];
            self.next += 1;
            assert(self@ =~= old(self)@.drop_first());
            Some(k)
        } else {
            None
        }
    }
}

/// The quadtree index: one tree per root tile, created when a region first
/// touches the tile.
pub struct Tree {
    sub_nodes: Vec<Node>,
}

impl Tree {
    /// The roots, in the order they were created.
    pub closed spec fn roots(self) -> Seq<Node> {
        self.sub_nodes@
    }

    /// Every root is a well-formed level-0 tree on its own tile, and no two
    /// roots share a tile.
    pub open spec fn wf(self) -> bool {
        &&& forall|i: int|
            0 <= i < self.roots().len() ==> {
                &&& (#[trigger] self.roots()[i]).wf()
                &&& self.roots()[i].level_of() == 0
                &&& is_tile_origin(
                    Point2 { x: self.roots()[i].bounds_of().min.x, y: self.roots()[i].bounds_of().min.y },
                )
            }
        &&& forall|i: int, j: int|
            0 <= i < j < self.roots().len() ==> (#[trigger] self.roots()[i]).bounds_of().min
                != (#[trigger] self.roots()[j]).bounds_of().min
    }

    pub fn new() -> (r: Tree)
        ensures
            r.wf(),
            r.roots().len() == 0,
    {
        Tree { sub_nodes: Vec::new() }
    }

    fn contains_root(&self, point: &Point2) -> (r: bool)
        ensures
            r == has_root(self.roots(), *point),
    {
        let mut i: usize = 0;
        while i < self.sub_nodes.len()
            invariant
                i <= self.roots().len(),
                forall|j: int|
                    0 <= j < i ==> !((#[trigger] self.roots()[j]).bounds_of().min.x == point.x
                        && self.roots()[j].bounds_of().min.y == point.y),
            decreases self.roots().len() - i,
        {
            let b = self.sub_nodes[i].bounds;
            if b.min.x == point.x && b.min.y == point.y {
                return true;
            }
            i += 1;
        }
        false
    }

    /// Creates the root of the tile at `point` unless it exists.
    pub fn add_node(&mut self, point: &Point2)
        requires
            old(self).wf(),
            is_tile_origin(*point),
        ensures
            final(self).wf(),
            has_root(old(self).roots(), *point) ==> final(self).roots() == old(self).roots(),
            !has_root(old(self).roots(), *point) ==> final(self).roots().len() == old(
                self,
            ).roots().len() + 1 && final(self).roots().drop_last() == old(self).roots()
                && fresh_root(final(self).roots().last(), *point),
    {
        if !self.contains_root(point) {
            let n = Node::new(
                Box3 {
                    min: Point3 { x: point.x, y: point.y, z: MIN_Z },
                    max: Point3 {
                        x: point.x + ROOT_LEVEL_SIZE,
                        y: point.y + ROOT_LEVEL_SIZE,
                        z: MAX_Z,
                    },
                },
                0,
            );
            self.sub_nodes.push(n);
            assert(self.roots().drop_last() =~= old(self).roots());
            proof {
                let rs = self.roots();
                assert forall|i: int, j: int|
                    0 <= i < j < rs.len() implies (#[trigger] rs[i]).bounds_of().min != (
                    #[trigger] rs[j]).bounds_of().min by {
                    if j == rs.len() - 1 {
                        assert(old(self).roots()[i] == rs[i]);
                    } else {
                        assert(old(self).roots()[i] == rs[i]);
                        assert(old(self).roots()[j] == rs[j]);
                    }
                }
                assert forall|i: int| 0 <= i < rs.len() implies (#[trigger] rs[i]).wf() by {
                    if i < rs.len() - 1 {
                        assert(old(self).roots()[i] == rs[i]);
                    }
                }
            }
        }
    }

    /// Creates the root of every tile in the region's bounding box, rounded
    /// outward to whole tiles, that the region meets and that has no root yet.
    #[verifier::rlimit(80)]
    pub fn ensure_node_in_region(&mut self, region: &Region)
        requires
            old(self).wf(),
            region.in_world(),
        ensures
            final(self).wf(),
            final(self).roots().len() >= old(self).roots().len(),
            final(self).roots().subrange(0, old(self).roots().len() as int) == old(self).roots(),
            forall|j: int|
                old(self).roots().len() <= j < final(self).roots().len() ==> fresh_root(
                    #[trigger] final(self).roots()[j],
                    Point2 {
                        x: final(self).roots()[j].bounds_of().min.x,
                        y: final(self).roots()[j].bounds_of().min.y,
                    },
                ),
            forall|p: Point2|
                #[trigger] has_root(final(self).roots(), p) <==> has_root(old(self).roots(), p) || (
                is_tile_origin(p) && tile_in_range(bounding_box(region@), p) && polygon_meets_box(
                    region@,
                    tile_of(p),
                )),
            roots_ensured(old(self).roots(), final(self).roots(), region@),
    {
        let bb = region.bounding_box();
        proof {
            lemma_bounding_box_in_world(region@);
        }
        let min_x = round_down_to_multiple_of(bb.min.x, ROOT_LEVEL_SIZE);
        let min_y = round_down_to_multiple_of(bb.min.y, ROOT_LEVEL_SIZE);
        let mut max_x = round_up_to_multiple_of(bb.max.x, ROOT_LEVEL_SIZE);
        let mut max_y = round_up_to_multiple_of(bb.max.y, ROOT_LEVEL_SIZE);
        if min_x == max_x {
            max_x += ROOT_LEVEL_SIZE;
        }
        if min_y == max_y {
            max_y += ROOT_LEVEL_SIZE;
        }
        proof {
            assert forall|p: Point2| p.x % ROOT_LEVEL_SIZE == 0 && p.y % ROOT_LEVEL_SIZE == 0 implies (
            min_x <= p.x < max_x && min_y <= p.y < max_y) == tile_in_range(bb, p) by {
                lemma_tile_span(bb.min.x as int, bb.max.x as int, min_x as int, max_x as int, p.x as int);
                lemma_tile_span(bb.min.y as int, bb.max.y as int, min_y as int, max_y as int, p.y as int);
            }
        }
        let ghost n0 = self.roots().len();
        let mut x = min_x;
        while x < max_x
            invariant
                self.wf(),
                region.in_world(),
                bb == bounding_box(region@),
                -WORLD_LIMIT - ROOT_LEVEL_SIZE <= min_x,
                max_x <= WORLD_LIMIT + ROOT_LEVEL_SIZE,
                -WORLD_LIMIT - ROOT_LEVEL_SIZE <= min_y,
                max_y <= WORLD_LIMIT + ROOT_LEVEL_SIZE,
                min_y <= max_y,
                min_x % ROOT_LEVEL_SIZE == 0,
                min_y % ROOT_LEVEL_SIZE == 0,
                max_x % ROOT_LEVEL_SIZE == 0,
                max_y % ROOT_LEVEL_SIZE == 0,
                x % ROOT_LEVEL_SIZE == 0,
                min_x <= x <= max_x,
                n0 == old(self).roots().len(),
                self.roots().len() >= n0,
                self.roots().subrange(0, n0 as int) == old(self).roots(),
                forall|j: int|
                    n0 <= j < self.roots().len() ==> fresh_root(
                        #[trigger] self.roots()[j],
                        Point2 {
                            x: self.roots()[j].bounds_of().min.x,
                            y: self.roots()[j].bounds_of().min.y,
                        },
                    ),
                forall|p: Point2|
                    #[trigger] has_root(self.roots(), p) <==> has_root(old(self).roots(), p) || (
                    is_tile_origin(p) && min_x <= p.x < x && min_y <= p.y < max_y
                        && polygon_meets_box(region@, tile_of(p))),
            decreases max_x - x,
        {
            let mut y = min_y;
            while y < max_y
                invariant
                    self.wf(),
                    -WORLD_LIMIT - ROOT_LEVEL_SIZE <= min_x,
                    max_x <= WORLD_LIMIT + ROOT_LEVEL_SIZE,
                    -WORLD_LIMIT - ROOT_LEVEL_SIZE <= min_y,
                    max_y <= WORLD_LIMIT + ROOT_LEVEL_SIZE,
                    min_y % ROOT_LEVEL_SIZE == 0,
                    max_y % ROOT_LEVEL_SIZE == 0,
                    max_x % ROOT_LEVEL_SIZE == 0,
                    x % ROOT_LEVEL_SIZE == 0,
                    y % ROOT_LEVEL_SIZE == 0,
                    min_x <= x < max_x,
                    min_y <= y <= max_y,
                    n0 == old(self).roots().len(),
                    self.roots().len() >= n0,
                    self.roots().subrange(0, n0 as int) == old(self).roots(),
                    forall|j: int|
                        n0 <= j < self.roots().len() ==> fresh_root(
                            #[trigger] self.roots()[j],
                            Point2 {
                                x: self.roots()[j].bounds_of().min.x,
                                y: self.roots()[j].bounds_of().min.y,
                            },
                        ),
                    forall|p: Point2|
                        #[trigger] has_root(self.roots(), p) <==> has_root(old(self).roots(), p) || (
                        is_tile_origin(p) && ((min_x <= p.x < x && min_y <= p.y < max_y) || (p.x
                            == x && min_y <= p.y < y)) && polygon_meets_box(region@, tile_of(p))),
                decreases max_y - y,
            {
                proof {
                    lemma_next_multiple(x as int, max_x as int);
                    lemma_next_multiple(y as int, max_y as int);
                }
                let point = Point2 { x, y };
                if !self.contains_root(&point) {
                    let the_box = Box2 {
                        min: point,
                        max: Point2 { x: x + ROOT_LEVEL_SIZE, y: y + ROOT_LEVEL_SIZE },
                    };
                    if region.intersects_box(&the_box) {
                        let ghost before = self.roots();
                        self.add_node(&point);
                        proof {
                            let rs = self.roots();
                            assert(rs.subrange(0, n0 as int) =~= before.subrange(0, n0 as int));
                            assert forall|q: Point2| #[trigger]
                                has_root(rs, q) <==> has_root(before, q) || q == point by {
                                if has_root(rs, q) {
                                    let i = choose|i: int|
                                        0 <= i < rs.len() && (#[trigger] rs[i]).bounds_of().min.x
                                            == q.x && rs[i].bounds_of().min.y == q.y;
                                    if i < before.len() {
                                        assert(before[i] == rs[i]);
                                    }
                                }
                                if has_root(before, q) {
                                    let i = choose|i: int|
                                        0 <= i < before.len() && (#[trigger] before[i]).bounds_of().min.x
                                            == q.x && before[i].bounds_of().min.y == q.y;
                                    assert(rs[i] == before[i]);
                                }
                                if q == point {
                                    assert(rs[rs.len() - 1].bounds_of().min.x == q.x);
                                }
                            }
                            assert forall|j: int|
                                n0 <= j < rs.len() implies fresh_root(
                                #[trigger] rs[j],
                                Point2 { x: rs[j].bounds_of().min.x, y: rs[j].bounds_of().min.y },
                            ) by {
                                if j < rs.len() - 1 {
                                    assert(rs[j] == before[j]);
                                }
                            }
                        }
                    }
                }
                y += ROOT_LEVEL_SIZE;
            }
            x += ROOT_LEVEL_SIZE;
        }
    }

    /// Applies `Node::set_level_in_region` to every root.
    pub fn set_level_in_region(&mut self, region: &Region, level: u32)
        requires
            old(self).wf(),
            level <= MAX_LEVEL,
        ensures
            final(self).wf(),
            roots_leveled(old(self).roots(), final(self).roots(), region@, level),
            final(self).roots().len() == old(self).roots().len(),
            forall|i: int|
                0 <= i < old(self).roots().len() ==> (#[trigger] final(self).roots()[i]).bounds_of()
                    == old(self).roots()[i].bounds_of(),
            forall|i: int|
                0 <= i < old(self).roots().len() ==> set_level_result(
                    (#[trigger] old(self).roots()[i]).bounds_of(),
                    old(self).roots()[i].level_of(),
                    old(self).roots()[i].children(),
                    old(self).roots()[i].marked(),
                    final(self).roots()[i],
                    region@,
                    level,
                ),
    {
        let mut i: usize = 0;
        while i < self.sub_nodes.len()
            invariant
                i <= self.roots().len(),
                level <= MAX_LEVEL,
                self.roots().len() == old(self).roots().len(),
                self.wf(),
                forall|j: int|
                    i <= j < self.roots().len() ==> #[trigger] self.roots()[j] == old(
                        self,
                    ).roots()[j],
                forall|j: int|
                    0 <= j < i ==> set_level_result(
                        (#[trigger] old(self).roots()[j]).bounds_of(),
                        old(self).roots()[j].level_of(),
                        old(self).roots()[j].children(),
                        old(self).roots()[j].marked(),
                        self.roots()[j],
                        region@,
                        level,
                    ),
            decreases self.roots().len() - i,
        {
            let ghost before = self.roots();
            let node = &mut self.sub_nodes[i];
            node.set_level_in_region(region, level);
            proof {
                let rs = self.roots();
                assert(rs == before.update(i as int, rs[i as int]));
                assert forall|a: int, b: int|
                    0 <= a < b < rs.len() implies (#[trigger] rs[a]).bounds_of().min != (
                    #[trigger] rs[b]).bounds_of().min by {
                    assert(before[a].bounds_of().min != before[b].bounds_of().min);
                }
            }
            i += 1;
        }
    }

    /// Commits every pending demotion.
    pub fn rebuild_tree(&mut self)
        requires
            old(self).wf(),
        ensures
            final(self).wf(),
            roots_rebuilt(old(self).roots(), final(self).roots()),
            final(self).roots().len() == old(self).roots().len(),
            forall|i: int|
                0 <= i < old(self).roots().len() ==> (#[trigger] final(self).roots()[i]).bounds_of()
                    == old(self).roots()[i].bounds_of(),
            forall|i: int|
                0 <= i < old(self).roots().len() ==> rebuild_result(
                    #[trigger] old(self).roots()[i],
                    final(self).roots()[i],
                ) && settled(final(self).roots()[i]),
    {
        let mut i: usize = 0;
        while i < self.sub_nodes.len()
            invariant
                i <= self.roots().len(),
                self.roots().len() == old(self).roots().len(),
                self.wf(),
                forall|j: int|
                    i <= j < self.roots().len() ==> #[trigger] self.roots()[j] == old(
                        self,
                    ).roots()[j],
                forall|j: int|
                    0 <= j < i ==> rebuild_result(
                        #[trigger] old(self).roots()[j],
                        self.roots()[j],
                    ) && settled(self.roots()[j]),
            decreases self.roots().len() - i,
        {
            let ghost before = self.roots();
            let node = &mut self.sub_nodes[i];
            node.rebuild_tree();
            proof {
                let rs = self.roots();
                assert(rs == before.update(i as int, rs[i as int]));
                assert forall|a: int, b: int|
                    0 <= a < b < rs.len() implies (#[trigger] rs[a]).bounds_of().min != (
                    #[trigger] rs[b]).bounds_of().min by {
                    assert(before[a].bounds_of().min != before[b].bounds_of().min);
                }
            }
            i += 1;
        }
    }

    /// Every leaf.
    pub fn leaf_iter(&self) -> (r: LeafIter)
        requires
            self.wf(),
        ensures
            r.wf(),
            r@ == walk_roots(self.roots(), self.roots().len() as int, Seq::empty(), true, true),
    {
        let none: Vec<Region> = Vec::new();
        assert(self.sub_nodes@ == self.roots());
        LeafIter::new(&self.sub_nodes, none.as_slice(), true, true)
    }

    /// The leaves that meet some region of `regions`, descending only through
    /// nodes that meet one.
    pub fn leaf_intersect_regions_iter(&self, regions: &[Region]) -> (r: LeafIter)
        requires
            self.wf(),
        ensures
            r.wf(),
            r@ == walk_roots(self.roots(), self.roots().len() as int, regions@, true, false),
    {
        assert(self.sub_nodes@ == self.roots());
        LeafIter::new(&self.sub_nodes, regions, true, false)
    }

    /// The leaves outside every region of `regions`.
    pub fn leaf_outside_regions_iter(&self, regions: &[Region]) -> (r: LeafIter)
        requires
            self.wf(),
        ensures
            r.wf(),
            r@ == walk_roots(self.roots(), self.roots().len() as int, regions@, false, true),
    {
        assert(self.sub_nodes@ == self.roots());
        LeafIter::new(&self.sub_nodes, regions, false, true)
    }

    /// The roots, in the order they were created.
    pub fn root_nodes(&self) -> (r: &Vec<Node>)
        ensures
            r@ == self.roots(),
    {
        &self.sub_nodes
    }
}

} // verus!

verus! {

/// Every node of the subtree has no children or exactly four, one level
/// deeper, and no node is deeper than `MAX_LEVEL`.
pub open spec fn node_shape(n: Node) -> bool
    decreases MAX_LEVEL - n.level_of(),
{
    &&& n.level_of() <= MAX_LEVEL
    &&& match n.children() {
        None => true,
        Some(c) => {
            &&& c.len() == 4
            &&& n.level_of() < MAX_LEVEL
            &&& forall|i: int|
                0 <= i < 4 ==> (#[trigger] c[i]).level_of() == n.level_of() + 1 && node_shape(c[i])
        },
    }
}

proof fn lemma_rebuild_node(old: Node, new: Node)
    requires
        old.wf(),
        rebuild_result(old, new),
    ensures
        new.wf(),
        node_shape(new),
        settled(new),
    decreases MAX_LEVEL - old.level_of(),
{
    if !old.marked() {
        if let Some(c) = old.children() {
            let nc = new.children()->Some_0;
            assert forall|i: int| 0 <= i < 4 implies (#[trigger] nc[i]).level_of() == new.level_of()
                + 1 && nc[i].bounds_of() == quadrant(new.bounds_of(), i) && nc[i].wf() && node_shape(
                nc[i],
            ) && settled(nc[i]) by {
                assert(c[i].level_of() == old.level_of() + 1);
                assert(rebuild_result(c[i], nc[i]));
                lemma_rebuild_node(c[i], nc[i]);
                assert(nc[i].level_of() == c[i].level_of());
                assert(nc[i].bounds_of() == c[i].bounds_of());
            }
        }
    }
}

/// After a rebuild, every node under every root has no children or exactly
/// four, none is deeper than `MAX_LEVEL`, and no demotion mark is left.
pub proof fn lemma_rebuilt_tree_shape(before: Tree, after: Tree)
    requires
        before.wf(),
        after.roots().len() == before.roots().len(),
        forall|i: int|
            0 <= i < before.roots().len() ==> rebuild_result(
                #[trigger] before.roots()[i],
                after.roots()[i],
            ),
    ensures
        forall|i: int|
            0 <= i < after.roots().len() ==> node_shape(#[trigger] after.roots()[i]) && settled(
                after.roots()[i],
            ),
{
    assert forall|i: int| 0 <= i < after.roots().len() implies node_shape(
        #[trigger] after.roots()[i],
    ) && settled(after.roots()[i]) by {
        lemma_rebuild_node(before.roots()[i], after.roots()[i]);
    }
}


/// Two lists of regions with the same polygons, one by one, meet the same
/// boxes.
pub proof fn lemma_meets_same_polygons(a: Seq<Region>, b: Seq<Region>, bx: Box3)
    requires
        a.len() == b.len(),
        forall|i: int| 0 <= i < a.len() ==> (#[trigger] a[i])@ == b[i]@,
    ensures
        meets_any(a, bx) == meets_any(b, bx),
{
    reveal(meets_any);
    if meets_any(a, bx) {
        let i = choose|i: int| 0 <= i < a.len() && polygon_meets_box(#[trigger] a[i]@, bx.spec_xy());
        assert(polygon_meets_box(b[i]@, bx.spec_xy()));
    }
    if meets_any(b, bx) {
        let i = choose|i: int| 0 <= i < b.len() && polygon_meets_box(#[trigger] b[i]@, bx.spec_xy());
        assert(polygon_meets_box(a[i]@, bx.spec_xy()));
    }
}

/// A walk depends on the regions only through the boxes they meet.
pub proof fn lemma_walk_same_regions(
    n: Node,
    check: bool,
    a: Seq<Region>,
    b: Seq<Region>,
    intersect: bool,
    outside: bool,
)
    requires
        forall|bx: Box3| #[trigger] meets_any(a, bx) == meets_any(b, bx),
    ensures
        walk(n, check, a, intersect, outside) == walk(n, check, b, intersect, outside),
    decreases MAX_LEVEL - n.level_of(),
{
    reveal(walk);
    assert(meets_any(a, n.bounds_of()) == meets_any(b, n.bounds_of()));
    if let Some(c) = n.children() {
        if c.len() == 4 && n.level_of() < MAX_LEVEL && forall|i: int|
            0 <= i < 4 ==> (#[trigger] c[i]).level_of() == n.level_of() + 1 {
            let collide = check && meets_any(a, n.bounds_of());
            assert(c[0].level_of() == n.level_of() + 1);
            assert(c[1].level_of() == n.level_of() + 1);
            assert(c[2].level_of() == n.level_of() + 1);
            assert(c[3].level_of() == n.level_of() + 1);
            lemma_walk_same_regions(c[0], collide, a, b, intersect, outside);
            lemma_walk_same_regions(c[1], collide, a, b, intersect, outside);
            lemma_walk_same_regions(c[2], collide, a, b, intersect, outside);
            lemma_walk_same_regions(c[3], collide, a, b, intersect, outside);
        }
    }
}

pub proof fn lemma_walk_roots_same_regions(
    roots: Seq<Node>,
    k: int,
    a: Seq<Region>,
    b: Seq<Region>,
    intersect: bool,
    outside: bool,
)
    requires
        forall|bx: Box3| #[trigger] meets_any(a, bx) == meets_any(b, bx),
    ensures
        walk_roots(roots, k, a, intersect, outside) == walk_roots(roots, k, b, intersect, outside),
    decreases k,
{
    if k > 0 {
        lemma_walk_same_regions(roots[k - 1], true, a, b, intersect, outside);
        lemma_walk_roots_same_regions(roots, k - 1, a, b, intersect, outside);
    }
}


/// Roots on the same cells stand on the same tiles.
pub proof fn lemma_same_cells_same_tiles(a: Seq<Node>, b: Seq<Node>)
    requires
        a.len() == b.len(),
        forall|i: int| 0 <= i < a.len() ==> (#[trigger] a[i]).bounds_of() == b[i].bounds_of(),
    ensures
        forall|p: Point2| #[trigger] has_root(a, p) == has_root(b, p),
{
    assert forall|p: Point2| #[trigger] has_root(a, p) == has_root(b, p) by {
        if has_root(a, p) {
            let i = choose|i: int|
                0 <= i < a.len() && (#[trigger] a[i]).bounds_of().min.x == p.x && a[i].bounds_of().min.y
                    == p.y;
            assert(b[i].bounds_of() == a[i].bounds_of());
        }
        if has_root(b, p) {
            let i = choose|i: int|
                0 <= i < b.len() && (#[trigger] b[i]).bounds_of().min.x == p.x && b[i].bounds_of().min.y
                    == p.y;
            assert(b[i].bounds_of() == a[i].bounds_of());
        }
    }
}


/// `new` is what `Tree::ensure_node_in_region(region)` makes of the roots
/// `old`: the old roots kept in front, then fresh roots on exactly the tiles
/// in range that the region meets and that had none.
pub open spec fn roots_ensured(old: Seq<Node>, new: Seq<Node>, region: Seq<Point2>) -> bool {
    &&& new.len() >= old.len()
    &&& new.subrange(0, old.len() as int) == old
    &&& forall|j: int|
        old.len() <= j < new.len() ==> fresh_root(
            #[trigger] new[j],
            Point2 { x: new[j].bounds_of().min.x, y: new[j].bounds_of().min.y },
        )
    &&& forall|p: Point2|
        #[trigger] has_root(new, p) <==> has_root(old, p) || (is_tile_origin(p) && tile_in_range(
            bounding_box(region),
            p,
        ) && polygon_meets_box(region, tile_of(p)))
}

/// `new` is what `Tree::set_level_in_region(region, level)` makes of the
/// roots `old`, root by root.
pub open spec fn roots_leveled(old: Seq<Node>, new: Seq<Node>, region: Seq<Point2>, level: u32) -> bool {
    &&& new.len() == old.len()
    &&& forall|i: int|
        0 <= i < old.len() ==> set_level_result(
            (#[trigger] old[i]).bounds_of(),
            old[i].level_of(),
            old[i].children(),
            old[i].marked(),
            new[i],
            region,
            level,
        )
}

/// `new` is what `Tree::rebuild_tree` makes of the roots `old`, root by root.
pub open spec fn roots_rebuilt(old: Seq<Node>, new: Seq<Node>) -> bool {
    &&& new.len() == old.len()
    &&& forall|i: int| 0 <= i < old.len() ==> rebuild_result(#[trigger] old[i], new[i])
}

} // verus!
