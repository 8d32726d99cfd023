use terrain_lod::base::{ChunkCacheKey, Point2, Region};
use terrain_lod::tree::{round_down_to_multiple_of, round_up_to_multiple_of, Tree, MAX_LEVEL};

fn square(x0: i32, y0: i32, x1: i32, y1: i32) -> Region {
    Region::new(vec![
        Point2::new(x0, y0),
        Point2::new(x1, y0),
        Point2::new(x1, y1),
        Point2::new(x0, y1),
    ])
}

fn all_leaves(t: &Tree) -> Vec<ChunkCacheKey> {
    let mut it = t.leaf_iter();
    let mut out = vec![];
    while let Some(k) = it.next() {
        out.push(k);
    }
    out
}

#[test]
fn rounding_to_tile_multiples() {
    assert_eq!(round_down_to_multiple_of(0, 256), 0);
    assert_eq!(round_down_to_multiple_of(255, 256), 0);
    assert_eq!(round_down_to_multiple_of(256, 256), 256);
    assert_eq!(round_down_to_multiple_of(-1, 256), -256);
    assert_eq!(round_down_to_multiple_of(-256, 256), -256);
    assert_eq!(round_down_to_multiple_of(-257, 256), -512);
    assert_eq!(round_up_to_multiple_of(0, 256), 0);
    assert_eq!(round_up_to_multiple_of(1, 256), 256);
    assert_eq!(round_up_to_multiple_of(256, 256), 256);
    assert_eq!(round_up_to_multiple_of(-1, 256), 0);
    assert_eq!(round_up_to_multiple_of(-255, 256), 0);
    assert_eq!(round_up_to_multiple_of(-256, 256), -256);
    assert_eq!(round_up_to_multiple_of(-257, 256), -256);
    assert_eq!(round_down_to_multiple_of(i32::MIN + 255, 256), i32::MIN);
    assert_eq!(round_up_to_multiple_of(i32::MAX - 255, 256), i32::MAX - 255);
}

#[test]
fn tiles_near_the_edge_of_the_world() {
    let mut t = Tree::new();
    let far = i32::MAX - 300;
    let r = square(far - 10, far - 10, far, far);
    assert!(r.is_in_world());
    t.ensure_node_in_region(&r);
    assert_eq!(t.root_nodes().len(), 1);
    let b = t.root_nodes()[0].bounds();
    assert!(b.min.x <= far - 10 && b.max.x >= far);
    assert_eq!(b.max.x - b.min.x, 256);
}

#[test]
fn level_three_over_a_root_gives_sixty_four_leaves() {
    let mut t = Tree::new();
    let r = square(0, 0, 256, 256);
    t.ensure_node_in_region(&r);
    assert_eq!(t.root_nodes().len(), 1);
    t.set_level_in_region(&r, 3);
    t.rebuild_tree();
    let leaves = all_leaves(&t);
    assert_eq!(leaves.len(), 64);
    for k in &leaves {
        assert_eq!(k.level, 3);
        assert_eq!(k.bounds.max.x - k.bounds.min.x, 32);
        assert_eq!(k.bounds.max.y - k.bounds.min.y, 32);
        assert_eq!(k.bounds.min.z, -1);
        assert_eq!(k.bounds.max.z, 1);
        assert!(k.bounds.min.x >= 0 && k.bounds.max.x <= 256);
        assert!(k.bounds.min.y >= 0 && k.bounds.max.y <= 256);
    }
    // the leaves tile the root exactly
    let mut cells: Vec<(i32, i32)> = leaves.iter().map(|k| (k.bounds.min.x, k.bounds.min.y)).collect();
    cells.sort();
    cells.dedup();
    assert_eq!(cells.len(), 64);
}

#[test]
fn every_node_has_zero_or_four_children_after_rebuild() {
    let mut t = Tree::new();
    let near = square(10, 10, 60, 60);
    let far = square(-300, -300, 400, 400);
    t.ensure_node_in_region(&far);
    t.set_level_in_region(&far, 2);
    t.ensure_node_in_region(&near);
    t.set_level_in_region(&near, 5);
    t.rebuild_tree();
    let mut stack: Vec<&terrain_lod::tree::Node> = t.root_nodes().iter().collect();
    while let Some(n) = stack.pop() {
        assert!(n.level() <= MAX_LEVEL);
        if let Some(c) = n.sub_nodes() {
            assert_eq!(c.len(), 4);
            for child in c {
                assert_eq!(child.level(), n.level() + 1);
                stack.push(child);
            }
        }
    }
}

#[test]
fn demotion_waits_for_rebuild() {
    let mut t = Tree::new();
    let r = square(0, 0, 256, 256);
    t.ensure_node_in_region(&r);
    t.set_level_in_region(&r, 2);
    t.rebuild_tree();
    assert_eq!(all_leaves(&t).len(), 16);
    t.set_level_in_region(&r, 0);
    // marked, not yet dropped
    assert_eq!(all_leaves(&t).len(), 16);
    t.rebuild_tree();
    assert_eq!(all_leaves(&t).len(), 1);
}

#[test]
fn roots_are_created_once_per_touched_tile() {
    let mut t = Tree::new();
    let r = square(100, 100, 300, 120);
    t.ensure_node_in_region(&r);
    assert_eq!(t.root_nodes().len(), 2);
    t.ensure_node_in_region(&r);
    assert_eq!(t.root_nodes().len(), 2);
    let mut origins: Vec<(i32, i32)> =
        t.root_nodes().iter().map(|n| (n.bounds().min.x, n.bounds().min.y)).collect();
    origins.sort();
    assert_eq!(origins, vec![(0, 0), (256, 0)]);
}

#[test]
fn flat_region_still_gets_a_tile() {
    let mut t = Tree::new();
    // a region whose bounding box is a single point on a tile corner
    let r = Region::new(vec![Point2::new(256, 256), Point2::new(256, 256), Point2::new(256, 256)]);
    t.ensure_node_in_region(&r);
    assert_eq!(t.root_nodes().len(), 1);
    assert_eq!(t.root_nodes()[0].bounds().min.x, 256);
}

#[test]
fn intersect_and_outside_walks_split_the_leaves() {
    let mut t = Tree::new();
    let tile = square(0, 0, 256, 256);
    t.ensure_node_in_region(&tile);
    t.set_level_in_region(&tile, 1);
    t.rebuild_tree();
    let corner = vec![square(10, 10, 20, 20)];
    let mut inside = t.leaf_intersect_regions_iter(&corner);
    let mut n_in = 0;
    while let Some(k) = inside.next() {
        assert_eq!(k.bounds.min.x, 0);
        assert_eq!(k.bounds.min.y, 0);
        n_in += 1;
    }
    assert_eq!(n_in, 1);
    let mut outside = t.leaf_outside_regions_iter(&corner);
    let mut n_out = 0;
    while outside.next().is_some() {
        n_out += 1;
    }
    assert_eq!(n_out, 3);
}
