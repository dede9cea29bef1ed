use fractal_tiles::coord::{TileCoord, Viewport, MAX_DEPTH, ROOT_BOTTOM, ROOT_EXTENT, ROOT_LEFT};
use fractal_tiles::memory::HeapBudget;
use fractal_tiles::node::{ChildNode, QuadTreeNode};
use fractal_tiles::pool::TilePool;
use fractal_tiles::quadtree::{QuadTree, TileGrant};
use std::sync::Arc;

const OPEN: [bool; 4] = [false; 4];

fn tile(level: u32, x: u64, y: u64) -> TileCoord {
    TileCoord { level, x, y }
}

/// A window onto the whole root tile.
fn whole(target_level: u32) -> Viewport {
    Viewport {
        left: ROOT_LEFT,
        right: ROOT_LEFT.wrapping_add_unsigned(ROOT_EXTENT),
        bottom: ROOT_BOTTOM,
        top: ROOT_BOTTOM.wrapping_add_unsigned(ROOT_EXTENT),
        target_level,
    }
}

/// A window inside one tile.
fn inside(c: TileCoord, target_level: u32) -> Viewport {
    let (left, bottom) = c.origin();
    let ext = c.tile_extent();
    Viewport {
        left,
        right: left.wrapping_add_unsigned(ext),
        bottom,
        top: bottom.wrapping_add_unsigned(ext),
        target_level,
    }
}

/// A window wholly to the right of the root tile.
fn nowhere() -> Viewport {
    let vp = whole(0);
    Viewport { left: vp.right, right: vp.right + 1000, ..vp }
}

/// Computes and inserts tiles until there is nothing to do; the image of a tile is its number.
fn fill(tree: &mut QuadTree<u32>, vp: Viewport) -> Vec<TileCoord> {
    let mut order = Vec::new();
    while let Some(c) = tree.next_tile(vp) {
        assert!(tree.insert(c, Arc::new(order.len() as u32), OPEN));
        order.push(c);
    }
    order
}

fn coords(list: &[(TileCoord, Arc<u32>)]) -> Vec<TileCoord> {
    list.iter().map(|(c, _)| *c).collect()
}

#[test]
fn new_tree_asks_for_the_root_once() {
    let mut tree: QuadTree<u32> = QuadTree::new();
    assert!(tree.get_visible_tiles(&whole(3)).is_empty());
    assert_eq!(tree.next_tile(whole(3)), Some(TileCoord::root()));
    assert_eq!(tree.next_tile(whole(3)), None);
}

#[test]
fn a_window_beside_the_root_shows_and_asks_for_nothing() {
    let mut tree: QuadTree<u32> = QuadTree::new();
    assert!(!TileCoord::root().overlaps(&nowhere()));
    assert_eq!(tree.next_tile(nowhere()), None);
    // The root is still pending.
    assert_eq!(tree.next_tile(whole(0)), Some(TileCoord::root()));
    assert!(tree.insert(TileCoord::root(), Arc::new(0), OPEN));
    assert!(tree.get_visible_tiles(&nowhere()).is_empty());
    assert_eq!(tree.next_tile(nowhere()), None);
    assert_eq!(coords(&tree.get_visible_tiles(&whole(0))), vec![TileCoord::root()]);
}

#[test]
fn insert_takes_what_was_asked_for_only() {
    let mut tree = QuadTree::new();
    assert!(!tree.insert(TileCoord::root(), Arc::new(0u32), OPEN));
    assert_eq!(tree.next_tile(whole(3)), Some(TileCoord::root()));
    assert!(!tree.insert(tile(1, 0, 0), Arc::new(0), OPEN));
    assert!(tree.insert(TileCoord::root(), Arc::new(1), OPEN));
    assert!(!tree.insert(TileCoord::root(), Arc::new(2), OPEN));
    assert!(!tree.insert(tile(1, 1, 1), Arc::new(0), OPEN));
    assert!(!tree.insert(tile(2, 1, 1), Arc::new(0), OPEN));
    assert!(!tree.insert(tile(50, 1, 1), Arc::new(0), OPEN));
    assert_eq!(tree.next_tile(whole(3)), Some(tile(1, 0, 0)));
    assert!(tree.insert(tile(1, 0, 0), Arc::new(3), OPEN));
    let shown = tree.get_visible_tiles(&whole(3));
    assert_eq!(shown, vec![(TileCoord::root(), Arc::new(1)), (tile(1, 0, 0), Arc::new(3))]);
}

#[test]
fn coarse_tiles_are_computed_first_in_drawing_order() {
    let mut tree = QuadTree::new();
    let order = fill(&mut tree, whole(3));
    // Half the resolution is enough: quarters of tiles down to level 2.
    assert_eq!(order.len(), 1 + 4 + 16 + 64);
    assert_eq!(&order[..5], &[tile(0, 0, 0), tile(1, 0, 0), tile(1, 1, 0), tile(1, 0, 1), tile(1, 1, 1)]);
    assert_eq!(&order[5..9], &[tile(2, 0, 0), tile(2, 1, 0), tile(2, 0, 1), tile(2, 1, 1)]);
    assert_eq!(&order[9..13], &[tile(2, 2, 0), tile(2, 3, 0), tile(2, 2, 1), tile(2, 3, 1)]);
    assert_eq!(order[20], tile(2, 3, 3));
    assert_eq!(order[21], tile(3, 0, 0));
    assert!(order.windows(2).all(|w| w[0].level <= w[1].level));
}

#[test]
fn pending_sibling_wins_over_deeper_tiles() {
    let mut tree: QuadTree<u32> = QuadTree::new();
    let first = inside(tile(1, 0, 0), 8);
    for _ in 0..3 {
        let c = tree.next_tile(first).unwrap();
        assert!(tree.insert(c, Arc::new(0), OPEN));
    }
    // The tree has the root, its first quarter, and the first quarter of that.
    assert_eq!(tree.next_tile(whole(8)), Some(tile(1, 1, 0)));
    assert_eq!(tree.next_tile(inside(tile(1, 0, 0), 8)), Some(tile(2, 1, 0)));
}

#[test]
fn claimed_tile_is_not_handed_out_again() {
    let mut tree: QuadTree<u32> = QuadTree::new();
    fill(&mut tree, whole(0));
    let mut seen = Vec::new();
    while let Some(c) = tree.next_tile(whole(3)) {
        assert!(!seen.contains(&c));
        seen.push(c);
    }
    assert!(tree.get_visible_tiles(&whole(3)).len() > 0);
}

#[test]
fn blocked_quarters_are_not_computed() {
    let mut tree: QuadTree<u32> = QuadTree::new();
    assert_eq!(tree.next_tile(whole(1)), Some(TileCoord::root()));
    assert!(tree.insert(TileCoord::root(), Arc::new(0), [true, false, true, false]));
    assert_eq!(tree.next_tile(whole(1)), Some(tile(1, 1, 0)));
    assert_eq!(tree.next_tile(whole(1)), Some(tile(1, 1, 1)));
    assert_eq!(tree.next_tile(whole(1)), None);
    // The blocked quarters are drawn with the image of the root.
    assert!(tree.insert(tile(1, 1, 0), Arc::new(1), OPEN));
    assert!(tree.insert(tile(1, 1, 1), Arc::new(2), OPEN));
    let shown = tree.get_visible_tiles(&whole(1));
    assert_eq!(coords(&shown), vec![tile(0, 0, 0), tile(1, 1, 0), tile(1, 1, 1)]);
}

#[test]
fn only_what_shows_is_computed() {
    let mut tree: QuadTree<u32> = QuadTree::new();
    let order = fill(&mut tree, inside(tile(3, 5, 2), 4));
    assert_eq!(
        order,
        vec![
            tile(0, 0, 0),
            tile(1, 1, 0),
            tile(2, 2, 1),
            tile(3, 5, 2),
            tile(4, 10, 4),
            tile(4, 11, 4),
            tile(4, 10, 5),
            tile(4, 11, 5),
        ]
    );
}

#[test]
fn refinement_stops_at_the_deepest_level() {
    let mut tree: QuadTree<u32> = QuadTree::new();
    let deep = tile(MAX_DEPTH, 12345678901, 54321);
    let order = fill(&mut tree, inside(deep, 60));
    assert_eq!(order.len() as u32, MAX_DEPTH + 1);
    assert_eq!(*order.last().unwrap(), deep);
    assert_eq!(coords(&tree.get_visible_tiles(&inside(deep, 60))), vec![deep]);
}

#[test]
fn covered_tiles_are_not_drawn() {
    let mut tree: QuadTree<u32> = QuadTree::new();
    fill(&mut tree, whole(2));
    let shown = tree.get_visible_tiles(&whole(2));
    assert_eq!(shown.len(), 16);
    assert!(shown.iter().all(|(c, _)| c.level == 2));
    let coarse = tree.get_visible_tiles(&whole(1));
    assert_eq!(coords(&coarse), vec![tile(1, 0, 0), tile(1, 1, 0), tile(1, 0, 1), tile(1, 1, 1)]);
    assert_eq!(coords(&tree.get_visible_tiles(&whole(0))), vec![tile(0, 0, 0)]);
}

#[test]
fn drawn_tiles_cover_the_window_coarse_below_fine() {
    let mut tree: QuadTree<u32> = QuadTree::new();
    for _ in 0..7 {
        let c = tree.next_tile(whole(3)).unwrap();
        assert!(tree.insert(c, Arc::new(0), OPEN));
    }
    let shown = coords(&tree.get_visible_tiles(&whole(3)));
    // Level 1 has gaps everywhere; of level 2 there are two tiles.
    assert_eq!(
        shown,
        vec![tile(1, 0, 0), tile(2, 0, 0), tile(2, 1, 0), tile(1, 1, 0), tile(1, 0, 1), tile(1, 1, 1)]
    );
    for x in 0..8 {
        for y in 0..8 {
            let covers = |c: &TileCoord| x >> (3 - c.level) == c.x && y >> (3 - c.level) == c.y;
            assert!(shown.iter().any(covers));
        }
    }
    for (i, c) in shown.iter().enumerate() {
        assert!(!shown[i + 1..].contains(c));
    }
}

#[test]
fn tiles_are_needed_until_all_are_there() {
    let mut tree: QuadTree<u32> = QuadTree::new();
    assert!(tree.tiles_needed(&whole(2)));
    assert!(!tree.tiles_needed(&nowhere()));
    let root = tree.next_tile(whole(2)).unwrap();
    // It is on its way, whatever the window shows.
    assert!(tree.tiles_needed(&whole(2)));
    assert!(tree.tiles_needed(&nowhere()));
    assert!(tree.insert(root, Arc::new(0), OPEN));
    assert!(!tree.tiles_needed(&nowhere()));
    assert!(tree.tiles_needed(&whole(2)));
    let mut order = fill(&mut tree, whole(2));
    assert_eq!(order.len(), 20);
    assert!(!tree.tiles_needed(&whole(2)));
    assert!(tree.tiles_needed(&whole(3)));
    // A tile deep in the tree is being computed.
    order.push(tree.next_tile(inside(tile(3, 5, 2), 3)).unwrap());
    assert_eq!(order.last(), Some(&tile(3, 5, 2)));
    assert!(tree.tiles_needed(&whole(2)));
    assert!(tree.insert(tile(3, 5, 2), Arc::new(0), [true; 4]));
    assert!(!tree.tiles_needed(&whole(2)));
}

#[test]
fn tiles_asked_for_refine_drawn_ones() {
    let mut tree: QuadTree<u32> = QuadTree::new();
    let root = tree.next_tile(whole(4)).unwrap();
    assert!(tree.insert(root, Arc::new(0), OPEN));
    let mut count = 1;
    loop {
        let shown = coords(&tree.get_visible_tiles(&whole(4)));
        let Some(c) = tree.next_tile(whole(4)) else { break };
        assert!(shown.contains(&c.parent().unwrap()));
        assert!(!shown.contains(&c));
        assert!(tree.insert(c, Arc::new(count), OPEN));
        count += 1;
    }
    // All tiles of the levels 0 to 4, and no more.
    assert_eq!(count, 1 + 4 + 16 + 64 + 256);
}

#[test]
fn nothing_but_the_root_is_never_given_up() {
    let mut tree: QuadTree<u32> = QuadTree::new();
    assert!(tree.take_image().is_none());
    fill(&mut tree, whole(0));
    // Computing the root for a window that needs nothing finer fills its quarters too.
    tree.get_visible_tiles(&nowhere());
    let mut taken = 0;
    while tree.take_image().is_some() {
        taken += 1;
    }
    assert_eq!(taken, 4);
    assert_eq!(coords(&tree.get_visible_tiles(&whole(3))), vec![tile(0, 0, 0)]);
}

#[test]
fn fresh_tiles_are_locked_until_the_next_frame() {
    let mut tree: QuadTree<u32> = QuadTree::new();
    fill(&mut tree, whole(2));
    assert!(tree.take_image().is_none());
    tree.get_visible_tiles(&nowhere());
    assert!(tree.take_image().is_some());
}

#[test]
fn drawn_tiles_are_not_given_up() {
    let mut tree: QuadTree<u32> = QuadTree::new();
    fill(&mut tree, whole(2));
    let window = inside(tile(2, 3, 1), 2);
    assert_eq!(coords(&tree.get_visible_tiles(&window)), vec![tile(2, 3, 1)]);
    let mut taken = Vec::new();
    while let Some(image) = tree.take_image() {
        taken.push(*image);
    }
    // All but the root, the tile that shows and its parent.
    assert_eq!(taken.len(), 21 - 3);
    assert_eq!(coords(&tree.get_visible_tiles(&window)), vec![tile(2, 3, 1)]);
}

#[test]
fn deepest_tiles_go_first_in_the_order_of_computing() {
    let mut tree: QuadTree<u32> = QuadTree::new();
    let order = fill(&mut tree, whole(2));
    assert_eq!(order.len(), 21);
    tree.get_visible_tiles(&nowhere());
    let mut taken = Vec::new();
    while let Some(image) = tree.take_image() {
        taken.push(order[*image as usize]);
    }
    // The tiles of level 2 as computed, then those of level 1 as they were emptied.
    let mut expected: Vec<TileCoord> = order[5..].to_vec();
    expected.extend(&order[1..5]);
    assert_eq!(taken, expected);
}

#[test]
fn emptied_tiles_go_before_tiles_that_never_had_parts() {
    let mut tree: QuadTree<u32> = QuadTree::new();
    fill(&mut tree, whole(0));
    // Parts for the last quarter only.
    let mut parts = 0;
    while let Some(c) = tree.next_tile(inside(tile(1, 1, 1), 3)) {
        assert!(tree.insert(c, Arc::new(100 + parts), OPEN));
        parts += 1;
    }
    assert_eq!(parts, 4 + 16);
    tree.get_visible_tiles(&nowhere());
    let mut taken = Vec::new();
    while let Some(image) = tree.take_image() {
        taken.push(*image);
    }
    // Level 3 as computed, level 2 as emptied; then of level 1 first the emptied tile 4.
    let mut expected: Vec<u32> = (104..120).collect();
    expected.extend(100..104);
    expected.extend([4, 1, 2, 3]);
    assert_eq!(taken, expected);
}

#[test]
fn given_up_tile_is_computed_again() {
    let mut tree: QuadTree<u32> = QuadTree::new();
    let order = fill(&mut tree, whole(0));
    tree.get_visible_tiles(&nowhere());
    let image = tree.take_image().unwrap();
    assert_eq!(order[*image as usize], tile(1, 0, 0));
    assert_eq!(tree.next_tile(whole(0)), Some(tile(1, 0, 0)));
    assert!(tree.insert(tile(1, 0, 0), image, OPEN));
}

#[test]
fn tile_lost_with_its_parent_is_refused() {
    let mut tree: QuadTree<u32> = QuadTree::new();
    fill(&mut tree, whole(0));
    let lost = tree.next_tile(inside(tile(1, 0, 0), 2)).unwrap();
    assert_eq!(lost, tile(2, 0, 0));
    tree.get_visible_tiles(&nowhere());
    assert_eq!(tree.take_image().map(|image| *image), Some(1));
    assert!(!tree.insert(lost, Arc::new(7), OPEN));
}

#[test]
fn parent_with_a_part_being_computed_is_not_emptied() {
    let mut tree: QuadTree<u32> = QuadTree::new();
    fill(&mut tree, whole(0));
    let a = tree.next_tile(inside(tile(1, 0, 0), 2)).unwrap();
    let b = tree.next_tile(inside(tile(1, 0, 0), 2)).unwrap();
    assert!(tree.insert(a, Arc::new(10), OPEN));
    tree.get_visible_tiles(&nowhere());
    assert_eq!(tree.take_image().map(|image| *image), Some(10));
    // The parent, image 1, waits for `b` and is not given up; its siblings are.
    assert_eq!(tree.take_image().map(|image| *image), Some(2));
    assert_eq!(tree.take_image().map(|image| *image), Some(3));
    assert_eq!(tree.take_image().map(|image| *image), Some(4));
    assert!(tree.take_image().is_none());
    assert!(tree.insert(b, Arc::new(11), OPEN));
}

fn budget(usage: u64, limit: u64) -> HeapBudget {
    let mut b = HeapBudget { heap_usage: [0; 16], heap_budget: [0; 16], heap_count: 2 };
    b.heap_usage[1] = usage;
    b.heap_budget[1] = limit;
    b
}

#[test]
fn images_come_from_the_arena_then_new_memory_then_old_tiles() {
    let mut tree: QuadTree<u32> = QuadTree::new();
    let mut pool = TilePool::new();
    let tight = budget(100, 150);
    let roomy = budget(100, 201);
    assert!(matches!(tree.take_or_alloc(&mut pool, &tight, 1), TileGrant::NewArena));
    assert_eq!(pool.allocate_from_new_arena(1000, 256), 0);
    assert!(matches!(tree.take_or_alloc(&mut pool, &tight, 1), TileGrant::Slot(1024)));
    for i in 2..1024 {
        match tree.take_or_alloc(&mut pool, &tight, 1) {
            TileGrant::Slot(offset) => assert_eq!(offset, i * 1024),
            _ => panic!("the arena has slots left"),
        }
    }
    assert!(pool.exhausted());
    assert!(matches!(tree.take_or_alloc(&mut pool, &roomy, 1), TileGrant::NewArena));
    // Nothing to give up yet.
    assert!(matches!(tree.take_or_alloc(&mut pool, &tight, 1), TileGrant::NewArena));
    fill(&mut tree, whole(0));
    tree.get_visible_tiles(&nowhere());
    match tree.take_or_alloc(&mut pool, &tight, 1) {
        TileGrant::Reuse(image) => assert_eq!(*image, 1),
        _ => panic!("there is a tile to give up"),
    }
    assert!(matches!(tree.take_or_alloc(&mut pool, &roomy, 1), TileGrant::NewArena));
}

#[test]
fn node_finds_its_parts() {
    let inner = QuadTreeNode::new(Arc::new(5u32), [true, false, false, false]);
    let mut node = QuadTreeNode::new(Arc::new(4u32), OPEN);
    assert!(node.children[2].as_ref().is_none());
    node.children[2] = ChildNode::Present(Box::new(inner));
    assert_eq!(node.get(tile(0, 0, 0)), Some(&Arc::new(4)));
    assert_eq!(node.get(tile(1, 0, 1)), Some(&Arc::new(5)));
    assert_eq!(node.get(tile(1, 1, 1)), None);
    assert_eq!(node.get(tile(2, 0, 2)), None);
    assert!(matches!(node.get_slot(tile(2, 1, 2)), Some((1, _))));
    assert!(node.get_slot(tile(2, 3, 2)).is_none());
    assert!(matches!(node.children[2].as_ref().unwrap().children[0], ChildNode::Blocked));
}
