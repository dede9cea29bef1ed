use fractal_tiles::coord::TileCoord;
use fractal_tiles::leaves::Leaves;
use fractal_tiles::locks::Locks;

fn tile(level: u32, x: u64, y: u64) -> TileCoord {
    TileCoord { level, x, y }
}

#[test]
fn locks_tell_tiles_apart() {
    let mut locks = Locks::new();
    let big = (1u64 << 46) - 1;
    assert!(!locks.contains(&tile(0, 0, 0)));
    locks.insert(tile(46, big, 0));
    locks.insert(tile(3, 1, 0));
    assert!(locks.contains(&tile(46, big, 0)));
    assert!(!locks.contains(&tile(46, 0, big)));
    assert!(!locks.contains(&tile(46, big, 1)));
    assert!(locks.contains(&tile(3, 1, 0)));
    assert!(!locks.contains(&tile(3, 0, 1)));
    assert!(!locks.contains(&tile(4, 1, 0)));
    locks.clear();
    assert!(!locks.contains(&tile(3, 1, 0)));
}

#[test]
fn leaves_come_deepest_first_and_emptied_first() {
    let mut leaves = Leaves::new(46);
    let mut locks = Locks::new();
    assert_eq!(leaves.first_unlocked(&locks), None);
    leaves.add_computed(tile(2, 0, 0));
    leaves.add_computed(tile(3, 1, 1));
    leaves.add_computed(tile(3, 2, 2));
    leaves.add_emptied(tile(3, 5, 5));
    leaves.add_computed(tile(3, 1, 1));
    let mut order = Vec::new();
    while let Some(c) = leaves.first_unlocked(&locks) {
        locks.insert(c);
        order.push(c);
    }
    assert_eq!(order, vec![tile(3, 5, 5), tile(3, 1, 1), tile(3, 2, 2), tile(2, 0, 0)]);
}

#[test]
fn removed_leaves_keep_the_order_of_the_others() {
    let mut leaves = Leaves::new(2);
    let locks = Locks::new();
    for x in 0..4 {
        leaves.add_computed(tile(2, x, 0));
    }
    leaves.remove(tile(2, 0, 0));
    leaves.remove(tile(2, 2, 0));
    leaves.remove(tile(2, 2, 0));
    assert_eq!(leaves.first_unlocked(&locks), Some(tile(2, 1, 0)));
    leaves.remove(tile(2, 1, 0));
    assert_eq!(leaves.first_unlocked(&locks), Some(tile(2, 3, 0)));
    leaves.add_emptied(tile(2, 0, 0));
    assert_eq!(leaves.first_unlocked(&locks), Some(tile(2, 0, 0)));
    leaves.remove(tile(2, 0, 0));
    leaves.remove(tile(2, 3, 0));
    assert_eq!(leaves.first_unlocked(&locks), None);
}
