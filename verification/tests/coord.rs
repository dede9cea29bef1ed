use fractal_tiles::coord::{
    TileCoord, Viewport, CORNER_LEVEL, GRID_LEVEL, ROOT_BOTTOM, ROOT_EXTENT, ROOT_LEFT,
};

fn tile(level: u32, x: u64, y: u64) -> TileCoord {
    TileCoord { level, x, y }
}

/// The grid has 2^61 units to the unit of the plane.
const UNIT: f64 = 2305843009213693952.0;

fn viewport(left: f64, right: f64, bottom: f64, top: f64) -> Viewport {
    Viewport {
        left: (left * UNIT).floor() as i64,
        right: (right * UNIT).ceil() as i64,
        bottom: (bottom * UNIT).floor() as i64,
        top: (top * UNIT).ceil() as i64,
        target_level: 3,
    }
}

fn float_extent(c: &TileCoord) -> f64 {
    4.0 / (1u64 << c.level) as f64
}

fn float_origin(c: &TileCoord) -> (f64, f64) {
    let ext = float_extent(c);
    (-2.5 + c.x as f64 * ext, -2.0 + c.y as f64 * ext)
}

fn float_overlaps(c: &TileCoord, left: f64, right: f64, bottom: f64, top: f64) -> bool {
    let (ox, oy) = float_origin(c);
    let ext = float_extent(c);
    ox < right && ox + ext > left && oy < top && oy + ext > bottom
}

#[test]
fn root_is_level_zero_and_has_no_parent() {
    assert_eq!(TileCoord::root(), tile(0, 0, 0));
    assert_eq!(TileCoord::root().parent(), None);
}

#[test]
fn children_come_in_quadrant_order() {
    assert_eq!(
        tile(3, 5, 2).children(),
        [tile(4, 10, 4), tile(4, 11, 4), tile(4, 10, 5), tile(4, 11, 5)]
    );
}

#[test]
fn parent_undoes_children() {
    let c = tile(7, 100, 27);
    for k in c.children() {
        assert_eq!(k.parent(), Some(c));
    }
    assert_eq!(tile(7, 101, 27).parent(), Some(tile(6, 50, 13)));
}

#[test]
fn child_strips_the_top_bit() {
    assert_eq!(tile(1, 1, 0).child(), (1, tile(0, 0, 0)));
    assert_eq!(tile(1, 0, 1).child(), (2, tile(0, 0, 0)));
    assert_eq!(tile(3, 0b101, 0b011).child(), (1, tile(2, 0b01, 0b11)));
    assert_eq!(tile(3, 0b101, 0b111).child(), (3, tile(2, 0b01, 0b11)));
    assert_eq!(tile(64, u64::MAX, 1).child(), (1, tile(63, u64::MAX >> 1, 1)));
}

#[test]
fn child_path_leads_back_to_the_tile() {
    let c = tile(9, 301, 77);
    let mut steps = Vec::new();
    let mut rest = c;
    while rest.level > 0 {
        let (q, r) = rest.child();
        steps.push(q);
        rest = r;
    }
    let mut at = TileCoord::root();
    for q in steps {
        at = at.children()[q];
    }
    assert_eq!(at, c);
}

#[test]
fn extents_halve_down_to_one_unit() {
    assert_eq!(tile(0, 0, 0).tile_extent(), ROOT_EXTENT);
    assert_eq!(tile(1, 0, 0).tile_extent(), ROOT_EXTENT / 2);
    assert_eq!(tile(46, 0, 0).tile_extent(), 1 << 17);
    assert_eq!(tile(GRID_LEVEL, 0, 0).tile_extent(), 1);
    for level in 0..=GRID_LEVEL {
        let c = tile(level, 0, 0);
        assert_eq!(c.tile_extent() as f64 / UNIT, float_extent(&c));
        assert_eq!(tile(level, 7, 9).tile_extent(), c.tile_extent());
        if level < GRID_LEVEL {
            assert_eq!(tile(level + 1, 1, 0).tile_extent() * 2, c.tile_extent());
        }
    }
}

#[test]
fn origin_of_known_tiles() {
    assert_eq!(tile(0, 0, 0).origin(), (ROOT_LEFT, ROOT_BOTTOM));
    assert_eq!(ROOT_LEFT as f64 / UNIT, -2.5);
    assert_eq!(ROOT_BOTTOM as f64 / UNIT, -2.0);
    assert_eq!(ROOT_EXTENT as f64 / UNIT, 4.0);
    let quarter = (ROOT_EXTENT / 4) as i64;
    assert_eq!(tile(2, 3, 1).origin(), (ROOT_LEFT + 3 * quarter, ROOT_BOTTOM + quarter));
}

#[test]
fn grid_corners_are_the_binary64_corners() {
    let mut seed: u64 = 12345;
    for level in 0..=CORNER_LEVEL {
        for _ in 0..20 {
            seed = seed.wrapping_mul(6364136223846793005).wrapping_add(1442695040888963407);
            let x = if level == 0 { 0 } else { seed >> (64 - level) };
            seed = seed.wrapping_mul(6364136223846793005).wrapping_add(1442695040888963407);
            let y = if level == 0 { 0 } else { seed >> (64 - level) };
            let c = tile(level, x, y);
            let (gx, gy) = c.origin();
            assert_eq!((gx as f64 / UNIT, gy as f64 / UNIT), float_origin(&c));
            assert_eq!(c.tile_extent() as f64 / UNIT, float_extent(&c));
            let (fx, fy) = float_origin(&c);
            for dx in [-0.3, -1e-9, 0.0, 1e-17, 0.37] {
                let (l, r, b, t) = (fx + dx, fx + dx + 0.01, fy - 0.02, fy + 1e-3);
                assert_eq!(c.overlaps(&viewport(l, r, b, t)), float_overlaps(&c, l, r, b, t));
            }
        }
    }
}

#[test]
fn touching_edges_do_not_overlap() {
    let c = tile(2, 1, 1); // [-1.5, -0.5] x [-1.0, 0.0]
    assert!(c.overlaps(&viewport(-1.0, 0.0, -0.5, 0.5)));
    assert!(!c.overlaps(&viewport(-0.5, 0.5, -0.5, 0.5)));
    assert!(!c.overlaps(&viewport(-3.0, -1.5, -0.5, 0.5)));
    assert!(!c.overlaps(&viewport(-1.0, 0.0, 0.0, 0.5)));
    assert!(!c.overlaps(&viewport(-1.0, 0.0, -2.0, -1.0)));
}

#[test]
fn parent_of_a_tile_in_view_is_in_view() {
    let vp = viewport(-0.7501, -0.7499, 0.0999, 0.1001);
    let mut c = TileCoord::root();
    for _ in 0..40 {
        let k = c.children().into_iter().find(|k| k.overlaps(&vp)).unwrap();
        assert!(c.overlaps(&vp));
        c = k;
    }
}

#[test]
fn coarsen_goes_one_level_up() {
    let vp = viewport(0.0, 1.0, 0.0, 1.0);
    assert_eq!(vp.coarsen(), Viewport { target_level: 2, ..vp });
    let coarse = Viewport { target_level: 0, ..vp };
    assert_eq!(coarse.coarsen(), coarse);
}
