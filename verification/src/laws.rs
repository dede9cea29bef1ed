//! What holds of the tree of tiles across its operations.

use crate::coord::{
    lemma_lex_branch, lex_before, TileCoord, Viewport, GRID_LEVEL, MAX_DEPTH, ROOT_BOTTOM,
    ROOT_EXTENT, ROOT_LEFT,
};
use crate::leaves::{
    eviction_order, first_outside, leaf_computed, leaf_removed, lemma_eviction_order,
    lemma_first_outside, lemma_leaf_added, lemma_leaf_removed, listed, tiles_of, LevelOrder,
};
use crate::locks::lemma_computable_finite;
use crate::model::{
    all_parts_idle, awaited, claimed, cleared, drawn, fine_enough, given_up, has_gap, idle,
    incomplete, inserted, is_next, lemma_above_present, lemma_part_present, lemma_planted,
    lists_drawn, no_part_present, planted, refinable, root_tile, shown, some_computing, sooner,
    taken, tree_shaped, uncomputed, victim, wanted, within, Slot, TreeModel,
};
use crate::memory::HeapBudget;
use crate::node::lemma_quarter_within;
use crate::pool::PoolModel;
use crate::quadtree::{granted, TileGrant};
use std::sync::Arc;
use vstd::arithmetic::power2::pow2;
use vstd::prelude::*;

verus! {

/// No sequence comes before itself.
pub proof fn law_lex_irreflexive(a: Seq<int>)
    ensures
        !lex_before(a, a),
    decreases a.len(),
{
    if a.len() > 0 {
        law_lex_irreflexive(a.drop_first());
    }
}

/// Coming before is transitive.
pub proof fn law_lex_transitive(a: Seq<int>, b: Seq<int>, c: Seq<int>)
    requires
        lex_before(a, b),
        lex_before(b, c),
    ensures
        lex_before(a, c),
    decreases a.len(),
{
    if a.len() > 0 && a[0] == b[0] && b[0] == c[0] {
        law_lex_transitive(a.drop_first(), b.drop_first(), c.drop_first());
    }
}

/// Of two different sequences one comes before the other.
pub proof fn law_lex_total(a: Seq<int>, b: Seq<int>)
    ensures
        a == b || lex_before(a, b) || lex_before(b, a),
    decreases a.len(),
{
    if a.len() > 0 && b.len() > 0 && a[0] == b[0] {
        law_lex_total(a.drop_first(), b.drop_first());
        if a.drop_first() == b.drop_first() {
            assert(a =~= seq![a[0]] + a.drop_first());
            assert(b =~= seq![b[0]] + b.drop_first());
        }
    } else if a.len() == 0 && b.len() == 0 {
        assert(a =~= b);
    }
}

/// Drawing order and computing order each decide between any two tiles.
pub proof fn law_orders_total(a: TileCoord, b: TileCoord)
    requires
        a.valid(),
        b.valid(),
        a != b,
    ensures
        a.before(b) != b.before(a),
        sooner(a, b) != sooner(b, a),
{
    law_lex_total(a.path(), b.path());
    if a.path() == b.path() {
        a.lemma_path_injective(b);
    }
    if a.before(b) && b.before(a) {
        law_lex_transitive(a.path(), b.path(), a.path());
        law_lex_irreflexive(a.path());
    }
}

/// A quarter of a tile is half as wide as the tile, wherever the tile lies.
pub proof fn law_extent_halves(c: TileCoord, q: int)
    requires
        c.level < GRID_LEVEL,
    ensures
        c.child_at(q).level == c.level + 1,
        2 * c.child_at(q).extent() == c.extent(),
        c.extent() == (TileCoord { level: c.level, x: 0, y: 0 }).extent(),
{
    vstd::arithmetic::power2::lemma_pow2_unfold((GRID_LEVEL - c.level) as nat);
}

/// The quarters of a tile cut it into four equal squares.
pub proof fn law_quarters_tile_parent(c: TileCoord, q: int)
    requires
        c.valid(),
        c.level < GRID_LEVEL,
        0 <= q < 4,
    ensures
        c.child_at(q).valid(),
        2 * c.child_at(q).extent() == c.extent(),
        c.child_at(q).left() == c.left() + (q % 2) * c.child_at(q).extent(),
        c.child_at(q).bottom() == c.bottom() + (q / 2) * c.child_at(q).extent(),
{
    c.lemma_child(q);
    let e = c.child_at(q).extent();
    law_extent_halves(c, q);
    let x = c.x as int;
    let y = c.y as int;
    let a = q % 2;
    let b = q / 2;
    assert((x * 2 + a) * e == x * (2 * e) + a * e) by (nonlinear_arith);
    assert((y * 2 + b) * e == y * (2 * e) + b * e) by (nonlinear_arith);
}

/// The tiles of a level stand side by side, from the corner of the root on, in equal squares: `r` is
/// right of `c`, and `u` above it. As many as there are along an edge reach from end to end.
pub proof fn law_side_by_side(c: TileCoord, r: TileCoord, u: TileCoord)
    requires
        c.level <= GRID_LEVEL,
        r.level == c.level,
        r.x == c.x + 1,
        u.level == c.level,
        u.y == c.y + 1,
    ensures
        r.left() == c.left() + c.extent(),
        u.bottom() == c.bottom() + c.extent(),
        r.extent() == c.extent(),
        c.x == 0 ==> c.left() == ROOT_LEFT,
        c.y == 0 ==> c.bottom() == ROOT_BOTTOM,
        c.extent() * pow2(c.level as nat) == ROOT_EXTENT,
        8 * ROOT_LEFT == -5 * ROOT_EXTENT,
        2 * ROOT_BOTTOM == -ROOT_EXTENT,
{
    let e = c.extent();
    let x = c.x as int;
    let y = c.y as int;
    assert((x + 1) * e == x * e + e && (y + 1) * e == y * e + e && 0 * e == 0) by (nonlinear_arith);
    vstd::arithmetic::power2::lemma_pow2_adds((GRID_LEVEL - c.level) as nat, c.level as nat);
    vstd::arithmetic::power2::lemma2_to64_rest();
}

/// A tile shows in a window just if some point of the window lies inside the tile, off its edges.
/// Points are given in half grid units; the window may be a single point or line.
pub proof fn law_in_view(c: TileCoord, vp: Viewport)
    requires
        c.valid(),
        c.level <= GRID_LEVEL,
        vp.left <= vp.right,
        vp.bottom <= vp.top,
    ensures
        c.in_view(vp) <==> exists|x: int, y: int| #[trigger]
            inside(c, x, y) && 2 * vp.left <= x <= 2 * vp.right && 2 * vp.bottom <= y <= 2 * vp.top,
{
    c.lemma_in_root();
    if c.in_view(vp) {
        let x = if 2 * c.left() + 1 >= 2 * vp.left {
            2 * c.left() + 1
        } else {
            2 * vp.left
        };
        let y = if 2 * c.bottom() + 1 >= 2 * vp.bottom {
            2 * c.bottom() + 1
        } else {
            2 * vp.bottom
        };
        assert(inside(c, x, y));
    }
}

/// The point, in half grid units, lies inside the tile and not on its edges.
pub open spec fn inside(c: TileCoord, x: int, y: int) -> bool {
    &&& 2 * c.left() < x < 2 * (c.left() + c.extent())
    &&& 2 * c.bottom() < y < 2 * (c.bottom() + c.extent())
}

/// One tile covers another just if its square contains the other's.
pub proof fn law_covers_is_containment(a: TileCoord, b: TileCoord)
    requires
        a.valid(),
        b.valid(),
        a.level <= GRID_LEVEL,
        b.level <= GRID_LEVEL,
    ensures
        a.covers(b) <==> {
            &&& a.left() <= b.left()
            &&& b.left() + b.extent() <= a.left() + a.extent()
            &&& a.bottom() <= b.bottom()
            &&& b.bottom() + b.extent() <= a.bottom() + a.extent()
        },
    decreases b.level,
{
    a.lemma_path();
    b.lemma_path();
    let ea = a.extent();
    let eb = b.extent();
    a.lemma_in_root();
    b.lemma_in_root();
    if a.level > b.level {
        vstd::arithmetic::power2::lemma_pow2_strictly_increases(
            (GRID_LEVEL - a.level) as nat,
            (GRID_LEVEL - b.level) as nat,
        );
    } else if a.level == b.level {
        let ax = a.x as int;
        let ay = a.y as int;
        let bx = b.x as int;
        let by = b.y as int;
        if a.covers(b) {
            assert(a.path() =~= b.path());
            a.lemma_path_injective(b);
        } else if a.left() == b.left() && a.bottom() == b.bottom() {
            assert(ax == bx && ay == by) by (nonlinear_arith)
                requires
                    ax * ea == bx * ea,
                    ay * ea == by * ea,
                    ea > 0,
            ;
            assert(a == b);
            assert(a.path() =~= b.path().subrange(0, b.level as int));
        }
    } else {
        let p = b.up();
        b.lemma_parent();
        p.lemma_path();
        let q = b.slot_in_parent();
        law_quarters_tile_parent(p, q);
        law_covers_is_containment(a, p);
        let (hx, hy) = (q % 2, q / 2);
        assert(0 <= hx * eb <= eb && 0 <= hy * eb <= eb) by (nonlinear_arith)
            requires
                0 <= hx <= 1,
                0 <= hy <= 1,
                eb > 0,
        ;
        if a.covers(b) {
            a.lemma_covers_up(b);
        } else {
            // Then it does not cover the parent either, whose edges lie on the same coarser grid.
            if a.covers(p) {
                assert(a.path() =~= b.path().subrange(0, a.level as int)) by {
                    assert forall|i: int| 0 <= i < a.level implies a.path()[i] == b.path()[i] by {
                        assert(a.path()[i] == p.path().subrange(0, a.level as int)[i]);
                    }
                }
            }
            let k = pow2((p.level - a.level) as nat) as int;
            vstd::arithmetic::power2::lemma_pow2_adds(
                (GRID_LEVEL - p.level) as nat,
                (p.level - a.level) as nat,
            );
            vstd::arithmetic::power2::lemma_pow2_pos((p.level - a.level) as nat);
            let ep = p.extent();
            assert(ea == ep * k);
            let (ax, ay, px, py) = (a.x as int, a.y as int, p.x as int, p.y as int);
            if a.left() <= b.left() && b.left() + eb <= a.left() + ea && a.bottom() <= b.bottom()
                && b.bottom() + eb <= a.bottom() + ea {
                lemma_same_grid(ax, px, k, ep, eb, q % 2);
                lemma_same_grid(ay, py, k, ep, eb, q / 2);
            }
        }
    }
}

/// An interval on a coarse grid that contains half of a cell of a finer grid contains the cell.
proof fn lemma_same_grid(a: int, p: int, k: int, ep: int, eb: int, h: int)
    requires
        ep == 2 * eb,
        eb > 0,
        k > 0,
        0 <= h <= 1,
        a * (ep * k) <= p * ep + h * eb,
        p * ep + h * eb + eb <= a * (ep * k) + ep * k,
    ensures
        a * (ep * k) <= p * ep,
        p * ep + ep <= a * (ep * k) + ep * k,
{
    let u = a * k;
    assert(a * (ep * k) == u * ep) by (nonlinear_arith)
        requires
            u == a * k,
    ;
    assert(h * eb <= eb && h * eb >= 0) by (nonlinear_arith)
        requires
            0 <= h <= 1,
            eb > 0,
    ;
    assert(u <= p) by (nonlinear_arith)
        requires
            u * ep <= p * ep + eb,
            ep == 2 * eb,
            eb > 0,
    ;
    assert(ep * k == k * ep) by (nonlinear_arith);
    assert(p + 1 <= u + k) by (nonlinear_arith)
        requires
            p * ep + eb <= u * ep + k * ep,
            ep == 2 * eb,
            eb > 0,
    ;
    assert(u * ep <= p * ep && (p + 1) * ep <= (u + k) * ep) by (nonlinear_arith)
        requires
            u <= p,
            p + 1 <= u + k,
            ep > 0,
    ;
    assert((p + 1) * ep == p * ep + ep && (u + k) * ep == u * ep + k * ep) by (nonlinear_arith);
}

/// The parent of a tile is the one tile that the tile is a quarter of.
pub proof fn law_parent(c: TileCoord, p: TileCoord, q: int)
    requires
        c.valid(),
        c.level >= 1,
        p.valid(),
        0 <= q < 4,
    ensures
        c.up().valid(),
        exists|k: int| 0 <= k < 4 && #[trigger] c.up().child_at(k) == c,
        p.level < 64 && p.child_at(q) == c ==> p == c.up(),
{
    c.lemma_parent();
    assert(c.up().child_at(c.slot_in_parent()) == c);
    if p.level < 64 {
        p.lemma_child(q);
    }
}

/// Descending into a quarter of the root: the quarter covers the tile, and what is left of the way
/// leads to where, in the root, the tile lies in the quarter, at twice the size.
pub proof fn law_descent(c: TileCoord)
    requires
        c.valid(),
        1 <= c.level <= GRID_LEVEL,
    ensures
        0 <= c.quadrant() < 4,
        root_tile().child_at(c.quadrant()).covers(c),
        c.rest().valid(),
        c.rest().level == c.level - 1,
        c.rest().extent() == 2 * c.extent(),
        c.rest().left() - ROOT_LEFT == 2 * (c.left() - root_tile().child_at(c.quadrant()).left()),
        c.rest().bottom() - ROOT_BOTTOM == 2 * (c.bottom() - root_tile().child_at(
            c.quadrant(),
        ).bottom()),
        c.path() == seq![c.quadrant()] + c.rest().path(),
{
    let q = c.quadrant();
    let k = root_tile().child_at(q);
    c.lemma_rest_valid();
    c.lemma_path();
    assert(root_tile().valid()) by {
        vstd::arithmetic::power2::lemma2_to64();
    }
    root_tile().lemma_path();
    root_tile().lemma_child(q);
    k.lemma_path();
    assert(c.path()[0] == q);
    assert(k.path()[0] == q);
    assert(k.path() =~= c.path().subrange(0, 1));
    vstd::arithmetic::power2::lemma_pow2_unfold((GRID_LEVEL - c.level + 1) as nat);
    vstd::arithmetic::power2::lemma_pow2_adds((c.level - 1) as nat, (GRID_LEVEL - c.level) as nat);
    let h = c.half();
    let e = c.extent();
    assert(k.extent() == h * e);
    let (a, b, x, y) = (q % 2, q / 2, c.rest().x as int, c.rest().y as int);
    assert((a * h + x) * e == a * (h * e) + x * e && x * (2 * e) == 2 * (x * e)) by (nonlinear_arith);
    assert((b * h + y) * e == b * (h * e) + y * e && y * (2 * e) == 2 * (y * e)) by (nonlinear_arith);
}

/// Through a window that is not empty, a tile that shows has a quarter that shows.
pub proof fn law_some_quarter_in_view(c: TileCoord, vp: Viewport)
    requires
        c.valid(),
        c.level < GRID_LEVEL,
        c.in_view(vp),
        vp.left < vp.right,
        vp.bottom < vp.top,
    ensures
        exists|q: int| 0 <= q < 4 && #[trigger] c.child_at(q).in_view(vp),
{
    law_quarters_tile_parent(c, 0);
    law_quarters_tile_parent(c, 1);
    law_quarters_tile_parent(c, 2);
    law_quarters_tile_parent(c, 3);
    let e = c.child_at(0).extent();
    let right = c.left() + e <= vp.left;
    let upper = c.bottom() + e <= vp.bottom;
    let q: int = if upper {
        if right { 3 } else { 2 }
    } else {
        if right { 1 } else { 0 }
    };
    assert(c.child_at(q).in_view(vp));
}

/// What is drawn is drawn once.
pub proof fn law_drawn_once<I>(
    list: Seq<(TileCoord, Arc<I>)>,
    slots: Map<TileCoord, Slot<I>>,
    vp: Viewport,
    i: int,
    j: int,
)
    requires
        lists_drawn(list, slots, vp, root_tile(), 4),
        0 <= i < j < list.len(),
    ensures
        list[i].0 != list[j].0,
{
    assert(list[i].0.before(list[j].0));
    law_lex_irreflexive(list[i].0.path());
}

/// A tile is drawn before its parts, so that finer images end up on top of coarser ones.
pub proof fn law_coarse_below_fine<I>(
    list: Seq<(TileCoord, Arc<I>)>,
    slots: Map<TileCoord, Slot<I>>,
    vp: Viewport,
    i: int,
    j: int,
)
    requires
        lists_drawn(list, slots, vp, root_tile(), 4),
        0 <= i < list.len(),
        0 <= j < list.len(),
        list[i].0.covers(list[j].0),
        list[i].0 != list[j].0,
    ensures
        i < j,
{
    let a = list[i].0;
    let b = list[j].0;
    assert(drawn(slots, vp, a) && drawn(slots, vp, b));
    a.lemma_path();
    b.lemma_path();
    if a.level == b.level {
        assert(a.path() =~= b.path());
        a.lemma_path_injective(b);
    }
    assert(a.path().is_prefix_of(a.path())) by {
        assert(a.path() =~= a.path().subrange(0, a.level as int));
    }
    lemma_lex_branch(a.path(), a.path(), b.path());
    if j < i {
        assert(b.before(a));
        law_lex_transitive(a.path(), b.path(), a.path());
        law_lex_irreflexive(a.path());
    }
}

/// Whatever is drawn or asked for shows in the window; what is drawn has an image, and what is asked
/// for has none yet.
pub proof fn law_only_what_shows<I>(slots: Map<TileCoord, Slot<I>>, vp: Viewport, c: TileCoord)
    ensures
        drawn(slots, vp, c) ==> c.in_view(vp) && slots[c] is Present,
        wanted(slots, vp, c) ==> c.in_view(vp) && !(slots[c] is Present),
{
}

/// Without an image of the root nothing is drawn.
pub proof fn law_nothing_without_root<I>(
    slots: Map<TileCoord, Slot<I>>,
    vp: Viewport,
    c: TileCoord,
)
    requires
        tree_shaped(slots),
        !(slots[root_tile()] is Present),
    ensures
        !drawn(slots, vp, c),
{
    if drawn(slots, vp, c) && c != root_tile() {
        assert(root_tile().valid());
        assert(root_tile().path() =~= c.path().subrange(0, 0));
        lemma_above_present(slots, root_tile(), c);
    }
}

/// There is only one way to list what is drawn.
pub proof fn law_listing_unique<I>(
    a: Seq<(TileCoord, Arc<I>)>,
    b: Seq<(TileCoord, Arc<I>)>,
    slots: Map<TileCoord, Slot<I>>,
    vp: Viewport,
)
    requires
        lists_drawn(a, slots, vp, root_tile(), 4),
        lists_drawn(b, slots, vp, root_tile(), 4),
    ensures
        a == b,
{
    lemma_listing_prefix(a, b, slots, vp, a.len() as int);
    lemma_listing_prefix(b, a, slots, vp, b.len() as int);
    assert(a =~= b);
}

/// Two listings agree as far as the first goes.
proof fn lemma_listing_prefix<I>(
    a: Seq<(TileCoord, Arc<I>)>,
    b: Seq<(TileCoord, Arc<I>)>,
    slots: Map<TileCoord, Slot<I>>,
    vp: Viewport,
    n: int,
)
    requires
        lists_drawn(a, slots, vp, root_tile(), 4),
        lists_drawn(b, slots, vp, root_tile(), 4),
        0 <= n <= a.len(),
    ensures
        n <= b.len(),
        forall|i: int| 0 <= i < n ==> a[i] == b[i],
    decreases n,
{
    if n > 0 {
        lemma_listing_prefix(a, b, slots, vp, n - 1);
        let c = a[n - 1].0;
        assert(drawn(slots, vp, c) && within(root_tile(), 4, c));
        let j = choose|j: int| 0 <= j < b.len() && (#[trigger] b[j]).0 == c;
        // The tile is not among the first n - 1 of `b`, which are those of `a`.
        if j < n - 1 {
            assert(a[j] == b[j]);
            law_drawn_once(a, slots, vp, j, n - 1);
        }
        if j > n - 1 {
            // Then what stands at n - 1 in `b` comes before it, but stands nowhere in `a`.
            let d = b[n - 1].0;
            assert(d.before(c));
            assert(drawn(slots, vp, d) && within(root_tile(), 4, d));
            let k = choose|k: int| 0 <= k < a.len() && (#[trigger] a[k]).0 == d;
            if k < n - 1 {
                assert(a[k] == b[k]);
                law_drawn_once(b, slots, vp, k, n - 1);
            } else if k == n - 1 {
                law_lex_irreflexive(c.path());
            } else {
                assert(c.before(d));
                law_lex_transitive(c.path(), d.path(), c.path());
                law_lex_irreflexive(c.path());
            }
        }
        assert(slots[c] == Slot::Present(a[n - 1].1));
        assert(slots[c] == Slot::Present(b[n - 1].1));
    }
}

/// `c` is the best image there is for the place `d`: it is drawn there, nothing finer is, and
/// either it is fine enough for the window or the next finer image does not exist.
pub open spec fn best_at<I>(
    slots: Map<TileCoord, Slot<I>>,
    vp: Viewport,
    c: TileCoord,
    d: TileCoord,
) -> bool {
    &&& drawn(slots, vp, c)
    &&& c.covers(d)
    &&& forall|e: TileCoord| #[trigger] drawn(slots, vp, e) && e.covers(d) ==> e.level <= c.level
    &&& c.level >= vp.target_level || c.level >= 46 || !(slots[c.child_at(
        d.path()[c.level as int],
    )] is Present)
}

/// Once the root has an image, the drawn tiles leave no place of the window blank, and each place
/// gets the best image there is. A place is a tile fine enough for the window, or of the deepest
/// level that there is, 46.
pub proof fn law_window_covered<I>(slots: Map<TileCoord, Slot<I>>, vp: Viewport, d: TileCoord)
    requires
        tree_shaped(slots),
        slots[root_tile()] is Present,
        d.on_grid(),
        d.in_view(vp),
        d.level >= vp.target_level || d.level >= 46,
    ensures
        exists|c: TileCoord| best_at(slots, vp, c, d),
{
    assert(root_tile().valid());
    assert(root_tile().path() =~= d.path().subrange(0, 0));
    root_tile().lemma_view_covers(d, vp);
    lemma_window_covered_below(slots, vp, root_tile(), d);
}

proof fn lemma_window_covered_below<I>(
    slots: Map<TileCoord, Slot<I>>,
    vp: Viewport,
    top: TileCoord,
    d: TileCoord,
)
    requires
        tree_shaped(slots),
        top.computable(),
        slots.dom().contains(top),
        slots[top] is Present,
        top.in_view(vp),
        top.level == 0 || !fine_enough(vp, top.level - 1),
        top.covers(d),
        d.on_grid(),
        d.in_view(vp),
        fine_enough(vp, d.level as int),
    ensures
        exists|c: TileCoord| best_at(slots, vp, c, d),
    decreases MAX_DEPTH - top.level,
{
    top.lemma_path();
    d.lemma_path();
    if fine_enough(vp, top.level as int) {
        assert(drawn(slots, vp, top));
        assert forall|e: TileCoord| #[trigger] drawn(slots, vp, e) && e.covers(d) implies e.level
            <= top.level by {}
        assert(best_at(slots, vp, top, d));
    } else {
        let q = d.path()[top.level as int];
        let k = top.child_at(q);
        lemma_step_toward(top, d);
        k.lemma_view_covers(d, vp);
        assert(k.up() == top);
        assert(slots.dom().contains(k));
        if slots[k] is Present {
            lemma_window_covered_below(slots, vp, k, d);
        } else {
            assert(has_gap(slots, vp, top)) by {
                assert(top.child_at(q).in_view(vp));
            }
            assert(drawn(slots, vp, top));
            assert forall|e: TileCoord| #[trigger] drawn(slots, vp, e) && e.covers(d) implies e.level
                <= top.level by {
                if e.level > top.level {
                    e.lemma_path();
                    lemma_covers_chain(k, e, d);
                    if e != k {
                        lemma_above_present(slots, k, e);
                    }
                }
            }
            assert(best_at(slots, vp, top, d));
        }
    }
}

/// One step from a tile toward a part of it.
proof fn lemma_step_toward(top: TileCoord, d: TileCoord)
    requires
        top.valid(),
        d.valid(),
        top.covers(d),
        top.level < d.level,
    ensures
        0 <= d.path()[top.level as int] < 4,
        top.child_at(d.path()[top.level as int]).valid(),
        top.child_at(d.path()[top.level as int]).level == top.level + 1,
        top.child_at(d.path()[top.level as int]).up() == top,
        top.child_at(d.path()[top.level as int]).covers(d),
{
    top.lemma_path();
    d.lemma_path();
    let q = d.path()[top.level as int];
    top.lemma_child(q);
    let k = top.child_at(q);
    k.lemma_path();
    assert(k.path() =~= d.path().subrange(0, k.level as int)) by {
        assert forall|i: int| 0 <= i < k.level implies k.path()[i] == d.path()[i] by {
            if i < top.level {
                assert(top.path()[i] == d.path().subrange(0, top.level as int)[i]);
            }
        }
    }
}

/// Of two tiles that cover a third, the coarser covers the finer.
proof fn lemma_covers_chain(a: TileCoord, b: TileCoord, d: TileCoord)
    requires
        a.valid(),
        b.valid(),
        d.valid(),
        a.covers(d),
        b.covers(d),
        a.level <= b.level,
    ensures
        a.covers(b),
{
    a.lemma_path();
    b.lemma_path();
    d.lemma_path();
    assert(a.path() =~= b.path().subrange(0, a.level as int)) by {
        assert forall|i: int| 0 <= i < a.level implies a.path()[i] == b.path()[i] by {
            assert(a.path()[i] == d.path().subrange(0, a.level as int)[i]);
            assert(b.path()[i] == d.path().subrange(0, b.level as int)[i]);
        }
    }
}

/// A tile in the list whose pixels are too wide for the window, and which could be finer, is there
/// because the tree has nothing better: some quarter of it that shows has no image.
pub proof fn law_coarse_only_at_gaps<I>(
    list: Seq<(TileCoord, Arc<I>)>,
    slots: Map<TileCoord, Slot<I>>,
    vp: Viewport,
    i: int,
)
    requires
        lists_drawn(list, slots, vp, root_tile(), 4),
        0 <= i < list.len(),
        list[i].0.level < vp.target_level,
        list[i].0.level < 46,
    ensures
        exists|q: int|
            0 <= q < 4 && #[trigger] list[i].0.child_at(q).in_view(vp) && !(slots[list[i].0.child_at(
                q,
            )] is Present),
{
    assert(drawn(slots, vp, list[i].0));
}

/// No tile in the list is finer than it has to be: what it is a quarter of has pixels too wide for
/// the window. And none is deeper than tiles go.
pub proof fn law_no_finer_than_needed<I>(
    list: Seq<(TileCoord, Arc<I>)>,
    slots: Map<TileCoord, Slot<I>>,
    vp: Viewport,
    i: int,
)
    requires
        lists_drawn(list, slots, vp, root_tile(), 4),
        0 <= i < list.len(),
    ensures
        list[i].0.level == 0 || list[i].0.level <= vp.target_level,
        list[i].0.level <= 46,
{
    assert(drawn(slots, vp, list[i].0));
}

/// Of the images for a place that shows, the finest that is of use is in the list: one whose pixels
/// are just fine enough, or one as deep as tiles go, or one with no image below it at that place.
pub proof fn law_finest_image_listed<I>(
    list: Seq<(TileCoord, Arc<I>)>,
    slots: Map<TileCoord, Slot<I>>,
    vp: Viewport,
    c: TileCoord,
    d: TileCoord,
)
    requires
        lists_drawn(list, slots, vp, root_tile(), 4),
        tree_shaped(slots),
        slots.dom().contains(c),
        slots[c] is Present,
        c.level <= 46,
        c.level == 0 || c.level <= vp.target_level,
        c.covers(d),
        d.on_grid(),
        d.in_view(vp),
        c.level >= vp.target_level || c.level == 46 || d.level > c.level && !(slots[c.child_at(
            d.path()[c.level as int],
        )] is Present),
    ensures
        exists|i: int| 0 <= i < list.len() && (#[trigger] list[i]).0 == c,
{
    c.lemma_view_covers(d, vp);
    if c.level < vp.target_level && c.level < 46 {
        lemma_step_toward(c, d);
        let q = d.path()[c.level as int];
        c.child_at(q).lemma_view_covers(d, vp);
        assert(c.child_at(q).in_view(vp));
        assert(has_gap(slots, vp, c));
    }
    assert(drawn(slots, vp, c));
    c.lemma_path();
    assert(root_tile().path() =~= c.path().subrange(0, 0));
    assert(within(root_tile(), 4, c));
}

/// The list holds just the drawn tiles, each with its own image.
pub proof fn law_listing_exact<I>(
    list: Seq<(TileCoord, Arc<I>)>,
    slots: Map<TileCoord, Slot<I>>,
    vp: Viewport,
    c: TileCoord,
)
    requires
        lists_drawn(list, slots, vp, root_tile(), 4),
    ensures
        drawn(slots, vp, c) <==> exists|i: int| 0 <= i < list.len() && (#[trigger] list[i]).0 == c,
        forall|i: int|
            0 <= i < list.len() ==> slots.dom().contains((#[trigger] list[i]).0)
                && slots[list[i].0] == Slot::Present(list[i].1) && list[i].0.in_view(vp),
{
    if drawn(slots, vp, c) {
        c.lemma_path();
        assert(root_tile().path() =~= c.path().subrange(0, 0));
        assert(within(root_tile(), 4, c));
    }
}

/// Of two tiles in the list that lie in different quarters of a third, the one in the earlier quarter
/// comes first.
pub proof fn law_listing_by_quarters<I>(
    list: Seq<(TileCoord, Arc<I>)>,
    slots: Map<TileCoord, Slot<I>>,
    vp: Viewport,
    c: TileCoord,
    p: int,
    q: int,
    i: int,
    j: int,
)
    requires
        lists_drawn(list, slots, vp, root_tile(), 4),
        c.valid(),
        c.level < 64,
        0 <= p < q < 4,
        0 <= i < list.len(),
        0 <= j < list.len(),
        c.child_at(p).covers(list[i].0),
        c.child_at(q).covers(list[j].0),
    ensures
        i < j,
{
    let a = list[i].0;
    let b = list[j].0;
    assert(drawn(slots, vp, a) && drawn(slots, vp, b));
    law_quarters_in_order(c, p, q, a, b);
    law_lex_irreflexive(a.path());
    if j < i {
        assert(b.before(a));
        law_lex_transitive(a.path(), b.path(), a.path());
    }
}

/// Whatever lies in an earlier quarter of a tile comes before whatever lies in a later one.
pub proof fn law_quarters_in_order(c: TileCoord, p: int, q: int, a: TileCoord, b: TileCoord)
    requires
        c.valid(),
        c.level < 64,
        0 <= p < q < 4,
        a.valid(),
        b.valid(),
        c.child_at(p).covers(a),
        c.child_at(q).covers(b),
    ensures
        a.before(b),
        a.level <= b.level ==> sooner(a, b),
{
    c.lemma_path();
    lemma_quarter_within(c, p, a);
    lemma_quarter_within(c, q, b);
    a.lemma_path();
    b.lemma_path();
    lemma_lex_branch(c.path(), a.path(), b.path());
}

/// The window with pixels twice as wide is on the same part of the plane, and just those levels are
/// fine enough for it whose next level is fine enough for the window itself.
pub proof fn law_coarsen(vp: Viewport, level: u32)
    ensures
        vp.spec_coarsen().left == vp.left,
        vp.spec_coarsen().right == vp.right,
        vp.spec_coarsen().bottom == vp.bottom,
        vp.spec_coarsen().top == vp.top,
        level >= vp.spec_coarsen().target_level <==> level + 1 >= vp.target_level,
{
}

/// No tile is asked for that is finer than the window needs, or deeper than tiles go. The quarters of
/// the root are always worth having.
pub proof fn law_next_within_target<I>(slots: Map<TileCoord, Slot<I>>, vp: Viewport, c: TileCoord)
    requires
        wanted(slots, vp.spec_coarsen(), c),
    ensures
        c.level <= 1 || c.level <= vp.target_level,
        c.level <= 46,
        c.in_view(vp),
        slots[c] is Pending,
{
}

/// Every pending quarter that shows, of a tile with an image that is too coarse for the window, is
/// asked for sooner or later: as long as there is one, there is a next tile. So it is with the root.
pub proof fn law_next_misses_nothing<I>(
    slots: Map<TileCoord, Slot<I>>,
    vp: Viewport,
    p: TileCoord,
    q: int,
)
    requires
        tree_shaped(slots),
        0 <= q < 4,
    ensures
        slots[root_tile()] is Pending && root_tile().in_view(vp) ==> wanted(
            slots,
            vp.spec_coarsen(),
            root_tile(),
        ),
        slots.dom().contains(p) && slots[p] is Present && p.level < 46 && (p.level == 0 || p.level
            < vp.target_level) && slots[p.child_at(q)] is Pending && p.child_at(q).in_view(vp)
            ==> wanted(slots, vp.spec_coarsen(), p.child_at(q)),
{
    if slots.dom().contains(p) && p.level < 46 {
        let k = p.child_at(q);
        p.lemma_child(q);
        assert(root_tile().path() =~= k.path().subrange(0, 0));
        assert(k.up() == p);
        if slots[p] is Present {
            assert(slots.dom().contains(k));
        }
    }
}

/// As long as a tile that is too coarse for the window has a pending quarter that shows, there is a
/// next tile, and it is the coarsest of these, and of the coarsest the first in drawing order.
pub proof fn law_next_is_coarsest<I>(
    slots: Map<TileCoord, Slot<I>>,
    vp: Viewport,
    r: Option<TileCoord>,
    p: TileCoord,
    q: int,
)
    requires
        tree_shaped(slots),
        is_next(slots, vp, r),
        slots.dom().contains(p),
        slots[p] is Present,
        p.level < 46,
        p.level == 0 || p.level < vp.target_level,
        0 <= q < 4,
        slots[p.child_at(q)] is Pending,
        p.child_at(q).in_view(vp),
    ensures
        r matches Some(d) && {
            &&& 1 <= d.level <= p.level + 1
            &&& d.level == p.level + 1 ==> d == p.child_at(q) || d.before(p.child_at(q))
        },
{
    law_next_misses_nothing(slots, vp, p, q);
    p.lemma_child(q);
    let d = r->0;
    if d.level == 0 && p != root_tile() {
        assert(root_tile().valid());
        assert(root_tile().path() =~= p.path().subrange(0, 0));
        lemma_above_present(slots, root_tile(), p);
    }
}

/// The next tile is one without an image that shows in the window; it is no finer than the window
/// needs, no deeper than tiles go, and a quarter of a tile with an image, or the root. The root comes
/// next just if it is pending and shows.
pub proof fn law_next_is_needed<I>(
    slots: Map<TileCoord, Slot<I>>,
    vp: Viewport,
    r: Option<TileCoord>,
)
    requires
        tree_shaped(slots),
        is_next(slots, vp, r),
    ensures
        r matches Some(d) ==> {
            &&& slots.dom().contains(d)
            &&& slots[d] is Pending
            &&& d.in_view(vp)
            &&& d.level <= 1 || d.level <= vp.target_level
            &&& d.level <= 46
            &&& d == root_tile() || slots.dom().contains(d.up()) && slots[d.up()] is Present
        },
        r == Some(root_tile()) <==> slots[root_tile()] is Pending && root_tile().in_view(vp),
{
    law_next_misses_nothing(slots, vp, root_tile(), 0);
    if r is Some {
        law_next_within_target(slots, vp, r->0);
        assert(r->0.level > 0 ==> slots.dom().contains(r->0));
    }
}

/// Once nothing is asked for, every place of the window has an image that is fine enough for it, or
/// as deep as tiles go, or lies in a tile that is blocked or being computed.
pub proof fn law_resolution_reached<I>(slots: Map<TileCoord, Slot<I>>, vp: Viewport, d: TileCoord)
    requires
        tree_shaped(slots),
        slots[root_tile()] is Present,
        is_next(slots, vp, None),
        d.on_grid(),
        d.in_view(vp),
        d.level >= 46,
    ensures
        exists|c: TileCoord| #[trigger]
            slots.dom().contains(c) && c.covers(d) && !(slots[c] is Pending) && (slots[c] is Present
                ==> c.level >= vp.target_level || c.level >= 46),
{
    law_nothing_wanted(slots, vp.spec_coarsen(), d);
    let c = choose|c: TileCoord| #[trigger] ends_at(slots, vp.spec_coarsen(), c, d);
    assert(slots.dom().contains(c));
}

/// Tiles are needed just as long as one is being computed, or one is asked for: once they are not,
/// every place of the window has an image that is fine enough for it, or as deep as tiles go, or
/// lies in a blocked tile.
pub proof fn law_needed_until_reached<I>(slots: Map<TileCoord, Slot<I>>, vp: Viewport, d: TileCoord)
    requires
        tree_shaped(slots),
    ensures
        incomplete(slots, vp.spec_coarsen()) ==> exists|c: TileCoord| #[trigger]
            slots.dom().contains(c) && (slots[c] is Computing || slots[c] is Pending && c.in_view(vp)
                && (c.level <= 1 || c.level <= vp.target_level)),
        slots.dom().contains(d) && slots[d] is Computing ==> incomplete(slots, vp.spec_coarsen()),
        is_next(slots, vp, None) && !some_computing(slots) <==> !incomplete(slots, vp.spec_coarsen()),
        !incomplete(slots, vp.spec_coarsen()) && slots[root_tile()] is Present && d.on_grid()
            && d.in_view(vp) && d.level >= 46 ==> exists|c: TileCoord| #[trigger]
            slots.dom().contains(c) && c.covers(d) && (slots[c] is Blocked || slots[c] is Present && (
            c.level >= vp.target_level || c.level >= 46)),
{
    if incomplete(slots, vp.spec_coarsen()) && !some_computing(slots) {
        let c = choose|c: TileCoord| #[trigger] wanted(slots, vp.spec_coarsen(), c);
        assert(slots.dom().contains(c));
    }
    if !incomplete(slots, vp.spec_coarsen()) && slots[root_tile()] is Present && d.on_grid()
        && d.in_view(vp) && d.level >= 46 {
        law_resolution_reached(slots, vp, d);
        let c = choose|c: TileCoord| #[trigger]
            slots.dom().contains(c) && c.covers(d) && !(slots[c] is Pending) && (slots[c] is Present
                ==> c.level >= vp.target_level || c.level >= 46);
        assert(!(slots[c] is Computing));
    }
}

/// At most one tile is the next to be computed.
pub proof fn law_next_tile_unique<I>(
    slots: Map<TileCoord, Slot<I>>,
    vp: Viewport,
    a: TileCoord,
    b: TileCoord,
)
    requires
        tree_shaped(slots),
        wanted(slots, vp, a),
        wanted(slots, vp, b),
        forall|c: TileCoord| #[trigger] wanted(slots, vp, c) ==> c == a || sooner(a, c),
        forall|c: TileCoord| #[trigger] wanted(slots, vp, c) ==> c == b || sooner(b, c),
    ensures
        a == b,
{
    assert(a.valid() && b.valid());
    if a != b {
        law_orders_total(a, b);
    }
}

/// A tile that is asked for refines what is drawn: its parent is drawn, also in a window with finer
/// pixels on the same part of the plane, and the tile fills a gap there.
pub proof fn law_wanted_refines_drawn<I>(
    slots: Map<TileCoord, Slot<I>>,
    vp: Viewport,
    shown: Viewport,
    c: TileCoord,
)
    requires
        tree_shaped(slots),
        wanted(slots, vp, c),
        c.level >= 1,
        shown == (Viewport { target_level: shown.target_level, ..vp }),
        vp.target_level <= shown.target_level,
    ensures
        drawn(slots, shown, c.up()),
        has_gap(slots, shown, c.up()),
        c.in_view(shown),
        !(slots[c] is Present),
{
    let p = c.up();
    c.lemma_parent();
    c.lemma_view_parent(shown);
    assert(slots.dom().contains(p) && slots[p] is Present);
    assert(c.in_view(shown));
    assert(p.child_at(c.slot_in_parent()) == c);
    assert(has_gap(slots, shown, p));
}

/// A tile that was handed out is not handed out again while it is being computed, through no
/// window.
pub proof fn law_claimed_not_wanted<I>(m: TreeModel<I>, vp: Viewport, c: TileCoord)
    ensures
        !wanted(claimed(m, c).slots, vp, c),
{
}

/// A tile that was handed out keeps the picture incomplete, through any window.
pub proof fn law_claimed_incomplete<I>(m: TreeModel<I>, vp: Viewport, c: TileCoord)
    ensures
        incomplete(claimed(m, c).slots, vp),
{
    assert(claimed(m, c).slots.dom().contains(c));
}

/// A tile that was handed out can be inserted; then its image is in the tree, and the tile is not
/// handed out again.
pub proof fn law_claimed_then_inserted<I>(
    m: TreeModel<I>,
    c: TileCoord,
    item: Arc<I>,
    blocks: Seq<bool>,
    vp: Viewport,
)
    requires
        m.wf(),
        c.computable(),
        m.slots.dom().contains(c),
        m.slots[c] is Pending,
    ensures
        claimed(m, c).slots.dom().contains(c),
        claimed(m, c).slots[c] is Computing,
        inserted(claimed(m, c), c, item, blocks).slots.dom().contains(c),
        inserted(claimed(m, c), c, item, blocks).slots[c] == Slot::Present(item),
        !wanted(inserted(claimed(m, c), c, item, blocks).slots, vp, c),
{
    c.lemma_child(0);
    c.lemma_child(1);
    c.lemma_child(2);
    c.lemma_child(3);
}

/// The quarters of an inserted tile are asked for only if they were not blocked.
pub proof fn law_blocked_not_wanted<I>(
    m: TreeModel<I>,
    c: TileCoord,
    item: Arc<I>,
    blocks: Seq<bool>,
    vp: Viewport,
    q: int,
)
    requires
        c.computable(),
        0 <= q < 4,
    ensures
        inserted(m, c, item, blocks).slots[c.child_at(q)] == uncomputed::<I>(blocks[q]),
        blocks[q] ==> !wanted(inserted(m, c, item, blocks).slots, vp, c.child_at(q)),
{
    c.lemma_child(0);
    c.lemma_child(1);
    c.lemma_child(2);
    c.lemma_child(3);
}

/// The tiles that may yet be asked for: those that are pending or not known of.
pub open spec fn open_work<I>(slots: Map<TileCoord, Slot<I>>) -> Set<TileCoord> {
    Set::new(|c: TileCoord| c.computable() && (!slots.dom().contains(c) || slots[c] is Pending))
}

/// Computing comes to an end, unless tiles are given up: there is finitely much that may be asked
/// for, each tile that is handed out makes it one less, and no tile that is inserted makes it more.
pub proof fn law_work_shrinks<I>(
    m: TreeModel<I>,
    vp: Viewport,
    c: TileCoord,
    item: Arc<I>,
    blocks: Seq<bool>,
)
    requires
        m.wf(),
    ensures
        open_work(m.slots).finite(),
        wanted(m.slots, vp, c) ==> {
            &&& open_work(claimed(m, c).slots) == open_work(m.slots).remove(c)
            &&& open_work(claimed(m, c).slots).len() == open_work(m.slots).len() - 1
        },
        m.slots.dom().contains(c) && m.slots[c] is Computing ==> {
            &&& open_work(inserted(m, c, item, blocks).slots).subset_of(open_work(m.slots))
            &&& open_work(inserted(m, c, item, blocks).slots).len() <= open_work(m.slots).len()
        },
{
    let work = open_work(m.slots);
    lemma_computable_finite();
    vstd::set_lib::lemma_set_subset_finite(Set::new(|c: TileCoord| c.computable()), work);
    if wanted(m.slots, vp, c) {
        assert(work.contains(c));
        assert(open_work(claimed(m, c).slots) =~= work.remove(c));
    }
    if m.slots.dom().contains(c) && m.slots[c] is Computing {
        lemma_planted(m.slots, c, item, blocks);
        let left = open_work(inserted(m, c, item, blocks).slots);
        assert forall|d: TileCoord| #[trigger] left.contains(d) implies work.contains(d) by {
            if m.slots.dom().contains(d) {
                assert(d != c);
            }
        }
        vstd::set_lib::lemma_len_subset(left, work);
    }
}

/// When nothing is left to compute, then at every place of the window the tree ends in a tile
/// that is blocked, is being computed, or has an image and a parent that is fine enough already.
pub proof fn law_nothing_wanted<I>(slots: Map<TileCoord, Slot<I>>, vp: Viewport, d: TileCoord)
    requires
        tree_shaped(slots),
        slots[root_tile()] is Present,
        forall|c: TileCoord| !#[trigger] wanted(slots, vp, c),
        d.on_grid(),
        d.in_view(vp),
        d.level >= MAX_DEPTH,
    ensures
        exists|c: TileCoord| #[trigger] ends_at(slots, vp, c, d),
{
    assert(root_tile().valid());
    assert(root_tile().path() =~= d.path().subrange(0, 0));
    lemma_nothing_wanted_below(slots, vp, root_tile(), d);
}

/// When no more tiles are needed, then at every place of the window the tree ends in a tile that is
/// blocked, or has an image and a parent that is fine enough already.
pub proof fn law_complete<I>(slots: Map<TileCoord, Slot<I>>, vp: Viewport, d: TileCoord)
    requires
        tree_shaped(slots),
        slots[root_tile()] is Present,
        !incomplete(slots, vp),
        d.on_grid(),
        d.in_view(vp),
        d.level >= MAX_DEPTH,
    ensures
        exists|c: TileCoord| #[trigger] ends_at(slots, vp, c, d) && !(slots[c] is Computing),
{
    law_nothing_wanted(slots, vp, d);
    let c = choose|c: TileCoord| #[trigger] ends_at(slots, vp, c, d);
    assert(slots.dom().contains(c));
}

/// `c` is where the tree ends for the place `d`, with nothing pending there.
pub open spec fn ends_at<I>(
    slots: Map<TileCoord, Slot<I>>,
    vp: Viewport,
    c: TileCoord,
    d: TileCoord,
) -> bool {
    &&& c.computable()
    &&& c.covers(d)
    &&& slots.dom().contains(c)
    &&& match slots[c] {
        Slot::Pending => false,
        Slot::Blocked => true,
        Slot::Computing => true,
        Slot::Present(_) => c.level >= 1 && !refinable(vp, c.level - 1),
    }
}

proof fn lemma_nothing_wanted_below<I>(
    slots: Map<TileCoord, Slot<I>>,
    vp: Viewport,
    top: TileCoord,
    d: TileCoord,
)
    requires
        tree_shaped(slots),
        forall|c: TileCoord| !#[trigger] wanted(slots, vp, c),
        d.on_grid(),
        d.in_view(vp),
        d.level >= MAX_DEPTH,
        top.computable(),
        top.level < MAX_DEPTH,
        top.level == 0 || refinable(vp, top.level - 1),
        top.covers(d),
        slots.dom().contains(top),
        slots[top] is Present,
    ensures
        exists|c: TileCoord| #[trigger] ends_at(slots, vp, c, d),
    decreases MAX_DEPTH - top.level,
{
    lemma_step_toward(top, d);
    let k = top.child_at(d.path()[top.level as int]);
    k.lemma_view_covers(d, vp);
    assert(slots.dom().contains(k));
    assert(root_tile().path() =~= k.path().subrange(0, 0));
    assert(!wanted(slots, vp, k));
    if slots[k] is Present && refinable(vp, top.level as int) {
        lemma_nothing_wanted_below(slots, vp, k, d);
    } else {
        assert(ends_at(slots, vp, k, d));
    }
}

/// The tile that is given up has an image and no part that has one, is not the root, and is not
/// locked.
pub proof fn law_victim<I>(m: TreeModel<I>)
    requires
        m.wf(),
    ensures
        match victim(m) {
            Some(c) => {
                &&& listed(m.leaves, c)
                &&& c.computable()
                &&& c.level >= 1
                &&& m.slots.dom().contains(c)
                &&& m.slots[c] is Present
                &&& no_part_present(m.slots, c)
                &&& !m.locked.contains(c)
            },
            None => forall|c: TileCoord| #[trigger] listed(m.leaves, c) ==> m.locked.contains(c),
        },
{
    let order = eviction_order(m.leaves, m.leaves.len());
    lemma_first_outside(order, m.locked);
    match victim(m) {
        Some(c) => {
            lemma_eviction_order(m.leaves, m.leaves.len(), c);
        },
        None => {
            assert forall|c: TileCoord| #[trigger] listed(m.leaves, c) implies m.locked.contains(c) by {
                lemma_eviction_order(m.leaves, m.leaves.len(), c);
                let i = choose|i: int| 0 <= i < order.len() && order[i] == c;
                assert(m.locked.contains(order[i]));
            }
        },
    }
}

/// The deepest tiles are given up first.
pub proof fn law_deepest_first<I>(m: TreeModel<I>, c: TileCoord)
    requires
        m.wf(),
        listed(m.leaves, c),
        !m.locked.contains(c),
    ensures
        victim(m) matches Some(v) && v.level >= c.level,
{
    let n = m.leaves.len();
    let order = eviction_order(m.leaves, n);
    lemma_first_outside(order, m.locked);
    law_victim(m);
    let v = victim(m)->0;
    lemma_eviction_order(m.leaves, n, c);
    let i = choose|i: int| 0 <= i < order.len() && order[i] == c;
    let j = choose|j: int|
        0 <= j < order.len() && #[trigger] order[j] == v && (forall|k: int|
            0 <= k < j ==> m.locked.contains(#[trigger] order[k]));
    assert(j <= i) by {
        if i < j {
            assert(m.locked.contains(order[i]));
        }
    }
    lemma_order_descends(m.leaves, n, j, i);
}

/// The eviction order goes from deep levels to shallow ones.
proof fn lemma_order_descends(levels: Seq<LevelOrder>, n: nat, i: int, j: int)
    requires
        n <= levels.len() <= u32::MAX,
        0 <= i <= j < eviction_order(levels, n).len(),
    ensures
        eviction_order(levels, n)[j].level <= eviction_order(levels, n)[i].level <= n,
    decreases n,
{
    if n > 0 {
        let a = tiles_of(n, levels[n - 1].emptied) + tiles_of(n, levels[n - 1].computed);
        let t = eviction_order(levels, (n - 1) as nat);
        let all = eviction_order(levels, n);
        assert(all == a + t);
        if i >= a.len() {
            lemma_order_descends(levels, (n - 1) as nat, i - a.len(), j - a.len());
            assert(all[i] == t[i - a.len()] && all[j] == t[j - a.len()]);
        } else if j >= a.len() {
            lemma_order_descends(levels, (n - 1) as nat, j - a.len(), j - a.len());
            assert(all[j] == t[j - a.len()]);
        }
    }
}

/// Whatever is locked stays when a tile is given up, and so does every other image.
pub proof fn law_locked_kept<I>(m: TreeModel<I>, d: TileCoord)
    requires
        m.wf(),
        m.slots.dom().contains(d),
        m.slots[d] is Present,
        victim(m) is Some,
        m.locked.contains(d) || d != victim(m)->0,
    ensures
        taken(m, victim(m)->0).slots.dom().contains(d),
        taken(m, victim(m)->0).slots[d] == m.slots[d],
{
    law_victim(m);
    let c = victim(m)->0;
    if c.covers(d) {
        lemma_part_present(m.slots, c, d);
    }
}

/// A tile drawn in the last frame is not the one that is given up.
pub proof fn law_drawn_not_given_up<I>(m: TreeModel<I>, vp: Viewport, d: TileCoord)
    requires
        m.wf(),
        m.locked == Set::new(|c: TileCoord| drawn(m.slots, vp, c)),
        drawn(m.slots, vp, d),
        victim(m) is Some,
    ensures
        taken(m, victim(m)->0).slots.dom().contains(d),
        taken(m, victim(m)->0).slots[d] == m.slots[d],
        !drawn(m.slots, vp, victim(m)->0),
{
    law_victim(m);
    assert(m.locked.contains(d));
    law_locked_kept(m, d);
}

/// Giving a tile up undoes its insertion: the tile is pending, and nothing else has changed.
pub proof fn law_take_undoes_insert<I>(
    slots: Map<TileCoord, Slot<I>>,
    c: TileCoord,
    item: Arc<I>,
    blocks: Seq<bool>,
)
    requires
        tree_shaped(slots),
        c.computable(),
        slots.dom().contains(c),
        slots[c] is Computing,
    ensures
        cleared(planted(slots, c, item, blocks), c, Slot::Pending) == slots.insert(c, Slot::Pending),
{
    let after = cleared(planted(slots, c, item, blocks), c, Slot::Pending);
    c.lemma_path();
    assert forall|q: int| 0 <= q < 4 implies c.covers(#[trigger] c.child_at(q)) && !slots.dom().contains(
        c.child_at(q),
    ) && c.child_at(q) != c by {
        c.lemma_child(q);
        assert(c.path() =~= c.child_at(q).path().subrange(0, c.level as int));
    }
    assert(c.child_at(0) != c && c.child_at(1) != c && c.child_at(2) != c && c.child_at(3) != c);
    assert forall|d: TileCoord| #[trigger] slots.dom().contains(d) && d != c implies !c.covers(d) by {
        if c.covers(d) {
            lemma_above_present(slots, c, d);
        }
    }
    assert(after =~= slots.insert(c, Slot::Pending));
}

/// A tile whose parent was given up while it was being computed is no longer waited for.
pub proof fn law_lost_with_parent<I>(m: TreeModel<I>, c: TileCoord, d: TileCoord)
    requires
        m.wf(),
        listed(m.leaves, c),
        c.covers(d),
        c != d,
    ensures
        !taken(m, c).slots.dom().contains(d),
{
}

/// What is being computed stays so until it is inserted or something that covers it is given up:
/// no other tile that is inserted, handed out or given up changes that.
pub proof fn law_computing_kept<I>(
    m: TreeModel<I>,
    d: TileCoord,
    c: TileCoord,
    item: Arc<I>,
    blocks: Seq<bool>,
)
    requires
        m.wf(),
        m.slots.dom().contains(d),
        m.slots[d] is Computing,
        m.slots.dom().contains(c),
        c != d,
    ensures
        m.slots[c] is Computing ==> {
            &&& inserted(m, c, item, blocks).slots.dom().contains(d)
            &&& inserted(m, c, item, blocks).slots[d] is Computing
        },
        claimed(m, c).slots.dom().contains(d) && claimed(m, c).slots[d] is Computing,
        !c.covers(d) ==> taken(m, c).slots.dom().contains(d) && taken(m, c).slots[d] is Computing,
{
    if m.slots[c] is Computing {
        lemma_planted(m.slots, c, item, blocks);
    }
}

/// An image in the tree stays there when another tile is inserted or handed out.
pub proof fn law_image_kept<I>(
    m: TreeModel<I>,
    d: TileCoord,
    c: TileCoord,
    item: Arc<I>,
    blocks: Seq<bool>,
)
    requires
        m.wf(),
        m.slots.dom().contains(d),
        m.slots[d] is Present,
        m.slots.dom().contains(c),
    ensures
        m.slots[c] is Computing ==> {
            &&& inserted(m, c, item, blocks).slots.dom().contains(d)
            &&& inserted(m, c, item, blocks).slots[d] == m.slots[d]
        },
        m.slots[c] is Pending ==> claimed(m, c).slots.dom().contains(d) && claimed(m, c).slots[d]
            == m.slots[d],
{
    if m.slots[c] is Computing {
        lemma_planted(m.slots, c, item, blocks);
    }
}

/// The tree waits for a tile from when it was handed out until it is inserted, and for no other tile
/// on that account; inserting it a second time does nothing.
pub proof fn law_awaited<I>(
    m: TreeModel<I>,
    c: TileCoord,
    d: TileCoord,
    item: Arc<I>,
    blocks: Seq<bool>,
)
    requires
        m.wf(),
    ensures
        awaited(claimed(m, c), c),
        d != c ==> awaited(claimed(m, c), d) == awaited(m, d),
        awaited(m, c) ==> !awaited(inserted(m, c, item, blocks), c),
        awaited(m, c) && d != c ==> awaited(inserted(m, c, item, blocks), d) == awaited(m, d),
        awaited(m, c) ==> 0 <= c.level <= 46,
        awaited(m, c) && c.level >= 1 ==> m.slots.dom().contains(c.up()) && m.slots[c.up()] is Present,
        m.slots.dom().contains(c) && (m.slots[c] is Pending || m.slots[c] is Blocked
            || m.slots[c] is Present) ==> !awaited(m, c),
        listed(m.leaves, c) && d != c ==> awaited(taken(m, c), d) == (awaited(m, d) && !c.covers(d)),
{
    if awaited(m, c) {
        lemma_planted(m.slots, c, item, blocks);
        if m.slots.dom().contains(d) && d != c {
            assert(inserted(m, c, item, blocks).slots[d] == m.slots[d]);
        }
    }
}

/// Giving up a tile hands out the image of one that is not locked and lies below the root, the only
/// one that is lost; no tile deeper than it could be given up. There is none just if every tile that
/// may be given up is locked, and then nothing changes.
pub proof fn law_given_up<I>(m: TreeModel<I>, r: Option<Arc<I>>, n: TreeModel<I>, e: TileCoord)
    requires
        m.wf(),
        given_up(m, r, n),
    ensures
        r is None ==> n == m,
        r is None ==> !listed(m.leaves, e) || m.locked.contains(e),
        r matches Some(item) ==> exists|c: TileCoord| #[trigger]
            m.slots.dom().contains(c) && 1 <= c.level <= 46 && m.slots[c] == Slot::Present(item)
                && !m.locked.contains(c) && n.slots[c] is Pending && (listed(m.leaves, e)
                && !m.locked.contains(e) ==> c.level >= e.level) && (forall|d: TileCoord|
                d != c && #[trigger] m.slots.dom().contains(d) && m.slots[d] is Present
                    ==> n.slots.dom().contains(d) && n.slots[d] == m.slots[d]),
        n.locked == m.locked,
{
    law_victim(m);
    if r is Some {
        let c = victim(m)->0;
        assert forall|d: TileCoord|
            d != c && #[trigger] m.slots.dom().contains(d)
                && m.slots[d] is Present implies n.slots.dom().contains(d) && n.slots[d]
            == m.slots[d] by {
            law_locked_kept(m, d);
        }
        if listed(m.leaves, e) && !m.locked.contains(e) {
            law_deepest_first(m, e);
        }
        assert(m.slots.dom().contains(c));
    }
}

/// A tile below the root that was inserted is locked, whichever quarters of it are blocked, and is not
/// the one that is given up. No other lock is set or lost.
pub proof fn law_inserted_locked<I>(
    m: TreeModel<I>,
    c: TileCoord,
    item: Arc<I>,
    blocks: Seq<bool>,
    d: TileCoord,
)
    requires
        c.level >= 1,
    ensures
        inserted(m, c, item, blocks).locked.contains(c),
        victim(inserted(m, c, item, blocks)) != Some(c),
        d != c ==> inserted(m, c, item, blocks).locked.contains(d) == m.locked.contains(d),
{
    let n = inserted(m, c, item, blocks);
    lemma_first_outside(eviction_order(n.leaves, n.leaves.len()), n.locked);
}

/// Inserting the root locks nothing and lists nothing: it is never given up.
pub proof fn law_root_inserted<I>(m: TreeModel<I>, item: Arc<I>, blocks: Seq<bool>)
    requires
        m.wf(),
    ensures
        inserted(m, root_tile(), item, blocks).locked == m.locked,
        inserted(m, root_tile(), item, blocks).leaves == m.leaves,
        victim(m) != Some(root_tile()),
        !listed(m.leaves, root_tile()),
{
    law_victim(m);
}

/// Between frames a lock is not lost, whatever is inserted, handed out or given up, and what is
/// locked is not given up.
pub proof fn law_locked_until_frame<I>(
    m: TreeModel<I>,
    d: TileCoord,
    c: TileCoord,
    item: Arc<I>,
    blocks: Seq<bool>,
)
    requires
        m.locked.contains(d),
    ensures
        inserted(m, c, item, blocks).locked.contains(d),
        claimed(m, c).locked.contains(d),
        taken(m, c).locked.contains(d),
        victim(m) != Some(d),
        victim(inserted(m, c, item, blocks)) != Some(d),
        victim(claimed(m, c)) != Some(d),
        victim(taken(m, c)) != Some(d),
{
    let a = inserted(m, c, item, blocks);
    let b = claimed(m, c);
    let e = taken(m, c);
    lemma_first_outside(eviction_order(m.leaves, m.leaves.len()), m.locked);
    lemma_first_outside(eviction_order(a.leaves, a.leaves.len()), a.locked);
    lemma_first_outside(eviction_order(b.leaves, b.leaves.len()), b.locked);
    lemma_first_outside(eviction_order(e.leaves, e.leaves.len()), e.locked);
}

/// A frame locks what is drawn in it and unlocks everything else; it changes nothing else. After it,
/// a tile that was drawn is not given up, and a tile that was not, but may be, is, or one as deep.
pub proof fn law_frame_locks<I>(m: TreeModel<I>, vp: Viewport, d: TileCoord)
    requires
        m.wf(),
    ensures
        shown(m, vp).slots == m.slots,
        shown(m, vp).leaves == m.leaves,
        shown(m, vp).locked.contains(d) <==> drawn(m.slots, vp, d),
        drawn(m.slots, vp, d) ==> victim(shown(m, vp)) != Some(d),
        listed(m.leaves, d) && !drawn(m.slots, vp, d) ==> (victim(shown(m, vp)) matches Some(v)
            && v.level >= d.level),
{
    let n = shown(m, vp);
    lemma_first_outside(eviction_order(n.leaves, n.leaves.len()), n.locked);
    assert(n.wf());
    if listed(m.leaves, d) && !drawn(m.slots, vp, d) {
        law_deepest_first(n, d);
    }
}

/// Inserting gives the tile its image and its quarters slots, blocked where the blocks say so and
/// pending elsewhere, and changes no other slot.
pub proof fn law_insert_local<I>(
    m: TreeModel<I>,
    c: TileCoord,
    item: Arc<I>,
    blocks: Seq<bool>,
    q: int,
    d: TileCoord,
)
    requires
        c.computable(),
        0 <= q < 4,
        d != c,
        d != c.child_at(0),
        d != c.child_at(1),
        d != c.child_at(2),
        d != c.child_at(3),
    ensures
        ({
            let n = inserted(m, c, item, blocks).slots;
            &&& n.dom().contains(c) && n[c] == Slot::Present(item)
            &&& n.dom().contains(c.child_at(q))
            &&& blocks[q] ==> n[c.child_at(q)] is Blocked
            &&& !blocks[q] ==> n[c.child_at(q)] is Pending
            &&& n.dom().contains(d) == m.slots.dom().contains(d)
            &&& m.slots.dom().contains(d) ==> n[d] == m.slots[d]
        }),
{
    c.lemma_child(0);
    c.lemma_child(1);
    c.lemma_child(2);
    c.lemma_child(3);
}

/// Handing out a tile marks it as being computed and changes nothing else.
pub proof fn law_claim_local<I>(m: TreeModel<I>, c: TileCoord, d: TileCoord)
    requires
        m.slots.dom().contains(c),
    ensures
        claimed(m, c).slots[c] is Computing,
        claimed(m, c).slots.dom() == m.slots.dom(),
        d != c ==> claimed(m, c).slots[d] == m.slots[d],
        claimed(m, c).leaves == m.leaves,
        claimed(m, c).locked == m.locked,
{
    assert(claimed(m, c).slots.dom() =~= m.slots.dom());
}

/// Giving up a tile makes it pending, forgets its parts, and changes no other slot.
pub proof fn law_take_local<I>(m: TreeModel<I>, c: TileCoord, d: TileCoord)
    requires
        c.valid(),
        d != c,
    ensures
        taken(m, c).slots.dom().contains(c),
        taken(m, c).slots[c] is Pending,
        c.covers(d) ==> !taken(m, c).slots.dom().contains(d),
        !c.covers(d) ==> taken(m, c).slots.dom().contains(d) == m.slots.dom().contains(d),
        !c.covers(d) && m.slots.dom().contains(d) ==> taken(m, c).slots[d] == m.slots[d],
        taken(m, c).locked == m.locked,
{
}

/// What may be given up, if no lock keeps it, is a tile below the root with an image and no part that
/// has one; and whatever below the root has an image, and only quarters that are pending or blocked,
/// may be given up.
pub proof fn law_may_be_given_up<I>(m: TreeModel<I>, c: TileCoord)
    requires
        m.wf(),
    ensures
        listed(m.leaves, c) ==> {
            &&& 1 <= c.level <= 46
            &&& m.slots.dom().contains(c)
            &&& m.slots[c] is Present
            &&& forall|q: int| 0 <= q < 4 ==> !(m.slots[#[trigger] c.child_at(q)] is Present)
        },
        m.slots.dom().contains(c) && m.slots[c] is Present && c.level >= 1 && (forall|q: int|
            0 <= q < 4 ==> m.slots[#[trigger] c.child_at(q)] is Pending
                || m.slots[c.child_at(q)] is Blocked) ==> listed(m.leaves, c),
{
    if m.slots.dom().contains(c) && m.slots[c] is Present && c.level >= 1 && (forall|q: int|
        0 <= q < 4 ==> m.slots[#[trigger] c.child_at(q)] is Pending || m.slots[c.child_at(
            q,
        )] is Blocked) {
        assert(all_parts_idle(m.slots, c));
    }
}

/// An inserted tile may be given up from then on, after all tiles of its level that may be already;
/// its parent may not be; and nothing changes for the others, nor in their order.
pub proof fn law_inserted_listed<I>(
    m: TreeModel<I>,
    c: TileCoord,
    item: Arc<I>,
    blocks: Seq<bool>,
    d: TileCoord,
    l: int,
)
    requires
        m.wf(),
        m.slots.dom().contains(c),
        m.slots[c] is Computing,
        c.level >= 1,
        0 <= l < 46,
    ensures
        ({
            let n = inserted(m, c, item, blocks).leaves;
            &&& n.len() == 46
            &&& listed(n, c)
            &&& c.level > 1 ==> !listed(n, c.up())
            &&& d != c && (c.level == 1 || d != c.up()) ==> listed(n, d) == listed(m.leaves, d)
            &&& n[c.level - 1].computed == m.leaves[c.level - 1].computed.push((c.x, c.y))
            &&& n[c.level - 1].emptied == m.leaves[c.level - 1].emptied
            &&& l != c.level - 1 && l != c.level - 2 ==> n[l] == m.leaves[l]
            &&& c.level > 1 ==> n[c.level - 2].computed == m.leaves[c.level - 2].computed.remove_value(
                (c.up().x, c.up().y),
            ) && n[c.level - 2].emptied == m.leaves[c.level - 2].emptied.remove_value(
                (c.up().x, c.up().y),
            )
        }),
{
    assert(c.computable());
    assert(!listed(m.leaves, c));
    c.lemma_parent();
    lemma_leaf_added(m.leaves, c);
    if c.level > 1 {
        lemma_leaf_removed(leaf_computed(m.leaves, c), c.up());
    }
}

/// A tile that is given up is off the list. Its parent gets on it, after the others of its level that
/// lost their last part, if it is not the root and has only quarters left that are pending or
/// blocked. Nothing changes for the others, nor in their order.
pub proof fn law_taken_listed<I>(m: TreeModel<I>, c: TileCoord, d: TileCoord, l: int)
    requires
        m.wf(),
        listed(m.leaves, c),
        0 <= l < 46,
    ensures
        ({
            let n = taken(m, c).leaves;
            let free = c.level > 1 && forall|q: int|
                0 <= q < 4 ==> c.up().child_at(q) == c || #[trigger] m.slots[c.up().child_at(
                    q,
                )] is Pending || m.slots[c.up().child_at(q)] is Blocked;
            &&& n.len() == 46
            &&& !listed(n, c)
            &&& c.level > 1 ==> listed(n, c.up()) == free
            &&& d != c && (c.level == 1 || d != c.up()) ==> listed(n, d) == listed(m.leaves, d)
            &&& l != c.level - 1 && l != c.level - 2 ==> n[l] == m.leaves[l]
            &&& n[c.level - 1].computed == m.leaves[c.level - 1].computed.remove_value((c.x, c.y))
            &&& n[c.level - 1].emptied == m.leaves[c.level - 1].emptied.remove_value((c.x, c.y))
            &&& c.level > 1 ==> n[c.level - 2].computed == m.leaves[c.level - 2].computed
            &&& free ==> n[c.level - 2].emptied == m.leaves[c.level - 2].emptied.push(
                (c.up().x, c.up().y),
            )
            &&& c.level > 1 && !free ==> n[c.level - 2].emptied == m.leaves[c.level - 2].emptied
        }),
{
    let p = c.up();
    let n = taken(m, c);
    assert(m.slots.dom().contains(c));
    c.lemma_parent();
    assert(p.child_at(c.slot_in_parent()) == c);
    assert(!listed(m.leaves, p));
    lemma_leaf_removed(m.leaves, c);
    if c.level > 1 {
        c.lemma_path();
        p.lemma_path();
        assert forall|q: int| 0 <= q < 4 implies #[trigger] n.slots[p.child_at(q)] == (if p.child_at(q)
            == c {
            Slot::Pending
        } else {
            m.slots[p.child_at(q)]
        }) by {
            let k = p.child_at(q);
            p.lemma_child(q);
            k.lemma_path();
            assert(m.slots.dom().contains(k));
            if c.covers(k) {
                assert(c.path() =~= k.path());
                c.lemma_path_injective(k);
            }
        }
        lemma_leaf_added(leaf_removed(m.leaves, c), p);
        let free = forall|q: int|
            0 <= q < 4 ==> p.child_at(q) == c || #[trigger] m.slots[p.child_at(q)] is Pending
                || m.slots[p.child_at(q)] is Blocked;
        if free {
            assert forall|q: int| 0 <= q < 4 implies idle(n.slots[#[trigger] p.child_at(q)]) by {
                assert(n.slots[p.child_at(q)] is Pending || m.slots[p.child_at(q)] is Pending
                    || m.slots[p.child_at(q)] is Blocked);
            }
        }
        if all_parts_idle(n.slots, p) {
            assert forall|q: int| 0 <= q < 4 implies p.child_at(q) == c || #[trigger] m.slots[p.child_at(
                q,
            )] is Pending || m.slots[p.child_at(q)] is Blocked by {
                assert(idle(n.slots[p.child_at(q)]));
            }
        }
        assert(all_parts_idle(n.slots, p) == free);
    }
}

/// Of the tiles of one level, those that lost their parts are given up first, in the order in which
/// they did, and then the others in the order in which they were computed: the one that is given up
/// comes no later in these orders than any other that is not locked.
pub proof fn law_oldest_first<I>(m: TreeModel<I>, v: TileCoord, c: TileCoord, j: int)
    requires
        m.wf(),
        victim(m) == Some(v),
        c.level == v.level,
        !m.locked.contains(c),
    ensures
        0 <= j < m.leaves[v.level - 1].emptied.len() && m.leaves[v.level - 1].emptied[j] == (c.x, c.y)
            ==> exists|i: int|
            0 <= i <= j && #[trigger] m.leaves[v.level - 1].emptied[i] == (v.x, v.y),
        0 <= j < m.leaves[v.level - 1].computed.len() && m.leaves[v.level - 1].computed[j] == (
            c.x,
            c.y,
        ) ==> m.leaves[v.level - 1].emptied.contains((v.x, v.y)) || exists|i: int|
            0 <= i <= j && #[trigger] m.leaves[v.level - 1].computed[i] == (v.x, v.y),
{
    law_victim(m);
    lemma_victim_place(m.leaves, m.leaves.len(), m.locked, v, c, j);
}

proof fn lemma_victim_place(
    levels: Seq<LevelOrder>,
    n: nat,
    locked: Set<TileCoord>,
    v: TileCoord,
    c: TileCoord,
    j: int,
)
    requires
        n <= levels.len() <= u32::MAX,
        1 <= v.level <= n,
        first_outside(eviction_order(levels, n), locked) == Some(v),
        c.level == v.level,
        !locked.contains(c),
    ensures
        0 <= j < levels[v.level - 1].emptied.len() && levels[v.level - 1].emptied[j] == (c.x, c.y)
            ==> exists|i: int| 0 <= i <= j && #[trigger] levels[v.level - 1].emptied[i] == (v.x, v.y),
        0 <= j < levels[v.level - 1].computed.len() && levels[v.level - 1].computed[j] == (c.x, c.y)
            ==> levels[v.level - 1].emptied.contains((v.x, v.y)) || exists|i: int|
            0 <= i <= j && #[trigger] levels[v.level - 1].computed[i] == (v.x, v.y),
    decreases n,
{
    let a = tiles_of(n, levels[n - 1].emptied);
    let b = tiles_of(n, levels[n - 1].computed);
    let t = eviction_order(levels, (n - 1) as nat);
    let order = eviction_order(levels, n);
    assert(order == a + b + t);
    lemma_first_outside(order, locked);
    let i = choose|i: int|
        0 <= i < order.len() && #[trigger] order[i] == v && (forall|k: int|
            0 <= k < i ==> locked.contains(#[trigger] order[k]));
    if v.level == n {
        if i >= a.len() + b.len() {
            lemma_order_descends(levels, (n - 1) as nat, i - a.len() - b.len(), i - a.len() - b.len());
            assert(order[i] == t[i - a.len() - b.len()]);
        } else if i < a.len() {
            assert(a[i] == v);
            assert(levels[n - 1].emptied[i] == (v.x, v.y));
        } else {
            assert(b[i - a.len()] == v);
            assert(levels[n - 1].computed[i - a.len()] == (v.x, v.y));
        }
        if 0 <= j < a.len() && levels[n - 1].emptied[j] == (c.x, c.y) {
            assert(order[j] == c);
            assert(i <= j);
        }
        if 0 <= j < b.len() && levels[n - 1].computed[j] == (c.x, c.y) {
            assert(b[j] == c);
            assert(order[a.len() + j] == c);
            assert(i <= a.len() + j);
        }
    } else {
        assert(i >= a.len() + b.len()) by {
            if i < a.len() {
                assert(order[i] == a[i]);
            } else if i < a.len() + b.len() {
                assert(order[i] == b[i - a.len()]);
            }
        }
        lemma_first_outside(t, locked);
        assert(t[i - a.len() - b.len()] == v);
        assert forall|k: int| 0 <= k < i - a.len() - b.len() implies locked.contains(#[trigger] t[k]) by {
            assert(order[a.len() + b.len() + k] == t[k]);
        }
        if first_outside(t, locked) is Some {
            let w = first_outside(t, locked)->0;
            let x = choose|x: int|
                0 <= x < t.len() && #[trigger] t[x] == w && (forall|k: int|
                    0 <= k < x ==> locked.contains(#[trigger] t[k]));
            assert(x == i - a.len() - b.len());
        }
        lemma_victim_place(levels, (n - 1) as nat, locked, v, c, j);
    }
}

/// An image goes into a slot of the arena just if there is one that is not in use, and no tile is
/// given up for it.
pub proof fn law_grant_slot<I>(
    m: TreeModel<I>,
    p: PoolModel,
    budget: HeapBudget,
    heap_index: int,
    r: TileGrant<I>,
    n: TreeModel<I>,
)
    requires
        p.wf(),
        granted(m, p, budget, heap_index, r, n),
    ensures
        r is Slot <==> (p.arena matches Some(a) && a.used < a.slots),
        r matches TileGrant::Slot(offset) ==> n == m && (p.arena matches Some(a) && offset == a.used
            * a.slot_bytes),
        r is NewArena ==> n == m,
{
    if p.arena is Some {
        let a = p.arena->0;
        let (u, b, k) = (a.used, a.slot_bytes, a.slots);
        assert(u <= k ==> u * b <= b * k) by (nonlinear_arith);
    }
}

/// A tile is given up for an image only if the arena is used up and the heap has no room for another;
/// the tile is below the root and not locked, it is pending afterwards, its image is the one that is
/// reused, and every other image stays.
pub proof fn law_grant_reuse<I>(
    m: TreeModel<I>,
    p: PoolModel,
    budget: HeapBudget,
    heap_index: int,
    item: Arc<I>,
    n: TreeModel<I>,
)
    requires
        m.wf(),
        p.wf(),
        heap_index >= 0,
        granted(m, p, budget, heap_index, TileGrant::Reuse(item), n),
    ensures
        p.arena matches Some(a) && a.used == a.slots,
        !(heap_index < budget.heap_count <= 16 && budget.heap_usage@[heap_index] > 0
            && budget.heap_budget@[heap_index] > budget.heap_usage@[heap_index]
            + budget.heap_usage@[heap_index]),
        exists|c: TileCoord| #[trigger]
            m.slots.dom().contains(c) && c.level >= 1 && m.slots[c] == Slot::Present(item)
                && !m.locked.contains(c) && n.slots[c] is Pending && (forall|d: TileCoord|
                d != c && #[trigger] m.slots.dom().contains(d) && m.slots[d] is Present
                    ==> n.slots.dom().contains(d) && n.slots[d] == m.slots[d]),
{
    law_victim(m);
    let c = victim(m)->0;
    assert forall|d: TileCoord|
        d != c && #[trigger] m.slots.dom().contains(d) && m.slots[d] is Present implies n.slots.dom().contains(
        d,
    ) && n.slots[d] == m.slots[d] by {
        law_locked_kept(m, d);
    }
    assert(m.slots.dom().contains(c));
}

/// New memory is taken only if the arena is used up, or there is none, and the heap has room for
/// another or every tile that may be given up is locked.
pub proof fn law_grant_new_arena<I>(
    m: TreeModel<I>,
    p: PoolModel,
    budget: HeapBudget,
    heap_index: int,
    n: TreeModel<I>,
    c: TileCoord,
)
    requires
        m.wf(),
        p.wf(),
        heap_index >= 0,
        granted(m, p, budget, heap_index, TileGrant::NewArena, n),
    ensures
        p.arena matches Some(a) ==> a.used == a.slots,
        p.arena is Some && listed(m.leaves, c) && !m.locked.contains(c) ==> heap_index
            < budget.heap_count <= 16 && budget.heap_usage@[heap_index] > 0
            && budget.heap_budget@[heap_index] > budget.heap_usage@[heap_index]
            + budget.heap_usage@[heap_index],
{
    law_victim(m);
}

} // verus!
