//! What a tree of tiles is, apart from how it is stored: a map from tiles to slots.

use crate::coord::{TileCoord, Viewport, MAX_DEPTH};
use crate::leaves::{
    eviction_order, first_outside, leaf_computed, leaf_emptied, leaf_removed, lemma_leaf_added,
    lemma_leaf_removed, listed, orders_distinct, LevelOrder,
};
use std::sync::Arc;
use vstd::prelude::*;

verus! {

/// What the tree knows of a tile.
pub enum Slot<I> {
    /// Not computed, and free to be asked for.
    Pending,
    /// Not computed, and not worth computing.
    Blocked,
    /// Being computed.
    Computing,
    /// Computed; this is its image.
    Present(Arc<I>),
}

/// A tile of the level has pixels fine enough for the window, or is as deep as tiles go.
pub open spec fn fine_enough(vp: Viewport, level: int) -> bool {
    level >= vp.target_level || level >= MAX_DEPTH
}

/// Some quarter of the tile shows in the window and has no image.
pub open spec fn has_gap<I>(slots: Map<TileCoord, Slot<I>>, vp: Viewport, c: TileCoord) -> bool {
    exists|q: int|
        0 <= q < 4 && #[trigger] c.child_at(q).in_view(vp) && !(slots[c.child_at(q)] is Present)
}

/// The tile is drawn: it has an image and shows in the window, no tile that it is a part of is fine
/// enough already, and either it is fine enough itself or its own quarters leave a gap.
pub open spec fn drawn<I>(slots: Map<TileCoord, Slot<I>>, vp: Viewport, c: TileCoord) -> bool {
    &&& c.computable()
    &&& slots.dom().contains(c)
    &&& slots[c] is Present
    &&& c.in_view(vp)
    &&& c.level == 0 || !fine_enough(vp, c.level - 1)
    &&& fine_enough(vp, c.level as int) || has_gap(slots, vp, c)
}

/// `c` is `top` or lies in one of the first `n` quarters of it.
pub open spec fn within(top: TileCoord, n: int, c: TileCoord) -> bool {
    top.covers(c) && (c.level == top.level || c.path()[top.level as int] < n)
}

/// The sequence lists the drawn tiles among `top` and its first `n` quarters with their images,
/// each once, in drawing order.
pub open spec fn lists_drawn<I>(
    list: Seq<(TileCoord, Arc<I>)>,
    slots: Map<TileCoord, Slot<I>>,
    vp: Viewport,
    top: TileCoord,
    n: int,
) -> bool {
    &&& forall|i: int|
        0 <= i < list.len() ==> {
            &&& drawn(slots, vp, (#[trigger] list[i]).0)
            &&& within(top, n, list[i].0)
            &&& slots[list[i].0] == Slot::Present(list[i].1)
        }
    &&& forall|c: TileCoord| #[trigger]
        drawn(slots, vp, c) && within(top, n, c) ==> exists|i: int|
            0 <= i < list.len() && (#[trigger] list[i]).0 == c
    &&& forall|i: int, j: int|
        0 <= i < j < list.len() ==> (#[trigger] list[i]).0.before((#[trigger] list[j]).0)
}

/// Tiles of the level are too coarse for the window, and there is room for two more levels.
pub open spec fn refinable(vp: Viewport, level: int) -> bool {
    level < MAX_DEPTH - 1 && level < vp.target_level
}

/// The tile could be computed next to refine what shows of `top`: it is a pending part of `top`
/// that shows in the window, and a quarter of `top` or of a tile whose parent is too coarse.
pub open spec fn wanted_below<I>(
    slots: Map<TileCoord, Slot<I>>,
    vp: Viewport,
    top: TileCoord,
    c: TileCoord,
) -> bool {
    &&& c.computable()
    &&& slots.dom().contains(c)
    &&& slots[c] is Pending
    &&& top.covers(c)
    &&& c.level > top.level
    &&& c.in_view(vp)
    &&& c.level == top.level + 1 || refinable(vp, c.level - 2)
}

/// The tile could be computed next: it is the root, pending and showing in the window, or refines
/// what shows of the root.
pub open spec fn wanted<I>(slots: Map<TileCoord, Slot<I>>, vp: Viewport, c: TileCoord) -> bool {
    if c.level == 0 {
        c == root_tile() && slots[c] is Pending && c.in_view(vp)
    } else {
        wanted_below(slots, vp, root_tile(), c)
    }
}

/// `r` is the next tile to compute for a window: of those that are wanted at half its resolution the
/// one that comes first, if there is any.
pub open spec fn is_next<I>(
    slots: Map<TileCoord, Slot<I>>,
    vp: Viewport,
    r: Option<TileCoord>,
) -> bool {
    match r {
        Some(d) => {
            &&& wanted(slots, vp.spec_coarsen(), d)
            &&& forall|c: TileCoord| #[trigger]
                wanted(slots, vp.spec_coarsen(), c) ==> c == d || sooner(d, c)
        },
        None => forall|c: TileCoord| !#[trigger] wanted(slots, vp.spec_coarsen(), c),
    }
}

/// Some tile is being computed.
pub open spec fn some_computing<I>(slots: Map<TileCoord, Slot<I>>) -> bool {
    exists|c: TileCoord| #[trigger] slots.dom().contains(c) && slots[c] is Computing
}

/// The picture is not complete: some tile could be computed, or is being computed.
pub open spec fn incomplete<I>(slots: Map<TileCoord, Slot<I>>, vp: Viewport) -> bool {
    (exists|c: TileCoord| #[trigger] wanted(slots, vp, c)) || some_computing(slots)
}

/// The order in which tiles are computed: coarse ones first, and of a level in drawing order.
pub open spec fn sooner(a: TileCoord, b: TileCoord) -> bool {
    a.level < b.level || a.level == b.level && a.before(b)
}

/// The tile that all others are parts of.
pub open spec fn root_tile() -> TileCoord {
    TileCoord { level: 0, x: 0, y: 0 }
}

/// There is no image and none is on its way.
pub open spec fn idle<I>(s: Slot<I>) -> bool {
    s is Pending || s is Blocked
}

/// The slots form a tree: the root has one, and the quarters of the tiles with an image have one.
pub open spec fn tree_shaped<I>(slots: Map<TileCoord, Slot<I>>) -> bool {
    &&& slots.dom().contains(root_tile())
    &&& forall|c: TileCoord| #[trigger] slots.dom().contains(c) ==> c.valid()
    &&& forall|c: TileCoord|
        c.valid() && c.level >= 1 ==> (#[trigger] slots.dom().contains(c) <==> slots.dom().contains(
            c.up(),
        ) && slots[c.up()] is Present)
}

/// No quarter of the tile has an image.
pub open spec fn no_part_present<I>(slots: Map<TileCoord, Slot<I>>, c: TileCoord) -> bool {
    forall|q: int| 0 <= q < 4 ==> !(slots[#[trigger] c.child_at(q)] is Present)
}

/// No quarter of the tile has an image or is being computed.
pub open spec fn all_parts_idle<I>(slots: Map<TileCoord, Slot<I>>, c: TileCoord) -> bool {
    forall|q: int| 0 <= q < 4 ==> idle(slots[#[trigger] c.child_at(q)])
}

/// A tree of tiles: what it knows of each tile, which tiles it may give up and in what order, and
/// which of them it must keep.
#[verifier::ext_equal]
pub struct TreeModel<I> {
    pub slots: Map<TileCoord, Slot<I>>,
    pub leaves: Seq<LevelOrder>,
    pub locked: Set<TileCoord>,
}

impl<I> TreeModel<I> {
    pub open spec fn wf(self) -> bool {
        &&& tree_shaped(self.slots)
        &&& forall|c: TileCoord| #[trigger]
            self.slots.dom().contains(c) && !idle(self.slots[c]) ==> c.computable()
        &&& self.leaves.len() == MAX_DEPTH
        &&& orders_distinct(self.leaves)
        // What may be given up has an image, and no part of it has one.
        &&& forall|c: TileCoord| #[trigger]
            listed(self.leaves, c) ==> self.slots.dom().contains(c) && self.slots[c] is Present
                && no_part_present(self.slots, c)
        // Whatever has an image, below the root, and has neither parts nor parts on their way may
        // be given up.
        &&& forall|c: TileCoord| #[trigger]
            self.slots.dom().contains(c) && self.slots[c] is Present && c.level >= 1
                && all_parts_idle(self.slots, c) ==> listed(self.leaves, c)
        &&& forall|c: TileCoord| #[trigger] self.locked.contains(c) ==> c.computable()
    }
}

/// The slot of a tile without an image.
pub open spec fn uncomputed<I>(blocked: bool) -> Slot<I> {
    if blocked {
        Slot::Blocked
    } else {
        Slot::Pending
    }
}

/// The tile gets an image, and its quarters get slots.
pub open spec fn planted<I>(
    slots: Map<TileCoord, Slot<I>>,
    c: TileCoord,
    item: Arc<I>,
    blocks: Seq<bool>,
) -> Map<TileCoord, Slot<I>> {
    slots.insert(c, Slot::Present(item)).insert(c.child_at(0), uncomputed(blocks[0])).insert(
        c.child_at(1),
        uncomputed(blocks[1]),
    ).insert(c.child_at(2), uncomputed(blocks[2])).insert(c.child_at(3), uncomputed(blocks[3]))
}

/// The tile gets another slot, and its parts get none.
pub open spec fn cleared<I>(
    slots: Map<TileCoord, Slot<I>>,
    c: TileCoord,
    s: Slot<I>,
) -> Map<TileCoord, Slot<I>> {
    Map::new(
        |d: TileCoord| d == c || slots.dom().contains(d) && !c.covers(d),
        |d: TileCoord| if d == c { s } else { slots[d] },
    )
}

/// The tree after a computed tile went into its slot. Below the root, the tile may be given up
/// from now on, but not until the next frame; its parent may not be, having a part.
pub open spec fn inserted<I>(
    m: TreeModel<I>,
    c: TileCoord,
    item: Arc<I>,
    blocks: Seq<bool>,
) -> TreeModel<I> {
    TreeModel {
        slots: planted(m.slots, c, item, blocks),
        leaves: if c.level == 0 {
            m.leaves
        } else if c.level == 1 {
            leaf_computed(m.leaves, c)
        } else {
            leaf_removed(leaf_computed(m.leaves, c), c.up())
        },
        locked: if c.level == 0 {
            m.locked
        } else {
            m.locked.insert(c)
        },
    }
}

/// The tree after a tile was given up. The tile is pending again; its parent, if nothing is left
/// of it or on its way, may be given up next.
pub open spec fn taken<I>(m: TreeModel<I>, c: TileCoord) -> TreeModel<I> {
    let slots = cleared(m.slots, c, Slot::Pending);
    TreeModel {
        slots,
        leaves: if c.level > 1 && all_parts_idle(slots, c.up()) {
            leaf_emptied(leaf_removed(m.leaves, c), c.up())
        } else {
            leaf_removed(m.leaves, c)
        },
        locked: m.locked,
    }
}

/// The tile to give up next: the first in the eviction order that is not locked.
pub open spec fn victim<I>(m: TreeModel<I>) -> Option<TileCoord> {
    first_outside(eviction_order(m.leaves, m.leaves.len()), m.locked)
}

/// The tree is waiting for the tile.
pub open spec fn awaited<I>(m: TreeModel<I>, c: TileCoord) -> bool {
    m.slots.dom().contains(c) && m.slots[c] is Computing
}

/// `n` is what `m` is after a tile was given up, if any can be, and `r` is the image of that tile.
pub open spec fn given_up<I>(m: TreeModel<I>, r: Option<Arc<I>>, n: TreeModel<I>) -> bool {
    match victim(m) {
        Some(c) => (r matches Some(item) && m.slots[c] == Slot::Present(item)) && n == taken(m, c),
        None => r is None && n == m,
    }
}

/// The tree after a frame: what was drawn in it is kept, and nothing else.
pub open spec fn shown<I>(m: TreeModel<I>, vp: Viewport) -> TreeModel<I> {
    TreeModel {
        slots: m.slots,
        leaves: m.leaves,
        locked: Set::new(|c: TileCoord| drawn(m.slots, vp, c)),
    }
}

/// The tree after a tile was handed out to be computed.
pub open spec fn claimed<I>(m: TreeModel<I>, c: TileCoord) -> TreeModel<I> {
    TreeModel { slots: m.slots.insert(c, Slot::Computing), leaves: m.leaves, locked: m.locked }
}

/// What a tile with a slot is a part of has an image.
pub proof fn lemma_above_present<I>(slots: Map<TileCoord, Slot<I>>, a: TileCoord, d: TileCoord)
    requires
        tree_shaped(slots),
        slots.dom().contains(d),
        a.valid(),
        a.covers(d),
        a != d,
    ensures
        a.level < d.level,
        slots.dom().contains(a),
        slots[a] is Present,
    decreases d.level,
{
    a.lemma_path();
    d.lemma_path();
    if a.level == d.level {
        assert(a.path() =~= d.path());
        a.lemma_path_injective(d);
    } else {
        d.lemma_parent();
        a.lemma_covers_up(d);
        if a != d.up() {
            lemma_above_present(slots, a, d.up());
        }
    }
}

/// What lies below a tile has it above, quarter by quarter.
pub proof fn lemma_part_present<I>(slots: Map<TileCoord, Slot<I>>, c: TileCoord, d: TileCoord)
    requires
        tree_shaped(slots),
        slots.dom().contains(d),
        slots[d] is Present,
        c.valid(),
        c.covers(d),
        c != d,
    ensures
        !no_part_present(slots, c),
    decreases d.level,
{
    lemma_above_present(slots, c, d);
    d.lemma_parent();
    c.lemma_covers_up(d);
    if c == d.up() {
        assert(c.child_at(d.slot_in_parent()) == d);
    } else {
        lemma_above_present(slots, d.up(), d);
        lemma_part_present(slots, c, d.up());
    }
}

/// Planting gives the tile its image and its quarters slots without one, and changes nothing else.
pub proof fn lemma_planted<I>(
    slots: Map<TileCoord, Slot<I>>,
    c: TileCoord,
    item: Arc<I>,
    blocks: Seq<bool>,
)
    requires
        tree_shaped(slots),
        slots.dom().contains(c),
        slots[c] is Computing,
        c.computable(),
    ensures
        ({
            let n = planted(slots, c, item, blocks);
            &&& n.dom().contains(c)
            &&& n[c] == Slot::Present(item)
            &&& forall|q: int| 0 <= q < 4 ==> idle(n[#[trigger] c.child_at(q)])
            &&& forall|d: TileCoord| #[trigger]
                slots.dom().contains(d) && d != c ==> n.dom().contains(d) && n[d] == slots[d]
            &&& forall|d: TileCoord| #[trigger]
                n.dom().contains(d) && d != c ==> slots.dom().contains(d) && n[d] == slots[d] || idle(
                    n[d],
                )
        }),
{
    lemma_quarters(c);
    assert forall|q: int| 0 <= q < 4 implies !slots.dom().contains(#[trigger] c.child_at(q)) by {
        c.lemma_child(q);
    }
    assert(c.child_at(0) != c && c.child_at(1) != c && c.child_at(2) != c && c.child_at(3) != c);
}

/// A tile with an image, other than the changed one and its parent, has its quarters unchanged.
proof fn lemma_other_quarters<I>(
    slots: Map<TileCoord, Slot<I>>,
    n: Map<TileCoord, Slot<I>>,
    c: TileCoord,
    d: TileCoord,
)
    requires
        tree_shaped(slots),
        slots.dom().contains(d),
        slots[d] is Present,
        d.computable(),
        d != c,
        c.level == 0 || d != c.up(),
        forall|e: TileCoord| #[trigger]
            slots.dom().contains(e) && e != c && e.level > 0 && e.up() == d ==> n[e] == slots[e],
    ensures
        forall|q: int| 0 <= q < 4 ==> n[#[trigger] d.child_at(q)] == slots[d.child_at(q)],
{
    assert forall|q: int| 0 <= q < 4 implies n[#[trigger] d.child_at(q)] == slots[d.child_at(q)] by {
        d.lemma_child(q);
        assert(slots.dom().contains(d.child_at(q)));
    }
}

/// Inserting a tile that is being computed keeps the tree well-formed.
pub proof fn lemma_inserted_wf<I>(
    m: TreeModel<I>,
    c: TileCoord,
    item: Arc<I>,
    blocks: Seq<bool>,
)
    requires
        m.wf(),
        m.slots.dom().contains(c),
        m.slots[c] is Computing,
        tree_shaped(planted(m.slots, c, item, blocks)),
    ensures
        inserted(m, c, item, blocks).wf(),
{
    let n = inserted(m, c, item, blocks);
    lemma_planted(m.slots, c, item, blocks);
    lemma_inserted_wf_core(m, n, c);
}

/// The part of `lemma_inserted_wf` that does not depend on which quarters are blocked.
proof fn lemma_inserted_wf_core<I>(m: TreeModel<I>, n: TreeModel<I>, c: TileCoord)
    requires
        m.wf(),
        m.slots.dom().contains(c),
        m.slots[c] is Computing,
        tree_shaped(n.slots),
        n.slots.dom().contains(c),
        n.slots[c] is Present,
        forall|q: int| 0 <= q < 4 ==> idle(n.slots[#[trigger] c.child_at(q)]),
        forall|d: TileCoord| #[trigger]
            m.slots.dom().contains(d) && d != c ==> n.slots.dom().contains(d) && n.slots[d]
                == m.slots[d],
        forall|d: TileCoord| #[trigger]
            n.slots.dom().contains(d) && d != c ==> m.slots.dom().contains(d) && n.slots[d]
                == m.slots[d] || idle(n.slots[d]),
        n.leaves == (if c.level == 0 {
            m.leaves
        } else if c.level == 1 {
            leaf_computed(m.leaves, c)
        } else {
            leaf_removed(leaf_computed(m.leaves, c), c.up())
        }),
        n.locked == (if c.level == 0 {
            m.locked
        } else {
            m.locked.insert(c)
        }),
    ensures
        n.wf(),
{
    assert(c.computable());
    assert forall|d: TileCoord| #[trigger]
        m.slots.dom().contains(d) && m.slots[d] is Present && d != c && (c.level == 0 || d
            != c.up()) implies forall|q: int|
        0 <= q < 4 ==> n.slots[#[trigger] d.child_at(q)] == m.slots[d.child_at(q)] by {
        lemma_other_quarters(m.slots, n.slots, c, d);
    }
    assert(!listed(m.leaves, c));
    if c.level > 0 {
        c.lemma_parent();
        lemma_leaf_added(m.leaves, c);
        if c.level > 1 {
            lemma_leaf_removed(leaf_computed(m.leaves, c), c.up());
        }
        assert(c.up().child_at(c.slot_in_parent()) == c);
    }
    assert forall|d: TileCoord| #[trigger] listed(n.leaves, d) <==> (listed(m.leaves, d) || c.level > 0
        && d == c) && !(c.level > 1 && d == c.up()) by {}
    assert forall|d: TileCoord| #[trigger] listed(n.leaves, d) implies n.slots.dom().contains(d)
        && n.slots[d] is Present && no_part_present(n.slots, d) by {
        if d != c {
            assert(listed(m.leaves, d));
            assert(m.slots.dom().contains(d));
            if c.level > 0 {
                assert(d != c.up());
            }
        }
    }
    assert forall|d: TileCoord| #[trigger]
        n.slots.dom().contains(d) && n.slots[d] is Present && d.level >= 1 && all_parts_idle(
            n.slots,
            d,
        ) implies listed(n.leaves, d) by {
        if d != c {
            assert(m.slots.dom().contains(d) && n.slots[d] == m.slots[d]);
            if c.level > 0 && d == c.up() {
                assert(idle(n.slots[d.child_at(c.slot_in_parent())]));
            }
            assert(all_parts_idle(m.slots, d));
        }
    }
}

/// Giving up a tile that may be given up keeps the tree well-formed.
pub proof fn lemma_taken_wf<I>(m: TreeModel<I>, c: TileCoord)
    requires
        m.wf(),
        listed(m.leaves, c),
        tree_shaped(cleared(m.slots, c, Slot::Pending)),
    ensures
        taken(m, c).wf(),
{
    let n = taken(m, c);
    assert(m.slots.dom().contains(c) && m.slots[c] is Present);
    assert(c.computable() && c.level >= 1);
    c.lemma_parent();
    let p = c.up();
    assert(p.child_at(c.slot_in_parent()) == c);
    assert(m.slots.dom().contains(p) && m.slots[p] is Present);
    assert(!c.covers(p)) by {
        c.lemma_path();
        p.lemma_path();
    }
    assert(!listed(m.leaves, p));
    lemma_leaf_removed(m.leaves, c);
    if c.level > 1 && all_parts_idle(n.slots, p) {
        lemma_leaf_added(leaf_removed(m.leaves, c), p);
    }
    // Nothing with an image is lost but the tile itself.
    assert forall|d: TileCoord| #[trigger]
        m.slots.dom().contains(d) && m.slots[d] is Present && d != c implies n.slots.dom().contains(d)
        && n.slots[d] == m.slots[d] by {
        if c.covers(d) {
            lemma_part_present(m.slots, c, d);
        }
    }
    assert forall|d: TileCoord| #[trigger]
        m.slots.dom().contains(d) && m.slots[d] is Present && d != c && d != p implies forall|q: int|
        0 <= q < 4 ==> n.slots[#[trigger] d.child_at(q)] == m.slots[d.child_at(q)] by {
        assert forall|e: TileCoord| #[trigger]
            m.slots.dom().contains(e) && e != c && e.level > 0 && e.up() == d implies n.slots[e]
            == m.slots[e] by {
            assert(n.slots.dom().contains(d));
            e.lemma_parent();
            assert(n.slots.dom().contains(e));
        }
        lemma_other_quarters(m.slots, n.slots, c, d);
    }
    assert forall|d: TileCoord| #[trigger] listed(n.leaves, d) implies n.slots.dom().contains(d)
        && n.slots[d] is Present && no_part_present(n.slots, d) by {
        if d == p {
            assert(all_parts_idle(n.slots, p));
        } else {
            assert(listed(m.leaves, d) && d != c);
        }
    }
    assert forall|d: TileCoord| #[trigger]
        n.slots.dom().contains(d) && n.slots[d] is Present && d.level >= 1 && all_parts_idle(
            n.slots,
            d,
        ) implies listed(n.leaves, d) by {
        if d != p {
            assert(m.slots.dom().contains(d) && m.slots[d] is Present);
            assert(all_parts_idle(m.slots, d));
        }
    }
}

/// Handing out a pending tile to be computed keeps the tree well-formed.
pub proof fn lemma_claimed_wf<I>(m: TreeModel<I>, c: TileCoord)
    requires
        m.wf(),
        c.computable(),
        m.slots.dom().contains(c),
        m.slots[c] is Pending,
    ensures
        claimed(m, c).wf(),
{
    let n = claimed(m, c);
    assert forall|d: TileCoord| #[trigger] listed(n.leaves, d) implies n.slots.dom().contains(d)
        && n.slots[d] is Present && no_part_present(n.slots, d) by {
        assert(no_part_present(m.slots, d));
    }
    assert forall|d: TileCoord| #[trigger]
        n.slots.dom().contains(d) && n.slots[d] is Present && d.level >= 1 && all_parts_idle(
            n.slots,
            d,
        ) implies listed(n.leaves, d) by {
        assert(m.slots.dom().contains(d));
        assert(all_parts_idle(m.slots, d)) by {
            assert forall|q: int| 0 <= q < 4 implies idle(m.slots[#[trigger] d.child_at(q)]) by {
                assert(idle(n.slots[d.child_at(q)]));
            }
        }
    }
    assert(tree_shaped(n.slots));
}

/// The four quarters of a tile differ from one another and from it.
proof fn lemma_quarters(c: TileCoord)
    requires
        c.computable(),
    ensures
        forall|q: int|
            0 <= q < 4 ==> (#[trigger] c.child_at(q)).valid() && c.child_at(q).level == c.level + 1,
        forall|q: int, k: int|
            0 <= q < 4 && 0 <= k < 4 && q != k ==> #[trigger] c.child_at(q) != #[trigger] c.child_at(k),
{
    c.lemma_child(0);
    c.lemma_child(1);
    c.lemma_child(2);
    c.lemma_child(3);
}

} // verus!
