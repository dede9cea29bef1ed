//! The nodes of the tree of tiles.

use crate::coord::{lemma_lex_branch, TileCoord, Viewport, MAX_DEPTH};
use crate::model::{
    all_parts_idle, cleared, drawn, fine_enough, has_gap, idle, lists_drawn, planted, refinable,
    root_tile, sooner, tree_shaped, uncomputed, wanted_below, within, Slot,
};
use std::sync::Arc;
use vstd::prelude::*;

verus! {

/// One quarter of a tile in the tree, or the root.
pub enum ChildNode<I> {
    Pending,
    Blocked,
    Computing,
    Present(Box<QuadTreeNode<I>>),
}

/// A tile that has been computed.
pub struct QuadTreeNode<I> {
    pub item: Arc<I>,
    pub children: [ChildNode<I>; 4],
}

/// What the tree holds at the end of a path.
pub open spec fn at_path<I>(root: ChildNode<I>, p: Seq<int>) -> Option<ChildNode<I>>
    decreases p.len(),
{
    if p.len() == 0 {
        Some(root)
    } else {
        match root {
            ChildNode::Present(n) => if 0 <= p[0] < 4 {
                at_path(n.children@[p[0]], p.drop_first())
            } else {
                None
            },
            _ => None,
        }
    }
}

/// `b` is `a` with another node at the end of a path that leads to a node in both.
pub open spec fn node_replaced<I>(
    a: QuadTreeNode<I>,
    p: Seq<int>,
    b: QuadTreeNode<I>,
    n: QuadTreeNode<I>,
) -> bool
    decreases p.len(),
{
    if p.len() == 0 {
        b == n
    } else {
        &&& 0 <= p[0] < 4
        &&& b.item == a.item
        &&& forall|q: int| 0 <= q < 4 && q != p[0] ==> b.children@[q] == #[trigger] a.children@[q]
        &&& a.children@[p[0]] matches ChildNode::Present(x)
        &&& b.children@[p[0]] matches ChildNode::Present(y)
        &&& node_replaced(*x, p.drop_first(), *y, n)
    }
}

/// What the tree knows of the tile at a node.
pub open spec fn slot_of<I>(c: ChildNode<I>) -> Slot<I> {
    match c {
        ChildNode::Pending => Slot::Pending,
        ChildNode::Blocked => Slot::Blocked,
        ChildNode::Computing => Slot::Computing,
        ChildNode::Present(n) => Slot::Present(n.item),
    }
}

/// What the tree knows of each tile.
pub open spec fn slots<I>(root: ChildNode<I>) -> Map<TileCoord, Slot<I>> {
    Map::new(
        |c: TileCoord| c.valid() && at_path(root, c.path()) is Some,
        |c: TileCoord| slot_of(at_path(root, c.path())->0),
    )
}

/// One more step leads into a quarter of the node.
pub proof fn lemma_at_path_push<I>(root: ChildNode<I>, p: Seq<int>, q: int)
    requires
        0 <= q < 4,
    ensures
        at_path(root, p.push(q)) == (match at_path(root, p) {
            Some(ChildNode::Present(n)) => Some(n.children@[q]),
            _ => None,
        }),
    decreases p.len(),
{
    if p.len() == 0 {
        reveal_with_fuel(at_path, 2);
        assert(p.push(q).drop_first() =~= Seq::empty());
    } else {
        assert(p.push(q).drop_first() =~= p.drop_first().push(q));
        match root {
            ChildNode::Present(n) => {
                if 0 <= p[0] < 4 {
                    lemma_at_path_push(n.children@[p[0]], p.drop_first(), q);
                }
            },
            _ => {},
        }
    }
}

/// A path that leads somewhere leads through nodes.
pub proof fn lemma_at_path_prefix<I>(root: ChildNode<I>, a: Seq<int>, b: Seq<int>)
    requires
        a.is_prefix_of(b),
        a.len() < b.len(),
        at_path(root, b) is Some,
    ensures
        at_path(root, a) matches Some(ChildNode::Present(_)),
    decreases a.len(),
{
    if a.len() > 0 {
        assert(a[0] == b.subrange(0, a.len() as int)[0]);
        let at = a.drop_first();
        let bt = b.drop_first();
        assert(at =~= bt.subrange(0, at.len() as int)) by {
            assert forall|i: int| 0 <= i < at.len() implies at[i] == bt[i] by {
                assert(a[i + 1] == b.subrange(0, a.len() as int)[i + 1]);
            }
        }
        match root {
            ChildNode::Present(n) => {
                lemma_at_path_prefix(n.children@[a[0]], at, bt);
            },
            _ => {},
        }
    }
}

/// The quarters of a node in the tree.
pub proof fn lemma_quarter<I>(root: ChildNode<I>, c: TileCoord, n: QuadTreeNode<I>, q: int)
    requires
        c.valid(),
        c.level < 64,
        at_path(root, c.path()) == Some(ChildNode::Present(Box::new(n))),
        0 <= q < 4,
    ensures
        c.child_at(q).valid(),
        c.child_at(q).level == c.level + 1,
        at_path(root, c.child_at(q).path()) == Some(n.children@[q]),
        slots(root).dom().contains(c.child_at(q)),
        slots(root)[c.child_at(q)] == slot_of(n.children@[q]),
{
    c.lemma_child(q);
    lemma_at_path_push(root, c.path(), q);
}

/// A tile below another lies in the quarter of it that its path says.
pub proof fn lemma_branch<I>(root: ChildNode<I>, top: TileCoord, c: TileCoord)
    requires
        top.valid(),
        c.valid(),
        top.covers(c),
        top.level < c.level,
    ensures
        0 <= c.path()[top.level as int] < 4,
        top.child_at(c.path()[top.level as int]).valid(),
        top.child_at(c.path()[top.level as int]).covers(c),
        top.child_at(c.path()[top.level as int]).level == top.level + 1,
        slots(root).dom().contains(c) && c.level > top.level + 1 ==> at_path(
            root,
            top.child_at(c.path()[top.level as int]).path(),
        ) matches Some(ChildNode::Present(_)),
{
    top.lemma_path();
    c.lemma_path();
    let q = c.path()[top.level as int];
    top.lemma_child(q);
    let k = top.child_at(q);
    k.lemma_path();
    assert(k.path() =~= c.path().subrange(0, k.level as int)) by {
        assert forall|i: int| 0 <= i < k.level implies k.path()[i] == c.path()[i] by {
            if i < top.level {
                assert(top.path()[i] == c.path().subrange(0, top.level as int)[i]);
            }
        }
    }
    if slots(root).dom().contains(c) && c.level > top.level + 1 {
        lemma_at_path_prefix(root, k.path(), c.path());
    }
}

/// A quarter of a tile lies within it, in that quarter, and so does whatever it covers.
pub proof fn lemma_quarter_within(top: TileCoord, q: int, c: TileCoord)
    requires
        top.valid(),
        top.level < 64,
        0 <= q < 4,
        c.valid(),
        top.child_at(q).covers(c),
    ensures
        top.covers(c),
        c.level > top.level,
        c.path()[top.level as int] == q,
{
    top.lemma_path();
    c.lemma_path();
    top.lemma_child(q);
    let k = top.child_at(q);
    k.lemma_path();
    assert(k.path()[top.level as int] == c.path().subrange(0, k.level as int)[top.level as int]);
    assert(top.path() =~= c.path().subrange(0, top.level as int)) by {
        assert forall|i: int| 0 <= i < top.level implies top.path()[i] == c.path()[i] by {
            assert(k.path()[i] == c.path().subrange(0, k.level as int)[i]);
            assert(k.path()[i] == top.path()[i]);
        }
    }
}

/// `b` is `a` with `new` at the end of the path `t`, and with nothing else changed.
pub open spec fn slot_set<I>(a: ChildNode<I>, t: Seq<int>, b: ChildNode<I>, new: ChildNode<I>) -> bool {
    forall|d: Seq<int>| #[trigger] slot_set_at(a, t, b, new, d)
}

/// What `slot_set` says of one path.
pub open spec fn slot_set_at<I>(
    a: ChildNode<I>,
    t: Seq<int>,
    b: ChildNode<I>,
    new: ChildNode<I>,
    d: Seq<int>,
) -> bool {
    if t.is_prefix_of(d) {
        at_path(b, d) == at_path(new, d.skip(t.len() as int))
    } else {
        match (at_path(a, d), at_path(b, d)) {
            (Some(x), Some(y)) => slot_of(x) == slot_of(y),
            (None, None) => true,
            _ => false,
        }
    }
}

/// Replacing a node by one that differs in one quarter sets one slot.
proof fn lemma_node_replaced<I>(
    a: QuadTreeNode<I>,
    p: Seq<int>,
    b: QuadTreeNode<I>,
    m: QuadTreeNode<I>,
    n: QuadTreeNode<I>,
    q: int,
    d: Seq<int>,
)
    requires
        node_replaced(a, p, b, n),
        at_path(ChildNode::Present(Box::new(a)), p) == Some(ChildNode::Present(Box::new(m))),
        0 <= q < 4,
        n.item == m.item,
        forall|k: int| 0 <= k < 4 && k != q ==> n.children@[k] == #[trigger] m.children@[k],
    ensures
        slot_set_at(
            ChildNode::Present(Box::new(a)),
            p.push(q),
            ChildNode::Present(Box::new(b)),
            n.children@[q],
            d,
        ),
    decreases p.len(),
{
    let t = p.push(q);
    let ra = ChildNode::Present(Box::new(a));
    let rb = ChildNode::Present(Box::new(b));
    if d.len() == 0 {
        assert(!t.is_prefix_of(d));
    } else if p.len() == 0 {
        assert(t.is_prefix_of(d) <==> d[0] == q) by {
            assert(t =~= seq![q]);
            assert(d.subrange(0, 1) =~= seq![d[0]]);
            if t.is_prefix_of(d) {
                assert(t[0] == d.subrange(0, 1)[0]);
            }
        }
        if d[0] == q {
            assert(d.drop_first() =~= d.skip(1));
        }
    } else {
        let pt = p.drop_first();
        let dt = d.drop_first();
        assert(t.drop_first() =~= pt.push(q));
        let q0 = p[0];
        if d[0] == q0 {
            let x = a.children@[q0]->Present_0;
            let y = b.children@[q0]->Present_0;
            lemma_node_replaced(*x, pt, *y, m, n, q, dt);
            let tt = pt.push(q);
            assert(t.is_prefix_of(d) <==> tt.is_prefix_of(dt)) by {
                if t.is_prefix_of(d) {
                    assert(tt =~= dt.subrange(0, tt.len() as int)) by {
                        assert forall|i: int| 0 <= i < tt.len() implies tt[i] == dt[i] by {
                            assert(t[i + 1] == d.subrange(0, t.len() as int)[i + 1]);
                            assert(tt[i] == t[i + 1]);
                        }
                    }
                }
                if tt.is_prefix_of(dt) {
                    assert(t =~= d.subrange(0, t.len() as int)) by {
                        assert forall|i: int| 0 <= i < t.len() implies t[i] == d[i] by {
                            if i > 0 {
                                assert(tt[i - 1] == dt.subrange(0, tt.len() as int)[i - 1]);
                                assert(tt[i - 1] == t[i]);
                            }
                        }
                    }
                }
            }
            if t.is_prefix_of(d) {
                assert(dt.skip(tt.len() as int) =~= d.skip(t.len() as int));
            }
        } else {
            if t.is_prefix_of(d) {
                assert(t[0] == d.subrange(0, t.len() as int)[0]);
            }
            if 0 <= d[0] < 4 {
                assert(b.children@[d[0]] == a.children@[d[0]]);
            }
        }
    }
}

/// The replaced node is where the old one was.
proof fn lemma_node_replaced_end<I>(
    a: QuadTreeNode<I>,
    p: Seq<int>,
    b: QuadTreeNode<I>,
    n: QuadTreeNode<I>,
)
    requires
        node_replaced(a, p, b, n),
    ensures
        at_path(ChildNode::Present(Box::new(b)), p) == Some(ChildNode::Present(Box::new(n))),
    decreases p.len(),
{
    if p.len() > 0 {
        let x = a.children@[p[0]]->Present_0;
        let y = b.children@[p[0]]->Present_0;
        lemma_node_replaced_end(*x, p.drop_first(), *y, n);
    }
}

/// Replacing a node by itself changes nothing.
proof fn lemma_node_replaced_same<I>(
    a: QuadTreeNode<I>,
    p: Seq<int>,
    b: QuadTreeNode<I>,
    m: QuadTreeNode<I>,
)
    requires
        node_replaced(a, p, b, m),
        at_path(ChildNode::Present(Box::new(a)), p) == Some(ChildNode::Present(Box::new(m))),
    ensures
        a == b,
    decreases p.len(),
{
    if p.len() > 0 {
        let x = a.children@[p[0]]->Present_0;
        let y = b.children@[p[0]]->Present_0;
        lemma_node_replaced_same(*x, p.drop_first(), *y, m);
        assert(a.children =~= b.children) by {
            assert forall|q: int| 0 <= q < 4 implies a.children@[q] == b.children@[q] by {}
        }
    }
}

/// Writing into one quarter of a node in the tree sets that slot.
proof fn lemma_write<I>(
    a: QuadTreeNode<I>,
    coord: TileCoord,
    b: QuadTreeNode<I>,
    m: QuadTreeNode<I>,
    n: QuadTreeNode<I>,
)
    requires
        coord.valid(),
        coord.level >= 1,
        node_replaced(a, coord.path().drop_last(), b, n),
        at_path(ChildNode::Present(Box::new(a)), coord.path().drop_last()) == Some(
            ChildNode::Present(Box::new(m)),
        ),
        n.item == m.item,
        forall|k: int|
            0 <= k < 4 && k != coord.path().last() ==> n.children@[k] == #[trigger] m.children@[k],
    ensures
        0 <= coord.path().last() < 4,
        slot_set(
            ChildNode::Present(Box::new(a)),
            coord.path(),
            ChildNode::Present(Box::new(b)),
            n.children@[coord.path().last()],
        ),
        at_path(ChildNode::Present(Box::new(a)), coord.path()) == Some(
            m.children@[coord.path().last()],
        ),
        at_path(ChildNode::Present(Box::new(b)), coord.path().drop_last()) == Some(
            ChildNode::Present(Box::new(n)),
        ),
{
    coord.lemma_path();
    let p = coord.path().drop_last();
    let q = coord.path().last();
    assert(p.push(q) =~= coord.path());
    let ra = ChildNode::Present(Box::new(a));
    let rb = ChildNode::Present(Box::new(b));
    assert forall|d: Seq<int>| #[trigger] slot_set_at(ra, coord.path(), rb, n.children@[q], d) by {
        lemma_node_replaced(a, p, b, m, n, q, d);
    }
    lemma_at_path_push(ra, p, q);
    lemma_node_replaced_end(a, p, b, n);
}

/// Without a node above it a tile has no slot.
proof fn lemma_no_slot<I>(root: ChildNode<I>, coord: TileCoord)
    requires
        coord.valid(),
        coord.level >= 1,
        !(at_path(root, coord.path().drop_last()) matches Some(ChildNode::Present(_))),
    ensures
        !slots(root).dom().contains(coord),
{
    coord.lemma_path();
    let p = coord.path().drop_last();
    let q = coord.path().last();
    assert(p.push(q) =~= coord.path());
    lemma_at_path_push(root, p, q);
}

/// The slots of a tree are tree-shaped.
pub proof fn lemma_tree_shaped<I>(root: ChildNode<I>)
    ensures
        tree_shaped(slots(root)),
{
    vstd::arithmetic::power2::lemma2_to64();
    assert(root_tile().path() =~= Seq::empty());
    assert forall|c: TileCoord| c.valid() && c.level >= 1 implies (#[trigger] slots(
        root,
    ).dom().contains(c) <==> slots(root).dom().contains(c.up()) && slots(root)[c.up()] is Present) by {
        c.lemma_parent();
        lemma_at_path_push(root, c.up().path(), c.slot_in_parent());
    }
}

/// Setting a slot to one without an image clears it.
proof fn lemma_slots_cleared<I>(a: ChildNode<I>, c: TileCoord, b: ChildNode<I>, new: ChildNode<I>)
    requires
        c.valid(),
        slots(a).dom().contains(c),
        slot_set(a, c.path(), b, new),
        !(new is Present),
    ensures
        slots(b) == cleared(slots(a), c, slot_of(new)),
        !(slots(a)[c] is Present) ==> slots(b) == slots(a).insert(c, slot_of(new)),
{
    lemma_tree_shaped(a);
    c.lemma_path();
    assert(c.path().is_prefix_of(c.path())) by {
        assert(c.path() =~= c.path().subrange(0, c.level as int));
    }
    assert forall|d: TileCoord| d.valid() implies (#[trigger] slots(b).dom().contains(d) <==> (d == c
        || slots(a).dom().contains(d) && !c.covers(d))) && (slots(b).dom().contains(d) ==> slots(b)[d]
        == (if d == c {
        slot_of(new)
    } else {
        slots(a)[d]
    })) by {
        d.lemma_path();
        assert(slot_set_at(a, c.path(), b, new, d.path()));
        if c.covers(d) {
            if d.level == c.level {
                assert(d.path() =~= c.path());
                d.lemma_path_injective(c);
            } else {
                assert(d.path().skip(c.level as int).len() > 0);
            }
        }
    }
    assert(slots(b) =~= cleared(slots(a), c, slot_of(new)));
    if !(slots(a)[c] is Present) {
        assert forall|d: TileCoord| #[trigger]
            slots(a).dom().contains(d) && c.covers(d) implies d == c by {
            if d != c {
                crate::model::lemma_above_present(slots(a), c, d);
            }
        }
        assert(slots(b) =~= slots(a).insert(c, slot_of(new)));
    }
}

/// Setting a slot to a node without parts plants it.
proof fn lemma_slots_planted<I>(
    a: ChildNode<I>,
    c: TileCoord,
    b: ChildNode<I>,
    n: QuadTreeNode<I>,
    blocks: Seq<bool>,
)
    requires
        c.valid(),
        c.level < 64,
        slots(a).dom().contains(c),
        !(slots(a)[c] is Present),
        slot_set(a, c.path(), b, ChildNode::Present(Box::new(n))),
        forall|q: int|
            0 <= q < 4 ==> #[trigger] n.children@[q] == (if blocks[q] {
                ChildNode::<I>::Blocked
            } else {
                ChildNode::Pending
            }),
    ensures
        slots(b) == planted(slots(a), c, n.item, blocks),
{
    let new = ChildNode::Present(Box::new(n));
    let after = planted(slots(a), c, n.item, blocks);
    lemma_tree_shaped(a);
    c.lemma_path();
    assert(c.path().is_prefix_of(c.path())) by {
        assert(c.path() =~= c.path().subrange(0, c.level as int));
    }
    assert(at_path(b, c.path()) == Some(new)) by {
        assert(slot_set_at(a, c.path(), b, new, c.path()));
        assert(c.path().skip(c.level as int).len() == 0);
    }
    lemma_quarter(b, c, n, 0);
    lemma_quarter(b, c, n, 1);
    lemma_quarter(b, c, n, 2);
    lemma_quarter(b, c, n, 3);
    c.lemma_child(0);
    c.lemma_child(1);
    c.lemma_child(2);
    c.lemma_child(3);
    assert(n.children@[0] == n.children@[0] && n.children@[1] == n.children@[1]);
    assert(n.children@[2] == n.children@[2] && n.children@[3] == n.children@[3]);
    assert forall|d: TileCoord| #[trigger] slots(b).dom().contains(d) == after.dom().contains(d) && (
    slots(b).dom().contains(d) ==> slots(b)[d] == after[d]) by {
        if d.valid() {
            d.lemma_path();
            assert(slot_set_at(a, c.path(), b, new, d.path()));
            if c.covers(d) {
                if d.level == c.level {
                    assert(d.path() =~= c.path());
                    d.lemma_path_injective(c);
                } else {
                    if slots(a).dom().contains(d) {
                        crate::model::lemma_above_present(slots(a), c, d);
                    }
                    lemma_branch(a, c, d);
                    let q = d.path()[c.level as int];
                    let k = c.child_at(q);
                    if d.level == c.level + 1 {
                        k.lemma_path();
                        assert(k.path() =~= d.path());
                        k.lemma_path_injective(d);
                    } else {
                        lemma_branch(b, c, d);
                        lemma_quarter(b, c, n, q);
                    }
                }
            }
        }
    }
    assert(slots(b) =~= after);
}

/// A drawn tile below another: nothing above it is fine enough, and the quarter that holds it
/// shows and has an image.
proof fn lemma_drawn_below<I>(root: ChildNode<I>, vp: Viewport, top: TileCoord, c: TileCoord)
    requires
        top.valid(),
        drawn(slots(root), vp, c),
        top.covers(c),
        top.level < c.level,
    ensures
        !fine_enough(vp, top.level as int),
        0 <= c.path()[top.level as int] < 4,
        top.child_at(c.path()[top.level as int]).in_view(vp),
        top.child_at(c.path()[top.level as int]).covers(c),
        at_path(root, top.child_at(c.path()[top.level as int]).path()) matches Some(
            ChildNode::Present(_),
        ),
{
    lemma_branch(root, top, c);
    let k = top.child_at(c.path()[top.level as int]);
    k.lemma_view_covers(c, vp);
    if c.level == top.level + 1 {
        k.lemma_path();
        c.lemma_path();
        assert(k.path() =~= c.path());
        k.lemma_path_injective(c);
    }
}

/// The tile itself is what there is before any of its quarters.
proof fn lemma_list_own<I>(root: ChildNode<I>, vp: Viewport, top: TileCoord, n: QuadTreeNode<I>)
    requires
        top.computable(),
        at_path(root, top.path()) == Some(ChildNode::Present(Box::new(n))),
    ensures
        drawn(slots(root), vp, top) ==> lists_drawn(
            seq![(top, n.item)],
            slots(root),
            vp,
            top,
            0,
        ),
        !drawn(slots(root), vp, top) ==> lists_drawn(
            Seq::<(TileCoord, Arc<I>)>::empty(),
            slots(root),
            vp,
            top,
            0,
        ),
{
    top.lemma_path();
    assert(top.path() =~= top.path().subrange(0, top.level as int));
    assert forall|c: TileCoord| #[trigger]
        drawn(slots(root), vp, c) && within(top, 0, c) implies c == top by {
        c.lemma_path();
        if c.level == top.level {
            assert(c.path() =~= top.path());
            c.lemma_path_injective(top);
        }
    }
    if drawn(slots(root), vp, top) {
        let l = seq![(top, n.item)];
        assert(l[0].0 == top);
    }
}

/// Below a tile that is fine enough nothing is drawn.
proof fn lemma_list_fine<I>(
    root: ChildNode<I>,
    vp: Viewport,
    top: TileCoord,
    list: Seq<(TileCoord, Arc<I>)>,
)
    requires
        top.valid(),
        fine_enough(vp, top.level as int),
        lists_drawn(list, slots(root), vp, top, 0),
    ensures
        lists_drawn(list, slots(root), vp, top, 4),
{
    assert forall|c: TileCoord| #[trigger]
        drawn(slots(root), vp, c) && within(top, 4, c) implies within(top, 0, c) by {
        top.lemma_path();
        c.lemma_path();
        if top.level < c.level {
            lemma_drawn_below(root, vp, top, c);
        }
    }
}

/// One more quarter: its drawn tiles come after those before it.
proof fn lemma_list_step<I>(
    root: ChildNode<I>,
    vp: Viewport,
    top: TileCoord,
    q: int,
    list: Seq<(TileCoord, Arc<I>)>,
    sub: Seq<(TileCoord, Arc<I>)>,
)
    requires
        top.computable(),
        top.level < MAX_DEPTH,
        0 <= q < 4,
        lists_drawn(list, slots(root), vp, top, q),
        if top.child_at(q).in_view(vp) && (at_path(root, top.child_at(q).path()) matches Some(
            ChildNode::Present(_),
        )) {
            lists_drawn(sub, slots(root), vp, top.child_at(q), 4)
        } else {
            sub.len() == 0
        },
    ensures
        lists_drawn(list + sub, slots(root), vp, top, q + 1),
{
    let all = list + sub;
    let k = top.child_at(q);
    top.lemma_path();
    top.lemma_child(q);
    k.lemma_path();
    assert forall|i: int| 0 <= i < all.len() implies {
        &&& drawn(slots(root), vp, (#[trigger] all[i]).0)
        &&& within(top, q + 1, all[i].0)
        &&& slots(root)[all[i].0] == Slot::Present(all[i].1)
    } by {
        if i < list.len() {
            assert(all[i] == list[i]);
        } else {
            assert(all[i] == sub[i - list.len()]);
            lemma_quarter_within(top, q, all[i].0);
        }
    }
    assert forall|c: TileCoord| #[trigger]
        drawn(slots(root), vp, c) && within(top, q + 1, c) implies exists|i: int|
        0 <= i < all.len() && (#[trigger] all[i]).0 == c by {
        c.lemma_path();
        if within(top, q, c) {
            let i = choose|i: int| 0 <= i < list.len() && (#[trigger] list[i]).0 == c;
            assert(all[i].0 == c);
        } else {
            lemma_drawn_below(root, vp, top, c);
            assert(within(k, 4, c));
            let i = choose|i: int| 0 <= i < sub.len() && (#[trigger] sub[i]).0 == c;
            assert(all[list.len() + i].0 == c);
        }
    }
    assert forall|i: int, j: int| 0 <= i < j < all.len() implies (#[trigger] all[i]).0.before(
        (#[trigger] all[j]).0,
    ) by {
        if j < list.len() {
            assert(all[i] == list[i] && all[j] == list[j]);
        } else if i >= list.len() {
            assert(all[i] == sub[i - list.len()] && all[j] == sub[j - list.len()]);
        } else {
            assert(all[i] == list[i] && all[j] == sub[j - list.len()]);
            let a = all[i].0;
            let b = all[j].0;
            a.lemma_path();
            b.lemma_path();
            lemma_quarter_within(top, q, b);
            lemma_lex_branch(top.path(), a.path(), b.path());
        }
    }
}

/// A wanted tile below another: the quarter that holds it shows, and is either the tile itself
/// or a node to search.
proof fn lemma_wanted_below<I>(root: ChildNode<I>, vp: Viewport, top: TileCoord, c: TileCoord)
    requires
        top.valid(),
        wanted_below(slots(root), vp, top, c),
    ensures
        0 <= c.path()[top.level as int] < 4,
        top.child_at(c.path()[top.level as int]).in_view(vp),
        c.level == top.level + 1 ==> c == top.child_at(c.path()[top.level as int]),
        c.level > top.level + 1 ==> {
            &&& refinable(vp, top.level as int)
            &&& at_path(root, top.child_at(c.path()[top.level as int]).path()) matches Some(
                ChildNode::Present(_),
            )
            &&& wanted_below(slots(root), vp, top.child_at(c.path()[top.level as int]), c)
        },
{
    lemma_branch(root, top, c);
    let k = top.child_at(c.path()[top.level as int]);
    k.lemma_view_covers(c, vp);
    if c.level == top.level + 1 {
        k.lemma_path();
        c.lemma_path();
        assert(k.path() =~= c.path());
        k.lemma_path_injective(c);
    }
}

/// Of two parts of a tile at one level, the one in the earlier quarter comes first.
proof fn lemma_sooner_branch(top: TileCoord, a: TileCoord, b: TileCoord)
    requires
        top.valid(),
        a.valid(),
        b.valid(),
        top.covers(a),
        top.covers(b),
        top.level < a.level <= b.level,
        a.path()[top.level as int] < b.path()[top.level as int],
    ensures
        sooner(a, b),
{
    top.lemma_path();
    a.lemma_path();
    b.lemma_path();
    lemma_lex_branch(top.path(), a.path(), b.path());
}

broadcast proof fn lemma_update_same<T, const N: usize>(a: [T; N], i: int, t: T)
    requires
        0 <= i < N,
        t == a@[i],
    ensures
        #[trigger] vstd::array::spec_array_update(a, i, t) == a,
{
    broadcast use vstd::array::group_array_axioms;
    assert(vstd::array::spec_array_update(a, i, t) =~= a);
}

impl<I> ChildNode<I> {
    /// A slot without an image.
    fn uncomputed(blocked: bool) -> (r: Self)
        ensures
            r == (if blocked {
                ChildNode::<I>::Blocked
            } else {
                ChildNode::Pending
            }),
    {
        if blocked {
            ChildNode::Blocked
        } else {
            ChildNode::Pending
        }
    }

    /// The node, if there is one.
    pub fn as_ref(&self) -> (r: Option<&QuadTreeNode<I>>)
        ensures
            match *self {
                ChildNode::Present(node) => r == Some(&*node),
                _ => r is None,
            },
    {
        match self {
            ChildNode::Present(node) => Some(node),
            _ => None,
        }
    }

    /// Puts a computed tile into its slot, if the slot is waiting for it.
    pub(crate) fn store(&mut self, coord: TileCoord, item: Arc<I>, blocks: [bool; 4]) -> (r: bool)
        requires
            coord.valid(),
            coord.level < 64,
        ensures
            r == (slots(*old(self)).dom().contains(coord) && slots(*old(self))[coord] is Computing),
            slots(*final(self)) == (if r {
                planted(slots(*old(self)), coord, item, blocks@)
            } else {
                slots(*old(self))
            }),
    {
        proof {
            coord.lemma_path();
        }
        let ghost before = *self;
        if coord.level == 0 {
            match self {
                ChildNode::Computing => {
                    let node = QuadTreeNode::new(item, blocks);
                    let ghost new = ChildNode::Present(Box::new(node));
                    *self = ChildNode::Present(Box::new(node));
                    proof {
                        assert(coord.path() =~= Seq::empty());
                        assert forall|d: Seq<int>| #[trigger]
                            slot_set_at(before, coord.path(), *self, new, d) by {
                            assert(d.subrange(0, 0) =~= Seq::empty());
                            assert(d.skip(0) =~= d);
                        }
                        lemma_slots_planted(before, coord, *self, node, blocks@);
                    }
                    true
                },
                _ => false,
            }
        } else {
            match self {
                ChildNode::Present(root) => {
                    let ghost a = **root;
                    let ghost mut m: QuadTreeNode<I> = a;
                    let ghost mut n: QuadTreeNode<I> = a;
                    let ghost mut planted_node: QuadTreeNode<I> = a;
                    let mut stored = false;
                    match root.get_slot(coord) {
                        Some((quadrant, node)) => {
                            proof {
                                m = *node;
                            }
                            if let ChildNode::Computing = node.children[quadrant] {
                                let fresh = QuadTreeNode::new(item, blocks);
                                proof {
                                    planted_node = fresh;
                                }
                                node.children[quadrant] = ChildNode::Present(Box::new(fresh));
                                stored = true;
                            }
                            proof {
                                n = *node;
                            }
                        },
                        None => {
                            proof {
                                lemma_no_slot(before, coord);
                            }
                            return false;
                        },
                    }
                    proof {
                        lemma_write(a, coord, **root, m, n);
                        if stored {
                            lemma_slots_planted(before, coord, *self, planted_node, blocks@);
                        } else {
                            lemma_node_replaced_same(a, coord.path().drop_last(), **root, m);
                        }
                    }
                    stored
                },
                _ => {
                    proof {
                        lemma_no_slot(before, coord);
                    }
                    false
                },
            }
        }
    }

    /// Marks a pending tile as being computed.
    pub(crate) fn claim(&mut self, coord: TileCoord)
        requires
            coord.valid(),
            slots(*old(self)).dom().contains(coord),
            slots(*old(self))[coord] is Pending,
        ensures
            slots(*final(self)) == slots(*old(self)).insert(coord, Slot::Computing),
    {
        proof {
            coord.lemma_path();
        }
        let ghost before = *self;
        if coord.level == 0 {
            *self = ChildNode::Computing;
            proof {
                assert(coord.path() =~= Seq::empty());
                assert forall|d: Seq<int>| #[trigger]
                    slot_set_at(before, coord.path(), *self, *self, d) by {
                    assert(d.subrange(0, 0) =~= Seq::empty());
                    assert(d.skip(0) =~= d);
                }
                lemma_slots_cleared(before, coord, *self, *self);
            }
        } else {
            match self {
                ChildNode::Present(root) => {
                    let ghost a = **root;
                    let ghost mut m: QuadTreeNode<I> = a;
                    let ghost mut n: QuadTreeNode<I> = a;
                    match root.get_slot(coord) {
                        Some((quadrant, node)) => {
                            proof {
                                m = *node;
                            }
                            node.children[quadrant] = ChildNode::Computing;
                            proof {
                                n = *node;
                            }
                        },
                        None => {
                            proof {
                                lemma_no_slot(before, coord);
                            }
                        },
                    }
                    proof {
                        lemma_write(a, coord, **root, m, n);
                        lemma_slots_cleared(before, coord, *self, ChildNode::Computing);
                    }
                },
                _ => {
                    proof {
                        lemma_no_slot(before, coord);
                    }
                },
            }
        }
    }

    /// Takes the image of a tile below the root out of the tree. Also tells whether the parent is
    /// left with neither parts nor parts on their way.
    pub(crate) fn take(&mut self, coord: TileCoord) -> (r: Option<(Arc<I>, bool)>)
        requires
            coord.valid(),
            coord.level >= 1,
            slots(*old(self)).dom().contains(coord),
            slots(*old(self))[coord] is Present,
        ensures
            slots(*final(self)) == cleared(slots(*old(self)), coord, Slot::Pending),
            r matches Some((item, emptied)) && slots(*old(self))[coord] == Slot::Present(item)
                && emptied == all_parts_idle(slots(*final(self)), coord.up()),
    {
        proof {
            coord.lemma_path();
            coord.lemma_parent();
        }
        let ghost before = *self;
        match self {
            ChildNode::Present(root) => {
                let ghost a = **root;
                match root.get_slot(coord) {
                    Some((quadrant, node)) => {
                        let ghost m = *node;
                        let mut taken = ChildNode::Pending;
                        std::mem::swap(&mut node.children[quadrant], &mut taken);
                        let ghost n = *node;
                        let mut emptied = true;
                        let mut q: usize = 0;
                        while q < 4
                            invariant
                                q <= 4,
                                *node == n,
                                emptied == forall|k: int| 0 <= k < q ==> idle(slot_of(#[trigger] n.children@[k])),
                            decreases 4 - q,
                        {
                            match node.children[q] {
                                ChildNode::Pending => {},
                                ChildNode::Blocked => {},
                                _ => {
                                    emptied = false;
                                },
                            }
                            q = q + 1;
                        }
                        proof {
                            lemma_write(a, coord, **root, m, n);
                            lemma_slots_cleared(before, coord, *self, ChildNode::Pending);
                            assert(coord.path().drop_last() =~= coord.up().path());
                            assert forall|k: int| 0 <= k < 4 implies #[trigger] slots(
                                *self,
                            )[coord.up().child_at(k)] == slot_of(n.children@[k]) by {
                                lemma_quarter(*self, coord.up(), n, k);
                            }
                            if emptied {
                                assert forall|k: int| 0 <= k < 4 implies idle(
                                    slots(*self)[#[trigger] coord.up().child_at(k)],
                                ) by {
                                    assert(idle(slot_of(n.children@[k])));
                                }
                            } else {
                                let k = choose|k: int|
                                    0 <= k < 4 && !idle(slot_of(#[trigger] n.children@[k]));
                                assert(!idle(slots(*self)[coord.up().child_at(k)]));
                            }
                        }
                        match taken {
                            ChildNode::Present(child) => Some((child.item, emptied)),
                            _ => None,
                        }
                    },
                    None => {
                        proof {
                            lemma_no_slot(before, coord);
                        }
                        None
                    },
                }
            },
            _ => {
                proof {
                    lemma_no_slot(before, coord);
                }
                None
            },
        }
    }
}

impl<I> QuadTreeNode<I> {
    /// A node with an image, and quarters that are blocked where `blocks` says so.
    pub fn new(item: Arc<I>, blocks: [bool; 4]) -> (r: Self)
        ensures
            r.item == item,
            forall|q: int|
                0 <= q < 4 ==> #[trigger] r.children@[q] == (if blocks@[q] {
                    ChildNode::<I>::Blocked
                } else {
                    ChildNode::Pending
                }),
    {
        QuadTreeNode {
            item,
            children: [
                ChildNode::uncomputed(blocks[0]),
                ChildNode::uncomputed(blocks[1]),
                ChildNode::uncomputed(blocks[2]),
                ChildNode::uncomputed(blocks[3]),
            ],
        }
    }

    /// The image of the part of this tile at the coordinate, which is relative to this tile.
    pub fn get(&self, coord: TileCoord) -> (r: Option<&Arc<I>>)
        requires
            coord.valid(),
        ensures
            match at_path(ChildNode::Present(Box::new(*self)), coord.path()) {
                Some(ChildNode::Present(n)) => r == Some(&n.item),
                _ => r is None,
            },
        decreases coord.level,
    {
        if coord.level == 0 {
            Some(&self.item)
        } else {
            proof {
                coord.lemma_rest_valid();
                assert(coord.path().drop_first() =~= coord.rest().path());
                assert(coord.path()[0] == coord.quadrant());
            }
            let (quadrant, child_coord) = coord.child();
            match self.children[quadrant].as_ref() {
                Some(node) => node.get(child_coord),
                None => {
                    reveal_with_fuel(at_path, 2);
                    None
                },
            }
        }
    }

    /// The node that holds the tile's slot, and which of its four slots that is.
    pub fn get_slot(&mut self, coord: TileCoord) -> (r: Option<(usize, &mut QuadTreeNode<I>)>)
        requires
            coord.valid(),
            coord.level >= 1,
        ensures
            match r {
                None => {
                    &&& *final(self) == *old(self)
                    &&& !(at_path(
                        ChildNode::Present(Box::new(*old(self))),
                        coord.path().drop_last(),
                    ) matches Some(ChildNode::Present(_)))
                },
                Some((q, node)) => {
                    &&& q == coord.path().last()
                    &&& q < 4
                    &&& at_path(
                        ChildNode::Present(Box::new(*old(self))),
                        coord.path().drop_last(),
                    ) == Some(ChildNode::Present(Box::new(*node)))
                    &&& node_replaced(*old(self), coord.path().drop_last(), *final(self), *final(node))
                },
            },
        decreases coord.level,
    {
        broadcast use lemma_update_same;

        proof {
            coord.lemma_path();
            coord.lemma_rest_valid();
            coord.rest().lemma_path();
        }
        if coord.level > 1 {
            let (quadrant, child_coord) = coord.child();
            assert(coord.path().drop_last().drop_first() =~= child_coord.path().drop_last());
            match &mut self.children[quadrant] {
                ChildNode::Present(child) => child.get_slot(child_coord),
                _ => None,
            }
        } else {
            proof {
                vstd::arithmetic::power2::lemma2_to64();
                let one = coord.half();
                let x = coord.x as int;
                let y = coord.y as int;
                assert(x / one == x && y / one == y) by (nonlinear_arith)
                    requires
                        one == 1,
                ;
                assert(coord.path().last() == coord.quadrant());
                assert(coord.path().drop_last() =~= Seq::empty());
            }
            Some(((coord.y * 2 + coord.x) as usize, self))
        }
    }

    /// Does some quarter of the tile show in the window without an image?
    fn any_gap(&self, coord: TileCoord, vp: &Viewport, Ghost(root): Ghost<ChildNode<I>>) -> (r: bool)
        requires
            coord.computable(),
            at_path(root, coord.path()) == Some(ChildNode::Present(Box::new(*self))),
        ensures
            r == has_gap(slots(root), *vp, coord),
    {
        proof {
            coord.lemma_child(0);
        }
        let kids = coord.children();
        let mut q: usize = 0;
        while q < 4
            invariant
                q <= 4,
                coord.computable(),
                at_path(root, coord.path()) == Some(ChildNode::Present(Box::new(*self))),
                forall|k: int| 0 <= k < 4 ==> #[trigger] kids@[k] == coord.child_at(k),
                forall|k: int|
                    0 <= k < q ==> !(#[trigger] coord.child_at(k).in_view(*vp)) || slots(
                        root,
                    )[coord.child_at(k)] is Present,
            decreases 4 - q,
        {
            proof {
                lemma_quarter(root, coord, *self, q as int);
            }
            if kids[q].overlaps(vp) {
                match &self.children[q] {
                    ChildNode::Present(_) => {},
                    _ => {
                        assert(coord.child_at(q as int).in_view(*vp));
                        return true;
                    },
                }
            }
            q = q + 1;
        }
        false
    }

    /// Appends the tile and its parts that are drawn.
    pub(crate) fn collect_visible(
        &self,
        coord: TileCoord,
        vp: &Viewport,
        result: &mut Vec<(TileCoord, Arc<I>)>,
        Ghost(root): Ghost<ChildNode<I>>,
    )
        requires
            coord.computable(),
            at_path(root, coord.path()) == Some(ChildNode::Present(Box::new(*self))),
            coord.in_view(*vp),
            coord.level == 0 || !fine_enough(*vp, coord.level - 1),
        ensures
            final(result)@.len() >= old(result)@.len(),
            final(result)@.take(old(result)@.len() as int) == old(result)@,
            lists_drawn(
                final(result)@.skip(old(result)@.len() as int),
                slots(root),
                *vp,
                coord,
                4,
            ),
        decreases MAX_DEPTH - coord.level,
    {
        let ghost start = result@;
        let ghost n = start.len() as int;
        let target_depth = coord.level >= vp.target_level || coord.level >= MAX_DEPTH;
        let own = target_depth || self.any_gap(coord, vp, Ghost(root));
        if own {
            result.push((coord, self.item.clone()));
        }
        proof {
            lemma_list_own(root, *vp, coord, *self);
            assert(drawn(slots(root), *vp, coord) == own);
            if own {
                assert(result@.skip(n) =~= seq![(coord, self.item)]);
            } else {
                assert(result@.skip(n) =~= Seq::empty());
            }
            assert(result@.take(n) =~= start);
        }
        if target_depth {
            proof {
                lemma_list_fine(root, *vp, coord, result@.skip(n));
            }
            return;
        }
        proof {
            coord.lemma_child(0);
        }
        let kids = coord.children();
        let mut q: usize = 0;
        while q < 4
            invariant
                q <= 4,
                n == start.len(),
                coord.computable(),
                coord.level < MAX_DEPTH,
                !fine_enough(*vp, coord.level as int),
                at_path(root, coord.path()) == Some(ChildNode::Present(Box::new(*self))),
                forall|k: int| 0 <= k < 4 ==> #[trigger] kids@[k] == coord.child_at(k),
                result@.len() >= n,
                result@.take(n) == start,
                lists_drawn(result@.skip(n), slots(root), *vp, coord, q as int),
            decreases 4 - q,
        {
            proof {
                lemma_quarter(root, coord, *self, q as int);
            }
            let ghost before = result@;
            if kids[q].overlaps(vp) {
                if let ChildNode::Present(child) = &self.children[q] {
                    child.collect_visible(kids[q], vp, result, Ghost(root));
                    proof {
                        let sub = result@.skip(before.len() as int);
                        lemma_list_step(root, *vp, coord, q as int, before.skip(n), sub);
                        assert(result@.take(before.len() as int) =~= before);
                        assert(before.skip(n) + sub =~= result@.skip(n)) by {
                            assert(forall|i: int|
                                0 <= i < before.len() ==> result@[i] == #[trigger] result@.take(
                                    before.len() as int,
                                )[i]);
                        }
                        assert(result@.take(n) =~= start) by {
                            assert(forall|i: int|
                                0 <= i < before.len() ==> result@[i] == #[trigger] result@.take(
                                    before.len() as int,
                                )[i]);
                            assert(forall|i: int|
                                0 <= i < n ==> before[i] == #[trigger] before.take(n)[i]);
                        }
                    }
                } else {
                    proof {
                        lemma_list_step(root, *vp, coord, q as int, before.skip(n), Seq::empty());
                        assert(before.skip(n) + Seq::empty() =~= result@.skip(n));
                    }
                }
            } else {
                proof {
                    lemma_list_step(root, *vp, coord, q as int, before.skip(n), Seq::empty());
                    assert(before.skip(n) + Seq::empty() =~= result@.skip(n));
                }
            }
            q = q + 1;
        }
    }

    /// Is some part of the tile being computed?
    pub(crate) fn any_computing(&self, coord: TileCoord, Ghost(root): Ghost<ChildNode<I>>) -> (r: bool)
        requires
            coord.computable(),
            at_path(root, coord.path()) == Some(ChildNode::Present(Box::new(*self))),
            forall|c: TileCoord| #[trigger]
                slots(root).dom().contains(c) && !idle(slots(root)[c]) ==> c.computable(),
        ensures
            r == exists|c: TileCoord| #[trigger]
                slots(root).dom().contains(c) && slots(root)[c] is Computing && coord.covers(c)
                    && c.level > coord.level,
        decreases MAX_DEPTH - coord.level,
    {
        proof {
            coord.lemma_child(0);
        }
        let kids = coord.children();
        proof {
            assert forall|c: TileCoord| #[trigger]
                slots(root).dom().contains(c) && slots(root)[c] is Computing && coord.covers(c)
                    && c.level > coord.level implies c.path()[coord.level as int] >= 0 by {
                c.lemma_path();
            }
        }
        let mut q: usize = 0;
        while q < 4
            invariant
                q <= 4,
                coord.computable(),
                at_path(root, coord.path()) == Some(ChildNode::Present(Box::new(*self))),
                forall|c: TileCoord| #[trigger]
                    slots(root).dom().contains(c) && !idle(slots(root)[c]) ==> c.computable(),
                forall|k: int| 0 <= k < 4 ==> #[trigger] kids@[k] == coord.child_at(k),
                forall|c: TileCoord| #[trigger]
                    slots(root).dom().contains(c) && slots(root)[c] is Computing && coord.covers(c)
                        && c.level > coord.level ==> c.path()[coord.level as int] >= q,
            decreases 4 - q,
        {
            let ghost k = coord.child_at(q as int);
            proof {
                lemma_quarter(root, coord, *self, q as int);
                assert(k.path() =~= k.path().subrange(0, k.path().len() as int));
                assert forall|c: TileCoord| #[trigger]
                    slots(root).dom().contains(c) && slots(root)[c] is Computing && coord.covers(c)
                        && c.level > coord.level && c.path()[coord.level as int] == q implies k.covers(c)
                    && (c == k || c.level > k.level && self.children@[q as int] is Present) by {
                    lemma_branch(root, coord, c);
                    if c.level == k.level {
                        k.lemma_path();
                        c.lemma_path();
                        assert(k.path() =~= c.path());
                        k.lemma_path_injective(c);
                    }
                }
                assert forall|c: TileCoord| c.valid() && #[trigger] k.covers(c) implies coord.covers(c)
                    && c.level > coord.level by {
                    lemma_quarter_within(coord, q as int, c);
                }
            }
            match &self.children[q] {
                ChildNode::Computing => {
                    assert(slots(root).dom().contains(k) && k.covers(k));
                    return true;
                },
                ChildNode::Present(child) => {
                    assert(slots(root).dom().contains(k));
                    if child.any_computing(kids[q], Ghost(root)) {
                        return true;
                    }
                },
                _ => {},
            }
            q = q + 1;
        }
        proof {
            assert forall|c: TileCoord| #[trigger]
                slots(root).dom().contains(c) && slots(root)[c] is Computing && coord.covers(c)
                    && c.level > coord.level implies false by {
                lemma_branch(root, coord, c);
            }
        }
        false
    }

    /// The part of the tile to compute next: the coarsest pending one that shows.
    pub(crate) fn next_tile(
        &self,
        coord: TileCoord,
        vp: &Viewport,
        Ghost(root): Ghost<ChildNode<I>>,
    ) -> (r: Option<TileCoord>)
        requires
            coord.computable(),
            coord.level < MAX_DEPTH,
            at_path(root, coord.path()) == Some(ChildNode::Present(Box::new(*self))),
        ensures
            match r {
                Some(d) => {
                    &&& wanted_below(slots(root), *vp, coord, d)
                    &&& forall|c: TileCoord| #[trigger]
                        wanted_below(slots(root), *vp, coord, c) ==> c == d || sooner(d, c)
                },
                None => forall|c: TileCoord| !#[trigger] wanted_below(slots(root), *vp, coord, c),
            },
        decreases MAX_DEPTH - coord.level,
    {
        proof {
            coord.lemma_child(0);
            coord.lemma_path();
        }
        let kids = coord.children();
        proof {
            assert forall|c: TileCoord| #[trigger]
                wanted_below(slots(root), *vp, coord, c) implies !within(coord, 0, c) by {
                c.lemma_path();
            }
        }
        let mut result: Option<TileCoord> = None;
        let refine = coord.level < MAX_DEPTH - 1 && coord.level < vp.target_level;
        let mut go_deeper = refine;
        let mut q: usize = 0;
        while q < 4
            invariant
                q <= 4,
                coord.computable(),
                coord.level < MAX_DEPTH,
                at_path(root, coord.path()) == Some(ChildNode::Present(Box::new(*self))),
                forall|k: int| 0 <= k < 4 ==> #[trigger] kids@[k] == coord.child_at(k),
                refine == refinable(*vp, coord.level as int),
                go_deeper ==> refine,
                refine && !go_deeper ==> (result matches Some(d) && d.level == coord.level + 2),
                forall|c: TileCoord| #[trigger]
                    wanted_below(slots(root), *vp, coord, c) && within(coord, q as int, c)
                        ==> c.level > coord.level + 1,
                match result {
                    Some(d) => {
                        &&& wanted_below(slots(root), *vp, coord, d)
                        &&& within(coord, q as int, d)
                        &&& d.level > coord.level + 1
                        &&& forall|c: TileCoord| #[trigger]
                            wanted_below(slots(root), *vp, coord, c) && within(coord, q as int, c)
                                ==> c == d || sooner(d, c)
                    },
                    None => forall|c: TileCoord|
                        #[trigger] wanted_below(slots(root), *vp, coord, c) ==> !within(
                            coord,
                            q as int,
                            c,
                        ),
                },
            decreases 4 - q,
        {
            let ghost k = coord.child_at(q as int);
            let ghost prev = result;
            proof {
                lemma_quarter(root, coord, *self, q as int);
                coord.lemma_child(q as int);
                coord.lemma_path();
                k.lemma_path();
                assert forall|c: TileCoord| #[trigger]
                    wanted_below(slots(root), *vp, coord, c) && within(coord, q + 1, c)
                        && !within(coord, q as int, c) implies {
                    &&& c.path()[coord.level as int] == q
                    &&& k.in_view(*vp)
                    &&& c.level == coord.level + 1 ==> c == k
                    &&& c.level > coord.level + 1 ==> refine && self.children@[q as int] is Present
                        && wanted_below(slots(root), *vp, k, c)
                } by {
                    c.lemma_path();
                    lemma_wanted_below(root, *vp, coord, c);
                }
            }
            if kids[q].overlaps(vp) {
                match &self.children[q] {
                    ChildNode::Pending => {
                        proof {
                            assert(k.path()[coord.level as int] == q);
                            assert(coord.path() =~= k.path().subrange(0, coord.level as int));
                            assert(wanted_below(slots(root), *vp, coord, k));
                            assert forall|c: TileCoord| #[trigger]
                                wanted_below(slots(root), *vp, coord, c) implies c == k || sooner(
                                k,
                                c,
                            ) by {
                                c.lemma_path();
                                lemma_wanted_below(root, *vp, coord, c);
                                if c.level == coord.level + 1 {
                                    if c.path()[coord.level as int] < q {
                                        assert(within(coord, q as int, c));
                                    } else if c.path()[coord.level as int] > q {
                                        lemma_sooner_branch(coord, k, c);
                                    }
                                }
                            }
                        }
                        return Some(kids[q]);
                    },
                    ChildNode::Present(child) => {
                        if go_deeper {
                            let found = child.next_tile(kids[q], vp, Ghost(root));
                            if let Some(deeper) = found {
                                proof {
                                    deeper.lemma_path();
                                    lemma_quarter_within(coord, q as int, deeper);
                                    assert(wanted_below(slots(root), *vp, coord, deeper));
                                }
                                if deeper.level <= coord.level + 2 {
                                    go_deeper = false;
                                }
                                result = match result {
                                    None => Some(deeper),
                                    Some(best) => if deeper.level < best.level {
                                        Some(deeper)
                                    } else {
                                        Some(best)
                                    },
                                };
                            }
                        }
                    },
                    _ => {},
                }
            }
            proof {
                assert forall|c: TileCoord| #[trigger]
                    wanted_below(slots(root), *vp, coord, c) && within(
                    coord,
                    q + 1,
                    c,
                ) implies c.level > coord.level + 1 && (result matches Some(d) && (c == d || sooner(
                    d,
                    c,
                ))) by {
                    c.lemma_path();
                    if within(coord, q as int, c) {
                        let p = prev->0;
                        p.lemma_path();
                    } else {
                        if prev is Some {
                            let p = prev->0;
                            p.lemma_path();
                            if p.level <= c.level {
                                lemma_sooner_branch(coord, p, c);
                            }
                        }
                    }
                }
            }
            q = q + 1;
        }
        proof {
            assert forall|c: TileCoord| #[trigger] wanted_below(slots(root), *vp, coord, c) implies within(
                coord,
                4,
                c,
            ) by {
                lemma_wanted_below(root, *vp, coord, c);
            }
        }
        result
    }
}

} // verus!
