//! The tree of tiles.

use crate::coord::{TileCoord, Viewport, MAX_DEPTH};
use crate::leaves::{eviction_order, lemma_eviction_order, lemma_first_outside, listed, Leaves};
use crate::locks::Locks;
use crate::model::{
    awaited, claimed, drawn, given_up, incomplete, inserted, is_next, lemma_above_present,
    lemma_claimed_wf, lemma_inserted_wf, lemma_taken_wf, lists_drawn, root_tile, shown, sooner, taken,
    victim, wanted, wanted_below, within, Slot, TreeModel,
};
use crate::memory::HeapBudget;
use crate::node::{at_path, lemma_tree_shaped, slots, ChildNode};
use crate::pool::{PoolModel, TilePool, TileSource};
use std::sync::Arc;
use vstd::prelude::*;

verus! {

/// Levels whose tiles may be given up: all computed ones but the root.
const LEAVES_LEVELS: usize = 46;

/// Where the image of a tile about to be computed is to go.
pub enum TileGrant<I> {
    /// To this offset in the memory of the pool's arena.
    Slot(u64),
    /// Into the first slot of a new arena, which has to be allocated.
    NewArena,
    /// In place of the image of a tile that was given up.
    Reuse(Arc<I>),
}

/// Where the next image goes, and what becomes of the tree for it: `n` is what `m` is after that.
pub open spec fn granted<I>(
    m: TreeModel<I>,
    p: PoolModel,
    budget: HeapBudget,
    heap_index: int,
    r: TileGrant<I>,
    n: TreeModel<I>,
) -> bool {
    match p.source() {
        TileSource::Slot(offset) => r == TileGrant::<I>::Slot(offset) && n == m,
        TileSource::NewArena => r is NewArena && n == m,
        TileSource::Nothing => if budget.has_room(heap_index) {
            r is NewArena && n == m
        } else {
            match r {
                TileGrant::Slot(_) => false,
                TileGrant::NewArena => given_up(m, None, n),
                TileGrant::Reuse(item) => given_up(m, Some(item), n),
            }
        },
    }
}

/// A tree of tiles with images of type `I`.
pub struct QuadTree<I> {
    root: ChildNode<I>,
    leaves: Leaves,
    locked: Locks,
}

impl<I> View for QuadTree<I> {
    type V = TreeModel<I>;

    closed spec fn view(&self) -> TreeModel<I> {
        TreeModel { slots: slots(self.root), leaves: self.leaves@, locked: self.locked@ }
    }
}

impl<I> QuadTree<I> {
    /// A tree that knows of the root tile only, which is pending.
    pub fn new() -> (r: Self)
        ensures
            r@.wf(),
            r@.slots == Map::<TileCoord, Slot<I>>::empty().insert(root_tile(), Slot::Pending),
            forall|c: TileCoord| !listed(r@.leaves, c),
            r@.locked == Set::<TileCoord>::empty(),
    {
        let r = QuadTree {
            root: ChildNode::Pending,
            leaves: Leaves::new(LEAVES_LEVELS),
            locked: Locks::new(),
        };
        proof {
            lemma_tree_shaped(r.root);
            assert forall|c: TileCoord| r@.slots.dom().contains(c) <==> c == root_tile() by {
                if c.valid() {
                    c.lemma_path();
                    root_tile().lemma_path();
                    if c.level == 0 {
                        c.lemma_path_injective(root_tile());
                    }
                }
            }
            assert(r@.slots =~= Map::<TileCoord, Slot<I>>::empty().insert(root_tile(), Slot::Pending));
            assert forall|c: TileCoord| !listed(r@.leaves, c) by {
                if 1 <= c.level <= r@.leaves.len() {
                    assert(r@.leaves[c.level - 1].emptied =~= Seq::empty());
                }
            }
        }
        r
    }

    /// Puts a computed tile into the tree, if the tree is waiting for it, and tells whether it
    /// was. `blocks` says which quarters of the tile are not worth computing.
    pub fn insert(&mut self, coord: TileCoord, tile: Arc<I>, blocks: [bool; 4]) -> (r: bool)
        requires
            old(self)@.wf(),
            coord.valid(),
        ensures
            final(self)@.wf(),
            r == (old(self)@.slots.dom().contains(coord) && old(self)@.slots[coord] is Computing),
            r == awaited(old(self)@, coord),
            final(self)@ == (if r {
                inserted(old(self)@, coord, tile, blocks@)
            } else {
                old(self)@
            }),
    {
        if coord.level > MAX_DEPTH {
            return false;
        }
        let ghost before = self@;
        let stored = self.root.store(coord, tile, blocks);
        if stored {
            proof {
                lemma_tree_shaped(self.root);
                lemma_inserted_wf(before, coord, tile, blocks@);
            }
            if coord.level > 0 {
                self.leaves.add_computed(coord);
                self.locked.insert(coord);
                if let Some(parent) = coord.parent() {
                    if parent.level > 0 {
                        self.leaves.remove(parent);
                    }
                }
            }
            assert(self@ =~= inserted(before, coord, tile, blocks@));
        } else {
            assert(self@ =~= before);
        }
        stored
    }

    /// The tile to give up next.
    fn find_leave(&self) -> (r: Option<TileCoord>)
        requires
            self@.wf(),
        ensures
            r == victim(self@),
            r matches Some(c) ==> listed(self@.leaves, c),
    {
        let r = self.leaves.first_unlocked(&self.locked);
        proof {
            let order = eviction_order(self@.leaves, self@.leaves.len());
            lemma_first_outside(order, self@.locked);
            if r is Some {
                lemma_eviction_order(self@.leaves, self@.leaves.len(), r->0);
            }
        }
        r
    }

    /// Gives up a tile and returns its image, if there is a tile that is not locked.
    pub fn take_image(&mut self) -> (r: Option<Arc<I>>)
        requires
            old(self)@.wf(),
        ensures
            final(self)@.wf(),
            match victim(old(self)@) {
                Some(c) => {
                    &&& r matches Some(item) && old(self)@.slots[c] == Slot::Present(item)
                    &&& final(self)@ == taken(old(self)@, c)
                },
                None => r is None && final(self)@ == old(self)@,
            },
            given_up(old(self)@, r, final(self)@),
    {
        let ghost before = self@;
        let coord = match self.find_leave() {
            Some(coord) => coord,
            None => {
                return None;
            },
        };
        match self.root.take(coord) {
            Some((item, emptied)) => {
                proof {
                    lemma_tree_shaped(self.root);
                    lemma_taken_wf(before, coord);
                }
                self.leaves.remove(coord);
                if emptied {
                    if let Some(parent) = coord.parent() {
                        if parent.level > 0 {
                            self.leaves.add_emptied(parent);
                        }
                    }
                }
                assert(self@ =~= taken(before, coord));
                Some(item)
            },
            None => None,
        }
    }

    /// Where the image of the next tile is to go: into memory that is there, else into new memory
    /// if there is plenty, else in place of a tile that can be given up, else into new memory all
    /// the same. `budget` and `heap_index` tell of the heap that the pool's arena is on.
    pub fn take_or_alloc(
        &mut self,
        pool: &mut TilePool,
        budget: &HeapBudget,
        heap_index: usize,
    ) -> (r: TileGrant<I>)
        requires
            old(self)@.wf(),
            old(pool)@.wf(),
            old(pool)@.exhausted() ==> budget.use_doubles(heap_index as int),
        ensures
            final(self)@.wf(),
            final(pool)@.wf(),
            final(pool)@ == old(pool)@.advanced(),
            match old(pool)@.source() {
                TileSource::Slot(offset) => {
                    &&& r == TileGrant::<I>::Slot(offset)
                    &&& final(self)@ == old(self)@
                },
                TileSource::NewArena => r is NewArena && final(self)@ == old(self)@,
                TileSource::Nothing => if budget.has_room(heap_index as int) {
                    r is NewArena && final(self)@ == old(self)@
                } else {
                    match victim(old(self)@) {
                        Some(c) => {
                            &&& r matches TileGrant::Reuse(item) && old(self)@.slots[c]
                                == Slot::Present(item)
                            &&& final(self)@ == taken(old(self)@, c)
                        },
                        None => r is NewArena && final(self)@ == old(self)@,
                    }
                },
            },
            granted(old(self)@, old(pool)@, *budget, heap_index as int, r, final(self)@),
    {
        match pool.try_allocate_smart(budget, heap_index) {
            TileSource::Slot(offset) => TileGrant::Slot(offset),
            TileSource::NewArena => TileGrant::NewArena,
            TileSource::Nothing => match self.take_image() {
                Some(item) => TileGrant::Reuse(item),
                None => match pool.allocate() {
                    TileSource::Slot(offset) => TileGrant::Slot(offset),
                    _ => TileGrant::NewArena,
                },
            },
        }
    }

    /// Find visible tiles at the best available resolution for the given viewport, each with its
    /// image, in drawing order. Until the next call these are the tiles that are kept.
    pub fn get_visible_tiles(&mut self, vp: &Viewport) -> (r: Vec<(TileCoord, Arc<I>)>)
        requires
            old(self)@.wf(),
        ensures
            final(self)@.wf(),
            lists_drawn(r@, old(self)@.slots, *vp, root_tile(), 4),
            final(self)@.slots == old(self)@.slots,
            final(self)@.leaves == old(self)@.leaves,
            final(self)@.locked == Set::new(|c: TileCoord| drawn(old(self)@.slots, *vp, c)),
            final(self)@ == shown(old(self)@, *vp),
    {
        let mut result: Vec<(TileCoord, Arc<I>)> = Vec::new();
        let root_coord = TileCoord::root();
        let in_view = root_coord.overlaps(vp);
        proof {
            assert forall|c: TileCoord| drawn(self@.slots, *vp, c) implies self@.slots[root_tile()] is Present
                && in_view by {
                assert(root_tile().path() =~= c.path().subrange(0, 0));
                root_tile().lemma_view_covers(c, *vp);
                if c != root_tile() {
                    lemma_above_present(self@.slots, root_tile(), c);
                }
            }
        }
        if in_view {
            if let ChildNode::Present(root) = &self.root {
                root.collect_visible(root_coord, vp, &mut result, Ghost(self.root));
                assert(result@.skip(0) =~= result@);
            }
        }
        self.locked.clear();
        let mut i: usize = 0;
        while i < result.len()
            invariant
                i <= result@.len(),
                self.root == old(self).root,
                self.leaves == old(self).leaves,
                lists_drawn(result@, old(self)@.slots, *vp, root_tile(), 4),
                forall|c: TileCoord| #[trigger]
                    self.locked@.contains(c) <==> exists|j: int|
                        0 <= j < i && (#[trigger] result@[j]).0 == c,
            decreases result@.len() - i,
        {
            let ghost before = self.locked@;
            assert(drawn(old(self)@.slots, *vp, result@[i as int].0));
            self.locked.insert(result[i].0);
            proof {
                assert forall|c: TileCoord| #[trigger]
                    self.locked@.contains(c) <==> exists|j: int|
                    0 <= j < i + 1 && (#[trigger] result@[j]).0 == c by {
                    if self.locked@.contains(c) {
                        if before.contains(c) {
                            let j = choose|j: int| 0 <= j < i && (#[trigger] result@[j]).0 == c;
                            assert(result@[j].0 == c);
                        } else {
                            assert(result@[i as int].0 == c);
                        }
                    }
                }
            }
            i = i + 1;
        }
        proof {
            let set = Set::new(|c: TileCoord| drawn(old(self)@.slots, *vp, c));
            assert forall|c: TileCoord| #[trigger] self.locked@.contains(c) <==> set.contains(c) by {
                if drawn(old(self)@.slots, *vp, c) {
                    assert(root_tile().path() =~= c.path().subrange(0, 0));
                    c.lemma_path();
                    assert(within(root_tile(), 4, c));
                }
            }
            assert(self.locked@ =~= set);
            assert(self@ =~= shown(old(self)@, *vp));
        }
        result
    }

    /// The next tile that needs to be computed to improve resolution for the viewport.
    fn find_next(&self, vp: &Viewport) -> (r: Option<TileCoord>)
        requires
            self@.wf(),
        ensures
            is_next(self@.slots, *vp, r),
            r matches Some(d) ==> self@.slots.dom().contains(d) && d.computable(),
    {
        let root_coord = TileCoord::root();
        proof {
            assert(at_path(self.root, root_coord.path()) == Some(self.root));
            assert(self@.slots.dom().contains(root_coord));
            assert forall|c: TileCoord| #[trigger]
                wanted_below(
                    self@.slots,
                    vp.spec_coarsen(),
                    root_tile(),
                    c,
                ) implies self@.slots[root_tile()] is Present by {
                lemma_above_present(self@.slots, root_tile(), c);
            }
        }
        match &self.root {
            ChildNode::Pending => if root_coord.overlaps(vp) {
                Some(root_coord)
            } else {
                None
            },
            ChildNode::Present(root) => root.next_tile(root_coord, &vp.coarsen(), Ghost(self.root)),
            _ => None,
        }
    }

    /// Find the next tile that needs to be computed to improve resolution for the viewport, and
    /// marks it as being computed. Half the resolution of the viewport is enough.
    pub fn next_tile(&mut self, vp: Viewport) -> (r: Option<TileCoord>)
        requires
            old(self)@.wf(),
        ensures
            final(self)@.wf(),
            match r {
                Some(d) => {
                    &&& wanted(old(self)@.slots, vp.spec_coarsen(), d)
                    &&& forall|c: TileCoord| #[trigger]
                        wanted(old(self)@.slots, vp.spec_coarsen(), c) ==> c == d || sooner(d, c)
                    &&& final(self)@ == claimed(old(self)@, d)
                },
                None => {
                    &&& forall|c: TileCoord| !#[trigger]
                        wanted(old(self)@.slots, vp.spec_coarsen(), c)
                    &&& final(self)@ == old(self)@
                },
            },
            is_next(old(self)@.slots, vp, r),
    {
        let ghost before = self@;
        match self.find_next(&vp) {
            Some(coord) => {
                proof {
                    lemma_claimed_wf(before, coord);
                }
                self.root.claim(coord);
                assert(self@ =~= claimed(before, coord));
                Some(coord)
            },
            None => None,
        }
    }

    /// Are tiles still needed for the viewport: is there one to compute next, or one being computed?
    pub fn tiles_needed(&self, vp: &Viewport) -> (r: bool)
        requires
            self@.wf(),
        ensures
            r == incomplete(self@.slots, vp.spec_coarsen()),
    {
        if self.find_next(vp).is_some() {
            return true;
        }
        let root_coord = TileCoord::root();
        proof {
            assert(at_path(self.root, root_coord.path()) == Some(self.root));
            assert(self@.slots.dom().contains(root_coord));
            assert forall|c: TileCoord| #[trigger]
                self@.slots.dom().contains(c) && self@.slots[c] is Computing && c
                    != root_tile() implies self.root is Present && root_coord.covers(c) && c.level
                > root_coord.level by {
                assert(root_tile().path() =~= c.path().subrange(0, 0));
                lemma_above_present(self@.slots, root_tile(), c);
            }
        }
        match &self.root {
            ChildNode::Computing => true,
            ChildNode::Present(root) => root.any_computing(root_coord, Ghost(self.root)),
            _ => false,
        }
    }
}

} // verus!
