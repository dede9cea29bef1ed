//! The tiles that must not be given up.

use crate::coord::{TileCoord, MAX_DEPTH};
use std::collections::HashSet;
use vstd::arithmetic::power2::{lemma2_to64, lemma_pow2_strictly_increases, pow2};
use vstd::prelude::*;

verus! {

/// 2^46: columns and rows of computable tiles are below it.
const ROW_SPAN: u128 = 70368744177664;

/// 2^92.
const LEVEL_SPAN: u128 = 4951760157141521099596496896;

/// A number that tells a computable tile from all others.
spec fn lock_key(c: TileCoord) -> int {
    c.level * LEVEL_SPAN + c.x * ROW_SPAN + c.y
}

proof fn lemma_row_span(c: TileCoord)
    requires
        c.computable(),
    ensures
        c.x < ROW_SPAN,
        c.y < ROW_SPAN,
        lock_key(c) <= u128::MAX,
{
    lemma2_to64();
    vstd::arithmetic::power2::lemma2_to64_rest();
    if c.level < MAX_DEPTH {
        lemma_pow2_strictly_increases(c.level as nat, MAX_DEPTH as nat);
    }
    assert(pow2(46) == ROW_SPAN);
}

proof fn lemma_lock_key(a: TileCoord, b: TileCoord)
    requires
        a.computable(),
        b.computable(),
        lock_key(a) == lock_key(b),
    ensures
        a == b,
{
    lemma_row_span(a);
    lemma_row_span(b);
}

/// The tile with a given number.
spec fn tile_of_key(k: int) -> TileCoord {
    TileCoord {
        level: (k / LEVEL_SPAN as int) as u32,
        x: (k % LEVEL_SPAN as int / ROW_SPAN as int) as u64,
        y: (k % ROW_SPAN as int) as u64,
    }
}

/// There are finitely many computable tiles.
pub proof fn lemma_computable_finite()
    ensures
        Set::new(|c: TileCoord| c.computable()).finite(),
{
    let keys = vstd::set_lib::set_int_range(0, u128::MAX + 1);
    let tiles = Set::new(|c: TileCoord| c.computable());
    let all = keys.map(|k: int| tile_of_key(k));
    vstd::set_lib::lemma_int_range(0, u128::MAX + 1);
    keys.lemma_map_finite(|k: int| tile_of_key(k));
    assert forall|c: TileCoord| tiles.contains(c) implies #[trigger] all.contains(c) by {
        lemma_row_span(c);
        let k = lock_key(c);
        assert(keys.contains(k));
        assert(tile_of_key(k) == c);
    }
    vstd::set_lib::lemma_set_subset_finite(all, tiles);
}

/// A set of computable tiles.
pub struct Locks {
    keys: HashSet<u128>,
}

impl View for Locks {
    type V = Set<TileCoord>;

    closed spec fn view(&self) -> Set<TileCoord> {
        Set::new(|c: TileCoord| c.computable() && self.keys@.contains(lock_key(c) as u128))
    }
}

fn key_of(c: &TileCoord) -> (r: u128)
    requires
        c.computable(),
    ensures
        r == lock_key(*c),
{
    proof {
        lemma_row_span(*c);
    }
    c.level as u128 * LEVEL_SPAN + c.x as u128 * ROW_SPAN + c.y as u128
}

impl Locks {
    pub fn new() -> (r: Locks)
        ensures
            r@ == Set::<TileCoord>::empty(),
    {
        broadcast use vstd::std_specs::hash::group_hash_axioms;

        let r = Locks { keys: HashSet::new() };
        assert(r@ =~= Set::empty());
        r
    }

    pub fn insert(&mut self, c: TileCoord)
        requires
            c.computable(),
        ensures
            final(self)@ == old(self)@.insert(c),
    {
        broadcast use vstd::std_specs::hash::group_hash_axioms;

        let key: u128 = key_of(&c);
        self.keys.insert(key);
        proof {
            lemma_row_span(c);
            assert forall|d: TileCoord| #[trigger] self@.contains(d) <==> old(self)@.insert(c).contains(
                d,
            ) by {
                if d.computable() {
                    lemma_row_span(d);
                    if lock_key(d) == lock_key(c) {
                        lemma_lock_key(d, c);
                    }
                }
            }
            assert(self@ =~= old(self)@.insert(c));
        }
    }

    pub fn contains(&self, c: &TileCoord) -> (r: bool)
        requires
            c.computable(),
        ensures
            r == self@.contains(*c),
    {
        broadcast use vstd::std_specs::hash::group_hash_axioms;

        let key: u128 = key_of(c);
        self.keys.contains(&key)
    }

    pub fn clear(&mut self)
        ensures
            final(self)@ == Set::<TileCoord>::empty(),
    {
        self.keys.clear();
        assert(self@ =~= Set::empty());
    }
}

} // verus!
