//! The tiles that may be given up, in the order in which they are given up.

use crate::coord::TileCoord;
use crate::locks::Locks;
use indexmap::IndexSet;
use vstd::prelude::*;

verus! {

/// The insertion-ordered set of the `indexmap` crate.
#[verifier::external_type_specification]
#[verifier::external_body]
#[verifier::reject_recursive_types(T)]
#[verifier::reject_recursive_types(S)]
pub struct ExIndexSet<T, S>(IndexSet<T, S>);

/// The items of an ordered set, in its order.
pub uninterp spec fn ordered_items(set: IndexSet<(u64, u64)>) -> Seq<(u64, u64)>;

/// `IndexSet::new`: the new set holds nothing.
#[verifier::external_body]
fn ordered_new() -> (r: IndexSet<(u64, u64)>)
    ensures
        ordered_items(r) == Seq::<(u64, u64)>::empty(),
{
    IndexSet::new()
}

/// `IndexSet::insert_full`: a value that the set does not hold goes to the end; one that it holds
/// stays where it is. The result is the value's place and whether it is new.
#[verifier::external_body]
fn ordered_insert(set: &mut IndexSet<(u64, u64)>, value: (u64, u64)) -> (r: (usize, bool))
    ensures
        r.1 == !ordered_items(*old(set)).contains(value),
        ordered_items(*final(set)) == (if r.1 {
            ordered_items(*old(set)).push(value)
        } else {
            ordered_items(*old(set))
        }),
        r.0 < ordered_items(*final(set)).len(),
        ordered_items(*final(set))[r.0 as int] == value,
{
    set.insert_full(value)
}

/// `IndexSet::shift_remove`: takes the value out, if the set holds it, and keeps the others in
/// order. The result is whether the set held it.
#[verifier::external_body]
fn ordered_remove(set: &mut IndexSet<(u64, u64)>, value: &(u64, u64)) -> (r: bool)
    ensures
        r == ordered_items(*old(set)).contains(*value),
        ordered_items(*final(set)) == ordered_items(*old(set)).remove_value(*value),
{
    set.shift_remove(value)
}

/// `IndexSet::len`: how many items the set holds.
#[verifier::external_body]
fn ordered_len(set: &IndexSet<(u64, u64)>) -> (r: usize)
    ensures
        r == ordered_items(*set).len(),
{
    set.len()
}

/// `IndexSet::get_index`: the item at a place in the order, or nothing past the last one.
#[verifier::external_body]
fn ordered_get(set: &IndexSet<(u64, u64)>, index: usize) -> (r: Option<(u64, u64)>)
    ensures
        r == (if index < ordered_items(*set).len() {
            Some(ordered_items(*set)[index as int])
        } else {
            None
        }),
{
    set.get_index(index).copied()
}

/// The tiles of one level that may be given up, as pairs of column and row.
pub struct LevelOrder {
    /// Tiles that lost their last part, in the order in which that happened.
    pub emptied: Seq<(u64, u64)>,
    /// Tiles without parts, in the order in which they were computed.
    pub computed: Seq<(u64, u64)>,
}

/// The sequence with the value at its end, unless it holds the value already.
pub open spec fn with_last(s: Seq<(u64, u64)>, value: (u64, u64)) -> Seq<(u64, u64)> {
    if s.contains(value) {
        s
    } else {
        s.push(value)
    }
}

/// The tile goes to the end of the computed ones of its level.
pub open spec fn leaf_computed(levels: Seq<LevelOrder>, c: TileCoord) -> Seq<LevelOrder> {
    let order = levels[c.level - 1];
    levels.update(
        c.level - 1,
        LevelOrder { emptied: order.emptied, computed: with_last(order.computed, (c.x, c.y)) },
    )
}

/// The tile goes to the end of the emptied ones of its level.
pub open spec fn leaf_emptied(levels: Seq<LevelOrder>, c: TileCoord) -> Seq<LevelOrder> {
    let order = levels[c.level - 1];
    levels.update(
        c.level - 1,
        LevelOrder { emptied: with_last(order.emptied, (c.x, c.y)), computed: order.computed },
    )
}

/// The tile is taken out.
pub open spec fn leaf_removed(levels: Seq<LevelOrder>, c: TileCoord) -> Seq<LevelOrder> {
    let order = levels[c.level - 1];
    levels.update(
        c.level - 1,
        LevelOrder {
            emptied: order.emptied.remove_value((c.x, c.y)),
            computed: order.computed.remove_value((c.x, c.y)),
        },
    )
}

/// The tile may be given up.
pub open spec fn listed(levels: Seq<LevelOrder>, c: TileCoord) -> bool {
    &&& 1 <= c.level <= levels.len()
    &&& {
        ||| levels[c.level - 1].emptied.contains((c.x, c.y))
        ||| levels[c.level - 1].computed.contains((c.x, c.y))
    }
}

/// The tiles of a level that stand in the given columns and rows.
pub open spec fn tiles_of(level: nat, s: Seq<(u64, u64)>) -> Seq<TileCoord> {
    Seq::new(s.len(), |i: int| TileCoord { level: level as u32, x: s[i].0, y: s[i].1 })
}

/// The tiles of the first `n` levels that may be given up, in the order in which they are: the
/// deepest level first, and of a level the emptied tiles before the others.
pub open spec fn eviction_order(levels: Seq<LevelOrder>, n: nat) -> Seq<TileCoord>
    decreases n,
{
    if n == 0 {
        Seq::empty()
    } else {
        tiles_of(n, levels[n - 1].emptied) + tiles_of(n, levels[n - 1].computed) + eviction_order(
            levels,
            (n - 1) as nat,
        )
    }
}

/// The first tile that is not in the set.
pub open spec fn first_outside(order: Seq<TileCoord>, set: Set<TileCoord>) -> Option<TileCoord>
    decreases order.len(),
{
    if order.len() == 0 {
        None
    } else if !set.contains(order[0]) {
        Some(order[0])
    } else {
        first_outside(order.drop_first(), set)
    }
}

/// `first_outside` finds the least place that holds a tile outside the set.
pub proof fn lemma_first_outside(order: Seq<TileCoord>, set: Set<TileCoord>)
    ensures
        match first_outside(order, set) {
            Some(c) => !set.contains(c) && exists|i: int|
                0 <= i < order.len() && #[trigger] order[i] == c && (forall|j: int|
                    0 <= j < i ==> set.contains(#[trigger] order[j])),
            None => forall|j: int| 0 <= j < order.len() ==> set.contains(#[trigger] order[j]),
        },
    decreases order.len(),
{
    if order.len() > 0 {
        if set.contains(order[0]) {
            let tail = order.drop_first();
            lemma_first_outside(tail, set);
            assert forall|j: int| 0 < j < order.len() implies order[j] == #[trigger] tail[j - 1] by {}
            match first_outside(order, set) {
                Some(c) => {
                    let i = choose|i: int|
                        0 <= i < tail.len() && #[trigger] tail[i] == c && (forall|j: int|
                            0 <= j < i ==> set.contains(#[trigger] tail[j]));
                    assert(order[i + 1] == c);
                    assert forall|j: int| 0 <= j < i + 1 implies set.contains(#[trigger] order[j]) by {
                        if j > 0 {
                            assert(order[j] == tail[j - 1]);
                        }
                    }
                },
                None => {
                    assert forall|j: int| 0 <= j < order.len() implies set.contains(
                        #[trigger] order[j],
                    ) by {
                        if j > 0 {
                            assert(order[j] == tail[j - 1]);
                        }
                    }
                },
            }
        } else {
            assert(order[0] == first_outside(order, set)->0);
        }
    }
}

/// Tiles of the set at the front of the order do not matter.
proof fn lemma_first_outside_skip(order: Seq<TileCoord>, set: Set<TileCoord>, n: int)
    requires
        0 <= n <= order.len(),
        forall|j: int| 0 <= j < n ==> set.contains(#[trigger] order[j]),
    ensures
        first_outside(order, set) == first_outside(order.skip(n), set),
    decreases n,
{
    if n == 0 {
        assert(order.skip(0) =~= order);
    } else {
        let tail = order.drop_first();
        assert(set.contains(order[0]));
        assert forall|j: int| 0 <= j < n - 1 implies set.contains(#[trigger] tail[j]) by {
            assert(tail[j] == order[j + 1]);
        }
        lemma_first_outside_skip(tail, set, n - 1);
        assert(tail.skip(n - 1) =~= order.skip(n));
    }
}

/// Searching two sequences one after the other is searching both at once.
proof fn lemma_first_outside_add(a: Seq<TileCoord>, b: Seq<TileCoord>, set: Set<TileCoord>)
    ensures
        first_outside(a + b, set) == (match first_outside(a, set) {
            Some(c) => Some(c),
            None => first_outside(b, set),
        }),
    decreases a.len(),
{
    if a.len() == 0 {
        assert(a + b =~= b);
    } else {
        lemma_first_outside_add(a.drop_first(), b, set);
        assert((a + b).drop_first() =~= a.drop_first() + b);
    }
}

/// The order holds the tiles that may be given up, and no others.
pub proof fn lemma_eviction_order(levels: Seq<LevelOrder>, n: nat, c: TileCoord)
    requires
        n <= levels.len() <= u32::MAX,
    ensures
        eviction_order(levels, n).contains(c) <==> listed(levels, c) && c.level <= n,
    decreases n,
{
    if n > 0 {
        lemma_eviction_order(levels, (n - 1) as nat, c);
        let a = tiles_of(n, levels[n - 1].emptied);
        let b = tiles_of(n, levels[n - 1].computed);
        let t = eviction_order(levels, (n - 1) as nat);
        let all = eviction_order(levels, n);
        assert(all == a + b + t);
        if all.contains(c) {
            let i = choose|i: int| 0 <= i < all.len() && all[i] == c;
            if i < a.len() {
                assert(levels[n - 1].emptied[i] == (c.x, c.y));
            } else if i < a.len() + b.len() {
                assert(levels[n - 1].computed[i - a.len()] == (c.x, c.y));
            } else {
                assert(t[i - a.len() - b.len()] == c);
            }
        }
        if listed(levels, c) && c.level <= n {
            if c.level < n {
                let i = choose|i: int| 0 <= i < t.len() && t[i] == c;
                assert(all[a.len() + b.len() + i] == c);
            } else if levels[n - 1].emptied.contains((c.x, c.y)) {
                let s = levels[n - 1].emptied;
                let i = choose|i: int| 0 <= i < s.len() && s[i] == (c.x, c.y);
                assert(a[i] == c);
                assert(all[i] == c);
            } else {
                let s = levels[n - 1].computed;
                let i = choose|i: int| 0 <= i < s.len() && s[i] == (c.x, c.y);
                assert(b[i] == c);
                assert(all[a.len() + i] == c);
            }
        }
    }
}

/// What taking a value out of a sequence without repetitions leaves.
pub proof fn lemma_remove_value(s: Seq<(u64, u64)>, v: (u64, u64))
    requires
        s.no_duplicates(),
    ensures
        s.remove_value(v).no_duplicates(),
        forall|e: (u64, u64)| #[trigger] s.remove_value(v).contains(e) <==> s.contains(e) && e != v,
{
    s.index_of_first_ensures(v);
    let r = s.remove_value(v);
    if s.contains(v) {
        let i = s.index_of_first(v)->0;
        assert(r == s.remove(i));
        assert forall|e: (u64, u64)| #[trigger] r.contains(e) <==> s.contains(e) && e != v by {
            if r.contains(e) {
                let k = choose|k: int| 0 <= k < r.len() && r[k] == e;
                assert(if k < i { s[k] == e } else { s[k + 1] == e });
            }
            if s.contains(e) && e != v {
                let k = choose|k: int| 0 <= k < s.len() && s[k] == e;
                assert(if k < i { r[k] == e } else { r[k - 1] == e });
            }
        }
    }
}

/// Putting a value at the end keeps a sequence without repetitions.
pub proof fn lemma_with_last(s: Seq<(u64, u64)>, v: (u64, u64))
    requires
        s.no_duplicates(),
    ensures
        with_last(s, v).no_duplicates(),
        forall|e: (u64, u64)| #[trigger] with_last(s, v).contains(e) <==> s.contains(e) || e == v,
{
    let r = with_last(s, v);
    if !s.contains(v) {
        assert forall|e: (u64, u64)| #[trigger] r.contains(e) <==> s.contains(e) || e == v by {
            if s.contains(e) {
                let k = choose|k: int| 0 <= k < s.len() && s[k] == e;
                assert(r[k] == e);
            }
            if e == v {
                assert(r[s.len() as int] == v);
            }
        }
    }
}

/// No tile is listed twice, neither within one order nor across the two of a level.
pub open spec fn orders_distinct(levels: Seq<LevelOrder>) -> bool {
    forall|l: int| #![trigger levels[l]]
        0 <= l < levels.len() ==> {
            &&& levels[l].emptied.no_duplicates()
            &&& levels[l].computed.no_duplicates()
            &&& forall|e: (u64, u64)|
                !(#[trigger] levels[l].emptied.contains(e) && levels[l].computed.contains(e))
        }
}

/// Adding a tile that is not listed lists it and keeps the others.
pub proof fn lemma_leaf_added(levels: Seq<LevelOrder>, c: TileCoord)
    requires
        orders_distinct(levels),
        1 <= c.level <= levels.len(),
        !listed(levels, c),
    ensures
        orders_distinct(leaf_computed(levels, c)),
        orders_distinct(leaf_emptied(levels, c)),
        forall|d: TileCoord| #[trigger]
            listed(leaf_computed(levels, c), d) <==> listed(levels, d) || d == c,
        forall|d: TileCoord| #[trigger]
            listed(leaf_emptied(levels, c), d) <==> listed(levels, d) || d == c,
{
    let l = c.level - 1;
    lemma_with_last(levels[l].computed, (c.x, c.y));
    lemma_with_last(levels[l].emptied, (c.x, c.y));
}

/// Taking a tile out leaves the others.
pub proof fn lemma_leaf_removed(levels: Seq<LevelOrder>, c: TileCoord)
    requires
        orders_distinct(levels),
        1 <= c.level <= levels.len(),
    ensures
        orders_distinct(leaf_removed(levels, c)),
        forall|d: TileCoord| #[trigger]
            listed(leaf_removed(levels, c), d) <==> listed(levels, d) && d != c,
{
    let l = c.level - 1;
    lemma_remove_value(levels[l].computed, (c.x, c.y));
    lemma_remove_value(levels[l].emptied, (c.x, c.y));
}

/// The tiles of one level that may be given up.
struct LevelLeaves {
    emptied: IndexSet<(u64, u64)>,
    computed: IndexSet<(u64, u64)>,
}

impl LevelLeaves {
    spec fn order(self) -> LevelOrder {
        LevelOrder {
            emptied: ordered_items(self.emptied),
            computed: ordered_items(self.computed),
        }
    }
}

/// The tiles that may be given up. The root is never among them, so the first entry is level 1.
pub struct Leaves {
    levels: Vec<LevelLeaves>,
}

impl View for Leaves {
    type V = Seq<LevelOrder>;

    closed spec fn view(&self) -> Seq<LevelOrder> {
        Seq::new(self.levels@.len(), |l: int| self.levels@[l].order())
    }
}

impl Leaves {
    /// No tiles, on each of `count` levels.
    pub fn new(count: usize) -> (r: Leaves)
        ensures
            r@.len() == count,
            forall|l: int|
                0 <= l < count ==> #[trigger] r@[l] == (LevelOrder {
                    emptied: Seq::empty(),
                    computed: Seq::empty(),
                }),
    {
        let mut levels: Vec<LevelLeaves> = Vec::new();
        let mut i: usize = 0;
        while i < count
            invariant
                i <= count,
                levels@.len() == i,
                forall|l: int|
                    0 <= l < i ==> (#[trigger] levels@[l]).order() == (LevelOrder {
                        emptied: Seq::empty(),
                        computed: Seq::empty(),
                    }),
            decreases count - i,
        {
            levels.push(LevelLeaves { emptied: ordered_new(), computed: ordered_new() });
            i = i + 1;
        }
        Leaves { levels }
    }

    /// Puts a computed tile last among those of its level.
    pub fn add_computed(&mut self, coord: TileCoord)
        requires
            1 <= coord.level <= old(self)@.len(),
        ensures
            final(self)@ == leaf_computed(old(self)@, coord),
    {
        let l: usize = (coord.level - 1) as usize;
        ordered_insert(&mut self.levels[l].computed, (coord.x, coord.y));
        assert(self@ =~= old(self)@.update(l as int, self.levels@[l as int].order()));
    }

    /// Puts a tile that lost its last part last among those of its level.
    pub fn add_emptied(&mut self, coord: TileCoord)
        requires
            1 <= coord.level <= old(self)@.len(),
        ensures
            final(self)@ == leaf_emptied(old(self)@, coord),
    {
        let l: usize = (coord.level - 1) as usize;
        ordered_insert(&mut self.levels[l].emptied, (coord.x, coord.y));
        assert(self@ =~= old(self)@.update(l as int, self.levels@[l as int].order()));
    }

    /// Takes a tile out.
    pub fn remove(&mut self, coord: TileCoord)
        requires
            1 <= coord.level <= old(self)@.len(),
        ensures
            final(self)@ == leaf_removed(old(self)@, coord),
    {
        let l: usize = (coord.level - 1) as usize;
        let value: (u64, u64) = (coord.x, coord.y);
        ordered_remove(&mut self.levels[l].emptied, &value);
        ordered_remove(&mut self.levels[l].computed, &value);
        assert(self@ =~= old(self)@.update(l as int, self.levels@[l as int].order()));
    }

    /// The first tile in the eviction order that is not locked.
    pub fn first_unlocked(&self, locked: &Locks) -> (r: Option<TileCoord>)
        requires
            self@.len() <= u32::MAX,
            forall|c: TileCoord| #[trigger] listed(self@, c) ==> c.computable(),
        ensures
            r == first_outside(eviction_order(self@, self@.len()), locked@),
    {
        let mut n: usize = self.levels.len();
        assert(self.levels@.len() == self@.len());
        while n > 0
            invariant
                n <= self@.len() <= u32::MAX,
                self.levels@.len() == self@.len(),
                forall|c: TileCoord| #[trigger] listed(self@, c) ==> c.computable(),
                first_outside(eviction_order(self@, self@.len()), locked@) == first_outside(
                    eviction_order(self@, n as nat),
                    locked@,
                ),
            decreases n,
        {
            let level: u32 = n as u32;
            let ghost order = self@[n - 1];
            let ghost a = tiles_of(n as nat, order.emptied);
            let ghost b = tiles_of(n as nat, order.computed);
            let ghost t = eviction_order(self@, (n - 1) as nat);
            proof {
                lemma_first_outside_add(a + b, t, locked@);
                lemma_first_outside_add(a, b, locked@);
                assert forall|e: (u64, u64)| #[trigger] order.emptied.contains(e) implies (TileCoord {
                    level,
                    x: e.0,
                    y: e.1,
                }).computable() by {
                    assert(listed(self@, TileCoord { level, x: e.0, y: e.1 }));
                }
                assert forall|e: (u64, u64)| #[trigger] order.computed.contains(e) implies (TileCoord {
                    level,
                    x: e.0,
                    y: e.1,
                }).computable() by {
                    assert(listed(self@, TileCoord { level, x: e.0, y: e.1 }));
                }
            }
            let found = Self::scan(&self.levels[n - 1].emptied, level, locked);
            if found.is_some() {
                return found;
            }
            let found = Self::scan(&self.levels[n - 1].computed, level, locked);
            if found.is_some() {
                return found;
            }
            n = n - 1;
        }
        None
    }

    /// The first tile of one set that is not locked.
    fn scan(set: &IndexSet<(u64, u64)>, level: u32, locked: &Locks) -> (r: Option<TileCoord>)
        requires
            forall|e: (u64, u64)| #[trigger]
                ordered_items(*set).contains(e) ==> (TileCoord { level, x: e.0, y: e.1 }).computable(),
        ensures
            r == first_outside(tiles_of(level as nat, ordered_items(*set)), locked@),
    {
        let ghost items = ordered_items(*set);
        let ghost tiles = tiles_of(level as nat, items);
        let n: usize = ordered_len(set);
        let mut i: usize = 0;
        while i < n
            invariant
                items == ordered_items(*set),
                tiles == tiles_of(level as nat, items),
                i <= n,
                n == items.len(),
                forall|e: (u64, u64)| #[trigger]
                    items.contains(e) ==> (TileCoord { level, x: e.0, y: e.1 }).computable(),
                forall|j: int| 0 <= j < i ==> locked@.contains(#[trigger] tiles[j]),
            decreases n - i,
        {
            if let Some((x, y)) = ordered_get(set, i) {
                let c = TileCoord { level, x, y };
                assert(tiles[i as int] == c);
                assert(items.contains(items[i as int]));
                if !locked.contains(&c) {
                    proof {
                        lemma_first_outside_skip(tiles, locked@, i as int);
                        assert(tiles.skip(i as int)[0] == c);
                    }
                    return Some(c);
                }
            }
            i = i + 1;
        }
        proof {
            lemma_first_outside_skip(tiles, locked@, n as int);
            assert(tiles.skip(n as int).len() == 0);
        }
        None
    }
}

/// A tile that is listed already keeps its place when it is listed again; one that is not goes to the
/// end, of the tiles that were computed or of those that lost their parts. No other level changes.
pub proof fn law_listed_at_end(levels: Seq<LevelOrder>, c: TileCoord, l: int)
    requires
        1 <= c.level <= levels.len(),
        0 <= l < levels.len(),
    ensures
        ({
            let old_order = levels[c.level - 1];
            let a = leaf_computed(levels, c)[c.level - 1];
            let b = leaf_emptied(levels, c)[c.level - 1];
            &&& a.emptied == old_order.emptied
            &&& b.computed == old_order.computed
            &&& old_order.computed.contains((c.x, c.y)) ==> a.computed == old_order.computed
            &&& !old_order.computed.contains((c.x, c.y)) ==> a.computed == old_order.computed.push(
                (c.x, c.y),
            )
            &&& old_order.emptied.contains((c.x, c.y)) ==> b.emptied == old_order.emptied
            &&& !old_order.emptied.contains((c.x, c.y)) ==> b.emptied == old_order.emptied.push(
                (c.x, c.y),
            )
        }),
        l != c.level - 1 ==> {
            &&& leaf_computed(levels, c)[l] == levels[l]
            &&& leaf_emptied(levels, c)[l] == levels[l]
            &&& leaf_removed(levels, c)[l] == levels[l]
        },
{
}

} // verus!
