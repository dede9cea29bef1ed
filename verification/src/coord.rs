//! Tile coordinates, the fixed-point grid they live on, and the window through which they are seen.

use vstd::arithmetic::div_mod::{lemma_fundamental_div_mod, lemma_fundamental_div_mod_converse};
use vstd::arithmetic::power2::{
    lemma2_to64, lemma_pow2_adds, lemma_pow2_pos, lemma_pow2_strictly_increases, lemma_pow2_unfold, pow2,
};
use vstd::prelude::*;

verus! {

/// Pixels along one edge of a tile.
pub const TILE_SIZE: u32 = 256;

/// The level whose tiles are one grid unit wide, 2^-61 in the complex plane. It is the deepest of
/// which the number of tiles along an edge of the root is a machine word.
pub const GRID_LEVEL: u32 = 63;

/// The deepest level whose tile corners are all binary64 numbers without rounding.
pub const CORNER_LEVEL: u32 = 53;

/// Left edge of the root tile, -2.5 in the complex plane, in grid units.
pub const ROOT_LEFT: i64 = -5764607523034234880;

/// Bottom edge of the root tile, -2.0 in the complex plane, in grid units.
pub const ROOT_BOTTOM: i64 = -4611686018427387904;

/// Edge length of the root tile, 4.0 in the complex plane, in grid units.
pub const ROOT_EXTENT: u64 = 9223372036854775808;

/// The deepest level of which tiles are computed.
pub const MAX_DEPTH: u32 = 46;

/// A tile: `level` halvings below the root, in column `x` and row `y` of the `2^level` by
/// `2^level` tiles of its level. Row 0 is the bottom row.
#[derive(Debug, Clone, Copy, PartialEq, Eq, Hash, Structural)]
pub struct TileCoord {
    pub level: u32,
    pub x: u64,
    pub y: u64,
}

/// The part of the plane that a window shows.
///
/// The four edges are in grid units. Tile corners are whole numbers of grid units, so an edge
/// that lies between two of them is rounded away from the middle of the window: `left` and
/// `bottom` down, `right` and `top` up. No comparison with a tile corner changes by that.
#[derive(Debug, Clone, Copy, PartialEq, Eq, Structural)]
pub struct Viewport {
    pub left: i64,
    pub right: i64,
    pub bottom: i64,
    pub top: i64,
    /// The coarsest level whose tiles have pixels no wider than a pixel of the window.
    pub target_level: u32,
}

impl Viewport {
    /// The same window with pixels twice as wide.
    pub open spec fn spec_coarsen(self) -> Viewport {
        Viewport {
            target_level: if self.target_level == 0 { 0 } else { (self.target_level - 1) as u32 },
            ..self
        }
    }

    /// The same window with pixels twice as wide: tiles one level up are fine enough.
    pub fn coarsen(&self) -> (r: Viewport)
        ensures
            r == self.spec_coarsen(),
    {
        Viewport {
            left: self.left,
            right: self.right,
            bottom: self.bottom,
            top: self.top,
            target_level: if self.target_level == 0 { 0 } else { self.target_level - 1 },
        }
    }
}

/// Strict lexicographic order; a proper prefix comes before its extensions.
pub open spec fn lex_before(a: Seq<int>, b: Seq<int>) -> bool
    decreases a.len(),
{
    if b.len() == 0 {
        false
    } else if a.len() == 0 {
        true
    } else if a[0] == b[0] {
        lex_before(a.drop_first(), b.drop_first())
    } else {
        a[0] < b[0]
    }
}

impl TileCoord {
    /// The tile lies within the root tile.
    pub open spec fn valid(self) -> bool {
        &&& self.level <= 64
        &&& self.x < pow2(self.level as nat)
        &&& self.y < pow2(self.level as nat)
    }

    /// The tile lies within the root tile and its corners are known without rounding.
    pub open spec fn on_grid(self) -> bool {
        self.valid() && self.level <= CORNER_LEVEL
    }

    /// The tile lies within the root tile, at a level of which tiles are computed.
    pub open spec fn computable(self) -> bool {
        self.valid() && self.level <= MAX_DEPTH
    }

    /// Half the number of tiles along an edge of the root at this tile's level.
    pub open spec fn half(self) -> int {
        pow2((self.level - 1) as nat) as int
    }

    /// Which quarter of the root the tile lies in: bit 0 is set for the right half, bit 1 for
    /// the upper half.
    pub open spec fn quadrant(self) -> int {
        (self.y as int / self.half()) * 2 + self.x as int / self.half()
    }

    /// The same tile seen from the quarter of the root that holds it.
    pub open spec fn rest(self) -> TileCoord {
        TileCoord {
            level: (self.level - 1) as u32,
            x: (self.x as int % self.half()) as u64,
            y: (self.y as int % self.half()) as u64,
        }
    }

    /// The quarters to descend into, one per level, to get from the root to the tile.
    pub open spec fn path(self) -> Seq<int>
        decreases self.level,
    {
        if self.level == 0 {
            Seq::empty()
        } else {
            seq![self.quadrant()] + self.rest().path()
        }
    }

    /// The quarter `q` of the tile.
    pub open spec fn child_at(self, q: int) -> TileCoord {
        TileCoord {
            level: (self.level + 1) as u32,
            x: (self.x * 2 + q % 2) as u64,
            y: (self.y * 2 + q / 2) as u64,
        }
    }

    /// The tile of which this one is a quarter.
    pub open spec fn up(self) -> TileCoord {
        TileCoord { level: (self.level - 1) as u32, x: self.x / 2, y: self.y / 2 }
    }

    /// Which quarter of its parent the tile is.
    pub open spec fn slot_in_parent(self) -> int {
        (self.y as int % 2) * 2 + self.x as int % 2
    }

    /// The tile is `other` or one of the tiles that `other` is a part of.
    pub open spec fn covers(self, other: TileCoord) -> bool {
        self.path().is_prefix_of(other.path())
    }

    /// The order in which tiles are drawn: a tile before its parts, and quarters in order.
    pub open spec fn before(self, other: TileCoord) -> bool {
        lex_before(self.path(), other.path())
    }

    /// Edge length in grid units.
    pub open spec fn extent(self) -> int {
        pow2((GRID_LEVEL - self.level) as nat) as int
    }

    /// Left edge in grid units.
    pub open spec fn left(self) -> int {
        ROOT_LEFT + self.x * self.extent()
    }

    /// Bottom edge in grid units.
    pub open spec fn bottom(self) -> int {
        ROOT_BOTTOM + self.y * self.extent()
    }

    /// The inside of the tile and the inside of the window meet.
    pub open spec fn in_view(self, vp: Viewport) -> bool {
        &&& self.left() < vp.right
        &&& self.left() + self.extent() > vp.left
        &&& self.bottom() < vp.top
        &&& self.bottom() + self.extent() > vp.bottom
    }

    pub fn root() -> (r: Self)
        ensures
            r == (TileCoord { level: 0, x: 0, y: 0 }),
            r.valid(),
            r.path() == Seq::<int>::empty(),
    {
        proof {
            lemma2_to64();
        }
        TileCoord { level: 0, x: 0, y: 0 }
    }

    /// The four quarters of the tile: lower left, lower right, upper left, upper right.
    pub fn children(&self) -> (r: [TileCoord; 4])
        requires
            self.level < u32::MAX,
            self.x * 2 + 1 <= u64::MAX,
            self.y * 2 + 1 <= u64::MAX,
        ensures
            forall|q: int| 0 <= q < 4 ==> #[trigger] r@[q] == self.child_at(q),
    {
        let l: u32 = self.level + 1;
        let bx: u64 = self.x * 2;
        let by: u64 = self.y * 2;
        [
            TileCoord { level: l, x: bx, y: by },
            TileCoord { level: l, x: bx + 1, y: by },
            TileCoord { level: l, x: bx, y: by + 1 },
            TileCoord { level: l, x: bx + 1, y: by + 1 },
        ]
    }

    /// The tile of which this one is a quarter; the root has none.
    pub fn parent(&self) -> (r: Option<TileCoord>)
        ensures
            r == (if self.level == 0 { None } else { Some(self.up()) }),
    {
        if self.level == 0 {
            None
        } else {
            Some(TileCoord { level: self.level - 1, x: self.x / 2, y: self.y / 2 })
        }
    }

    /// Which quarter of the root the tile lies in, and the same tile seen from that quarter.
    pub fn child(&self) -> (r: (usize, TileCoord))
        requires
            1 <= self.level <= 64,
            self.quadrant() <= u64::MAX,
        ensures
            r.0 == self.quadrant() as usize,
            r.1 == self.rest(),
            self.valid() ==> r.0 == self.quadrant() && r.0 < 4 && r.1.valid(),
    {
        let lev: u32 = self.level - 1;
        let mask: u64 = !((!0u64) << lev);
        proof {
            let l64 = lev as u64;
            lemma_pow2_pos(lev as nat);
            lemma2_to64();
            if lev < 63 {
                lemma_pow2_strictly_increases(lev as nat, 63);
            }
            vstd::arithmetic::power2::lemma2_to64_rest();
            vstd::bits::lemma_u64_shl_is_mul(1, l64);
            vstd::bits::lemma_u64_shr_is_div(self.x, l64);
            vstd::bits::lemma_u64_shr_is_div(self.y, l64);
            vstd::bits::lemma_u64_low_bits_mask_is_mod(self.x, lev as nat);
            vstd::bits::lemma_u64_low_bits_mask_is_mod(self.y, lev as nat);
            assert(!((!0u64) << lev) == (1u64 << (lev as u64)) - 1) by (bit_vector)
                requires
                    lev < 64,
            ;
            assert(mask == vstd::bits::low_bits_mask(lev as nat));
            if self.valid() {
                self.lemma_rest_valid();
            }
        }
        (
            ((self.y >> lev) * 2 + (self.x >> lev)) as usize,
            TileCoord { level: lev, x: self.x & mask, y: self.y & mask },
        )
    }

    /// The quarter of a valid tile is one of four, and the tile is valid within it.
    pub proof fn lemma_rest_valid(self)
        requires
            self.valid(),
            self.level >= 1,
        ensures
            self.rest().valid(),
            0 <= self.quadrant() < 4,
            self.x == (self.quadrant() % 2) * self.half() + self.rest().x,
            self.y == (self.quadrant() / 2) * self.half() + self.rest().y,
    {
        let h = self.half();
        lemma_pow2_unfold(self.level as nat);
        lemma_pow2_pos((self.level - 1) as nat);
        let x = self.x as int;
        let y = self.y as int;
        lemma_fundamental_div_mod(x, h);
        lemma_fundamental_div_mod(y, h);
        assert(x / h < 2) by (nonlinear_arith)
            requires
                0 <= x < 2 * h,
                h > 0,
        ;
        assert(y / h < 2) by (nonlinear_arith)
            requires
                0 <= y < 2 * h,
                h > 0,
        ;
        assert(x / h >= 0 && y / h >= 0) by (nonlinear_arith)
            requires
                0 <= x,
                0 <= y,
                h > 0,
        ;
        assert(0 <= x % h < h && 0 <= y % h < h) by (nonlinear_arith)
            requires
                h > 0,
        ;
        assert(x % h <= x && y % h <= y) by (nonlinear_arith)
            requires
                h > 0,
                0 <= x,
                0 <= y,
        ;
        let a = x / h;
        let b = y / h;
        assert((b * 2 + a) % 2 == a && (b * 2 + a) / 2 == b);
        assert(h * a == a * h && h * b == b * h) by (nonlinear_arith);
    }

    /// Edge length in grid units: as many tiles as there are along an edge of the root make up that
    /// edge.
    pub fn tile_extent(&self) -> (r: u64)
        requires
            self.level < 64,
        ensures
            r == self.extent(),
            r > 0,
            r * pow2(self.level as nat) == ROOT_EXTENT,
    {
        let shift: u64 = (GRID_LEVEL - self.level) as u64;
        proof {
            lemma_pow2_adds((GRID_LEVEL - self.level) as nat, self.level as nat);
            lemma_grid_extent(self.level);
            vstd::bits::lemma_u64_shl_is_mul(1, shift);
        }
        1u64 << shift
    }

    /// Lower left corner in grid units.
    pub fn origin(&self) -> (r: (i64, i64))
        requires
            self.on_grid(),
        ensures
            r.0 == self.left(),
            r.1 == self.bottom(),
    {
        let ext: u64 = self.tile_extent();
        proof {
            self.lemma_in_root();
        }
        (
            (ROOT_LEFT as i128 + (self.x * ext) as i128) as i64,
            (ROOT_BOTTOM as i128 + (self.y * ext) as i128) as i64,
        )
    }

    /// Does this tile's region overlap the given viewport?
    pub fn overlaps(&self, vp: &Viewport) -> (r: bool)
        requires
            self.on_grid(),
        ensures
            r == self.in_view(*vp),
    {
        let (ox, oy) = self.origin();
        let right: i128 = ox as i128 + self.tile_extent() as i128;
        let top: i128 = oy as i128 + self.tile_extent() as i128;
        ox < vp.right && right > vp.left as i128 && oy < vp.top && top > vp.bottom as i128
    }

    /// A valid tile lies within the root tile, as far as the grid goes.
    pub proof fn lemma_in_root(self)
        requires
            self.valid(),
            self.level <= GRID_LEVEL,
        ensures
            0 < self.extent() <= ROOT_EXTENT,
            0 <= self.x * self.extent(),
            self.x * self.extent() + self.extent() <= ROOT_EXTENT,
            0 <= self.y * self.extent(),
            self.y * self.extent() + self.extent() <= ROOT_EXTENT,
            self.x <= ROOT_EXTENT,
            self.y <= ROOT_EXTENT,
    {
        lemma_grid_extent(self.level);
        let n = pow2(self.level as nat) as int;
        let e = self.extent();
        let x = self.x as int;
        let y = self.y as int;
        assert(x * e + e <= n * e && 0 <= x * e) by (nonlinear_arith)
            requires
                0 <= x < n,
                e > 0,
        ;
        assert(y * e + e <= n * e && 0 <= y * e) by (nonlinear_arith)
            requires
                0 <= y < n,
                e > 0,
        ;
        assert(n * e == e * n) by (nonlinear_arith);
        assert(x <= x * e && y <= y * e) by (nonlinear_arith)
            requires
                e > 0,
                x >= 0,
                y >= 0,
        ;
        assert(n >= 1);
        assert(e <= e * n) by (nonlinear_arith)
            requires
                n >= 1,
                e > 0,
        ;
    }

    /// The path has one step per level, each into one of four quarters.
    pub proof fn lemma_path(self)
        requires
            self.valid(),
        ensures
            self.path().len() == self.level,
            forall|i: int| 0 <= i < self.level ==> 0 <= #[trigger] self.path()[i] < 4,
        decreases self.level,
    {
        if self.level > 0 {
            self.lemma_rest_valid();
            self.rest().lemma_path();
            assert forall|i: int| 0 <= i < self.level implies 0 <= #[trigger] self.path()[i] < 4 by {
                if i > 0 {
                    assert(self.path()[i] == self.rest().path()[i - 1]);
                }
            }
        }
    }

    /// A valid tile is told by its path.
    pub proof fn lemma_path_injective(self, other: TileCoord)
        requires
            self.valid(),
            other.valid(),
            self.path() == other.path(),
        ensures
            self == other,
        decreases self.level,
    {
        self.lemma_path();
        other.lemma_path();
        if self.level > 0 {
            self.lemma_rest_valid();
            other.lemma_rest_valid();
            assert(self.path()[0] == self.quadrant());
            assert(other.path()[0] == other.quadrant());
            assert(self.path().drop_first() =~= self.rest().path());
            assert(other.path().drop_first() =~= other.rest().path());
            self.rest().lemma_path_injective(other.rest());
        } else {
            lemma2_to64();
        }
    }

    /// A quarter of a valid tile is valid, has that tile as its parent, and is reached by one
    /// more step.
    pub proof fn lemma_child(self, q: int)
        requires
            self.valid(),
            self.level < 64,
            0 <= q < 4,
        ensures
            self.child_at(q).valid(),
            self.child_at(q).level == self.level + 1,
            self.child_at(q).x == self.x * 2 + q % 2,
            self.child_at(q).y == self.y * 2 + q / 2,
            self.child_at(q).up() == self,
            self.child_at(q).slot_in_parent() == q,
            self.child_at(q).path() == self.path().push(q),
        decreases self.level,
    {
        let c = self.child_at(q);
        lemma_pow2_unfold((self.level + 1) as nat);
        lemma2_to64();
        vstd::arithmetic::power2::lemma2_to64_rest();
        if self.level < 63 {
            lemma_pow2_strictly_increases((self.level + 1) as nat, 64);
        }
        assert(c.level == self.level + 1);
        assert(c.x == self.x * 2 + q % 2);
        assert(c.y == self.y * 2 + q / 2);
        assert(c.valid());
        lemma_pow2_pos(self.level as nat);
        if self.level == 0 {
            assert(self.x == 0 && self.y == 0);
            assert(c.half() == 1);
            let one = c.half();
            let cx = c.x as int;
            let cy = c.y as int;
            assert(cx / one == cx && cy / one == cy) by (nonlinear_arith)
                requires
                    one == 1,
            ;
            assert(c.rest().level == 0);
            assert(c.rest().path() =~= Seq::empty());
            assert(c.quadrant() == (q / 2) * 2 + q % 2);
            assert(c.path() =~= seq![q]);
            assert(self.path().push(q) =~= seq![q]);
        } else {
            self.lemma_rest_valid();
            let h = self.half();
            lemma_pow2_unfold(self.level as nat);
            lemma_pow2_pos((self.level - 1) as nat);
            assert(c.half() == 2 * h);
            let x = self.x as int;
            let y = self.y as int;
            lemma_double_div_mod(x, h, q % 2);
            lemma_double_div_mod(y, h, q / 2);
            assert(c.quadrant() == self.quadrant());
            let r = self.rest();
            r.lemma_child(q);
            assert(c.rest() == r.child_at(q));
            assert(c.path() =~= self.path().push(q));
        }
    }

    /// A valid tile below the root is a quarter of its parent.
    pub proof fn lemma_parent(self)
        requires
            self.valid(),
            self.level >= 1,
        ensures
            self.up().valid(),
            self.up().level == self.level - 1,
            0 <= self.slot_in_parent() < 4,
            self.up().child_at(self.slot_in_parent()) == self,
            self.path() == self.up().path().push(self.slot_in_parent()),
    {
        lemma_pow2_unfold(self.level as nat);
        let p = self.up();
        assert(p.valid());
        let q = self.slot_in_parent();
        p.lemma_child(q);
        assert(q % 2 == self.x as int % 2);
        assert(q / 2 == self.y as int % 2);
        assert(p.child_at(q) == self);
    }

    /// A tile that shows in a window lies in one that does: its parent.
    pub proof fn lemma_view_parent(self, vp: Viewport)
        requires
            self.on_grid(),
            self.level >= 1,
        ensures
            self.up().on_grid(),
            self.in_view(vp) ==> self.up().in_view(vp),
    {
        self.lemma_parent();
        let p = self.up();
        let e = self.extent();
        lemma_pow2_unfold((GRID_LEVEL - p.level) as nat);
        assert(p.extent() == 2 * e);
        lemma_pow2_pos((GRID_LEVEL - self.level) as nat);
        let px = p.x as int;
        let py = p.y as int;
        let dx = self.x as int % 2;
        let dy = self.y as int % 2;
        assert(self.x == 2 * px + dx);
        assert(self.y == 2 * py + dy);
        assert((2 * px + dx) * e == px * (2 * e) + dx * e) by (nonlinear_arith);
        assert((2 * py + dy) * e == py * (2 * e) + dy * e) by (nonlinear_arith);
        assert(0 <= dx * e <= e && 0 <= dy * e <= e) by (nonlinear_arith)
            requires
                0 <= dx <= 1,
                0 <= dy <= 1,
                e > 0,
        ;
    }

    /// Whatever covers a tile, other than the tile itself, covers its parent.
    pub proof fn lemma_covers_up(self, other: TileCoord)
        requires
            self.valid(),
            other.valid(),
            self.covers(other),
            self.level < other.level,
        ensures
            self.covers(other.up()),
    {
        self.lemma_path();
        other.lemma_path();
        other.lemma_parent();
        other.up().lemma_path();
        let a = self.path();
        let b = other.path();
        let c = other.up().path();
        assert(a =~= b.subrange(0, a.len() as int));
        assert(c.subrange(0, a.len() as int) =~= b.subrange(0, a.len() as int));
    }

    /// Whatever covers a tile that shows in a window shows in it too.
    pub proof fn lemma_view_covers(self, other: TileCoord, vp: Viewport)
        requires
            self.valid(),
            other.on_grid(),
            self.covers(other),
        ensures
            self.level <= other.level,
            self.on_grid(),
            other.in_view(vp) ==> self.in_view(vp),
        decreases other.level,
    {
        self.lemma_path();
        other.lemma_path();
        if self.level == other.level {
            assert(self.path() =~= other.path());
            self.lemma_path_injective(other);
        } else {
            other.lemma_parent();
            other.lemma_view_parent(vp);
            self.lemma_covers_up(other);
            self.lemma_view_covers(other.up(), vp);
        }
    }
}

/// Where two sequences part, the order is decided.
pub proof fn lemma_lex_branch(p: Seq<int>, a: Seq<int>, b: Seq<int>)
    requires
        p.is_prefix_of(a),
        p.is_prefix_of(b),
        b.len() > p.len(),
        a.len() == p.len() || a[p.len() as int] < b[p.len() as int],
    ensures
        lex_before(a, b),
    decreases p.len(),
{
    if p.len() > 0 {
        assert(a.subrange(0, p.len() as int)[0] == a[0]);
        assert(b.subrange(0, p.len() as int)[0] == b[0]);
        let pt = p.drop_first();
        let at = a.drop_first();
        let bt = b.drop_first();
        assert(pt =~= at.subrange(0, pt.len() as int)) by {
            assert forall|i: int| 0 <= i < pt.len() implies pt[i] == at[i] by {
                assert(p[i + 1] == a.subrange(0, p.len() as int)[i + 1]);
            }
        }
        assert(pt =~= bt.subrange(0, pt.len() as int)) by {
            assert forall|i: int| 0 <= i < pt.len() implies pt[i] == bt[i] by {
                assert(p[i + 1] == b.subrange(0, p.len() as int)[i + 1]);
            }
        }
        lemma_lex_branch(pt, at, bt);
    }
}

/// The extents of the levels halve from the root's to one grid unit.
proof fn lemma_grid_extent(level: u32)
    requires
        level <= GRID_LEVEL,
    ensures
        1 <= pow2((GRID_LEVEL - level) as nat) <= ROOT_EXTENT,
        1 <= pow2(level as nat) <= ROOT_EXTENT,
        pow2((GRID_LEVEL - level) as nat) * pow2(level as nat) == ROOT_EXTENT,
{
    lemma_pow2_adds((GRID_LEVEL - level) as nat, level as nat);
    lemma_pow2_pos((GRID_LEVEL - level) as nat);
    lemma_pow2_pos(level as nat);
    lemma2_to64();
    vstd::arithmetic::power2::lemma2_to64_rest();
    assert(pow2(63) == ROOT_EXTENT);
    if level < GRID_LEVEL {
        lemma_pow2_strictly_increases(level as nat, GRID_LEVEL as nat);
    }
    if level > 0 {
        lemma_pow2_strictly_increases((GRID_LEVEL - level) as nat, GRID_LEVEL as nat);
    }
}

/// Appending a low bit to a number doubles the divisor of its quotient and remainder.
proof fn lemma_double_div_mod(x: int, h: int, b: int)
    requires
        x >= 0,
        h > 0,
        0 <= b < 2,
    ensures
        (2 * x + b) / (2 * h) == x / h,
        (2 * x + b) % (2 * h) == 2 * (x % h) + b,
{
    lemma_fundamental_div_mod(x, h);
    let q = x / h;
    let r = x % h;
    assert(0 <= r < h) by (nonlinear_arith)
        requires
            r == x % h,
            h > 0,
    ;
    assert(2 * x + b == q * (2 * h) + (2 * r + b)) by (nonlinear_arith)
        requires
            x == h * q + r,
    ;
    lemma_fundamental_div_mod_converse(2 * x + b, 2 * h, q, 2 * r + b);
}

} // verus!
