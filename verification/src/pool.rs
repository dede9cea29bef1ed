//! Where tile images get their memory from: arenas of equal slots, used up one after the other.

use crate::coord::TILE_SIZE;
use crate::memory::{
    allowed, first_choice, first_usable, is_first, should_allocate, usable, HeapBudget, MemoryType,
    MemoryUse, MAX_MEMORY_TYPES,
};
use vstd::arithmetic::power2::pow2;
use vstd::prelude::*;

verus! {

/// Tiles in one arena.
pub const ARENA_SIZE: u32 = 1024;

/// The number is a power of two.
pub open spec fn is_alignment(alignment: u64) -> bool {
    exists|k: nat| k < 64 && alignment == #[trigger] pow2(k)
}

/// The least multiple of `alignment` that is no less than `val`, or zero if that is too large.
pub open spec fn aligned_up(val: u64, alignment: u64) -> int {
    let up = ((val + alignment - 1) / alignment as int) * alignment;
    if up <= u64::MAX {
        up
    } else {
        0
    }
}

/// `vulkano::memory::allocator::align_up`: rounds up to a multiple of a power of two, and gives
/// zero on overflow. `DeviceAlignment::new` takes every power of two.
#[verifier::external_body]
fn align_up(val: u64, alignment: u64) -> (r: u64)
    requires
        is_alignment(alignment),
    ensures
        r == aligned_up(val, alignment),
{
    vulkano::memory::allocator::align_up(
        val,
        vulkano::memory::DeviceAlignment::new(alignment).unwrap(),
    )
}

/// The memory type for tiles: the first allowed one on the device, or else the first allowed one.
pub fn find_memory_type(types: &Vec<MemoryType>, memory_type_bits: u32) -> (r: Option<u32>)
    requires
        types@.len() <= MAX_MEMORY_TYPES,
    ensures
        if exists|j: int|
            0 <= j < types@.len() && #[trigger] usable(
                types@,
                memory_type_bits,
                MemoryUse::DeviceLocal,
            )(j) {
            is_first(
                usable(types@, memory_type_bits, MemoryUse::DeviceLocal),
                types@.len() as int,
                r,
            )
        } else {
            is_first(usable(types@, memory_type_bits, MemoryUse::Any), types@.len() as int, r)
        },
        first_choice(types@, memory_type_bits, MemoryUse::DeviceLocal, MemoryUse::Any, r),
{
    match first_usable(types, memory_type_bits, MemoryUse::DeviceLocal) {
        Some(i) => Some(i),
        None => first_usable(types, memory_type_bits, MemoryUse::Any),
    }
}

/// One allocation of graphics memory, cut into `cnt` slots of `mem_sz` bytes, of which the first
/// `ptr` are in use.
#[derive(Debug, Clone, Copy, PartialEq, Eq, Structural)]
pub struct TileArena {
    mem_sz: u64,
    tile_sz: u32,
    ptr: u32,
    cnt: u32,
}

/// What an arena is: how long its slots are, how many pixels wide a tile is, how many slots are
/// in use and how many there are.
pub struct ArenaModel {
    pub slot_bytes: nat,
    pub tile_pixels: nat,
    pub used: nat,
    pub slots: nat,
}

impl ArenaModel {
    pub open spec fn wf(self) -> bool {
        &&& self.used <= self.slots
        &&& self.slot_bytes * self.slots <= u64::MAX
        &&& self.slots <= u32::MAX
    }

    /// Where the next slot starts.
    pub open spec fn next_start(self) -> nat {
        self.used * self.slot_bytes
    }

    /// The length of the arena.
    pub open spec fn bytes(self) -> nat {
        self.slot_bytes * self.slots
    }
}

impl View for TileArena {
    type V = ArenaModel;

    closed spec fn view(&self) -> ArenaModel {
        ArenaModel {
            slot_bytes: self.mem_sz as nat,
            tile_pixels: self.tile_sz as nat,
            used: self.ptr as nat,
            slots: self.cnt as nat,
        }
    }
}

impl TileArena {
    /// An arena for the standard number of tiles of the standard size, and the offset of its first
    /// slot, which is in use. `size` and `alignment` are what one tile image needs.
    pub fn new_default(size: u64, alignment: u64) -> (r: (Self, u64))
        requires
            is_alignment(alignment),
            aligned_up(size, alignment) * ARENA_SIZE <= u64::MAX,
        ensures
            r.0@.wf(),
            r.0@ == (ArenaModel {
                slot_bytes: aligned_up(size, alignment) as nat,
                tile_pixels: TILE_SIZE as nat,
                used: 1,
                slots: ARENA_SIZE as nat,
            }),
            r.1 == 0,
    {
        Self::new(TILE_SIZE, ARENA_SIZE, size, alignment)
    }

    /// An arena for `count` tiles of `tile_sz` by `tile_sz` pixels, and the offset of its first
    /// slot, which is in use. `size` and `alignment` are what one tile image needs.
    pub fn new(tile_sz: u32, count: u32, size: u64, alignment: u64) -> (r: (Self, u64))
        requires
            count > 0,
            is_alignment(alignment),
            aligned_up(size, alignment) * count <= u64::MAX,
        ensures
            r.0@.wf(),
            r.0@ == (ArenaModel {
                slot_bytes: aligned_up(size, alignment) as nat,
                tile_pixels: tile_sz as nat,
                used: 1,
                slots: count as nat,
            }),
            r.1 == 0,
    {
        let mem_sz: u64 = align_up(size, alignment);
        let mut result = TileArena { mem_sz, tile_sz, ptr: 0, cnt: count };
        let offset: u64 = result.make_slot();
        (result, offset)
    }

    /// The bytes to allocate for the arena.
    pub fn allocation_size(&self) -> (r: u64)
        requires
            self@.wf(),
        ensures
            r == self@.slot_bytes * self@.slots,
            r == self@.bytes(),
    {
        self.mem_sz * self.cnt as u64
    }

    /// The length of a slot in bytes.
    pub fn slot_size(&self) -> (r: u64)
        ensures
            r == self@.slot_bytes,
    {
        self.mem_sz
    }

    /// The edge of a tile in pixels.
    pub fn tile_size(&self) -> (r: u32)
        ensures
            r == self@.tile_pixels,
    {
        self.tile_sz
    }

    /// Puts the next slot to use and gives its offset.
    fn make_slot(&mut self) -> (r: u64)
        requires
            old(self)@.wf(),
            old(self)@.used < old(self)@.slots,
        ensures
            final(self)@.wf(),
            r == old(self)@.used * old(self)@.slot_bytes,
            final(self)@ == (ArenaModel { used: old(self)@.used + 1, ..old(self)@ }),
    {
        proof {
            let a = self.ptr as int;
            let b = self.cnt as int;
            let c = self.mem_sz as int;
            assert(a * c <= c * b) by (nonlinear_arith)
                requires
                    0 <= a < b,
                    0 <= c,
            ;
        }
        let offset: u64 = self.ptr as u64 * self.mem_sz;
        self.ptr = self.ptr + 1;
        offset
    }

    /// Puts the next slot to use and gives its offset, if there is one.
    pub fn make(&mut self) -> (r: Option<u64>)
        requires
            old(self)@.wf(),
        ensures
            final(self)@.wf(),
            r matches Some(offset) ==> offset == old(self)@.next_start(),
            if old(self)@.used < old(self)@.slots {
                &&& r matches Some(offset) && offset == old(self)@.used * old(self)@.slot_bytes
                &&& final(self)@ == (ArenaModel { used: old(self)@.used + 1, ..old(self)@ })
            } else {
                r is None && final(self)@ == old(self)@
            },
    {
        if self.exhausted() {
            None
        } else {
            Some(self.make_slot())
        }
    }

    /// Is every slot in use?
    pub fn exhausted(&self) -> (r: bool)
        requires
            self@.wf(),
        ensures
            r == (self@.used == self@.slots),
    {
        self.ptr >= self.cnt
    }
}

/// Slots that an arena hands out at different times do not overlap and lie within the allocation.
pub proof fn law_slots_disjoint(arena: ArenaModel, i: nat, j: nat)
    requires
        arena.wf(),
        i < j < arena.slots,
    ensures
        i * arena.slot_bytes + arena.slot_bytes <= j * arena.slot_bytes,
        j * arena.slot_bytes + arena.slot_bytes <= arena.slot_bytes * arena.slots,
{
    let b = arena.slot_bytes;
    let n = arena.slots;
    assert(i * b + b <= j * b && j * b + b <= b * n) by (nonlinear_arith)
        requires
            i + 1 <= j,
            j + 1 <= n,
    ;
}

/// An arena hands out slots one after the other: with some more in use, the next one starts past the
/// end of the last; the first starts at the start, and the last ends at the end.
pub proof fn law_slots_in_order(a: ArenaModel, b: ArenaModel)
    requires
        a.wf(),
        b.wf(),
        b.slot_bytes == a.slot_bytes,
        b.slots == a.slots,
        a.used < b.used < b.slots,
    ensures
        a.next_start() + a.slot_bytes <= b.next_start(),
        b.next_start() + b.slot_bytes <= b.bytes(),
        a.used == 0 ==> a.next_start() == 0,
        b.used == a.used + 1 ==> b.next_start() == a.next_start() + a.slot_bytes,
        b.used == b.slots - 1 ==> b.next_start() + b.slot_bytes == b.bytes(),
{
    law_slots_disjoint(a, a.used, b.used);
    let (u, v, k, n) = (a.used, b.used, a.slot_bytes, a.slots);
    assert((u + 1) * k == u * k + k && 0 * k == 0 && (v + 1) * k == v * k + k && n * k == k * n)
        by (nonlinear_arith);
}

/// A slot starts at a multiple of the alignment.
pub proof fn law_slot_aligned(size: u64, alignment: u64, i: nat)
    requires
        is_alignment(alignment),
    ensures
        (i * aligned_up(size, alignment)) % (alignment as int) == 0,
        aligned_up(size, alignment) == 0 || aligned_up(size, alignment) >= size,
{
    let k = choose|k: nat| k < 64 && alignment == #[trigger] pow2(k);
    vstd::arithmetic::power2::lemma_pow2_pos(k);
    let a = alignment as int;
    let q = (size + a - 1) / a;
    let up = aligned_up(size, alignment);
    let n = i as int;
    if up == 0 {
        assert(n * up == 0) by (nonlinear_arith)
            requires
                up == 0,
        ;
    } else {
        assert(n * (q * a) == (n * q) * a) by (nonlinear_arith);
        vstd::arithmetic::div_mod::lemma_mod_multiples_basic(n * q, a);
        let s = size as int;
        vstd::arithmetic::div_mod::lemma_fundamental_div_mod(s + a - 1, a);
        assert((s + a - 1) % a < a) by (nonlinear_arith)
            requires
                a > 0,
        ;
        assert(a * q == q * a) by (nonlinear_arith);
    }
}

/// Where a tile image is to go.
#[derive(Debug, Clone, Copy, PartialEq, Eq, Structural)]
pub enum TileSource {
    /// To this offset in the memory of the current arena.
    Slot(u64),
    /// Into the first slot of a new arena, which has to be allocated.
    NewArena,
    /// Nowhere.
    Nothing,
}

/// The memory for tile images: the arena in use, and how many there have been.
#[derive(Debug, Clone, Copy, PartialEq, Eq, Structural)]
pub struct TilePool {
    cur_arena: Option<TileArena>,
    arena_count: u32,
}

/// What a pool is.
pub struct PoolModel {
    pub arena: Option<ArenaModel>,
    pub arenas: nat,
}

impl PoolModel {
    pub open spec fn wf(self) -> bool {
        self.arena matches Some(a) ==> a.wf()
    }

    /// There is an arena, and every slot of it is in use.
    pub open spec fn exhausted(self) -> bool {
        self.arena matches Some(a) && a.used == a.slots
    }

    /// Where the next tile goes, if memory that is allocated already is preferred to new memory
    /// and new memory is not taken while there is an arena.
    pub open spec fn source(self) -> TileSource {
        match self.arena {
            None => TileSource::NewArena,
            Some(a) => if a.used < a.slots {
                TileSource::Slot((a.used * a.slot_bytes) as u64)
            } else {
                TileSource::Nothing
            },
        }
    }

    /// The pool after the slot that `source` names was put to use.
    pub open spec fn advanced(self) -> PoolModel {
        match self.arena {
            Some(a) if a.used < a.slots => PoolModel {
                arena: Some(ArenaModel { used: a.used + 1, ..a }),
                ..self
            },
            _ => self,
        }
    }
}

impl View for TilePool {
    type V = PoolModel;

    closed spec fn view(&self) -> PoolModel {
        PoolModel {
            arena: match self.cur_arena {
                Some(a) => Some(a@),
                None => None,
            },
            arenas: self.arena_count as nat,
        }
    }
}

impl TilePool {
    /// A pool without memory.
    pub fn new() -> (r: Self)
        ensures
            r@.wf(),
            r@ == (PoolModel { arena: None, arenas: 0 }),
    {
        TilePool { cur_arena: None, arena_count: 0 }
    }

    /// The arena in use.
    pub fn arena(&self) -> (r: Option<TileArena>)
        ensures
            match r {
                Some(a) => self@.arena == Some(a@),
                None => self@.arena is None,
            },
    {
        self.cur_arena
    }

    /// How many arenas there have been.
    pub fn arena_count(&self) -> (r: u32)
        ensures
            r == self@.arenas,
    {
        self.arena_count
    }

    /// Is there an arena with every slot in use?
    pub fn exhausted(&self) -> (r: bool)
        requires
            self@.wf(),
        ensures
            r == self@.exhausted(),
    {
        match &self.cur_arena {
            Some(arena) => arena.exhausted(),
            None => false,
        }
    }

    /// A slot of the arena in use, a new arena if there is none, or nothing if all slots are in
    /// use.
    pub fn try_allocate(&mut self) -> (r: TileSource)
        requires
            old(self)@.wf(),
        ensures
            final(self)@.wf(),
            r == old(self)@.source(),
            final(self)@ == old(self)@.advanced(),
    {
        if let Some(arena) = &mut self.cur_arena {
            match arena.make() {
                Some(offset) => TileSource::Slot(offset),
                None => TileSource::Nothing,
            }
        } else {
            TileSource::NewArena
        }
    }

    /// Like `try_allocate`, but with a new arena in place of nothing where the heap has room.
    pub fn try_allocate_smart(&mut self, budget: &HeapBudget, heap_index: usize) -> (r: TileSource)
        requires
            old(self)@.wf(),
            old(self)@.exhausted() ==> budget.use_doubles(heap_index as int),
        ensures
            final(self)@.wf(),
            r == (if old(self)@.source() is Nothing && budget.has_room(heap_index as int) {
                TileSource::NewArena
            } else {
                old(self)@.source()
            }),
            r is Nothing ==> old(self)@.exhausted() && !budget.has_room(heap_index as int),
            r is Slot <==> old(self)@.source() is Slot,
            final(self)@ == old(self)@.advanced(),
    {
        match self.try_allocate() {
            TileSource::Nothing => if should_allocate(budget, heap_index) {
                TileSource::NewArena
            } else {
                TileSource::Nothing
            },
            source => source,
        }
    }

    /// Takes a new arena into use and gives the offset of its first slot, which is in use.
    pub fn allocate_from_new_arena(&mut self, size: u64, alignment: u64) -> (r: u64)
        requires
            old(self)@.wf(),
            old(self)@.arenas < u32::MAX,
            is_alignment(alignment),
            aligned_up(size, alignment) * ARENA_SIZE <= u64::MAX,
        ensures
            final(self)@.wf(),
            r == 0,
            final(self)@ == (PoolModel {
                arena: Some(
                    ArenaModel {
                        slot_bytes: aligned_up(size, alignment) as nat,
                        tile_pixels: TILE_SIZE as nat,
                        used: 1,
                        slots: ARENA_SIZE as nat,
                    },
                ),
                arenas: old(self)@.arenas + 1,
            }),
            final(self)@ == old(self)@.renewed(size, alignment),
    {
        let (new_arena, offset) = TileArena::new_default(size, alignment);
        self.cur_arena = Some(new_arena);
        self.arena_count = self.arena_count + 1;
        offset
    }

    /// Like `try_allocate`, but with a new arena in place of nothing.
    pub fn allocate(&mut self) -> (r: TileSource)
        requires
            old(self)@.wf(),
        ensures
            final(self)@.wf(),
            r == (if old(self)@.source() is Nothing {
                TileSource::NewArena
            } else {
                old(self)@.source()
            }),
            !(r is Nothing),
            final(self)@ == old(self)@.advanced(),
    {
        match self.try_allocate() {
            TileSource::Nothing => TileSource::NewArena,
            source => source,
        }
    }
}

/// The memory type for tiles is one that is allowed; the first such on the device, or, only if none
/// is, the first such.
pub proof fn law_tile_memory(types: Seq<MemoryType>, bits: u32, r: Option<u32>, j: int)
    requires
        types.len() <= MAX_MEMORY_TYPES,
        first_choice(types, bits, MemoryUse::DeviceLocal, MemoryUse::Any, r),
        0 <= j < types.len(),
        allowed(bits, j),
    ensures
        r matches Some(i) && {
            &&& i < types.len()
            &&& allowed(bits, i as int)
            &&& types[j].device_local ==> types[i as int].device_local && i <= j
            &&& !types[i as int].device_local ==> i <= j
        },
{
    assert(usable(types, bits, MemoryUse::Any)(j));
    assert(usable(types, bits, MemoryUse::DeviceLocal)(j) == types[j].device_local);
}

/// No memory type is chosen for tiles that is not allowed.
pub proof fn law_tile_memory_sound(types: Seq<MemoryType>, bits: u32, i: u32)
    requires
        types.len() <= MAX_MEMORY_TYPES,
        first_choice(types, bits, MemoryUse::DeviceLocal, MemoryUse::Any, Some(i)),
    ensures
        i < types.len(),
        allowed(bits, i as int),
{
}

/// A slot is as long as one image needs, rounded up to the alignment and by no more than that, unless
/// that is too long.
pub proof fn law_slot_fits(size: u64, alignment: u64)
    requires
        is_alignment(alignment),
    ensures
        size + alignment - 1 <= u64::MAX ==> size <= aligned_up(size, alignment) < size + alignment,
{
    let k = choose|k: nat| k < 64 && alignment == #[trigger] pow2(k);
    vstd::arithmetic::power2::lemma_pow2_pos(k);
    let (s, a) = (size as int, alignment as int);
    vstd::arithmetic::div_mod::lemma_fundamental_div_mod(s + a - 1, a);
    let q = (s + a - 1) / a;
    assert(0 <= (s + a - 1) % a < a) by (nonlinear_arith)
        requires
            a > 0,
    ;
    assert(a * q == q * a) by (nonlinear_arith);
}

impl PoolModel {
    /// The pool with a new arena, of which the first slot is in use.
    pub open spec fn renewed(self, size: u64, alignment: u64) -> PoolModel {
        PoolModel {
            arena: Some(
                ArenaModel {
                    slot_bytes: aligned_up(size, alignment) as nat,
                    tile_pixels: TILE_SIZE as nat,
                    used: 1,
                    slots: ARENA_SIZE as nat,
                },
            ),
            arenas: self.arenas + 1,
        }
    }

    /// The pool after a number of tiles were allocated.
    pub open spec fn advanced_by(self, n: nat) -> PoolModel
        decreases n,
    {
        if n == 0 {
            self
        } else {
            self.advanced_by((n - 1) as nat).advanced()
        }
    }
}

proof fn lemma_advanced_by(p: PoolModel, n: nat)
    requires
        p.wf(),
    ensures
        p.advanced_by(n).arenas == p.arenas,
        match p.arena {
            None => p.advanced_by(n).arena is None,
            Some(a) => p.advanced_by(n).arena == Some(
                ArenaModel {
                    used: if a.used + n <= a.slots {
                        a.used + n
                    } else {
                        a.slots
                    },
                    ..a
                },
            ),
        },
    decreases n,
{
    if n > 0 {
        lemma_advanced_by(p, (n - 1) as nat);
    }
}

/// A pool hands out the slots of its arena, each once: of two tiles the later gets a slot that starts
/// after the end of the earlier one's, and ends within the arena.
pub proof fn law_pool_slots_disjoint(p: PoolModel, i: nat, j: nat, x: u64, y: u64)
    requires
        p.wf(),
        i < j,
        p.advanced_by(i).source() == TileSource::Slot(x),
        p.advanced_by(j).source() == TileSource::Slot(y),
    ensures
        p.arena matches Some(a) && x + a.slot_bytes <= y && y + a.slot_bytes <= a.slot_bytes * a.slots,
{
    lemma_advanced_by(p, i);
    lemma_advanced_by(p, j);
    let a = p.arena->0;
    let (u, v) = (a.used + i, a.used + j);
    law_slots_disjoint(a, u, v);
    let (b, n) = (a.slot_bytes, a.slots);
    assert(u * b <= b * n && v * b <= b * n) by (nonlinear_arith)
        requires
            u <= n,
            v <= n,
    ;
}

/// A pool hands out a slot of its arena just as long as there are some that are not in use; then it
/// has nothing, and is exhausted. Without an arena it asks for one.
pub proof fn law_pool_runs_dry(p: PoolModel, n: nat)
    requires
        p.wf(),
    ensures
        match p.arena {
            None => p.advanced_by(n).source() is NewArena && !p.advanced_by(n).exhausted(),
            Some(a) => if a.used + n < a.slots {
                p.advanced_by(n).source() is Slot && !p.advanced_by(n).exhausted()
            } else {
                p.advanced_by(n).source() is Nothing && p.advanced_by(n).exhausted()
            },
        },
        p.advanced_by(n).arenas == p.arenas,
{
    lemma_advanced_by(p, n);
}

/// A new arena has room for 1024 tiles of 256 pixels a side, the one that it was made for among them.
/// Each slot starts at a multiple of the alignment, past the first one, and is long enough.
pub proof fn law_new_arena(p: PoolModel, size: u64, alignment: u64, n: nat)
    requires
        is_alignment(alignment),
        size + alignment - 1 <= u64::MAX,
        aligned_up(size, alignment) * 1024 <= u64::MAX,
    ensures
        ({
            let fresh = p.renewed(size, alignment);
            &&& fresh.wf()
            &&& fresh.arenas == p.arenas + 1
            &&& fresh.arena matches Some(a) && a.slots == 1024 && a.tile_pixels == 256 && a.slot_bytes
                >= size
            &&& fresh.advanced_by(n).source() is Slot <==> n < 1023
            &&& fresh.advanced_by(n).source() matches TileSource::Slot(offset) ==> offset % alignment
                == 0 && offset >= size
        }),
{
    let fresh = p.renewed(size, alignment);
    law_slot_fits(size, alignment);
    let b = aligned_up(size, alignment) as nat;
    assert(fresh.wf());
    lemma_advanced_by(fresh, n);
    if n < 1023 {
        let u = (1 + n) as nat;
        law_slot_aligned(size, alignment, u);
        assert(u * b <= b * 1024 && u * b >= b) by (nonlinear_arith)
            requires
                1 <= u <= 1024,
                b >= 0,
        ;
    }
}

} // verus!
