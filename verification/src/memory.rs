//! Choosing where in graphics memory things go.

use vstd::prelude::*;

verus! {

/// What a memory type of the device is good for.
#[derive(Debug, Clone, Copy, PartialEq, Eq, Structural)]
pub struct MemoryType {
    pub device_local: bool,
    pub host_visible: bool,
    pub host_coherent: bool,
    pub host_cached: bool,
}

impl MemoryType {
    /// The host can read it without further ado, and fast.
    pub open spec fn host_readable_cached(self) -> bool {
        self.host_visible && self.host_coherent && self.host_cached
    }

    /// The host can read it without further ado.
    pub open spec fn host_readable(self) -> bool {
        self.host_visible && self.host_coherent
    }
}

/// The most memory types that a device has.
pub const MAX_MEMORY_TYPES: usize = 32;

/// Bit `i` of the mask is set.
pub open spec fn allowed(memory_type_bits: u32, i: int) -> bool {
    memory_type_bits & (1u32 << (i as u32)) != 0
}

/// `r` is the least number below `n` with the property, if there is one.
pub open spec fn is_first(p: spec_fn(int) -> bool, n: int, r: Option<u32>) -> bool {
    match r {
        Some(i) => i < n && p(i as int) && forall|j: int| 0 <= j < i ==> !#[trigger] p(j),
        None => forall|j: int| 0 <= j < n ==> !#[trigger] p(j),
    }
}

/// Which memory types to look for.
#[derive(Debug, Clone, Copy, PartialEq, Eq, Structural)]
pub enum MemoryUse {
    /// The host can read it without further ado, and fast.
    HostReadCached,
    /// The host can read it without further ado.
    HostRead,
    /// It is on the device.
    DeviceLocal,
    /// Any will do.
    Any,
}

impl MemoryUse {
    /// The memory type is of use.
    pub open spec fn fits(self, t: MemoryType) -> bool {
        match self {
            MemoryUse::HostReadCached => t.host_readable_cached(),
            MemoryUse::HostRead => t.host_readable(),
            MemoryUse::DeviceLocal => t.device_local,
            MemoryUse::Any => true,
        }
    }

    fn check(&self, t: &MemoryType) -> (r: bool)
        ensures
            r == self.fits(*t),
    {
        match self {
            MemoryUse::HostReadCached => t.host_visible && t.host_coherent && t.host_cached,
            MemoryUse::HostRead => t.host_visible && t.host_coherent,
            MemoryUse::DeviceLocal => t.device_local,
            MemoryUse::Any => true,
        }
    }
}

/// The memory type at an index is allowed and of use.
pub open spec fn usable(types: Seq<MemoryType>, memory_type_bits: u32, wanted: MemoryUse) -> spec_fn(
    int,
) -> bool {
    |i: int| allowed(memory_type_bits, i) && wanted.fits(types[i])
}

/// The first allowed memory type that is of use.
pub fn first_usable(types: &Vec<MemoryType>, memory_type_bits: u32, wanted: MemoryUse) -> (r: Option<
    u32,
>)
    requires
        types@.len() <= MAX_MEMORY_TYPES,
    ensures
        is_first(usable(types@, memory_type_bits, wanted), types@.len() as int, r),
{
    let mut i: usize = 0;
    while i < types.len()
        invariant
            i <= types@.len() <= MAX_MEMORY_TYPES,
            forall|j: int| 0 <= j < i ==> !#[trigger] usable(types@, memory_type_bits, wanted)(j),
        decreases types@.len() - i,
    {
        let bit: u32 = i as u32;
        if memory_type_bits & (1u32 << bit) != 0 && wanted.check(&types[i]) {
            return Some(bit);
        }
        i = i + 1;
    }
    None
}

/// The most memory heaps that a device has.
pub const MAX_MEMORY_HEAPS: usize = 16;

/// How much of each memory heap is in use, and how much may be.
#[derive(Debug, Clone, Copy)]
pub struct HeapBudget {
    pub heap_usage: [u64; MAX_MEMORY_HEAPS],
    pub heap_budget: [u64; MAX_MEMORY_HEAPS],
    /// How many heaps the device says it has.
    pub heap_count: usize,
}

impl HeapBudget {
    /// How many heaps the numbers are good for. A count out of range is not believed.
    pub open spec fn heaps(self) -> int {
        if self.heap_count > MAX_MEMORY_HEAPS {
            0
        } else {
            self.heap_count as int
        }
    }

    /// There is room for as much again as is in use, and something is in use.
    pub open spec fn has_room(self, heap_index: int) -> bool {
        &&& 0 <= heap_index < self.heaps()
        &&& self.heap_usage@[heap_index] > 0
        &&& self.heap_budget@[heap_index] > 2 * self.heap_usage@[heap_index]
    }

    /// Twice the use of the heap is a number of bytes.
    pub open spec fn use_doubles(self, heap_index: int) -> bool {
        0 <= heap_index < self.heaps() ==> 2 * self.heap_usage@[heap_index] <= u64::MAX
    }
}

impl HeapBudget {
    /// How many heaps the numbers are good for. A count out of range is not believed.
    fn heap_len(&self) -> (r: usize)
        ensures
            r == self.heaps(),
    {
        if self.heap_count > MAX_MEMORY_HEAPS {
            0
        } else {
            self.heap_count
        }
    }

    /// Is twice the use of the heap a number of bytes?
    pub fn doubles(&self, heap_index: usize) -> (r: bool)
        ensures
            r == self.use_doubles(heap_index as int),
    {
        heap_index >= self.heap_len() || self.heap_usage[heap_index] <= u64::MAX / 2
    }
}

/// May more memory be taken from the heap?
pub fn should_allocate(props: &HeapBudget, heap_index: usize) -> (r: bool)
    requires
        props.use_doubles(heap_index as int),
    ensures
        r == props.has_room(heap_index as int),
{
    if heap_index >= props.heap_len() {
        return false;
    }
    let usage: u64 = props.heap_usage[heap_index];
    usage > 0 && props.heap_budget[heap_index] > usage * 2
}

/// The first allowed memory type of a use, or, where there is none, the first allowed one of another.
pub open spec fn first_choice(
    types: Seq<MemoryType>,
    memory_type_bits: u32,
    first: MemoryUse,
    second: MemoryUse,
    r: Option<u32>,
) -> bool {
    if exists|j: int| 0 <= j < types.len() && #[trigger] usable(types, memory_type_bits, first)(j) {
        is_first(usable(types, memory_type_bits, first), types.len() as int, r)
    } else {
        is_first(usable(types, memory_type_bits, second), types.len() as int, r)
    }
}

/// A memory type is allowed just if its bit of the mask is set: setting the bit allows it, clearing
/// the bit forbids it, and neither matters to another.
pub proof fn law_allowed(bits: u32, i: u32, j: u32)
    requires
        i < 32,
        j < 32,
        i != j,
    ensures
        allowed(bits, i as int) <==> (bits >> i) % 2 == 1,
        allowed(bits | (1u32 << i), i as int),
        !allowed(bits & !(1u32 << i), i as int),
        allowed(bits | (1u32 << i), j as int) == allowed(bits, j as int),
        allowed(bits & !(1u32 << i), j as int) == allowed(bits, j as int),
        !allowed(0, i as int),
{
    assert(bits & (1u32 << i) != 0 <==> (bits >> i) % 2 == 1) by (bit_vector)
        requires
            i < 32,
    ;
    assert((bits | (1u32 << i)) & (1u32 << i) != 0 && (bits & !(1u32 << i)) & (1u32 << i) == 0 && 0u32
        & (1u32 << i) == 0) by (bit_vector)
        requires
            i < 32,
    ;
    assert((bits | (1u32 << i)) & (1u32 << j) == bits & (1u32 << j) && (bits & !(1u32 << i)) & (1u32
        << j) == bits & (1u32 << j)) by (bit_vector)
        requires
            i < 32,
            j < 32,
            i != j,
    ;
}

/// There is never room in a heap that the device does not have, or has too many others of, or of
/// which nothing is in use, or whose budget is at most twice its use; otherwise there is.
pub proof fn law_room(b: HeapBudget, heap_index: int)
    requires
        heap_index >= 0,
    ensures
        heap_index >= b.heap_count ==> !b.has_room(heap_index),
        b.heap_count > 16 ==> !b.has_room(heap_index),
        heap_index < b.heap_count <= 16 && b.heap_usage@[heap_index] == 0 ==> !b.has_room(heap_index),
        heap_index < b.heap_count <= 16 && b.heap_budget@[heap_index] <= b.heap_usage@[heap_index]
            + b.heap_usage@[heap_index] ==> !b.has_room(heap_index),
        heap_index < b.heap_count <= 16 && b.heap_usage@[heap_index] > 0 && b.heap_budget@[heap_index]
            >= b.heap_usage@[heap_index] + b.heap_usage@[heap_index] + 1 ==> b.has_room(heap_index),
        b.use_doubles(heap_index) <==> heap_index >= b.heap_count || b.heap_count > 16
            || b.heap_usage@[heap_index] + b.heap_usage@[heap_index] <= u64::MAX,
{
}

/// Where there is room, there is with a larger budget, or with less in use, and in no other heap does
/// that matter.
pub proof fn law_room_grows(a: HeapBudget, b: HeapBudget, heap_index: int)
    requires
        a.heap_count == b.heap_count,
        a.has_room(heap_index),
        a.heap_budget@[heap_index] <= b.heap_budget@[heap_index],
        0 < b.heap_usage@[heap_index] <= a.heap_usage@[heap_index],
    ensures
        b.has_room(heap_index),
{
}

/// What each use asks of a memory type.
pub proof fn law_uses(t: MemoryType, r: MemoryType)
    requires
        r.host_visible == t.host_visible,
        r.host_coherent == t.host_coherent,
    ensures
        MemoryUse::Any.fits(t),
        MemoryUse::DeviceLocal.fits(t) <==> t.device_local,
        MemoryUse::HostRead.fits(t) <==> t.host_visible && t.host_coherent,
        MemoryUse::HostRead.fits(t) == MemoryUse::HostRead.fits(r),
        MemoryUse::HostReadCached.fits(t) <==> MemoryUse::HostRead.fits(t) && t.host_cached,
{
}

} // verus!
