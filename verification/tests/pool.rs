use fractal_tiles::compute;
use fractal_tiles::memory::{first_usable, should_allocate, HeapBudget, MemoryType, MemoryUse};
use fractal_tiles::pool::{find_memory_type, TileArena, TilePool, TileSource, ARENA_SIZE};

const LOCAL: MemoryType =
    MemoryType { device_local: true, host_visible: false, host_coherent: false, host_cached: false };
const HOST: MemoryType =
    MemoryType { device_local: false, host_visible: true, host_coherent: true, host_cached: false };
const CACHED: MemoryType =
    MemoryType { device_local: false, host_visible: true, host_coherent: true, host_cached: true };

#[test]
fn tiles_prefer_device_memory() {
    let types = vec![HOST, LOCAL, CACHED, LOCAL];
    assert_eq!(find_memory_type(&types, 0b1111), Some(1));
    assert_eq!(find_memory_type(&types, 0b1101), Some(3));
    assert_eq!(find_memory_type(&types, 0b0101), Some(0));
    assert_eq!(find_memory_type(&types, 0b0100), Some(2));
    assert_eq!(find_memory_type(&types, 0b10000), None);
    assert_eq!(find_memory_type(&vec![], u32::MAX), None);
}

#[test]
fn read_back_prefers_cached_memory() {
    let types = vec![LOCAL, HOST, CACHED, CACHED];
    assert_eq!(compute::find_memory_type(&types, 0b1111), Some(2));
    assert_eq!(compute::find_memory_type(&types, 0b1011), Some(3));
    assert_eq!(compute::find_memory_type(&types, 0b0011), Some(1));
    assert_eq!(compute::find_memory_type(&types, 0b0001), None);
}

#[test]
fn the_last_of_all_memory_types_is_found() {
    let mut types = vec![HOST; 32];
    types[31] = LOCAL;
    assert_eq!(first_usable(&types, 1 << 31, MemoryUse::DeviceLocal), Some(31));
    assert_eq!(first_usable(&types, 1 << 30, MemoryUse::DeviceLocal), None);
}

fn budget(heap_count: usize) -> HeapBudget {
    let mut b = HeapBudget { heap_usage: [10; 16], heap_budget: [21; 16], heap_count };
    b.heap_budget[1] = 20;
    b.heap_usage[2] = 0;
    b
}

#[test]
fn memory_is_taken_while_less_than_half_is_in_use() {
    assert!(should_allocate(&budget(3), 0));
    assert!(!should_allocate(&budget(3), 1));
    assert!(!should_allocate(&budget(3), 2));
    assert!(!should_allocate(&budget(3), 3));
    assert!(should_allocate(&budget(16), 15));
    assert!(!should_allocate(&budget(17), 0));
}

#[test]
fn doubling_matters_for_heaps_there_are() {
    let mut b = budget(3);
    b.heap_usage[2] = u64::MAX / 2;
    assert!(b.doubles(2));
    b.heap_usage[2] = u64::MAX / 2 + 1;
    assert!(!b.doubles(2));
    assert!(b.doubles(0));
    b.heap_count = 2;
    assert!(b.doubles(2));
    assert!(b.doubles(99));
    b.heap_count = 17;
    assert!(b.doubles(2));
}

#[test]
fn slots_are_aligned_and_follow_one_another() {
    let (mut arena, offset) = TileArena::new(256, 3, 131073, 65536);
    assert_eq!(offset, 0);
    assert_eq!(arena.slot_size(), 196608);
    assert_eq!(arena.tile_size(), 256);
    assert_eq!(arena.allocation_size(), 3 * 196608);
    assert!(!arena.exhausted());
    assert_eq!(arena.make(), Some(196608));
    assert_eq!(arena.make(), Some(2 * 196608));
    assert!(arena.exhausted());
    assert_eq!(arena.make(), None);
    assert_eq!(arena.make(), None);
}

#[test]
fn a_multiple_of_the_alignment_stays() {
    let (arena, _) = TileArena::new_default(131072, 65536);
    assert_eq!(arena.slot_size(), 131072);
    assert_eq!(arena.allocation_size(), 131072 * ARENA_SIZE as u64);
    let (odd, _) = TileArena::new(256, 1, 17, 1);
    assert_eq!(odd.slot_size(), 17);
}

#[test]
fn aligning_past_the_end_gives_zero() {
    let (arena, _) = TileArena::new(256, 2, u64::MAX, 2);
    assert_eq!(arena.slot_size(), 0);
    assert_eq!(arena.allocation_size(), 0);
}

#[test]
fn an_arena_of_one_tile_is_used_up_at_once() {
    let (mut arena, _) = TileArena::new(256, 1, 100, 4);
    assert!(arena.exhausted());
    assert_eq!(arena.make(), None);
}

#[test]
fn pool_without_memory_asks_for_an_arena() {
    let mut pool = TilePool::new();
    assert!(!pool.exhausted());
    assert!(pool.arena().is_none());
    assert_eq!(pool.try_allocate(), TileSource::NewArena);
    assert_eq!(pool.allocate(), TileSource::NewArena);
    assert_eq!(pool.arena_count(), 0);
    assert_eq!(pool.allocate_from_new_arena(100, 64), 0);
    assert_eq!(pool.arena_count(), 1);
    assert_eq!(pool.arena().unwrap().slot_size(), 128);
    assert_eq!(pool.try_allocate(), TileSource::Slot(128));
    assert_eq!(pool.allocate(), TileSource::Slot(256));
    assert_eq!(pool.try_allocate_smart(&budget(3), 1), TileSource::Slot(384));
}

#[test]
fn used_up_pool_grows_where_there_is_room() {
    let mut pool = TilePool::new();
    pool.allocate_from_new_arena(64, 64);
    for _ in 1..ARENA_SIZE {
        assert!(matches!(pool.try_allocate(), TileSource::Slot(_)));
    }
    assert!(pool.exhausted());
    assert_eq!(pool.try_allocate(), TileSource::Nothing);
    assert_eq!(pool.try_allocate_smart(&budget(3), 0), TileSource::NewArena);
    assert_eq!(pool.try_allocate_smart(&budget(3), 1), TileSource::Nothing);
    assert_eq!(pool.allocate(), TileSource::NewArena);
    pool.allocate_from_new_arena(64, 64);
    assert_eq!(pool.arena_count(), 2);
    assert_eq!(pool.try_allocate(), TileSource::Slot(64));
}
