use zone_alloc::allocator::MemoryAllocator;
use zone_alloc::block::Block;
use zone_alloc::handle::AllocError;
use zone_alloc::tag::PurgeTag;
use zone_alloc::zone::MIN_REMAINDER;

fn layout(zone: &MemoryAllocator) -> Vec<(usize, usize, Option<PurgeTag>)> {
    zone.blocks().iter().map(|b| (b.offset(), b.size(), b.tag())).collect()
}

fn last_block(zone: &MemoryAllocator) -> Block {
    *zone.blocks().last().unwrap()
}

#[test]
fn initialize_allocator() {
    let zone = MemoryAllocator::init(64).unwrap();
    let block = zone.blocks()[0];
    assert_eq!(block.size(), 64);
}

#[test]
fn test_allocator_with_varying_allocation_sizes() {
    let mut zone = MemoryAllocator::init(64).unwrap();
    let block = last_block(&zone);
    assert_eq!(
        block.size(),
        64,
        "We are testing that the initial block size {} is equal to {} bytes",
        block.size(),
        64
    );
    let block_2 = zone.allocate(16, PurgeTag::Level).unwrap();
    let block = last_block(&zone);
    assert_eq!(block.size(), 48);
    assert_eq!(zone.size_of(block_2).unwrap(), 16);
    let block_3 = zone.allocate(8, PurgeTag::Cache).unwrap();
    let block = last_block(&zone);
    assert_eq!(block.size(), 40);
    assert_eq!(zone.size_of(block_3).unwrap(), 8);
}

#[test]
fn test_block_no_overlap() {
    let mut zone = MemoryAllocator::init(64).unwrap();
    let block_2 = zone.allocate(16, PurgeTag::Level).unwrap();
    let blocks = zone.blocks();
    let first = blocks[0];
    let second = blocks[1];
    assert_eq!(first.offset(), block_2.offset());
    let last_of_first = first.offset() + first.size() - 1;
    let first_of_second = second.offset();
    assert!(last_of_first < first_of_second);
}

#[test]
fn init_gives_one_free_block_over_the_arena() {
    let zone = MemoryAllocator::init(64).unwrap();
    assert_eq!(zone.capacity(), 64);
    assert_eq!(layout(&zone), vec![(0, 64, None)]);
    assert!(zone.blocks()[0].is_free());
}

#[test]
fn init_of_empty_arena() {
    let mut zone = MemoryAllocator::init(0).unwrap();
    assert_eq!(zone.capacity(), 0);
    assert_eq!(layout(&zone), vec![(0, 0, None)]);
    assert_eq!(zone.allocate(1, PurgeTag::Static), Err(AllocError::OutOfMemory));
    assert_eq!(layout(&zone), vec![(0, 0, None)]);
}

#[test]
fn with_arena_takes_the_bytes_given() {
    let mut zone = MemoryAllocator::with_arena(vec![7u8; 32]);
    assert_eq!(zone.capacity(), 32);
    assert_eq!(layout(&zone), vec![(0, 32, None)]);
    let h = zone.allocate(32, PurgeTag::Sound).unwrap();
    assert_eq!(zone.read(h, 0), Ok(7));
    assert_eq!(zone.read(h, 31), Ok(7));
}

#[test]
fn allocate_level_then_cache_then_free_first() {
    let mut zone = MemoryAllocator::init(64).unwrap();
    let h1 = zone.allocate(16, PurgeTag::Level).unwrap();
    assert_eq!(zone.size_of(h1), Ok(16));
    assert_eq!(layout(&zone), vec![(0, 16, Some(PurgeTag::Level)), (16, 48, None)]);
    let h2 = zone.allocate(8, PurgeTag::Cache).unwrap();
    assert_eq!(zone.size_of(h2), Ok(8));
    assert_eq!(
        layout(&zone),
        vec![(0, 16, Some(PurgeTag::Level)), (16, 8, Some(PurgeTag::Cache)), (24, 40, None)]
    );
    assert_eq!(zone.free(h1), Ok(()));
    assert_eq!(layout(&zone), vec![(0, 16, None), (16, 8, Some(PurgeTag::Cache)), (24, 40, None)]);
}

#[test]
fn full_cache_block_is_evicted_for_static_request() {
    let mut zone = MemoryAllocator::init(64).unwrap();
    let cached = zone.allocate(64, PurgeTag::Cache).unwrap();
    assert_eq!(layout(&zone), vec![(0, 64, Some(PurgeTag::Cache))]);
    let h = zone.allocate(10, PurgeTag::Static).unwrap();
    assert_eq!(layout(&zone), vec![(0, 10, Some(PurgeTag::Static)), (10, 54, None)]);
    assert_eq!(zone.size_of(h), Ok(10));
    assert!(!zone.is_valid(cached));
    assert_eq!(zone.size_of(cached), Err(AllocError::InvalidHandle));
}

#[test]
fn oversized_request_fails_and_leaves_arena_unchanged() {
    let mut zone = MemoryAllocator::init(64).unwrap();
    assert_eq!(zone.allocate(100, PurgeTag::Static), Err(AllocError::OutOfMemory));
    assert_eq!(layout(&zone), vec![(0, 64, None)]);
    let h = zone.allocate(20, PurgeTag::Music).unwrap();
    let before = layout(&zone);
    assert_eq!(zone.allocate(100, PurgeTag::Static), Err(AllocError::OutOfMemory));
    assert_eq!(layout(&zone), before);
    assert!(zone.is_valid(h));
}

#[test]
fn allocator_stays_usable_after_out_of_memory() {
    let mut zone = MemoryAllocator::init(64).unwrap();
    assert_eq!(zone.allocate(65, PurgeTag::Static), Err(AllocError::OutOfMemory));
    let h = zone.allocate(64, PurgeTag::Static).unwrap();
    assert_eq!(zone.size_of(h), Ok(64));
}

#[test]
fn block_is_split_only_when_more_than_the_minimum_is_left() {
    assert_eq!(MIN_REMAINDER, 8);
    // 8 bytes would be left: the whole block is handed out.
    let mut zone = MemoryAllocator::init(24).unwrap();
    let h = zone.allocate(16, PurgeTag::Static).unwrap();
    assert_eq!(zone.size_of(h), Ok(24));
    assert_eq!(layout(&zone), vec![(0, 24, Some(PurgeTag::Static))]);
    // 9 bytes are left: the block is split.
    let mut zone = MemoryAllocator::init(25).unwrap();
    let h = zone.allocate(16, PurgeTag::Static).unwrap();
    assert_eq!(zone.size_of(h), Ok(16));
    assert_eq!(layout(&zone), vec![(0, 16, Some(PurgeTag::Static)), (16, 9, None)]);
}

#[test]
fn allocated_block_is_never_larger_than_request_plus_minimum() {
    let mut zone = MemoryAllocator::init(200).unwrap();
    for size in [1usize, 3, 8, 9, 17, 40, 5, 60] {
        if let Ok(h) = zone.allocate(size, PurgeTag::Level) {
            let got = zone.size_of(h).unwrap();
            assert!(got >= size);
            assert!(got <= size + MIN_REMAINDER);
            assert_eq!(zone.tag_of(h), Ok(PurgeTag::Level));
        }
    }
}

#[test]
fn search_starts_at_the_rover() {
    let mut zone = MemoryAllocator::init(64).unwrap();
    let a = zone.allocate(16, PurgeTag::Static).unwrap();
    let _b = zone.allocate(16, PurgeTag::Static).unwrap();
    zone.free(a).unwrap();
    // The hole at offset 0 fits, but the rover stands on the free block at 32.
    let c = zone.allocate(8, PurgeTag::Static).unwrap();
    assert_eq!(c.offset(), 32);
    assert_eq!(
        layout(&zone),
        vec![
            (0, 16, None),
            (16, 16, Some(PurgeTag::Static)),
            (32, 8, Some(PurgeTag::Static)),
            (40, 24, None)
        ]
    );
}

#[test]
fn search_wraps_round_the_end_of_the_arena() {
    let mut zone = MemoryAllocator::init(64).unwrap();
    let a = zone.allocate(16, PurgeTag::Static).unwrap();
    let _b = zone.allocate(16, PurgeTag::Static).unwrap();
    let _c = zone.allocate(32, PurgeTag::Static).unwrap();
    zone.free(a).unwrap();
    // The rover wrapped to the first block when the last one was taken whole.
    let d = zone.allocate(16, PurgeTag::Sound).unwrap();
    assert_eq!(d.offset(), 0);
    assert_eq!(
        layout(&zone),
        vec![
            (0, 16, Some(PurgeTag::Sound)),
            (16, 16, Some(PurgeTag::Static)),
            (32, 32, Some(PurgeTag::Static))
        ]
    );
}

#[test]
fn search_passes_the_end_to_reach_an_earlier_hole() {
    let mut zone = MemoryAllocator::init(64).unwrap();
    let a = zone.allocate(30, PurgeTag::Static).unwrap();
    let _b = zone.allocate(20, PurgeTag::Static).unwrap();
    zone.free(a).unwrap();
    // The rover stands on the free block of 14 bytes at the end; 20 bytes fit
    // only in the hole at the start.
    let c = zone.allocate(20, PurgeTag::Static).unwrap();
    assert_eq!(c.offset(), 0);
    assert_eq!(
        layout(&zone),
        vec![
            (0, 20, Some(PurgeTag::Static)),
            (20, 10, None),
            (30, 20, Some(PurgeTag::Static)),
            (50, 14, None)
        ]
    );
}

#[test]
fn cache_is_evicted_before_purge_level() {
    let mut zone = MemoryAllocator::init(64).unwrap();
    let level = zone.allocate(32, PurgeTag::PurgeLevel).unwrap();
    let cache = zone.allocate(32, PurgeTag::Cache).unwrap();
    let h = zone.allocate(32, PurgeTag::Static).unwrap();
    assert!(zone.is_valid(level));
    assert!(!zone.is_valid(cache));
    assert_eq!(h.offset(), 32);
    assert_eq!(
        layout(&zone),
        vec![(0, 32, Some(PurgeTag::PurgeLevel)), (32, 32, Some(PurgeTag::Static))]
    );
}

#[test]
fn purge_level_is_evicted_when_cache_is_not_enough() {
    let mut zone = MemoryAllocator::init(64).unwrap();
    let level = zone.allocate(40, PurgeTag::PurgeLevel).unwrap();
    let cache = zone.allocate(24, PurgeTag::Cache).unwrap();
    let h = zone.allocate(50, PurgeTag::Static).unwrap();
    assert!(!zone.is_valid(level));
    assert!(!zone.is_valid(cache));
    assert_eq!(h.offset(), 0);
    assert_eq!(layout(&zone), vec![(0, 50, Some(PurgeTag::Static)), (50, 14, None)]);
}

#[test]
fn equal_tags_are_evicted_in_address_order() {
    let mut zone = MemoryAllocator::init(64).unwrap();
    let first = zone.allocate(32, PurgeTag::Cache).unwrap();
    let second = zone.allocate(32, PurgeTag::Cache).unwrap();
    let h = zone.allocate(32, PurgeTag::Static).unwrap();
    assert!(!zone.is_valid(first));
    assert!(zone.is_valid(second));
    assert_eq!(h.offset(), 0);
}

#[test]
fn evicted_neighbours_are_merged_to_fit() {
    let mut zone = MemoryAllocator::init(64).unwrap();
    let a = zone.allocate(16, PurgeTag::Cache).unwrap();
    let b = zone.allocate(16, PurgeTag::Cache).unwrap();
    let keep = zone.allocate(32, PurgeTag::Static).unwrap();
    let h = zone.allocate(32, PurgeTag::Level).unwrap();
    assert!(!zone.is_valid(a));
    assert!(!zone.is_valid(b));
    assert!(zone.is_valid(keep));
    assert_eq!(
        layout(&zone),
        vec![(0, 32, Some(PurgeTag::Level)), (32, 32, Some(PurgeTag::Static))]
    );
    assert_eq!(zone.size_of(h), Ok(32));
}

#[test]
fn scattered_evictable_bytes_do_not_make_room() {
    let mut zone = MemoryAllocator::init(64).unwrap();
    let a = zone.allocate(16, PurgeTag::Cache).unwrap();
    let keep = zone.allocate(32, PurgeTag::Static).unwrap();
    let b = zone.allocate(16, PurgeTag::Cache).unwrap();
    assert_eq!(zone.allocate(32, PurgeTag::Level), Err(AllocError::OutOfMemory));
    // The evictions made stay made.
    assert!(!zone.is_valid(a));
    assert!(!zone.is_valid(b));
    assert!(zone.is_valid(keep));
    assert_eq!(layout(&zone), vec![(0, 16, None), (16, 32, Some(PurgeTag::Static)), (48, 16, None)]);
}

#[test]
fn eviction_stops_as_soon_as_a_block_fits() {
    let mut zone = MemoryAllocator::init(64).unwrap();
    let a = zone.allocate(20, PurgeTag::Cache).unwrap();
    let b = zone.allocate(20, PurgeTag::Cache).unwrap();
    let c = zone.allocate(24, PurgeTag::Cache).unwrap();
    let h = zone.allocate(20, PurgeTag::Static).unwrap();
    assert!(!zone.is_valid(a));
    assert!(zone.is_valid(b));
    assert!(zone.is_valid(c));
    assert_eq!(h.offset(), 0);
}

#[test]
fn protected_blocks_survive_allocation_pressure() {
    let mut zone = MemoryAllocator::init(64).unwrap();
    let tags = [PurgeTag::Static, PurgeTag::Sound, PurgeTag::Music, PurgeTag::Level, PurgeTag::LevelSpecial];
    let mut held = Vec::new();
    for tag in tags {
        held.push((zone.allocate(10, tag).unwrap(), tag));
    }
    assert_eq!(zone.allocate(20, PurgeTag::Cache), Err(AllocError::OutOfMemory));
    for (h, tag) in held {
        assert!(zone.is_valid(h));
        assert_eq!(zone.size_of(h), Ok(10));
        assert_eq!(zone.tag_of(h), Ok(tag));
    }
}

#[test]
fn new_handle_differs_from_live_handles() {
    let mut zone = MemoryAllocator::init(64).unwrap();
    let a = zone.allocate(16, PurgeTag::Static).unwrap();
    let b = zone.allocate(16, PurgeTag::Static).unwrap();
    assert_ne!(a, b);
    zone.free(a).unwrap();
    let _pad = zone.allocate(32, PurgeTag::Static).unwrap();
    let c = zone.allocate(16, PurgeTag::Static).unwrap();
    assert_eq!(c.offset(), a.offset());
    assert_ne!(c, a);
    assert!(!zone.is_valid(a));
    assert!(zone.is_valid(c));
}
