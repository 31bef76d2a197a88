use zone_alloc::allocator::MemoryAllocator;
use zone_alloc::handle::AllocError;
use zone_alloc::tag::PurgeTag;

fn layout(zone: &MemoryAllocator) -> Vec<(usize, usize, Option<PurgeTag>)> {
    zone.blocks().iter().map(|b| (b.offset(), b.size(), b.tag())).collect()
}

#[test]
fn purge_at_the_purge_level_drops_what_is_purgeable() {
    let mut zone = MemoryAllocator::init(64).unwrap();
    let a = zone.allocate(10, PurgeTag::Static).unwrap();
    let b = zone.allocate(10, PurgeTag::PurgeLevel).unwrap();
    let c = zone.allocate(10, PurgeTag::Level).unwrap();
    let d = zone.allocate(10, PurgeTag::Cache).unwrap();
    assert_eq!(zone.purge(100), 2);
    assert!(zone.is_valid(a));
    assert!(!zone.is_valid(b));
    assert!(zone.is_valid(c));
    assert!(!zone.is_valid(d));
    assert_eq!(
        layout(&zone),
        vec![
            (0, 10, Some(PurgeTag::Static)),
            (10, 10, None),
            (20, 10, Some(PurgeTag::Level)),
            (30, 34, None)
        ]
    );
}

#[test]
fn purge_above_every_tag_drops_nothing() {
    let mut zone = MemoryAllocator::init(64).unwrap();
    let a = zone.allocate(10, PurgeTag::Cache).unwrap();
    let before = layout(&zone);
    assert_eq!(zone.purge(102), 0);
    assert_eq!(layout(&zone), before);
    assert!(zone.is_valid(a));
}

#[test]
fn purge_at_the_cache_value_drops_only_cache() {
    let mut zone = MemoryAllocator::init(64).unwrap();
    let a = zone.allocate(10, PurgeTag::PurgeLevel).unwrap();
    let b = zone.allocate(10, PurgeTag::Cache).unwrap();
    assert_eq!(zone.purge(101), 1);
    assert!(zone.is_valid(a));
    assert!(!zone.is_valid(b));
    assert_eq!(layout(&zone), vec![(0, 10, Some(PurgeTag::PurgeLevel)), (10, 54, None)]);
}

#[test]
fn purge_below_the_purge_level_drops_level_data_too() {
    let mut zone = MemoryAllocator::init(64).unwrap();
    let a = zone.allocate(10, PurgeTag::Music).unwrap();
    let b = zone.allocate(10, PurgeTag::Level).unwrap();
    let c = zone.allocate(10, PurgeTag::LevelSpecial).unwrap();
    let d = zone.allocate(10, PurgeTag::Cache).unwrap();
    assert_eq!(zone.purge(50), 3);
    assert!(zone.is_valid(a));
    assert!(!zone.is_valid(b));
    assert!(!zone.is_valid(c));
    assert!(!zone.is_valid(d));
    assert_eq!(layout(&zone), vec![(0, 10, Some(PurgeTag::Music)), (10, 54, None)]);
}

#[test]
fn purge_of_everything_leaves_one_free_block() {
    let mut zone = MemoryAllocator::init(64).unwrap();
    for tag in [PurgeTag::Static, PurgeTag::Sound, PurgeTag::Cache, PurgeTag::Level] {
        zone.allocate(16, tag).unwrap();
    }
    assert_eq!(zone.purge(0), 4);
    assert_eq!(layout(&zone), vec![(0, 64, None)]);
    assert_eq!(zone.purge(0), 0);
}

#[test]
fn purge_merges_as_it_goes() {
    let mut zone = MemoryAllocator::init(64).unwrap();
    let a = zone.allocate(16, PurgeTag::Cache).unwrap();
    let b = zone.allocate(16, PurgeTag::Cache).unwrap();
    let c = zone.allocate(16, PurgeTag::Static).unwrap();
    let d = zone.allocate(16, PurgeTag::Cache).unwrap();
    assert_eq!(zone.purge(100), 3);
    assert_eq!(layout(&zone), vec![(0, 32, None), (32, 16, Some(PurgeTag::Static)), (48, 16, None)]);
    assert!(!zone.is_valid(a) && !zone.is_valid(b) && !zone.is_valid(d));
    assert!(zone.is_valid(c));
}

#[test]
fn protected_blocks_survive_a_purge_at_the_purge_level() {
    let mut zone = MemoryAllocator::init(128).unwrap();
    let tags = [PurgeTag::Static, PurgeTag::Sound, PurgeTag::Music, PurgeTag::Level, PurgeTag::LevelSpecial];
    let mut held = Vec::new();
    for tag in tags {
        held.push((zone.allocate(10, tag).unwrap(), tag));
        zone.allocate(10, PurgeTag::Cache).unwrap();
    }
    assert_eq!(zone.purge(100), 5);
    for (h, tag) in held {
        assert_eq!(zone.tag_of(h), Ok(tag));
        assert_eq!(zone.size_of(h), Ok(10));
    }
}

#[test]
fn change_tag_keeps_the_block_in_place() {
    let mut zone = MemoryAllocator::init(64).unwrap();
    let a = zone.allocate(16, PurgeTag::Cache).unwrap();
    let b = zone.allocate(16, PurgeTag::Level).unwrap();
    assert_eq!(zone.change_tag(a, PurgeTag::Static), Ok(()));
    assert_eq!(zone.tag_of(a), Ok(PurgeTag::Static));
    assert_eq!(zone.size_of(a), Ok(16));
    assert_eq!(
        layout(&zone),
        vec![(0, 16, Some(PurgeTag::Static)), (16, 16, Some(PurgeTag::Level)), (32, 32, None)]
    );
    assert!(zone.is_valid(b));
}

#[test]
fn promoted_block_is_no_longer_evicted() {
    let mut zone = MemoryAllocator::init(64).unwrap();
    let a = zone.allocate(64, PurgeTag::Cache).unwrap();
    assert_eq!(zone.change_tag(a, PurgeTag::Static), Ok(()));
    assert_eq!(zone.allocate(10, PurgeTag::Level), Err(AllocError::OutOfMemory));
    assert!(zone.is_valid(a));
    assert_eq!(zone.purge(100), 0);
}

#[test]
fn demoted_block_is_evicted_under_pressure() {
    let mut zone = MemoryAllocator::init(64).unwrap();
    let a = zone.allocate(64, PurgeTag::Level).unwrap();
    assert_eq!(zone.allocate(10, PurgeTag::Static), Err(AllocError::OutOfMemory));
    assert_eq!(zone.change_tag(a, PurgeTag::Cache), Ok(()));
    let b = zone.allocate(10, PurgeTag::Static).unwrap();
    assert!(!zone.is_valid(a));
    assert_eq!(b.offset(), 0);
}

#[test]
fn change_tag_of_a_released_block_fails() {
    let mut zone = MemoryAllocator::init(64).unwrap();
    let a = zone.allocate(16, PurgeTag::Level).unwrap();
    zone.free(a).unwrap();
    let before = layout(&zone);
    assert_eq!(zone.change_tag(a, PurgeTag::Static), Err(AllocError::InvalidHandle));
    assert_eq!(layout(&zone), before);
}

#[test]
fn queries_on_a_released_block_fail() {
    let mut zone = MemoryAllocator::init(64).unwrap();
    let a = zone.allocate(16, PurgeTag::Level).unwrap();
    assert!(zone.is_valid(a));
    zone.free(a).unwrap();
    assert!(!zone.is_valid(a));
    assert_eq!(zone.size_of(a), Err(AllocError::InvalidHandle));
    assert_eq!(zone.tag_of(a), Err(AllocError::InvalidHandle));
    assert_eq!(zone.read(a, 0), Err(AllocError::InvalidHandle));
    assert_eq!(zone.write(a, 0, 1), Err(AllocError::InvalidHandle));
}
