use zone_alloc::allocator::MemoryAllocator;
use zone_alloc::block::{Block, BlockMetaData};
use zone_alloc::handle::AllocError;
use zone_alloc::tag::{PurgeTag, PURGE_THRESHOLD};

const ALL: [PurgeTag; 7] = [
    PurgeTag::Static,
    PurgeTag::Sound,
    PurgeTag::Music,
    PurgeTag::Level,
    PurgeTag::LevelSpecial,
    PurgeTag::PurgeLevel,
    PurgeTag::Cache,
];

#[test]
fn tag_values() {
    assert_eq!(PurgeTag::Static.value(), 1);
    assert_eq!(PurgeTag::Sound.value(), 2);
    assert_eq!(PurgeTag::Music.value(), 3);
    assert_eq!(PurgeTag::Level.value(), 50);
    assert_eq!(PurgeTag::LevelSpecial.value(), 51);
    assert_eq!(PurgeTag::PurgeLevel.value(), 100);
    assert_eq!(PurgeTag::Cache.value(), 101);
}

#[test]
fn tag_from_value() {
    assert_eq!(PurgeTag::try_from(1u8), Ok(PurgeTag::Static));
    assert_eq!(PurgeTag::try_from(2u8), Ok(PurgeTag::Sound));
    assert_eq!(PurgeTag::try_from(3u8), Ok(PurgeTag::Music));
    assert_eq!(PurgeTag::try_from(50u8), Ok(PurgeTag::Level));
    assert_eq!(PurgeTag::try_from(51u8), Ok(PurgeTag::LevelSpecial));
    assert_eq!(PurgeTag::try_from(100u8), Ok(PurgeTag::PurgeLevel));
    assert_eq!(PurgeTag::try_from(101u8), Ok(PurgeTag::Cache));
}

#[test]
fn tag_from_value_round_trips_and_rejects_the_rest() {
    for v in 0..=255u8 {
        match PurgeTag::try_from(v) {
            Ok(tag) => assert_eq!(tag.value(), v),
            Err(()) => assert!(ALL.iter().all(|t| t.value() != v)),
        }
    }
    assert_eq!(PurgeTag::try_from(0u8), Err(()));
    assert_eq!(PurgeTag::try_from(4u8), Err(()));
    assert_eq!(PurgeTag::try_from(99u8), Err(()));
    assert_eq!(PurgeTag::try_from(102u8), Err(()));
    assert_eq!(PurgeTag::try_from(255u8), Err(()));
}

#[test]
fn tags_at_or_above_the_threshold_are_purgeable() {
    assert_eq!(PURGE_THRESHOLD, 100);
    for tag in ALL {
        assert_eq!(tag.is_purgeable(), tag.value() >= PURGE_THRESHOLD);
    }
    assert!(!PurgeTag::LevelSpecial.is_purgeable());
    assert!(PurgeTag::PurgeLevel.is_purgeable());
    assert!(PurgeTag::Cache.is_purgeable());
}

#[test]
fn new_block_is_free() {
    let block = Block::new(8, 64);
    assert_eq!(block.offset(), 8);
    assert_eq!(block.size(), 64);
    assert_eq!(block.tag(), None);
    assert!(block.is_free());
}

#[test]
fn new_metadata_holds_what_was_given() {
    let m = BlockMetaData::new(Some(PurgeTag::Music), 12);
    assert_eq!(m.tag, Some(PurgeTag::Music));
    assert_eq!(m.size, 12);
    let m = BlockMetaData::new(None, 0);
    assert_eq!(m, BlockMetaData { tag: None, size: 0 });
}

#[test]
fn arena_starts_zeroed() {
    let mut zone = MemoryAllocator::init(16).unwrap();
    let h = zone.allocate(16, PurgeTag::Static).unwrap();
    for i in 0..16 {
        assert_eq!(zone.read(h, i), Ok(0));
    }
}

#[test]
fn bytes_written_are_read_back() {
    let mut zone = MemoryAllocator::init(64).unwrap();
    let a = zone.allocate(16, PurgeTag::Static).unwrap();
    let b = zone.allocate(16, PurgeTag::Static).unwrap();
    for i in 0..16 {
        assert_eq!(zone.write(a, i, i as u8 + 1), Ok(()));
        assert_eq!(zone.write(b, i, 100 + i as u8), Ok(()));
    }
    for i in 0..16 {
        assert_eq!(zone.read(a, i), Ok(i as u8 + 1));
        assert_eq!(zone.read(b, i), Ok(100 + i as u8));
    }
}

#[test]
fn bytes_outside_the_block_are_out_of_reach() {
    let mut zone = MemoryAllocator::init(64).unwrap();
    let a = zone.allocate(16, PurgeTag::Static).unwrap();
    let b = zone.allocate(16, PurgeTag::Static).unwrap();
    assert_eq!(zone.write(b, 0, 9), Ok(()));
    assert_eq!(zone.read(a, 15), Ok(0));
    assert_eq!(zone.read(a, 16), Err(AllocError::InvalidHandle));
    assert_eq!(zone.write(a, 16, 1), Err(AllocError::InvalidHandle));
    assert_eq!(zone.read(b, 0), Ok(9));
}

#[test]
fn bytes_of_other_blocks_survive_allocation_and_release() {
    let mut zone = MemoryAllocator::init(64).unwrap();
    let a = zone.allocate(16, PurgeTag::Static).unwrap();
    let b = zone.allocate(16, PurgeTag::Cache).unwrap();
    let c = zone.allocate(16, PurgeTag::Static).unwrap();
    assert_eq!(zone.write(a, 3, 33), Ok(()));
    assert_eq!(zone.write(c, 5, 55), Ok(()));
    zone.free(b).unwrap();
    let _d = zone.allocate(8, PurgeTag::Level).unwrap();
    zone.purge(100);
    assert_eq!(zone.read(a, 3), Ok(33));
    assert_eq!(zone.read(c, 5), Ok(55));
}

#[test]
fn handle_records_where_the_block_starts() {
    let mut zone = MemoryAllocator::init(64).unwrap();
    let a = zone.allocate(16, PurgeTag::Static).unwrap();
    let b = zone.allocate(20, PurgeTag::Static).unwrap();
    let c = zone.allocate(10, PurgeTag::Static).unwrap();
    assert_eq!(a.offset(), 0);
    assert_eq!(b.offset(), 16);
    assert_eq!(c.offset(), 36);
}
