//! Purge tags: why a block is held and when it may be reclaimed.

use vstd::prelude::*;

verus! {

/// Numeric value from which on a tag marks its block as evictable.
pub const PURGE_THRESHOLD: u8 = 100;

/// Classification of a block that is in use.
///
/// The first five tags protect their block: only an explicit release frees
/// it. The last two mark the block as purgeable: the allocator may evict it
/// whenever it needs room.
#[derive(Clone, Copy, Debug, PartialEq, Eq, Structural)]
pub enum PurgeTag {
    /// Permanent; never evicted.
    Static,
    /// Audio data; held until released.
    Sound,
    /// Music data; held until released.
    Music,
    /// Held for the lifetime of the current level.
    Level,
    /// Level-scoped; released alongside level data.
    LevelSpecial,
    /// Boundary tag; the least urgent of the purgeable tags.
    PurgeLevel,
    /// Cached data; first to be evicted under pressure.
    Cache,
}

impl PurgeTag {
    /// The numeric value of the tag.
    pub open spec fn spec_value(self) -> u8 {
        match self {
            PurgeTag::Static => 1,
            PurgeTag::Sound => 2,
            PurgeTag::Music => 3,
            PurgeTag::Level => 50,
            PurgeTag::LevelSpecial => 51,
            PurgeTag::PurgeLevel => 100,
            PurgeTag::Cache => 101,
        }
    }

    /// Whether the allocator may evict a block that carries this tag.
    pub open spec fn spec_is_purgeable(self) -> bool {
        self is PurgeLevel || self is Cache
    }

    /// The numeric value of the tag.
    #[verifier::when_used_as_spec(spec_value)]
    pub fn value(self) -> (v: u8)
        ensures
            v == self.spec_value(),
    {
        match self {
            PurgeTag::Static => 1,
            PurgeTag::Sound => 2,
            PurgeTag::Music => 3,
            PurgeTag::Level => 50,
            PurgeTag::LevelSpecial => 51,
            PurgeTag::PurgeLevel => 100,
            PurgeTag::Cache => 101,
        }
    }

    /// Whether the allocator may evict a block that carries this tag.
    #[verifier::when_used_as_spec(spec_is_purgeable)]
    pub fn is_purgeable(self) -> (b: bool)
        ensures
            b == self.spec_is_purgeable(),
    {
        match self {
            PurgeTag::PurgeLevel | PurgeTag::Cache => true,
            _ => false,
        }
    }

    /// A tag is purgeable exactly when its value reaches the threshold.
    pub proof fn lemma_purgeable_iff_threshold(self)
        ensures
            self.is_purgeable() <==> self.value() >= PURGE_THRESHOLD,
    {
    }
}

impl TryFrom<u8> for PurgeTag {
    type Error = ();

    /// The tag with the given numeric value, if there is one.
    fn try_from(value: u8) -> (r: Result<PurgeTag, ()>)
    {
        match value {
            1 => Ok(PurgeTag::Static),
            2 => Ok(PurgeTag::Sound),
            3 => Ok(PurgeTag::Music),
            50 => Ok(PurgeTag::Level),
            51 => Ok(PurgeTag::LevelSpecial),
            100 => Ok(PurgeTag::PurgeLevel),
            101 => Ok(PurgeTag::Cache),
            _ => Err(()),
        }
    }
}

impl vstd::std_specs::convert::TryFromSpecImpl<u8> for PurgeTag {
    open spec fn obeys_try_from_spec() -> bool {
        true
    }

    open spec fn try_from_spec(value: u8) -> Result<PurgeTag, ()> {
        if value == 1 {
            Ok(PurgeTag::Static)
        } else if value == 2 {
            Ok(PurgeTag::Sound)
        } else if value == 3 {
            Ok(PurgeTag::Music)
        } else if value == 50 {
            Ok(PurgeTag::Level)
        } else if value == 51 {
            Ok(PurgeTag::LevelSpecial)
        } else if value == 100 {
            Ok(PurgeTag::PurgeLevel)
        } else if value == 101 {
            Ok(PurgeTag::Cache)
        } else {
            Err(())
        }
    }
}

/// Converting a tag's value back yields the tag, and no other value converts.
pub proof fn lemma_try_from_value(value: u8)
    ensures
        match <PurgeTag as vstd::std_specs::convert::TryFromSpec<u8>>::try_from_spec(value) {
            Ok(tag) => tag.value() == value,
            Err(_) => forall|tag: PurgeTag| tag.value() != value,
        },
{
}


} // verus!
