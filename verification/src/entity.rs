use vstd::prelude::*;

verus! {

/// An entity's handle: a slot index in the low 20 bits and the slot's
/// generation in the bits above.
pub type EntityId = u32;

/// How many low bits of an `EntityId` hold the slot index.
pub const INDEX_BITS: u32 = 20;

/// The mask of the index bits.
pub const INDEX_MASK: u32 = 0xFFFFF;

/// The number of slots that ids can address.
pub const MAX_SLOTS: usize = 0x100000;

/// The number of generations that ids can tell apart.
pub const MAX_GENERATIONS: u32 = 0x1000;

/// The id with slot `index` and generation `generation`.
pub open spec fn spec_make_entity(index: u32, generation: u32) -> EntityId {
    (generation << 20u32) | index
}

/// The slot index of an id.
pub open spec fn spec_entity_index(id: EntityId) -> u32 {
    id & 0xFFFFFu32
}

/// The generation of an id.
pub open spec fn spec_entity_version(id: EntityId) -> u32 {
    id >> 20u32
}

/// Packing a slot index below 2^20 with a generation below 2^12 into an id and
/// unpacking the id gives both back.
pub proof fn lemma_entity_roundtrip(index: u32, generation: u32)
    by (bit_vector)
    requires
        index < 0x100000u32,
        generation < 0x1000u32,
    ensures
        spec_entity_index(spec_make_entity(index, generation)) == index,
        spec_entity_version(spec_make_entity(index, generation)) == generation,
{
}

/// An id keeps the low 12 bits of the generation it is built with.
pub proof fn lemma_entity_version_bits(index: u32, generation: u32)
    by (bit_vector)
    requires
        index < 0x100000u32,
    ensures
        spec_entity_version(spec_make_entity(index, generation)) == generation & 0xFFFu32,
        spec_entity_index(spec_make_entity(index, generation)) == index,
{
}

/// An id is determined by its slot index and generation.
pub proof fn lemma_entity_from_parts(id: EntityId)
    by (bit_vector)
    ensures
        spec_make_entity(spec_entity_index(id), spec_entity_version(id)) == id,
        spec_entity_index(id) < 0x100000u32,
        spec_entity_version(id) < 0x1000u32,
{
}

/// Builds the id of slot `index` at generation `generation`.
pub fn make_entity(index: u32, generation: u32) -> (r: EntityId)
    ensures
        r == spec_make_entity(index, generation),
{
    (generation << INDEX_BITS) | index
}

/// The slot index of an id.
pub fn entity_index(id: EntityId) -> (r: usize)
    ensures
        r == spec_entity_index(id),
        r < MAX_SLOTS,
{
    proof {
        lemma_entity_from_parts(id);
    }
    (id & INDEX_MASK) as usize
}

/// The generation of an id.
pub fn entity_version(id: EntityId) -> (r: u32)
    ensures
        r == spec_entity_version(id),
        r < MAX_GENERATIONS,
{
    proof {
        lemma_entity_from_parts(id);
    }
    id >> INDEX_BITS
}

/// Where an entity's components are stored: an archetype and a row in it.
#[derive(Clone, Copy)]
pub struct EntityLocation {
    pub archetype_id: u32,
    pub row: u32,
}

/// The bookkeeping of one slot.
pub struct EntityEntry {
    pub location: EntityLocation,
    pub version: u32,
}

/// The slots of all entities ever made, with the free list of slots to reuse.
pub struct Entities {
    pub entries: Vec<EntityEntry>,
    pub free: Vec<u32>,
}

impl Entities {
    /// The slots count stays addressable and the free list names distinct
    /// slots that exist.
    pub open spec fn wf(&self) -> bool {
        &&& self.entries@.len() <= MAX_SLOTS
        &&& forall|k: int| 0 <= k < self.free@.len() ==> #[trigger] self.free@[k] < self.entries@.len()
        &&& forall|k: int, l: int|
            0 <= k < l < self.free@.len() ==> #[trigger] self.free@[k] != #[trigger] self.free@[l]
    }

    /// The number of slots.
    pub open spec fn slot_count(&self) -> nat {
        self.entries@.len()
    }

    /// The generation of slot `i`.
    pub open spec fn version_of(&self, i: int) -> u32 {
        self.entries@[i].version
    }

    /// The location recorded for slot `i`.
    pub open spec fn location_of(&self, i: int) -> EntityLocation {
        self.entries@[i].location
    }

    /// Whether slot `i` is on the free list.
    pub open spec fn is_free(&self, i: int) -> bool {
        exists|k: int| 0 <= k < self.free@.len() && self.free@[k] == i
    }

    /// The id that the next `allocate` hands out.
    pub open spec fn next_id(&self) -> EntityId {
        if self.free@.len() > 0 {
            let i = self.free@.last();
            spec_make_entity(i, self.entries@[i as int].version)
        } else {
            spec_make_entity(self.entries@.len() as u32, 0)
        }
    }

    /// Whether `allocate` can hand out an id that names its slot and generation:
    /// a reused slot's generation must fit the id's generation bits, and a new
    /// slot's index must fit the index bits.
    pub open spec fn can_alloc(&self) -> bool {
        if self.free@.len() > 0 {
            self.entries@[self.free@.last() as int].version < MAX_GENERATIONS
        } else {
            self.entries@.len() < MAX_SLOTS
        }
    }

    pub fn new() -> (r: Entities)
        ensures
            r.wf(),
            r.entries@.len() == 0,
            r.free@.len() == 0,
    {
        Entities { entries: Vec::new(), free: Vec::new() }
    }

    /// Hands out an id: the most recently freed slot at its current generation,
    /// or else a new slot at generation 0.
    pub fn allocate(&mut self) -> (r: EntityId)
        requires
            old(self).wf(),
            old(self).free@.len() == 0 ==> old(self).entries@.len() < MAX_SLOTS,
        ensures
            final(self).wf(),
            r == old(self).next_id(),
            old(self).free@.len() > 0 ==> {
                &&& final(self).entries@ == old(self).entries@
                &&& final(self).free@ == old(self).free@.drop_last()
            },
            old(self).free@.len() == 0 ==> {
                &&& final(self).entries@.len() == old(self).entries@.len() + 1
                &&& final(self).entries@.drop_last() == old(self).entries@
                &&& final(self).entries@.last().version == 0
                &&& final(self).free@ == old(self).free@
            },
    {
        if let Some(index) = self.free.pop() {
            proof {
                assert(old(self).free@[old(self).free@.len() - 1] == index);
            }
            let version = self.entries[index as usize].version;
            make_entity(index, version)
        } else {
            let index = self.entries.len() as u32;
            self.entries.push(
                EntityEntry {
                    // placeholder: the caller records the real location next
                    location: EntityLocation { archetype_id: 0, row: 0 },
                    version: 0,
                },
            );
            assert(self.entries@.drop_last() =~= old(self).entries@);
            make_entity(index, 0)
        }
    }

    /// Frees the slot of a live id: bumps the slot's generation so that the id
    /// goes stale, and puts the slot on the free list. The generation is that of
    /// an id, below 2^12, so the bump never wraps.
    pub fn destroy(&mut self, id: EntityId)
        requires
            old(self).wf(),
            spec_entity_index(id) < old(self).entries@.len(),
            old(self).version_of(spec_entity_index(id) as int) == spec_entity_version(id),
            !old(self).is_free(spec_entity_index(id) as int),
        ensures
            final(self).wf(),
            final(self).entries@ == old(self).entries@.update(
                spec_entity_index(id) as int,
                EntityEntry {
                    location: old(self).location_of(spec_entity_index(id) as int),
                    version: (old(self).version_of(spec_entity_index(id) as int) + 1) as u32,
                },
            ),
            final(self).free@ == old(self).free@.push(spec_entity_index(id)),
    {
        let idx = entity_index(id);
        let version = entity_version(id);
        let old_entry = &self.entries[idx];
        assert(old_entry.version < MAX_GENERATIONS);
        let entry = EntityEntry {
            location: old_entry.location,
            version: old_entry.version.wrapping_add(1),
        };
        self.entries.set(idx, entry);
        self.free.push(idx as u32);
        proof {
            assert forall|k: int, l: int|
                0 <= k < l < self.free@.len() implies #[trigger] self.free@[k]
                != #[trigger] self.free@[l] by {
                if l == self.free@.len() - 1 {
                    assert(old(self).free@[k] == self.free@[k]);
                    if self.free@[k] == idx {
                        assert(old(self).is_free(idx as int));
                    }
                }
            }
        }
    }

    /// Records where the entity of a live id is stored.
    pub fn set_location(&mut self, id: EntityId, loc: EntityLocation)
        requires
            old(self).wf(),
            spec_entity_index(id) < old(self).entries@.len(),
            old(self).version_of(spec_entity_index(id) as int) == spec_entity_version(id),
        ensures
            final(self).wf(),
            final(self).entries@ == old(self).entries@.update(
                spec_entity_index(id) as int,
                EntityEntry { location: loc, version: old(self).version_of(spec_entity_index(id) as int) },
            ),
            final(self).free@ == old(self).free@,
    {
        let idx = entity_index(id);
        let version = entity_version(id);
        let entry = EntityEntry { location: loc, version: self.entries[idx].version };
        self.entries.set(idx, entry);
    }

    /// The location of the entity of `id`, if the id's generation is its
    /// slot's current one.
    pub fn get_location(&self, id: EntityId) -> (r: Option<EntityLocation>)
        requires
            spec_entity_index(id) < self.entries@.len(),
        ensures
            r == if self.version_of(spec_entity_index(id) as int) == spec_entity_version(id) {
                Some(self.location_of(spec_entity_index(id) as int))
            } else {
                None
            },
    {
        let idx = entity_index(id);
        let version = entity_version(id);
        let entry = &self.entries[idx];
        if entry.version == version {
            Some(entry.location)
        } else {
            None
        }
    }
}

} // verus!
