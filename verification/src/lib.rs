mod archetypes;
mod bitset;
mod components;
mod entity;
mod fetch;

pub use bitset::BitSet;
pub use components::{ComponentId, ComponentInfo, ecs_init};
pub use entity::EntityId;
pub use fetch::Bundle;

use vstd::prelude::*;
use crate::archetypes::{self as archetypes_mod, ArchetypeSet};
use crate::entity::{self as entity_mod, Entities, EntityLocation, MAX_GENERATIONS, MAX_SLOTS};

verus! {

/// When the one row of the archetype that holds the live entity `id` is
/// emptied and every other archetype stays as it is, queries visit what they
/// visited before, without `id`.
proof fn lemma_order_without<V>(
    e0: Entities,
    a0: Seq<archetypes_mod::Archetype<V>>,
    a1: Seq<archetypes_mod::Archetype<V>>,
    req: Set<usize>,
    id: EntityId,
)
    requires
        archetypes_mod::linked(e0, a0),
        archetypes_mod::entity_live(e0, id),
        a0.len() <= u32::MAX + 1,
        a1.len() >= a0.len(),
        a0[e0.location_of(entity_mod::spec_entity_index(id) as int).archetype_id as int].len == 1,
        a1[e0.location_of(entity_mod::spec_entity_index(id) as int).archetype_id as int].len == 0,
        forall|a: int| 0 <= a < a0.len() ==> (#[trigger] a1[a]).component_bits == a0[a].component_bits,
        forall|a: int| 0 <= a < a0.len() && a != e0.location_of(entity_mod::spec_entity_index(id) as int).archetype_id ==> #[trigger] a1[a] == a0[a],
    ensures
        archetypes_mod::matching_rows(a1, req, a0.len() as int).map_values(|p: (int, int)| a1[p.0].entities@[p.1])
            == archetypes_mod::seq_without(
                archetypes_mod::matching_rows(a0, req, a0.len() as int).map_values(|p: (int, int)| a0[p.0].entities@[p.1]),
                id,
            ),
{
    let i = entity_mod::spec_entity_index(id) as int;
    let n = a0.len() as int;
    assert(archetypes_mod::slot_linked(e0, a0, i));
    entity_mod::lemma_entity_from_parts(id);
    let aa = e0.location_of(i).archetype_id as int;
    let rows0 = archetypes_mod::matching_rows(a0, req, n);
    let rows1 = archetypes_mod::matching_rows(a1, req, n);
    archetypes_mod::lemma_rows_without(a0, a1, req, n, aa);
    archetypes_mod::lemma_matching_rows(a0, req, n);
    let ent0 = |p: (int, int)| a0[p.0].entities@[p.1];
    let ent1 = |p: (int, int)| a1[p.0].entities@[p.1];
    assert forall|k: int| 0 <= k < rows0.len() implies (ent0(#[trigger] rows0[k]) == id) == (rows0[k] == (aa, 0int)) by {
        let (a, r) = rows0[k];
        assert(archetypes_mod::row_linked(e0, a0, a, r));
        if ent0(rows0[k]) == id {
            assert(e0.location_of(i) == (EntityLocation { archetype_id: a as u32, row: r as u32 }));
        }
    }
    archetypes_mod::lemma_without_map(rows0, ent0, (aa, 0int), id);
    archetypes_mod::lemma_matching_rows(a1, req, n);
    assert forall|k: int| 0 <= k < rows1.len() implies #[trigger] ent1(rows1[k]) == ent0(rows1[k]) by {
        let (a, r) = rows1[k];
        assert(a1[a].len > 0);
        assert(a != aa);
    }
    assert(rows1.map_values(ent1) =~= archetypes_mod::seq_without(rows0, (aa, 0int)).map_values(ent0));
}

/// After the live entity `id` moves from its archetype, where it was the one
/// row, into a new archetype appended at the end: its components are those of
/// the new archetype's row.
proof fn lemma_order_moved<V>(
    e0: Entities,
    a0: Seq<archetypes_mod::Archetype<V>>,
    e1: Entities,
    a1: Seq<archetypes_mod::Archetype<V>>,
    id: EntityId,
)
    requires
        archetypes_mod::linked(e0, a0),
        archetypes_mod::linked(e1, a1),
        archetypes_mod::entity_live(e0, id),
        archetypes_mod::entity_live(e1, id),
        a1.len() == a0.len() + 1,
        e1.location_of(entity_mod::spec_entity_index(id) as int) == (EntityLocation { archetype_id: a0.len() as u32, row: 0 }),
        a0.len() <= u32::MAX,
    ensures
        archetypes_mod::live_map(e1, a1)[id].dom() == a1[a0.len() as int].component_bits@,
{
    let n = a0.len() as int;
    assert(a1[n].row_map(0).dom() =~= a1[n].component_bits@);
}

/// After the live entity `id` moves from its archetype, where it was the one
/// row, into a new archetype appended at the end: queries visit what they
/// visited before without `id`, then `id` if it has all they ask for.
proof fn lemma_order_moved_req<V>(
    e0: Entities,
    a0: Seq<archetypes_mod::Archetype<V>>,
    e1: Entities,
    a1: Seq<archetypes_mod::Archetype<V>>,
    id: EntityId,
    req: Set<usize>,
)
    requires
        archetypes_mod::linked(e0, a0),
        forall|a: int| 0 <= a < a0.len() ==> (#[trigger] a0[a]).len <= 1,
        archetypes_mod::entity_live(e0, id),
        a0.len() <= u32::MAX,
        a1.len() == a0.len() + 1,
        forall|a: int| 0 <= a < a0.len() ==> (#[trigger] a1[a]).component_bits == a0[a].component_bits,
        forall|a: int| 0 <= a < a0.len() && a != e0.location_of(entity_mod::spec_entity_index(id) as int).archetype_id ==> #[trigger] a1[a] == a0[a],
        a1[e0.location_of(entity_mod::spec_entity_index(id) as int).archetype_id as int].len
            == a0[e0.location_of(entity_mod::spec_entity_index(id) as int).archetype_id as int].len - 1,
        a1[a0.len() as int].len == 1,
        a1[a0.len() as int].entities@[0] == id,
    ensures
        archetypes_mod::matching_rows(a1, req, a1.len() as int).map_values(|p: (int, int)| a1[p.0].entities@[p.1])
            == archetypes_mod::seq_without(
                archetypes_mod::matching_rows(a0, req, a0.len() as int).map_values(|p: (int, int)| a0[p.0].entities@[p.1]),
                id,
            ) + if req.subset_of(a1[a0.len() as int].component_bits@) {
                seq![id]
            } else {
                Seq::<EntityId>::empty()
            },
{
    let i = entity_mod::spec_entity_index(id) as int;
    let n = a0.len() as int;
    assert(archetypes_mod::slot_linked(e0, a0, i));
    let aa = e0.location_of(i).archetype_id as int;
    assert(a0[aa].len == 1);
    lemma_order_without(e0, a0, a1, req, id);
    let ent1 = |p: (int, int)| a1[p.0].entities@[p.1];
    let rows_n = archetypes_mod::matching_rows(a1, req, n);
    let rows = archetypes_mod::matching_rows(a1, req, n + 1);
    if req.subset_of(a1[n].component_bits@) {
        assert(rows == rows_n + Seq::new(1, |r: int| (n, r)));
        assert(rows.map_values(ent1) =~= rows_n.map_values(ent1) + seq![id]);
    } else {
        assert(rows == rows_n);
        assert(rows.map_values(ent1) =~= rows_n.map_values(ent1) + Seq::<EntityId>::empty());
    }
}

/// The entities of a sequence of calls of a mapping closure, in order.
pub open spec fn call_entities<V>(calls: Seq<((EntityId, Vec<V>), Vec<V>)>) -> Seq<EntityId> {
    calls.map_values(|c: ((EntityId, Vec<V>), Vec<V>)| c.0.0)
}

/// An entity-component store: entities are handed out as generational ids, and
/// each entity holds a set of components, each a value of type `V` under a
/// component id below 128.
pub struct Ecs<V> {
    entities: Entities,
    archetype_set: ArchetypeSet<V>,
}

impl<V> View for Ecs<V> {
    type V = Map<EntityId, Map<usize, V>>;

    /// The live entities, each with its components by id.
    closed spec fn view(&self) -> Map<EntityId, Map<usize, V>> {
        archetypes_mod::live_map(self.entities, self.archetype_set.archetypes@)
    }
}

impl<V> Ecs<V> {
    /// The slots, the archetypes and the links between them are consistent.
    pub closed spec fn wf(&self) -> bool {
        &&& self.entities.wf()
        &&& self.archetype_set.wf()
        &&& archetypes_mod::linked(self.entities, self.archetype_set.archetypes@)
    }

    /// Whether `e` names a live entity: its slot is in use at `e`'s generation.
    #[verifier::inline]
    spec fn is_live(&self, e: EntityId) -> bool {
        archetypes_mod::entity_live(self.entities, e)
    }

    /// The components of the entity `e`.
    #[verifier::inline]
    spec fn components_of(&self, e: EntityId) -> Map<usize, V> {
        archetypes_mod::entity_components(self.entities, self.archetype_set.archetypes@, e)
    }

    /// The current generation of each slot.
    pub closed spec fn slot_versions(&self) -> Seq<u32> {
        self.entities.entries@.map_values(|entry: crate::entity::EntityEntry| entry.version)
    }

    /// The freed slots, most recently freed last.
    pub closed spec fn free_slots(&self) -> Seq<u32> {
        self.entities.free@
    }

    /// The number of archetypes made so far.
    pub closed spec fn num_archetypes(&self) -> nat {
        self.archetype_set.archetypes@.len()
    }

    /// The id that the next `create_entity` hands out: the most recently freed
    /// slot at its current generation, else a new slot at generation 0.
    pub open spec fn next_id(&self) -> EntityId {
        if self.free_slots().len() > 0 {
            entity_mod::spec_make_entity(self.free_slots().last(), self.slot_versions()[self.free_slots().last() as int])
        } else {
            entity_mod::spec_make_entity(self.slot_versions().len() as u32, 0)
        }
    }

    /// Whether `create_entity` can run: the id it hands out can carry its slot's
    /// generation (below 2^12) and index (below 2^20), and the index of the new
    /// archetype, the current count, fits a `u32`.
    pub open spec fn can_create(&self) -> bool {
        &&& if self.free_slots().len() > 0 {
            self.slot_versions()[self.free_slots().last() as int] < MAX_GENERATIONS
        } else {
            self.slot_versions().len() < MAX_SLOTS
        }
        &&& self.num_archetypes() <= u32::MAX
    }

    pub fn new() -> (r: Ecs<V>)
        ensures
            r.wf(),
            r@ == Map::<EntityId, Map<usize, V>>::empty(),
            forall|req: Set<usize>| #[trigger] r.query_order(req) == Seq::<EntityId>::empty(),
            r.slot_versions().len() == 0,
            r.free_slots().len() == 0,
            r.num_archetypes() == 0,
    {
        let r = Ecs { entities: Entities::new(), archetype_set: ArchetypeSet::new() };
        proof {
            assert(r.slot_versions() =~= Seq::<u32>::empty());
            assert(r@ =~= Map::<EntityId, Map<usize, V>>::empty());
            assert forall|req: Set<usize>| #[trigger] r.query_order(req) == Seq::<EntityId>::empty() by {
                assert(r.query_order(req) =~= Seq::<EntityId>::empty());
            }
        }
        r
    }

    /// Makes a new entity with the components of `components` and returns its id.
    pub fn create_entity(&mut self, components: Bundle<V>) -> (id: EntityId)
        requires
            old(self).wf(),
            old(self).can_create(),
            components.ids_valid(),
            components.components@.len() <= 32,
        ensures
            final(self).wf(),
            id == old(self).next_id(),
            !old(self)@.contains_key(id),
            final(self)@ == old(self)@.insert(id, components.spec_map()),
            forall|req: Set<usize>| #[trigger] final(self).query_order(req) == if req.subset_of(components.spec_map().dom()) {
                old(self).query_order(req).push(id)
            } else {
                old(self).query_order(req)
            },
            final(self).num_archetypes() == old(self).num_archetypes() + 1,
            old(self).free_slots().len() > 0 ==> {
                &&& final(self).free_slots() == old(self).free_slots().drop_last()
                &&& final(self).slot_versions() == old(self).slot_versions()
            },
            old(self).free_slots().len() == 0 ==> {
                &&& final(self).free_slots() == old(self).free_slots()
                &&& final(self).slot_versions() == old(self).slot_versions().push(0)
            },
            final(self).generations_kept_from(old(self)),
    {
        let ghost e0 = self.entities;
        let ghost a0 = self.archetype_set.archetypes@;
        let ghost bmap = components.spec_map();
        let id = self.entities.allocate();
        let ghost i = entity_mod::spec_entity_index(id) as int;
        let ghost v = entity_mod::spec_entity_version(id);
        proof {
            if e0.free@.len() > 0 {
                let fi = e0.free@.last();
                entity_mod::lemma_entity_roundtrip(fi, e0.entries@[fi as int].version);
            } else {
                entity_mod::lemma_entity_roundtrip(e0.entries@.len() as u32, 0);
            }
            assert(i < self.entities.entries@.len());
            assert(self.entities.version_of(i) == v);
        }
        let loc = self.archetype_set.create_entity(components, id);
        self.entities.set_location(id, loc);
        proof {
            let e1 = self.entities;
            let a1 = self.archetype_set.archetypes@;
            let n = a0.len() as int;
            // slot i was not in use before
            assert(!old(self).is_live(id)) by {
                if e0.free@.len() > 0 {
                    assert(e0.free@[e0.free@.len() - 1] == i);
                    assert(e0.is_free(i));
                }
            }
            assert forall|j: int| 0 <= j < e1.entries@.len() && j != i implies
                (#[trigger] e1.is_free(j)) == e0.is_free(j) && e1.entries@[j] == e0.entries@[j] by {
                if e0.free@.len() > 0 {
                    if e0.is_free(j) {
                        let k = choose|k: int| 0 <= k < e0.free@.len() && e0.free@[k] == j;
                        assert(e1.free@[k] == j);
                    }
                    if e1.is_free(j) {
                        let k = choose|k: int| 0 <= k < e1.free@.len() && e1.free@[k] == j;
                        assert(e0.free@[k] == j);
                    }
                } else {
                    assert(e1.free@ == e0.free@);
                }
            }
            assert(!e1.is_free(i)) by {
                if e1.is_free(i) {
                    let k = choose|k: int| 0 <= k < e1.free@.len() && e1.free@[k] == i;
                    if e0.free@.len() > 0 {
                        assert(e0.free@[k] == i);
                        assert(e0.free@[e0.free@.len() - 1] == i);
                    } else {
                        assert(e0.free@[k] < e0.entries@.len());
                    }
                }
            }
            assert(forall|a: int| 0 <= a < n ==> #[trigger] a1[a] == a0[a]);
            assert forall|a: int, r: int| 0 <= a < a1.len() && 0 <= r < a1[a].len implies #[trigger] archetypes_mod::row_linked(e1, a1, a, r) by {
                if a < n {
                    assert(archetypes_mod::row_linked(e0, a0, a, r));
                    let e = a0[a].entities@[r];
                    let j = entity_mod::spec_entity_index(e) as int;
                    if j == i {
                        if e0.free@.len() > 0 {
                            assert(e0.free@[e0.free@.len() - 1] == i);
                            assert(e0.is_free(i));
                        }
                    }
                    assert(j != i);
                } else {
                    assert(r == 0);
                }
            }
            assert forall|j: int| 0 <= j < e1.entries@.len() && !e1.is_free(j) implies #[trigger] archetypes_mod::slot_linked(e1, a1, j) by {
                if j != i {
                    assert(archetypes_mod::slot_linked(e0, a0, j));
                } else {
                    entity_mod::lemma_entity_from_parts(id);
                }
            }
            assert forall|e: EntityId| #[trigger] self.is_live(e) == (old(self).is_live(e) || e == id) by {
                entity_mod::lemma_entity_from_parts(e);
                entity_mod::lemma_entity_from_parts(id);
            }
            assert forall|e: EntityId| old(self).is_live(e) implies #[trigger] self.components_of(e) == old(self).components_of(e) by {
                let j = entity_mod::spec_entity_index(e) as int;
                assert(j != i);
                assert(archetypes_mod::slot_linked(e0, a0, j));
            }
            assert(self.components_of(id) == bmap);
            assert forall|req: Set<usize>| #[trigger] self.query_order(req) == if req.subset_of(bmap.dom()) {
                old(self).query_order(req).push(id)
            } else {
                old(self).query_order(req)
            } by {
                archetypes_mod::lemma_matching_rows_prefix(a0, a1, req, n);
                assert(a1[n].row_map(0).dom() =~= a1[n].component_bits@);
                let rows0 = archetypes_mod::matching_rows(a0, req, n);
                let rows1 = archetypes_mod::matching_rows(a1, req, n + 1);
                if req.subset_of(bmap.dom()) {
                    assert(rows1 == rows0 + Seq::new(1, |r: int| (n, r)));
                } else {
                    assert(rows1 == rows0);
                }
                assert forall|k: int| 0 <= k < rows0.len() implies #[trigger] a1[rows0[k].0].entities == a0[rows0[k].0].entities by {
                    archetypes_mod::lemma_matching_rows(a0, req, n);
                }
                assert(self.query_order(req) =~= if req.subset_of(bmap.dom()) {
                    old(self).query_order(req).push(id)
                } else {
                    old(self).query_order(req)
                });
            }
            assert(self@ =~= old(self)@.insert(id, bmap));
            assert(self.slot_versions() =~= if e0.free@.len() > 0 { old(self).slot_versions() } else { old(self).slot_versions().push(0) });
        }
        id
    }

    /// Removes the live entity `id` with its components; its id goes stale.
    pub fn remove_entity(&mut self, id: EntityId)
        requires
            old(self).wf(),
            old(self)@.contains_key(id),
        ensures
            final(self).wf(),
            final(self)@ == old(self)@.remove(id),
            forall|req: Set<usize>| #[trigger] final(self).query_order(req) == archetypes_mod::seq_without(old(self).query_order(req), id),
            final(self).num_archetypes() == old(self).num_archetypes(),
            old(self).slot_versions()[entity_mod::spec_entity_index(id) as int] < MAX_GENERATIONS,
            final(self).slot_versions() == old(self).slot_versions().update(
                entity_mod::spec_entity_index(id) as int,
                (old(self).slot_versions()[entity_mod::spec_entity_index(id) as int] + 1) as u32,
            ),
            final(self).generations_kept_from(old(self)),
            final(self).free_slots() == old(self).free_slots().push(entity_mod::spec_entity_index(id)),
    {
        self.archetype_set.remove_entity(id, &mut self.entities);
        proof {
            let i = entity_mod::spec_entity_index(id) as int;
            let e0 = old(self).entities;
            let a0 = old(self).archetype_set.archetypes@;
            let a1 = self.archetype_set.archetypes@;
            let aa = e0.location_of(i).archetype_id as int;
            assert(archetypes_mod::slot_linked(e0, a0, i));
            assert(a0[aa].len == 1);
            assert forall|req: Set<usize>| #[trigger] self.query_order(req) == archetypes_mod::seq_without(old(self).query_order(req), id) by {
                lemma_order_without(e0, a0, a1, req, id);
            }
            entity_mod::lemma_entity_from_parts(id);
            assert(old(self).slot_versions()[i] == entity_mod::spec_entity_version(id));
            assert forall|k: int| 0 <= k < self.slot_versions().len() implies #[trigger] self.slot_versions()[k] == old(self).slot_versions().update(
                i, (old(self).slot_versions()[i] + 1) as u32)[k] by {
                assert(self.entities.version_of(k) == if k == i {
                    (old(self).entities.version_of(k) + 1) as u32
                } else {
                    old(self).entities.version_of(k)
                });
            }
            assert(self.slot_versions() =~= old(self).slot_versions().update(
                entity_mod::spec_entity_index(id) as int,
                (old(self).slot_versions()[entity_mod::spec_entity_index(id) as int] + 1) as u32,
            ));
        }
    }

    /// Gives the live entity `id` the components of `components`; they replace
    /// the values it has for the same ids.
    pub fn add_components(&mut self, id: EntityId, components: Bundle<V>)
        requires
            old(self).wf(),
            old(self)@.contains_key(id),
            components.ids_valid(),
            components.components@.len() <= 32,
            old(self).num_archetypes() <= u32::MAX,
        ensures
            final(self).wf(),
            final(self)@ == old(self)@.insert(id, old(self)@[id].union_prefer_right(components.spec_map())),
            forall|req: Set<usize>| #[trigger] final(self).query_order(req) == archetypes_mod::seq_without(old(self).query_order(req), id) + if req.subset_of(final(self)@[id].dom()) {
                seq![id]
            } else {
                Seq::<EntityId>::empty()
            },
            final(self).num_archetypes() == old(self).num_archetypes() + 1,
            final(self).slot_versions() == old(self).slot_versions(),
            final(self).generations_kept_from(old(self)),
            final(self).free_slots() == old(self).free_slots(),
    {
        self.archetype_set.add_component(id, &mut self.entities, components);
        proof {
            Self::lemma_moved_to_new_archetype(*old(self), *self, id);
        }
    }

    /// Takes the components with the ids in `ids` from the live entity `id`.
    pub fn remove_components(&mut self, id: EntityId, ids: &[usize])
        requires
            old(self).wf(),
            old(self)@.contains_key(id),
            forall|k: int| 0 <= k < ids@.len() ==> ids@[k] < 128,
            old(self).num_archetypes() <= u32::MAX,
        ensures
            final(self).wf(),
            final(self)@ == old(self)@.insert(id, old(self)@[id].remove_keys(ids@.to_set())),
            forall|req: Set<usize>| #[trigger] final(self).query_order(req) == archetypes_mod::seq_without(old(self).query_order(req), id) + if req.subset_of(final(self)@[id].dom()) {
                seq![id]
            } else {
                Seq::<EntityId>::empty()
            },
            final(self).num_archetypes() == old(self).num_archetypes() + 1,
            final(self).slot_versions() == old(self).slot_versions(),
            final(self).generations_kept_from(old(self)),
            final(self).free_slots() == old(self).free_slots(),
    {
        self.archetype_set.remove_components(id, &mut self.entities, ids);
        proof {
            Self::lemma_moved_to_new_archetype(*old(self), *self, id);
        }
    }

    /// What `add_components` and `remove_components` have in common: the live
    /// entity `id` moved out of its archetype, where it was the one row, into a
    /// new archetype appended at the end, and no slot changed generation. Then
    /// queries visit what they visited before without `id`, then `id` if it has
    /// all they ask for, and the slot generations are those from before.
    proof fn lemma_moved_to_new_archetype(pre: Self, post: Self, id: EntityId)
        requires
            pre.wf(),
            post.wf(),
            pre@.contains_key(id),
            post@.contains_key(id),
            pre.num_archetypes() <= u32::MAX,
            post.num_archetypes() == pre.num_archetypes() + 1,
            forall|a: int| 0 <= a < pre.num_archetypes() ==>
                (#[trigger] post.archetype_set.archetypes@[a]).component_bits == pre.archetype_set.archetypes@[a].component_bits,
            forall|a: int| 0 <= a < pre.num_archetypes() && a != pre.entities.location_of(entity_mod::spec_entity_index(id) as int).archetype_id ==>
                #[trigger] post.archetype_set.archetypes@[a] == pre.archetype_set.archetypes@[a],
            post.archetype_set.archetypes@[pre.entities.location_of(entity_mod::spec_entity_index(id) as int).archetype_id as int].len
                == pre.archetype_set.archetypes@[pre.entities.location_of(entity_mod::spec_entity_index(id) as int).archetype_id as int].len - 1,
            post.entities.location_of(entity_mod::spec_entity_index(id) as int) == (EntityLocation { archetype_id: pre.num_archetypes() as u32, row: 0 }),
            post.archetype_set.archetypes@[pre.num_archetypes() as int].len == 1,
            post.entities.entries@.len() == pre.entities.entries@.len(),
            forall|k: int| 0 <= k < pre.entities.entries@.len() ==> #[trigger] post.entities.version_of(k) == pre.entities.version_of(k),
        ensures
            forall|req: Set<usize>| #[trigger] post.query_order(req) == archetypes_mod::seq_without(pre.query_order(req), id) + if req.subset_of(post@[id].dom()) {
                seq![id]
            } else {
                Seq::<EntityId>::empty()
            },
            post.slot_versions() == pre.slot_versions(),
    {
        let i = entity_mod::spec_entity_index(id) as int;
        let e0 = pre.entities;
        let a0 = pre.archetype_set.archetypes@;
        let e1 = post.entities;
        let a1 = post.archetype_set.archetypes@;
        assert(archetypes_mod::slot_linked(e1, a1, i));
        entity_mod::lemma_entity_from_parts(id);
        lemma_order_moved(e0, a0, e1, a1, id);
        assert forall|req: Set<usize>| #[trigger] post.query_order(req) == archetypes_mod::seq_without(pre.query_order(req), id) + if req.subset_of(post@[id].dom()) {
            seq![id]
        } else {
            Seq::<EntityId>::empty()
        } by {
            lemma_order_moved_req(e0, a0, e1, a1, id, req);
        }
        assert forall|k: int| 0 <= k < post.slot_versions().len() implies #[trigger] post.slot_versions()[k] == pre.slot_versions()[k] by {
            assert(e1.version_of(k) == e0.version_of(k));
        }
        assert(post.slot_versions() =~= pre.slot_versions());
    }

    /// The entities that a query for the components `req` visits, in order.
    pub closed spec fn query_order(&self, req: Set<usize>) -> Seq<EntityId> {
        let archs = self.archetype_set.archetypes@;
        archetypes_mod::matching_rows(archs, req, archs.len() as int).map_values(
            |p: (int, int)| archs[p.0].entities@[p.1],
        )
    }

    /// For each entity that has all the components `ids`, in the order of
    /// `query_order`: the entity and its values of `ids`, in the order of `ids`.
    pub fn query<'a>(&'a self, ids: &[usize]) -> (result: Vec<(EntityId, Vec<&'a V>)>)
        requires
            self.wf(),
            ids@.len() <= 32,
            forall|k: int| 0 <= k < ids@.len() ==> ids@[k] < 128,
        ensures
            result@.len() == self.query_order(ids@.to_set()).len(),
            forall|k: int| 0 <= k < result@.len() ==> {
                &&& (#[trigger] result@[k]).0 == self.query_order(ids@.to_set())[k]
                &&& self@.contains_key(result@[k].0)
                &&& result@[k].1@.len() == ids@.len()
                &&& forall|j: int| 0 <= j < ids@.len() ==> *(#[trigger] result@[k].1@[j]) == self@[result@[k].0][ids@[j]]
            },
    {
        let result = self.archetype_set.query_raw(ids);
        proof {
            let archs = self.archetype_set.archetypes@;
            let req = ids@.to_set();
            let rows = archetypes_mod::matching_rows(archs, req, archs.len() as int);
            archetypes_mod::lemma_matching_rows(archs, req, archs.len() as int);
            assert forall|k: int| 0 <= k < result@.len() implies {
                &&& (#[trigger] result@[k]).0 == self.query_order(req)[k]
                &&& self@.contains_key(result@[k].0)
                &&& result@[k].1@.len() == ids@.len()
                &&& forall|j: int| 0 <= j < ids@.len() ==> *(#[trigger] result@[k].1@[j]) == self@[result@[k].0][ids@[j]]
            } by {
                let (a, r) = rows[k];
                assert(archetypes_mod::row_linked(self.entities, archs, a, r));
                let e = archs[a].entities@[r];
                assert(result@[k].0 == e);
            }
        }
        result
    }

    /// For each live entity that has all the components `ids`: replaces its
    /// values of `ids` by what `f` returns when given the entity and those
    /// values, in the order of `ids`. `f` is called once per such entity, in
    /// the order in which `query` visits them; the calls, with their results,
    /// are returned in the order they were made. Entities keep their
    /// components, places and query order.
    pub fn query_map<F: Fn(EntityId, Vec<V>) -> Vec<V>>(&mut self, ids: &[usize], f: F) -> (calls: Ghost<Seq<((EntityId, Vec<V>), Vec<V>)>>)
        requires
            old(self).wf(),
            ids@.len() <= 32,
            forall|k: int| 0 <= k < ids@.len() ==> ids@[k] < 128,
            ids@.no_duplicates(),
            forall|args: (EntityId, Vec<V>)| call_requires(f, args),
            forall|args: (EntityId, Vec<V>), out: Vec<V>| call_ensures(f, args, out) ==> out@.len() == args.1@.len(),
        ensures
            final(self).wf(),
            final(self)@.dom() == old(self)@.dom(),
            forall|e: EntityId| old(self)@.contains_key(e) && !ids@.to_set().subset_of(old(self)@[e].dom()) ==>
                #[trigger] final(self)@[e] == old(self)@[e],
            forall|e: EntityId| old(self)@.contains_key(e) && ids@.to_set().subset_of(old(self)@[e].dom()) ==>
                exists|args: (EntityId, Vec<V>), out: Vec<V>| #[trigger] call_ensures(f, args, out) && args.0 == e
                    && args.1@ == ids@.map_values(|c: usize| old(self)@[e][c]) && out@.len() == ids@.len()
                    && #[trigger] final(self)@[e] == archetypes_mod::assign(old(self)@[e], ids@, out@),
            forall|req: Set<usize>| #[trigger] final(self).query_order(req) == old(self).query_order(req),
            final(self).num_archetypes() == old(self).num_archetypes(),
            final(self).slot_versions() == old(self).slot_versions(),
            final(self).generations_kept_from(old(self)),
            final(self).free_slots() == old(self).free_slots(),
            calls@.len() == old(self).query_order(ids@.to_set()).len(),
            forall|k: int| #![trigger calls@[k]] 0 <= k < calls@.len() ==> {
                let e = old(self).query_order(ids@.to_set())[k];
                &&& call_ensures(f, calls@[k].0, calls@[k].1)
                &&& calls@[k].0.0 == e
                &&& calls@[k].0.1@ == ids@.map_values(|c: usize| old(self)@[e][c])
                &&& calls@[k].1@.len() == ids@.len()
                &&& final(self)@[e] == archetypes_mod::assign(old(self)@[e], ids@, calls@[k].1@)
            },
    {
        let calls = self.archetype_set.query_map_raw(ids, &f);
        proof {
            let ents = self.entities;
            let a0 = old(self).archetype_set.archetypes@;
            let a1 = self.archetype_set.archetypes@;
            let req = ids@.to_set();
            let rows = archetypes_mod::matching_rows(a0, req, a0.len() as int);
            archetypes_mod::lemma_matching_rows(a0, req, a0.len() as int);
            assert forall|k: int| #![trigger calls@[k]] 0 <= k < calls@.len() implies {
                let e = old(self).query_order(req)[k];
                &&& call_ensures(f, calls@[k].0, calls@[k].1)
                &&& calls@[k].0.0 == e
                &&& calls@[k].0.1@ == ids@.map_values(|c: usize| old(self)@[e][c])
                &&& calls@[k].1@.len() == ids@.len()
                &&& self@[e] == archetypes_mod::assign(old(self)@[e], ids@, calls@[k].1@)
            } by {
                let (a, r) = rows[k];
                assert(archetypes_mod::row_linked(ents, a0, a, r));
                let e = a0[a].entities@[r];
                assert(old(self).query_order(req)[k] == e);
                assert(archetypes_mod::row_updated_by(f, a0[a], a1[a], ids@, r, calls@[k]));
                assert(old(self)@[e] == a0[a].row_map(r));
                assert(self@[e] == a1[a].row_map(r));
            }
        }
        proof {
            let ents = self.entities;
            let a0 = old(self).archetype_set.archetypes@;
            let a1 = self.archetype_set.archetypes@;
            archetypes_mod::lemma_linked_frame(ents, a0, a1);
            assert forall|req: Set<usize>| #[trigger] self.query_order(req) == old(self).query_order(req) by {
                archetypes_mod::lemma_matching_rows_frame(a0, a1, req, a0.len() as int);
                let rows = archetypes_mod::matching_rows(a0, req, a0.len() as int);
                archetypes_mod::lemma_matching_rows(a0, req, a0.len() as int);
                assert forall|k: int| 0 <= k < rows.len() implies #[trigger] self.query_order(req)[k] == old(self).query_order(req)[k] by {
                    let (a, r) = rows[k];
                    assert(a1[a].entities == a0[a].entities);
                }
                assert(self.query_order(req) =~= old(self).query_order(req));
            }
            assert forall|a: int, r: int| 0 <= a < a0.len() implies #[trigger] a0[a].row_map(r).dom() == a0[a].component_bits@ by {
                assert(a0[a].row_map(r).dom() =~= a0[a].component_bits@);
            }
            assert forall|e: EntityId| old(self)@.contains_key(e) implies {
                &&& self@.contains_key(e)
                &&& (!ids@.to_set().subset_of(old(self)@[e].dom()) ==> self@[e] == old(self)@[e])
                &&& (ids@.to_set().subset_of(old(self)@[e].dom()) ==>
                exists|args: (EntityId, Vec<V>), out: Vec<V>| #[trigger] call_ensures(f, args, out) && args.0 == e
                    && args.1@ == ids@.map_values(|c: usize| old(self)@[e][c]) && out@.len() == ids@.len()
                    && self@[e] == archetypes_mod::assign(old(self)@[e], ids@, out@))
            } by {
                let i = entity_mod::spec_entity_index(e) as int;
                assert(archetypes_mod::slot_linked(ents, a0, i));
                entity_mod::lemma_entity_from_parts(e);
                let l = ents.location_of(i);
                let a = l.archetype_id as int;
                let r = l.row as int;
                assert(archetypes_mod::row_result(f, a0[a], a1[a], ids@, r));
                assert(old(self)@[e] == a0[a].row_map(r));
                assert(self@[e] == a1[a].row_map(r));
                if ids@.to_set().subset_of(old(self)@[e].dom()) {
                    let (args, out) = choose|args: (EntityId, Vec<V>), out: Vec<V>|
                        #[trigger] call_ensures(f, args, out) && args.0 == a0[a].entities@[r] && args.1@ == ids@.map_values(|c: usize| a0[a].row_map(r)[c])
                            && out@.len() == ids@.len() && a1[a].row_map(r) == archetypes_mod::assign(a0[a].row_map(r), ids@, out@);
                    assert(args.1@ =~= ids@.map_values(|c: usize| old(self)@[e][c]));
                }
            }
            assert(self@.dom() =~= old(self)@.dom()) by {
                assert forall|e: EntityId| #[trigger] self@.contains_key(e) == old(self)@.contains_key(e) by {}
            }
        }
        calls
    }

    /// Whether `id` names a live entity.
    pub fn is_alive(&self, id: EntityId) -> (r: bool)
        requires
            self.wf(),
        ensures
            r == self@.contains_key(id),
    {
        let i = entity_mod::entity_index(id);
        if i >= self.entities.entries.len() {
            return false;
        }
        let mut k: usize = 0;
        while k < self.entities.free.len()
            invariant
                k <= self.entities.free@.len(),
                i < self.entities.entries@.len(),
                i == entity_mod::spec_entity_index(id),
                forall|l: int| 0 <= l < k ==> self.entities.free@[l] != i,
            decreases self.entities.free@.len() - k,
        {
            if self.entities.free[k] as usize == i {
                proof {
                    assert(self.entities.is_free(i as int));
                }
                return false;
            }
            k = k + 1;
        }
        self.entities.entries[i].version == entity_mod::entity_version(id)
    }

    /// Whether `create_entity` may be called (see `can_create`).
    pub fn can_create_entity(&self) -> (r: bool)
        requires
            self.wf(),
        ensures
            r == self.can_create(),
    {
        let slot_ok = if self.entities.free.len() > 0 {
            let i = self.entities.free[self.entities.free.len() - 1];
            self.entities.entries[i as usize].version < MAX_GENERATIONS
        } else {
            self.entities.entries.len() < MAX_SLOTS
        };
        slot_ok && self.archetype_set.archetypes.len() <= u32::MAX as usize
    }

    /// The number of archetypes made so far; `add_components` and
    /// `remove_components` each make one more, whose index, this count, must
    /// fit a `u32`.
    pub fn archetype_count(&self) -> (r: usize)
        ensures
            r == self.num_archetypes(),
    {
        self.archetype_set.archetypes.len()
    }

    /// A query visits each live entity that has all the components `req` once,
    /// and no other entity.
    pub proof fn lemma_query_visits_matching(&self, req: Set<usize>)
        requires
            self.wf(),
        ensures
            forall|e: EntityId| #[trigger] self.query_order(req).contains(e) <==> (self@.contains_key(e)
                && req.subset_of(self@[e].dom())),
            self.query_order(req).no_duplicates(),
    {
        let archs = self.archetype_set.archetypes@;
        let rows = archetypes_mod::matching_rows(archs, req, archs.len() as int);
        let q = self.query_order(req);
        archetypes_mod::lemma_matching_rows(archs, req, archs.len() as int);
        assert forall|a: int, r: int| 0 <= a < archs.len() implies #[trigger] archs[a].row_map(r).dom() == archs[a].component_bits@ by {
            assert(archs[a].row_map(r).dom() =~= archs[a].component_bits@);
        }
        assert forall|e: EntityId| #[trigger] q.contains(e) <==> (self@.contains_key(e) && req.subset_of(self@[e].dom())) by {
            if q.contains(e) {
                let k = choose|k: int| 0 <= k < q.len() && q[k] == e;
                let (a, r) = rows[k];
                assert(archetypes_mod::row_linked(self.entities, archs, a, r));
            }
            if self@.contains_key(e) && req.subset_of(self@[e].dom()) {
                let i = entity_mod::spec_entity_index(e) as int;
                assert(archetypes_mod::slot_linked(self.entities, archs, i));
                entity_mod::lemma_entity_from_parts(e);
                let l = self.entities.location_of(i);
                assert(rows.contains((l.archetype_id as int, l.row as int)));
                let k = choose|k: int| 0 <= k < rows.len() && rows[k] == (l.archetype_id as int, l.row as int);
                assert(q[k] == e);
            }
        }
        assert forall|k1: int, k2: int| 0 <= k1 < q.len() && 0 <= k2 < q.len() && k1 != k2 implies q[k1] != q[k2] by {
            let (a1, r1) = rows[k1];
            let (a2, r2) = rows[k2];
            assert(archetypes_mod::row_linked(self.entities, archs, a1, r1));
            assert(archetypes_mod::row_linked(self.entities, archs, a2, r2));
        }
    }

    /// The id `id` was handed out and has gone stale since: its slot exists and
    /// has moved on to a later generation.
    pub open spec fn is_retired(&self, id: EntityId) -> bool {
        &&& entity_mod::spec_entity_index(id) < self.slot_versions().len()
        &&& self.slot_versions()[entity_mod::spec_entity_index(id) as int] > entity_mod::spec_entity_version(id)
    }

    /// `after` keeps every slot of `before`, each at the same or a later
    /// generation. Every operation keeps this: `create_entity` keeps the
    /// generations or adds a slot at generation 0, `remove_entity` moves one slot
    /// to its next generation, and the other operations keep them.
    pub open spec fn generations_kept_from(&self, before: &Self) -> bool {
        &&& before.slot_versions().len() <= self.slot_versions().len()
        &&& forall|k: int| 0 <= k < before.slot_versions().len() ==> before.slot_versions()[k] <= #[trigger] self.slot_versions()[k]
    }

    /// Removing an entity retires its id.
    pub proof fn lemma_removed_id_retired(before: &Self, after: &Self, id: EntityId)
        requires
            before.wf(),
            before@.contains_key(id),
            after.slot_versions() == before.slot_versions().update(
                entity_mod::spec_entity_index(id) as int,
                (before.slot_versions()[entity_mod::spec_entity_index(id) as int] + 1) as u32,
            ),
        ensures
            after.is_retired(id),
            after.generations_kept_from(before),
    {
        let i = entity_mod::spec_entity_index(id) as int;
        assert(archetypes_mod::entity_live(before.entities, id));
        entity_mod::lemma_entity_from_parts(id);
        assert(before.slot_versions()[i] == entity_mod::spec_entity_version(id));
    }

    /// A retired id stays retired while the generations are kept.
    pub proof fn lemma_retired_stays_retired(before: &Self, after: &Self, id: EntityId)
        requires
            before.is_retired(id),
            after.generations_kept_from(before),
        ensures
            after.is_retired(id),
    {
        assert(before.slot_versions()[entity_mod::spec_entity_index(id) as int] <= after.slot_versions()[entity_mod::spec_entity_index(id) as int]);
    }

    /// No id is handed out twice: the id that `create_entity` hands out next is
    /// neither live nor retired.
    pub proof fn lemma_next_id_fresh(&self, id: EntityId)
        requires
            self.wf(),
            self.can_create(),
            self@.contains_key(id) || self.is_retired(id),
        ensures
            self.next_id() != id,
    {
        let i = entity_mod::spec_entity_index(id);
        let v = entity_mod::spec_entity_version(id);
        entity_mod::lemma_entity_from_parts(id);
        if self@.contains_key(id) {
            assert(archetypes_mod::entity_live(self.entities, id));
        }
        assert(i < self.slot_versions().len());
        if self.free_slots().len() > 0 {
            let f = self.free_slots().last();
            let w = self.slot_versions()[f as int];
            assert(f < self.slot_versions().len());
            entity_mod::lemma_entity_roundtrip(f, w);
            if f == i {
                if self@.contains_key(id) {
                    assert(self.entities.is_free(f as int)) by {
                        assert(self.entities.free@[self.entities.free@.len() - 1] == f);
                    }
                } else {
                    assert(w > v);
                }
            }
        } else {
            let n = self.slot_versions().len() as u32;
            entity_mod::lemma_entity_roundtrip(n, 0);
        }
    }

    /// An id whose slot has moved on to another generation names no live
    /// entity. Since `remove_entity` bumps the generation of the slot it frees
    /// and no operation lowers one (the generations that ids can carry stop at
    /// 2^12, see `can_create`), a removed id stays stale.
    pub proof fn lemma_stale_id_not_live(&self, id: EntityId)
        requires
            self.wf(),
            entity_mod::spec_entity_index(id) < self.slot_versions().len(),
            self.slot_versions()[entity_mod::spec_entity_index(id) as int] != entity_mod::spec_entity_version(id),
        ensures
            !self@.contains_key(id),
    {
        assert(self.slot_versions()[entity_mod::spec_entity_index(id) as int] == self.entities.version_of(entity_mod::spec_entity_index(id) as int));
    }

    /// The calls that `query_map(ids, f)` makes on `before`, taken in the order
    /// they were made, are on the entities that `query(ids)` visits, in the
    /// same order: each live entity that has all of `ids` is called once, with
    /// its values of `ids`, and no other entity is called.
    pub proof fn lemma_query_map_calls_follow_query(before: &Self, ids: Seq<usize>, calls: Seq<((EntityId, Vec<V>), Vec<V>)>)
        requires
            before.wf(),
            calls.len() == before.query_order(ids.to_set()).len(),
            forall|k: int| #![trigger calls[k]] 0 <= k < calls.len() ==> {
                let e = before.query_order(ids.to_set())[k];
                &&& calls[k].0.0 == e
                &&& calls[k].0.1@ == ids.map_values(|c: usize| before@[e][c])
            },
        ensures
            call_entities(calls) == before.query_order(ids.to_set()),
            call_entities(calls).no_duplicates(),
            forall|e: EntityId| #[trigger] call_entities(calls).contains(e) <==> (
                before@.contains_key(e) && ids.to_set().subset_of(before@[e].dom())),
            forall|k: int| 0 <= k < calls.len() ==> before@.contains_key(#[trigger] calls[k].0.0)
                && calls[k].0.1@ == ids.map_values(|c: usize| before@[calls[k].0.0][c]),
    {
        let req = ids.to_set();
        let q = before.query_order(req);
        let es = call_entities(calls);
        assert forall|k: int| 0 <= k < es.len() implies es[k] == q[k] by {
            assert(calls[k].0.0 == q[k]);
        }
        assert(es =~= q);
        before.lemma_query_visits_matching(req);
        assert forall|k: int| 0 <= k < calls.len() implies before@.contains_key(#[trigger] calls[k].0.0)
            && calls[k].0.1@ == ids.map_values(|c: usize| before@[calls[k].0.0][c]) by {
            assert(calls[k].0.0 == q[k]);
            assert(q.contains(q[k]));
        }
    }

    /// Removing an entity takes it out of the queries that visited it: such a
    /// query visits one entity fewer, and any other query as many as before.
    pub proof fn lemma_query_count_after_remove(before: &Self, after: &Self, id: EntityId, req: Set<usize>)
        requires
            before.wf(),
            before@.contains_key(id),
            after.query_order(req) == archetypes_mod::seq_without(before.query_order(req), id),
        ensures
            after.query_order(req).len() == before.query_order(req).len() - if req.subset_of(before@[id].dom()) {
                1int
            } else {
                0int
            },
    {
        before.lemma_query_visits_matching(req);
        archetypes_mod::lemma_without_len(before.query_order(req), id);
    }

    /// Adding components that an entity lacks and then removing them by their
    /// ids gives back the components it had.
    pub proof fn lemma_add_then_remove_restores(m: Map<usize, V>, components: Bundle<V>, ids: Seq<usize>)
        requires
            ids.to_set() == components.spec_map().dom(),
            m.dom().disjoint(ids.to_set()),
        ensures
            m.union_prefer_right(components.spec_map()).remove_keys(ids.to_set()) == m,
    {
        assert(m.union_prefer_right(components.spec_map()).remove_keys(ids.to_set()) =~= m);
    }
}

} // verus!
