# fable_ecs

An archetype-based entity-component store, verified with Verus.

Entities are handed out as generational ids (a slot index in the low 20 bits,
the slot's generation above). Each entity holds components, values of one type
`V` under component ids below 128. Entities with the same component set live in
an archetype: one column per component, one row per entity. Adding or removing
components moves an entity to another archetype; removing an entity moves the
last row of its archetype into its place.

Values are dropped where an entity or a component is removed, and nowhere
else: a value that a bundle overwrites stays undropped, and so do the values
still stored when the store itself goes away.

Layout:

- `src/bitset.rs`: sets of component ids as the bits of a `u128`.
- `src/entity.rs`: id encoding and the slot allocator with its free list.
- `src/components.rs`: component ids and the component registry.
- `src/fetch.rs`: bundles, the components given to an entity at once.
- `src/archetypes.rs`: archetypes, the set of archetypes, and the proofs that
  slots and rows stay linked.
- `src/lib.rs`: `Ecs`, whose view is a map from each live entity to its
  components; every operation is specified over that map.
- `app/lib.rs`: a typed front end: component types registered at link time
  with `linkme`, bundles and queries over Rust types.
- `tests/`: tests of the library on concrete values.
