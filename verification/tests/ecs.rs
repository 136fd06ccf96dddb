use fable_ecs::{BitSet, Bundle, ComponentId, ComponentInfo, Ecs, EntityId, ecs_init};

const POS: usize = 0;
const VEL: usize = 1;
const TAG: usize = 5;

fn bundle(items: Vec<(usize, i64)>) -> Bundle<i64> {
    Bundle::new(items)
}

fn component_of(result: &Vec<(EntityId, Vec<&i64>)>, e: EntityId) -> Option<Vec<i64>> {
    for (id, vals) in result {
        if *id == e {
            return Some(vals.iter().map(|v| **v).collect());
        }
    }
    None
}

#[test]
fn create_entity_hands_out_fresh_ids() {
    let mut ecs: Ecs<i64> = Ecs::new();
    let a = ecs.create_entity(bundle(vec![(POS, 1)]));
    let b = ecs.create_entity(bundle(vec![(POS, 2), (VEL, 3)]));
    assert_eq!(a, 0);
    assert_eq!(b, 1);
}

#[test]
fn query_visits_entities_with_all_components() {
    let mut ecs: Ecs<i64> = Ecs::new();
    let a = ecs.create_entity(bundle(vec![(POS, 1)]));
    let b = ecs.create_entity(bundle(vec![(POS, 2), (VEL, 3)]));
    let c = ecs.create_entity(bundle(vec![(VEL, 4)]));
    let r = ecs.query(&[POS]);
    assert_eq!(r.len(), 2);
    assert_eq!(component_of(&r, a), Some(vec![1]));
    assert_eq!(component_of(&r, b), Some(vec![2]));
    assert_eq!(component_of(&r, c), None);
    let r = ecs.query(&[VEL, POS]);
    assert_eq!(r.len(), 1);
    assert_eq!(r[0].0, b);
    assert_eq!(*r[0].1[0], 3);
    assert_eq!(*r[0].1[1], 2);
}

#[test]
fn query_order_follows_archetype_creation() {
    let mut ecs: Ecs<i64> = Ecs::new();
    let a = ecs.create_entity(bundle(vec![(POS, 1)]));
    let b = ecs.create_entity(bundle(vec![(POS, 2)]));
    let r = ecs.query(&[POS]);
    let order: Vec<EntityId> = r.iter().map(|x| x.0).collect();
    assert_eq!(order, vec![a, b]);
    // a moves to a newer archetype, so it now comes after b
    ecs.add_components(a, bundle(vec![(VEL, 7)]));
    let r = ecs.query(&[POS]);
    let order: Vec<EntityId> = r.iter().map(|x| x.0).collect();
    assert_eq!(order, vec![b, a]);
}

#[test]
fn empty_query_visits_every_entity() {
    let mut ecs: Ecs<i64> = Ecs::new();
    ecs.create_entity(bundle(vec![(POS, 1)]));
    ecs.create_entity(bundle(vec![]));
    let r = ecs.query(&[]);
    assert_eq!(r.len(), 2);
    assert!(r.iter().all(|x| x.1.is_empty()));
}

#[test]
fn bundle_keeps_last_value_of_repeated_id() {
    let mut ecs: Ecs<i64> = Ecs::new();
    let a = ecs.create_entity(bundle(vec![(POS, 1), (POS, 9)]));
    let r = ecs.query(&[POS]);
    assert_eq!(component_of(&r, a), Some(vec![9]));
}

#[test]
fn remove_entity_drops_it_from_queries() {
    let mut ecs: Ecs<i64> = Ecs::new();
    let a = ecs.create_entity(bundle(vec![(POS, 1)]));
    let b = ecs.create_entity(bundle(vec![(POS, 2)]));
    ecs.remove_entity(a);
    let r = ecs.query(&[POS]);
    assert_eq!(r.len(), 1);
    assert_eq!(component_of(&r, b), Some(vec![2]));
}

#[test]
fn removed_slot_is_reused_with_next_generation() {
    let mut ecs: Ecs<i64> = Ecs::new();
    let a = ecs.create_entity(bundle(vec![(POS, 1)]));
    let _b = ecs.create_entity(bundle(vec![(POS, 2)]));
    ecs.remove_entity(a);
    let c = ecs.create_entity(bundle(vec![(TAG, 5)]));
    // slot 0 again, generation 1
    assert_eq!(c, (1 << 20) | 0);
    assert_ne!(c, a);
    let d = ecs.create_entity(bundle(vec![(TAG, 6)]));
    assert_eq!(d, 2);
}

#[test]
fn freed_slots_are_reused_last_freed_first() {
    let mut ecs: Ecs<i64> = Ecs::new();
    let a = ecs.create_entity(bundle(vec![(POS, 1)]));
    let b = ecs.create_entity(bundle(vec![(POS, 2)]));
    ecs.remove_entity(a);
    ecs.remove_entity(b);
    let c = ecs.create_entity(bundle(vec![(POS, 3)]));
    let d = ecs.create_entity(bundle(vec![(POS, 4)]));
    assert_eq!(c, (1 << 20) | 1);
    assert_eq!(d, (1 << 20) | 0);
}

#[test]
fn add_components_keeps_old_and_overwrites_shared() {
    let mut ecs: Ecs<i64> = Ecs::new();
    let a = ecs.create_entity(bundle(vec![(POS, 1), (VEL, 2)]));
    ecs.add_components(a, bundle(vec![(VEL, 20), (TAG, 30)]));
    let r = ecs.query(&[POS, VEL, TAG]);
    assert_eq!(component_of(&r, a), Some(vec![1, 20, 30]));
}

#[test]
fn remove_components_keeps_the_rest() {
    let mut ecs: Ecs<i64> = Ecs::new();
    let a = ecs.create_entity(bundle(vec![(POS, 1), (VEL, 2), (TAG, 3)]));
    ecs.remove_components(a, &[VEL, 100]);
    assert_eq!(ecs.query(&[VEL]).len(), 0);
    let r = ecs.query(&[POS, TAG]);
    assert_eq!(component_of(&r, a), Some(vec![1, 3]));
}

#[test]
fn add_then_remove_restores_components() {
    let mut ecs: Ecs<i64> = Ecs::new();
    let a = ecs.create_entity(bundle(vec![(POS, 1)]));
    ecs.add_components(a, bundle(vec![(VEL, 2)]));
    ecs.remove_components(a, &[VEL]);
    let r = ecs.query(&[]);
    assert_eq!(r.len(), 1);
    assert_eq!(r[0].0, a);
    assert_eq!(component_of(&ecs.query(&[POS]), a), Some(vec![1]));
    assert_eq!(ecs.query(&[VEL]).len(), 0);
}

#[test]
fn moving_an_entity_keeps_the_others() {
    let mut ecs: Ecs<i64> = Ecs::new();
    let a = ecs.create_entity(bundle(vec![(POS, 1)]));
    let b = ecs.create_entity(bundle(vec![(POS, 2)]));
    let c = ecs.create_entity(bundle(vec![(POS, 3)]));
    ecs.add_components(b, bundle(vec![(VEL, 5)]));
    ecs.remove_components(a, &[POS]);
    ecs.remove_entity(c);
    let r = ecs.query(&[POS]);
    assert_eq!(r.len(), 1);
    assert_eq!(component_of(&r, b), Some(vec![2]));
    assert_eq!(ecs.query(&[]).len(), 2);
}

#[test]
fn bitset_from_ids_and_count() {
    let s = BitSet::from_component_ids(&[3, 0, 127, 3]);
    assert_eq!(s.count(), 3);
    assert!(s == BitSet::from_component_ids(&[0, 3, 127]));
    assert!(s != BitSet::from_component_ids(&[0, 1, 3, 127]));
}

#[test]
fn bitset_iterates_in_increasing_order() {
    let s = BitSet::from_component_ids(&[64, 2, 127, 9]);
    let mut it = s.iter();
    let mut seen = Vec::new();
    while let Some(i) = it.next() {
        seen.push(i);
    }
    assert_eq!(seen, vec![2, 9, 64, 127]);
    assert_eq!(BitSet::from_component_ids(&[]).iter().next(), None);
}

#[test]
fn bitset_operations() {
    let a = BitSet::from_component_ids(&[1, 2, 3]);
    let b = BitSet::from_component_ids(&[3, 4]);
    assert!(a.bitand(b) == BitSet::from_component_ids(&[3]));
    assert!(a.bitor(b) == BitSet::from_component_ids(&[1, 2, 3, 4]));
    assert!(a.bitxor(b) == BitSet::from_component_ids(&[1, 2, 4]));
    let n = a.not();
    assert_eq!(n.count(), 125);
    assert!(n.bitand(a) == BitSet::from_component_ids(&[]));
    assert_eq!(n.bitor(a).count(), 128);
    let mut it = n.iter();
    assert_eq!(it.next(), Some(0));
    assert_eq!(it.next(), Some(4));
    let mut c = a;
    c.bitand_assign(b);
    assert!(c == BitSet::from_component_ids(&[3]));
    let mut c = a;
    c.bitor_assign(b);
    assert_eq!(c.count(), 4);
    let mut c = a;
    c.bitxor_assign(b);
    assert!(c == BitSet::from_component_ids(&[1, 2, 4]));
}

#[test]
fn bundle_bit_set_and_ids() {
    let b = bundle(vec![(7, 1), (2, 2), (7, 3)]);
    assert_eq!(b.len(), 3);
    assert_eq!(b.component_ids(), vec![7, 2, 7]);
    assert!(b.get_bit_set() == BitSet::from_component_ids(&[2, 7]));
}

#[test]
fn ecs_init_numbers_components_by_position() {
    let mut pool = vec![
        ComponentInfo::of(8, 8, ComponentId::invalid()),
        ComponentInfo::of(4, 4, ComponentId::invalid()),
        ComponentInfo::of(0, 1, ComponentId::invalid()),
    ];
    assert_eq!(pool[1].id_ptr.get_id(), usize::MAX);
    ecs_init(&mut pool);
    assert_eq!(pool[0].id_ptr.get_id(), 0);
    assert_eq!(pool[1].id_ptr.get_id(), 1);
    assert_eq!(pool[2].id_ptr.get_id(), 2);
    assert_eq!(pool[0].size, 8);
    assert_eq!(pool[2].align, 1);
}

#[test]
fn is_alive_follows_create_and_remove() {
    let mut ecs: Ecs<i64> = Ecs::new();
    assert!(!ecs.is_alive(0));
    let a = ecs.create_entity(bundle(vec![(POS, 1)]));
    assert!(ecs.is_alive(a));
    ecs.remove_entity(a);
    assert!(!ecs.is_alive(a));
    // the freed slot at its new generation is not live until handed out again
    assert!(!ecs.is_alive((1 << 20) | 0));
    let b = ecs.create_entity(bundle(vec![(POS, 2)]));
    assert_eq!(b, (1 << 20) | 0);
    assert!(ecs.is_alive(b));
    assert!(!ecs.is_alive(a));
}

#[test]
fn each_structural_change_makes_an_archetype() {
    let mut ecs: Ecs<i64> = Ecs::new();
    assert_eq!(ecs.archetype_count(), 0);
    let a = ecs.create_entity(bundle(vec![(POS, 1)]));
    let _b = ecs.create_entity(bundle(vec![(POS, 1)]));
    assert_eq!(ecs.archetype_count(), 2);
    ecs.add_components(a, bundle(vec![(VEL, 1)]));
    assert_eq!(ecs.archetype_count(), 3);
    ecs.remove_components(a, &[VEL]);
    assert_eq!(ecs.archetype_count(), 4);
    ecs.remove_entity(a);
    assert_eq!(ecs.archetype_count(), 4);
}

#[test]
fn slot_runs_out_of_generations() {
    let mut ecs: Ecs<i64> = Ecs::new();
    for g in 0..4096u32 {
        assert!(ecs.can_create_entity());
        let e = ecs.create_entity(bundle(vec![]));
        assert_eq!(e, g << 20);
        ecs.remove_entity(e);
    }
    // slot 0 is at generation 4096, which an id cannot carry
    assert!(!ecs.can_create_entity());
}

#[test]
fn query_map_updates_matching_entities_in_place() {
    let mut ecs: Ecs<i64> = Ecs::new();
    let a = ecs.create_entity(bundle(vec![(POS, 1), (VEL, 2)]));
    let b = ecs.create_entity(bundle(vec![(POS, 3)]));
    let c = ecs.create_entity(bundle(vec![(POS, 5), (VEL, 7), (TAG, 0)]));
    let before = ecs.archetype_count();
    ecs.query_map(&[VEL, POS], |e: EntityId, vals: Vec<i64>| {
        // velocity is added to position; the entity id is added to velocity
        vec![vals[0] + e as i64, vals[0] + vals[1]]
    });
    assert_eq!(ecs.archetype_count(), before);
    let r = ecs.query(&[POS, VEL]);
    assert_eq!(component_of(&r, a), Some(vec![3, 2 + a as i64]));
    assert_eq!(component_of(&r, c), Some(vec![12, 7 + c as i64]));
    let r = ecs.query(&[POS]);
    assert_eq!(component_of(&r, b), Some(vec![3]));
    let order: Vec<EntityId> = r.iter().map(|x| x.0).collect();
    assert_eq!(order, vec![a, b, c]);
    let r = ecs.query(&[TAG]);
    assert_eq!(component_of(&r, c), Some(vec![0]));
}

#[test]
fn remove_entity_keeps_query_order_of_the_rest() {
    let mut ecs: Ecs<i64> = Ecs::new();
    let a = ecs.create_entity(bundle(vec![(POS, 1)]));
    let b = ecs.create_entity(bundle(vec![(POS, 2)]));
    let c = ecs.create_entity(bundle(vec![(POS, 3)]));
    ecs.remove_entity(b);
    let order: Vec<EntityId> = ecs.query(&[POS]).iter().map(|x| x.0).collect();
    assert_eq!(order, vec![a, c]);
    ecs.remove_components(a, &[VEL]);
    let order: Vec<EntityId> = ecs.query(&[POS]).iter().map(|x| x.0).collect();
    assert_eq!(order, vec![c, a]);
}

#[test]
fn remove_entity_drops_its_values() {
    let shared = std::rc::Rc::new(0i32);
    let mut ecs: Ecs<std::rc::Rc<i32>> = Ecs::new();
    let a = ecs.create_entity(Bundle::new(vec![(POS, shared.clone()), (VEL, shared.clone())]));
    let _b = ecs.create_entity(Bundle::new(vec![(POS, shared.clone())]));
    assert_eq!(std::rc::Rc::strong_count(&shared), 4);
    ecs.remove_entity(a);
    assert_eq!(std::rc::Rc::strong_count(&shared), 2);
}

#[test]
fn remove_components_drops_only_the_removed_values() {
    let shared = std::rc::Rc::new(0i32);
    let mut ecs: Ecs<std::rc::Rc<i32>> = Ecs::new();
    let a = ecs.create_entity(Bundle::new(vec![(POS, shared.clone()), (VEL, shared.clone())]));
    assert_eq!(std::rc::Rc::strong_count(&shared), 3);
    ecs.remove_components(a, &[VEL, TAG]);
    assert_eq!(std::rc::Rc::strong_count(&shared), 2);
    let r = ecs.query(&[POS]);
    assert_eq!(r.len(), 1);
}

#[test]
fn overwritten_and_stored_values_are_not_dropped() {
    let shared = std::rc::Rc::new(0i32);
    {
        let mut ecs: Ecs<std::rc::Rc<i32>> = Ecs::new();
        let a = ecs.create_entity(Bundle::new(vec![(POS, shared.clone()), (POS, shared.clone())]));
        assert_eq!(std::rc::Rc::strong_count(&shared), 3);
        ecs.add_components(a, Bundle::new(vec![(POS, shared.clone())]));
        assert_eq!(std::rc::Rc::strong_count(&shared), 4);
    }
    // the storage runs no destructor when it goes away
    assert_eq!(std::rc::Rc::strong_count(&shared), 4);
}

#[test]
fn no_id_is_handed_out_twice() {
    let mut ecs: Ecs<i64> = Ecs::new();
    let mut seen: Vec<EntityId> = Vec::new();
    let mut live: Vec<EntityId> = Vec::new();
    for round in 0..50i64 {
        let e = ecs.create_entity(bundle(vec![(POS, round)]));
        assert!(!seen.contains(&e));
        seen.push(e);
        live.push(e);
        if round % 3 != 0 {
            let gone = live.remove((round as usize * 7) % live.len());
            ecs.remove_entity(gone);
            assert!(!ecs.is_alive(gone));
        }
    }
}

#[test]
fn remove_entity_shortens_only_the_queries_that_visited_it() {
    let mut ecs: Ecs<i64> = Ecs::new();
    let a = ecs.create_entity(bundle(vec![(POS, 1), (VEL, 1)]));
    ecs.create_entity(bundle(vec![(POS, 2)]));
    ecs.create_entity(bundle(vec![(TAG, 3)]));
    assert_eq!(ecs.query(&[POS]).len(), 2);
    assert_eq!(ecs.query(&[VEL]).len(), 1);
    assert_eq!(ecs.query(&[TAG]).len(), 1);
    ecs.remove_entity(a);
    assert_eq!(ecs.query(&[POS]).len(), 1);
    assert_eq!(ecs.query(&[VEL]).len(), 0);
    assert_eq!(ecs.query(&[TAG]).len(), 1);
}

#[test]
fn bitset_splits_into_parts_inside_and_outside_another() {
    let a = BitSet::from_component_ids(&[0, 5, 64, 127]);
    let b = BitSet::from_component_ids(&[5, 6, 127]);
    let outside = a.bitand(b.not());
    let inside = a.bitand(b);
    assert!(outside.bitor(inside) == a);
    assert_eq!(outside.bitand(b).count(), 0);
    assert!(a.not().not() == a);
    assert!(outside == BitSet::from_component_ids(&[0, 64]));
}
