use sindri::entities::{EntityComponent, Name, Transform, TRANSFORM_KIND};
use sindri::world::{EntityId, Kinded, World};

#[derive(Clone, Copy, Debug, PartialEq)]
struct Counter {
    value: i32,
}

impl Kinded for Counter {
    fn kind(&self) -> u32 {
        0
    }
}

#[test]
fn query_mut_modifies_in_place() {
    let mut world = World::new();
    let a = world.spawn();
    let b = world.spawn();
    world.insert(a, Counter { value: 1 });
    world.insert(b, Counter { value: 2 });

    // Mutate all counters in a single pass.
    world.query_mut(0, |_entity, counter: Counter| Counter { value: counter.value * 10 });

    assert_eq!(world.get(a, 0).unwrap().value, 10);
    assert_eq!(world.get(b, 0).unwrap().value, 20);
}

#[test]
fn spawn_hands_out_increasing_ids_from_one() {
    let mut world: World<Counter> = World::new();
    assert!(world.is_empty());
    let a = world.spawn();
    let b = world.spawn();
    assert_eq!(a, EntityId(1));
    assert_eq!(b, EntityId(2));
    assert_eq!(a.to_u32(), 1);
    assert_eq!(world.len(), 2);
    assert!(world.is_alive(a) && world.is_alive(b));
    assert!(!world.is_empty());
}

#[test]
fn get_after_insert_returns_value() {
    let mut world = World::new();
    let a = world.spawn();
    assert!(world.get(a, 0).is_none());
    world.insert(a, Counter { value: 7 });
    assert_eq!(world.get(a, 0), Some(&Counter { value: 7 }));
    world.insert(a, Counter { value: 8 });
    assert_eq!(world.get(a, 0), Some(&Counter { value: 8 }));
}

#[test]
fn remove_after_insert_gives_value_back() {
    let mut world = World::new();
    let a = world.spawn();
    world.insert(a, Counter { value: 3 });
    assert_eq!(world.remove(a, 0), Some(Counter { value: 3 }));
    assert_eq!(world.remove(a, 0), None);
    assert!(world.get(a, 0).is_none());
    assert!(world.is_alive(a));
}

#[test]
fn despawn_clears_entity_and_component() {
    let mut world = World::new();
    let a = world.spawn();
    let b = world.spawn();
    world.insert(a, Counter { value: 1 });
    world.insert(b, Counter { value: 2 });
    assert!(world.despawn(a));
    assert!(!world.is_alive(a));
    assert!(world.get(a, 0).is_none());
    assert_eq!(world.get(b, 0), Some(&Counter { value: 2 }));
    assert!(!world.despawn(a));
    assert_eq!(world.len(), 1);
}

#[test]
fn get_mut_changes_component() {
    let mut world = World::new();
    let a = world.spawn();
    world.insert(a, Counter { value: 5 });
    if let Some(c) = world.get_mut(a, 0) {
        c.value = 6;
    }
    assert_eq!(world.get(a, 0).unwrap().value, 6);
    assert!(world.get_mut(EntityId(99), 0).is_none());
}

#[test]
fn query_lists_components_in_insertion_order() {
    let mut world = World::new();
    let a = world.spawn();
    let b = world.spawn();
    world.insert(b, Counter { value: 2 });
    world.insert(a, Counter { value: 1 });
    let q = world.query(0);
    assert_eq!(q.len(), 2);
    assert_eq!(q[0].0, b);
    assert_eq!(q[0].1.value, 2);
    assert_eq!(q[1].0, a);
    assert_eq!(q[1].1.value, 1);
}

#[test]
fn entities_lists_each_alive_entity_once() {
    let mut world: World<Counter> = World::new();
    let a = world.spawn();
    let b = world.spawn();
    let c = world.spawn();
    world.despawn(b);
    let mut es = world.entities();
    es.sort();
    assert_eq!(es, vec![a, c]);
}

#[test]
fn restore_entity_moves_next_id_past_it() {
    let mut world: World<Counter> = World::new();
    world.restore_entity(EntityId(10));
    assert!(world.is_alive(EntityId(10)));
    let n = world.spawn();
    assert_eq!(n, EntityId(11));
    world.restore_entity(EntityId(3));
    assert_eq!(world.spawn(), EntityId(12));
}

#[test]
fn spawn_wraps_past_max_to_one() {
    let mut world: World<Counter> = World::new();
    world.restore_entity(EntityId(u32::MAX));
    assert_eq!(world.spawn(), EntityId(1));
}

#[test]
fn default_world_is_empty() {
    let world: World<Counter> = World::default();
    assert!(world.is_empty());
    assert_eq!(world.len(), 0);
}

#[test]
fn components_of_different_kinds_live_side_by_side() {
    let mut world: World<EntityComponent<(i32, i32)>> = World::new();
    let e = world.spawn();
    world.insert(e, EntityComponent::Transform(Transform::new((1, 2))));
    world.insert(e, EntityComponent::Name(Name::new("hero")));
    assert!(world.get(e, TRANSFORM_KIND).is_some());
    match world.get(e, 1) {
        Some(EntityComponent::Name(n)) => assert_eq!(n, &Name::new("hero")),
        _ => panic!("name missing"),
    }
    let kinds: Vec<u32> = world.components_of(e).iter().map(|p| p.0).collect();
    assert_eq!(kinds, vec![TRANSFORM_KIND, 1]);
    assert_eq!(world.query(1).len(), 1);
    world.query_mut(TRANSFORM_KIND, |_e, c| match c {
        EntityComponent::Transform(t) => EntityComponent::Transform(Transform::new((t.spatial.0 + 1, t.spatial.1))),
        other => other,
    });
    match world.get(e, TRANSFORM_KIND) {
        Some(EntityComponent::Transform(t)) => assert_eq!(t.spatial, (2, 2)),
        _ => panic!("transform missing"),
    }
    assert!(world.remove(e, 1).is_some());
    assert!(world.get(e, TRANSFORM_KIND).is_some());
    assert!(world.despawn(e));
    assert!(world.get(e, TRANSFORM_KIND).is_none());
}
