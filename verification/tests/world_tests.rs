use nexus_ecs::query::QueryIter;
use nexus_ecs::{Entity, EntityId, World};

const POSITION: u64 = 1;
const VELOCITY: u64 = 2;
const HEALTH: u64 = 3;

fn position(x: f32, y: f32) -> Vec<u8> {
    let mut v = x.to_le_bytes().to_vec();
    v.extend_from_slice(&y.to_le_bytes());
    v
}

fn velocity(dx: f32, dy: f32) -> Vec<u8> {
    position(dx, dy)
}

fn health(h: u32) -> Vec<u8> {
    h.to_le_bytes().to_vec()
}

fn drain_all(mut it: QueryIter) -> Vec<(Entity, Vec<u8>)> {
    let mut out = Vec::new();
    while let Some(p) = it.next() {
        out.push(p);
    }
    out
}

// ── Spawn / despawn correctness ───────────────────────────────────────

#[test]
fn spawn_registers_entity_immediately() {
    let mut world = World::new();
    assert_eq!(world.entity_count(), 0);
    let e = world.spawn();
    assert_eq!(world.entity_count(), 1);
    assert!(world.is_alive(e));
}

#[test]
fn spawn_three_despawn_one_count_correct() {
    let mut world = World::new();
    let e1 = world.spawn();
    let e2 = world.spawn();
    let e3 = world.spawn();
    assert_eq!(world.entity_count(), 3);
    world.despawn(e2);
    assert_eq!(world.entity_count(), 2);
    assert!(world.is_alive(e1));
    assert!(!world.is_alive(e2));
    assert!(world.is_alive(e3));
}

#[test]
fn despawn_noop_on_dead_entity() {
    let mut world = World::new();
    let e = world.spawn();
    world.despawn(e);
    world.despawn(e); // second call must not panic or corrupt state
    assert_eq!(world.entity_count(), 0);
}

#[test]
fn recycled_entity_slot_has_new_generation() {
    let mut world = World::new();
    let e1 = world.spawn();
    let gen1 = e1.generation();
    world.despawn(e1);
    let e2 = world.spawn();
    assert_eq!(e2.index(), e1.index());
    assert_eq!(e2.generation(), gen1 + 1);
    assert!(!world.is_alive(e1)); // stale handle must be dead
    assert!(world.is_alive(e2));
}

#[test]
fn stress_spawn_despawn_1m() {
    let mut world = World::new();
    let entities: Vec<_> = (0..1_000_000).map(|_| world.spawn()).collect();
    assert_eq!(world.entity_count(), 1_000_000);
    for e in &entities {
        world.despawn(*e);
    }
    assert_eq!(world.entity_count(), 0);
}

// ── Component insert / get ────────────────────────────────────────────

#[test]
fn insert_and_get_component() {
    let mut world = World::new();
    let e = world.spawn();
    world.insert(e, POSITION, position(1.0, 2.0));
    let pos = world.get(e, POSITION).expect("component missing");
    assert_eq!(pos, position(1.0, 2.0));
}

#[test]
fn insert_overwrites_existing_component() {
    let mut world = World::new();
    let e = world.spawn();
    world.insert(e, HEALTH, health(100));
    world.insert(e, HEALTH, health(50));
    assert_eq!(world.get(e, HEALTH), Some(health(50)));
}

#[test]
fn insert_multiple_components_same_entity() {
    let mut world = World::new();
    let e = world.spawn();
    world.insert(e, POSITION, position(3.0, 4.0));
    world.insert(e, VELOCITY, velocity(1.0, 0.0));
    world.insert(e, HEALTH, health(75));
    assert_eq!(world.get(e, POSITION), Some(position(3.0, 4.0)));
    assert_eq!(world.get(e, VELOCITY), Some(velocity(1.0, 0.0)));
    assert_eq!(world.get(e, HEALTH), Some(health(75)));
}

#[test]
fn get_missing_component_returns_none() {
    let mut world = World::new();
    let e = world.spawn();
    world.insert(e, POSITION, position(0.0, 0.0));
    assert_eq!(world.get(e, VELOCITY), None);
}

// ── Component remove ──────────────────────────────────────────────────

#[test]
fn remove_component_makes_it_absent() {
    let mut world = World::new();
    let e = world.spawn();
    world.insert(e, POSITION, position(1.0, 1.0));
    world.insert(e, HEALTH, health(100));
    world.remove(e, POSITION);
    assert_eq!(world.get(e, POSITION), None);
    assert_eq!(world.get(e, HEALTH), Some(health(100)));
}

#[test]
fn remove_absent_component_is_noop() {
    let mut world = World::new();
    let e = world.spawn();
    world.remove(e, POSITION); // must not panic
    assert!(world.is_alive(e));
}

// ── Archetype integrity after swap-remove ─────────────────────────────

#[test]
fn despawn_middle_entity_keeps_others_correct() {
    let mut world = World::new();
    let e1 = world.spawn();
    let e2 = world.spawn();
    let e3 = world.spawn();
    world.insert(e1, POSITION, position(1.0, 0.0));
    world.insert(e2, POSITION, position(2.0, 0.0));
    world.insert(e3, POSITION, position(3.0, 0.0));

    world.despawn(e2); // swap-remove; e3 slides into e2's row

    assert_eq!(world.get(e1, POSITION), Some(position(1.0, 0.0)));
    assert_eq!(world.get(e3, POSITION), Some(position(3.0, 0.0)));
    assert!(!world.is_alive(e2));
    assert_eq!(world.entity_count(), 2);
}

// ── Own scenarios ─────────────────────────────────────────────────────

#[test]
fn fresh_world_state() {
    let world = World::default();
    assert_eq!(world.entity_count(), 0);
    assert!(world.can_spawn());
    assert_eq!(world.component_size(POSITION), None);
    assert!(!world.is_alive(EntityId::new(0, 0)));
}

#[test]
fn first_spawns_get_fresh_indices_generation_zero() {
    let mut world = World::new();
    let a = world.spawn();
    let b = world.spawn();
    assert_eq!(a, EntityId::new(0, 0));
    assert_eq!(b, EntityId::new(1, 0));
}

#[test]
fn component_size_registered_on_first_insert() {
    let mut world = World::new();
    let e = world.spawn();
    world.insert(e, HEALTH, health(1));
    assert_eq!(world.component_size(HEALTH), Some(4));
    world.remove(e, HEALTH);
    // the size stays registered for the key
    assert_eq!(world.component_size(HEALTH), Some(4));
}

#[test]
fn get_on_dead_entity_returns_none() {
    let mut world = World::new();
    let e = world.spawn();
    world.insert(e, HEALTH, health(9));
    world.despawn(e);
    assert_eq!(world.get(e, HEALTH), None);
    let e2 = world.spawn();
    // the recycled slot starts without components
    assert_eq!(world.get(e2, HEALTH), None);
    assert_eq!(world.get(e, HEALTH), None);
}

#[test]
fn remove_keeps_other_entities_components() {
    let mut world = World::new();
    let a = world.spawn();
    let b = world.spawn();
    world.insert(a, POSITION, position(1.0, 1.0));
    world.insert(b, POSITION, position(2.0, 2.0));
    world.insert(a, HEALTH, health(3));
    world.remove(a, POSITION);
    assert_eq!(world.get(b, POSITION), Some(position(2.0, 2.0)));
    assert_eq!(world.get(a, HEALTH), Some(health(3)));
    assert_eq!(world.get(a, POSITION), None);
    world.insert(a, POSITION, position(5.0, 5.0));
    assert_eq!(world.get(a, POSITION), Some(position(5.0, 5.0)));
    assert_eq!(world.get(a, HEALTH), Some(health(3)));
}

#[test]
fn insert_order_does_not_matter() {
    let mut world = World::new();
    let a = world.spawn();
    let b = world.spawn();
    world.insert(a, POSITION, position(1.0, 0.0));
    world.insert(a, HEALTH, health(1));
    world.insert(b, HEALTH, health(2));
    world.insert(b, POSITION, position(2.0, 0.0));
    assert_eq!(world.get(a, POSITION), Some(position(1.0, 0.0)));
    assert_eq!(world.get(b, POSITION), Some(position(2.0, 0.0)));
    assert_eq!(world.get(a, HEALTH), Some(health(1)));
    assert_eq!(world.get(b, HEALTH), Some(health(2)));
    let hs = drain_all(world.query_ref(HEALTH));
    assert_eq!(hs.len(), 2);
}

#[test]
fn migration_keeps_rows_of_others_consistent() {
    let mut world = World::new();
    let es: Vec<Entity> = (0..5).map(|_| world.spawn()).collect();
    for (i, e) in es.iter().enumerate() {
        world.insert(*e, HEALTH, health(i as u32));
    }
    // move the first one to another archetype: the last slides into its row
    world.insert(es[0], POSITION, position(0.5, 0.5));
    for (i, e) in es.iter().enumerate() {
        assert_eq!(world.get(*e, HEALTH), Some(health(i as u32)));
    }
    world.despawn(es[2]);
    for (i, e) in es.iter().enumerate() {
        if i != 2 {
            assert_eq!(world.get(*e, HEALTH), Some(health(i as u32)));
        }
    }
    assert_eq!(world.entity_count(), 4);
}

#[test]
fn insert_then_remove_restores_world() {
    let mut world = World::new();
    let a = world.spawn();
    let b = world.spawn();
    world.insert(a, HEALTH, health(4));
    world.insert(b, POSITION, position(1.0, 2.0));
    world.insert(a, VELOCITY, velocity(3.0, 3.0));
    world.remove(a, VELOCITY);
    assert_eq!(world.get(a, VELOCITY), None);
    assert_eq!(world.get(a, HEALTH), Some(health(4)));
    assert_eq!(world.get(b, POSITION), Some(position(1.0, 2.0)));
    assert_eq!(world.entity_count(), 2);
}

#[test]
fn respawned_ids_are_never_repeated() {
    let mut world = World::new();
    let mut seen: Vec<Entity> = Vec::new();
    let a = world.spawn();
    seen.push(a);
    for _ in 0..5 {
        let last = *seen.last().unwrap();
        world.despawn(last);
        let e = world.spawn();
        assert!(!seen.contains(&e));
        seen.push(e);
    }
    assert_eq!(seen.last().unwrap().index(), a.index());
    assert_eq!(seen.last().unwrap().generation(), 5);
}
