use nexus_ecs::query::QueryIter;
use nexus_ecs::{Entity, EntityId, World};

const POS: u64 = 10;
const VEL: u64 = 11;

fn pos(x: f32, y: f32) -> Vec<u8> {
    let mut v = x.to_le_bytes().to_vec();
    v.extend_from_slice(&y.to_le_bytes());
    v
}

fn vel(dx: f32) -> Vec<u8> {
    dx.to_le_bytes().to_vec()
}

fn pos_x(bytes: &[u8]) -> f32 {
    f32::from_le_bytes([bytes[0], bytes[1], bytes[2], bytes[3]])
}

fn collect(mut it: QueryIter) -> Vec<(Entity, Vec<u8>)> {
    let mut out = Vec::new();
    while let Some(p) = it.next() {
        out.push(p);
    }
    out
}

#[test]
fn query_finds_all_matching_entities() {
    let mut world = World::new();
    let e1 = world.spawn();
    let e2 = world.spawn();
    let e3 = world.spawn();
    world.insert(e1, POS, pos(1.0, 0.0));
    world.insert(e2, POS, pos(2.0, 0.0));
    world.insert(e3, VEL, vel(5.0)); // no POS — must not appear

    let results = collect(world.query_ref(POS));
    assert_eq!(results.len(), 2);
    let xs: Vec<f32> = results.iter().map(|(_, p)| pos_x(p)).collect();
    assert!(xs.contains(&1.0));
    assert!(xs.contains(&2.0));
}

#[test]
fn query_empty_world_returns_nothing() {
    let world = World::new();
    assert_eq!(collect(world.query_ref(POS)).len(), 0);
}

#[test]
fn query_after_despawn_excludes_removed_entity() {
    let mut world = World::new();
    let e1 = world.spawn();
    let e2 = world.spawn();
    world.insert(e1, POS, pos(1.0, 0.0));
    world.insert(e2, POS, pos(2.0, 0.0));
    world.despawn(e1);

    let results = collect(world.query_ref(POS));
    assert_eq!(results.len(), 1);
    assert_eq!(results[0].0, e2);
}

#[test]
fn query_100k_entities_benchmark_baseline() {
    let mut world = World::new();
    for i in 0..100_000u32 {
        let e = world.spawn();
        world.insert(e, POS, pos(i as f32, 0.0));
    }
    let count = collect(world.query_ref(POS)).len();
    assert_eq!(count, 100_000);
}

#[test]
fn query_iter_next_and_size_hint() {
    let e0 = EntityId::new(0, 0);
    let e1 = EntityId::new(1, 0);
    let mut it = QueryIter::from_items(vec![(e0, vec![1]), (e1, vec![2, 3])]);
    assert_eq!(it.size_hint(), (2, Some(2)));
    assert_eq!(it.next(), Some((e0, vec![1])));
    assert_eq!(it.size_hint(), (1, Some(1)));
    assert_eq!(it.next(), Some((e1, vec![2, 3])));
    assert_eq!(it.size_hint(), (0, Some(0)));
    assert_eq!(it.next(), None);
    assert_eq!(it.next(), None);
    assert_eq!(it.size_hint(), (0, Some(0)));
}

#[test]
fn query_order_follows_archetypes_then_rows() {
    let mut world = World::new();
    let a = world.spawn();
    let b = world.spawn();
    let c = world.spawn();
    world.insert(a, POS, pos(1.0, 0.0));
    world.insert(b, POS, pos(2.0, 0.0));
    world.insert(c, VEL, vel(1.0));
    world.insert(c, POS, pos(3.0, 0.0));
    let results = collect(world.query_ref(POS));
    assert_eq!(results, vec![(a, pos(1.0, 0.0)), (b, pos(2.0, 0.0)), (c, pos(3.0, 0.0))]);
}

#[test]
fn query_reports_each_value_once() {
    let mut world = World::new();
    let a = world.spawn();
    world.insert(a, POS, pos(1.0, 1.0));
    world.insert(a, POS, pos(7.0, 1.0));
    world.insert(a, VEL, vel(2.0));
    let results = collect(world.query_ref(POS));
    assert_eq!(results, vec![(a, pos(7.0, 1.0))]);
    world.remove(a, POS);
    assert_eq!(collect(world.query_ref(POS)).len(), 0);
    assert_eq!(collect(world.query_ref(VEL)), vec![(a, vel(2.0))]);
}
