use nexus_ecs::entity::{EntityAllocator, EntityId};

#[test]
fn entity_id_packs_index_and_generation() {
    let e = EntityId::new(7, 3);
    assert_eq!(e.index(), 7);
    assert_eq!(e.generation(), 3);
    assert_eq!(e.0, (3u64 << 32) | 7);
    let m = EntityId::new(u32::MAX, u32::MAX);
    assert_eq!(m.0, u64::MAX);
    assert_eq!(m.index(), u32::MAX);
    assert_eq!(m.generation(), u32::MAX);
}

#[test]
fn entity_id_round_trip_from_bits() {
    let e = EntityId(0x0000_0005_0000_0009);
    assert_eq!(EntityId::new(e.index(), e.generation()), e);
}

#[test]
fn allocator_hands_out_fresh_indices_in_order() {
    let mut a = EntityAllocator::new();
    assert_eq!(a.allocate(), EntityId::new(0, 0));
    assert_eq!(a.allocate(), EntityId::new(1, 0));
    assert_eq!(a.allocate(), EntityId::new(2, 0));
    assert_eq!(a.fresh_count(), 3);
    assert_eq!(a.free_count(), 0);
}

#[test]
fn allocator_recycles_last_freed_with_next_generation() {
    let mut a = EntityAllocator::new();
    let e0 = a.allocate();
    let e1 = a.allocate();
    a.free(e0);
    a.free(e1);
    assert_eq!(a.free_count(), 2);
    let r1 = a.allocate();
    assert_eq!(r1, EntityId::new(1, 1));
    let r0 = a.allocate();
    assert_eq!(r0, EntityId::new(0, 1));
    assert_eq!(a.allocate(), EntityId::new(2, 0));
}

#[test]
fn allocator_generation_wraps() {
    let mut a = EntityAllocator::new();
    a.free(EntityId::new(4, u32::MAX));
    let r = a.allocate();
    assert_eq!(r.index(), 4);
    assert_eq!(r.generation(), 0);
}
