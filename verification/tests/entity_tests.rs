use nomai_engine::entity::{EntityAllocator, EntityId};

#[test]
fn allocate_unique_ids() {
    let mut alloc = EntityAllocator::new();
    let ids: Vec<EntityId> = (0..100).map(|_| alloc.allocate()).collect();
    let mut indices: Vec<u32> = ids.iter().map(|id| id.index()).collect();
    indices.sort();
    indices.dedup();
    assert_eq!(indices.len(), 100);
}

#[test]
fn generation_increments_on_recycle() {
    let mut alloc = EntityAllocator::new();
    let e0 = alloc.allocate();
    assert_eq!(e0.generation(), 0);
    assert!(alloc.deallocate(e0));
    let e1 = alloc.allocate();
    assert_eq!(e1.index(), e0.index());
    assert_eq!(e1.generation(), 1);
}

#[test]
fn stale_id_detection() {
    let mut alloc = EntityAllocator::new();
    let e0 = alloc.allocate();
    assert!(alloc.is_alive(e0));
    assert!(alloc.deallocate(e0));
    assert!(!alloc.is_alive(e0), "stale ID should not be alive");
    let _e1 = alloc.allocate();
    assert!(!alloc.is_alive(e0), "stale ID still not alive after recycle");
}

#[test]
fn double_deallocate_returns_false() {
    let mut alloc = EntityAllocator::new();
    let e = alloc.allocate();
    assert!(alloc.deallocate(e));
    assert!(!alloc.deallocate(e));
}

#[test]
fn alive_count_tracks_correctly() {
    let mut alloc = EntityAllocator::new();
    let e0 = alloc.allocate();
    let _e1 = alloc.allocate();
    assert_eq!(alloc.alive_count(), 2);
    alloc.deallocate(e0);
    assert_eq!(alloc.alive_count(), 1);
}

#[test]
fn entity_id_roundtrip() {
    let id = EntityId::new(42, 7);
    assert_eq!(id.index(), 42);
    assert_eq!(id.generation(), 7);
    assert_eq!(EntityId::from_raw(id.to_raw()), id);
}

#[test]
fn raw_layout_packs_generation_above_index() {
    let id = EntityId::new(3, 2);
    assert_eq!(id.to_raw(), (2u64 << 32) | 3);
    let max = EntityId::new(u32::MAX, u32::MAX);
    assert_eq!(max.to_raw(), u64::MAX);
    assert_eq!(max.index(), u32::MAX);
    assert_eq!(max.generation(), u32::MAX);
}

#[test]
fn freed_slots_are_reused_first_in_first_out() {
    let mut alloc = EntityAllocator::new();
    let a = alloc.allocate();
    let b = alloc.allocate();
    let c = alloc.allocate();
    assert!(alloc.deallocate(b));
    assert!(alloc.deallocate(a));
    let x = alloc.allocate();
    let y = alloc.allocate();
    let z = alloc.allocate();
    assert_eq!(x.index(), b.index());
    assert_eq!(x.generation(), 1);
    assert_eq!(y.index(), a.index());
    assert_eq!(y.generation(), 1);
    assert_eq!(z.index(), 3);
    assert_eq!(z.generation(), 0);
    assert!(alloc.is_alive(c));
    assert_eq!(alloc.alive_count(), 4);
}

#[test]
fn allocator_snapshot_restores_same_ids() {
    let mut alloc = EntityAllocator::new();
    let a = alloc.allocate();
    let _b = alloc.allocate();
    alloc.deallocate(a);
    let (generations, alive, free) = alloc.snapshot_state();
    assert_eq!(generations, vec![1, 0]);
    assert_eq!(alive, vec![false, true]);
    assert_eq!(free, vec![0]);
    let mut restored = EntityAllocator::restore_from_snapshot(generations, alive, free);
    assert_eq!(restored.alive_count(), alloc.alive_count());
    assert!(!restored.is_alive(a));
    let next_from_source = alloc.allocate();
    let next_restored = restored.allocate();
    assert_eq!(next_from_source, next_restored);
    assert_eq!(next_restored, EntityId::new(0, 1));
}

#[test]
fn deallocate_unknown_id_returns_false() {
    let mut alloc = EntityAllocator::new();
    assert!(!alloc.deallocate(EntityId::new(5, 0)));
    let e = alloc.allocate();
    assert!(!alloc.deallocate(EntityId::new(e.index(), 9)));
    assert!(alloc.is_alive(e));
}

#[test]
fn freed_id_stays_stale_over_many_recycles() {
    let mut alloc = EntityAllocator::new();
    let first = alloc.allocate();
    let _other = alloc.allocate();
    assert!(alloc.deallocate(first));
    for round in 0..50u32 {
        assert!(!alloc.is_alive(first));
        let reused = alloc.allocate();
        assert_eq!(reused.index(), first.index());
        assert_eq!(reused.generation(), round + 1);
        assert!(!alloc.is_alive(first));
        assert!(alloc.deallocate(reused));
        assert!(!alloc.deallocate(first));
    }
    assert!(!alloc.is_alive(first));
}

#[test]
fn every_dead_slot_is_on_the_free_list() {
    let mut alloc = EntityAllocator::new();
    let ids: Vec<EntityId> = (0..6).map(|_| alloc.allocate()).collect();
    assert!(alloc.deallocate(ids[4]));
    assert!(alloc.deallocate(ids[1]));
    let again = alloc.allocate();
    assert_eq!(again.index(), 4);
    assert!(alloc.deallocate(ids[2]));
    let (generations, alive, free) = alloc.snapshot_state();
    assert_eq!(generations.len(), alive.len());
    assert_eq!(free, vec![1, 2]);
    for (i, a) in alive.iter().enumerate() {
        assert_eq!(!*a, free.contains(&(i as u32)));
    }
    assert_eq!(alloc.alive_count(), alive.iter().filter(|b| **b).count());
}
