use nomai_engine::bundle::ComponentBundle;
use nomai_engine::component::ComponentTypeId;
use nomai_engine::entity::EntityId;
use nomai_engine::error::EcsError;
use nomai_engine::identity::{EntityIdentity, Identity, IdentityTier, PoolIdentity, SystemId};
use nomai_engine::snapshot::{entities_fit_slots, AllocatorSnapshot, EntitySnapshot, WorldSnapshot};
use nomai_engine::value::ComponentValue;
use nomai_engine::world::World;

struct Position;
struct Velocity;
struct Health;

struct Types {
    pos: ComponentTypeId,
    vel: ComponentTypeId,
    health: ComponentTypeId,
}

fn setup_world() -> (World, Types) {
    let mut world = World::new();
    let pos = world.register_component::<Position>("position").unwrap();
    let vel = world.register_component::<Velocity>("velocity").unwrap();
    let health = world.register_component::<Health>("health").unwrap();
    (world, Types { pos, vel, health })
}

fn accept_all(_t: ComponentTypeId, v: &serde_json::Value) -> Option<ComponentValue> {
    Some(ComponentValue::Json(v.clone()))
}

fn object(fields: &[(&str, f64)]) -> serde_json::Value {
    let mut m = serde_json::Map::new();
    for (k, v) in fields {
        m.insert((*k).to_string(), serde_json::Value::from(*v));
    }
    serde_json::Value::Object(m)
}

fn pos(x: f64, y: f64) -> ComponentValue {
    ComponentValue::Json(object(&[("x", x), ("y", y)]))
}

fn vel(dx: f64, dy: f64) -> ComponentValue {
    ComponentValue::Json(object(&[("dx", dx), ("dy", dy)]))
}

fn health(h: u32) -> ComponentValue {
    ComponentValue::Json(serde_json::Value::from(h))
}

fn bundle(entries: Vec<(ComponentTypeId, ComponentValue)>) -> ComponentBundle {
    let mut b = ComponentBundle::new();
    for (t, v) in entries {
        b.add(t, v);
    }
    b
}

fn player_identity() -> EntityIdentity {
    EntityIdentity {
        entity_type: "character".to_owned(),
        role: "player".to_owned(),
        spawned_by: SystemId::PLAYER_SPAWNER(),
        requirement_id: Some("REQ-001".to_owned()),
    }
}

fn enemy_identity(variant: &str) -> EntityIdentity {
    EntityIdentity {
        entity_type: "character".to_owned(),
        role: format!("enemy.{variant}"),
        spawned_by: SystemId::WASM_GAMEPLAY(),
        requirement_id: None,
    }
}

fn brick_pool_identity() -> PoolIdentity {
    PoolIdentity { pool_type: "destructible".to_owned(), variant: "brick".to_owned() }
}

#[test]
fn snapshot_tests_snapshot_empty_world() {
    let (world, _t) = setup_world();
    let snapshot = world.capture_snapshot();
    assert!(snapshot.entities.is_empty());
    assert!(snapshot.allocator.generations.is_empty());
    assert!(snapshot.allocator.alive.is_empty());
    assert!(snapshot.allocator.free_indices.is_empty());

    let (mut world2, _t2) = setup_world();
    world2.restore_from_snapshot(&snapshot, &accept_all).unwrap();
    assert_eq!(world2.entity_count(), 0);
}

#[test]
fn snapshot_single_entity_roundtrip() {
    let (mut world, t) = setup_world();
    let entity = world.spawn_bundle(bundle(vec![(t.pos, pos(10.0, 20.0)), (t.vel, vel(1.0, -1.0))]));
    let snapshot = world.capture_snapshot();
    assert_eq!(snapshot.entities.len(), 1);
    assert_eq!(snapshot.entities[0].entity_id, entity);

    let (mut world2, t2) = setup_world();
    world2.restore_from_snapshot(&snapshot, &accept_all).unwrap();
    assert_eq!(world2.entity_count(), 1);
    assert!(world2.is_alive(entity));
    assert_eq!(world2.get_component_value(entity, t2.pos), Some(&pos(10.0, 20.0)));
    assert_eq!(world2.get_component_value(entity, t2.vel), Some(&vel(1.0, -1.0)));
}

#[test]
fn snapshot_multiple_entities_multiple_archetypes() {
    let (mut world, t) = setup_world();
    let e1 = world.spawn_bundle(bundle(vec![(t.pos, pos(1.0, 2.0)), (t.vel, vel(3.0, 4.0))]));
    let e2 = world.spawn_bundle(bundle(vec![(t.pos, pos(5.0, 6.0)), (t.health, health(100))]));
    let e3 = world.spawn_with_value(t.pos, pos(7.0, 8.0));

    let snapshot = world.capture_snapshot();
    assert_eq!(snapshot.entities.len(), 3);

    let (mut world2, t2) = setup_world();
    world2.restore_from_snapshot(&snapshot, &accept_all).unwrap();
    assert_eq!(world2.entity_count(), 3);

    assert_eq!(world2.get_component_value(e1, t2.pos), Some(&pos(1.0, 2.0)));
    assert_eq!(world2.get_component_value(e1, t2.vel), Some(&vel(3.0, 4.0)));
    assert!(!world2.has_component_type(e1, t2.health));

    assert_eq!(world2.get_component_value(e2, t2.pos), Some(&pos(5.0, 6.0)));
    assert_eq!(world2.get_component_value(e2, t2.health), Some(&health(100)));
    assert!(!world2.has_component_type(e2, t2.vel));

    assert_eq!(world2.get_component_value(e3, t2.pos), Some(&pos(7.0, 8.0)));
    assert!(!world2.has_component_type(e3, t2.vel));
    assert!(!world2.has_component_type(e3, t2.health));
}

#[test]
fn snapshot_preserves_entity_ids() {
    let (mut world, t) = setup_world();
    let e1 = world.spawn_with_value(t.pos, pos(1.0, 1.0));
    let e2 = world.spawn_with_value(t.pos, pos(2.0, 2.0));
    let e3 = world.spawn_with_value(t.pos, pos(3.0, 3.0));
    let snapshot = world.capture_snapshot();

    let (mut world2, t2) = setup_world();
    world2.restore_from_snapshot(&snapshot, &accept_all).unwrap();
    assert!(world2.is_alive(e1));
    assert!(world2.is_alive(e2));
    assert!(world2.is_alive(e3));

    assert_eq!(e1.index(), 0);
    assert_eq!(e1.generation(), 0);
    assert_eq!(e2.index(), 1);
    assert_eq!(e2.generation(), 0);
    assert_eq!(e3.index(), 2);
    assert_eq!(e3.generation(), 0);

    assert_eq!(world2.get_component_value(e1, t2.pos), Some(&pos(1.0, 1.0)));
    assert_eq!(world2.get_component_value(e2, t2.pos), Some(&pos(2.0, 2.0)));
    assert_eq!(world2.get_component_value(e3, t2.pos), Some(&pos(3.0, 3.0)));
}

#[test]
fn snapshot_preserves_identity_tiers() {
    let (mut world, t) = setup_world();
    let semantic_e = world.spawn_semantic(player_identity(), bundle(vec![(t.pos, pos(10.0, 20.0))])).unwrap();
    let pooled_e = world.spawn_pooled(brick_pool_identity(), bundle(vec![(t.pos, pos(50.0, 60.0))])).unwrap();
    let snapshot = world.capture_snapshot();

    let (mut world2, t2) = setup_world();
    world2.restore_from_snapshot(&snapshot, &accept_all).unwrap();

    assert!(world2.is_alive(semantic_e));
    let identity = world2.get_identity(semantic_e).unwrap();
    assert_eq!(identity.tier(), IdentityTier::Semantic);
    match identity {
        Identity::Semantic(eid) => {
            assert_eq!(eid.entity_type, "character");
            assert_eq!(eid.role, "player");
            assert_eq!(eid.spawned_by, SystemId::PLAYER_SPAWNER());
            assert_eq!(eid.requirement_id.as_deref(), Some("REQ-001"));
        }
        Identity::Pooled(_) => panic!("expected Semantic, got Pooled"),
    }
    assert_eq!(world2.get_component_value(semantic_e, t2.pos), Some(&pos(10.0, 20.0)));

    assert!(world2.is_alive(pooled_e));
    let identity = world2.get_identity(pooled_e).unwrap();
    assert_eq!(identity.tier(), IdentityTier::Pooled);
    match identity {
        Identity::Pooled(pid) => {
            assert_eq!(pid.pool_type, "destructible");
            assert_eq!(pid.variant, "brick");
        }
        Identity::Semantic(_) => panic!("expected Pooled, got Semantic"),
    }
    assert_eq!(world2.get_component_value(pooled_e, t2.pos), Some(&pos(50.0, 60.0)));
}

#[test]
fn snapshot_with_despawned_entities_preserves_allocator() {
    let (mut world, t) = setup_world();
    let e1 = world.spawn_with_value(t.pos, pos(1.0, 1.0));
    let e2 = world.spawn_with_value(t.pos, pos(2.0, 2.0));
    let e3 = world.spawn_with_value(t.pos, pos(3.0, 3.0));
    world.despawn(e2).unwrap();

    let snapshot = world.capture_snapshot();
    assert_eq!(snapshot.allocator.generations.len(), 3);
    assert!(snapshot.allocator.alive[0]);
    assert!(!snapshot.allocator.alive[1]);
    assert!(snapshot.allocator.alive[2]);
    assert_eq!(snapshot.allocator.generations[1], 1);
    assert_eq!(snapshot.allocator.free_indices, vec![1]);
    assert_eq!(snapshot.entities.len(), 2);

    let (mut world2, t2) = setup_world();
    world2.restore_from_snapshot(&snapshot, &accept_all).unwrap();
    assert_eq!(world2.entity_count(), 2);
    assert!(world2.is_alive(e1));
    assert!(!world2.is_alive(e2));
    assert!(world2.is_alive(e3));
    assert_eq!(world2.get_component_value(e2, t2.pos), None);

    let e_new = world2.spawn_with_value(t2.pos, pos(99.0, 99.0));
    assert_eq!(e_new.index(), 1);
    assert_eq!(e_new.generation(), 1);
}

#[test]
fn snapshot_restore_into_same_world() {
    let (mut world, t) = setup_world();
    let e1 = world.spawn_with_value(t.pos, pos(1.0, 1.0));
    let snapshot = world.capture_snapshot();

    let e2 = world.spawn_with_value(t.pos, pos(2.0, 2.0));
    world.despawn(e1).unwrap();

    world.restore_from_snapshot(&snapshot, &accept_all).unwrap();
    assert_eq!(world.entity_count(), 1);
    assert!(world.is_alive(e1));
    assert!(!world.is_alive(e2));
    assert_eq!(world.get_component_value(e1, t.pos), Some(&pos(1.0, 1.0)));
}

#[test]
fn snapshot_with_mixed_identity_and_regular_entities() {
    let (mut world, t) = setup_world();
    let e_regular = world.spawn_with_value(t.pos, pos(0.0, 0.0));
    let e_semantic = world
        .spawn_semantic(enemy_identity("ranged"), bundle(vec![(t.pos, pos(10.0, 10.0)), (t.vel, vel(1.0, 2.0))]))
        .unwrap();
    let e_pooled = world.spawn_pooled(brick_pool_identity(), bundle(vec![(t.health, health(50))])).unwrap();

    let snapshot = world.capture_snapshot();
    assert_eq!(snapshot.entities.len(), 3);

    let (mut world2, t2) = setup_world();
    world2.restore_from_snapshot(&snapshot, &accept_all).unwrap();
    assert_eq!(world2.entity_count(), 3);

    assert!(world2.is_alive(e_regular));
    assert_eq!(world2.get_component_value(e_regular, t2.pos), Some(&pos(0.0, 0.0)));
    assert!(world2.is_alive(e_semantic));
    assert_eq!(world2.get_tier(e_semantic).unwrap(), IdentityTier::Semantic);
    assert!(world2.is_alive(e_pooled));
    assert_eq!(world2.get_tier(e_pooled).unwrap(), IdentityTier::Pooled);
    assert_eq!(world2.get_component_value(e_pooled, t2.health), Some(&health(50)));
}

#[test]
fn snapshot_determinism_two_captures_identical() {
    let (mut world, t) = setup_world();
    for i in 0..10 {
        world.spawn_bundle(bundle(vec![(t.pos, pos(i as f64, i as f64 * 2.0)), (t.vel, vel(1.0, -1.0))]));
    }
    let snap1 = world.capture_snapshot();
    let snap2 = world.capture_snapshot();
    assert_eq!(snap1, snap2, "two captures of the same state should be identical");
}

#[test]
fn snapshot_roundtrip_then_query_works() {
    let (mut world, t) = setup_world();
    for i in 0..5 {
        world.spawn_bundle(bundle(vec![(t.pos, pos(i as f64, 0.0)), (t.vel, vel(1.0, 0.0))]));
    }
    let snapshot = world.capture_snapshot();

    let (mut world2, t2) = setup_world();
    world2.restore_from_snapshot(&snapshot, &accept_all).unwrap();
    let found = world2.query_entities(&[t2.pos, t2.vel]);
    assert_eq!(found.len(), 5);

    for e in found {
        let x = match world2.get_component_value(e, t2.pos) {
            Some(ComponentValue::Json(j)) => j["x"].as_f64().unwrap(),
            _ => panic!("position missing"),
        };
        world2.insert_component_value(e, t2.pos, pos(x + 100.0, 0.0)).unwrap();
    }
    for e in world2.query_entities(&[t2.pos]) {
        match world2.get_component_value(e, t2.pos) {
            Some(ComponentValue::Json(j)) => {
                assert!(j["x"].as_f64().unwrap() >= 100.0, "position should have been incremented by 100")
            }
            _ => panic!("position missing"),
        }
    }
}

// -- further scenarios --------------------------------------------------------

#[test]
fn snapshot_components_are_sorted_by_name() {
    let (mut world, t) = setup_world();
    world.spawn_bundle(bundle(vec![(t.pos, pos(1.0, 2.0)), (t.vel, vel(3.0, 4.0)), (t.health, health(9))]));
    let snapshot = world.capture_snapshot();
    let names: Vec<&str> = snapshot.entities[0].components.iter().map(|(n, _)| n.as_str()).collect();
    assert_eq!(names, vec!["health", "position", "velocity"]);
    assert_eq!(snapshot.component_names, vec!["__identity", "health", "position", "velocity"]);
}

fn one_entity_snapshot(name: &str) -> WorldSnapshot {
    WorldSnapshot {
        allocator: AllocatorSnapshot { generations: vec![0], alive: vec![true], free_indices: vec![] },
        component_names: vec![],
        entities: vec![EntitySnapshot {
            entity_id: EntityId::new(0, 0),
            components: vec![(name.to_owned(), health(3))],
        }],
    }
}

#[test]
fn restore_rejects_unknown_component_and_leaves_world_unchanged() {
    let (mut world, t) = setup_world();
    let e = world.spawn_with_value(t.pos, pos(1.0, 1.0));
    let r = world.restore_from_snapshot(&one_entity_snapshot("mass"), &accept_all);
    match r {
        Err(EcsError::UnknownComponent { name, registered }) => {
            assert_eq!(name, "mass");
            assert_eq!(registered, "__identity, health, position, velocity");
        }
        other => panic!("expected UnknownComponent, got {other:?}"),
    }
    assert_eq!(world.entity_count(), 1);
    assert_eq!(world.get_component_value(e, t.pos), Some(&pos(1.0, 1.0)));
}

#[test]
fn restore_rejects_value_that_is_not_accepted() {
    let (mut world, t) = setup_world();
    let e = world.spawn_with_value(t.pos, pos(1.0, 1.0));
    let reject = |_t: ComponentTypeId, _v: &serde_json::Value| -> Option<ComponentValue> { None };
    let r = world.restore_from_snapshot(&one_entity_snapshot("health"), &reject);
    assert!(matches!(r, Err(EcsError::ComponentDeserializationError { .. })));
    assert_eq!(world.get_component_value(e, t.pos), Some(&pos(1.0, 1.0)));
}

#[test]
fn restore_of_hand_written_snapshot() {
    let (mut world, t) = setup_world();
    world.restore_from_snapshot(&one_entity_snapshot("health"), &accept_all).unwrap();
    let e = EntityId::new(0, 0);
    assert!(world.is_alive(e));
    assert_eq!(world.get_component_value(e, t.health), Some(&health(3)));
    assert_eq!(world.entity_count(), 1);
}

#[test]
fn entities_fit_their_slots() {
    let (mut world, t) = setup_world();
    world.spawn_with_value(t.pos, pos(1.0, 1.0));
    assert!(entities_fit_slots(&world.capture_snapshot()));
    assert!(entities_fit_slots(&one_entity_snapshot("health")));

    let mut wrong_generation = one_entity_snapshot("health");
    wrong_generation.entities[0].entity_id = EntityId::new(0, 4);
    assert!(!entities_fit_slots(&wrong_generation));

    let mut outside = one_entity_snapshot("health");
    outside.entities[0].entity_id = EntityId::new(5, 0);
    assert!(!entities_fit_slots(&outside));

    let mut shared = one_entity_snapshot("health");
    shared.entities.push(EntitySnapshot { entity_id: EntityId::new(0, 0), components: vec![] });
    assert!(!entities_fit_slots(&shared));
}

#[test]
fn restore_rejects_inconsistent_allocator() {
    let (mut world, t) = setup_world();
    let e = world.spawn_with_value(t.pos, pos(1.0, 1.0));
    let mut bad = one_entity_snapshot("health");
    bad.allocator.free_indices = vec![0];
    match world.restore_from_snapshot(&bad, &accept_all) {
        Err(EcsError::ComponentDeserializationError { component, details }) => {
            assert_eq!(component, "__allocator");
            assert_eq!(details, "free list contains index 0 which is marked alive");
        }
        other => panic!("expected an allocator error, got {other:?}"),
    }
    assert_eq!(world.get_component_value(e, t.pos), Some(&pos(1.0, 1.0)));
}

#[test]
fn restore_stores_the_decoded_values() {
    let (mut world, t) = setup_world();
    let as_number = |_t: ComponentTypeId, v: &serde_json::Value| {
        let n = v.as_f64()?;
        Some(ComponentValue::Json(serde_json::Value::from(n)))
    };
    world.restore_from_snapshot(&one_entity_snapshot("health"), &as_number).unwrap();
    let e = EntityId::new(0, 0);
    assert_eq!(world.get_component_value(e, t.health), Some(&ComponentValue::Json(serde_json::Value::from(3.0))));
    assert_ne!(world.get_component_value(e, t.health), Some(&health(3)));
}

#[test]
fn restore_refuses_a_decoder_that_gives_no_json() {
    let (mut world, t) = setup_world();
    let e = world.spawn_with_value(t.pos, pos(1.0, 1.0));
    let to_identity = |_t: ComponentTypeId, _v: &serde_json::Value| {
        Some(ComponentValue::Identity(Identity::Pooled(PoolIdentity {
            pool_type: "destructible".to_owned(),
            variant: "brick".to_owned(),
        })))
    };
    let r = world.restore_from_snapshot(&one_entity_snapshot("health"), &to_identity);
    assert!(matches!(r, Err(EcsError::ComponentDeserializationError { .. })));
    assert_eq!(world.get_component_value(e, t.pos), Some(&pos(1.0, 1.0)));
}

#[test]
fn restore_refuses_entities_that_do_not_fit_their_slots() {
    let (mut world, t) = setup_world();
    let e = world.spawn_with_value(t.pos, pos(1.0, 1.0));
    let mut wrong_generation = one_entity_snapshot("health");
    wrong_generation.entities[0].entity_id = EntityId::new(0, 4);
    match world.restore_from_snapshot(&wrong_generation, &accept_all) {
        Err(EcsError::ComponentDeserializationError { component, details }) => {
            assert_eq!(component, "__entities");
            assert_eq!(details, "snapshot entities do not match their allocator slots (index, generation or shared slot)");
        }
        other => panic!("expected a slot error, got {other:?}"),
    }
    assert_eq!(world.get_component_value(e, t.pos), Some(&pos(1.0, 1.0)));
    let mut unknown_name = one_entity_snapshot("mass");
    unknown_name.entities[0].entity_id = EntityId::new(0, 4);
    assert!(matches!(world.restore_from_snapshot(&unknown_name, &accept_all), Err(EcsError::UnknownComponent { .. })));
    let mut bad_allocator = one_entity_snapshot("health");
    bad_allocator.entities[0].entity_id = EntityId::new(0, 4);
    bad_allocator.allocator.alive = vec![false];
    match world.restore_from_snapshot(&bad_allocator, &accept_all) {
        Err(EcsError::ComponentDeserializationError { component, .. }) => assert_eq!(component, "__allocator"),
        other => panic!("expected an allocator error, got {other:?}"),
    }
}
