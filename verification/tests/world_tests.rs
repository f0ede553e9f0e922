use nomai_engine::bundle::ComponentBundle;
use nomai_engine::component::ComponentTypeId;
use nomai_engine::error::EcsError;
use nomai_engine::identity::{EntityIdentity, Identity, IdentityTier, PoolIdentity, SystemId};
use nomai_engine::value::ComponentValue;
use nomai_engine::world::World;

struct Position;
struct Velocity;
struct Health;

struct Types {
    pos: ComponentTypeId,
    vel: ComponentTypeId,
    health: ComponentTypeId,
}

fn setup_world() -> (World, Types) {
    let mut world = World::new();
    let pos = world.register_component::<Position>("position").unwrap();
    let vel = world.register_component::<Velocity>("velocity").unwrap();
    let health = world.register_component::<Health>("health").unwrap();
    (world, Types { pos, vel, health })
}

fn object(fields: &[(&str, f64)]) -> serde_json::Value {
    let mut m = serde_json::Map::new();
    for (k, v) in fields {
        m.insert((*k).to_string(), serde_json::Value::from(*v));
    }
    serde_json::Value::Object(m)
}

fn pos(x: f64, y: f64) -> ComponentValue {
    ComponentValue::Json(object(&[("x", x), ("y", y)]))
}

fn vel(dx: f64, dy: f64) -> ComponentValue {
    ComponentValue::Json(object(&[("dx", dx), ("dy", dy)]))
}

fn number(v: &ComponentValue, field: &str) -> f64 {
    match v {
        ComponentValue::Json(j) => j[field].as_f64().unwrap(),
        ComponentValue::Identity(_) => panic!("not a JSON component"),
    }
}

fn pos_vel_bundle(t: &Types, p: ComponentValue, v: ComponentValue) -> ComponentBundle {
    let mut b = ComponentBundle::new();
    b.add(t.pos, p);
    b.add(t.vel, v);
    b
}

fn player_identity() -> EntityIdentity {
    EntityIdentity {
        entity_type: "character".to_owned(),
        role: "player".to_owned(),
        spawned_by: SystemId::PLAYER_SPAWNER(),
        requirement_id: Some("REQ-001".to_owned()),
    }
}

fn enemy_identity(variant: &str) -> EntityIdentity {
    EntityIdentity {
        entity_type: "character".to_owned(),
        role: format!("enemy.{variant}"),
        spawned_by: SystemId::WASM_GAMEPLAY(),
        requirement_id: None,
    }
}

fn brick_pool_identity() -> PoolIdentity {
    PoolIdentity { pool_type: "destructible".to_owned(), variant: "brick".to_owned() }
}

fn coin_pool_identity() -> PoolIdentity {
    PoolIdentity { pool_type: "collectible".to_owned(), variant: "coin".to_owned() }
}

// -- crate-level integration scenarios ---------------------------------------

#[test]
fn spawn_entities_with_components_and_query_back() {
    let (mut world, t) = setup_world();
    let e = world.spawn_bundle(pos_vel_bundle(&t, pos(1.0, 2.0), vel(3.0, 4.0)));
    assert_eq!(world.get_component_value(e, t.pos), Some(&pos(1.0, 2.0)));
    assert_eq!(world.get_component_value(e, t.vel), Some(&vel(3.0, 4.0)));
}

#[test]
fn despawn_entity_verify_gone() {
    let (mut world, t) = setup_world();
    let e = world.spawn_with_value(t.pos, pos(0.0, 0.0));
    world.despawn(e).unwrap();
    assert!(!world.is_alive(e));
    assert_eq!(world.get_component_value(e, t.pos), None);
    assert_eq!(world.entity_count(), 0);
}

#[test]
fn insert_component_triggers_migration() {
    let (mut world, t) = setup_world();
    let e = world.spawn_with_value(t.pos, pos(1.0, 2.0));
    let arch_count_before = world.archetype_count();
    world.insert_component_value(e, t.vel, vel(5.0, 6.0)).unwrap();
    assert!(world.has_component_type(e, t.vel));
    assert_eq!(world.get_component_value(e, t.pos), Some(&pos(1.0, 2.0)));
    assert!(world.archetype_count() > arch_count_before);
}

#[test]
fn remove_component_triggers_migration() {
    let (mut world, t) = setup_world();
    let e = world.spawn_bundle(pos_vel_bundle(&t, pos(1.0, 2.0), vel(3.0, 4.0)));
    world.remove_component_type(e, t.vel).unwrap();
    assert!(!world.has_component_type(e, t.vel));
    assert_eq!(world.get_component_value(e, t.pos), Some(&pos(1.0, 2.0)));
}

#[test]
fn get_set_components() {
    let (mut world, t) = setup_world();
    let e = world.spawn_with_value(t.pos, pos(0.0, 0.0));
    world.insert_component_value(e, t.pos, pos(42.0, 99.0)).unwrap();
    assert_eq!(world.get_component_value(e, t.pos), Some(&pos(42.0, 99.0)));
}

#[test]
fn query_matching_entities_only() {
    let (mut world, t) = setup_world();
    let e1 = world.spawn_bundle(pos_vel_bundle(&t, pos(1.0, 2.0), vel(3.0, 4.0)));
    let _e2 = world.spawn_with_value(t.pos, pos(10.0, 20.0));
    let results = world.query_entities(&[t.pos, t.vel]);
    assert_eq!(results.len(), 1);
    assert_eq!(results[0], e1);
}

#[test]
fn query_skips_entities_missing_required() {
    let (mut world, t) = setup_world();
    for i in 0..5 {
        world.spawn_with_value(t.pos, pos(i as f64, 0.0));
    }
    assert_eq!(world.query_entities(&[t.pos, t.vel]).len(), 0);
}

#[test]
fn mutable_query_modifies_components() {
    let (mut world, t) = setup_world();
    let e = world.spawn_bundle(pos_vel_bundle(&t, pos(0.0, 0.0), vel(1.0, 2.0)));
    for entity in world.query_entities(&[t.pos, t.vel]) {
        let p = world.get_component_value(entity, t.pos).unwrap();
        let v = world.get_component_value(entity, t.vel).unwrap();
        let moved = pos(number(p, "x") + number(v, "dx"), number(p, "y") + number(v, "dy"));
        world.insert_component_value(entity, t.pos, moved).unwrap();
    }
    assert_eq!(world.get_component_value(e, t.pos), Some(&pos(1.0, 2.0)));
}

#[test]
fn scale_10k_entities() {
    let (mut world, t) = setup_world();
    let mut entities = Vec::with_capacity(10_000);
    for i in 0..10_000u32 {
        let b = pos_vel_bundle(&t, pos(i as f64, i as f64 * 2.0), vel(1.0, -1.0));
        entities.push(world.spawn_bundle(b));
    }
    assert_eq!(world.query_entities(&[t.pos, t.vel]).len(), 10_000);

    for entity in world.query_entities(&[t.vel]) {
        let v = world.get_component_value(entity, t.vel).unwrap();
        let doubled = vel(number(v, "dx") * 2.0, number(v, "dy") * 2.0);
        world.insert_component_value(entity, t.vel, doubled).unwrap();
    }
    let v = world.get_component_value(entities[0], t.vel).unwrap();
    assert_eq!(number(v, "dx"), 2.0);
    assert_eq!(number(v, "dy"), -2.0);

    for e in entities.iter().take(5_000) {
        world.despawn(*e).unwrap();
    }
    assert_eq!(world.query_entities(&[t.pos, t.vel]).len(), 5_000);
    assert_eq!(world.entity_count(), 5_000);
}

#[test]
fn stale_entity_despawn_returns_error() {
    let (mut world, t) = setup_world();
    let e = world.spawn_with_value(t.pos, pos(0.0, 0.0));
    world.despawn(e).unwrap();
    assert!(world.despawn(e).is_err());
}

#[test]
fn insert_on_stale_entity_returns_error() {
    let (mut world, t) = setup_world();
    let e = world.spawn_with_value(t.pos, pos(0.0, 0.0));
    world.despawn(e).unwrap();
    let result = world.insert_component_value(e, t.vel, vel(1.0, 1.0));
    assert!(matches!(result, Err(EcsError::StaleEntity { entity }) if entity == e));
}

#[test]
fn multiple_entities_same_archetype() {
    let (mut world, t) = setup_world();
    let e1 = world.spawn_with_value(t.pos, pos(1.0, 1.0));
    let e2 = world.spawn_with_value(t.pos, pos(2.0, 2.0));
    let e3 = world.spawn_with_value(t.pos, pos(3.0, 3.0));
    assert_eq!(world.get_component_value(e1, t.pos), Some(&pos(1.0, 1.0)));
    assert_eq!(world.get_component_value(e2, t.pos), Some(&pos(2.0, 2.0)));
    assert_eq!(world.get_component_value(e3, t.pos), Some(&pos(3.0, 3.0)));

    world.despawn(e2).unwrap();
    assert_eq!(world.entity_count(), 2);
    assert_eq!(world.get_component_value(e1, t.pos), Some(&pos(1.0, 1.0)));
    assert_eq!(world.get_component_value(e3, t.pos), Some(&pos(3.0, 3.0)));
}

#[test]
fn insert_component_overwrite() {
    let (mut world, t) = setup_world();
    let e = world.spawn_with_value(t.pos, pos(1.0, 2.0));
    world.insert_component_value(e, t.pos, pos(99.0, 100.0)).unwrap();
    assert_eq!(world.get_component_value(e, t.pos), Some(&pos(99.0, 100.0)));
}

#[test]
fn spawn_semantic_entity_identity_retrievable() {
    let (mut world, _t) = setup_world();
    let e = world.spawn_semantic(player_identity(), ComponentBundle::new()).unwrap();
    let identity = world.get_identity(e).unwrap();
    assert_eq!(identity.tier(), IdentityTier::Semantic);
    match identity {
        Identity::Semantic(eid) => {
            assert_eq!(eid.entity_type, "character");
            assert_eq!(eid.role, "player");
            assert_eq!(eid.spawned_by, SystemId::PLAYER_SPAWNER());
            assert_eq!(eid.requirement_id.as_deref(), Some("REQ-001"));
        }
        Identity::Pooled(_) => panic!("expected Semantic, got Pooled"),
    }
}

#[test]
fn spawn_pooled_entity_identity_retrievable() {
    let (mut world, _t) = setup_world();
    let e = world.spawn_pooled(brick_pool_identity(), ComponentBundle::new()).unwrap();
    let identity = world.get_identity(e).unwrap();
    assert_eq!(identity.tier(), IdentityTier::Pooled);
    match identity {
        Identity::Pooled(pid) => {
            assert_eq!(pid.pool_type, "destructible");
            assert_eq!(pid.variant, "brick");
        }
        Identity::Semantic(_) => panic!("expected Pooled, got Semantic"),
    }
}

#[test]
fn tier_query_returns_correct_entities() {
    let (mut world, _t) = setup_world();
    let s1 = world.spawn_semantic(player_identity(), ComponentBundle::new()).unwrap();
    let s2 = world.spawn_semantic(enemy_identity("melee"), ComponentBundle::new()).unwrap();
    let p1 = world.spawn_pooled(brick_pool_identity(), ComponentBundle::new()).unwrap();
    let p2 = world.spawn_pooled(brick_pool_identity(), ComponentBundle::new()).unwrap();
    let p3 = world.spawn_pooled(coin_pool_identity(), ComponentBundle::new()).unwrap();

    let semantic = world.entities_by_tier(IdentityTier::Semantic);
    assert_eq!(semantic.len(), 2);
    assert!(semantic.contains(&s1));
    assert!(semantic.contains(&s2));

    let pooled = world.entities_by_tier(IdentityTier::Pooled);
    assert_eq!(pooled.len(), 3);
    assert!(pooled.contains(&p1));
    assert!(pooled.contains(&p2));
    assert!(pooled.contains(&p3));
}

#[test]
fn role_query_returns_correct_entities() {
    let (mut world, _t) = setup_world();
    let player = world.spawn_semantic(player_identity(), ComponentBundle::new()).unwrap();
    let melee = world.spawn_semantic(enemy_identity("melee"), ComponentBundle::new()).unwrap();
    let _ranged = world.spawn_semantic(enemy_identity("ranged"), ComponentBundle::new()).unwrap();
    let _brick = world.spawn_pooled(brick_pool_identity(), ComponentBundle::new()).unwrap();

    let players = world.entities_by_role("player");
    assert_eq!(players.len(), 1);
    assert_eq!(players[0], player);

    let melee_enemies = world.entities_by_role("enemy.melee");
    assert_eq!(melee_enemies.len(), 1);
    assert_eq!(melee_enemies[0], melee);

    assert_eq!(world.entities_by_role("enemy.ranged").len(), 1);
    assert!(world.entities_by_role("nonexistent").is_empty());
}

#[test]
fn identity_is_mandatory_on_tiered_spawn() {
    let (mut world, _t) = setup_world();
    let identity_type = world.registry().lookup::<Identity>().unwrap();
    let e = world.spawn_semantic(player_identity(), ComponentBundle::new()).unwrap();
    assert!(world.has_component_type(e, identity_type));
    let e2 = world.spawn_pooled(brick_pool_identity(), ComponentBundle::new()).unwrap();
    assert!(world.has_component_type(e2, identity_type));
}

#[test]
fn mixed_tier_with_components() {
    let (mut world, t) = setup_world();
    let sem_bundle = pos_vel_bundle(&t, pos(10.0, 20.0), vel(1.0, 2.0));
    let semantic_e = world.spawn_semantic(player_identity(), sem_bundle).unwrap();

    let mut pool_bundle = ComponentBundle::new();
    pool_bundle.add(t.pos, pos(50.0, 60.0));
    let pooled_e = world.spawn_pooled(brick_pool_identity(), pool_bundle).unwrap();

    assert_eq!(world.get_tier(semantic_e).unwrap(), IdentityTier::Semantic);
    assert_eq!(world.get_tier(pooled_e).unwrap(), IdentityTier::Pooled);

    assert_eq!(world.get_component_value(semantic_e, t.pos), Some(&pos(10.0, 20.0)));
    assert_eq!(world.get_component_value(semantic_e, t.vel), Some(&vel(1.0, 2.0)));
    assert_eq!(world.get_component_value(pooled_e, t.pos), Some(&pos(50.0, 60.0)));
    assert!(!world.has_component_type(pooled_e, t.vel));

    assert_eq!(world.query_entities(&[t.pos]).len(), 2);
    assert_eq!(world.query_entities(&[t.pos, t.vel]).len(), 1);
}

#[test]
fn get_tier_returns_error_for_dead_entity() {
    let (mut world, _t) = setup_world();
    let e = world.spawn_semantic(player_identity(), ComponentBundle::new()).unwrap();
    world.despawn(e).unwrap();
    assert!(world.get_tier(e).is_err());
}

#[test]
fn entities_by_tier_empty_when_no_tiered_entities() {
    let (world, _t) = setup_world();
    assert!(world.entities_by_tier(IdentityTier::Semantic).is_empty());
    assert!(world.entities_by_tier(IdentityTier::Pooled).is_empty());
}

#[test]
fn despawn_tiered_entity_removes_from_queries() {
    let (mut world, _t) = setup_world();
    let e1 = world.spawn_semantic(player_identity(), ComponentBundle::new()).unwrap();
    let _e2 = world.spawn_semantic(enemy_identity("melee"), ComponentBundle::new()).unwrap();
    assert_eq!(world.entities_by_tier(IdentityTier::Semantic).len(), 2);
    world.despawn(e1).unwrap();
    assert_eq!(world.entities_by_tier(IdentityTier::Semantic).len(), 1);
    assert!(world.entities_by_role("player").is_empty());
}

// -- world module scenarios --------------------------------------------------

#[test]
fn spawn_and_get() {
    let (mut world, t) = setup_world();
    let e = world.spawn_bundle(pos_vel_bundle(&t, pos(1.0, 2.0), vel(3.0, 4.0)));
    assert_eq!(world.get_component_value(e, t.pos), Some(&pos(1.0, 2.0)));
    assert_eq!(world.get_component_value(e, t.vel), Some(&vel(3.0, 4.0)));
    assert!(!world.has_component_type(e, t.health));
}

#[test]
fn spawn_with_single() {
    let (mut world, t) = setup_world();
    let e = world.spawn_with_value(t.pos, pos(10.0, 20.0));
    assert_eq!(world.get_component_value(e, t.pos), Some(&pos(10.0, 20.0)));
}

#[test]
fn despawn_removes_entity() {
    let (mut world, t) = setup_world();
    let e = world.spawn_with_value(t.pos, pos(0.0, 0.0));
    assert!(world.is_alive(e));
    world.despawn(e).unwrap();
    assert!(!world.is_alive(e));
    assert_eq!(world.get_component_value(e, t.pos), None);
}

#[test]
fn insert_component_migrates_archetype() {
    let (mut world, t) = setup_world();
    let e = world.spawn_with_value(t.pos, pos(1.0, 2.0));
    assert!(!world.has_component_type(e, t.vel));
    world.insert_component_value(e, t.vel, vel(5.0, 6.0)).unwrap();
    assert!(world.has_component_type(e, t.vel));
    assert_eq!(world.get_component_value(e, t.vel), Some(&vel(5.0, 6.0)));
    assert_eq!(world.get_component_value(e, t.pos), Some(&pos(1.0, 2.0)));
}

#[test]
fn remove_component_migrates_archetype() {
    let (mut world, t) = setup_world();
    let e = world.spawn_bundle(pos_vel_bundle(&t, pos(1.0, 2.0), vel(3.0, 4.0)));
    assert!(world.has_component_type(e, t.vel));
    world.remove_component_type(e, t.vel).unwrap();
    assert!(!world.has_component_type(e, t.vel));
    assert_eq!(world.get_component_value(e, t.pos), Some(&pos(1.0, 2.0)));
}

#[test]
fn get_component_mut_modifies() {
    let (mut world, t) = setup_world();
    let e = world.spawn_with_value(t.pos, pos(0.0, 0.0));
    world.insert_component_value(e, t.pos, pos(99.0, 0.0)).unwrap();
    assert_eq!(world.get_component_value(e, t.pos), Some(&pos(99.0, 0.0)));
}

#[test]
fn entity_count_updates() {
    let (mut world, t) = setup_world();
    assert_eq!(world.entity_count(), 0);
    let e1 = world.spawn_with_value(t.pos, pos(0.0, 0.0));
    let _e2 = world.spawn_with_value(t.pos, pos(1.0, 1.0));
    assert_eq!(world.entity_count(), 2);
    world.despawn(e1).unwrap();
    assert_eq!(world.entity_count(), 1);
}

// -- further scenarios --------------------------------------------------------

#[test]
fn remove_missing_component_is_a_no_op() {
    let (mut world, t) = setup_world();
    let e = world.spawn_with_value(t.pos, pos(1.0, 2.0));
    let archetypes = world.archetype_count();
    world.remove_component_type(e, t.vel).unwrap();
    assert_eq!(world.get_component_value(e, t.pos), Some(&pos(1.0, 2.0)));
    assert_eq!(world.archetype_count(), archetypes);
}

#[test]
fn despawn_then_respawn_reuses_index_with_new_generation() {
    let (mut world, t) = setup_world();
    let e = world.spawn_with_value(t.pos, pos(1.0, 2.0));
    world.despawn(e).unwrap();
    let f = world.spawn_with_value(t.pos, pos(3.0, 4.0));
    assert_eq!(f.index(), e.index());
    assert_eq!(f.generation(), e.generation() + 1);
    assert!(!world.is_alive(e));
    assert_eq!(world.get_component_value(e, t.pos), None);
    assert_eq!(world.get_component_value(f, t.pos), Some(&pos(3.0, 4.0)));
}

#[test]
fn component_by_name_set_get_remove() {
    let (mut world, t) = setup_world();
    let accept_all = |_t: ComponentTypeId, v: &serde_json::Value| Some(ComponentValue::Json(v.clone()));
    let e = world.spawn_with_value(t.pos, pos(1.0, 2.0));
    world.set_component_by_name(e, "velocity", &object(&[("dx", 7.0), ("dy", 8.0)]), &accept_all).unwrap();
    assert_eq!(world.get_component_by_name(e, "velocity"), Some(vel(7.0, 8.0)));
    world.remove_component_by_name(e, "velocity").unwrap();
    assert_eq!(world.get_component_by_name(e, "velocity"), None);
    assert_eq!(world.get_component_by_name(e, "nonexistent"), None);
}

#[test]
fn set_component_by_unknown_name_lists_registered_names() {
    let (mut world, t) = setup_world();
    let accept_all = |_t: ComponentTypeId, v: &serde_json::Value| Some(ComponentValue::Json(v.clone()));
    let e = world.spawn_with_value(t.pos, pos(1.0, 2.0));
    match world.set_component_by_name(e, "mass", &serde_json::Value::from(1.0), &accept_all) {
        Err(EcsError::UnknownComponent { name, registered }) => {
            assert_eq!(name, "mass");
            assert_eq!(registered, "__identity, health, position, velocity");
        }
        other => panic!("expected UnknownComponent, got {other:?}"),
    }
}

#[test]
fn set_component_by_name_rejected_value_is_deserialization_error() {
    let (mut world, t) = setup_world();
    let reject = |_t: ComponentTypeId, _v: &serde_json::Value| None;
    let e = world.spawn_with_value(t.pos, pos(1.0, 2.0));
    let r = world.set_component_by_name(e, "position", &serde_json::Value::from("bad"), &reject);
    assert!(matches!(r, Err(EcsError::ComponentDeserializationError { .. })));
    assert_eq!(world.get_component_value(e, t.pos), Some(&pos(1.0, 2.0)));
}

#[test]
fn set_identity_by_name_needs_a_decoded_identity() {
    let (mut world, _t) = setup_world();
    let accept_all = |_t: ComponentTypeId, v: &serde_json::Value| Some(ComponentValue::Json(v.clone()));
    let e = world.spawn_semantic(player_identity(), ComponentBundle::new()).unwrap();
    let r = world.set_component_by_name(e, "__identity", &serde_json::Value::Null, &accept_all);
    assert!(matches!(r, Err(EcsError::ComponentDeserializationError { .. })));
    assert_eq!(world.get_tier(e).unwrap(), IdentityTier::Semantic);
}

#[test]
fn set_identity_by_name_stores_the_decoded_identity() {
    let (mut world, _t) = setup_world();
    let identity_id = world.registry().lookup_by_name("__identity").unwrap();
    let as_pooled = move |t: ComponentTypeId, _v: &serde_json::Value| {
        if t == identity_id {
            Some(ComponentValue::Identity(Identity::Pooled(PoolIdentity {
                pool_type: "collectible".to_owned(),
                variant: "coin".to_owned(),
            })))
        } else {
            None
        }
    };
    let e = world.spawn_semantic(player_identity(), ComponentBundle::new()).unwrap();
    world.set_component_by_name(e, "__identity", &serde_json::Value::Null, &as_pooled).unwrap();
    assert_eq!(world.get_tier(e).unwrap(), IdentityTier::Pooled);
    assert_eq!(world.entities_by_tier(IdentityTier::Pooled), vec![e]);
    let r = world.set_component_by_name(e, "position", &serde_json::Value::Null, &as_pooled);
    assert!(matches!(r, Err(EcsError::ComponentDeserializationError { .. })));
}

#[test]
fn set_component_by_name_stores_the_decoded_value() {
    let (mut world, t) = setup_world();
    let normalize = |_t: ComponentTypeId, v: &serde_json::Value| {
        let x = v.get("x")?.as_f64()?;
        let y = v.get("y")?.as_f64()?;
        Some(pos(x, y))
    };
    let e = world.spawn_with_value(t.pos, pos(1.0, 2.0));
    let mut with_extra = serde_json::Map::new();
    with_extra.insert("x".to_owned(), serde_json::Value::from(3));
    with_extra.insert("y".to_owned(), serde_json::Value::from(4.5));
    with_extra.insert("z".to_owned(), serde_json::Value::from(9));
    world.set_component_by_name(e, "position", &serde_json::Value::Object(with_extra), &normalize).unwrap();
    assert_eq!(world.get_component_by_name(e, "position"), Some(pos(3.0, 4.5)));
}

#[test]
fn query_results_follow_storage_order() {
    let (mut world, t) = setup_world();
    let a = world.spawn_with_value(t.pos, pos(1.0, 1.0));
    let b = world.spawn_with_value(t.vel, vel(1.0, 1.0));
    let c = world.spawn_with_value(t.pos, pos(2.0, 2.0));
    let d = world.spawn_with_value(t.pos, pos(3.0, 3.0));
    world.insert_component_value(b, t.pos, pos(4.0, 4.0)).unwrap();
    // Despawning `a` moves the last row of its archetype (`d`) into its place.
    world.despawn(a).unwrap();
    assert_eq!(world.query_entities(&[t.pos]), vec![d, c, b]);
    assert_eq!(world.all_entity_ids(), vec![d, c, b]);
}
