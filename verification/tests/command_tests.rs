use nomai_engine::command::{CausalReason, CommandBuffer, CommandKind};
use nomai_engine::component::ComponentTypeId;
use nomai_engine::entity::EntityId;
use nomai_engine::identity::{EntityIdentity, IdentityTier, PoolIdentity, SystemId};
use nomai_engine::value::ComponentValue;
use nomai_engine::world::World;

struct Position;
struct Velocity;
struct Health;

struct Types {
    pos: ComponentTypeId,
    vel: ComponentTypeId,
    health: ComponentTypeId,
}

fn setup_world() -> (World, Types) {
    let mut world = World::new();
    let pos = world.register_component::<Position>("position").unwrap();
    let vel = world.register_component::<Velocity>("velocity").unwrap();
    let health = world.register_component::<Health>("health").unwrap();
    (world, Types { pos, vel, health })
}

fn accept_all(_t: ComponentTypeId, v: &serde_json::Value) -> Option<ComponentValue> {
    Some(ComponentValue::Json(v.clone()))
}

fn object(fields: &[(&str, f64)]) -> serde_json::Value {
    let mut m = serde_json::Map::new();
    for (k, v) in fields {
        m.insert((*k).to_string(), serde_json::Value::from(*v));
    }
    serde_json::Value::Object(m)
}

fn pos_json(x: f64, y: f64) -> serde_json::Value {
    object(&[("x", x), ("y", y)])
}

fn pos(x: f64, y: f64) -> ComponentValue {
    ComponentValue::Json(pos_json(x, y))
}

fn health(h: u32) -> ComponentValue {
    ComponentValue::Json(serde_json::Value::from(h))
}

#[test]
fn basic_command_creation() {
    let entity = EntityId::new(0, 0);
    let mut buf = CommandBuffer::new();
    buf.set_component(entity, "position", pos_json(1.0, 2.0), SystemId(1), CausalReason::PlayerInput("move_right".to_owned()));
    buf.remove_component(entity, "velocity", SystemId(2), CausalReason::GameRule("stop_on_collision".to_owned()));
    buf.despawn(entity, SystemId(3), CausalReason::CollisionResponse(EntityId::new(0, 0), EntityId::new(1, 0)));

    assert_eq!(buf.len(), 3);
    let cmds = buf.commands();
    assert_eq!(cmds[0].command_index, 0);
    assert_eq!(cmds[1].command_index, 1);
    assert_eq!(cmds[2].command_index, 2);
    assert!(matches!(cmds[0].kind, CommandKind::SetComponent { .. }));
    assert!(matches!(cmds[1].kind, CommandKind::RemoveComponent { .. }));
    assert!(matches!(cmds[2].kind, CommandKind::Despawn));
}

#[test]
fn command_ordering_interleaved_systems() {
    let entity = EntityId::new(0, 0);
    let mut buf = CommandBuffer::new();
    for i in 0..10u32 {
        buf.set_component(
            entity,
            "health",
            serde_json::Value::from(i),
            SystemId(i % 3),
            CausalReason::SystemInternal(format!("step_{i}")),
        );
    }
    assert_eq!(buf.len(), 10);
    for (i, cmd) in buf.commands().iter().enumerate() {
        assert_eq!(cmd.command_index, i as u32);
        assert_eq!(cmd.issued_by, SystemId((i as u32) % 3));
    }
}

fn build_commands(entity: EntityId) -> CommandBuffer {
    let mut buf = CommandBuffer::new();
    buf.set_component(entity, "position", pos_json(10.0, 20.0), SystemId(0), CausalReason::PlayerInput("spawn".to_owned()));
    buf.set_component(entity, "health", serde_json::Value::from(42), SystemId(1), CausalReason::GameRule("set_health".to_owned()));
    buf
}

#[test]
fn deterministic_application() {
    let (mut world1, t1) = setup_world();
    let e1 = world1.spawn_with_value(t1.pos, pos(0.0, 0.0));
    let (mut world2, t2) = setup_world();
    let e2 = world2.spawn_with_value(t2.pos, pos(0.0, 0.0));

    let applied1 = build_commands(e1).apply(&mut world1, &accept_all);
    let applied2 = build_commands(e2).apply(&mut world2, &accept_all);

    assert_eq!(applied1.len(), applied2.len());
    assert_eq!(world1.get_component_value(e1, t1.pos), world2.get_component_value(e2, t2.pos));
    assert_eq!(world1.get_component_value(e1, t1.health), world2.get_component_value(e2, t2.health));
    assert_eq!(world1.get_component_value(e1, t1.health), Some(&health(42)));
}

#[test]
fn set_component_via_command() {
    let (mut world, t) = setup_world();
    let entity = world.spawn_with_value(t.pos, pos(0.0, 0.0));
    let mut buf = CommandBuffer::new();
    buf.set_component(entity, "position", pos_json(42.0, 99.0), SystemId(0), CausalReason::PlayerInput("teleport".to_owned()));
    let applied = buf.apply(&mut world, &accept_all);
    assert_eq!(applied.len(), 1);
    assert_eq!(world.get_component_value(entity, t.pos), Some(&pos(42.0, 99.0)));
}

#[test]
fn despawn_via_command() {
    let (mut world, t) = setup_world();
    let entity = world.spawn_with_value(t.pos, pos(0.0, 0.0));
    assert!(world.is_alive(entity));
    let mut buf = CommandBuffer::new();
    buf.despawn(entity, SystemId(0), CausalReason::GameRule("entity_destroyed".to_owned()));
    let applied = buf.apply(&mut world, &accept_all);
    assert_eq!(applied.len(), 1);
    assert!(!world.is_alive(entity));
    assert_eq!(world.entity_count(), 0);
}

#[test]
fn remove_component_via_command() {
    let (mut world, t) = setup_world();
    let entity = world.spawn_with_value(t.pos, pos(1.0, 2.0));
    world.insert_component_value(entity, t.vel, ComponentValue::Json(object(&[("dx", 3.0), ("dy", 4.0)]))).unwrap();
    assert!(world.has_component_type(entity, t.vel));

    let mut buf = CommandBuffer::new();
    buf.remove_component(entity, "velocity", SystemId(0), CausalReason::GameRule("stop_movement".to_owned()));
    let applied = buf.apply(&mut world, &accept_all);
    assert_eq!(applied.len(), 1);
    assert!(!world.has_component_type(entity, t.vel));
    assert_eq!(world.get_component_value(entity, t.pos), Some(&pos(1.0, 2.0)));
}

#[test]
fn causality_metadata_preserved() {
    let (mut world, t) = setup_world();
    let e1 = world.spawn_with_value(t.pos, pos(0.0, 0.0));
    let e2 = world.spawn_with_value(t.pos, pos(1.0, 1.0));

    let mut buf = CommandBuffer::new();
    buf.set_component(e1, "position", pos_json(5.0, 5.0), SystemId(10), CausalReason::PlayerInput("move".to_owned()));
    buf.despawn(e2, SystemId(20), CausalReason::CollisionResponse(e1, e2));
    buf.set_component(
        e1,
        "health",
        serde_json::Value::from(75),
        SystemId(30),
        CausalReason::StateTransition { from: "alive".to_owned(), to: "damaged".to_owned() },
    );

    let applied = buf.apply(&mut world, &accept_all);
    assert_eq!(applied.len(), 3);
    assert_eq!(applied[0].issued_by, SystemId(10));
    assert_eq!(applied[0].reason, CausalReason::PlayerInput("move".to_owned()));
    assert_eq!(applied[1].issued_by, SystemId(20));
    assert_eq!(applied[1].reason, CausalReason::CollisionResponse(e1, e2));
    assert_eq!(applied[2].issued_by, SystemId(30));
    assert_eq!(
        applied[2].reason,
        CausalReason::StateTransition { from: "alive".to_owned(), to: "damaged".to_owned() }
    );
}

#[test]
fn buffer_clears_after_apply() {
    let (mut world, t) = setup_world();
    let entity = world.spawn_with_value(t.pos, pos(0.0, 0.0));
    let mut buf = CommandBuffer::new();
    buf.set_component(entity, "position", pos_json(1.0, 1.0), SystemId(0), CausalReason::SystemInternal("test".to_owned()));
    assert_eq!(buf.len(), 1);
    let _applied = buf.apply(&mut world, &accept_all);
    assert!(buf.is_empty());
    assert_eq!(buf.len(), 0);
}

#[test]
fn empty_buffer_apply_noop() {
    let (mut world, t) = setup_world();
    let entity = world.spawn_with_value(t.pos, pos(5.0, 10.0));
    let mut buf = CommandBuffer::new();
    let applied = buf.apply(&mut world, &accept_all);
    assert!(applied.is_empty());
    assert_eq!(world.get_component_value(entity, t.pos), Some(&pos(5.0, 10.0)));
    assert_eq!(world.entity_count(), 1);
}

#[test]
fn multiple_commands_same_entity_set_then_despawn() {
    let (mut world, t) = setup_world();
    let entity = world.spawn_with_value(t.pos, pos(0.0, 0.0));
    let mut buf = CommandBuffer::new();
    buf.set_component(entity, "position", pos_json(99.0, 99.0), SystemId(0), CausalReason::SystemInternal("update".to_owned()));
    buf.despawn(entity, SystemId(1), CausalReason::GameRule("destroy".to_owned()));
    let applied = buf.apply(&mut world, &accept_all);
    assert_eq!(applied.len(), 2);
    assert!(!world.is_alive(entity));
    assert_eq!(world.entity_count(), 0);
}

#[test]
fn spawn_semantic_via_command() {
    let (mut world, t) = setup_world();
    let identity = EntityIdentity {
        entity_type: "character".to_owned(),
        role: "player".to_owned(),
        spawned_by: SystemId::PLAYER_SPAWNER(),
        requirement_id: Some("REQ-001".to_owned()),
    };
    let mut buf = CommandBuffer::new();
    buf.spawn_semantic(
        identity.clone(),
        vec![("position".to_owned(), pos_json(10.0, 20.0)), ("health".to_owned(), serde_json::Value::from(100))],
        SystemId::PLAYER_SPAWNER(),
        CausalReason::GameRule("player_spawn".to_owned()),
    );
    let applied = buf.apply(&mut world, &accept_all);
    assert_eq!(applied.len(), 1);

    let spawned = applied[0].spawned_entity.expect("spawn should set spawned_entity");
    assert!(world.is_alive(spawned));
    assert_eq!(world.get_tier(spawned).unwrap(), IdentityTier::Semantic);
    assert_eq!(world.get_component_value(spawned, t.pos), Some(&pos(10.0, 20.0)));
    assert_eq!(world.get_component_value(spawned, t.health), Some(&health(100)));
    assert_eq!(applied[0].target, None);
    assert_eq!(applied[0].issued_by, SystemId::PLAYER_SPAWNER());
}

#[test]
fn spawn_pooled_via_command() {
    let (mut world, t) = setup_world();
    let identity = PoolIdentity { pool_type: "destructible".to_owned(), variant: "brick".to_owned() };
    let mut buf = CommandBuffer::new();
    buf.spawn_pooled(
        identity.clone(),
        vec![("position".to_owned(), pos_json(5.0, 5.0))],
        SystemId::WASM_GAMEPLAY(),
        CausalReason::GameRule("brick_spawn".to_owned()),
    );
    let applied = buf.apply(&mut world, &accept_all);
    assert_eq!(applied.len(), 1);
    let spawned = applied[0].spawned_entity.expect("spawn should set spawned_entity");
    assert!(world.is_alive(spawned));
    assert_eq!(world.get_tier(spawned).unwrap(), IdentityTier::Pooled);
    assert_eq!(world.get_component_value(spawned, t.pos), Some(&pos(5.0, 5.0)));
}

#[test]
fn spawn_then_modify_via_command() {
    let (mut world, t) = setup_world();
    let identity = EntityIdentity {
        entity_type: "character".to_owned(),
        role: "enemy".to_owned(),
        spawned_by: SystemId::WASM_GAMEPLAY(),
        requirement_id: None,
    };
    let mut buf1 = CommandBuffer::new();
    buf1.spawn_semantic(
        identity,
        vec![("health".to_owned(), serde_json::Value::from(50))],
        SystemId::WASM_GAMEPLAY(),
        CausalReason::GameRule("enemy_spawn".to_owned()),
    );
    let applied1 = buf1.apply(&mut world, &accept_all);
    let spawned = applied1[0].spawned_entity.unwrap();

    let mut buf2 = CommandBuffer::new();
    buf2.set_component(spawned, "health", serde_json::Value::from(25), SystemId::WASM_GAMEPLAY(), CausalReason::GameRule("damage".to_owned()));
    let applied2 = buf2.apply(&mut world, &accept_all);
    assert_eq!(applied2.len(), 1);
    assert_eq!(world.get_component_value(spawned, t.health), Some(&health(25)));
}

#[test]
fn applied_successfully_true_on_success() {
    let (mut world, t) = setup_world();
    let entity = world.spawn_with_value(t.pos, pos(0.0, 0.0));
    let mut buf = CommandBuffer::new();
    buf.set_component(entity, "position", pos_json(1.0, 2.0), SystemId(0), CausalReason::PlayerInput("test".to_owned()));
    let applied = buf.apply(&mut world, &accept_all);
    assert_eq!(applied.len(), 1);
    assert!(applied[0].applied_successfully, "successful SetComponent should have applied_successfully = true");
}

#[test]
fn applied_successfully_false_on_stale_entity() {
    let (mut world, t) = setup_world();
    let entity = world.spawn_with_value(t.pos, pos(0.0, 0.0));
    world.despawn(entity).unwrap();
    let mut buf = CommandBuffer::new();
    buf.set_component(entity, "position", pos_json(1.0, 2.0), SystemId(0), CausalReason::SystemInternal("stale_test".to_owned()));
    let applied = buf.apply(&mut world, &accept_all);
    assert_eq!(applied.len(), 1);
    assert!(!applied[0].applied_successfully, "command targeting stale entity should have applied_successfully = false");
}

#[test]
fn applied_successfully_true_on_despawn() {
    let (mut world, t) = setup_world();
    let entity = world.spawn_with_value(t.pos, pos(0.0, 0.0));
    let mut buf = CommandBuffer::new();
    buf.despawn(entity, SystemId(0), CausalReason::GameRule("destroy".to_owned()));
    let applied = buf.apply(&mut world, &accept_all);
    assert!(applied[0].applied_successfully);
    assert!(!world.is_alive(entity));
}

#[test]
fn applied_successfully_true_on_spawn() {
    let (mut world, _t) = setup_world();
    let identity = EntityIdentity {
        entity_type: "test".to_owned(),
        role: "unit".to_owned(),
        spawned_by: SystemId(0),
        requirement_id: None,
    };
    let mut buf = CommandBuffer::new();
    buf.spawn_semantic(
        identity,
        vec![("health".to_owned(), serde_json::Value::from(100))],
        SystemId(0),
        CausalReason::GameRule("spawn".to_owned()),
    );
    let applied = buf.apply(&mut world, &accept_all);
    assert!(applied[0].applied_successfully);
    assert!(applied[0].spawned_entity.is_some());
}

#[test]
fn applied_successfully_mixed_batch() {
    let (mut world, t) = setup_world();
    let alive = world.spawn_with_value(t.pos, pos(0.0, 0.0));
    let doomed = world.spawn_with_value(t.pos, pos(1.0, 1.0));
    world.despawn(doomed).unwrap();

    let mut buf = CommandBuffer::new();
    buf.set_component(alive, "position", pos_json(5.0, 5.0), SystemId(0), CausalReason::PlayerInput("move".to_owned()));
    buf.set_component(doomed, "position", pos_json(9.0, 9.0), SystemId(0), CausalReason::SystemInternal("stale".to_owned()));
    let applied = buf.apply(&mut world, &accept_all);
    assert_eq!(applied.len(), 2);
    assert!(applied[0].applied_successfully, "command on alive entity should succeed");
    assert!(!applied[1].applied_successfully, "command on stale entity should fail");
}

#[test]
fn conflict_detection_warns_on_duplicate_target() {
    let (mut world, t) = setup_world();
    let entity = world.spawn_with_value(t.pos, pos(0.0, 0.0));
    let mut buf = CommandBuffer::new();
    buf.set_component(entity, "position", pos_json(1.0, 0.0), SystemId(0), CausalReason::PlayerInput("move1".to_owned()));
    buf.set_component(entity, "position", pos_json(2.0, 0.0), SystemId(1), CausalReason::PlayerInput("move2".to_owned()));
    let _applied = buf.apply(&mut world, &accept_all);
    assert_eq!(world.get_component_value(entity, t.pos), Some(&pos(2.0, 0.0)));
    assert_eq!(buf.last_apply_report().conflict_count, 1);
}

#[test]
fn no_conflict_for_different_components() {
    let (mut world, t) = setup_world();
    let entity = world.spawn_with_value(t.pos, pos(0.0, 0.0));
    let mut buf = CommandBuffer::new();
    buf.set_component(entity, "position", pos_json(1.0, 0.0), SystemId(0), CausalReason::PlayerInput("move".to_owned()));
    buf.set_component(entity, "health", serde_json::Value::from(100), SystemId(1), CausalReason::GameRule("heal".to_owned()));
    let _applied = buf.apply(&mut world, &accept_all);
    assert_eq!(buf.last_apply_report().conflict_count, 0);
}

#[test]
fn apply_report_counts_success_and_failure() {
    let (mut world, t) = setup_world();
    let alive = world.spawn_with_value(t.pos, pos(0.0, 0.0));
    let dead = world.spawn_with_value(t.pos, pos(1.0, 0.0));
    world.despawn(dead).unwrap();
    let mut buf = CommandBuffer::new();
    buf.set_component(alive, "position", pos_json(5.0, 0.0), SystemId(0), CausalReason::PlayerInput("move".to_owned()));
    buf.set_component(dead, "position", pos_json(9.0, 0.0), SystemId(0), CausalReason::SystemInternal("stale".to_owned()));
    let _applied = buf.apply(&mut world, &accept_all);
    let report = buf.last_apply_report();
    assert_eq!(report.success_count, 1);
    assert_eq!(report.failed_count, 1);
}

#[test]
fn no_conflict_for_different_entities() {
    let (mut world, t) = setup_world();
    let e1 = world.spawn_with_value(t.pos, pos(0.0, 0.0));
    let e2 = world.spawn_with_value(t.pos, pos(0.0, 0.0));
    let mut buf = CommandBuffer::new();
    buf.set_component(e1, "position", pos_json(1.0, 0.0), SystemId(0), CausalReason::PlayerInput("move1".to_owned()));
    buf.set_component(e2, "position", pos_json(2.0, 0.0), SystemId(0), CausalReason::PlayerInput("move2".to_owned()));
    let _applied = buf.apply(&mut world, &accept_all);
    assert_eq!(buf.last_apply_report().conflict_count, 0);
}

// -- further scenarios --------------------------------------------------------

#[test]
fn rejected_value_fails_the_command_and_keeps_the_old_value() {
    let (mut world, t) = setup_world();
    let entity = world.spawn_with_value(t.pos, pos(1.0, 1.0));
    let reject = |_t: ComponentTypeId, _v: &serde_json::Value| -> Option<ComponentValue> { None };
    let mut buf = CommandBuffer::new();
    buf.set_component(entity, "position", pos_json(9.0, 9.0), SystemId(0), CausalReason::Timer("tick".to_owned()));
    let applied = buf.apply(&mut world, &reject);
    assert!(!applied[0].applied_successfully);
    assert_eq!(world.get_component_value(entity, t.pos), Some(&pos(1.0, 1.0)));
    assert_eq!(buf.last_apply_report().failed_count, 1);
    assert_eq!(buf.last_apply_report().success_count, 0);
}

#[test]
fn unknown_component_name_fails_the_command() {
    let (mut world, t) = setup_world();
    let entity = world.spawn_with_value(t.pos, pos(1.0, 1.0));
    let mut buf = CommandBuffer::new();
    buf.set_component(entity, "mass", serde_json::Value::from(3), SystemId(0), CausalReason::SystemInternal("x".to_owned()));
    buf.remove_component(entity, "mass", SystemId(0), CausalReason::SystemInternal("y".to_owned()));
    let applied = buf.apply(&mut world, &accept_all);
    assert!(!applied[0].applied_successfully);
    assert!(!applied[1].applied_successfully);
    assert_eq!(buf.last_apply_report().conflict_count, 1);
}

#[test]
fn spawn_skips_components_that_cannot_be_set() {
    let (mut world, t) = setup_world();
    let identity = PoolIdentity { pool_type: "collectible".to_owned(), variant: "coin".to_owned() };
    let mut buf = CommandBuffer::new();
    buf.spawn_pooled(
        identity,
        vec![("mass".to_owned(), serde_json::Value::from(1)), ("health".to_owned(), serde_json::Value::from(7))],
        SystemId(0),
        CausalReason::GameRule("coin".to_owned()),
    );
    let applied = buf.apply(&mut world, &accept_all);
    assert!(applied[0].applied_successfully);
    let spawned = applied[0].spawned_entity.unwrap();
    assert_eq!(world.get_component_value(spawned, t.health), Some(&health(7)));
    assert_eq!(world.get_tier(spawned).unwrap(), IdentityTier::Pooled);
}

#[test]
fn clear_empties_the_buffer() {
    let mut buf = CommandBuffer::new();
    buf.despawn(EntityId::new(3, 1), SystemId(0), CausalReason::GameRule("gone".to_owned()));
    assert_eq!(buf.len(), 1);
    buf.clear();
    assert!(buf.is_empty());
}
