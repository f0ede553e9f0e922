use nomai_engine::bundle::ComponentBundle;
use nomai_engine::component::ComponentTypeId;
use nomai_engine::query::{validate_no_access_conflicts, AccessConflict};
use nomai_engine::value::ComponentValue;
use nomai_engine::world::World;

struct Pos;
struct Vel;
struct Health;

fn setup_world() -> (World, ComponentTypeId, ComponentTypeId) {
    let mut world = World::new();
    let pos = world.register_component::<Pos>("position").unwrap();
    let vel = world.register_component::<Vel>("velocity").unwrap();
    world.register_component::<Health>("health").unwrap();
    (world, pos, vel)
}

fn object(fields: &[(&str, f64)]) -> ComponentValue {
    let mut m = serde_json::Map::new();
    for (k, v) in fields {
        m.insert((*k).to_string(), serde_json::Value::from(*v));
    }
    ComponentValue::Json(serde_json::Value::Object(m))
}

fn field(v: &ComponentValue, name: &str) -> f64 {
    match v {
        ComponentValue::Json(j) => j[name].as_f64().unwrap(),
        ComponentValue::Identity(_) => panic!("not a JSON component"),
    }
}

#[test]
fn query_matching_only() {
    let (mut world, pos, vel) = setup_world();
    let mut b1 = ComponentBundle::new();
    b1.add(pos, object(&[("x", 1.0), ("y", 2.0)]));
    b1.add(vel, object(&[("dx", 3.0), ("dy", 4.0)]));
    let e1 = world.spawn_bundle(b1);
    let _e2 = world.spawn_with_value(pos, object(&[("x", 10.0), ("y", 20.0)]));

    let results = world.query_entities(&[pos, vel]);
    assert_eq!(results.len(), 1);
    assert_eq!(results[0], e1);
    assert_eq!(world.get_component_value(results[0], pos), Some(&object(&[("x", 1.0), ("y", 2.0)])));
    assert_eq!(world.get_component_value(results[0], vel), Some(&object(&[("dx", 3.0), ("dy", 4.0)])));
}

#[test]
fn query_skips_missing_components() {
    let (mut world, pos, vel) = setup_world();
    for i in 0..5 {
        world.spawn_with_value(pos, object(&[("x", i as f64), ("y", 0.0)]));
    }
    assert_eq!(world.query_entities(&[pos, vel]).len(), 0);
}

#[test]
fn mutable_query_modifies() {
    let (mut world, pos, vel) = setup_world();
    let mut b = ComponentBundle::new();
    b.add(pos, object(&[("x", 0.0), ("y", 0.0)]));
    b.add(vel, object(&[("dx", 1.0), ("dy", 2.0)]));
    let e = world.spawn_bundle(b);

    for entity in world.query_entities(&[pos, vel]) {
        let p = world.get_component_value(entity, pos).unwrap();
        let v = world.get_component_value(entity, vel).unwrap();
        let moved = object(&[("x", field(p, "x") + field(v, "dx")), ("y", field(p, "y") + field(v, "dy"))]);
        world.insert_component_value(entity, pos, moved).unwrap();
    }
    assert_eq!(world.get_component_value(e, pos), Some(&object(&[("x", 1.0), ("y", 2.0)])));
}

#[test]
fn single_component_query() {
    let (mut world, pos, _vel) = setup_world();
    world.spawn_with_value(pos, object(&[("x", 1.0), ("y", 2.0)]));
    world.spawn_with_value(pos, object(&[("x", 3.0), ("y", 4.0)]));
    assert_eq!(world.query_entities(&[pos]).len(), 2);
}

#[test]
fn query_multiple_archetypes() {
    let (mut world, pos, vel) = setup_world();
    world.spawn_with_value(pos, object(&[("x", 1.0), ("y", 0.0)]));
    let mut b = ComponentBundle::new();
    b.add(pos, object(&[("x", 2.0), ("y", 0.0)]));
    b.add(vel, object(&[("dx", 0.0), ("dy", 0.0)]));
    world.spawn_bundle(b);
    assert_eq!(world.query_entities(&[pos]).len(), 2);
    assert_eq!(world.matching_archetypes(&[pos]).len(), 2);
}

#[test]
fn query_mut_requires_mut_self() {
    let (mut world, pos, _vel) = setup_world();
    let mut b = ComponentBundle::new();
    b.add(pos, object(&[("x", 0.0), ("y", 0.0)]));
    let e = world.spawn_bundle(b);
    for entity in world.query_entities(&[pos]) {
        let y = field(world.get_component_value(entity, pos).unwrap(), "y");
        world.insert_component_value(entity, pos, object(&[("x", 42.0), ("y", y)])).unwrap();
    }
    assert_eq!(world.get_component_value(e, pos), Some(&object(&[("x", 42.0), ("y", 0.0)])));
}

// -- access checks ------------------------------------------------------------

#[test]
fn access_check_accepts_disjoint_and_shared_reads() {
    let a = Some(ComponentTypeId(1));
    let b = Some(ComponentTypeId(2));
    assert_eq!(validate_no_access_conflicts(&[(false, a), (false, a), (true, b)]), Ok(()));
    assert_eq!(validate_no_access_conflicts(&[]), Ok(()));
    assert_eq!(validate_no_access_conflicts(&[(true, None), (true, None)]), Ok(()));
}

#[test]
fn access_check_rejects_duplicate_write() {
    let a = Some(ComponentTypeId(1));
    assert_eq!(validate_no_access_conflicts(&[(true, a), (true, a)]), Err(AccessConflict::DuplicateMutable));
}

#[test]
fn access_check_rejects_read_write_overlap() {
    let a = Some(ComponentTypeId(1));
    assert_eq!(validate_no_access_conflicts(&[(false, a), (true, a)]), Err(AccessConflict::ReadWriteOverlap));
    assert_eq!(validate_no_access_conflicts(&[(true, a), (false, a)]), Err(AccessConflict::ReadWriteOverlap));
}
