use nomai_engine::archetype::{Archetype, ArchetypeId, ComponentVtable};
use nomai_engine::component::{ComponentInfo, ComponentRegistry, ComponentTypeId};
use nomai_engine::entity::EntityId;
use nomai_engine::value::ComponentValue;

struct Pos;
struct Vel;

fn setup() -> (ComponentRegistry, ComponentTypeId, ComponentTypeId) {
    let mut reg = ComponentRegistry::new();
    let pos_id = reg.register::<Pos>("position").unwrap();
    let vel_id = reg.register::<Vel>("velocity").unwrap();
    (reg, pos_id, vel_id)
}

fn infos_of(reg: &ComponentRegistry, types: &[ComponentTypeId]) -> Vec<ComponentInfo> {
    types.iter().map(|id| reg.get_info(*id).unwrap().duplicate()).collect()
}

fn object(fields: &[(&str, f64)]) -> ComponentValue {
    let mut m = serde_json::Map::new();
    for (k, v) in fields {
        m.insert((*k).to_string(), serde_json::Value::from(*v));
    }
    ComponentValue::Json(serde_json::Value::Object(m))
}

#[test]
fn add_and_get_component() {
    let (reg, pos_id, _vel_id) = setup();
    let types = vec![pos_id];
    let infos = infos_of(&reg, &types);
    let vtables = vec![ComponentVtable::new::<Pos>()];
    let mut arch = Archetype::new(ArchetypeId(0), types, infos, vtables);

    let entity = EntityId::new(0, 0);
    arch.add_entity(entity, vec![(pos_id, object(&[("x", 1.0), ("y", 2.0)]))]);
    assert_eq!(arch.len(), 1);
    assert_eq!(arch.get_component(0, pos_id), Some(&object(&[("x", 1.0), ("y", 2.0)])));
}

#[test]
fn remove_entity_from_archetype() {
    let (reg, pos_id, _vel_id) = setup();
    let types = vec![pos_id];
    let infos = infos_of(&reg, &types);
    let vtables = vec![ComponentVtable::new::<Pos>()];
    let mut arch = Archetype::new(ArchetypeId(0), types, infos, vtables);

    let e0 = EntityId::new(0, 0);
    let e1 = EntityId::new(1, 0);
    arch.add_entity(e0, vec![(pos_id, object(&[("x", 0.0), ("y", 0.0)]))]);
    arch.add_entity(e1, vec![(pos_id, object(&[("x", 1.0), ("y", 1.0)]))]);

    assert_eq!(arch.len(), 2);
    let swapped = arch.remove_entity(0);
    assert_eq!(swapped, Some(e1));
    assert_eq!(arch.len(), 1);
    assert_eq!(arch.get_component(0, pos_id), Some(&object(&[("x", 1.0), ("y", 1.0)])));
}

#[test]
fn archetype_with_multiple_components() {
    let (reg, pos_id, vel_id) = setup();
    let types = vec![pos_id, vel_id];
    let infos = infos_of(&reg, &types);
    let vtables = vec![ComponentVtable::new::<Pos>(), ComponentVtable::new::<Vel>()];
    let mut arch = Archetype::new(ArchetypeId(0), types, infos, vtables);

    let entity = EntityId::new(0, 0);
    arch.add_entity(
        entity,
        vec![(pos_id, object(&[("x", 5.0), ("y", 6.0)])), (vel_id, object(&[("dx", 1.0), ("dy", -1.0)]))],
    );
    assert_eq!(arch.len(), 1);
    assert_eq!(arch.get_component(0, pos_id), Some(&object(&[("x", 5.0), ("y", 6.0)])));
    assert_eq!(arch.get_component(0, vel_id), Some(&object(&[("dx", 1.0), ("dy", -1.0)])));
}

// -- further scenarios --------------------------------------------------------

#[test]
fn removing_last_row_moves_nothing() {
    let (reg, pos_id, _vel_id) = setup();
    let types = vec![pos_id];
    let infos = infos_of(&reg, &types);
    let mut arch = Archetype::new(ArchetypeId(3), types, infos, vec![ComponentVtable::new::<Pos>()]);
    arch.add_entity(EntityId::new(0, 0), vec![(pos_id, object(&[("x", 0.0)]))]);
    arch.add_entity(EntityId::new(1, 0), vec![(pos_id, object(&[("x", 1.0)]))]);
    assert_eq!(arch.remove_entity(1), None);
    assert_eq!(arch.entities(), &[EntityId::new(0, 0)]);
    assert_eq!(arch.id(), ArchetypeId(3));
}

#[test]
fn column_lookup_and_missing_type() {
    let (reg, pos_id, vel_id) = setup();
    let types = vec![vel_id];
    let infos = infos_of(&reg, &types);
    let mut arch = Archetype::new(ArchetypeId(0), types, infos, vec![ComponentVtable::new::<Vel>()]);
    arch.add_entity(EntityId::new(0, 0), vec![(vel_id, object(&[("dx", 2.0)]))]);
    assert_eq!(arch.column_index(vel_id), Some(0));
    assert_eq!(arch.column_index(pos_id), None);
    assert!(arch.has_component(vel_id));
    assert!(!arch.has_component(pos_id));
    assert_eq!(arch.get_component(0, pos_id), None);
    assert_eq!(arch.get_component(1, vel_id), None);
    assert!(arch.replace_component(0, vel_id, object(&[("dx", 3.0)])));
    assert_eq!(arch.get_component(0, vel_id), Some(&object(&[("dx", 3.0)])));
    assert!(!arch.replace_component(0, pos_id, object(&[("x", 3.0)])));
}
