use nomai_engine::component::ComponentRegistry;
use std::any::TypeId;

#[allow(dead_code)]
#[derive(Debug, Clone)]
struct Pos {
    x: f32,
    y: f32,
}

#[allow(dead_code)]
#[derive(Debug, Clone)]
struct Vel {
    dx: f32,
    dy: f32,
}

#[test]
fn register_and_lookup() {
    let mut reg = ComponentRegistry::new();
    let id = reg.register::<Pos>("position").unwrap();
    assert_eq!(reg.lookup::<Pos>(), Some(id));
}

#[test]
fn same_type_same_id() {
    let mut reg = ComponentRegistry::new();
    let id1 = reg.register::<Pos>("position").unwrap();
    let id2 = reg.register::<Pos>("position_again").unwrap();
    assert_eq!(id1, id2);
    assert_eq!(reg.len(), 1);
}

#[test]
fn different_types_different_ids() {
    let mut reg = ComponentRegistry::new();
    let p = reg.register::<Pos>("position").unwrap();
    let v = reg.register::<Vel>("velocity").unwrap();
    assert_ne!(p, v);
}

#[test]
fn info_correctness() {
    let mut reg = ComponentRegistry::new();
    let id = reg.register::<Pos>("position").unwrap();
    let info = reg.get_info(id).unwrap();
    assert_eq!(info.name, "position");
    assert_eq!(info.size, std::mem::size_of::<Pos>());
    assert_eq!(info.align, std::mem::align_of::<Pos>());
    assert_eq!(info.type_id, TypeId::of::<Pos>());
}

#[test]
fn lookup_by_name_and_sorted_names() {
    let mut reg = ComponentRegistry::new();
    assert!(reg.is_empty());
    let v = reg.register::<Vel>("velocity").unwrap();
    let p = reg.register::<Pos>("position").unwrap();
    assert_eq!(reg.lookup_by_name("velocity"), Some(v));
    assert_eq!(reg.lookup_by_name("position"), Some(p));
    assert_eq!(reg.lookup_by_name("health"), None);
    assert_eq!(reg.registered_names(), vec!["position", "velocity"]);
    assert_eq!(reg.name_of(v), "velocity");
    assert_eq!(reg.len(), 2);
    assert!(!reg.is_empty());
}

#[test]
fn ids_are_assigned_in_registration_order() {
    let mut reg = ComponentRegistry::new();
    let p = reg.register::<Pos>("position").unwrap();
    let v = reg.register::<Vel>("velocity").unwrap();
    assert_eq!(p.0, 0);
    assert_eq!(v.0, 1);
    assert!(reg.get_info(nomai_engine::component::ComponentTypeId(2)).is_none());
}

#[test]
fn name_taken_by_another_type_is_refused() {
    let mut reg = ComponentRegistry::new();
    let p = reg.register::<Pos>("position").unwrap();
    assert_eq!(reg.register::<Vel>("position"), None);
    assert_eq!(reg.len(), 1);
    assert_eq!(reg.lookup::<Vel>(), None);
    assert_eq!(reg.lookup_by_name("position"), Some(p));
    let d = reg.register_dynamic::<Vel>("position");
    assert_eq!(d, p);
}

#[test]
fn lookup_by_name_finds_exactly_the_added_names() {
    let mut reg = ComponentRegistry::new();
    let p = reg.register::<Pos>("pos").unwrap();
    assert_eq!(reg.register::<Pos>("pos_again"), Some(p));
    let d = reg.register_dynamic::<u8>("dyn");
    assert_eq!(reg.register_dynamic::<u16>("dyn"), d);
    assert_eq!(reg.register::<Vel>("dyn"), None);
    assert_eq!(reg.lookup_by_name("pos"), Some(p));
    assert_eq!(reg.lookup_by_name("dyn"), Some(d));
    assert_eq!(reg.lookup_by_name("pos_again"), None);
    assert_eq!(reg.lookup_by_name("vel"), None);
    assert_eq!(reg.len(), 2);
    assert_eq!(reg.get_info(p).unwrap().name, "pos");
    assert_eq!(reg.get_info(d).unwrap().name, "dyn");
}
