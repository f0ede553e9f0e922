use nomai_engine::command::{CausalReason, CommandBuffer, CommandKind};
use nomai_engine::entity::EntityId;
use nomai_engine::identity::SystemId;
use nomai_engine::physics::{order_collision_pairs, queue_physics_results};

#[test]
fn collision_pairs_sorted_by_min_then_max_and_stable() {
    let pairs = [(5, 2), (1, 3), (2, 5), (0, 9)];
    assert_eq!(order_collision_pairs(&pairs), vec![(0, 9), (1, 3), (5, 2), (2, 5)]);
    assert_eq!(order_collision_pairs(&[]), Vec::<(u64, u64)>::new());
    assert_eq!(order_collision_pairs(&[(7, 7), (3, 8), (8, 3)]), vec![(3, 8), (8, 3), (7, 7)]);
}

#[test]
fn physics_results_become_position_then_velocity_commands() {
    let mut cmds = CommandBuffer::new();
    cmds.despawn(EntityId::new(9, 0), SystemId(1), CausalReason::GameRule("pre".to_owned()));
    let e1 = EntityId::new(1, 0);
    let e2 = EntityId::new(2, 3);
    let results = vec![
        (e1, serde_json::Value::from(1), serde_json::Value::from(2)),
        (e2, serde_json::Value::from(3), serde_json::Value::from(4)),
    ];
    queue_physics_results(&mut cmds, results);
    let c = cmds.commands();
    assert_eq!(c.len(), 5);
    let expect = [(e1, "position", 1), (e1, "velocity", 2), (e2, "position", 3), (e2, "velocity", 4)];
    for (k, (e, name, v)) in expect.iter().enumerate() {
        let cmd = &c[k + 1];
        assert_eq!(cmd.target, Some(*e));
        assert_eq!(cmd.command_index, (k + 1) as u32);
        assert_eq!(cmd.issued_by, SystemId::PHYSICS());
        assert_eq!(cmd.reason, CausalReason::SystemInternal("physics_step".to_owned()));
        match &cmd.kind {
            CommandKind::SetComponent { component_name, value } => {
                assert_eq!(component_name, name);
                assert_eq!(value, &serde_json::Value::from(*v));
            }
            other => panic!("unexpected command {other:?}"),
        }
    }
}
