use nomai_engine::bundle::ComponentBundle;
use nomai_engine::entity::EntityId;
use nomai_engine::error::EcsError;
use nomai_engine::digest::{check_state_hash, state_hash, HashMismatch};
use nomai_engine::identity::{EntityIdentity, Identity, PoolIdentity, SystemId};
use nomai_engine::palette::{hash_str, palette_index, type_distinguisher};
use nomai_engine::replay::{ReplayEntry, ReplayError, ReplayPlan, ReplayProgress, ReplayRecorder, ReplayStep};
use nomai_engine::scene::{dynamic_components, extract_identity, find_type_component, is_visible};
use nomai_engine::tick::{InputFrame, ScheduleError, SystemSchedule};
use nomai_engine::value::ComponentValue;
use nomai_engine::world::World;

struct Visible;
struct Position;

fn player() -> Identity {
    Identity::Semantic(EntityIdentity {
        entity_type: "character".to_owned(),
        role: "player".to_owned(),
        spawned_by: SystemId::PLAYER_SPAWNER(),
        requirement_id: None,
    })
}

fn brick() -> Identity {
    Identity::Pooled(PoolIdentity { pool_type: "destructible".to_owned(), variant: "brick".to_owned() })
}

fn frame(key: &str, value: i64) -> InputFrame {
    let mut f = InputFrame::new();
    f.insert(key.to_owned(), serde_json::Value::from(value));
    f
}

// -- palette ------------------------------------------------------------------

#[test]
fn hash_str_exact_values() {
    assert_eq!(hash_str(""), 5381);
    assert_eq!(hash_str("a"), 5381 * 33 + 97);
    assert_eq!(hash_str("ab"), (5381 * 33 + 97) * 33 + 98);
    // Multi-byte characters hash by their UTF-8 bytes (0xC3 0xA9).
    assert_eq!(hash_str("\u{e9}"), (5381 * 33 + 0xC3) * 33 + 0xA9);
}

#[test]
fn palette_index_hashes_role_and_type() {
    assert_eq!(palette_index(None, None), None);
    assert_eq!(palette_index(Some(&player()), None), Some(hash_str("player:character") % 12));
    assert_eq!(palette_index(Some(&player()), Some("7")), Some(hash_str("player:character:7") % 12));
    assert_eq!(palette_index(Some(&brick()), None), Some(hash_str(":destructible") % 12));
}

#[test]
fn type_distinguisher_prefers_type_id_then_name() {
    let mut m = serde_json::Map::new();
    m.insert("type_id".to_owned(), serde_json::Value::from(42u64));
    m.insert("name".to_owned(), serde_json::Value::from("stone"));
    assert_eq!(type_distinguisher(&serde_json::Value::Object(m)), Some("42".to_owned()));

    let mut m = serde_json::Map::new();
    m.insert("type_id".to_owned(), serde_json::Value::from(-1));
    m.insert("name".to_owned(), serde_json::Value::from("stone"));
    assert_eq!(type_distinguisher(&serde_json::Value::Object(m)), Some("stone".to_owned()));

    let mut m = serde_json::Map::new();
    m.insert("name".to_owned(), serde_json::Value::from(3));
    assert_eq!(type_distinguisher(&serde_json::Value::Object(m)), None);
    assert_eq!(type_distinguisher(&serde_json::Value::from(0)), None);
}

// -- scene --------------------------------------------------------------------

#[test]
fn extract_identity_labels() {
    assert_eq!(
        extract_identity(Some(&player())),
        ("character".to_owned(), "player".to_owned(), "Semantic".to_owned())
    );
    assert_eq!(
        extract_identity(Some(&brick())),
        ("destructible".to_owned(), "brick".to_owned(), "Pooled".to_owned())
    );
    assert_eq!(extract_identity(None), ("unknown".to_owned(), "unknown".to_owned(), "Unknown".to_owned()));
}

#[test]
fn visibility_follows_the_visible_component() {
    let mut world = World::new();
    let pos = world.register_component::<Position>("position").unwrap();
    let vis = world.register_component::<Visible>("visible").unwrap();
    let plain = world.spawn_with_value(pos, ComponentValue::Json(serde_json::Value::Null));
    let mut b = ComponentBundle::new();
    b.add(vis, ComponentValue::Json(serde_json::Value::from(false)));
    let hidden = world.spawn_bundle(b);
    let mut b = ComponentBundle::new();
    b.add(vis, ComponentValue::Json(serde_json::Value::from(true)));
    let shown = world.spawn_bundle(b);
    let mut b = ComponentBundle::new();
    b.add(vis, ComponentValue::Json(serde_json::Value::from("no")));
    let odd = world.spawn_bundle(b);
    assert!(is_visible(&world, plain));
    assert!(!is_visible(&world, hidden));
    assert!(is_visible(&world, shown));
    assert!(is_visible(&world, odd));
}

// -- input frames ---------------------------------------------------------------

#[test]
fn input_frame_insert_replaces_value() {
    let mut f = InputFrame::new();
    assert!(f.is_empty());
    f.insert("left".to_owned(), serde_json::Value::from(true));
    f.insert("right".to_owned(), serde_json::Value::from(false));
    f.insert("left".to_owned(), serde_json::Value::from(false));
    assert_eq!(f.inputs.len(), 2);
    assert_eq!(f.inputs[0], ("left".to_owned(), serde_json::Value::from(false)));
    assert_eq!(f.inputs[1], ("right".to_owned(), serde_json::Value::from(false)));
    assert!(!f.is_empty());
}

// -- system schedule ------------------------------------------------------------

#[test]
fn schedule_keeps_declaration_order_and_checks_dependencies() {
    let mut s: SystemSchedule<u8> = SystemSchedule::new();
    assert_eq!(s.check_new_system("input", &[]), Ok(()));
    s.add_system_after("input", &[], 1);
    assert_eq!(s.check_new_system("movement", &["input"]), Ok(()));
    s.add_system_after("movement", &["input"], 2);
    assert_eq!(s.system_names(), vec!["input", "movement"]);
    assert_eq!(*s.func(1), 2);
    assert_eq!(s.system_count(), 2);
    assert!(s.contains("input"));
    assert!(!s.contains("render"));
}

#[test]
fn schedule_rejects_missing_dependency_and_duplicate_name() {
    let mut s: SystemSchedule<u8> = SystemSchedule::new();
    s.add_system_after("input", &[], 1);
    assert_eq!(
        s.check_new_system("render", &["input", "physics"]),
        Err(ScheduleError::UnknownDependency { system: "render".to_owned(), dependency: "physics".to_owned() })
    );
    assert_eq!(s.check_new_system("input", &[]), Err(ScheduleError::DuplicateName { name: "input".to_owned() }));
    // A missing dependency is reported before a repeated name.
    assert_eq!(
        s.check_new_system("input", &["physics"]),
        Err(ScheduleError::UnknownDependency { system: "input".to_owned(), dependency: "physics".to_owned() })
    );
}

// -- replay recording ---------------------------------------------------------

#[test]
fn recorder_checkpoints_on_interval_and_skips_empty_inputs() {
    let mut rec = ReplayRecorder::new((), 7);
    for tick in 0..50u64 {
        let input = if tick == 3 { frame("jump", 1) } else { InputFrame::new() };
        rec.record_tick(tick, &input, Some(format!("h{tick}")));
    }
    let log = rec.finish();
    assert_eq!(log.total_ticks, 50);
    let checkpoint_ticks: Vec<u64> = log
        .entries
        .iter()
        .filter_map(|e| match e {
            ReplayEntry::Checkpoint { tick, .. } => Some(*tick),
            _ => None,
        })
        .collect();
    assert_eq!(checkpoint_ticks, vec![0, 7, 14, 21, 28, 35, 42, 49]);
    let input_ticks: Vec<u64> = log
        .entries
        .iter()
        .filter_map(|e| match e {
            ReplayEntry::Input { tick, .. } => Some(*tick),
            _ => None,
        })
        .collect();
    assert_eq!(input_ticks, vec![3]);
}

#[test]
fn recorder_with_zero_interval_checkpoints_every_hashed_tick() {
    let mut rec = ReplayRecorder::new((), 0);
    rec.set_gameplay_module_hash("abc".to_owned());
    rec.record_tick(5, &InputFrame::new(), Some("x".to_owned()));
    rec.record_tick(6, &InputFrame::new(), None);
    rec.record_tick(9, &frame("k", 2), Some("y".to_owned()));
    let log = rec.finish();
    assert_eq!(log.total_ticks, 3);
    assert_eq!(log.gameplay_module_hash, Some("abc".to_owned()));
    assert_eq!(log.entries.len(), 3);
    assert!(matches!(&log.entries[0], ReplayEntry::Checkpoint { tick: 5, state_hash } if state_hash == "x"));
    assert!(matches!(&log.entries[1], ReplayEntry::Input { tick: 9, .. }));
    assert!(matches!(&log.entries[2], ReplayEntry::Checkpoint { tick: 9, state_hash } if state_hash == "y"));
}

// -- replay plans ---------------------------------------------------------------

#[test]
fn plan_rejects_duplicate_input_entries() {
    let entries = vec![
        ReplayEntry::Input { tick: 0, input: frame("key", 1) },
        ReplayEntry::Input { tick: 0, input: frame("key", 1) },
    ];
    assert_eq!(ReplayPlan::new(&entries, 0, 10).unwrap_err(), ReplayError::DuplicateInput { tick: 0 });
}

#[test]
fn plan_rejects_duplicate_checkpoint_entries() {
    let entries = vec![
        ReplayEntry::Checkpoint { tick: 0, state_hash: "a".to_owned() },
        ReplayEntry::Input { tick: 0, input: frame("key", 1) },
        ReplayEntry::Checkpoint { tick: 0, state_hash: "a".to_owned() },
    ];
    assert_eq!(ReplayPlan::new(&entries, 0, 10).unwrap_err(), ReplayError::DuplicateCheckpoint { tick: 0 });
}

#[test]
fn plan_rejects_tick_range_overflow() {
    assert_eq!(
        ReplayPlan::new(&vec![], 10, u64::MAX).unwrap_err(),
        ReplayError::TickRangeOverflow { start_tick: 10, total_ticks: u64::MAX }
    );
    // Nothing to replay: no overflow.
    assert!(ReplayPlan::new(&vec![], u64::MAX, 0).is_ok());
}

#[test]
fn plan_lookups_and_divergence() {
    let entries = vec![
        ReplayEntry::Input { tick: 2, input: frame("left", 1) },
        ReplayEntry::Checkpoint { tick: 2, state_hash: "aa".to_owned() },
        ReplayEntry::Checkpoint { tick: 4, state_hash: "bb".to_owned() },
    ];
    let plan = ReplayPlan::new(&entries, 1, 5).unwrap();
    assert_eq!(plan.start_tick(), 1);
    assert_eq!(plan.end_tick(), 6);
    assert_eq!(plan.input_for(2).inputs, frame("left", 1).inputs);
    assert!(plan.input_for(3).inputs.is_empty());
    assert_eq!(plan.checkpoint_for(4), Some(&"bb".to_owned()));
    assert_eq!(plan.checkpoint_for(3), None);
    assert!(plan.divergence(2, "aa").is_none());
    assert!(plan.divergence(3, "zz").is_none());
    let d = plan.divergence(4, "cc").unwrap();
    assert_eq!(d.tick, 4);
    assert_eq!(d.expected_hash, "bb");
    assert_eq!(d.actual_hash, "cc");
}

// -- scene components -----------------------------------------------------------

#[test]
fn dynamic_components_in_name_order() {
    let mut world = World::new();
    let vis = world.register_component::<Visible>("visible").unwrap();
    let pos = world.register_component::<Position>("position").unwrap();
    let mut b = ComponentBundle::new();
    b.add(vis, ComponentValue::Json(serde_json::Value::from(true)));
    b.add(pos, ComponentValue::Json(serde_json::Value::from(3)));
    let e = world.spawn_semantic(
        EntityIdentity {
            entity_type: "ui".to_owned(),
            role: "score".to_owned(),
            spawned_by: SystemId::ENGINE_INTERNAL(),
            requirement_id: None,
        },
        b,
    )
    .unwrap();
    let comps = dynamic_components(&world, e);
    let names: Vec<&str> = comps.iter().map(|(n, _)| n.as_str()).collect();
    assert_eq!(names, vec!["__identity", "position", "visible"]);
    assert_eq!(comps[1].1, ComponentValue::Json(serde_json::Value::from(3)));
    assert!(matches!(comps[0].1, ComponentValue::Identity(_)));

    world.despawn(e).unwrap();
    assert!(dynamic_components(&world, e).is_empty());
}

// -- state hashes ---------------------------------------------------------------

#[test]
fn state_hash_is_blake3_hex() {
    assert_eq!(state_hash(b""), "af1349b9f5f9a1a6a0404dea36dcc9499bcb25c9adc112b7cc9a93cae41f3262");
    let h = state_hash(b"{\"tick_counter\":10}");
    assert_eq!(h.len(), 64);
    assert!(h.chars().all(|c| c.is_ascii_digit() || ('a'..='f').contains(&c)));
    assert_ne!(h, state_hash(b"{\"tick_counter\":11}"));
}

#[test]
fn check_state_hash_reports_both_hashes() {
    let bytes = b"state";
    let good = state_hash(bytes);
    assert_eq!(check_state_hash(bytes, &good), Ok(()));
    assert_eq!(
        check_state_hash(bytes, "deadbeef"),
        Err(HashMismatch { recorded: "deadbeef".to_owned(), recomputed: good.clone() })
    );
}

struct TileType;
struct Kind;
struct Prototype;

#[test]
fn type_component_is_first_type_named_component() {
    let mut world = World::new();
    let proto = world.register_component::<Prototype>("prototype").unwrap();
    let tile = world.register_component::<TileType>("tile_type").unwrap();
    let kind = world.register_component::<Kind>("type").unwrap();
    let mut b = ComponentBundle::new();
    b.add(proto, ComponentValue::Json(serde_json::Value::from(0)));
    let only_proto = world.spawn_bundle(b);
    assert_eq!(find_type_component(&world, only_proto), None);

    let mut b = ComponentBundle::new();
    b.add(tile, ComponentValue::Json(serde_json::Value::from(1)));
    b.add(kind, ComponentValue::Json(serde_json::Value::from(2)));
    let both = world.spawn_bundle(b);
    // "tile_type" sorts before "type".
    assert_eq!(find_type_component(&world, both), Some(ComponentValue::Json(serde_json::Value::from(1))));

    let mut b = ComponentBundle::new();
    b.add(kind, ComponentValue::Json(serde_json::Value::from(5)));
    let just_type = world.spawn_bundle(b);
    assert_eq!(find_type_component(&world, just_type), Some(ComponentValue::Json(serde_json::Value::from(5))));
}

// -- messages -------------------------------------------------------------------

#[test]
fn error_messages() {
    let e = EntityId::new(3, 1);
    assert_eq!(e.to_text(), "3v1");
    assert_eq!(e.debug_text(), "EntityId(3v1)");
    assert_eq!(
        EcsError::StaleEntity { entity: e }.message(),
        "entity EntityId(3v1) does not exist (stale or never allocated)"
    );
    assert_eq!(
        EcsError::UnknownComponent { name: "mass".to_owned(), registered: "health, position".to_owned() }.message(),
        "component type 'mass' not registered. Registered components: [health, position]"
    );
    assert_eq!(
        EcsError::ComponentDeserializationError { component: "position".to_owned(), details: "bad".to_owned() }
            .message(),
        "failed to deserialize component 'position': bad"
    );
    assert_eq!(
        ReplayError::DuplicateInput { tick: 0 }.message(),
        "replay log contains duplicate Input entry at tick 0"
    );
    assert_eq!(
        ReplayError::DuplicateCheckpoint { tick: 120 }.message(),
        "replay log contains duplicate Checkpoint entry at tick 120"
    );
    assert_eq!(
        ReplayError::TickRangeOverflow { start_tick: 10, total_ticks: u64::MAX }.message(),
        "tick range overflow: start_tick (10) + total_ticks (18446744073709551615) exceeds u64::MAX"
    );
    assert_eq!(
        HashMismatch { recorded: "ab".to_owned(), recomputed: "cd".to_owned() }.message(),
        "snapshot hash mismatch: recorded ab but recomputed cd. The snapshot may be corrupted or tampered with."
    );
}

#[test]
fn plan_stops_only_at_a_diverging_checkpoint() {
    let entries = vec![
        ReplayEntry::Checkpoint { tick: 2, state_hash: "aa".to_owned() },
        ReplayEntry::Checkpoint { tick: 4, state_hash: "bb".to_owned() },
    ];
    let plan = ReplayPlan::new(&entries, 1, 5).unwrap();
    assert!(plan.stop_at(&ReplayProgress { tick: 1, ticks_replayed: 0 }, None).is_none());
    assert!(plan.stop_at(&ReplayProgress { tick: 2, ticks_replayed: 1 }, Some("aa")).is_none());
    assert!(plan.stop_at(&ReplayProgress { tick: 3, ticks_replayed: 2 }, Some("zz")).is_none());
    let stopped = plan.stop_at(&ReplayProgress { tick: 4, ticks_replayed: 3 }, Some("cc")).unwrap();
    assert!(!stopped.completed);
    assert_eq!(stopped.ticks_replayed, 3);
    let d = stopped.first_divergence.unwrap();
    assert_eq!(d.tick, 4);
    assert_eq!(d.expected_hash, "bb");
    assert_eq!(d.actual_hash, "cc");
    let done = plan.completed(5);
    assert!(done.completed);
    assert_eq!(done.ticks_replayed, 5);
    assert!(done.first_divergence.is_none());
}

#[test]
fn plan_steps_through_its_range() {
    let entries = vec![ReplayEntry::Checkpoint { tick: 3, state_hash: "bb".to_owned() }];
    let plan = ReplayPlan::new(&entries, 1, 3).unwrap();
    let mut seen = Vec::new();
    let mut step = plan.first_step();
    let result = loop {
        match step {
            ReplayStep::Done(r) => break r,
            ReplayStep::Run(p) => {
                seen.push((p.tick, p.ticks_replayed));
                let hash = if plan.checkpoint_for(p.tick).is_some() { Some("bb") } else { None };
                assert!(plan.stop_at(&p, hash).is_none());
                step = plan.after_tick(&p);
            }
        }
    };
    assert_eq!(seen, vec![(1, 0), (2, 1), (3, 2)]);
    assert!(result.completed);
    assert_eq!(result.ticks_replayed, 3);
    assert!(result.first_divergence.is_none());

    let empty = ReplayPlan::new(&vec![], 7, 0).unwrap();
    match empty.first_step() {
        ReplayStep::Done(r) => {
            assert!(r.completed);
            assert_eq!(r.ticks_replayed, 0);
        }
        ReplayStep::Run(_) => panic!("an empty range has nothing to replay"),
    }
}
