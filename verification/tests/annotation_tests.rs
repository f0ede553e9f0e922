use nomai_engine::annotation::parse_asset_path;

#[test]
fn parse_player_idle_right() {
    let ann = parse_asset_path("assets/sprites/player/idle_right.png").unwrap();
    assert_eq!(ann.entity_type, "player");
    assert_eq!(ann.semantic_type, "character_sprite");
    assert_eq!(ann.represents, "player.idle.facing_right");
    assert!(ann.tags.contains(&"player".to_string()));
    assert!(ann.tags.contains(&"idle".to_string()));
    assert!(ann.tags.contains(&"right".to_string()));
}

#[test]
fn parse_invalid_returns_none() {
    assert!(parse_asset_path("not_assets/random.txt").is_none());
    assert!(parse_asset_path("assets/").is_none());
    assert!(parse_asset_path("").is_none());
}

#[test]
fn annotation_parse_tile_path() {
    let ann = parse_asset_path("assets/tiles/grass/normal.png").unwrap();
    assert_eq!(ann.entity_type, "grass");
    assert_eq!(ann.semantic_type, "tile");
    assert_eq!(ann.represents, "tile.grass.normal");
}

#[test]
fn parse_ui_path() {
    let ann = parse_asset_path("assets/ui/health_bar.png").unwrap();
    assert_eq!(ann.semantic_type, "ui_element");
    assert_eq!(ann.represents, "ui.health_bar");
}

#[test]
fn parse_player_sprite_path() {
    let ann = parse_asset_path("assets/sprites/player/idle_right.png").unwrap();
    assert_eq!(ann.entity_type, "player");
    assert_eq!(ann.semantic_type, "character_sprite");
    assert_eq!(ann.represents, "player.idle.facing_right");
    assert!(ann.tags.contains(&"player".to_string()));
    assert!(ann.tags.contains(&"idle".to_string()));
    assert!(ann.tags.contains(&"right".to_string()));
    assert_eq!(ann.asset_path, "assets/sprites/player/idle_right.png");
}

#[test]
fn parse_enemy_sprite_path() {
    let ann = parse_asset_path("assets/sprites/enemy/run_left.png").unwrap();
    assert_eq!(ann.entity_type, "enemy");
    assert_eq!(ann.semantic_type, "character_sprite");
    assert_eq!(ann.represents, "enemy.run.facing_left");
    assert!(ann.tags.contains(&"enemy".to_string()));
    assert!(ann.tags.contains(&"run".to_string()));
    assert!(ann.tags.contains(&"left".to_string()));
}

#[test]
fn annotation_tests_parse_tile_path() {
    let ann = parse_asset_path("assets/tiles/grass/normal.png").unwrap();
    assert_eq!(ann.entity_type, "grass");
    assert_eq!(ann.semantic_type, "tile");
    assert_eq!(ann.represents, "tile.grass.normal");
    assert!(ann.tags.contains(&"grass".to_string()));
    assert!(ann.tags.contains(&"normal".to_string()));
}

#[test]
fn parse_invalid_path_returns_none() {
    assert!(
        parse_asset_path("not_assets/random.txt").is_none(),
        "path not starting with assets/ should return None"
    );
    assert!(parse_asset_path("").is_none(), "empty path should return None");
    assert!(parse_asset_path("assets/").is_none(), "path with only assets/ should return None");
    assert!(parse_asset_path("random.png").is_none(), "bare filename should return None");
}

#[test]
fn parse_ui_element_path() {
    let ann = parse_asset_path("assets/ui/health_bar.png").unwrap();
    assert_eq!(ann.semantic_type, "ui_element");
    assert_eq!(ann.represents, "ui.health_bar");
}

#[test]
fn parse_animation_frame_path() {
    let ann = parse_asset_path("assets/sprites/player/walk_right_01.png").unwrap();
    assert_eq!(ann.entity_type, "player");
    assert!(
        ann.represents.contains("facing_right"),
        "should detect direction despite trailing digits, got: {}",
        ann.represents
    );
}

#[test]
fn parse_nested_enemy_path() {
    let ann = parse_asset_path("assets/sprites/enemy/melee/idle.png").unwrap();
    assert_eq!(ann.entity_type, "enemy");
    assert_eq!(ann.semantic_type, "character_sprite");
}

#[test]
fn tags_are_entity_parts_direction_category_without_repeats() {
    let ann = parse_asset_path("assets/sprites/player/walk_right_01.png").unwrap();
    assert_eq!(ann.represents, "player.walk.facing_right");
    assert_eq!(ann.tags, vec!["player", "walk", "right", "01", "sprites"]);
    let ann = parse_asset_path("assets/sprites/player/player_idle.png").unwrap();
    assert_eq!(ann.tags, vec!["player", "idle", "sprites"]);
    assert_eq!(ann.represents, "player.player_idle");
}

#[test]
fn direction_with_glued_frame_number_and_unknown_category() {
    let ann = parse_asset_path("assets/sprites/bat/fly_left02.png").unwrap();
    assert_eq!(ann.represents, "bat.fly.facing_left");
    assert_eq!(ann.tags, vec!["bat", "fly", "left02", "left", "sprites"]);
    let ann = parse_asset_path("assets\\props\\barrel\\wood.png").unwrap();
    assert_eq!(ann.semantic_type, "props");
    assert_eq!(ann.represents, "props.barrel.wood");
    assert_eq!(ann.asset_path, "assets\\props\\barrel\\wood.png");
}

#[test]
fn file_name_without_extension_and_empty_stem() {
    let ann = parse_asset_path("assets/ui/menu").unwrap();
    assert_eq!(ann.entity_type, "menu");
    assert_eq!(ann.represents, "ui.menu");
    assert!(parse_asset_path("assets/ui/.png").is_none());
    let ann = parse_asset_path("assets/tiles/stone/cracked.old.png").unwrap();
    assert_eq!(ann.represents, "tile.stone.cracked.old");
}
