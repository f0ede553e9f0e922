use nomai_engine::identity::{EntityIdentity, Identity, IdentityTier, PoolIdentity, SystemId};

#[test]
fn identity_tier_from_semantic() {
    let identity = Identity::Semantic(EntityIdentity {
        entity_type: "character".to_owned(),
        role: "player".to_owned(),
        spawned_by: SystemId::PLAYER_SPAWNER(),
        requirement_id: Some("REQ-001".to_owned()),
    });
    assert_eq!(identity.tier(), IdentityTier::Semantic);
    assert_eq!(identity.role(), Some("player"));
    assert_eq!(identity.type_str(), "character");
}

#[test]
fn identity_tier_from_pooled() {
    let identity = Identity::Pooled(PoolIdentity {
        pool_type: "destructible".to_owned(),
        variant: "brick".to_owned(),
    });
    assert_eq!(identity.tier(), IdentityTier::Pooled);
    assert_eq!(identity.role(), None);
    assert_eq!(identity.type_str(), "destructible");
}

#[test]
fn system_id_constants() {
    assert_eq!(SystemId::ENGINE_INTERNAL().0, 0);
    assert_eq!(SystemId::PLAYER_SPAWNER().0, 1);
    assert_eq!(SystemId::WASM_GAMEPLAY().0, 100);
    assert_eq!(SystemId::PHYSICS().0, 200);
}

#[test]
fn identity_tier_equality() {
    assert_eq!(IdentityTier::Semantic, IdentityTier::Semantic);
    assert_eq!(IdentityTier::Pooled, IdentityTier::Pooled);
    assert_ne!(IdentityTier::Semantic, IdentityTier::Pooled);
}
