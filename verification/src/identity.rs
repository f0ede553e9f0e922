//! Tiered entity identity.
//!
//! Every entity spawned through the tiered API declares an identity tier:
//!
//! - [`IdentityTier::Semantic`]: full manifest presence and causality
//!   tracking, for game-meaningful entities (player, enemies, items, UI).
//! - [`IdentityTier::Pooled`]: type-level aggregation, for repeated entities
//!   (bullets, coins, tiles).
//!
//! The [`Identity`] value is stored as a built-in component on every entity
//! created via `World::spawn_semantic` or `World::spawn_pooled`.
use vstd::prelude::*;

verus! {

/// The identity tier an entity declares at spawn time.
#[derive(Debug, Clone, Copy, PartialEq, Eq, Hash, Structural)]
pub enum IdentityTier {
    /// Full manifest presence, full causality tracking.
    Semantic,
    /// Type-level aggregation in the manifest.
    Pooled,
}

/// Unique numeric ID for a system, used in causality tracking.
#[derive(Debug, Clone, Copy, PartialEq, Eq, Hash, Structural)]
pub struct SystemId(pub u32);

#[allow(non_snake_case)]
impl SystemId {
    /// The player-spawner system (e.g., initial scene setup).
    pub fn PLAYER_SPAWNER() -> (s: SystemId)
        ensures
            s.0 == 1,
    {
        SystemId(1)
    }

    /// WASM gameplay logic systems.
    pub fn WASM_GAMEPLAY() -> (s: SystemId)
        ensures
            s.0 == 100,
    {
        SystemId(100)
    }

    /// Physics system.
    pub fn PHYSICS() -> (s: SystemId)
        ensures
            s.0 == 200,
    {
        SystemId(200)
    }

    /// Engine-internal operations (not tied to a user-visible system).
    pub fn ENGINE_INTERNAL() -> (s: SystemId)
        ensures
            s.0 == 0,
    {
        SystemId(0)
    }
}

/// Identity metadata for a [`IdentityTier::Semantic`] entity.
#[derive(Debug, Clone, PartialEq, Eq, Hash)]
pub struct EntityIdentity {
    /// Broad category: `"character"`, `"projectile"`, `"ui"`, etc.
    pub entity_type: String,
    /// Specific role within the category: `"player"`, `"enemy.melee"`, etc.
    pub role: String,
    /// Which system spawned this entity.
    pub spawned_by: SystemId,
    /// Optional link back to a game-design requirement or intent spec.
    pub requirement_id: Option<String>,
}

/// Identity metadata for a [`IdentityTier::Pooled`] entity.
#[derive(Debug, Clone, PartialEq, Eq, Hash)]
pub struct PoolIdentity {
    /// The pool category: `"destructible"`, `"collectible"`, etc.
    pub pool_type: String,
    /// The specific variant within the pool: `"brick"`, `"coin"`, etc.
    pub variant: String,
}

/// Combined identity info stored as a component on every tiered entity.
#[derive(Debug, Clone, PartialEq)]
pub enum Identity {
    /// A semantic-tier entity with full individual tracking.
    Semantic(EntityIdentity),
    /// A pooled-tier entity with type-level aggregation.
    Pooled(PoolIdentity),
}

impl Identity {
    /// The tier of an identity.
    pub open spec fn tier_of(&self) -> IdentityTier {
        match self {
            Identity::Semantic(_) => IdentityTier::Semantic,
            Identity::Pooled(_) => IdentityTier::Pooled,
        }
    }

    /// Returns the [`IdentityTier`] of this identity.
    pub fn tier(&self) -> (t: IdentityTier)
        ensures
            t == self.tier_of(),
    {
        match self {
            Identity::Semantic(_) => IdentityTier::Semantic,
            Identity::Pooled(_) => IdentityTier::Pooled,
        }
    }

    /// Returns the role string if this is a [`Identity::Semantic`] identity,
    /// or `None` for pooled entities.
    pub fn role(&self) -> (r: Option<&str>)
        ensures
            match self {
                Identity::Semantic(eid) => r is Some && r->0@ == eid.role@,
                Identity::Pooled(_) => r is None,
            },
    {
        match self {
            Identity::Semantic(eid) => Some(eid.role.as_str()),
            Identity::Pooled(_) => None,
        }
    }

    /// Returns the entity type string for semantic, or pool type for pooled.
    pub fn type_str(&self) -> (n: &str)
        ensures
            match self {
                Identity::Semantic(eid) => n@ == eid.entity_type@,
                Identity::Pooled(pid) => n@ == pid.pool_type@,
            },
    {
        match self {
            Identity::Semantic(eid) => eid.entity_type.as_str(),
            Identity::Pooled(pid) => pid.pool_type.as_str(),
        }
    }
}

} // verus!
