//! Component values as the ECS stores them.
//!
//! User components are held in their JSON form (`serde_json::Value`), the
//! form in which commands, snapshots and the manifest carry them; the
//! built-in identity component is held as an [`Identity`].
use crate::identity::{EntityIdentity, Identity, PoolIdentity};
use vstd::prelude::*;

verus! {

/// Lets component values carry `serde_json::Value`s; the library never looks
/// inside one.
#[verifier::external_type_specification]
#[verifier::external_body]
pub struct ExJsonValue(serde_json::Value);

/// Trusted: `serde_json::Value`'s `Clone` is derived, so the copy equals
/// the cloned value.
pub assume_specification[ <serde_json::Value as Clone>::clone ](v: &serde_json::Value) -> (r:
    serde_json::Value)
    ensures
        r == *v,
;

/// A stored component value.
#[derive(Debug, PartialEq)]
pub enum ComponentValue {
    /// A user component, in its JSON form.
    Json(serde_json::Value),
    /// The built-in identity component.
    Identity(Identity),
}

impl EntityIdentity {
    /// A field-by-field copy.
    pub fn duplicate(&self) -> (c: EntityIdentity)
        ensures
            c == *self,
    {
        EntityIdentity {
            entity_type: self.entity_type.clone(),
            role: self.role.clone(),
            spawned_by: self.spawned_by,
            requirement_id: match &self.requirement_id {
                Some(r) => Some(r.clone()),
                None => None,
            },
        }
    }
}

impl PoolIdentity {
    /// A field-by-field copy.
    pub fn duplicate(&self) -> (c: PoolIdentity)
        ensures
            c == *self,
    {
        PoolIdentity { pool_type: self.pool_type.clone(), variant: self.variant.clone() }
    }
}

impl Identity {
    /// A copy of this identity.
    pub fn duplicate(&self) -> (c: Identity)
        ensures
            c == *self,
    {
        match self {
            Identity::Semantic(e) => Identity::Semantic(e.duplicate()),
            Identity::Pooled(p) => Identity::Pooled(p.duplicate()),
        }
    }
}

impl ComponentValue {
    /// A copy of this value.
    pub fn duplicate(&self) -> (c: ComponentValue)
        ensures
            c == *self,
    {
        match self {
            ComponentValue::Json(v) => ComponentValue::Json(v.clone()),
            ComponentValue::Identity(i) => ComponentValue::Identity(i.duplicate()),
        }
    }
}

} // verus!
