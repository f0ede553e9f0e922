//! Errors produced by ECS operations.
use crate::entity::EntityId;
use crate::strings::{append_str, string_from_chars};
use vstd::prelude::*;

verus! {

/// Errors produced by ECS operations.
#[derive(Debug)]
pub enum EcsError {
    /// The entity does not exist (stale generation or never allocated).
    StaleEntity {
        /// The entity that was referenced.
        entity: EntityId,
    },
    /// A component type was referenced that has not been registered.
    UnknownComponent {
        /// The name that was referenced.
        name: String,
        /// The registered names, sorted and joined by `", "`.
        registered: String,
    },
    /// A component value could not be converted to the component's type.
    ComponentDeserializationError {
        /// The component concerned.
        component: String,
        /// What went wrong.
        details: String,
    },
}

impl EcsError {
    /// The message describing an error.
    pub open spec fn message_spec(&self) -> Seq<char> {
        match self {
            EcsError::StaleEntity { entity } => "entity "@ + "EntityId("@ + entity.text_spec() + ")"@
                + " does not exist (stale or never allocated)"@,
            EcsError::UnknownComponent { name, registered } => "component type '"@ + name@
                + "' not registered. Registered components: ["@ + registered@ + "]"@,
            EcsError::ComponentDeserializationError { component, details } => "failed to deserialize component '"@
                + component@ + "': "@ + details@,
        }
    }

    /// The message describing an error, as in
    /// `"entity EntityId(3v1) does not exist (stale or never allocated)"`.
    pub fn message(&self) -> (s: String)
        ensures
            s@ == self.message_spec(),
    {
        let mut cs: Vec<char> = Vec::new();
        match self {
            EcsError::StaleEntity { entity } => {
                append_str(&mut cs, "entity ");
                let d = entity.debug_text();
                append_str(&mut cs, d.as_str());
                append_str(&mut cs, " does not exist (stale or never allocated)");
            },
            EcsError::UnknownComponent { name, registered } => {
                append_str(&mut cs, "component type '");
                append_str(&mut cs, name.as_str());
                append_str(&mut cs, "' not registered. Registered components: [");
                append_str(&mut cs, registered.as_str());
                append_str(&mut cs, "]");
            },
            EcsError::ComponentDeserializationError { component, details } => {
                append_str(&mut cs, "failed to deserialize component '");
                append_str(&mut cs, component.as_str());
                append_str(&mut cs, "': ");
                append_str(&mut cs, details.as_str());
            },
        }
        proof {
            assert(cs@ =~= self.message_spec());
        }
        string_from_chars(cs.as_slice())
    }
}

} // verus!
