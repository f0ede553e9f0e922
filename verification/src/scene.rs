//! Scene extraction helpers: the identity labels and the visibility of an
//! entity as the scene snapshot reports them.
use crate::entity::EntityId;
use crate::identity::Identity;
use crate::json::{as_bool, json_as_bool};
use crate::strings::{chars_of, lemma_seq_lt_irreflexive, seq_lt};
use crate::component::{lemma_seq_lt_transitive, lists_name};
use crate::component::ComponentTypeId;
use crate::value::ComponentValue;
use crate::world::World;
use vstd::prelude::*;

verus! {

/// The `(type_name, role, tier)` labels of an optional identity: for a
/// semantic identity its entity type, role and `"Semantic"`; for a pooled
/// identity its pool type, variant and `"Pooled"`; without an identity
/// `"unknown"`, `"unknown"` and `"Unknown"`.
pub open spec fn identity_labels(identity: Option<Identity>) -> (Seq<char>, Seq<char>, Seq<char>) {
    match identity {
        Some(Identity::Semantic(e)) => (e.entity_type@, e.role@, "Semantic"@),
        Some(Identity::Pooled(p)) => (p.pool_type@, p.variant@, "Pooled"@),
        None => ("unknown"@, "unknown"@, "Unknown"@),
    }
}

/// Extract `(type_name, role, tier)` from an optional [`Identity`]. For a
/// pooled identity the role equivalent is its variant.
pub fn extract_identity(identity: Option<&Identity>) -> (r: (String, String, String))
    ensures
        (r.0@, r.1@, r.2@) == identity_labels(match identity {
            Some(i) => Some(*i),
            None => None,
        }),
{
    match identity {
        Some(Identity::Semantic(e)) => (e.entity_type.clone(), e.role.clone(), "Semantic".to_owned()),
        Some(Identity::Pooled(p)) => (p.pool_type.clone(), p.variant.clone(), "Pooled".to_owned()),
        None => ("unknown".to_owned(), "unknown".to_owned(), "Unknown".to_owned()),
    }
}

/// Whether an entity is drawn: `true` unless it has a `"visible"` component
/// whose JSON value reads as `false`.
pub open spec fn visible_in(world: World, entity: EntityId) -> bool {
    match world.reg().id_for_name("visible"@) {
        Some(t) => if world.view().contains_key(entity) && world.view()[entity].contains_key(t) {
            match world.view()[entity][t] {
                ComponentValue::Json(v) => match json_as_bool(v) {
                    Some(b) => b,
                    None => true,
                },
                _ => true,
            }
        } else {
            true
        },
        None => true,
    }
}

/// Check if an entity is visible: `true` unless it has a `"visible"`
/// component explicitly set to `false`.
pub fn is_visible(world: &World, entity: EntityId) -> (b: bool)
    requires
        world.wf(),
    ensures
        b == visible_in(*world, entity),
{
    match world.get_component_by_name(entity, "visible") {
        Some(ComponentValue::Json(v)) => match as_bool(&v) {
            Some(b) => b,
            None => true,
        },
        _ => true,
    }
}

/// Entity `entity` of `world` has, under the registered name `name`, a
/// component whose value is `v`.
pub open spec fn holds_named(world: World, entity: EntityId, name: Seq<char>, v: ComponentValue) -> bool {
    match world.reg().id_for_name(name) {
        Some(t) => world.view().contains_key(entity) && world.view()[entity].contains_key(t)
            && world.view()[entity][t] == v,
        None => false,
    }
}

/// Entity `entity` of `world` has a component under the registered name
/// `name`.
pub open spec fn has_named(world: World, entity: EntityId, name: Seq<char>) -> bool {
    match world.reg().id_for_name(name) {
        Some(t) => world.view().contains_key(entity) && world.view()[entity].contains_key(t),
        None => false,
    }
}

/// The components of an entity with their registered names, in increasing
/// name order: every registered component the entity has, once. A dead
/// entity has none.
pub fn dynamic_components(world: &World, entity: EntityId) -> (r: Vec<(String, ComponentValue)>)
    requires
        world.wf(),
    ensures
        forall|i: int, k: int| 0 <= i < k < r@.len() ==> seq_lt(r@[i].0@, r@[k].0@),
        forall|i: int| 0 <= i < r@.len() ==> #[trigger] holds_named(*world, entity, r@[i].0@, r@[i].1),
        forall|t: ComponentTypeId|
            world.reg().registered(t) && world.view().contains_key(entity) && #[trigger] world.view()[entity].contains_key(t)
                ==> exists|i: int| 0 <= i < r@.len() && r@[i].0@ == world.reg().entries()[t.0 as int].name@,
{
    proof {
        world.lemma_wf_parts();
    }
    let names = world.registry().registered_names();
    let mut out: Vec<(String, ComponentValue)> = Vec::new();
    let ghost mut src: Seq<int> = Seq::empty();
    let mut k: usize = 0;
    while k < names.len()
        invariant
            world.wf(),
            world.reg().wf(),
            k <= names@.len(),
            forall|i: int, j: int| 0 <= i < j < names@.len() ==> seq_lt(names@[i]@, names@[j]@),
            src.len() == out@.len(),
            forall|i: int| 0 <= i < out@.len() ==> 0 <= #[trigger] src[i] < k && out@[i].0@ == names@[src[i]]@,
            forall|i: int, j: int| 0 <= i < j < out@.len() ==> src[i] < src[j],
            forall|i: int| 0 <= i < out@.len() ==> #[trigger] holds_named(*world, entity, out@[i].0@, out@[i].1),
            forall|m: int|
                0 <= m < k && #[trigger] has_named(*world, entity, names@[m]@) ==> exists|i: int| 0 <= i < out@.len() && src[i] == m,
        decreases names@.len() - k,
    {
        let name = names[k];
        let ghost o = out@;
        let ghost s0 = src;
        match world.get_component_by_name(entity, name) {
            Some(v) => {
                out.push((name.to_owned(), v));
                proof {
                    src = src.push(k as int);
                    assert forall|i: int| 0 <= i < out@.len() implies #[trigger] holds_named(*world, entity, out@[i].0@, out@[i].1) by {
                        if i < o.len() {
                            assert(out@[i] == o[i]);
                        }
                    }
                    assert(out@[o.len() as int].0@ == names@[k as int]@);
                }
            },
            None => {
                assert(!has_named(*world, entity, names@[k as int]@));
            },
        }
        proof {
            assert forall|m: int|
                0 <= m < k + 1 && #[trigger] has_named(*world, entity, names@[m]@) implies exists|i: int| 0 <= i < out@.len() && src[i] == m by {
                if m == k {
                    assert(src[out@.len() - 1] == m);
                } else {
                    let i = choose|i: int| 0 <= i < o.len() && s0[i] == m;
                    assert(src[i] == m);
                }
            }
        }
        k = k + 1;
    }
    proof {
        assert forall|i: int, j: int| 0 <= i < j < out@.len() implies seq_lt(out@[i].0@, out@[j].0@) by {
            assert(src[i] < src[j]);
        }
        assert forall|t: ComponentTypeId|
            world.reg().registered(t) && world.view().contains_key(entity) && #[trigger] world.view()[entity].contains_key(t)
                implies exists|i: int| 0 <= i < out@.len() && out@[i].0@ == world.reg().entries()[t.0 as int].name@ by {
            let nm = world.reg().entries()[t.0 as int].name@;
            assert(crate::component::lists_name(names@, nm));
            let m = choose|m: int| 0 <= m < names@.len() && names@[m]@ == nm;
            world.reg().lemma_id_for_entry_name(t);
            assert(world.reg().id_for_name(names@[m]@) == Some(t));
            assert(has_named(*world, entity, names@[m]@));
            let i = choose|i: int| 0 <= i < out@.len() && src[i] == m;
            assert(out@[i].0@ == nm);
        }
    }
    out
}

/// A component name that marks a type-distinguishing component: `"type"`
/// or a name ending in `"_type"`.
pub open spec fn is_type_name(name: Seq<char>) -> bool {
    name == "type"@ || (name.len() >= 5 && name.subrange(name.len() - 5, name.len() as int) == "_type"@)
}

/// Whether `name` marks a type-distinguishing component.
fn type_name_exec(name: &str) -> (b: bool)
    ensures
        b == is_type_name(name@),
{
    proof {
        reveal_strlit("type");
        reveal_strlit("_type");
    }
    let cs = chars_of(name);
    let n = cs.len();
    if n == 4 && cs[0] == 't' && cs[1] == 'y' && cs[2] == 'p' && cs[3] == 'e' {
        assert(name@ =~= "type"@);
        return true;
    }
    if n >= 5 && cs[n - 5] == '_' && cs[n - 4] == 't' && cs[n - 3] == 'y' && cs[n - 2] == 'p' && cs[n - 1] == 'e' {
        assert(name@.subrange(n - 5, n as int) =~= "_type"@);
        return true;
    }
    proof {
        if name@ == "type"@ {
            assert(name@[0] == 't' && name@[1] == 'y' && name@[2] == 'p' && name@[3] == 'e');
        }
        if name@.len() >= 5 && name@.subrange(name@.len() - 5, name@.len() as int) == "_type"@ {
            let t = name@.subrange(name@.len() - 5, name@.len() as int);
            assert(t[0] == '_' && t[1] == 't' && t[2] == 'y' && t[3] == 'p' && t[4] == 'e');
            assert(cs@[n - 5] == t[0]);
            assert(cs@[n - 4] == t[1]);
            assert(cs@[n - 3] == t[2]);
            assert(cs@[n - 2] == t[3]);
            assert(cs@[n - 1] == t[4]);
        }
    }
    false
}

/// The value of an entity's type-distinguishing component: the one, among
/// the registered components it has named `"type"` or `"..._type"`, whose
/// name comes first; `None` when it has none.
pub fn find_type_component(world: &World, entity: EntityId) -> (r: Option<ComponentValue>)
    requires
        world.wf(),
    ensures
        match r {
            Some(v) => exists|n: Seq<char>|
                {
                    &&& is_type_name(n)
                    &&& holds_named(*world, entity, n, v)
                    &&& forall|m: Seq<char>| is_type_name(m) && #[trigger] has_named(*world, entity, m) ==> !seq_lt(m, n)
                },
            None => forall|n: Seq<char>| is_type_name(n) ==> !#[trigger] has_named(*world, entity, n),
        },
{
    proof {
        world.lemma_wf_parts();
    }
    let names = world.registry().registered_names();
    let mut k: usize = 0;
    while k < names.len()
        invariant
            world.wf(),
            world.reg().wf(),
            k <= names@.len(),
            forall|i: int, j: int| 0 <= i < j < names@.len() ==> seq_lt(names@[i]@, names@[j]@),
            forall|j: int| 0 <= j < world.reg().count() ==> lists_name(names@, (#[trigger] world.reg().entries()[j]).name@),
            forall|i: int| 0 <= i < k ==> !(is_type_name(names@[i]@) && #[trigger] has_named(*world, entity, names@[i]@)),
        decreases names@.len() - k,
    {
        let name = names[k];
        if type_name_exec(name) {
            match world.get_component_by_name(entity, name) {
                Some(v) => {
                    proof {
                        let n = name@;
                        assert(holds_named(*world, entity, n, v));
                        assert forall|m: Seq<char>| is_type_name(m) && #[trigger] has_named(*world, entity, m) implies !seq_lt(m, n) by {
                            let i = choose|i: int| world.reg().named(m, i);
                            assert(lists_name(names@, world.reg().entries()[i].name@));
                            let j = choose|j: int| 0 <= j < names@.len() && names@[j]@ == world.reg().entries()[i].name@;
                            assert(names@[j]@ == m);
                            if j < k {
                                assert(!(is_type_name(names@[j]@) && has_named(*world, entity, names@[j]@)));
                            } else if j == k {
                                lemma_seq_lt_irreflexive(m);
                            } else {
                                assert(seq_lt(n, m));
                                if seq_lt(m, n) {
                                    lemma_seq_lt_transitive(n, m, n);
                                    lemma_seq_lt_irreflexive(n);
                                }
                            }
                        }
                    }
                    return Some(v);
                },
                None => {},
            }
        }
        k = k + 1;
    }
    proof {
        assert forall|n: Seq<char>| is_type_name(n) implies !#[trigger] has_named(*world, entity, n) by {
            if has_named(*world, entity, n) {
                let i = choose|i: int| world.reg().named(n, i);
                assert(lists_name(names@, world.reg().entries()[i].name@));
                let j = choose|j: int| 0 <= j < names@.len() && names@[j]@ == world.reg().entries()[i].name@;
                assert(!(is_type_name(names@[j]@) && has_named(*world, entity, names@[j]@)));
            }
        }
    }
    None
}

} // verus!
