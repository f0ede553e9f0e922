//! World snapshot and restore support.
//!
//! A [`WorldSnapshot`] is a complete, plain-data picture of the ECS world: the
//! allocator state, the registered component names, and every live entity
//! with its components keyed by component name. Capturing and restoring
//! reproduces entity ids, allocator generations, the free list and all
//! component data exactly.
use crate::component::{id_space, lemma_seq_lt_total, lemma_seq_lt_transitive, ComponentRegistry, ComponentTypeId};
use crate::entity::{allocator_state_ok, id_from_parts, index_space, lemma_id_from_parts, lemma_id_parts, EntityId};
use crate::error::EcsError;
use crate::strings::{append_decimal, append_str, chars_lt, chars_of, decimal, lemma_seq_lt_irreflexive, seq_lt, string_from_chars};
use crate::value::ComponentValue;
use crate::world::{distinct_ids, World};
use crate::bundle::{map_of, types_of, values_of, lemma_map_of_index, ComponentBundle};
use crate::archetype::strictly_sorted;
use vstd::prelude::*;

verus! {

/// The allocator state: generations, alive flags and free list.
#[derive(Debug, PartialEq)]
pub struct AllocatorSnapshot {
    /// Per-index generation counters.
    pub generations: Vec<u32>,
    /// Per-index alive flags.
    pub alive: Vec<bool>,
    /// Free-list indices (in FIFO order).
    pub free_indices: Vec<u32>,
}

/// One entity and its components, keyed by component name in increasing
/// name order.
#[derive(Debug, PartialEq)]
pub struct EntitySnapshot {
    /// The entity's ID (index + generation).
    pub entity_id: EntityId,
    /// `(component name, value)` pairs, strictly increasing by name.
    pub components: Vec<(String, ComponentValue)>,
}

/// A complete snapshot of the ECS world state.
#[derive(Debug, PartialEq)]
pub struct WorldSnapshot {
    /// Allocator state (generations, alive flags, free list).
    pub allocator: AllocatorSnapshot,
    /// Names of all registered component types, sorted (informational).
    pub component_names: Vec<String>,
    /// All alive entities with their component data.
    pub entities: Vec<EntitySnapshot>,
}

/// The names of `cs` are strictly increasing, so no name occurs twice.
pub open spec fn names_sorted(cs: Seq<(String, ComponentValue)>) -> bool {
    forall|i: int, j: int| 0 <= i < j < cs.len() ==> seq_lt(cs[i].0@, cs[j].0@)
}

impl EntitySnapshot {
    /// Components are keyed by distinct names in increasing order.
    pub open spec fn wf(&self) -> bool {
        names_sorted(self.components@)
    }
}

impl WorldSnapshot {
    /// Every entity snapshot is well formed.
    pub open spec fn wf(&self) -> bool {
        forall|i: int| 0 <= i < self.entities@.len() ==> (#[trigger] self.entities@[i]).wf()
    }
}

/// The name-keyed components `cs` describe the components `m` of an entity
/// under registry `reg`: names increase, each names a component of `m` with
/// the same value, and each component of `m` is named once.
pub open spec fn describes(
    reg: ComponentRegistry,
    cs: Seq<(String, ComponentValue)>,
    m: Map<ComponentTypeId, ComponentValue>,
) -> bool {
    &&& names_sorted(cs)
    &&& forall|k: int|
        0 <= k < cs.len() ==> {
            let t = reg.id_for_name((#[trigger] cs[k]).0@);
            &&& t is Some
            &&& m.contains_key(t->0)
            &&& m[t->0] == cs[k].1
        }
    &&& forall|t: ComponentTypeId|
        #[trigger] m.contains_key(t) ==> exists|k: int|
            0 <= k < cs.len() && reg.id_for_name((#[trigger] cs[k]).0@) == Some(t)
}

/// `s` is a snapshot of world `w`: the allocator state, the sorted component
/// names, and one entry per live entity, in increasing raw-id order, that
/// describes its components.
pub open spec fn captured(w: World, s: WorldSnapshot) -> bool {
    &&& s.wf()
    &&& s.allocator.generations@ == w.allocator_state().gens()
    &&& s.allocator.alive@ == w.allocator_state().flags()
    &&& s.allocator.free_indices@ == w.allocator_state().free()
    &&& w.reg().sorted_names(s.component_names@.map_values(|n: String| n@))
    &&& forall|i: int, j: int|
        0 <= i < j < s.entities@.len() ==> s.entities@[i].entity_id.raw() < s.entities@[j].entity_id.raw()
    &&& forall|e: EntityId|
        w.view().contains_key(e) <==> exists|i: int|
            0 <= i < s.entities@.len() && (#[trigger] s.entities@[i]).entity_id == e
    &&& forall|i: int|
        0 <= i < s.entities@.len() ==> describes(
            w.reg(),
            (#[trigger] s.entities@[i]).components@,
            w.view()[s.entities@[i].entity_id],
        )
}

/// The ids of `ids` in increasing raw order.
fn sort_by_raw(ids: Vec<EntityId>) -> (out: Vec<EntityId>)
    requires
        distinct_ids(ids@),
    ensures
        forall|e: EntityId| out@.contains(e) <==> ids@.contains(e),
        forall|i: int, j: int| 0 <= i < j < out@.len() ==> out@[i].raw() < out@[j].raw(),
{
    let mut out: Vec<EntityId> = Vec::new();
    let mut n: usize = 0;
    while n < ids.len()
        invariant
            n <= ids@.len(),
            distinct_ids(ids@),
            forall|e: EntityId| out@.contains(e) <==> ids@.take(n as int).contains(e),
            forall|i: int, j: int| 0 <= i < j < out@.len() ==> out@[i].raw() < out@[j].raw(),
        decreases ids@.len() - n,
    {
        let e = ids[n];
        let r = e.to_raw();
        let mut p: usize = 0;
        while p < out.len() && out[p].to_raw() < r
            invariant
                p <= out@.len(),
                r == e.raw(),
                forall|i: int| 0 <= i < p ==> out@[i].raw() < r,
            decreases out@.len() - p,
        {
            p = p + 1;
        }
        proof {
            assert(!ids@.take(n as int).contains(e)) by {
                if ids@.take(n as int).contains(e) {
                    let j = choose|j: int| 0 <= j < n && ids@.take(n as int)[j] == e;
                    assert(ids@[j] == ids@[n as int]);
                }
            }
            assert forall|i: int| p <= i < out@.len() implies r < #[trigger] out@[i].raw() by {
                assert(out@.contains(out@[i]));
                lemma_id_parts(out@[i], e);
                if i > p {
                    assert(out@[p as int].raw() < out@[i].raw());
                }
            }
        }
        let ghost o0 = out@;
        out.insert(p, e);
        proof {
            let t0 = ids@.take(n as int);
            let t1 = ids@.take(n as int + 1);
            assert(t1 =~= t0.push(e));
            assert forall|x: EntityId| out@.contains(x) implies t1.contains(x) by {
                let i = choose|i: int| 0 <= i < out@.len() && out@[i] == x;
                if i == p {
                    assert(t1[n as int] == x);
                } else {
                    let ii = if i < p { i } else { i - 1 };
                    assert(o0[ii] == x);
                    assert(o0.contains(x));
                    assert(t0.contains(x));
                    let j = choose|j: int| 0 <= j < t0.len() && t0[j] == x;
                    assert(t1[j] == x);
                }
            }
            assert forall|x: EntityId| t1.contains(x) implies out@.contains(x) by {
                let j = choose|j: int| 0 <= j < t1.len() && t1[j] == x;
                if j == n {
                    assert(out@[p as int] == x);
                } else {
                    assert(t0[j] == x);
                    assert(t0.contains(x));
                    assert(o0.contains(x));
                    let i = choose|i: int| 0 <= i < o0.len() && o0[i] == x;
                    if i < p {
                        assert(out@[i] == x);
                    } else {
                        assert(out@[i + 1] == x);
                    }
                }
            }
        }
        n = n + 1;
    }
    proof {
        assert(ids@.take(n as int) == ids@);
    }
    out
}

/// Each pair of `cs` carries the name and value of one of the first `n`
/// components `(ts, vs)`.
spec fn drawn_from(
    reg: ComponentRegistry,
    cs: Seq<(String, ComponentValue)>,
    ts: Seq<ComponentTypeId>,
    vs: Seq<ComponentValue>,
    n: int,
) -> bool {
    forall|i: int|
        0 <= i < cs.len() ==> exists|j: int|
            0 <= j < n && #[trigger] reg.id_for_name(cs[i].0@) == Some(ts[j]) && cs[i].1 == vs[j]
}

/// Each of the first `n` component types of `ts` is named in `cs`.
spec fn covers(reg: ComponentRegistry, cs: Seq<(String, ComponentValue)>, ts: Seq<ComponentTypeId>, n: int) -> bool {
    forall|j: int|
        #![trigger ts[j]]
        0 <= j < n ==> exists|i: int| 0 <= i < cs.len() && reg.id_for_name(#[trigger] cs[i].0@) == Some(ts[j])
}

/// A pair for the next component `n` can be inserted at the position `p`
/// that keeps the names sorted.
#[verifier::spinoff_prover]
proof fn lemma_named_insert(
    reg: ComponentRegistry,
    ts: Seq<ComponentTypeId>,
    vs: Seq<ComponentValue>,
    c0: Seq<(String, ComponentValue)>,
    x: (String, ComponentValue),
    p: int,
    n: int,
)
    requires
        0 <= p <= n < ts.len(),
        c0.len() == n,
        strictly_sorted(ts),
        reg.id_for_name(x.0@) == Some(ts[n]),
        x.1 == vs[n],
        names_sorted(c0),
        drawn_from(reg, c0, ts, vs, n),
        covers(reg, c0, ts, n),
        forall|i: int| 0 <= i < p ==> seq_lt(c0[i].0@, x.0@),
        forall|i: int| p <= i < n ==> seq_lt(x.0@, #[trigger] c0[i].0@),
    ensures
        names_sorted(c0.insert(p, x)),
        drawn_from(reg, c0.insert(p, x), ts, vs, n + 1),
        covers(reg, c0.insert(p, x), ts, n + 1),
{
    let c1 = c0.insert(p, x);
    assert forall|i: int, k: int| 0 <= i < k < n + 1 implies seq_lt(c1[i].0@, c1[k].0@) by {
        if k < p {
            assert(c1[i] == c0[i] && c1[k] == c0[k]);
        } else if k == p {
            assert(c1[i] == c0[i]);
        } else if i < p {
            assert(c1[i] == c0[i] && c1[k] == c0[k - 1]);
            lemma_seq_lt_transitive(c1[i].0@, x.0@, c1[k].0@);
        } else if i == p {
            assert(c1[k] == c0[k - 1]);
        } else {
            assert(c1[i] == c0[i - 1] && c1[k] == c0[k - 1]);
        }
    }
    assert forall|i: int| 0 <= i < c1.len() implies exists|j: int|
        0 <= j < n + 1 && #[trigger] reg.id_for_name(c1[i].0@) == Some(ts[j]) && c1[i].1 == vs[j] by {
        if i == p {
            assert(reg.id_for_name(c1[i].0@) == Some(ts[n]) && c1[i].1 == vs[n]);
        } else {
            let ii = if i < p { i } else { i - 1 };
            assert(c1[i] == c0[ii]);
            let j = choose|j: int| 0 <= j < n && #[trigger] reg.id_for_name(c0[ii].0@) == Some(ts[j]) && c0[ii].1 == vs[j];
            assert(reg.id_for_name(c1[i].0@) == Some(ts[j]) && c1[i].1 == vs[j]);
        }
    }
    assert forall|j: int| #![trigger ts[j]] 0 <= j < n + 1 implies exists|i: int|
        0 <= i < c1.len() && reg.id_for_name(#[trigger] c1[i].0@) == Some(ts[j]) by {
        if j == n {
            assert(reg.id_for_name(c1[p].0@) == Some(ts[j]));
        } else {
            let i = choose|i: int| 0 <= i < c0.len() && reg.id_for_name(#[trigger] c0[i].0@) == Some(ts[j]);
            if i < p {
                assert(c1[i] == c0[i]);
            } else {
                assert(c1[i + 1] == c0[i]);
            }
        }
    }
}

/// The name of the next component differs from the names already placed,
/// so it has a position that keeps the names strictly sorted.
proof fn lemma_named_position(
    reg: ComponentRegistry,
    ts: Seq<ComponentTypeId>,
    vs: Seq<ComponentValue>,
    c0: Seq<(String, ComponentValue)>,
    key: Seq<char>,
    p: int,
    n: int,
)
    requires
        0 <= p <= n < ts.len(),
        c0.len() == n,
        strictly_sorted(ts),
        reg.id_for_name(key) == Some(ts[n]),
        names_sorted(c0),
        drawn_from(reg, c0, ts, vs, n),
        p < n ==> !seq_lt(c0[p].0@, key),
    ensures
        forall|i: int| p <= i < n ==> seq_lt(key, #[trigger] c0[i].0@),
{
    assert forall|i: int| 0 <= i < n implies c0[i].0@ != key by {
        let j = choose|j: int| 0 <= j < n && #[trigger] reg.id_for_name(c0[i].0@) == Some(ts[j]) && c0[i].1 == vs[j];
        assert(ts[j].0 < ts[n].0);
    }
    if p < n {
        lemma_seq_lt_total(c0[p].0@, key);
    }
    assert forall|i: int| p <= i < n implies seq_lt(key, #[trigger] c0[i].0@) by {
        if i > p {
            lemma_seq_lt_transitive(key, c0[p].0@, c0[i].0@);
        }
    }
}

/// The components of the live `entity`, keyed by registered name in
/// increasing name order.
fn named_components(world: &World, entity: EntityId) -> (cs: Vec<(String, ComponentValue)>)
    requires
        world.wf(),
        world.is_live(entity),
    ensures
        describes(world.reg(), cs@, world.view()[entity]),
{
    let parts = world.component_list(entity);
    let reg = world.registry();
    proof {
        world.lemma_wf_parts();
    }
    let ghost m = world.view()[entity];
    let ghost ts = types_of(parts@);
    let ghost vs = values_of(parts@);
    let mut cs: Vec<(String, ComponentValue)> = Vec::new();
    let mut keys: Vec<Vec<char>> = Vec::new();
    let mut n: usize = 0;
    while n < parts.len()
        invariant
            n <= parts@.len(),
            reg.wf(),
            *reg == world.reg(),
            ts == types_of(parts@),
            vs == values_of(parts@),
            strictly_sorted(ts),
            world.all_registered(ts),
            cs@.len() == n,
            keys@.len() == n,
            forall|i: int| 0 <= i < n ==> (#[trigger] keys@[i])@ == cs@[i].0@,
            names_sorted(cs@),
            drawn_from(*reg, cs@, ts, vs, n as int),
            covers(*reg, cs@, ts, n as int),
        decreases parts@.len() - n,
    {
        let t = parts[n].0;
        proof {
            assert(ts[n as int] == t);
            assert(reg.registered(t));
            reg.lemma_id_for_entry_name(t);
        }
        let name = reg.name_of(t);
        let key = chars_of(name);
        let mut p: usize = 0;
        while p < keys.len() && chars_lt(keys[p].as_slice(), key.as_slice())
            invariant
                p <= keys@.len(),
                keys@.len() == n,
                forall|i: int| 0 <= i < n ==> (#[trigger] keys@[i])@ == cs@[i].0@,
                forall|i: int| 0 <= i < p ==> seq_lt(cs@[i].0@, key@),
            decreases keys@.len() - p,
        {
            p = p + 1;
        }
        proof {
            lemma_named_position(*reg, ts, vs, cs@, key@, p as int, n as int);
        }
        let v = parts[n].1.duplicate();
        let ghost c0 = cs@;
        let ghost k0 = keys@;
        let x = (name.to_owned(), v);
        proof {
            lemma_named_insert(*reg, ts, vs, c0, x, p as int, n as int);
        }
        cs.insert(p, x);
        keys.insert(p, key);
        proof {
            assert forall|i: int| 0 <= i < n + 1 implies (#[trigger] keys@[i])@ == cs@[i].0@ by {
                if i < p {
                    assert(keys@[i] == k0[i] && cs@[i] == c0[i]);
                } else if i > p {
                    assert(keys@[i] == k0[i - 1] && cs@[i] == c0[i - 1]);
                }
            }
        }
        n = n + 1;
    }
    proof {
        assert forall|k: int| 0 <= k < cs@.len() implies {
            let t = reg.id_for_name((#[trigger] cs@[k]).0@);
            &&& t is Some
            &&& m.contains_key(t->0)
            &&& m[t->0] == cs@[k].1
        } by {
            let j = choose|j: int| 0 <= j < n && #[trigger] reg.id_for_name(cs@[k].0@) == Some(ts[j]) && cs@[k].1 == vs[j];
            lemma_map_of_index(ts, vs, j);
        }
        assert forall|t: ComponentTypeId| #[trigger] m.contains_key(t) implies exists|k: int|
            0 <= k < cs@.len() && reg.id_for_name((#[trigger] cs@[k]).0@) == Some(t) by {
            let j = choose|j: int| 0 <= j < ts.len() && ts[j] == t;
            assert(ts[j] == t);
            let i = choose|i: int| 0 <= i < n && reg.id_for_name(#[trigger] cs@[i].0@) == Some(ts[j]);
            assert(reg.id_for_name(cs@[i].0@) == Some(t));
        }
    }
    cs
}

/// The component name at position `k` of entity `i` is registered.
pub open spec fn name_known_at(reg: ComponentRegistry, ents: Seq<EntitySnapshot>, i: int, k: int) -> bool {
    reg.id_for_name(ents[i].components@[k].0@) is Some
}

/// Every component name of the snapshot entities is registered.
pub open spec fn names_known(reg: ComponentRegistry, ents: Seq<EntitySnapshot>) -> bool {
    forall|i: int, k: int|
        0 <= i < ents.len() && 0 <= k < ents[i].components@.len() ==> #[trigger] name_known_at(reg, ents, i, k)
}

/// Position `(i, k)` holds the first unregistered name, entities in order
/// and each entity's components in order.
pub open spec fn first_unknown(reg: ComponentRegistry, ents: Seq<EntitySnapshot>, i: int, k: int) -> bool {
    &&& 0 <= i < ents.len()
    &&& 0 <= k < ents[i].components@.len()
    &&& !name_known_at(reg, ents, i, k)
    &&& forall|i2: int, k2: int|
        ((0 <= i2 < i && 0 <= k2 < ents[i2].components@.len()) || (i2 == i && 0 <= k2 < k))
            ==> #[trigger] name_known_at(reg, ents, i2, k2)
}

/// Free-list entry `k` is the index of a slot.
pub open spec fn free_in_bounds(a: AllocatorSnapshot, k: int) -> bool {
    (a.free_indices@[k] as int) < a.generations@.len()
}

/// Free-list entry `k` names a dead slot that no earlier entry names.
pub open spec fn free_entry_ok(a: AllocatorSnapshot, k: int) -> bool {
    &&& !a.alive@[a.free_indices@[k] as int]
    &&& !a.free_indices@.take(k).contains(a.free_indices@[k])
}

/// Some snapshot entity lives in slot `idx`.
pub open spec fn has_entity_at(ents: Seq<EntitySnapshot>, idx: int) -> bool {
    exists|i: int| 0 <= i < ents.len() && (#[trigger] ents[i]).entity_id.idx() == idx
}

/// Slot `idx` is alive exactly when a snapshot entity lives in it.
pub open spec fn slot_ok(a: AllocatorSnapshot, ents: Seq<EntitySnapshot>, idx: int) -> bool {
    a.alive@[idx] == has_entity_at(ents, idx)
}

/// Entity `i` lives in a slot of the allocator, carries that slot's
/// generation, and no earlier entity lives in the same slot.
pub open spec fn entity_ok(a: AllocatorSnapshot, ents: Seq<EntitySnapshot>, i: int) -> bool {
    let idx = ents[i].entity_id.idx() as int;
    &&& idx < a.generations@.len()
    &&& a.generations@[idx] == ents[i].entity_id.gen()
    &&& forall|j: int| 0 <= j < i ==> (#[trigger] ents[j]).entity_id.idx() != idx
}

/// The allocator state and the entity list agree, as restoring checks: one
/// generation and one flag per slot, a free list of distinct dead slots, and
/// alive slots exactly the slots some entity names.
pub open spec fn allocator_consistent(a: AllocatorSnapshot, ents: Seq<EntitySnapshot>) -> bool {
    &&& a.generations@.len() == a.alive@.len()
    &&& forall|k: int| 0 <= k < a.free_indices@.len() ==> #[trigger] free_in_bounds(a, k)
    &&& forall|k: int| 0 <= k < a.free_indices@.len() ==> #[trigger] free_entry_ok(a, k)
    &&& forall|idx: int| 0 <= idx < a.alive@.len() ==> #[trigger] slot_ok(a, ents, idx)
}

/// Each entity lives in a slot of the allocator, carries that slot's
/// generation, and has the slot to itself: the shape a world can hold.
pub open spec fn entities_fit(a: AllocatorSnapshot, ents: Seq<EntitySnapshot>) -> bool {
    forall|i: int| 0 <= i < ents.len() ==> #[trigger] entity_ok(a, ents, i)
}

/// Message: the generation and alive-flag counts differ.
pub open spec fn msg_counts(g: nat, a: nat) -> Seq<char> {
    "allocator snapshot inconsistent: "@ + decimal(g) + " generations vs "@ + decimal(a) + " alive flags"@
}

/// Message: a free-list index is not a slot.
pub open spec fn msg_free_bounds(f: nat, len: nat) -> Seq<char> {
    "allocator free index "@ + decimal(f) + " out of bounds (allocator has "@ + decimal(len) + " slots)"@
}

/// Message: a free-list index names an alive slot.
pub open spec fn msg_free_alive(f: nat) -> Seq<char> {
    "free list contains index "@ + decimal(f) + " which is marked alive"@
}

/// Message: a free-list index occurs twice.
pub open spec fn msg_free_duplicate(f: nat) -> Seq<char> {
    "free list contains duplicate index "@ + decimal(f)
}

/// Message: an alive slot has no entity.
pub open spec fn msg_alive_without_entity(idx: nat) -> Seq<char> {
    "allocator slot "@ + decimal(idx) + " is marked alive but has no entity in snapshot"@
}

/// Message: a dead slot has an entity.
pub open spec fn msg_dead_with_entity(idx: nat) -> Seq<char> {
    "allocator slot "@ + decimal(idx) + " is marked dead but has entity data in snapshot"@
}

/// `d` reports the first inconsistency of the allocator state, checking in
/// this order: the counts, each free-list index in bounds, each free-list
/// index dead and not repeated, each slot against the entities.
pub open spec fn allocator_problem(a: AllocatorSnapshot, ents: Seq<EntitySnapshot>, d: Seq<char>) -> bool {
    let len = a.generations@.len();
    let free = a.free_indices@;
    if len != a.alive@.len() {
        d == msg_counts(len, a.alive@.len())
    } else if exists|k: int| 0 <= k < free.len() && !#[trigger] free_in_bounds(a, k) {
        exists|k: int|
            0 <= k < free.len() && !#[trigger] free_in_bounds(a, k) && (forall|j: int|
                0 <= j < k ==> free_in_bounds(a, j)) && d == msg_free_bounds(free[k] as nat, len)
    } else if exists|k: int| 0 <= k < free.len() && !#[trigger] free_entry_ok(a, k) {
        exists|k: int|
            0 <= k < free.len() && !#[trigger] free_entry_ok(a, k) && (forall|j: int|
                0 <= j < k ==> free_entry_ok(a, j)) && d == (if a.alive@[free[k] as int] {
                msg_free_alive(free[k] as nat)
            } else {
                msg_free_duplicate(free[k] as nat)
            })
    } else {
        exists|idx: int|
            0 <= idx < len && !#[trigger] slot_ok(a, ents, idx) && (forall|j: int|
                0 <= j < idx ==> slot_ok(a, ents, j)) && d == (if a.alive@[idx] {
                msg_alive_without_entity(idx as nat)
            } else {
                msg_dead_with_entity(idx as nat)
            })
    }
}

/// Checks the allocator state against the entity list; `None` when they are
/// consistent, else the report of the first inconsistency.
fn check_allocator(a: &AllocatorSnapshot, ents: &Vec<EntitySnapshot>) -> (r: Option<String>)
    ensures
        r is None <==> allocator_consistent(*a, ents@),
        r matches Some(d) ==> allocator_problem(*a, ents@, d@),
{
    let len = a.generations.len();
    if len != a.alive.len() {
        let mut v: Vec<char> = Vec::new();
        append_str(&mut v, "allocator snapshot inconsistent: ");
        append_decimal(&mut v, len as u64);
        append_str(&mut v, " generations vs ");
        append_decimal(&mut v, a.alive.len() as u64);
        append_str(&mut v, " alive flags");
        proof {
            assert(v@ =~= msg_counts(len as nat, a.alive@.len()));
        }
        return Some(string_from_chars(v.as_slice()));
    }
    let mut k: usize = 0;
    while k < a.free_indices.len()
        invariant
            k <= a.free_indices@.len(),
            len == a.generations@.len(),
            len == a.alive@.len(),
            forall|j: int| 0 <= j < k ==> #[trigger] free_in_bounds(*a, j),
        decreases a.free_indices@.len() - k,
    {
        let f = a.free_indices[k];
        if (f as usize) >= len {
            let mut v: Vec<char> = Vec::new();
            append_str(&mut v, "allocator free index ");
            append_decimal(&mut v, f as u64);
            append_str(&mut v, " out of bounds (allocator has ");
            append_decimal(&mut v, len as u64);
            append_str(&mut v, " slots)");
            proof {
                assert(!free_in_bounds(*a, k as int));
                assert(v@ =~= msg_free_bounds(f as nat, len as nat));
            }
            return Some(string_from_chars(v.as_slice()));
        }
        k = k + 1;
    }
    let mut seen: Vec<bool> = Vec::new();
    let mut x: usize = 0;
    while x < len
        invariant
            x <= len,
            seen@ == Seq::new(x as nat, |y: int| false),
        decreases len - x,
    {
        seen.push(false);
        proof {
            assert(seen@ =~= Seq::new(x as nat + 1, |y: int| false));
        }
        x = x + 1;
    }
    let mut k: usize = 0;
    while k < a.free_indices.len()
        invariant
            k <= a.free_indices@.len(),
            len == a.generations@.len(),
            len == a.alive@.len(),
            seen@.len() == len,
            forall|j: int| 0 <= j < a.free_indices@.len() ==> #[trigger] free_in_bounds(*a, j),
            forall|j: int| 0 <= j < k ==> #[trigger] free_entry_ok(*a, j),
            forall|y: int| 0 <= y < len ==> (seen@[y] <==> exists|j: int| 0 <= j < k && a.free_indices@[j] as int == y),
        decreases a.free_indices@.len() - k,
    {
        let f = a.free_indices[k];
        proof {
            assert(free_in_bounds(*a, k as int));
        }
        if a.alive[f as usize] {
            let mut v: Vec<char> = Vec::new();
            append_str(&mut v, "free list contains index ");
            append_decimal(&mut v, f as u64);
            append_str(&mut v, " which is marked alive");
            proof {
                assert(!free_entry_ok(*a, k as int));
                assert(v@ =~= msg_free_alive(f as nat));
            }
            return Some(string_from_chars(v.as_slice()));
        }
        if seen[f as usize] {
            let mut v: Vec<char> = Vec::new();
            append_str(&mut v, "free list contains duplicate index ");
            append_decimal(&mut v, f as u64);
            proof {
                let j = choose|j: int| 0 <= j < k && a.free_indices@[j] as int == f as int;
                assert(a.free_indices@.take(k as int)[j] == f);
                assert(!free_entry_ok(*a, k as int));
                assert(v@ =~= msg_free_duplicate(f as nat));
            }
            return Some(string_from_chars(v.as_slice()));
        }
        let ghost s0 = seen@;
        seen.set(f as usize, true);
        proof {
            let t0 = a.free_indices@.take(k as int);
            assert(!t0.contains(f)) by {
                if t0.contains(f) {
                    let j = choose|j: int| 0 <= j < t0.len() && t0[j] == f;
                    assert(a.free_indices@[j] as int == f as int);
                }
            }
            assert forall|y: int| 0 <= y < len implies (seen@[y] <==> exists|j: int| 0 <= j < k + 1 && a.free_indices@[j] as int == y) by {
                if y == f as int {
                    assert(a.free_indices@[k as int] as int == y);
                } else {
                    if exists|j: int| 0 <= j < k + 1 && a.free_indices@[j] as int == y {
                        let j = choose|j: int| 0 <= j < k + 1 && a.free_indices@[j] as int == y;
                        assert(j < k);
                    }
                }
            }
            assert(free_entry_ok(*a, k as int));
        }
        k = k + 1;
    }
    let mut occupied: Vec<bool> = Vec::new();
    let mut x: usize = 0;
    while x < len
        invariant
            x <= len,
            occupied@ == Seq::new(x as nat, |y: int| false),
            len == a.generations@.len(),
            len == a.alive@.len(),
            forall|j: int| 0 <= j < a.free_indices@.len() ==> #[trigger] free_in_bounds(*a, j),
            forall|j: int| 0 <= j < a.free_indices@.len() ==> #[trigger] free_entry_ok(*a, j),
        decreases len - x,
    {
        occupied.push(false);
        proof {
            assert(occupied@ =~= Seq::new(x as nat + 1, |y: int| false));
        }
        x = x + 1;
    }
    let mut i: usize = 0;
    while i < ents.len()
        invariant
            i <= ents@.len(),
            occupied@.len() == len,
            len == a.generations@.len(),
            len == a.alive@.len(),
            forall|j: int| 0 <= j < a.free_indices@.len() ==> #[trigger] free_in_bounds(*a, j),
            forall|j: int| 0 <= j < a.free_indices@.len() ==> #[trigger] free_entry_ok(*a, j),
            forall|y: int|
                0 <= y < len ==> (occupied@[y] <==> exists|j: int| 0 <= j < i && (#[trigger] ents@[j]).entity_id.idx() == y),
        decreases ents@.len() - i,
    {
        let idx = ents[i].entity_id.index() as usize;
        let ghost h0 = occupied@;
        if idx < len {
            occupied.set(idx, true);
        }
        proof {
            assert forall|y: int| 0 <= y < len implies (occupied@[y] <==> exists|j: int|
                0 <= j < i + 1 && (#[trigger] ents@[j]).entity_id.idx() == y) by {
                if y == idx as int {
                    assert(ents@[i as int].entity_id.idx() == y);
                } else {
                    if exists|j: int| 0 <= j < i + 1 && (#[trigger] ents@[j]).entity_id.idx() == y {
                        let j = choose|j: int| 0 <= j < i + 1 && (#[trigger] ents@[j]).entity_id.idx() == y;
                        assert(j < i);
                    }
                }
            }
        }
        i = i + 1;
    }
    let mut x: usize = 0;
    while x < len
        invariant
            x <= len,
            len == a.generations@.len(),
            len == a.alive@.len(),
            occupied@.len() == len,
            forall|y: int| 0 <= y < len ==> (occupied@[y] <==> #[trigger] has_entity_at(ents@, y)),
            forall|y: int| 0 <= y < x ==> #[trigger] slot_ok(*a, ents@, y),
            forall|j: int| 0 <= j < a.free_indices@.len() ==> #[trigger] free_in_bounds(*a, j),
            forall|j: int| 0 <= j < a.free_indices@.len() ==> #[trigger] free_entry_ok(*a, j),
        decreases len - x,
    {
        if a.alive[x] && !occupied[x] {
            let mut v: Vec<char> = Vec::new();
            append_str(&mut v, "allocator slot ");
            append_decimal(&mut v, x as u64);
            append_str(&mut v, " is marked alive but has no entity in snapshot");
            proof {
                assert(!slot_ok(*a, ents@, x as int));
                assert(v@ =~= msg_alive_without_entity(x as nat));
                assert(!(exists|k: int| 0 <= k < a.free_indices@.len() && !#[trigger] free_in_bounds(*a, k)));
                assert(!(exists|k: int| 0 <= k < a.free_indices@.len() && !#[trigger] free_entry_ok(*a, k)));
                assert(0 <= x < len && !slot_ok(*a, ents@, x as int) && (forall|j: int| 0 <= j < x ==> slot_ok(*a, ents@, j)));
            }
            return Some(string_from_chars(v.as_slice()));
        }
        if !a.alive[x] && occupied[x] {
            let mut v: Vec<char> = Vec::new();
            append_str(&mut v, "allocator slot ");
            append_decimal(&mut v, x as u64);
            append_str(&mut v, " is marked dead but has entity data in snapshot");
            proof {
                assert(!slot_ok(*a, ents@, x as int));
                assert(v@ =~= msg_dead_with_entity(x as nat));
                assert(!(exists|k: int| 0 <= k < a.free_indices@.len() && !#[trigger] free_in_bounds(*a, k)));
                assert(!(exists|k: int| 0 <= k < a.free_indices@.len() && !#[trigger] free_entry_ok(*a, k)));
                assert(0 <= x < len && !slot_ok(*a, ents@, x as int) && (forall|j: int| 0 <= j < x ==> slot_ok(*a, ents@, j)));
            }
            return Some(string_from_chars(v.as_slice()));
        }
        proof {
            assert(slot_ok(*a, ents@, x as int));
        }
        x = x + 1;
    }
    None
}

/// The message for snapshot entities that do not fit their slots.
pub open spec fn msg_entities_misplaced() -> Seq<char> {
    "snapshot entities do not match their allocator slots (index, generation or shared slot)"@
}

/// The characters of [`msg_entities_misplaced`].
fn entities_misplaced_text() -> (v: Vec<char>)
    ensures
        v@ == msg_entities_misplaced(),
{
    let mut v: Vec<char> = Vec::new();
    append_str(&mut v, "snapshot entities do not match their allocator slots (index, generation or shared slot)");
    assert(v@ =~= msg_entities_misplaced());
    v
}

/// Whether each snapshot entity lives in a slot of the allocator, carries
/// that slot's generation and has the slot to itself, as restoring requires.
pub fn entities_fit_slots(snapshot: &WorldSnapshot) -> (b: bool)
    ensures
        b == entities_fit(snapshot.allocator, snapshot.entities@),
{
    let a = &snapshot.allocator;
    let ents = &snapshot.entities;
    let len = a.generations.len();
    let mut taken: Vec<bool> = Vec::new();
    let mut x: usize = 0;
    while x < len
        invariant
            x <= len,
            taken@ == Seq::new(x as nat, |y: int| false),
        decreases len - x,
    {
        taken.push(false);
        proof {
            assert(taken@ =~= Seq::new(x as nat + 1, |y: int| false));
        }
        x = x + 1;
    }
    let mut i: usize = 0;
    while i < ents.len()
        invariant
            i <= ents@.len(),
            *a == snapshot.allocator,
            *ents == snapshot.entities,
            len == a.generations@.len(),
            taken@.len() == len,
            forall|y: int|
                0 <= y < len ==> (taken@[y] <==> exists|j: int| 0 <= j < i && (#[trigger] ents@[j]).entity_id.idx() == y),
            forall|j: int| 0 <= j < i ==> #[trigger] entity_ok(*a, ents@, j),
        decreases ents@.len() - i,
    {
        let e = ents[i].entity_id;
        let idx = e.index() as usize;
        if idx >= len {
            proof {
                assert(!entity_ok(*a, ents@, i as int));
            }
            return false;
        }
        if a.generations[idx] != e.generation() {
            proof {
                assert(!entity_ok(*a, ents@, i as int));
            }
            return false;
        }
        if taken[idx] {
            proof {
                let j = choose|j: int| 0 <= j < i && (#[trigger] ents@[j]).entity_id.idx() == idx as int;
                assert(!entity_ok(*a, ents@, i as int));
            }
            return false;
        }
        taken.set(idx, true);
        proof {
            assert(entity_ok(*a, ents@, i as int));
            assert forall|y: int| 0 <= y < len implies (taken@[y] <==> exists|j: int|
                0 <= j < i + 1 && (#[trigger] ents@[j]).entity_id.idx() == y) by {
                if y == idx as int {
                    assert(ents@[i as int].entity_id.idx() == y);
                } else {
                    if exists|j: int| 0 <= j < i + 1 && (#[trigger] ents@[j]).entity_id.idx() == y {
                        let j = choose|j: int| 0 <= j < i + 1 && (#[trigger] ents@[j]).entity_id.idx() == y;
                        assert(j < i);
                    }
                }
            }
        }
        i = i + 1;
    }
    true
}

/// `decode` gives back `o` for the JSON value `j` of type `t`.
pub open spec fn decode_outcome<F: Fn(ComponentTypeId, &serde_json::Value) -> Option<ComponentValue>>(
    decode: &F,
    t: ComponentTypeId,
    j: serde_json::Value,
    o: Option<ComponentValue>,
) -> bool {
    decode.ensures((t, &j), o)
}

/// A decoding outcome for a JSON value of a user type is refused: there is
/// no value, or it is not JSON.
pub open spec fn decode_refused(o: Option<ComponentValue>) -> bool {
    match o {
        Some(ComponentValue::Json(_)) => false,
        _ => true,
    }
}

/// `dv` is what the value `v`, stored under the registered name `name`, is
/// restored as: a value of the identity type is an identity and stays as it
/// is; a value of any other type is JSON, replaced by the JSON value that
/// `decode` gives back for it.
pub open spec fn value_decodes_to<F: Fn(ComponentTypeId, &serde_json::Value) -> Option<ComponentValue>>(
    decode: &F,
    reg: ComponentRegistry,
    identity: ComponentTypeId,
    name: Seq<char>,
    v: ComponentValue,
    dv: ComponentValue,
) -> bool {
    let t = reg.id_for_name(name)->0;
    if t == identity {
        v is Identity && dv == v
    } else {
        match v {
            ComponentValue::Json(j) => decode_outcome(decode, t, j, Some(dv)) && dv is Json,
            _ => false,
        }
    }
}

/// The value `v` stored under the registered name `name` does not fit the
/// name's type: an identity type without an identity, or a user type
/// without JSON or with JSON that `decode` refuses.
pub open spec fn value_rejected<F: Fn(ComponentTypeId, &serde_json::Value) -> Option<ComponentValue>>(
    decode: &F,
    reg: ComponentRegistry,
    identity: ComponentTypeId,
    name: Seq<char>,
    v: ComponentValue,
) -> bool {
    let t = reg.id_for_name(name)->0;
    if t == identity {
        !(v is Identity)
    } else {
        match v {
            ComponentValue::Json(j) => exists|o: Option<ComponentValue>|
                decode_outcome(decode, t, j, o) && #[trigger] decode_refused(o),
            _ => true,
        }
    }
}

/// The value `v` stored under the registered name `name` can only be
/// accepted: the identity type holds an identity, and for any other type the
/// value is JSON that `decode` can only decode to JSON.
pub open spec fn value_accepted<F: Fn(ComponentTypeId, &serde_json::Value) -> Option<ComponentValue>>(
    decode: &F,
    reg: ComponentRegistry,
    identity: ComponentTypeId,
    name: Seq<char>,
    v: ComponentValue,
) -> bool {
    let t = reg.id_for_name(name)->0;
    if t == identity {
        v is Identity
    } else {
        match v {
            ComponentValue::Json(j) => forall|o: Option<ComponentValue>|
                #[trigger] decode_refused(o) ==> !decode_outcome(decode, t, j, o),
            _ => false,
        }
    }
}

/// Every value of the snapshot entities can only be accepted.
pub open spec fn values_accepted<F: Fn(ComponentTypeId, &serde_json::Value) -> Option<ComponentValue>>(
    decode: &F,
    reg: ComponentRegistry,
    identity: ComponentTypeId,
    ents: Seq<EntitySnapshot>,
) -> bool {
    forall|i: int, k: int|
        0 <= i < ents.len() && 0 <= k < ents[i].components@.len() ==> #[trigger] value_accepted(
            decode,
            reg,
            identity,
            ents[i].components@[k].0@,
            ents[i].components@[k].1,
        )
}

/// The value `v` stored under the registered name `name` is restored as it
/// is: it is of the identity type, or `decode` gives back only `v` itself.
pub open spec fn value_kept<F: Fn(ComponentTypeId, &serde_json::Value) -> Option<ComponentValue>>(
    decode: &F,
    reg: ComponentRegistry,
    identity: ComponentTypeId,
    name: Seq<char>,
    v: ComponentValue,
) -> bool {
    let t = reg.id_for_name(name)->0;
    t == identity || match v {
        ComponentValue::Json(j) => forall|dv: ComponentValue|
            #[trigger] decode_outcome(decode, t, j, Some(dv)) ==> dv == v,
        _ => true,
    }
}

/// Every value of the snapshot entities is restored as it is.
pub open spec fn values_kept<F: Fn(ComponentTypeId, &serde_json::Value) -> Option<ComponentValue>>(
    decode: &F,
    reg: ComponentRegistry,
    identity: ComponentTypeId,
    ents: Seq<EntitySnapshot>,
) -> bool {
    forall|i: int, k: int|
        0 <= i < ents.len() && 0 <= k < ents[i].components@.len() ==> #[trigger] value_kept(
            decode,
            reg,
            identity,
            ents[i].components@[k].0@,
            ents[i].components@[k].1,
        )
}

/// `dc` is the component `c` as restored: the same name, and the value
/// [`value_decodes_to`] says.
pub open spec fn component_decoded<F: Fn(ComponentTypeId, &serde_json::Value) -> Option<ComponentValue>>(
    decode: &F,
    reg: ComponentRegistry,
    identity: ComponentTypeId,
    c: (String, ComponentValue),
    dc: (String, ComponentValue),
) -> bool {
    &&& dc.0@ == c.0@
    &&& value_decodes_to(decode, reg, identity, c.0@, c.1, dc.1)
}

/// `de` is the entity `e` as restored: the same id, and each component
/// decoded in place.
pub open spec fn entity_decoded<F: Fn(ComponentTypeId, &serde_json::Value) -> Option<ComponentValue>>(
    decode: &F,
    reg: ComponentRegistry,
    identity: ComponentTypeId,
    e: EntitySnapshot,
    de: EntitySnapshot,
) -> bool {
    &&& de.entity_id == e.entity_id
    &&& de.components@.len() == e.components@.len()
    &&& forall|k: int|
        0 <= k < e.components@.len() ==> #[trigger] component_decoded(
            decode,
            reg,
            identity,
            e.components@[k],
            de.components@[k],
        )
}

/// `d` is the entity list `ents` as restored, entity by entity.
pub open spec fn entities_decoded<F: Fn(ComponentTypeId, &serde_json::Value) -> Option<ComponentValue>>(
    decode: &F,
    reg: ComponentRegistry,
    identity: ComponentTypeId,
    ents: Seq<EntitySnapshot>,
    d: Seq<EntitySnapshot>,
) -> bool {
    &&& d.len() == ents.len()
    &&& forall|i: int| 0 <= i < ents.len() ==> #[trigger] entity_decoded(decode, reg, identity, ents[i], d[i])
}

/// World `w` holds exactly what allocator state `a` and entity list `ents`
/// describe: that allocator state and one live entity per listed entity,
/// with the described components.
pub open spec fn restored_from(a: AllocatorSnapshot, ents: Seq<EntitySnapshot>, w: World) -> bool {
    &&& w.allocator_state().gens() == a.generations@
    &&& w.allocator_state().flags() == a.alive@
    &&& w.allocator_state().free() == a.free_indices@
    &&& forall|e: EntityId|
        w.view().contains_key(e) <==> exists|i: int|
            0 <= i < ents.len() && (#[trigger] ents[i]).entity_id == e
    &&& forall|i: int|
        0 <= i < ents.len() ==> describes(
            w.reg(),
            (#[trigger] ents[i]).components@,
            w.view()[ents[i].entity_id],
        )
}

/// World `w` holds exactly what snapshot `s` describes: its allocator state
/// and one live entity per snapshot entity, with the described components.
pub open spec fn restored(s: WorldSnapshot, w: World) -> bool {
    restored_from(s.allocator, s.entities@, w)
}

/// Reads every value of the snapshot entities as its type: an identity stays
/// as it is, each JSON value is replaced by the JSON value `decode` gives
/// back for it. `Ok` with the entities as restored when every value fits,
/// else an error naming the first component whose value does not.
fn decode_values<F: Fn(ComponentTypeId, &serde_json::Value) -> Option<ComponentValue>>(
    world: &World,
    ents: &Vec<EntitySnapshot>,
    decode: &F,
) -> (r: Result<Vec<EntitySnapshot>, EcsError>)
    requires
        world.wf(),
        names_known(world.reg(), ents@),
        forall|t: ComponentTypeId, v: &serde_json::Value| decode.requires((t, v)),
    ensures
        r matches Ok(d) ==> entities_decoded(decode, world.reg(), world.identity_id(), ents@, d@),
        r matches Err(err) ==> err matches EcsError::ComponentDeserializationError { component: c, .. } && exists|
            i: int,
            k: int,
        |
            0 <= i < ents@.len() && 0 <= k < ents@[i].components@.len() && c@ == ents@[i].components@[k].0@
                && #[trigger] value_rejected(
                decode,
                world.reg(),
                world.identity_id(),
                ents@[i].components@[k].0@,
                ents@[i].components@[k].1,
            ),
{
    proof {
        world.lemma_wf_parts();
    }
    let identity = world.identity_type_id();
    let ghost reg = world.reg();
    let mut out: Vec<EntitySnapshot> = Vec::new();
    let mut i: usize = 0;
    while i < ents.len()
        invariant
            i <= ents@.len(),
            world.wf(),
            world.reg().wf(),
            reg == world.reg(),
            identity == world.identity_id(),
            names_known(reg, ents@),
            forall|t: ComponentTypeId, v: &serde_json::Value| decode.requires((t, v)),
            out@.len() == i,
            forall|i2: int| 0 <= i2 < i ==> #[trigger] entity_decoded(decode, reg, identity, ents@[i2], out@[i2]),
        decreases ents@.len() - i,
    {
        let cs = &ents[i].components;
        let mut dcs: Vec<(String, ComponentValue)> = Vec::new();
        let mut k: usize = 0;
        while k < cs.len()
            invariant
                i < ents@.len(),
                *cs == ents@[i as int].components,
                k <= cs@.len(),
                world.reg().wf(),
                reg == world.reg(),
                identity == world.identity_id(),
                names_known(reg, ents@),
                forall|t: ComponentTypeId, v: &serde_json::Value| decode.requires((t, v)),
                dcs@.len() == k,
                forall|k2: int| 0 <= k2 < k ==> #[trigger] component_decoded(decode, reg, identity, cs@[k2], dcs@[k2]),
            decreases cs@.len() - k,
        {
            let name = cs[k].0.as_str();
            proof {
                assert(name_known_at(reg, ents@, i as int, k as int));
            }
            let t = world.registry().lookup_by_name(name).unwrap();
            let decoded: Option<ComponentValue> = if t.0 == identity.0 {
                match &cs[k].1 {
                    ComponentValue::Identity(_) => Some(cs[k].1.duplicate()),
                    _ => None,
                }
            } else {
                match &cs[k].1 {
                    ComponentValue::Json(j) => {
                        let o = decode(t, j);
                        proof {
                            assert(decode_outcome(decode, t, *j, o));
                        }
                        match o {
                            Some(ComponentValue::Json(dj)) => Some(ComponentValue::Json(dj)),
                            _ => {
                                proof {
                                    assert(decode_refused(o));
                                }
                                None
                            },
                        }
                    },
                    _ => None,
                }
            };
            match decoded {
                Some(dv) => {
                    proof {
                        assert(value_decodes_to(decode, reg, identity, cs@[k as int].0@, cs@[k as int].1, dv));
                    }
                    dcs.push((cs[k].0.clone(), dv));
                    proof {
                        assert(component_decoded(decode, reg, identity, cs@[k as int], dcs@[k as int]));
                    }
                },
                None => {
                    let details = if t.0 == identity.0 {
                        "the identity component must hold an identity".to_owned()
                    } else {
                        "the value does not have the shape of the component's type".to_owned()
                    };
                    proof {
                        assert(value_rejected(decode, reg, identity, ents@[i as int].components@[k as int].0@, ents@[i as int].components@[k as int].1));
                    }
                    return Err(EcsError::ComponentDeserializationError { component: cs[k].0.clone(), details });
                },
            }
            k = k + 1;
        }
        out.push(EntitySnapshot { entity_id: ents[i].entity_id, components: dcs });
        proof {
            assert(entity_decoded(decode, reg, identity, ents@[i as int], out@[i as int]));
        }
        i = i + 1;
    }
    Ok(out)
}

impl World {
    /// Capture a complete snapshot of the world state: the allocator state,
    /// the sorted registered names, and every live entity, in increasing
    /// raw-id order, with its components keyed by name.
    pub fn capture_snapshot(&self) -> (s: WorldSnapshot)
        requires
            self.wf(),
        ensures
            captured(*self, s),
    {
        proof {
            self.lemma_wf_parts();
        }
        let (generations, alive, free_indices) = self.allocator().snapshot_state();
        let names = self.registry().registered_names();
        let mut component_names: Vec<String> = Vec::new();
        let mut k: usize = 0;
        while k < names.len()
            invariant
                k <= names@.len(),
                component_names@.len() == k,
                forall|i: int| 0 <= i < k ==> (#[trigger] component_names@[i])@ == names@[i]@,
            decreases names@.len() - k,
        {
            component_names.push(names[k].to_owned());
            k = k + 1;
        }
        let ids = sort_by_raw(self.all_entity_ids());
        let mut entities: Vec<EntitySnapshot> = Vec::new();
        let mut i: usize = 0;
        while i < ids.len()
            invariant
                self.wf(),
                i <= ids@.len(),
                entities@.len() == i,
                forall|e: EntityId| ids@.contains(e) <==> self.view().contains_key(e),
                forall|a: int| 0 <= a < i ==> (#[trigger] entities@[a]).entity_id == ids@[a],
                forall|a: int|
                    0 <= a < i ==> describes(
                        self.reg(),
                        (#[trigger] entities@[a]).components@,
                        self.view()[entities@[a].entity_id],
                    ),
            decreases ids@.len() - i,
        {
            let e = ids[i];
            proof {
                assert(ids@.contains(e));
            }
            let components = named_components(self, e);
            entities.push(EntitySnapshot { entity_id: e, components });
            i = i + 1;
        }
        let s = WorldSnapshot {
            allocator: AllocatorSnapshot { generations, alive, free_indices },
            component_names,
            entities,
        };
        proof {
            let ns = s.component_names@.map_values(|n: String| n@);
            assert forall|j: int| 0 <= j < self.reg().count() implies ns.contains((#[trigger] self.reg().entries()[j]).name@) by {
                assert(crate::component::lists_name(names@, self.reg().entries()[j].name@));
                let a = choose|a: int| 0 <= a < names@.len() && names@[a]@ == self.reg().entries()[j].name@;
                assert(ns[a] == names@[a]@);
            }
            assert(self.reg().sorted_names(ns));
            assert forall|x: EntityId| self.view().contains_key(x) implies exists|a: int|
                0 <= a < s.entities@.len() && (#[trigger] s.entities@[a]).entity_id == x by {
                assert(ids@.contains(x));
                let a = choose|a: int| 0 <= a < ids@.len() && ids@[a] == x;
                assert(s.entities@[a].entity_id == x);
            }
            assert forall|x: EntityId| (exists|a: int|
                0 <= a < s.entities@.len() && (#[trigger] s.entities@[a]).entity_id == x) implies self.view().contains_key(x) by {
                let a = choose|a: int| 0 <= a < s.entities@.len() && (#[trigger] s.entities@[a]).entity_id == x;
                assert(ids@[a] == x);
                assert(ids@.contains(x));
            }
            assert forall|a: int, b: int| 0 <= a < b < s.entities@.len() implies s.entities@[a].entity_id.raw() < s.entities@[b].entity_id.raw() by {
                assert(s.entities@[a].entity_id == ids@[a]);
                assert(s.entities@[b].entity_id == ids@[b]);
            }
            assert forall|a: int| 0 <= a < s.entities@.len() implies (#[trigger] s.entities@[a]).wf() by {
                assert(describes(self.reg(), s.entities@[a].components@, self.view()[s.entities@[a].entity_id]));
            }
        }
        s
    }

    /// Builds the pair map of one snapshot entity as a bundle.
    fn bundle_of(&self, cs: &Vec<(String, ComponentValue)>) -> (b: ComponentBundle)
        requires
            self.wf(),
            names_sorted(cs@),
            forall|k: int| 0 <= k < cs@.len() ==> self.reg().id_for_name((#[trigger] cs@[k]).0@) is Some,
        ensures
            b.wf(),
            self.all_registered(b.types()),
            describes(self.reg(), cs@, b.view()),
    {
        proof {
            self.lemma_wf_parts();
        }
        let reg = self.registry();
        let mut b = ComponentBundle::new();
        let mut k: usize = 0;
        while k < cs.len()
            invariant
                k <= cs@.len(),
                reg.wf(),
                *reg == self.reg(),
                names_sorted(cs@),
                forall|j: int| 0 <= j < cs@.len() ==> reg.id_for_name((#[trigger] cs@[j]).0@) is Some,
                b.wf(),
                self.all_registered(b.types()),
                forall|t: ComponentTypeId|
                    b.view().contains_key(t) <==> exists|j: int| 0 <= j < k && reg.id_for_name((#[trigger] cs@[j]).0@) == Some(t),
                forall|j: int| 0 <= j < k ==> b.view()[reg.id_for_name((#[trigger] cs@[j]).0@)->0] == cs@[j].1,
            decreases cs@.len() - k,
        {
            let t = reg.lookup_by_name(cs[k].0.as_str()).unwrap();
            proof {
                assert(reg.id_for_name(cs@[k as int].0@) is Some);
                reg.lemma_known_name(cs@[k as int].0@, cs@[k as int].0@);
                assert(!b.types().contains(t)) by {
                    if b.types().contains(t) {
                        assert(b.view().contains_key(t));
                        let j = choose|j: int| 0 <= j < k && reg.id_for_name((#[trigger] cs@[j]).0@) == Some(t);
                        reg.lemma_known_name(cs@[k as int].0@, cs@[j].0@);
                        assert(seq_lt(cs@[j].0@, cs@[k as int].0@));
                        lemma_seq_lt_irreflexive(cs@[j].0@);
                    }
                }
            }
            let ghost b0 = b;
            b.add(t, cs[k].1.duplicate());
            proof {
                assert forall|x: int| 0 <= x < b.types().len() implies self.reg().registered(#[trigger] b.types()[x]) by {
                    assert(b.types().to_set().contains(b.types()[x]));
                    if b.types()[x] != t {
                        assert(b0.types().to_set().contains(b.types()[x]));
                        let y = choose|y: int| 0 <= y < b0.types().len() && b0.types()[y] == b.types()[x];
                        assert(self.reg().registered(b0.types()[y]));
                    }
                }
                assert forall|u: ComponentTypeId| b.view().contains_key(u) <==> exists|j: int|
                    0 <= j < k + 1 && reg.id_for_name((#[trigger] cs@[j]).0@) == Some(u) by {
                    if u == t {
                        assert(reg.id_for_name(cs@[k as int].0@) == Some(u));
                    } else if exists|j: int| 0 <= j < k + 1 && reg.id_for_name((#[trigger] cs@[j]).0@) == Some(u) {
                        let j = choose|j: int| 0 <= j < k + 1 && reg.id_for_name((#[trigger] cs@[j]).0@) == Some(u);
                        assert(j < k);
                    }
                }
                assert forall|j: int| 0 <= j < k + 1 implies b.view()[reg.id_for_name((#[trigger] cs@[j]).0@)->0] == cs@[j].1 by {
                    if j < k {
                        let u = reg.id_for_name(cs@[j].0@)->0;
                        assert(b0.view().contains_key(u));
                        assert(u != t);
                    }
                }
            }
            k = k + 1;
        }
        proof {
            assert forall|t: ComponentTypeId| #[trigger] b.view().contains_key(t) implies exists|j: int|
                0 <= j < cs@.len() && reg.id_for_name((#[trigger] cs@[j]).0@) == Some(t) by {
                let j = choose|j: int| 0 <= j < k && reg.id_for_name((#[trigger] cs@[j]).0@) == Some(t);
            }
        }
        b
    }

    /// Recreates every snapshot entity at its exact id over a fresh
    /// allocator state taken from the snapshot.
    fn rebuild(&mut self, a: &AllocatorSnapshot, ents: &Vec<EntitySnapshot>)
        requires
            old(self).wf(),
            forall|i: int| 0 <= i < ents@.len() ==> (#[trigger] ents@[i]).wf(),
            names_known(old(self).reg(), ents@),
            allocator_consistent(*a, ents@),
            entities_fit(*a, ents@),
            a.generations@.len() <= index_space(),
            ents@.len() < id_space(),
        ensures
            final(self).wf(),
            final(self).reg() == old(self).reg(),
            final(self).identity_id() == old(self).identity_id(),
            restored_from(*a, ents@, *final(self)),
    {
        let ghost len = a.generations@.len();
        let ghost r0 = self.reg();
        let ghost id0 = self.identity_id();
        proof {
            assert forall|i: int, j: int|
                0 <= i < a.free_indices@.len() && 0 <= j < a.free_indices@.len() && i != j implies a.free_indices@[i]
                != a.free_indices@[j] by {
                let (lo, hi) = if i < j { (i, j) } else { (j, i) };
                assert(free_entry_ok(*a, hi));
                assert(a.free_indices@.take(hi)[lo] == a.free_indices@[lo]);
            }
            assert forall|k: int| 0 <= k < a.free_indices@.len() implies !Seq::new(len, |i: int| false)[#[trigger] a.free_indices@[k] as int] by {
                assert(free_in_bounds(*a, k));
            }
            assert forall|k: int| 0 <= k < a.free_indices@.len() implies (#[trigger] a.free_indices@[k]) < len by {
                assert(free_in_bounds(*a, k));
            }
        }
        self.reset_entities(a.generations.clone(), a.free_indices.clone());
        let mut i: usize = 0;
        while i < ents.len()
            invariant
                i <= ents@.len(),
                forall|j: int| 0 <= j < ents@.len() ==> (#[trigger] ents@[j]).wf(),
                names_known(r0, ents@),
                allocator_consistent(*a, ents@),
                entities_fit(*a, ents@),
                ents@.len() < id_space(),
                len == a.generations@.len(),
                self.wf(),
                self.reg() == r0,
                self.identity_id() == id0,
                self.allocator_state().gens() == a.generations@,
                self.allocator_state().free() == a.free_indices@,
                self.allocator_state().flags() == Seq::new(len, |x: int| exists|j: int| 0 <= j < i && (#[trigger] ents@[j]).entity_id.idx() == x),
                self.archs().len() <= i,
                forall|e: EntityId| self.view().contains_key(e) <==> exists|j: int| 0 <= j < i && (#[trigger] ents@[j]).entity_id == e,
                forall|j: int| 0 <= j < i ==> describes(r0, (#[trigger] ents@[j]).components@, self.view()[ents@[j].entity_id]),
            decreases ents@.len() - i,
        {
            let es = &ents[i];
            proof {
                assert(es.wf());
                assert forall|k: int| 0 <= k < es.components@.len() implies self.reg().id_for_name((#[trigger] es.components@[k]).0@) is Some by {
                    assert(name_known_at(r0, ents@, i as int, k));
                }
            }
            let bundle = self.bundle_of(&es.components);
            let e = es.entity_id;
            proof {
                let idx = e.idx() as int;
                assert(entity_ok(*a, ents@, i as int));
                assert(!self.allocator_state().flags()[idx]) by {
                    if exists|j: int| 0 <= j < i && (#[trigger] ents@[j]).entity_id.idx() == idx {
                        let j = choose|j: int| 0 <= j < i && (#[trigger] ents@[j]).entity_id.idx() == idx;
                        assert(ents@[j].entity_id.idx() != idx);
                    }
                }
                assert(slot_ok(*a, ents@, idx));
                assert(has_entity_at(ents@, idx));
                assert(!self.allocator_state().free().contains(e.idx())) by {
                    if self.allocator_state().free().contains(e.idx()) {
                        let k = choose|k: int| 0 <= k < a.free_indices@.len() && a.free_indices@[k] == e.idx();
                        assert(free_entry_ok(*a, k));
                    }
                }
            }
            let ghost w0 = *self;
            self.restore_entity(e, bundle);
            proof {
                let idx = e.idx() as int;
                assert(self.allocator_state().flags() =~= Seq::new(len, |x: int| exists|j: int| 0 <= j < i + 1 && (#[trigger] ents@[j]).entity_id.idx() == x)) by {
                    assert forall|x: int| 0 <= x < len implies self.allocator_state().flags()[x] == exists|j: int| 0 <= j < i + 1 && (#[trigger] ents@[j]).entity_id.idx() == x by {
                        if x == idx {
                            assert(ents@[i as int].entity_id.idx() == x);
                        } else if exists|j: int| 0 <= j < i + 1 && (#[trigger] ents@[j]).entity_id.idx() == x {
                            let j = choose|j: int| 0 <= j < i + 1 && (#[trigger] ents@[j]).entity_id.idx() == x;
                            assert(j < i);
                        }
                    }
                }
                assert forall|x: EntityId| self.view().contains_key(x) <==> exists|j: int| 0 <= j < i + 1 && (#[trigger] ents@[j]).entity_id == x by {
                    if x == e {
                        assert(ents@[i as int].entity_id == x);
                    } else if exists|j: int| 0 <= j < i + 1 && (#[trigger] ents@[j]).entity_id == x {
                        let j = choose|j: int| 0 <= j < i + 1 && (#[trigger] ents@[j]).entity_id == x;
                        assert(j < i);
                    }
                }
                assert forall|j: int| 0 <= j < i + 1 implies describes(r0, (#[trigger] ents@[j]).components@, self.view()[ents@[j].entity_id]) by {
                    if j < i {
                        assert(entity_ok(*a, ents@, i as int));
                        assert(ents@[j].entity_id.idx() != e.idx());
                        assert(ents@[j].entity_id != e);
                        assert(w0.view().contains_key(ents@[j].entity_id));
                    }
                }
            }
            i = i + 1;
        }
        proof {
            assert(self.allocator_state().flags() =~= a.alive@) by {
                assert forall|x: int| 0 <= x < len implies self.allocator_state().flags()[x] == a.alive@[x] by {
                    assert(slot_ok(*a, ents@, x));
                    if has_entity_at(ents@, x) {
                        let j = choose|j: int| 0 <= j < ents@.len() && (#[trigger] ents@[j]).entity_id.idx() == x;
                    }
                }
            }
        }
    }

    /// Restore the world state from a snapshot: every entity is recreated at
    /// its exact id with its components, and the allocator takes the
    /// snapshot's generations, alive flags and free list. The registry is not
    /// restored: the snapshot's component names must be registered already.
    /// Each JSON value is read as its component's type by `decode`, and the
    /// JSON value it gives back is what is stored (an identity is stored as
    /// it is).
    ///
    /// A snapshot that passes the allocator checks must also place each
    /// entity in a slot of the allocator, with the slot's generation and the
    /// slot to itself (see [`entities_fit_slots`]): a world cannot hold an
    /// entity whose id is not the live id of its slot, so such a snapshot is
    /// refused with [`EcsError::ComponentDeserializationError`] for
    /// `"__entities"`.
    ///
    /// Everything is checked before the world changes, so on error the world
    /// is untouched. Errors, in the order they are checked: an unregistered
    /// component name gives [`EcsError::UnknownComponent`]; an allocator state
    /// whose generation and flag counts differ, whose free list names a slot
    /// out of range, an alive slot or a slot twice, or whose alive flags
    /// differ from the slots the entities name gives
    /// [`EcsError::ComponentDeserializationError`] for `"__allocator"`; an
    /// entity that does not fit its slot gives the error for `"__entities"`;
    /// a value
    /// that does not fit its type (a JSON value that `decode` refuses or
    /// decodes to something other than JSON; the identity type must hold an
    /// identity) gives
    /// [`EcsError::ComponentDeserializationError`] for that component.
    pub fn restore_from_snapshot<F: Fn(ComponentTypeId, &serde_json::Value) -> Option<ComponentValue>>(
        &mut self,
        snapshot: &WorldSnapshot,
        decode: &F,
    ) -> (r: Result<(), EcsError>)
        requires
            old(self).wf(),
            snapshot.wf(),
            forall|t: ComponentTypeId, v: &serde_json::Value| decode.requires((t, v)),
            snapshot.allocator.generations@.len() <= index_space(),
            snapshot.entities@.len() < id_space(),
        ensures
            final(self).wf(),
            final(self).reg() == old(self).reg(),
            final(self).identity_id() == old(self).identity_id(),
            r is Err ==> *final(self) == *old(self),
            !names_known(old(self).reg(), snapshot.entities@) ==> {
                &&& r is Err
                &&& exists|i: int, k: int|
                    #[trigger] first_unknown(old(self).reg(), snapshot.entities@, i, k)
                        && old(self).unknown_name_error(r->Err_0, snapshot.entities@[i].components@[k].0@)
            },
            names_known(old(self).reg(), snapshot.entities@) && !allocator_consistent(snapshot.allocator, snapshot.entities@)
                ==> {
                &&& r is Err
                &&& r->Err_0 matches EcsError::ComponentDeserializationError { component, details }
                    && component@ == "__allocator"@ && allocator_problem(snapshot.allocator, snapshot.entities@, details@)
            },
            names_known(old(self).reg(), snapshot.entities@) && allocator_consistent(snapshot.allocator, snapshot.entities@)
                && !entities_fit(snapshot.allocator, snapshot.entities@) ==> {
                &&& r is Err
                &&& r->Err_0 matches EcsError::ComponentDeserializationError { component, details }
                    && component@ == "__entities"@ && details@ == msg_entities_misplaced()
            },
            names_known(old(self).reg(), snapshot.entities@) && allocator_consistent(snapshot.allocator, snapshot.entities@)
                && entities_fit(snapshot.allocator, snapshot.entities@) ==> {
                &&& r is Ok ==> exists|d: Seq<EntitySnapshot>|
                    #[trigger] entities_decoded(decode, old(self).reg(), old(self).identity_id(), snapshot.entities@, d)
                        && restored_from(snapshot.allocator, d, *final(self))
                &&& r is Err ==> (r->Err_0 matches EcsError::ComponentDeserializationError { component: c, .. } && exists|
                    i: int,
                    k: int,
                |
                    0 <= i < snapshot.entities@.len() && 0 <= k < snapshot.entities@[i].components@.len() && c@
                        == snapshot.entities@[i].components@[k].0@ && #[trigger] value_rejected(
                        decode,
                        old(self).reg(),
                        old(self).identity_id(),
                        snapshot.entities@[i].components@[k].0@,
                        snapshot.entities@[i].components@[k].1,
                    ))
            },
            names_known(old(self).reg(), snapshot.entities@) && allocator_consistent(snapshot.allocator, snapshot.entities@)
                && entities_fit(snapshot.allocator, snapshot.entities@) && values_accepted(decode, old(self).reg(), old(self).identity_id(), snapshot.entities@) ==> r is Ok,
            names_known(old(self).reg(), snapshot.entities@) && allocator_consistent(snapshot.allocator, snapshot.entities@)
                && entities_fit(snapshot.allocator, snapshot.entities@) && values_kept(decode, old(self).reg(), old(self).identity_id(), snapshot.entities@) && r is Ok
                ==> restored(*snapshot, *final(self)),
    {
        proof {
            self.lemma_wf_parts();
        }
        let ents = &snapshot.entities;
        let mut i: usize = 0;
        while i < ents.len()
            invariant
                i <= ents@.len(),
                *ents == snapshot.entities,
                *self == *old(self),
                self.wf(),
                self.reg().wf(),
                forall|i2: int, k2: int|
                    0 <= i2 < i && 0 <= k2 < ents@[i2].components@.len() ==> #[trigger] name_known_at(self.reg(), ents@, i2, k2),
            decreases ents@.len() - i,
        {
            let cs = &ents[i].components;
            let mut k: usize = 0;
            while k < cs.len()
                invariant
                    i < ents@.len(),
                    k <= cs@.len(),
                    *cs == ents@[i as int].components,
                    *ents == snapshot.entities,
                    *self == *old(self),
                    self.wf(),
                    self.reg().wf(),
                    forall|i2: int, k2: int|
                        ((0 <= i2 < i && 0 <= k2 < ents@[i2].components@.len()) || (i2 == i && 0 <= k2 < k))
                            ==> #[trigger] name_known_at(self.reg(), ents@, i2, k2),
                decreases cs@.len() - k,
            {
                let name = cs[k].0.as_str();
                if self.registry().lookup_by_name(name).is_none() {
                    let err = self.unknown_name(name);
                    proof {
                        assert(first_unknown(self.reg(), ents@, i as int, k as int));
                        assert(!name_known_at(self.reg(), ents@, i as int, k as int));
                        assert(!names_known(self.reg(), ents@));
                    }
                    return Err(err);
                }
                proof {
                    assert(name_known_at(self.reg(), ents@, i as int, k as int));
                }
                k = k + 1;
            }
            i = i + 1;
        }
        match check_allocator(&snapshot.allocator, ents) {
            Some(details) => {
                return Err(EcsError::ComponentDeserializationError { component: "__allocator".to_owned(), details });
            },
            None => {},
        }
        if !entities_fit_slots(snapshot) {
            return Err(
                EcsError::ComponentDeserializationError {
                    component: "__entities".to_owned(),
                    details: string_from_chars(entities_misplaced_text().as_slice()),
                },
            );
        }
        let decoded = match decode_values(self, ents, decode) {
            Ok(d) => d,
            Err(err) => {
                proof {
                    if values_accepted(decode, self.reg(), self.identity_id(), ents@) {
                        let (i, k) = choose|i: int, k: int|
                            0 <= i < ents@.len() && 0 <= k < ents@[i].components@.len() && #[trigger] value_rejected(
                                decode,
                                self.reg(),
                                self.identity_id(),
                                ents@[i].components@[k].0@,
                                ents@[i].components@[k].1,
                            );
                        assert(value_accepted(
                            decode,
                            self.reg(),
                            self.identity_id(),
                            ents@[i].components@[k].0@,
                            ents@[i].components@[k].1,
                        ));
                    }
                }
                return Err(err);
            },
        };
        proof {
            lemma_decoded_same_shape(decode, self.reg(), self.identity_id(), snapshot.allocator, ents@, decoded@);
        }
        self.rebuild(&snapshot.allocator, &decoded);
        proof {
            if values_kept(decode, old(self).reg(), old(self).identity_id(), ents@) {
                lemma_kept_decoded_restored(decode, old(self).reg(), old(self).identity_id(), snapshot.allocator, ents@, decoded@, *self);
            }
        }
        Ok(())
    }
}

/// Decoding changes only values: the decoded entities have the same ids and
/// component names, so the checks on names and slots answer as for the given
/// ones.
proof fn lemma_decoded_same_shape<F: Fn(ComponentTypeId, &serde_json::Value) -> Option<ComponentValue>>(
    decode: &F,
    reg: ComponentRegistry,
    identity: ComponentTypeId,
    a: AllocatorSnapshot,
    ents: Seq<EntitySnapshot>,
    d: Seq<EntitySnapshot>,
)
    requires
        entities_decoded(decode, reg, identity, ents, d),
        forall|i: int| 0 <= i < ents.len() ==> (#[trigger] ents[i]).wf(),
        names_known(reg, ents),
        allocator_consistent(a, ents),
        entities_fit(a, ents),
    ensures
        forall|i: int| 0 <= i < d.len() ==> (#[trigger] d[i]).wf(),
        names_known(reg, d),
        allocator_consistent(a, d),
        entities_fit(a, d),
        d.len() == ents.len(),
{
    assert forall|i: int| 0 <= i < d.len() implies (#[trigger] d[i]).wf() by {
        assert(entity_decoded(decode, reg, identity, ents[i], d[i]));
        assert(ents[i].wf());
        assert forall|x: int, y: int| 0 <= x < y < d[i].components@.len() implies seq_lt(
            d[i].components@[x].0@,
            d[i].components@[y].0@,
        ) by {
            assert(component_decoded(decode, reg, identity, ents[i].components@[x], d[i].components@[x]));
            assert(component_decoded(decode, reg, identity, ents[i].components@[y], d[i].components@[y]));
        }
    }
    assert forall|i: int, k: int| 0 <= i < d.len() && 0 <= k < d[i].components@.len() implies #[trigger] name_known_at(
        reg,
        d,
        i,
        k,
    ) by {
        assert(entity_decoded(decode, reg, identity, ents[i], d[i]));
        assert(component_decoded(decode, reg, identity, ents[i].components@[k], d[i].components@[k]));
        assert(name_known_at(reg, ents, i, k));
    }
    assert forall|idx: int| has_entity_at(d, idx) == has_entity_at(ents, idx) by {
        if has_entity_at(d, idx) {
            let i = choose|i: int| 0 <= i < d.len() && (#[trigger] d[i]).entity_id.idx() == idx;
            assert(entity_decoded(decode, reg, identity, ents[i], d[i]));
        }
        if has_entity_at(ents, idx) {
            let i = choose|i: int| 0 <= i < ents.len() && (#[trigger] ents[i]).entity_id.idx() == idx;
            assert(entity_decoded(decode, reg, identity, ents[i], d[i]));
        }
    }
    assert forall|idx: int| 0 <= idx < a.alive@.len() implies #[trigger] slot_ok(a, d, idx) by {
        assert(slot_ok(a, ents, idx));
        assert(has_entity_at(d, idx) == has_entity_at(ents, idx));
    }
    assert forall|i: int| 0 <= i < d.len() implies #[trigger] entity_ok(a, d, i) by {
        assert(entity_ok(a, ents, i));
        assert(entity_decoded(decode, reg, identity, ents[i], d[i]));
        assert forall|j: int| 0 <= j < i implies (#[trigger] d[j]).entity_id.idx() != d[i].entity_id.idx() by {
            assert(entity_decoded(decode, reg, identity, ents[j], d[j]));
        }
    }
}

/// When `decode` gives back every value unchanged, the decoded entities
/// describe the same components as the given ones, so a world restored from
/// them is restored from the given ones.
proof fn lemma_kept_decoded_restored<F: Fn(ComponentTypeId, &serde_json::Value) -> Option<ComponentValue>>(
    decode: &F,
    reg: ComponentRegistry,
    identity: ComponentTypeId,
    a: AllocatorSnapshot,
    ents: Seq<EntitySnapshot>,
    d: Seq<EntitySnapshot>,
    w: World,
)
    requires
        entities_decoded(decode, reg, identity, ents, d),
        values_kept(decode, reg, identity, ents),
        w.reg() == reg,
        restored_from(a, d, w),
    ensures
        restored_from(a, ents, w),
{
    assert forall|e: EntityId| w.view().contains_key(e) <==> exists|i: int|
        0 <= i < ents.len() && (#[trigger] ents[i]).entity_id == e by {
        if w.view().contains_key(e) {
            let i = choose|i: int| 0 <= i < d.len() && (#[trigger] d[i]).entity_id == e;
            assert(entity_decoded(decode, reg, identity, ents[i], d[i]));
        }
        if exists|i: int| 0 <= i < ents.len() && (#[trigger] ents[i]).entity_id == e {
            let i = choose|i: int| 0 <= i < ents.len() && (#[trigger] ents[i]).entity_id == e;
            assert(entity_decoded(decode, reg, identity, ents[i], d[i]));
        }
    }
    assert forall|i: int| 0 <= i < ents.len() implies describes(
        reg,
        (#[trigger] ents[i]).components@,
        w.view()[ents[i].entity_id],
    ) by {
        assert(entity_decoded(decode, reg, identity, ents[i], d[i]));
        let cs = ents[i].components@;
        let dcs = d[i].components@;
        let m = w.view()[ents[i].entity_id];
        assert(describes(reg, dcs, m));
        assert forall|k: int| 0 <= k < cs.len() implies (#[trigger] cs[k]).0@ == dcs[k].0@ && cs[k].1 == dcs[k].1 by {
            assert(component_decoded(decode, reg, identity, cs[k], dcs[k]));
            assert(value_kept(decode, reg, identity, cs[k].0@, cs[k].1));
            let t = reg.id_for_name(cs[k].0@)->0;
            if t != identity {
                if let ComponentValue::Json(j) = cs[k].1 {
                    assert(decode_outcome(decode, t, j, Some(dcs[k].1)));
                }
            }
        }
        assert forall|x: int, y: int| 0 <= x < y < cs.len() implies seq_lt(cs[x].0@, cs[y].0@) by {
            assert(cs[x].0@ == dcs[x].0@);
            assert(cs[y].0@ == dcs[y].0@);
        }
        assert forall|k: int| 0 <= k < cs.len() implies {
            let t = reg.id_for_name((#[trigger] cs[k]).0@);
            &&& t is Some
            &&& m.contains_key(t->0)
            &&& m[t->0] == cs[k].1
        } by {
            assert(cs[k].0@ == dcs[k].0@);
            assert(dcs[k] == dcs[k]);
        }
        assert forall|t: ComponentTypeId| #[trigger] m.contains_key(t) implies exists|k: int|
            0 <= k < cs.len() && reg.id_for_name((#[trigger] cs[k]).0@) == Some(t) by {
            let k = choose|k: int| 0 <= k < dcs.len() && reg.id_for_name((#[trigger] dcs[k]).0@) == Some(t);
            assert(cs[k].0@ == dcs[k].0@);
        }
    }
}

/// Two component maps described by the same name-keyed pairs are equal.
pub proof fn lemma_describes_unique(
    reg: ComponentRegistry,
    cs: Seq<(String, ComponentValue)>,
    m1: Map<ComponentTypeId, ComponentValue>,
    m2: Map<ComponentTypeId, ComponentValue>,
)
    requires
        describes(reg, cs, m1),
        describes(reg, cs, m2),
    ensures
        m1 == m2,
{
    assert forall|t: ComponentTypeId| m1.contains_key(t) implies m2.contains_key(t) && m1[t] == m2[t] by {
        let k = choose|k: int| 0 <= k < cs.len() && reg.id_for_name((#[trigger] cs[k]).0@) == Some(t);
    }
    assert forall|t: ComponentTypeId| m2.contains_key(t) implies m1.contains_key(t) by {
        let k = choose|k: int| 0 <= k < cs.len() && reg.id_for_name((#[trigger] cs[k]).0@) == Some(t);
    }
    assert(m1 =~= m2);
}

/// Law: a captured snapshot is always well formed for restoring into a world
/// with the same registry: every component name is registered, the
/// allocator state agrees with itself and with the entity list, and each
/// entity fits its slot, so such a restore passes every check before the
/// values and can only be refused for a value that `decode` refuses.
pub proof fn lemma_capture_consistent(w: World, s: WorldSnapshot)
    requires
        w.wf(),
        captured(w, s),
    ensures
        names_known(w.reg(), s.entities@),
        allocator_consistent(s.allocator, s.entities@),
        entities_fit(s.allocator, s.entities@),
        s.allocator.generations@.len() <= index_space(),
{
    w.lemma_wf_parts();
    let a = s.allocator;
    let ents = s.entities@;
    let al = w.allocator_state();
    assert forall|i: int, k: int| 0 <= i < ents.len() && 0 <= k < ents[i].components@.len() implies #[trigger] name_known_at(w.reg(), ents, i, k) by {
        assert(describes(w.reg(), ents[i].components@, w.view()[ents[i].entity_id]));
        assert(ents[i].components@[k] == ents[i].components@[k]);
    }
    assert forall|k: int| 0 <= k < a.free_indices@.len() implies #[trigger] free_in_bounds(a, k) by {
        assert(al.free()[k] < al.gens().len());
    }
    assert forall|k: int| 0 <= k < a.free_indices@.len() implies #[trigger] free_entry_ok(a, k) by {
        assert(!al.flags()[al.free()[k] as int]);
        if a.free_indices@.take(k).contains(a.free_indices@[k]) {
            let j = choose|j: int| 0 <= j < k && a.free_indices@.take(k)[j] == a.free_indices@[k];
            assert(al.free()[j] == al.free()[k]);
        }
    }
    assert forall|idx: int| 0 <= idx < a.alive@.len() implies #[trigger] slot_ok(a, ents, idx) by {
        if a.alive@[idx] {
            let e = id_from_parts(idx as u32, al.gens()[idx]);
            lemma_id_from_parts(idx as u32, al.gens()[idx]);
            assert(w.is_live(e));
            assert(w.view().contains_key(e));
            let i = choose|i: int| 0 <= i < ents.len() && (#[trigger] ents[i]).entity_id == e;
            assert(ents[i].entity_id.idx() == idx);
        }
        if has_entity_at(ents, idx) {
            let i = choose|i: int| 0 <= i < ents.len() && (#[trigger] ents[i]).entity_id.idx() == idx;
            let e = ents[i].entity_id;
            assert(w.view().contains_key(e));
            assert(w.is_live(e));
        }
    }
    assert forall|i: int| 0 <= i < ents.len() implies #[trigger] entity_ok(a, ents, i) by {
        let e = ents[i].entity_id;
        assert(w.view().contains_key(e));
        assert(w.is_live(e));
        assert forall|j: int| 0 <= j < i implies (#[trigger] ents[j]).entity_id.idx() != e.idx() by {
            let f = ents[j].entity_id;
            assert(w.view().contains_key(f));
            assert(w.is_live(f));
            if f.idx() == e.idx() {
                lemma_id_parts(e, f);
                lemma_id_parts(f, e);
                assert(f.raw() < e.raw());
            }
        }
    }
}

/// Law: restoring a captured snapshot reproduces the world it was captured
/// from: the same live entities with the same components, and the same
/// allocator generations, alive flags and free list, so later spawns hand
/// out the same ids.
pub proof fn lemma_restore_of_capture(w: World, s: WorldSnapshot, w2: World)
    requires
        w.wf(),
        captured(w, s),
        w2.reg() == w.reg(),
        restored(s, w2),
    ensures
        w2.view() == w.view(),
        w2.allocator_state().gens() == w.allocator_state().gens(),
        w2.allocator_state().flags() == w.allocator_state().flags(),
        w2.allocator_state().free() == w.allocator_state().free(),
{
    let ents = s.entities@;
    assert forall|e: EntityId| w2.view().contains_key(e) == w.view().contains_key(e) by {}
    assert forall|e: EntityId| w.view().contains_key(e) implies w2.view()[e] == w.view()[e] by {
        let i = choose|i: int| 0 <= i < ents.len() && (#[trigger] ents[i]).entity_id == e;
        assert(describes(w.reg(), ents[i].components@, w.view()[e]));
        assert(describes(w2.reg(), ents[i].components@, w2.view()[e]));
        lemma_describes_unique(w.reg(), ents[i].components@, w.view()[e], w2.view()[e]);
    }
    assert(w2.view() =~= w.view());
}


/// The content of a snapshot as plain values: allocator state, component
/// names, and each entity with its named component values.
pub open spec fn snapshot_view(s: WorldSnapshot) -> (
    Seq<u32>,
    Seq<bool>,
    Seq<u32>,
    Seq<Seq<char>>,
    Seq<(EntityId, Seq<(Seq<char>, ComponentValue)>)>,
) {
    (
        s.allocator.generations@,
        s.allocator.alive@,
        s.allocator.free_indices@,
        s.component_names@.map_values(|n: String| n@),
        s.entities@.map_values(|e: EntitySnapshot| (e.entity_id, components_view(e.components@))),
    )
}

/// Named component values with the names as character sequences.
pub open spec fn components_view(cs: Seq<(String, ComponentValue)>) -> Seq<(Seq<char>, ComponentValue)> {
    cs.map_values(|c: (String, ComponentValue)| (c.0@, c.1))
}

/// Strictly increasing in lexicographic order.
pub open spec fn strictly_increasing_names(a: Seq<Seq<char>>) -> bool {
    forall|i: int, j: int| 0 <= i < j < a.len() ==> seq_lt(a[i], a[j])
}

/// Two strictly increasing name sequences with the same elements are equal.
proof fn lemma_sorted_names_unique(a: Seq<Seq<char>>, b: Seq<Seq<char>>)
    requires
        strictly_increasing_names(a),
        strictly_increasing_names(b),
        forall|x: Seq<char>| a.contains(x) <==> b.contains(x),
    ensures
        a == b,
    decreases a.len(),
{
    if a.len() == 0 {
        if b.len() > 0 {
            assert(b.contains(b[0]));
        }
        assert(a =~= b);
    } else {
        assert(a.contains(a[0]));
        assert(b.len() > 0);
        assert(b.contains(b[0]));
        if a[0] != b[0] {
            let j = choose|j: int| 0 <= j < b.len() && b[j] == a[0];
            let i = choose|i: int| 0 <= i < a.len() && a[i] == b[0];
            assert(j > 0 && i > 0);
            assert(seq_lt(b[0], a[0]));
            assert(seq_lt(a[0], b[0]));
            lemma_seq_lt_transitive(a[0], b[0], a[0]);
            lemma_seq_lt_irreflexive(a[0]);
        }
        let a1 = a.drop_first();
        let b1 = b.drop_first();
        assert forall|x: Seq<char>| a1.contains(x) <==> b1.contains(x) by {
            if a1.contains(x) {
                let i = choose|i: int| 0 <= i < a1.len() && a1[i] == x;
                assert(seq_lt(a[0], a[i + 1]));
                if x == b[0] {
                    lemma_seq_lt_irreflexive(x);
                }
                assert(b.contains(x));
                let j = choose|j: int| 0 <= j < b.len() && b[j] == x;
                assert(j != 0);
                assert(b1[j - 1] == x);
            }
            if b1.contains(x) {
                let j = choose|j: int| 0 <= j < b1.len() && b1[j] == x;
                assert(seq_lt(b[0], b[j + 1]));
                if x == a[0] {
                    lemma_seq_lt_irreflexive(x);
                }
                assert(a.contains(x));
                let i = choose|i: int| 0 <= i < a.len() && a[i] == x;
                assert(i != 0);
                assert(a1[i - 1] == x);
            }
        }
        lemma_sorted_names_unique(a1, b1);
        assert(a =~= b) by {
            assert forall|k: int| 0 <= k < a.len() implies a[k] == b[k] by {
                if k > 0 {
                    assert(a[k] == a1[k - 1] && b[k] == b1[k - 1]);
                }
            }
        }
    }
}

/// Two id sequences strictly increasing by raw value with the same elements
/// are equal.
proof fn lemma_sorted_ids_unique(a: Seq<EntityId>, b: Seq<EntityId>)
    requires
        forall|i: int, j: int| 0 <= i < j < a.len() ==> a[i].raw() < a[j].raw(),
        forall|i: int, j: int| 0 <= i < j < b.len() ==> b[i].raw() < b[j].raw(),
        forall|x: EntityId| a.contains(x) <==> b.contains(x),
    ensures
        a == b,
    decreases a.len(),
{
    if a.len() == 0 {
        if b.len() > 0 {
            assert(b.contains(b[0]));
        }
        assert(a =~= b);
    } else {
        assert(a.contains(a[0]));
        assert(b.contains(b[0]));
        if a[0] != b[0] {
            let j = choose|j: int| 0 <= j < b.len() && b[j] == a[0];
            let i = choose|i: int| 0 <= i < a.len() && a[i] == b[0];
            assert(j > 0 && i > 0);
            assert(b[0].raw() < a[0].raw());
            assert(a[0].raw() < b[0].raw());
        }
        let a1 = a.drop_first();
        let b1 = b.drop_first();
        assert forall|x: EntityId| a1.contains(x) <==> b1.contains(x) by {
            if a1.contains(x) {
                let i = choose|i: int| 0 <= i < a1.len() && a1[i] == x;
                assert(a[0].raw() < a[i + 1].raw());
                assert(b.contains(x));
                let j = choose|j: int| 0 <= j < b.len() && b[j] == x;
                assert(j != 0);
                assert(b1[j - 1] == x);
            }
            if b1.contains(x) {
                let j = choose|j: int| 0 <= j < b1.len() && b1[j] == x;
                assert(b[0].raw() < b[j + 1].raw());
                assert(a.contains(x));
                let i = choose|i: int| 0 <= i < a.len() && a[i] == x;
                assert(i != 0);
                assert(a1[i - 1] == x);
            }
        }
        lemma_sorted_ids_unique(a1, b1);
        assert(a =~= b) by {
            assert forall|k: int| 0 <= k < a.len() implies a[k] == b[k] by {
                if k > 0 {
                    assert(a[k] == a1[k - 1] && b[k] == b1[k - 1]);
                }
            }
        }
    }
}

/// Two name-keyed pair lists that describe the same component map are the
/// same list.
proof fn lemma_describes_same_list(
    reg: ComponentRegistry,
    cs1: Seq<(String, ComponentValue)>,
    cs2: Seq<(String, ComponentValue)>,
    m: Map<ComponentTypeId, ComponentValue>,
)
    requires
        reg.wf(),
        describes(reg, cs1, m),
        describes(reg, cs2, m),
    ensures
        components_view(cs1) == components_view(cs2),
{
    let n1 = cs1.map_values(|c: (String, ComponentValue)| c.0@);
    let n2 = cs2.map_values(|c: (String, ComponentValue)| c.0@);
    assert forall|i: int, j: int| 0 <= i < j < n1.len() implies seq_lt(n1[i], n1[j]) by {}
    assert forall|i: int, j: int| 0 <= i < j < n2.len() implies seq_lt(n2[i], n2[j]) by {}
    assert forall|x: Seq<char>| n1.contains(x) implies n2.contains(x) by {
        let k = choose|k: int| 0 <= k < n1.len() && n1[k] == x;
        let t = reg.id_for_name((#[trigger] cs1[k]).0@)->0;
        assert(m.contains_key(t));
        let k2 = choose|k2: int| 0 <= k2 < cs2.len() && reg.id_for_name((#[trigger] cs2[k2]).0@) == Some(t);
        reg.lemma_known_name(x, cs2[k2].0@);
        assert(n2[k2] == x);
    }
    assert forall|x: Seq<char>| n2.contains(x) implies n1.contains(x) by {
        let k = choose|k: int| 0 <= k < n2.len() && n2[k] == x;
        let t = reg.id_for_name((#[trigger] cs2[k]).0@)->0;
        assert(m.contains_key(t));
        let k1 = choose|k1: int| 0 <= k1 < cs1.len() && reg.id_for_name((#[trigger] cs1[k1]).0@) == Some(t);
        reg.lemma_known_name(x, cs1[k1].0@);
        assert(n1[k1] == x);
    }
    lemma_sorted_names_unique(n1, n2);
    assert(components_view(cs1) =~= components_view(cs2)) by {
        assert forall|k: int| 0 <= k < cs1.len() implies components_view(cs1)[k] == components_view(cs2)[k] by {
            assert(n1[k] == n2[k]);
            let t1 = reg.id_for_name((#[trigger] cs1[k]).0@);
            let t2 = reg.id_for_name((#[trigger] cs2[k]).0@);
            assert(t1 == t2);
        }
    }
}

/// Law: two captures of one world state are the same snapshot: capturing is
/// deterministic, down to the order of entities and of their components.
pub proof fn lemma_capture_deterministic(w: World, s1: WorldSnapshot, s2: WorldSnapshot)
    requires
        w.wf(),
        captured(w, s1),
        captured(w, s2),
    ensures
        snapshot_view(s1) == snapshot_view(s2),
{
    w.lemma_wf_parts();
    let reg = w.reg();
    let c1 = s1.component_names@.map_values(|n: String| n@);
    let c2 = s2.component_names@.map_values(|n: String| n@);
    assert forall|x: Seq<char>| c1.contains(x) implies c2.contains(x) by {
        let i = choose|i: int| 0 <= i < c1.len() && c1[i] == x;
        assert(reg.has_name(c1[i]));
        let j = choose|j: int| reg.named(x, j);
        assert(c2.contains(reg.entries()[j].name@));
    }
    assert forall|x: Seq<char>| c2.contains(x) implies c1.contains(x) by {
        let i = choose|i: int| 0 <= i < c2.len() && c2[i] == x;
        assert(reg.has_name(c2[i]));
        let j = choose|j: int| reg.named(x, j);
        assert(c1.contains(reg.entries()[j].name@));
    }
    lemma_sorted_names_unique(c1, c2);
    let i1 = s1.entities@.map_values(|e: EntitySnapshot| e.entity_id);
    let i2 = s2.entities@.map_values(|e: EntitySnapshot| e.entity_id);
    assert forall|x: EntityId| i1.contains(x) <==> i2.contains(x) by {
        if i1.contains(x) {
            let k = choose|k: int| 0 <= k < i1.len() && i1[k] == x;
            assert(s1.entities@[k].entity_id == x);
            assert(w.view().contains_key(x));
            let k2 = choose|k2: int| 0 <= k2 < s2.entities@.len() && (#[trigger] s2.entities@[k2]).entity_id == x;
            assert(i2[k2] == x);
        }
        if i2.contains(x) {
            let k = choose|k: int| 0 <= k < i2.len() && i2[k] == x;
            assert(s2.entities@[k].entity_id == x);
            assert(w.view().contains_key(x));
            let k1 = choose|k1: int| 0 <= k1 < s1.entities@.len() && (#[trigger] s1.entities@[k1]).entity_id == x;
            assert(i1[k1] == x);
        }
    }
    lemma_sorted_ids_unique(i1, i2);
    let e1 = s1.entities@.map_values(|e: EntitySnapshot| (e.entity_id, components_view(e.components@)));
    let e2 = s2.entities@.map_values(|e: EntitySnapshot| (e.entity_id, components_view(e.components@)));
    assert(e1 =~= e2) by {
        assert(i1.len() == i2.len());
        assert forall|k: int| 0 <= k < e1.len() implies e1[k] == e2[k] by {
            assert(i1[k] == i2[k]);
            let id = s1.entities@[k].entity_id;
            assert(describes(reg, (#[trigger] s1.entities@[k]).components@, w.view()[id]));
            assert(describes(reg, (#[trigger] s2.entities@[k]).components@, w.view()[id]));
            lemma_describes_same_list(reg, s1.entities@[k].components@, s2.entities@[k].components@, w.view()[id]);
        }
    }
}

/// Law: a capture restored into a world with the same registry gives back
/// the captured world, and capturing the restored world gives the same
/// snapshot again. (By [`lemma_capture_consistent`], such a restore passes
/// its checks on names, allocator and slots; by the contract of `World::restore_from_snapshot` it then
/// succeeds, whatever entities the target world held before, whenever
/// `decode` can only accept the captured values, and when it gives them back
/// unchanged it leaves the target world [`restored`] from the snapshot, which
/// is the premise here.)
pub proof fn lemma_restore_roundtrip(w: World, s: WorldSnapshot, w2: World, s2: WorldSnapshot)
    requires
        w.wf(),
        captured(w, s),
        w2.wf(),
        w2.reg() == w.reg(),
        restored(s, w2),
        captured(w2, s2),
    ensures
        w2.view() == w.view(),
        w2.allocator_state().gens() == w.allocator_state().gens(),
        w2.allocator_state().flags() == w.allocator_state().flags(),
        w2.allocator_state().free() == w.allocator_state().free(),
        snapshot_view(s2) == snapshot_view(s),
{
    lemma_restore_of_capture(w, s, w2);
    assert(captured(w2, s));
    lemma_capture_deterministic(w2, s, s2);
}

} // verus!
