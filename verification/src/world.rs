//! The [`World`] is the top-level container for the ECS. It owns the entity
//! allocator, the component registry, and all archetype storage.
use crate::archetype::{strictly_sorted, Archetype, ArchetypeId, ComponentVtable};
use crate::bundle::{
    lemma_map_of_index, lemma_map_of_remove, lemma_map_of_update, map_of, types_of, values_of,
    ComponentBundle,
};
use crate::component::{ComponentInfo, ComponentRegistry, ComponentTypeId, id_space};
use crate::entity::{
    allocated, allocator_state_ok, count_alive, deallocated, lemma_count_alive_le_len,
    lemma_count_alive_none, lemma_count_alive_update, lemma_id_parts, EntityAllocator, EntityId,
};
use crate::error::EcsError;
use crate::identity::{EntityIdentity, Identity, IdentityTier, PoolIdentity};
use crate::strings::{chars_eq, chars_of, joined};
use crate::value::ComponentValue;
use vstd::prelude::*;

verus! {

/// Where an entity lives: which archetype and which row within it.
#[derive(Debug, Clone, Copy)]
pub struct EntityLocation {
    /// The archetype holding the entity.
    pub archetype_id: ArchetypeId,
    /// The entity's row in that archetype.
    pub row: usize,
}

/// Whether two slices of component type ids are equal.
fn same_types(a: &[ComponentTypeId], b: &[ComponentTypeId]) -> (r: bool)
    ensures
        r == (a@ == b@),
{
    if a.len() != b.len() {
        return false;
    }
    let mut i: usize = 0;
    while i < a.len()
        invariant
            a@.len() == b@.len(),
            i <= a@.len(),
            forall|k: int| 0 <= k < i ==> a@[k] == b@[k],
        decreases a@.len() - i,
    {
        if a[i].0 != b[i].0 {
            return false;
        }
        i = i + 1;
    }
    assert(a@ =~= b@);
    true
}

/// Which live entities a scan of the world selects.
enum EntityFilter {
    /// Every live entity.
    All,
    /// Entities whose identity has the given tier.
    Tier(IdentityTier),
    /// Semantic entities whose role is the given text.
    Role(Vec<char>),
    /// Entities that have every one of the given component types.
    WithTypes(Vec<ComponentTypeId>),
}

/// Whether the components `comps` hold an identity of tier `tier` under
/// `idt`.
pub open spec fn has_tier(
    comps: Map<ComponentTypeId, ComponentValue>,
    idt: ComponentTypeId,
    tier: IdentityTier,
) -> bool {
    &&& comps.contains_key(idt)
    &&& comps[idt] matches ComponentValue::Identity(i) && i.tier_of() == tier
}

/// Whether the components `comps` hold a semantic identity with role `role`
/// under `idt`.
pub open spec fn has_role(
    comps: Map<ComponentTypeId, ComponentValue>,
    idt: ComponentTypeId,
    role: Seq<char>,
) -> bool {
    &&& comps.contains_key(idt)
    &&& comps[idt] matches ComponentValue::Identity(Identity::Semantic(eid)) && eid.role@ == role
}

/// Law: what the identity queries select. An entity's components `comps`
/// have role `role` exactly when the identity component `idt` holds a
/// semantic identity with that role (a pooled identity has no role,
/// whatever its pool type or variant), and have tier `tier` exactly when it
/// holds a semantic identity and `tier` is the semantic tier, or a pooled
/// one and `tier` is the pooled tier. They have all of `types` exactly when
/// each of `types` is one of their component types.
pub proof fn lemma_identity_selection(
    comps: Map<ComponentTypeId, ComponentValue>,
    idt: ComponentTypeId,
    role: Seq<char>,
    tier: IdentityTier,
    types: Seq<ComponentTypeId>,
)
    ensures
        has_all(comps, types) <==> (forall|t: ComponentTypeId| types.contains(t) ==> #[trigger] comps.contains_key(t)),
        has_role(comps, idt, role) <==> (comps.contains_key(idt) && match comps[idt] {
            ComponentValue::Identity(Identity::Semantic(eid)) => eid.role@ == role,
            _ => false,
        }),
        has_tier(comps, idt, tier) <==> (comps.contains_key(idt) && match comps[idt] {
            ComponentValue::Identity(Identity::Semantic(_)) => tier == IdentityTier::Semantic,
            ComponentValue::Identity(Identity::Pooled(_)) => tier == IdentityTier::Pooled,
            _ => false,
        }),
{
    assert(has_all(comps, types) <==> (forall|t: ComponentTypeId| types.contains(t) ==> #[trigger] comps.contains_key(t))) by {
        if has_all(comps, types) {
            assert forall|t: ComponentTypeId| types.contains(t) implies #[trigger] comps.contains_key(t) by {
                let k = choose|k: int| 0 <= k < types.len() && types[k] == t;
            }
        }
        if forall|t: ComponentTypeId| types.contains(t) ==> #[trigger] comps.contains_key(t) {
            assert forall|k: int| 0 <= k < types.len() implies comps.contains_key(#[trigger] types[k]) by {
                assert(types.contains(types[k]));
            }
        }
    }
}

/// Whether the components `comps` include every type of `types`.
pub open spec fn has_all(comps: Map<ComponentTypeId, ComponentValue>, types: Seq<ComponentTypeId>) -> bool {
    forall|k: int| 0 <= k < types.len() ==> comps.contains_key(#[trigger] types[k])
}

/// Whether `types` includes every type of `required`.
pub open spec fn includes_all(types: Seq<ComponentTypeId>, required: Seq<ComponentTypeId>) -> bool {
    forall|k: int| 0 <= k < required.len() ==> types.contains(#[trigger] required[k])
}

/// Whether no id occurs twice in `s`.
pub open spec fn distinct_ids(s: Seq<EntityId>) -> bool {
    forall|i: int, j: int| 0 <= i < s.len() && 0 <= j < s.len() && i != j ==> s[i] != s[j]
}

/// Whether `e` is stored in row `r` of archetype `a` of world `w`.
pub open spec fn stored_at(w: World, e: EntityId, a: int, r: int) -> bool {
    &&& 0 <= a < w.archs().len()
    &&& 0 <= r < w.archs()[a].ents().len()
    &&& w.archs()[a].ents()[r] == e
}

/// `v` lists entities in the order they are stored in world `w`: by
/// archetype id, then by row within an archetype.
pub open spec fn in_storage_order(w: World, v: Seq<EntityId>) -> bool {
    forall|k: int, j: int, a1: int, r1: int, a2: int, r2: int|
        0 <= k < j < v.len() && #[trigger] stored_at(w, v[k], a1, r1) && #[trigger] stored_at(w, v[j], a2, r2) ==> a1
            < a2 || (a1 == a2 && r1 < r2)
}

/// Location `l` comes before location `m` in storage order.
spec fn loc_before(l: EntityLocation, m: EntityLocation) -> bool {
    l.archetype_id.0 < m.archetype_id.0 || (l.archetype_id.0 == m.archetype_id.0 && l.row < m.row)
}

/// The top-level ECS container.
///
/// Owns the entity allocator, component registry, and all archetype storage.
/// Provides the primary API for entity lifecycle and component access.
#[derive(Debug)]
pub struct World {
    /// Entity ID allocator.
    allocator: EntityAllocator,
    /// Component type registry.
    registry: ComponentRegistry,
    /// All archetypes, indexed by `ArchetypeId.0`.
    archetypes: Vec<Archetype>,
    /// Location of the live entity of each allocator slot, by slot index.
    locations: Vec<Option<EntityLocation>>,
    /// Number of live entities.
    live: usize,
    /// The built-in identity component type.
    identity_type: ComponentTypeId,
}

impl World {
    /// The entity allocator.
    pub closed spec fn allocator_state(&self) -> EntityAllocator {
        self.allocator
    }

    /// The component registry.
    pub closed spec fn reg(&self) -> ComponentRegistry {
        self.registry
    }

    /// The archetypes, by id.
    pub closed spec fn archs(&self) -> Seq<Archetype> {
        self.archetypes@
    }

    /// The id of the built-in identity component type (`"__identity"`).
    pub closed spec fn identity_id(&self) -> ComponentTypeId {
        self.identity_type
    }

    /// Whether `e` is a live entity of this world.
    pub open spec fn is_live(&self, e: EntityId) -> bool {
        self.allocator_state().alive_id(e)
    }

    /// The location of a live entity.
    closed spec fn loc_of(&self, e: EntityId) -> EntityLocation {
        self.locations@[e.idx() as int].unwrap()
    }

    /// The components of a live entity, as a map from type to value.
    pub closed spec fn components(&self, e: EntityId) -> Map<ComponentTypeId, ComponentValue> {
        let l = self.loc_of(e);
        let a = self.archetypes@[l.archetype_id.0 as int];
        map_of(a.types(), a.row(l.row as int))
    }

    /// The whole world as a map from live entity to its components.
    pub open spec fn view(&self) -> Map<EntityId, Map<ComponentTypeId, ComponentValue>> {
        Map::new(|e: EntityId| self.is_live(e), |e: EntityId| self.components(e))
    }

    /// Whether location `l` of slot `i` points at an entity of slot `i` with
    /// the slot's current generation.
    closed spec fn loc_ok(&self, i: int, l: EntityLocation) -> bool {
        let a = l.archetype_id.0 as int;
        &&& 0 <= a < self.archetypes@.len()
        &&& (l.row as int) < self.archetypes@[a].ents().len()
        &&& self.archetypes@[a].ents()[l.row as int].idx() == i
        &&& self.archetypes@[a].ents()[l.row as int].gen() == self.allocator.gens()[i]
    }

    /// The invariant, except that slot `skip` may be alive without being
    /// stored anywhere (an entity between two archetypes).
    closed spec fn wf_skip(&self, skip: int) -> bool {
        &&& self.allocator.wf()
        &&& self.registry.wf()
        &&& self.registry.registered(self.identity_type)
        &&& self.locations@.len() == self.allocator.gens().len()
        &&& self.live == count_alive(self.allocator.flags())
        &&& self.archetypes@.len() <= id_space()
        &&& forall|a: int|
            0 <= a < self.archetypes@.len() ==> {
                &&& (#[trigger] self.archetypes@[a]).wf()
                &&& self.archetypes@[a].aid().0 == a
                &&& forall|k: int|
                    0 <= k < self.archetypes@[a].types().len() ==> self.registry.registered(
                        #[trigger] self.archetypes@[a].types()[k],
                    )
            }
        &&& forall|a: int, b: int|
            0 <= a < self.archetypes@.len() && 0 <= b < self.archetypes@.len() && a != b ==> (
            #[trigger] self.archetypes@[a]).types() != (#[trigger] self.archetypes@[b]).types()
        &&& forall|i: int|
            0 <= i < self.locations@.len() && (#[trigger] self.locations@[i]) is Some ==> {
                &&& self.allocator.flags()[i]
                &&& i != skip
                &&& self.loc_ok(i, self.locations@[i].unwrap())
            }
        &&& forall|i: int|
            0 <= i < self.locations@.len() && #[trigger] self.allocator.flags()[i] && i != skip
                ==> self.locations@[i] is Some
        &&& forall|a: int, r: int|
            0 <= a < self.archetypes@.len() && 0 <= r < self.archetypes@[a].ents().len() ==> {
                let e = #[trigger] self.archetypes@[a].ents()[r];
                &&& (e.idx() as int) < self.locations@.len()
                &&& e.idx() != skip
                &&& self.locations@[e.idx() as int] == Some(
                    EntityLocation { archetype_id: ArchetypeId(a as u32), row: r as usize },
                )
            }
    }

    /// The world invariant.
    pub closed spec fn wf(&self) -> bool {
        self.wf_skip(-1)
    }

    /// Whether the world can take one more entity: the allocator has an id to
    /// hand out and one more archetype id fits in 32 bits.
    pub open spec fn has_room(&self) -> bool {
        self.allocator_state().can_allocate() && self.archs().len() < id_space()
    }

    /// Whether every component type of `types` is registered in this world.
    pub open spec fn all_registered(&self, types: Seq<ComponentTypeId>) -> bool {
        forall|k: int| 0 <= k < types.len() ==> self.reg().registered(#[trigger] types[k])
    }

    /// For a live entity, the location is valid and holds that entity.
    proof fn lemma_live_located(&self, skip: int, e: EntityId)
        requires
            self.wf_skip(skip),
            self.is_live(e),
            e.idx() != skip,
        ensures
            self.locations@[e.idx() as int] is Some,
            self.loc_ok(e.idx() as int, self.loc_of(e)),
            self.archetypes@[self.loc_of(e).archetype_id.0 as int].ents()[self.loc_of(e).row as int]
                == e,
    {
        let i = e.idx() as int;
        assert(self.allocator.flags()[i]);
        assert(self.locations@[i] is Some);
        let l = self.locations@[i].unwrap();
        assert(self.loc_ok(i, l));
        let x = self.archetypes@[l.archetype_id.0 as int].ents()[l.row as int];
        lemma_id_parts(x, e);
        lemma_id_parts(e, x);
    }

    /// An entity stored in an archetype is live.
    proof fn lemma_stored_live(&self, skip: int, a: int, r: int)
        requires
            self.wf_skip(skip),
            0 <= a < self.archetypes@.len(),
            0 <= r < self.archetypes@[a].ents().len(),
        ensures
            self.is_live(self.archetypes@[a].ents()[r]),
            self.loc_of(self.archetypes@[a].ents()[r]) == (EntityLocation {
                archetype_id: ArchetypeId(a as u32),
                row: r as usize,
            }),
    {
        let e = self.archetypes@[a].ents()[r];
        let i = e.idx() as int;
        assert((a as u32) as int == a);
        self.archetypes@[a].lemma_wf();
        assert((r as usize) as int == r);
        assert(self.locations@[i] is Some);
        assert(self.loc_ok(i, self.locations@[i].unwrap()));
    }

    /// Find or create the archetype for a strictly increasing set of
    /// registered component types. Returns its index.
    fn get_or_create_archetype(&mut self, types: &[ComponentTypeId], Ghost(skip): Ghost<int>) -> (b: usize)
        requires
            old(self).wf_skip(skip),
            strictly_sorted(types@),
            old(self).all_registered(types@),
            old(self).archs().len() < id_space(),
        ensures
            final(self).wf_skip(skip),
            b < final(self).archs().len(),
            final(self).archs()[b as int].types() == types@,
            final(self).archs().len() == old(self).archs().len() || (final(self).archs()
                == old(self).archs().push(final(self).archs()[b as int]) && b == old(self).archs().len()
                && final(self).archs()[b as int].ents().len() == 0),
            final(self).archs().len() >= old(self).archs().len(),
            forall|a: int| 0 <= a < old(self).archs().len() ==> #[trigger] final(self).archs()[a] == old(self).archs()[a],
            final(self).allocator_state() == old(self).allocator_state(),
            final(self).reg() == old(self).reg(),
            final(self).identity_id() == old(self).identity_id(),
            final(self).locations@ == old(self).locations@,
            final(self).live == old(self).live,
    {
        let mut a: usize = 0;
        while a < self.archetypes.len()
            invariant
                self.wf_skip(skip),
                self.allocator == old(self).allocator,
                self.registry == old(self).registry,
                self.identity_type == old(self).identity_type,
                self.archetypes@ == old(self).archetypes@,
                self.locations@ == old(self).locations@,
                self.live == old(self).live,
                a <= self.archetypes@.len(),
                forall|x: int| 0 <= x < a ==> (#[trigger] self.archetypes@[x]).types() != types@,
            decreases self.archetypes@.len() - a,
        {
            if same_types(self.archetypes[a].component_types(), types) {
                return a;
            }
            a = a + 1;
        }
        let id = ArchetypeId(self.archetypes.len() as u32);
        let mut infos: Vec<ComponentInfo> = Vec::new();
        let mut vtables: Vec<ComponentVtable> = Vec::new();
        let mut ids: Vec<ComponentTypeId> = Vec::new();
        let mut k: usize = 0;
        while k < types.len()
            invariant
                self.registry.wf(),
                old(self).all_registered(types@),
                self.registry == old(self).registry,
                k <= types@.len(),
                infos@.len() == k,
                vtables@.len() == k,
                ids@ == types@.take(k as int),
                forall|j: int| 0 <= j < k ==> (#[trigger] infos@[j]).id == types@[j],
            decreases types@.len() - k,
        {
            let info = self.registry.get_info(types[k]).unwrap();
            proof {
                assert(self.registry.registered(types@[k as int]));
            }
            vtables.push(ComponentVtable { size: info.size, align: info.align });
            infos.push(info.duplicate());
            ids.push(types[k]);
            k = k + 1;
        }
        assert(ids@ == types@);
        let arch = Archetype::new(id, ids, infos, vtables);
        let b = self.archetypes.len();
        self.archetypes.push(arch);
        proof {
            let n = old(self).archetypes@.len();
            assert forall|x: int|
                0 <= x < self.archetypes@.len() implies {
                    &&& (#[trigger] self.archetypes@[x]).wf()
                    &&& self.archetypes@[x].aid().0 == x
                    &&& forall|k: int|
                        0 <= k < self.archetypes@[x].types().len() ==> self.registry.registered(
                            #[trigger] self.archetypes@[x].types()[k],
                        )
                } by {
                if x < n {
                    assert(self.archetypes@[x] == old(self).archetypes@[x]);
                }
            }
            assert forall|x: int, y: int|
                0 <= x < self.archetypes@.len() && 0 <= y < self.archetypes@.len() && x != y implies (
                #[trigger] self.archetypes@[x]).types() != (#[trigger] self.archetypes@[y]).types() by {
                if x < n && y < n {
                    assert(self.archetypes@[x] == old(self).archetypes@[x]);
                    assert(self.archetypes@[y] == old(self).archetypes@[y]);
                } else if x < n {
                    assert(self.archetypes@[x] == old(self).archetypes@[x]);
                } else {
                    assert(self.archetypes@[y] == old(self).archetypes@[y]);
                }
            }
            assert forall|i: int|
                0 <= i < self.locations@.len() && (#[trigger] self.locations@[i]) is Some implies {
                    &&& self.allocator.flags()[i]
                    &&& i != skip
                    &&& self.loc_ok(i, self.locations@[i].unwrap())
                } by {
                assert(old(self).loc_ok(i, self.locations@[i].unwrap()));
                let l = self.locations@[i].unwrap();
                assert(self.archetypes@[l.archetype_id.0 as int] == old(self).archetypes@[l.archetype_id.0 as int]);
            }
            assert forall|x: int, r: int|
                0 <= x < self.archetypes@.len() && 0 <= r < self.archetypes@[x].ents().len() implies {
                    let e = #[trigger] self.archetypes@[x].ents()[r];
                    &&& (e.idx() as int) < self.locations@.len()
                    &&& e.idx() != skip
                    &&& self.locations@[e.idx() as int] == Some(
                        EntityLocation { archetype_id: ArchetypeId(x as u32), row: r as usize },
                    )
                } by {
                assert(x < n);
                assert(self.archetypes@[x] == old(self).archetypes@[x]);
            }
        }
        b
    }

    /// Takes a live entity out of its archetype, moving the archetype's last
    /// entity into the freed row. The entity stays alive in the allocator but
    /// is stored nowhere; its components are returned in type order.
    fn detach(&mut self, entity: EntityId) -> (parts: Vec<(ComponentTypeId, ComponentValue)>)
        requires
            old(self).wf(),
            old(self).is_live(entity),
        ensures
            final(self).wf_skip(entity.idx() as int),
            final(self).locations@[entity.idx() as int] is None,
            final(self).allocator == old(self).allocator,
            final(self).registry == old(self).registry,
            final(self).identity_type == old(self).identity_type,
            final(self).live == old(self).live,
            final(self).archetypes@.len() == old(self).archetypes@.len(),
            strictly_sorted(types_of(parts@)),
            old(self).all_registered(types_of(parts@)),
            map_of(types_of(parts@), values_of(parts@)) == old(self).components(entity),
            forall|e: EntityId|
                e != entity && old(self).is_live(e) ==> final(self).components(e) == old(
                    self,
                ).components(e),
    {
        proof {
            self.lemma_live_located(-1, entity);
        }
        let idx = entity.index() as usize;
        let loc = self.locations[idx].unwrap();
        let a = loc.archetype_id.0 as usize;
        let row = loc.row;
        let ghost a0 = self.archetypes@;
        let ghost l0 = self.locations@;
        let ghost arch0 = a0[a as int];
        let ghost last = arch0.ents().len() - 1;
        proof {
            arch0.lemma_wf();
        }
        let (moved, parts) = self.archetypes[a].remove_entity_and_move(row);
        let ghost arch1 = self.archetypes@[a as int];
        proof {
            assert(self.archetypes@ == a0.update(a as int, arch1));
        }
        match moved {
            Some(m) => {
                proof {
                    assert(m == arch0.ents()[last]);
                    assert(l0[m.idx() as int] == Some(
                        EntityLocation { archetype_id: ArchetypeId(a as u32), row: last as usize },
                    ));
                }
                self.locations.set(m.index() as usize, Some(EntityLocation { archetype_id: loc.archetype_id, row }));
            },
            None => {},
        }
        self.locations.set(idx, None);
        proof {
            let l1 = self.locations@;
            assert((a as u32) as int == a);
            assert(loc.archetype_id == ArchetypeId(a as u32));
            assert(l0[idx as int] == Some(EntityLocation { archetype_id: ArchetypeId(a as u32), row }));
            // Which slots changed.
            assert forall|i: int| 0 <= i < l1.len() && i != idx && (moved is None || i != moved->0.idx())
                implies l1[i] == l0[i] by {}
            // Per-archetype facts.
            assert forall|x: int|
                0 <= x < self.archetypes@.len() implies {
                    &&& (#[trigger] self.archetypes@[x]).wf()
                    &&& self.archetypes@[x].aid().0 == x
                    &&& forall|k: int|
                        0 <= k < self.archetypes@[x].types().len() ==> self.registry.registered(
                            #[trigger] self.archetypes@[x].types()[k],
                        )
                } by {
                if x != a {
                    assert(self.archetypes@[x] == a0[x]);
                }
            }
            assert forall|x: int, y: int|
                0 <= x < self.archetypes@.len() && 0 <= y < self.archetypes@.len() && x != y implies (
                #[trigger] self.archetypes@[x]).types() != (#[trigger] self.archetypes@[y]).types() by {
                assert(a0[x].types() != a0[y].types());
            }
            // Locations point at the right entities.
            assert forall|i: int|
                0 <= i < l1.len() && (#[trigger] l1[i]) is Some implies {
                    &&& self.allocator.flags()[i]
                    &&& i != idx
                    &&& self.loc_ok(i, l1[i].unwrap())
                } by {
                if moved is Some && i == moved->0.idx() {
                    let m = moved->0;
                    assert(old(self).loc_ok(i, l0[i].unwrap()));
                    assert(i != idx);
                    assert(arch1.ents()[row as int] == m);
                } else {
                    assert(i != idx);
                    assert(l1[i] == l0[i]);
                    let l = l0[i].unwrap();
                    assert(old(self).loc_ok(i, l));
                    let b = l.archetype_id.0 as int;
                    if b == a {
                        let r = l.row as int;
                        assert(l0[arch0.ents()[r].idx() as int] == Some(
                            EntityLocation { archetype_id: ArchetypeId(a as u32), row: r as usize },
                        ));
                        assert(r != row);
                        if moved is Some {
                            assert(r != last);
                        }
                        assert(arch1.ents()[r] == arch0.ents()[r]);
                    }
                }
            }
            assert forall|i: int|
                0 <= i < l1.len() && #[trigger] self.allocator.flags()[i] && i != idx implies l1[i] is Some by {
                assert(l0[i] is Some);
            }
            assert forall|x: int, r: int|
                0 <= x < self.archetypes@.len() && 0 <= r < self.archetypes@[x].ents().len() implies {
                    let e = #[trigger] self.archetypes@[x].ents()[r];
                    &&& (e.idx() as int) < l1.len()
                    &&& e.idx() != idx
                    &&& l1[e.idx() as int] == Some(
                        EntityLocation { archetype_id: ArchetypeId(x as u32), row: r as usize },
                    )
                } by {
                let e = self.archetypes@[x].ents()[r];
                if x != a {
                    assert(e == a0[x].ents()[r]);
                    assert(l0[idx as int] != l0[e.idx() as int]);
                    if moved is Some {
                        assert(l0[moved->0.idx() as int] != l0[e.idx() as int]);
                    }
                } else if moved is Some && r == row {
                    assert(e == moved->0);
                } else {
                    assert(r < last);
                    assert(e == arch0.ents()[r]);
                    assert(l0[e.idx() as int] == Some(
                        EntityLocation { archetype_id: ArchetypeId(a as u32), row: r as usize },
                    ));
                    assert(r != row);
                    assert(l0[idx as int] != l0[e.idx() as int]);
                    if moved is Some {
                        assert(l0[moved->0.idx() as int] != l0[e.idx() as int]);
                    }
                }
            }
            assert(self.wf_skip(idx as int));
            // The removed components.
            assert(types_of(parts@) =~= arch0.types());
            assert(values_of(parts@) =~= arch0.row(row as int));
            assert(forall|k: int| 0 <= k < arch0.types().len() ==> old(self).registry.registered(
                #[trigger] arch0.types()[k]));
            // Other entities keep their components.
            assert forall|e: EntityId|
                e != entity && old(self).is_live(e) implies self.components(e) == old(self).components(e) by {
                old(self).lemma_live_located(-1, e);
                let l = l0[e.idx() as int].unwrap();
                let b = l.archetype_id.0 as int;
                let r = l.row as int;
                if e.idx() == idx {
                    lemma_id_parts(e, entity);
                }
                if moved is Some && e.idx() == moved->0.idx() {
                    assert(l == EntityLocation { archetype_id: ArchetypeId(a as u32), row: last as usize });
                    assert(self.loc_of(e) == EntityLocation { archetype_id: ArchetypeId(a as u32), row });
                    assert(arch1.row(row as int) == arch0.row(last));
                } else {
                    assert(self.loc_of(e) == l);
                    if b == a {
                        assert(r != row);
                        if moved is Some {
                            assert(r != last);
                        } else {
                            assert(row == last);
                        }
                        assert(arch1.row(r) == arch0.row(r));
                    } else {
                        assert(self.archetypes@[b] == a0[b]);
                    }
                }
            }
        }
        parts
    }

    /// Stores a live entity that is stored nowhere into the archetype of its
    /// component types, creating the archetype if needed.
    fn attach(&mut self, entity: EntityId, parts: Vec<(ComponentTypeId, ComponentValue)>)
        requires
            old(self).wf_skip(entity.idx() as int),
            (entity.idx() as int) < old(self).locations@.len(),
            old(self).locations@[entity.idx() as int] is None,
            old(self).is_live(entity),
            strictly_sorted(types_of(parts@)),
            old(self).all_registered(types_of(parts@)),
            old(self).archs().len() < id_space(),
        ensures
            final(self).wf(),
            final(self).allocator == old(self).allocator,
            final(self).registry == old(self).registry,
            final(self).identity_type == old(self).identity_type,
            final(self).live == old(self).live,
            final(self).archs().len() >= old(self).archs().len(),
            final(self).archs().len() <= old(self).archs().len() + 1,
            final(self).components(entity) == map_of(types_of(parts@), values_of(parts@)),
            forall|e: EntityId|
                e != entity && old(self).is_live(e) ==> final(self).components(e) == old(
                    self,
                ).components(e),
    {
        let idx = entity.index() as usize;
        let mut types: Vec<ComponentTypeId> = Vec::new();
        let mut k: usize = 0;
        while k < parts.len()
            invariant
                k <= parts@.len(),
                types@ == types_of(parts@).take(k as int),
            decreases parts@.len() - k,
        {
            types.push(parts[k].0);
            k = k + 1;
        }
        assert(types@ == types_of(parts@));
        let ghost s0 = *self;
        let b = self.get_or_create_archetype(types.as_slice(), Ghost(idx as int));
        let ghost a1 = self.archetypes@;
        let ghost l1 = self.locations@;
        proof {
            a1[b as int].lemma_wf();
        }
        let row = self.archetypes[b].add_entity(entity, parts);
        let ghost archb = self.archetypes@[b as int];
        self.locations.set(idx, Some(EntityLocation { archetype_id: ArchetypeId(b as u32), row }));
        proof {
            let l2 = self.locations@;
            assert(self.archetypes@ == a1.update(b as int, archb));
            assert((b as u32) as int == b);
            assert forall|x: int|
                0 <= x < self.archetypes@.len() implies {
                    &&& (#[trigger] self.archetypes@[x]).wf()
                    &&& self.archetypes@[x].aid().0 == x
                    &&& forall|k: int|
                        0 <= k < self.archetypes@[x].types().len() ==> self.registry.registered(
                            #[trigger] self.archetypes@[x].types()[k],
                        )
                } by {
                if x != b {
                    assert(self.archetypes@[x] == a1[x]);
                }
            }
            assert forall|x: int, y: int|
                0 <= x < self.archetypes@.len() && 0 <= y < self.archetypes@.len() && x != y implies (
                #[trigger] self.archetypes@[x]).types() != (#[trigger] self.archetypes@[y]).types() by {
                assert(a1[x].types() != a1[y].types());
            }
            assert forall|i: int|
                0 <= i < l2.len() && (#[trigger] l2[i]) is Some implies {
                    &&& self.allocator.flags()[i]
                    &&& i != -1
                    &&& self.loc_ok(i, l2[i].unwrap())
                } by {
                if i == idx {
                    assert(archb.ents()[row as int] == entity);
                } else {
                    assert(l2[i] == l1[i]);
                    let l = l1[i].unwrap();
                    assert(s0.loc_ok(i, l) || true);
                    let c = l.archetype_id.0 as int;
                    if c == b {
                        assert(archb.ents()[l.row as int] == a1[b as int].ents()[l.row as int]);
                    }
                }
            }
            assert forall|i: int|
                0 <= i < l2.len() && #[trigger] self.allocator.flags()[i] && i != -1 implies l2[i] is Some by {
                if i != idx {
                    assert(l1[i] is Some);
                }
            }
            assert forall|x: int, r: int|
                0 <= x < self.archetypes@.len() && 0 <= r < self.archetypes@[x].ents().len() implies {
                    let e = #[trigger] self.archetypes@[x].ents()[r];
                    &&& (e.idx() as int) < l2.len()
                    &&& e.idx() != -1
                    &&& l2[e.idx() as int] == Some(
                        EntityLocation { archetype_id: ArchetypeId(x as u32), row: r as usize },
                    )
                } by {
                if x == b && r == row {
                } else {
                    let e = self.archetypes@[x].ents()[r];
                    if x == b {
                        assert(e == a1[b as int].ents()[r]);
                    } else {
                        assert(e == a1[x].ents()[r]);
                    }
                }
            }
            assert(self.wf());
            assert(archb.row(row as int) =~= values_of(parts@));
            assert(self.loc_of(entity) == EntityLocation { archetype_id: ArchetypeId(b as u32), row });
            assert forall|e: EntityId|
                e != entity && old(self).is_live(e) implies self.components(e) == old(self).components(e) by {
                if e.idx() == idx {
                    lemma_id_parts(e, entity);
                }
                s0.lemma_live_located(idx as int, e);
                let l = l1[e.idx() as int].unwrap();
                assert(self.loc_of(e) == l);
                let c = l.archetype_id.0 as int;
                if c == b {
                    assert(archb.row(l.row as int) =~= a1[b as int].row(l.row as int));
                } else {
                    assert(self.archetypes@[c] == a1[c]);
                }
                assert(a1[c] == s0.archetypes@[c]);
            }
        }
    }

    /// Create a new, empty world.
    ///
    /// The built-in [`Identity`] component type is registered under the name
    /// `"__identity"` so that tiered spawning can attach it without extra
    /// setup.
    pub fn new() -> (w: Self)
        ensures
            w.wf(),
            w.reg().count() == 1,
            w.identity_id().0 == 0,
            w.reg().entries()[0].name@ == "__identity"@,
            w.archs().len() == 0,
            w.allocator_state().gens().len() == 0,
            w.allocator_state().free().len() == 0,
            w.view() == Map::<EntityId, Map<ComponentTypeId, ComponentValue>>::empty(),
    {
        let mut registry = ComponentRegistry::new();
        let ghost r0 = registry;
        let registered = registry.register::<Identity>("__identity");
        proof {
            let key = choose|key: std::any::TypeId|
                {
                    &&& r0.id_for_type(key) is Some ==> {
                        &&& registered == r0.id_for_type(key)
                        &&& registry.entries() == r0.entries()
                        &&& registry.typed() == r0.typed()
                    }
                    &&& (r0.id_for_type(key) is None && r0.id_for_name("__identity"@) is Some) ==> {
                        &&& registered is None
                        &&& registry.entries() == r0.entries()
                        &&& registry.typed() == r0.typed()
                    }
                    &&& (r0.id_for_type(key) is None && r0.id_for_name("__identity"@) is None) ==> {
                        &&& registered is Some
                        &&& (registered->0).0 == r0.count()
                        &&& registry.entries().drop_last() == r0.entries()
                        &&& registry.typed() == r0.typed().push(true)
                        &&& registry.entries().last().id == registered->0
                        &&& registry.entries().last().name@ == "__identity"@
                        &&& registry.entries().last().size == vstd::layout::size_of::<Identity>()
                        &&& registry.entries().last().align == vstd::layout::align_of::<Identity>()
                        &&& registry.entries().last().type_id == key
                    }
                };
            assert(!(exists|i: int| r0.keyed(key, i)));
            assert(!(exists|i: int| r0.named("__identity"@, i)));
        }
        let identity_type = registered.unwrap();
        let w = World {
            allocator: EntityAllocator::new(),
            registry,
            archetypes: Vec::new(),
            locations: Vec::new(),
            live: 0,
            identity_type,
        };
        proof {
            assert(w.registry.entries().drop_last() == Seq::<ComponentInfo>::empty());
            assert(w.view() =~= Map::<EntityId, Map<ComponentTypeId, ComponentValue>>::empty());
        }
        w
    }

    /// Read-only access to the component registry.
    pub fn registry(&self) -> (r: &ComponentRegistry)
        ensures
            *r == self.reg(),
    {
        &self.registry
    }

    /// The world invariant includes that of its registry and allocator, and
    /// that the identity type is registered.
    pub proof fn lemma_wf_parts(&self)
        requires
            self.wf(),
        ensures
            self.reg().wf(),
            self.reg().registered(self.identity_id()),
            self.allocator_state().wf(),
    {
    }

    /// The id of the built-in identity component type.
    pub fn identity_type_id(&self) -> (t: ComponentTypeId)
        ensures
            t == self.identity_id(),
    {
        self.identity_type
    }

    /// Read-only access to the entity allocator.
    pub(crate) fn allocator(&self) -> (a: &EntityAllocator)
        ensures
            *a == self.allocator_state(),
    {
        &self.allocator
    }

    /// Register a component type `T` under `name`; see
    /// [`ComponentRegistry::register`]. `None` when `T` is new but `name`
    /// already belongs to a different type; the world is then unchanged.
    pub fn register_component<T: 'static>(&mut self, name: &str) -> (r: Option<ComponentTypeId>)
        requires
            old(self).wf(),
            old(self).reg().count() < id_space(),
        ensures
            final(self).wf(),
            final(self).view() == old(self).view(),
            final(self).allocator_state() == old(self).allocator_state(),
            final(self).archs() == old(self).archs(),
            final(self).identity_id() == old(self).identity_id(),
            final(self).reg().count() >= old(self).reg().count(),
            r matches Some(id) ==> final(self).reg().registered(id),
            forall|i: int| 0 <= i < old(self).reg().count() ==> #[trigger] final(self).reg().entries()[i] == old(self).reg().entries()[i],
            exists|key: std::any::TypeId|
                {
                    &&& old(self).reg().id_for_type(key) is Some ==> {
                        &&& r == old(self).reg().id_for_type(key)
                        &&& final(self).reg().entries() == old(self).reg().entries()
                        &&& final(self).reg().typed() == old(self).reg().typed()
                    }
                    &&& (old(self).reg().id_for_type(key) is None && old(self).reg().id_for_name(name@) is Some)
                        ==> {
                        &&& r is None
                        &&& final(self).reg().entries() == old(self).reg().entries()
                        &&& final(self).reg().typed() == old(self).reg().typed()
                    }
                    &&& (old(self).reg().id_for_type(key) is None && old(self).reg().id_for_name(name@) is None)
                        ==> {
                        &&& r is Some
                        &&& (r->0).0 == old(self).reg().count()
                        &&& final(self).reg().entries().drop_last() == old(self).reg().entries()
                        &&& final(self).reg().typed() == old(self).reg().typed().push(true)
                        &&& final(self).reg().entries().last().name@ == name@
                        &&& final(self).reg().entries().last().type_id == key
                    }
                },
    {
        let ghost s0 = *self;
        let r = self.registry.register::<T>(name);
        proof {
            let key = choose|key: std::any::TypeId| {
                    &&& s0.registry.id_for_type(key) is Some ==> {
                        &&& r == s0.registry.id_for_type(key)
                        &&& self.registry.entries() == s0.registry.entries()
                        &&& self.registry.typed() == s0.registry.typed()
                    }
                    &&& (s0.registry.id_for_type(key) is None && s0.registry.id_for_name(name@) is Some)
                        ==> {
                        &&& r is None
                        &&& self.registry.entries() == s0.registry.entries()
                        &&& self.registry.typed() == s0.registry.typed()
                    }
                    &&& (s0.registry.id_for_type(key) is None && s0.registry.id_for_name(name@) is None)
                        ==> {
                        &&& r is Some
                        &&& (r->0).0 == s0.registry.count()
                        &&& self.registry.entries().drop_last() == s0.registry.entries()
                        &&& self.registry.typed() == s0.registry.typed().push(true)
                        &&& self.registry.entries().last().id == r->0
                        &&& self.registry.entries().last().name@ == name@
                        &&& self.registry.entries().last().size == vstd::layout::size_of::<T>()
                        &&& self.registry.entries().last().align == vstd::layout::align_of::<T>()
                        &&& self.registry.entries().last().type_id == key
                    }
                };
            if s0.registry.id_for_type(key) is Some {
                let i = choose|i: int| s0.registry.keyed(key, i);
                assert(s0.registry.keyed(key, i));
            } else if s0.registry.id_for_name(name@) is Some {
                let i = choose|i: int| s0.registry.named(name@, i);
                assert(s0.registry.named(name@, i));
            }
            assert forall|i: int| 0 <= i < s0.registry.count() implies #[trigger] self.registry.entries()[i]
                == s0.registry.entries()[i] by {
                if self.registry.entries().len() > s0.registry.entries().len() {
                    assert(self.registry.entries().drop_last()[i] == self.registry.entries()[i]);
                }
            }
            assert(self.view() =~= s0.view());
        }
        r
    }

    /// Number of live entities, as the allocator's alive flags count them.
    pub open spec fn live_count(&self) -> nat {
        count_alive(self.allocator_state().flags())
    }

    /// Spawn a new entity from a [`ComponentBundle`].
    ///
    /// Returns the newly allocated [`EntityId`].
    pub fn spawn_bundle(&mut self, bundle: ComponentBundle) -> (e: EntityId)
        requires
            old(self).wf(),
            bundle.wf(),
            old(self).all_registered(bundle.types()),
            old(self).has_room(),
        ensures
            final(self).wf(),
            allocated(old(self).allocator_state(), final(self).allocator_state(), e),
            !old(self).is_live(e),
            final(self).is_live(e),
            final(self).view() == old(self).view().insert(e, bundle.view()),
            final(self).live_count() == old(self).live_count() + 1,
            final(self).reg() == old(self).reg(),
            final(self).identity_id() == old(self).identity_id(),
            final(self).archs().len() >= old(self).archs().len(),
            final(self).archs().len() <= old(self).archs().len() + 1,
    {
        let ghost s0 = *self;
        let e = self.allocator.allocate();
        let n = self.allocator.slot_count();
        proof {
            lemma_count_alive_le_len(self.allocator.flags());
        }
        self.live = self.live + 1;
        if (e.index() as usize) == self.locations.len() {
            self.locations.push(None);
        }
        proof {
            let s1 = *self;
            let i = e.idx() as int;
            assert(s1.locations@.len() == s1.allocator.gens().len());
            assert(s1.locations@[i] is None) by {
                if i < s0.locations@.len() {
                    assert(!s0.allocator.flags()[i]);
                }
            }
            assert forall|j: int| 0 <= j < s1.locations@.len() && j != i implies s1.allocator.flags()[j]
                == s0.allocator.flags()[j] && s1.allocator.gens()[j] == s0.allocator.gens()[j] && (j
                < s0.locations@.len() ==> s1.locations@[j] == s0.locations@[j]) by {}
            assert forall|j: int|
                0 <= j < s1.locations@.len() && (#[trigger] s1.locations@[j]) is Some implies {
                    &&& s1.allocator.flags()[j]
                    &&& j != i
                    &&& s1.loc_ok(j, s1.locations@[j].unwrap())
                } by {
                assert(j < s0.locations@.len());
                assert(s0.loc_ok(j, s0.locations@[j].unwrap()));
            }
            assert forall|j: int|
                0 <= j < s1.locations@.len() && #[trigger] s1.allocator.flags()[j] && j != i implies s1.locations@[j] is Some by {
                assert(j < s0.locations@.len());
                assert(s0.allocator.flags()[j]);
            }
            assert forall|x: int, r: int|
                0 <= x < s1.archetypes@.len() && 0 <= r < s1.archetypes@[x].ents().len() implies {
                    let f = #[trigger] s1.archetypes@[x].ents()[r];
                    &&& (f.idx() as int) < s1.locations@.len()
                    &&& f.idx() != i
                    &&& s1.locations@[f.idx() as int] == Some(
                        EntityLocation { archetype_id: ArchetypeId(x as u32), row: r as usize },
                    )
                } by {
                let f = s1.archetypes@[x].ents()[r];
                assert(s0.locations@[f.idx() as int] is Some);
            }
            assert(s1.wf_skip(i));
            assert forall|f: EntityId| f != e && s0.is_live(f) implies s1.components(f) == s0.components(f) by {
                s0.lemma_live_located(-1, f);
            }
        }
        let ghost s1 = *self;
        self.attach(e, bundle.into_raw_parts());
        proof {
            assert(self.view() =~= s0.view().insert(e, bundle.view())) by {
                assert forall|f: EntityId| self.is_live(f) == (s0.is_live(f) || f == e) by {}
                assert forall|f: EntityId| #[trigger] self.is_live(f) && f != e implies self.components(f)
                    == s0.components(f) by {
                    assert(s1.is_live(f));
                }
            }
        }
        e
    }

    /// Spawn a new entity with a single component.
    pub fn spawn_with_value(&mut self, type_id: ComponentTypeId, value: ComponentValue) -> (e: EntityId)
        requires
            old(self).wf(),
            old(self).reg().registered(type_id),
            old(self).has_room(),
        ensures
            final(self).wf(),
            allocated(old(self).allocator_state(), final(self).allocator_state(), e),
            !old(self).is_live(e),
            final(self).view() == old(self).view().insert(
                e,
                Map::<ComponentTypeId, ComponentValue>::empty().insert(type_id, value),
            ),
            final(self).live_count() == old(self).live_count() + 1,
            final(self).reg() == old(self).reg(),
            final(self).identity_id() == old(self).identity_id(),
            final(self).archs().len() <= old(self).archs().len() + 1,
    {
        let mut bundle = ComponentBundle::new();
        bundle.add(type_id, value);
        proof {
            assert(bundle.types().contains(bundle.types()[0]));
            assert(bundle.types().to_set().contains(bundle.types()[0]));
            assert(bundle.types()[0] == type_id);
        }
        self.spawn_bundle(bundle)
    }

    /// Despawn an entity, removing it from its archetype and recycling the ID.
    pub fn despawn(&mut self, entity: EntityId) -> (r: Result<(), EcsError>)
        requires
            old(self).wf(),
        ensures
            final(self).wf(),
            despawn_step(*old(self), entity, r is Ok, *final(self)),
            r is Ok == old(self).is_live(entity),
            r is Ok ==> {
                &&& deallocated(old(self).allocator_state(), final(self).allocator_state(), entity)
                &&& final(self).view() == old(self).view().remove(entity)
                &&& final(self).live_count() + 1 == old(self).live_count()
                &&& final(self).reg() == old(self).reg()
                &&& final(self).identity_id() == old(self).identity_id()
                &&& final(self).archs().len() == old(self).archs().len()
            },
            r is Err ==> r == Err::<(), EcsError>(EcsError::StaleEntity { entity }) && *final(self)
                == *old(self),
    {
        if !self.allocator.is_alive(entity) {
            return Err(EcsError::StaleEntity { entity });
        }
        let ghost s0 = *self;
        let _parts = self.detach(entity);
        let ghost s1 = *self;
        self.allocator.deallocate(entity);
        self.live = self.live - 1;
        proof {
            let i = entity.idx() as int;
            assert forall|j: int|
                0 <= j < self.locations@.len() && (#[trigger] self.locations@[j]) is Some implies {
                    &&& self.allocator.flags()[j]
                    &&& j != -1
                    &&& self.loc_ok(j, self.locations@[j].unwrap())
                } by {
                assert(s1.loc_ok(j, s1.locations@[j].unwrap()));
            }
            assert forall|j: int|
                0 <= j < self.locations@.len() && #[trigger] self.allocator.flags()[j] && j != -1 implies self.locations@[j] is Some by {
                assert(s1.allocator.flags()[j]);
            }
            assert(self.wf());
            assert(self.view() =~= s0.view().remove(entity)) by {
                assert forall|f: EntityId| #[trigger] self.is_live(f) implies self.components(f)
                    == s0.components(f) by {
                    assert(s0.is_live(f));
                }
            }
        }
        Ok(())
    }

    /// Check whether an entity is alive.
    pub fn is_alive(&self, entity: EntityId) -> (b: bool)
        requires
            self.wf(),
        ensures
            b == self.is_live(entity),
            b == self.view().contains_key(entity),
    {
        self.allocator.is_alive(entity)
    }

    /// Total number of live entities.
    pub fn entity_count(&self) -> (n: usize)
        requires
            self.wf(),
        ensures
            n == self.live_count(),
    {
        self.live
    }

    /// Total number of archetypes.
    pub fn archetype_count(&self) -> (n: usize)
        ensures
            n == self.archs().len(),
    {
        self.archetypes.len()
    }

    /// The value of a component of an entity: `None` when the entity is not
    /// live or lacks the component.
    pub fn get_component_value(&self, entity: EntityId, type_id: ComponentTypeId) -> (r: Option<&ComponentValue>)
        requires
            self.wf(),
        ensures
            match r {
                Some(v) => self.view().contains_key(entity) && self.view()[entity].contains_key(type_id)
                    && *v == self.view()[entity][type_id],
                None => !(self.view().contains_key(entity) && self.view()[entity].contains_key(type_id)),
            },
    {
        if !self.allocator.is_alive(entity) {
            return None;
        }
        proof {
            self.lemma_live_located(-1, entity);
        }
        let loc = self.locations[entity.index() as usize].unwrap();
        let a = loc.archetype_id.0 as usize;
        let r = self.archetypes[a].get_component(loc.row, type_id);
        proof {
            let arch = self.archetypes@[a as int];
            arch.lemma_wf();
            match r {
                Some(v) => {
                    let k = choose|k: int| 0 <= k < arch.types().len() && arch.types()[k] == type_id && *v == arch.value(k, loc.row as int);
                    lemma_map_of_index(arch.types(), arch.row(loc.row as int), k);
                },
                None => {},
            }
        }
        r
    }

    /// Check whether an entity has a given component type.
    pub fn has_component_type(&self, entity: EntityId, type_id: ComponentTypeId) -> (b: bool)
        requires
            self.wf(),
        ensures
            b == (self.view().contains_key(entity) && self.view()[entity].contains_key(type_id)),
    {
        self.get_component_value(entity, type_id).is_some()
    }

    /// Whether one more archetype id fits in 32 bits.
    pub open spec fn can_add_archetype(&self) -> bool {
        self.archs().len() < id_space()
    }

    /// Whether another archetype can be created, as the operations that may
    /// create one require.
    pub fn has_archetype_room(&self) -> (b: bool)
        ensures
            b == self.can_add_archetype(),
    {
        (self.archetypes.len() as u64) < 0x1_0000_0000u64
    }

    /// Whether another entity can be spawned, as the spawning operations
    /// require.
    pub fn has_spawn_room(&self) -> (b: bool)
        ensures
            b == self.has_room(),
    {
        self.allocator.has_capacity() && (self.archetypes.len() as u64) < 0x1_0000_0000u64
    }

    /// Overwrites, in place, a component the live `entity` already has.
    fn overwrite(&mut self, entity: EntityId, type_id: ComponentTypeId, value: ComponentValue)
        requires
            old(self).wf(),
            old(self).is_live(entity),
            old(self).components(entity).contains_key(type_id),
        ensures
            final(self).wf(),
            final(self).allocator == old(self).allocator,
            final(self).registry == old(self).registry,
            final(self).identity_type == old(self).identity_type,
            final(self).live == old(self).live,
            final(self).archs().len() == old(self).archs().len(),
            final(self).view() == old(self).view().insert(
                entity,
                old(self).components(entity).insert(type_id, value),
            ),
    {
        proof {
            self.lemma_live_located(-1, entity);
        }
        let ghost s0 = *self;
        let loc = self.locations[entity.index() as usize].unwrap();
        let a = loc.archetype_id.0 as usize;
        let ghost arch0 = self.archetypes@[a as int];
        proof {
            arch0.lemma_wf();
        }
        let done = self.archetypes[a].replace_component(loc.row, type_id, value);
        proof {
            let arch1 = self.archetypes@[a as int];
            assert(self.archetypes@ == s0.archetypes@.update(a as int, arch1));
            assert forall|x: int|
                0 <= x < self.archetypes@.len() implies {
                    &&& (#[trigger] self.archetypes@[x]).wf()
                    &&& self.archetypes@[x].aid().0 == x
                    &&& forall|k: int|
                        0 <= k < self.archetypes@[x].types().len() ==> self.registry.registered(
                            #[trigger] self.archetypes@[x].types()[k],
                        )
                } by {
                if x != a {
                    assert(self.archetypes@[x] == s0.archetypes@[x]);
                }
            }
            assert forall|x: int, y: int|
                0 <= x < self.archetypes@.len() && 0 <= y < self.archetypes@.len() && x != y implies (
                #[trigger] self.archetypes@[x]).types() != (#[trigger] self.archetypes@[y]).types() by {
                assert(s0.archetypes@[x].types() != s0.archetypes@[y].types());
            }
            assert forall|i: int|
                0 <= i < self.locations@.len() && (#[trigger] self.locations@[i]) is Some implies {
                    &&& self.allocator.flags()[i]
                    &&& i != -1
                    &&& self.loc_ok(i, self.locations@[i].unwrap())
                } by {
                assert(s0.loc_ok(i, s0.locations@[i].unwrap()));
            }
            assert forall|x: int, r: int|
                0 <= x < self.archetypes@.len() && 0 <= r < self.archetypes@[x].ents().len() implies {
                    let e = #[trigger] self.archetypes@[x].ents()[r];
                    &&& (e.idx() as int) < self.locations@.len()
                    &&& e.idx() != -1
                    &&& self.locations@[e.idx() as int] == Some(
                        EntityLocation { archetype_id: ArchetypeId(x as u32), row: r as usize },
                    )
                } by {
                assert(self.archetypes@[x].ents() == s0.archetypes@[x].ents());
            }
            assert(self.wf());
            assert(arch0.types().contains(type_id));
            let k = choose|k: int| 0 <= k < arch0.types().len() && arch0.types()[k] == type_id;
            assert(arch1.row(loc.row as int) =~= arch0.row(loc.row as int).update(k, value));
            lemma_map_of_update(arch0.types(), arch0.row(loc.row as int), k, value);
            assert(self.view() =~= s0.view().insert(entity, s0.components(entity).insert(type_id, value))) by {
                assert forall|f: EntityId| #[trigger] self.is_live(f) && f != entity implies self.components(f)
                    == s0.components(f) by {
                    s0.lemma_live_located(-1, f);
                    let l = s0.locations@[f.idx() as int].unwrap();
                    if f.idx() == entity.idx() {
                        lemma_id_parts(f, entity);
                    }
                    if l.archetype_id.0 as int == a {
                        assert(l.row != loc.row);
                        assert(arch1.row(l.row as int) == arch0.row(l.row as int));
                    }
                }
            }
        }
    }

    /// Insert a component on an entity. If the entity already has this
    /// component type, the value is overwritten in place. Otherwise, the
    /// entity migrates to the archetype that includes the additional type.
    pub fn insert_component_value(&mut self, entity: EntityId, type_id: ComponentTypeId, value: ComponentValue) -> (r: Result<(), EcsError>)
        requires
            old(self).wf(),
            old(self).reg().registered(type_id),
            old(self).can_add_archetype(),
        ensures
            final(self).wf(),
            r is Ok == old(self).is_live(entity),
            r is Ok ==> final(self).view() == old(self).view().insert(
                entity,
                old(self).view()[entity].insert(type_id, value),
            ),
            r is Err ==> r == Err::<(), EcsError>(EcsError::StaleEntity { entity }) && *final(self)
                == *old(self),
            final(self).allocator_state() == old(self).allocator_state(),
            final(self).reg() == old(self).reg(),
            final(self).identity_id() == old(self).identity_id(),
            final(self).archs().len() >= old(self).archs().len(),
            final(self).archs().len() <= old(self).archs().len() + 1,
    {
        if !self.allocator.is_alive(entity) {
            return Err(EcsError::StaleEntity { entity });
        }
        if self.has_component_type(entity, type_id) {
            self.overwrite(entity, type_id, value);
            return Ok(());
        }
        let ghost s0 = *self;
        let parts = self.detach(entity);
        let mut bundle = ComponentBundle::from_sorted(parts);
        proof {
            assert(!bundle.types().contains(type_id));
        }
        bundle.add(type_id, value);
        proof {
            assert forall|k: int| 0 <= k < bundle.types().len() implies self.reg().registered(
                #[trigger] bundle.types()[k]) by {
                let t = bundle.types()[k];
                assert(bundle.types().to_set().contains(t));
                if t != type_id {
                    assert(types_of(parts@).to_set().contains(t));
                    let j = choose|j: int| 0 <= j < types_of(parts@).len() && types_of(parts@)[j] == t;
                    assert(self.reg().registered(types_of(parts@)[j]));
                }
            }
        }
        let ghost s1 = *self;
        self.attach(entity, bundle.into_raw_parts());
        proof {
            assert(self.view() =~= s0.view().insert(entity, s0.view()[entity].insert(type_id, value))) by {
                assert forall|f: EntityId| #[trigger] self.is_live(f) && f != entity implies self.components(f)
                    == s0.components(f) by {
                    assert(s1.is_live(f));
                }
            }
        }
        Ok(())
    }

    /// Remove a component type from an entity. If the entity does not have
    /// the component, this is a no-op (returns `Ok`). Otherwise the entity
    /// migrates to the archetype without that type.
    pub fn remove_component_type(&mut self, entity: EntityId, type_id: ComponentTypeId) -> (r: Result<(), EcsError>)
        requires
            old(self).wf(),
            old(self).can_add_archetype(),
        ensures
            final(self).wf(),
            r is Ok == old(self).is_live(entity),
            r is Ok ==> final(self).view() == old(self).view().insert(
                entity,
                old(self).view()[entity].remove(type_id),
            ),
            r is Err ==> r == Err::<(), EcsError>(EcsError::StaleEntity { entity }) && *final(self)
                == *old(self),
            final(self).allocator_state() == old(self).allocator_state(),
            final(self).reg() == old(self).reg(),
            final(self).identity_id() == old(self).identity_id(),
            final(self).archs().len() >= old(self).archs().len(),
            final(self).archs().len() <= old(self).archs().len() + 1,
    {
        if !self.allocator.is_alive(entity) {
            return Err(EcsError::StaleEntity { entity });
        }
        if !self.has_component_type(entity, type_id) {
            proof {
                assert(self.view().insert(entity, self.view()[entity].remove(type_id)) =~= self.view()) by {
                    assert(self.view()[entity].remove(type_id) =~= self.view()[entity]);
                }
            }
            return Ok(());
        }
        let ghost s0 = *self;
        let mut parts = self.detach(entity);
        let ghost p0 = parts@;
        let n = parts.len();
        let mut k: usize = 0;
        while parts[k].0.0 != type_id.0
            invariant
                0 <= k < p0.len(),
                n == p0.len(),
                parts@ == p0,
                types_of(p0).contains(type_id),
                forall|j: int| 0 <= j < k ==> p0[j].0 != type_id,
            decreases p0.len() - k,
        {
            k = k + 1;
            proof {
                if k == p0.len() {
                    let j = choose|j: int| 0 <= j < types_of(p0).len() && types_of(p0)[j] == type_id;
                    assert(p0[j].0 == type_id);
                }
            }
        }
        parts.remove(k);
        proof {
            assert(types_of(parts@) =~= types_of(p0).remove(k as int));
            assert(values_of(parts@) =~= values_of(p0).remove(k as int));
            lemma_map_of_remove(types_of(p0), values_of(p0), k as int);
            assert forall|j: int| 0 <= j < types_of(parts@).len() implies self.reg().registered(
                #[trigger] types_of(parts@)[j]) by {
                let jj = if j < k { j } else { j + 1 };
                assert(types_of(parts@)[j] == types_of(p0)[jj]);
            }
        }
        let ghost s1 = *self;
        self.attach(entity, parts);
        proof {
            assert(self.view() =~= s0.view().insert(entity, s0.view()[entity].remove(type_id))) by {
                assert forall|f: EntityId| #[trigger] self.is_live(f) && f != entity implies self.components(f)
                    == s0.components(f) by {
                    assert(s1.is_live(f));
                }
            }
        }
        Ok(())
    }

    /// Whether `filter` selects an entity with components `comps`.
    spec fn selects(&self, filter: EntityFilter, comps: Map<ComponentTypeId, ComponentValue>) -> bool {
        match filter {
            EntityFilter::All => true,
            EntityFilter::Tier(t) => has_tier(comps, self.identity_type, t),
            EntityFilter::Role(r) => has_role(comps, self.identity_type, r@),
            EntityFilter::WithTypes(ts) => has_all(comps, ts@),
        }
    }

    /// Whether `filter` selects the entity in row `r` of archetype `a`.
    #[verifier::loop_isolation(false)]
    fn row_selects(&self, a: usize, r: usize, filter: &EntityFilter) -> (b: bool)
        requires
            self.wf(),
            a < self.archetypes@.len(),
            r < self.archetypes@[a as int].ents().len(),
        ensures
            b == self.selects(*filter, self.components(self.archetypes@[a as int].ents()[r as int])),
    {
        proof {
            self.lemma_stored_live(-1, a as int, r as int);
            self.archetypes@[a as int].lemma_wf();
        }
        let arch = &self.archetypes[a];
        let ghost comps = map_of(arch.types(), arch.row(r as int));
        match filter {
            EntityFilter::All => true,
            EntityFilter::Tier(t) => {
                match arch.get_component(r, self.identity_type) {
                    Some(ComponentValue::Identity(i)) => {
                        proof {
                            let k = choose|k: int| 0 <= k < arch.types().len() && arch.types()[k] == self.identity_type && ComponentValue::Identity(*i) == arch.value(k, r as int);
                            lemma_map_of_index(arch.types(), arch.row(r as int), k);
                        }
                        i.tier() == *t
                    },
                    Some(v) => {
                        proof {
                            let k = choose|k: int| 0 <= k < arch.types().len() && arch.types()[k] == self.identity_type && *v == arch.value(k, r as int);
                            lemma_map_of_index(arch.types(), arch.row(r as int), k);
                        }
                        false
                    },
                    None => false,
                }
            },
            EntityFilter::Role(role) => {
                match arch.get_component(r, self.identity_type) {
                    Some(ComponentValue::Identity(Identity::Semantic(eid))) => {
                        proof {
                            let k = choose|k: int| 0 <= k < arch.types().len() && arch.types()[k] == self.identity_type && ComponentValue::Identity(Identity::Semantic(*eid)) == arch.value(k, r as int);
                            lemma_map_of_index(arch.types(), arch.row(r as int), k);
                        }
                        let rc = chars_of(eid.role.as_str());
                        chars_eq(rc.as_slice(), role.as_slice())
                    },
                    Some(v) => {
                        proof {
                            let k = choose|k: int| 0 <= k < arch.types().len() && arch.types()[k] == self.identity_type && *v == arch.value(k, r as int);
                            lemma_map_of_index(arch.types(), arch.row(r as int), k);
                        }
                        false
                    },
                    None => false,
                }
            },
            EntityFilter::WithTypes(ts) => {
                let mut k: usize = 0;
                while k < ts.len()
                    invariant
                        arch.wf(),
                        k <= ts@.len(),
                        comps == map_of(arch.types(), arch.row(r as int)),
                        forall|j: int| 0 <= j < k ==> comps.contains_key(#[trigger] ts@[j]),
                    decreases ts@.len() - k,
                {
                    if !arch.has_component(ts[k]) {
                        assert(!comps.contains_key(ts@[k as int]));
                        return false;
                    }
                    k = k + 1;
                }
                true
            },
        }
    }

    /// The live entities that `filter` selects, in archetype order and, within
    /// an archetype, in row order.
    fn collect(&self, filter: &EntityFilter) -> (v: Vec<EntityId>)
        requires
            self.wf(),
        ensures
            distinct_ids(v@),
            forall|e: EntityId| v@.contains(e) <==> (self.is_live(e) && self.selects(*filter, self.components(e))),
            in_storage_order(*self, v@),
    {
        let mut v: Vec<EntityId> = Vec::new();
        let mut a: usize = 0;
        while a < self.archetypes.len()
            invariant
                self.wf(),
                a <= self.archetypes@.len(),
                distinct_ids(v@),
                forall|k: int, j: int| 0 <= k < j < v@.len() ==> loc_before(self.loc_of(#[trigger] v@[k]), self.loc_of(#[trigger] v@[j])),
                forall|k: int| 0 <= k < v@.len() ==> {
                    &&& self.is_live(#[trigger] v@[k])
                    &&& self.selects(*filter, self.components(v@[k]))
                    &&& (self.loc_of(v@[k]).archetype_id.0 as int) < a
                },
                forall|x: int, r: int| 0 <= x < a && 0 <= r < self.archetypes@[x].ents().len() && self.selects(*filter, self.components(self.archetypes@[x].ents()[r])) ==> v@.contains(#[trigger] self.archetypes@[x].ents()[r]),
            decreases self.archetypes@.len() - a,
        {
            let n = self.archetypes[a].len();
            let mut r: usize = 0;
            while r < n
                invariant
                    self.wf(),
                    a < self.archetypes@.len(),
                    n == self.archetypes@[a as int].ents().len(),
                    r <= n,
                    distinct_ids(v@),
                    forall|k: int, j: int| 0 <= k < j < v@.len() ==> loc_before(self.loc_of(#[trigger] v@[k]), self.loc_of(#[trigger] v@[j])),
                    forall|k: int| 0 <= k < v@.len() ==> {
                        &&& self.is_live(#[trigger] v@[k])
                        &&& self.selects(*filter, self.components(v@[k]))
                        &&& ((self.loc_of(v@[k]).archetype_id.0 as int) < a || (self.loc_of(v@[k]).archetype_id.0 as int == a && (self.loc_of(v@[k]).row as int) < r))
                    },
                    forall|x: int, q: int| ((0 <= x < a && 0 <= q < self.archetypes@[x].ents().len()) || (x == a && 0 <= q < r)) && self.selects(*filter, self.components(self.archetypes@[x].ents()[q])) ==> v@.contains(#[trigger] self.archetypes@[x].ents()[q]),
                decreases n - r,
            {
                if self.row_selects(a, r, filter) {
                    let e = self.archetypes[a].entities()[r];
                    proof {
                        self.lemma_stored_live(-1, a as int, r as int);
                        assert((a as u32) as int == a);
                        assert forall|k: int| 0 <= k < v@.len() implies v@[k] != e by {
                            assert(self.is_live(v@[k]));
                        }
                    }
                    let ghost v0 = v@;
                    v.push(e);
                    proof {
                        assert forall|k: int, j: int| 0 <= k < j < v@.len() implies loc_before(self.loc_of(#[trigger] v@[k]), self.loc_of(#[trigger] v@[j])) by {
                            assert(v@[k] == v0[k]);
                            if j < v0.len() {
                                assert(v@[j] == v0[j]);
                            }
                        }
                        assert forall|x: int, q: int| ((0 <= x < a && 0 <= q < self.archetypes@[x].ents().len()) || (x == a && 0 <= q < r + 1)) && self.selects(*filter, self.components(self.archetypes@[x].ents()[q])) implies v@.contains(#[trigger] self.archetypes@[x].ents()[q]) by {
                            if x == a && q == r {
                                assert(v@[v0.len() as int] == e);
                            } else {
                                assert(v0.contains(self.archetypes@[x].ents()[q]));
                                let k = choose|k: int| 0 <= k < v0.len() && v0[k] == self.archetypes@[x].ents()[q];
                                assert(v@[k] == v0[k]);
                            }
                        }
                    }
                }
                r = r + 1;
            }
            a = a + 1;
        }
        proof {
            assert forall|e: EntityId| v@.contains(e) <==> (self.is_live(e) && self.selects(*filter, self.components(e))) by {
                if self.is_live(e) && self.selects(*filter, self.components(e)) {
                    self.lemma_live_located(-1, e);
                    let l = self.loc_of(e);
                    assert(self.archetypes@[l.archetype_id.0 as int].ents()[l.row as int] == e);
                }
                if v@.contains(e) {
                    let k = choose|k: int| 0 <= k < v@.len() && v@[k] == e;
                    assert(self.is_live(v@[k]));
                }
            }
            assert forall|k: int, j: int, a1: int, r1: int, a2: int, r2: int|
                0 <= k < j < v@.len() && #[trigger] stored_at(*self, v@[k], a1, r1) && #[trigger] stored_at(*self, v@[j], a2, r2)
                implies a1 < a2 || (a1 == a2 && r1 < r2) by {
                self.lemma_stored_live(-1, a1, r1);
                self.lemma_stored_live(-1, a2, r2);
                self.archetypes@[a1].lemma_wf();
                self.archetypes@[a2].lemma_wf();
                assert((a1 as u32) as int == a1);
                assert((a2 as u32) as int == a2);
                assert((r1 as usize) as int == r1);
                assert((r2 as usize) as int == r2);
                assert(self.loc_of(v@[k]).archetype_id.0 == a1 && self.loc_of(v@[k]).row == r1);
                assert(self.loc_of(v@[j]).archetype_id.0 == a2 && self.loc_of(v@[j]).row == r2);
                assert(loc_before(self.loc_of(v@[k]), self.loc_of(v@[j])));
            }
        }
        v
    }

    /// All live entities.
    pub fn all_entity_ids(&self) -> (v: Vec<EntityId>)
        requires
            self.wf(),
        ensures
            distinct_ids(v@),
            in_storage_order(*self, v@),
            forall|e: EntityId| v@.contains(e) <==> self.view().contains_key(e),
    {
        self.collect(&EntityFilter::All)
    }

    /// All live entities that have every component type of `required`.
    pub fn query_entities(&self, required: &[ComponentTypeId]) -> (v: Vec<EntityId>)
        requires
            self.wf(),
        ensures
            distinct_ids(v@),
            in_storage_order(*self, v@),
            forall|e: EntityId| v@.contains(e) <==> (self.view().contains_key(e) && has_all(self.view()[e], required@)),
            forall|e: EntityId, k: int|
                #[trigger] v@.contains(e) && 0 <= k < required@.len() ==> self.view().contains_key(e) && self.view()[e].contains_key(
                    #[trigger] required@[k],
                ),
    {
        let mut ts: Vec<ComponentTypeId> = Vec::new();
        let mut k: usize = 0;
        while k < required.len()
            invariant
                k <= required@.len(),
                ts@ == required@.take(k as int),
            decreases required@.len() - k,
        {
            ts.push(required[k]);
            k = k + 1;
        }
        assert(ts@ == required@);
        self.collect(&EntityFilter::WithTypes(ts))
    }

    /// Query all entities with a specific [`IdentityTier`].
    pub fn entities_by_tier(&self, tier: IdentityTier) -> (v: Vec<EntityId>)
        requires
            self.wf(),
        ensures
            distinct_ids(v@),
            in_storage_order(*self, v@),
            forall|e: EntityId| v@.contains(e) <==> (self.view().contains_key(e) && has_tier(self.view()[e], self.identity_id(), tier)),
            forall|e: EntityId|
                #[trigger] v@.contains(e) ==> self.view().contains_key(e) && self.view()[e].contains_key(self.identity_id())
                    && match self.view()[e][self.identity_id()] {
                    ComponentValue::Identity(Identity::Semantic(_)) => tier == IdentityTier::Semantic,
                    ComponentValue::Identity(Identity::Pooled(_)) => tier == IdentityTier::Pooled,
                    _ => false,
                },
    {
        self.collect(&EntityFilter::Tier(tier))
    }

    /// Query all semantic entities with a specific role.
    pub fn entities_by_role(&self, role: &str) -> (v: Vec<EntityId>)
        requires
            self.wf(),
        ensures
            distinct_ids(v@),
            in_storage_order(*self, v@),
            forall|e: EntityId| v@.contains(e) <==> (self.view().contains_key(e) && has_role(self.view()[e], self.identity_id(), role@)),
            forall|e: EntityId|
                #[trigger] v@.contains(e) ==> self.view().contains_key(e) && self.view()[e].contains_key(self.identity_id())
                    && match self.view()[e][self.identity_id()] {
                    ComponentValue::Identity(Identity::Semantic(eid)) => eid.role@ == role@,
                    _ => false,
                },
    {
        let rc = chars_of(role);
        self.collect(&EntityFilter::Role(rc))
    }

    /// Find all archetype IDs whose component set includes every type of
    /// `required`.
    pub fn matching_archetypes(&self, required: &[ComponentTypeId]) -> (v: Vec<ArchetypeId>)
        requires
            self.wf(),
        ensures
            v@.len() <= self.archs().len(),
            forall|k: int| 0 <= k < v@.len() ==> (#[trigger] v@[k]).0 < self.archs().len(),
            forall|k: int, j: int| 0 <= k < j < v@.len() ==> v@[k].0 < v@[j].0,
            forall|a: int| #![trigger self.archs()[a]] 0 <= a < self.archs().len() ==> (v@.contains(ArchetypeId(a as u32)) <==> includes_all(self.archs()[a].types(), required@)),
    {
        let mut v: Vec<ArchetypeId> = Vec::new();
        let mut a: usize = 0;
        while a < self.archetypes.len()
            invariant
                self.wf(),
                a <= self.archetypes@.len(),
                v@.len() <= a,
                forall|k: int| 0 <= k < v@.len() ==> (#[trigger] v@[k]).0 < a,
                forall|k: int, j: int| 0 <= k < j < v@.len() ==> v@[k].0 < v@[j].0,
                forall|x: int| #![trigger self.archetypes@[x]] 0 <= x < a ==> (v@.contains(ArchetypeId(x as u32)) <==> includes_all(self.archetypes@[x].types(), required@)),
            decreases self.archetypes@.len() - a,
        {
            let arch = &self.archetypes[a];
            let mut ok = true;
            let mut k: usize = 0;
            while k < required.len()
                invariant
                    arch.wf(),
                    k <= required@.len(),
                    ok == (forall|j: int| 0 <= j < k ==> arch.types().contains(#[trigger] required@[j])),
                decreases required@.len() - k,
            {
                if !arch.has_component(required[k]) {
                    ok = false;
                }
                k = k + 1;
            }
            let ghost v0 = v@;
            if ok {
                v.push(arch.id());
            }
            proof {
                assert((a as u32) as int == a);
                assert forall|x: int| #![trigger self.archetypes@[x]] 0 <= x < a + 1 implies (v@.contains(ArchetypeId(x as u32)) <==> includes_all(self.archetypes@[x].types(), required@)) by {
                    assert((x as u32) as int == x);
                    if x < a {
                        if v@.contains(ArchetypeId(x as u32)) {
                            let j = choose|j: int| 0 <= j < v@.len() && v@[j] == ArchetypeId(x as u32);
                            if j < v0.len() {
                                assert(v0[j] == v@[j]);
                            }
                        }
                        if v0.contains(ArchetypeId(x as u32)) {
                            let j = choose|j: int| 0 <= j < v0.len() && v0[j] == ArchetypeId(x as u32);
                            assert(v@[j] == v0[j]);
                        }
                    } else {
                        if ok {
                            assert(v@[v0.len() as int] == ArchetypeId(x as u32));
                        } else if v@.contains(ArchetypeId(x as u32)) {
                            let j = choose|j: int| 0 <= j < v@.len() && v@[j] == ArchetypeId(x as u32);
                            assert(v@[j].0 < a);
                        }
                    }
                }
            }
            a = a + 1;
        }
        v
    }

    /// The error reported for a component name that is not registered.
    pub open spec fn unknown_name_error(&self, err: EcsError, name: Seq<char>) -> bool {
        &&& err matches EcsError::UnknownComponent { name: n, registered: rg }
        &&& n@ == name
        &&& exists|ns: Seq<Seq<char>>| self.reg().sorted_names(ns) && rg@ == joined(ns, ", "@)
    }

    pub(crate) fn unknown_name(&self, name: &str) -> (err: EcsError)
        requires
            self.wf(),
        ensures
            self.unknown_name_error(err, name@),
    {
        EcsError::UnknownComponent { name: name.to_owned(), registered: self.registry.names_text() }
    }

    /// Spawn a Semantic-tier entity with full identity. The
    /// [`Identity::Semantic`] component is added to the given bundle.
    pub fn spawn_semantic(&mut self, identity: EntityIdentity, bundle: ComponentBundle) -> (r: Result<EntityId, EcsError>)
        requires
            old(self).wf(),
            bundle.wf(),
            old(self).all_registered(bundle.types()),
            !bundle.types().contains(old(self).identity_id()),
            old(self).has_room(),
        ensures
            final(self).wf(),
            r is Ok,
            allocated(old(self).allocator_state(), final(self).allocator_state(), r->Ok_0),
            !old(self).is_live(r->Ok_0),
            final(self).view() == old(self).view().insert(
                r->Ok_0,
                bundle.view().insert(old(self).identity_id(), ComponentValue::Identity(Identity::Semantic(identity))),
            ),
            final(self).live_count() == old(self).live_count() + 1,
            final(self).reg() == old(self).reg(),
            final(self).identity_id() == old(self).identity_id(),
            final(self).archs().len() <= old(self).archs().len() + 1,
    {
        let mut bundle = bundle;
        let ghost iv = ComponentValue::Identity(Identity::Semantic(identity));
        bundle.add(self.identity_type, ComponentValue::Identity(Identity::Semantic(identity)));
        proof {
            self.lemma_bundle_registered(bundle);
        }
        let e = self.spawn_bundle(bundle);
        Ok(e)
    }

    /// Spawn a Pooled-tier entity with type-level identity. The
    /// [`Identity::Pooled`] component is added to the given bundle.
    pub fn spawn_pooled(&mut self, identity: PoolIdentity, bundle: ComponentBundle) -> (r: Result<EntityId, EcsError>)
        requires
            old(self).wf(),
            bundle.wf(),
            old(self).all_registered(bundle.types()),
            !bundle.types().contains(old(self).identity_id()),
            old(self).has_room(),
        ensures
            final(self).wf(),
            r is Ok,
            allocated(old(self).allocator_state(), final(self).allocator_state(), r->Ok_0),
            !old(self).is_live(r->Ok_0),
            final(self).view() == old(self).view().insert(
                r->Ok_0,
                bundle.view().insert(old(self).identity_id(), ComponentValue::Identity(Identity::Pooled(identity))),
            ),
            final(self).live_count() == old(self).live_count() + 1,
            final(self).reg() == old(self).reg(),
            final(self).identity_id() == old(self).identity_id(),
            final(self).archs().len() <= old(self).archs().len() + 1,
    {
        let mut bundle = bundle;
        bundle.add(self.identity_type, ComponentValue::Identity(Identity::Pooled(identity)));
        proof {
            self.lemma_bundle_registered(bundle);
        }
        let e = self.spawn_bundle(bundle);
        Ok(e)
    }

    /// A bundle whose types are registered types plus the identity type only
    /// holds registered types.
    proof fn lemma_bundle_registered(&self, bundle: ComponentBundle)
        requires
            self.wf(),
            forall|t: ComponentTypeId| #[trigger] bundle.types().to_set().contains(t) ==> (self.reg().registered(t) || t == self.identity_id()),
        ensures
            self.all_registered(bundle.types()),
    {
        assert forall|k: int| 0 <= k < bundle.types().len() implies self.reg().registered(#[trigger] bundle.types()[k]) by {
            assert(bundle.types().to_set().contains(bundle.types()[k]));
        }
    }

    /// Get the [`Identity`] of an entity.
    ///
    /// Returns [`EcsError::StaleEntity`] if the entity does not exist or has
    /// no identity component.
    pub fn get_identity(&self, entity: EntityId) -> (r: Result<&Identity, EcsError>)
        requires
            self.wf(),
        ensures
            match r {
                Ok(i) => self.view().contains_key(entity) && self.view()[entity].contains_key(self.identity_id())
                    && self.view()[entity][self.identity_id()] == ComponentValue::Identity(*i),
                Err(err) => err == (EcsError::StaleEntity { entity }) && !(self.view().contains_key(entity)
                    && self.view()[entity].contains_key(self.identity_id())
                    && self.view()[entity][self.identity_id()] is Identity),
            },
    {
        match self.get_component_value(entity, self.identity_type) {
            Some(ComponentValue::Identity(i)) => Ok(i),
            _ => Err(EcsError::StaleEntity { entity }),
        }
    }

    /// Get the [`IdentityTier`] of an entity.
    pub fn get_tier(&self, entity: EntityId) -> (r: Result<IdentityTier, EcsError>)
        requires
            self.wf(),
        ensures
            match r {
                Ok(t) => self.view().contains_key(entity) && has_tier(self.view()[entity], self.identity_id(), t),
                Err(err) => err == (EcsError::StaleEntity { entity }) && !(self.view().contains_key(entity)
                    && self.view()[entity].contains_key(self.identity_id())
                    && self.view()[entity][self.identity_id()] is Identity),
            },
    {
        match self.get_identity(entity) {
            Ok(i) => Ok(i.tier()),
            Err(e) => Err(e),
        }
    }

    /// Set a component on an entity from a JSON value, by the component's
    /// registered name. The value is first offered to `decode`, which reads
    /// it as the component's type and gives back the value to store (an
    /// identity for the identity component, the value as the type writes it
    /// back for any other) or `None` when it does not have the type's shape;
    /// then the entity either has the component overwritten or migrates to
    /// the archetype that includes it.
    ///
    /// Errors, in the order they are checked: an unregistered name gives
    /// [`EcsError::UnknownComponent`]; a dead entity gives
    /// [`EcsError::StaleEntity`]; a value that `decode` refuses, or decodes
    /// to the wrong kind for the component (see [`storable`]), gives
    /// [`EcsError::ComponentDeserializationError`].
    pub fn set_component_by_name<F: Fn(ComponentTypeId, &serde_json::Value) -> Option<ComponentValue>>(
        &mut self,
        entity: EntityId,
        component_name: &str,
        value: &serde_json::Value,
        decode: &F,
    ) -> (r: Result<(), EcsError>)
        requires
            old(self).wf(),
            old(self).can_add_archetype(),
            forall|t: ComponentTypeId, v: &serde_json::Value| decode.requires((t, v)),
        ensures
            final(self).wf(),
            final(self).allocator_state() == old(self).allocator_state(),
            final(self).reg() == old(self).reg(),
            final(self).identity_id() == old(self).identity_id(),
            set_by_name_step(decode, *old(self), entity, component_name@, *value, r is Ok, *final(self)),
            final(self).archs().len() <= old(self).archs().len() + 1,
            old(self).reg().id_for_name(component_name@) is None ==> {
                &&& r is Err && old(self).unknown_name_error(r->Err_0, component_name@)
                &&& *final(self) == *old(self)
            },
            old(self).reg().id_for_name(component_name@) is Some && !old(self).is_live(entity) ==> {
                &&& r == Err::<(), EcsError>(EcsError::StaleEntity { entity })
                &&& *final(self) == *old(self)
            },
            ({
                let t = old(self).reg().id_for_name(component_name@)->0;
                old(self).reg().id_for_name(component_name@) is Some && old(self).is_live(entity) ==> {
                    &&& r is Ok ==> {
                        let v = final(self).view()[entity][t];
                        &&& decode.ensures((t, value), Some(v))
                        &&& storable(*old(self), t, v)
                        &&& final(self).view() == old(self).view().insert(entity, old(self).view()[entity].insert(t, v))
                    }
                    &&& r is Err ==> {
                        &&& r->Err_0 matches EcsError::ComponentDeserializationError { component: c, .. } && c@ == component_name@
                        &&& exists|o: Option<ComponentValue>| decode.ensures((t, value), o) && #[trigger] refused(*old(self), t, o)
                        &&& *final(self) == *old(self)
                    }
                }
            }),
    {
        let type_id = match self.registry.lookup_by_name(component_name) {
            Some(t) => t,
            None => {
                return Err(self.unknown_name(component_name));
            },
        };
        if !self.allocator.is_alive(entity) {
            return Err(EcsError::StaleEntity { entity });
        }
        let decoded = decode(type_id, value);
        let v = match decoded {
            Some(v) => v,
            None => {
                proof {
                    assert(refused(*self, type_id, decoded));
                }
                return Err(EcsError::ComponentDeserializationError {
                    component: component_name.to_owned(),
                    details: "the value does not have the shape of the component's type".to_owned(),
                });
            },
        };
        let is_identity_value = match &v {
            ComponentValue::Identity(_) => true,
            ComponentValue::Json(_) => false,
        };
        if (type_id.0 == self.identity_type.0) != is_identity_value {
            proof {
                assert(refused(*self, type_id, decoded));
            }
            return Err(EcsError::ComponentDeserializationError {
                component: component_name.to_owned(),
                details: "the decoded value is not of the component's kind".to_owned(),
            });
        }
        proof {
            let i = choose|i: int| self.registry.named(component_name@, i);
            assert(self.registry.named(component_name@, i));
        }
        let r = self.insert_component_value(entity, type_id, v);
        r
    }

    /// The components of a live entity as `(type, value)` pairs, strictly
    /// increasing by type.
    pub(crate) fn component_list(&self, entity: EntityId) -> (parts: Vec<(ComponentTypeId, ComponentValue)>)
        requires
            self.wf(),
            self.is_live(entity),
        ensures
            strictly_sorted(types_of(parts@)),
            self.all_registered(types_of(parts@)),
            map_of(types_of(parts@), values_of(parts@)) == self.view()[entity],
    {
        proof {
            self.lemma_live_located(-1, entity);
        }
        let loc = self.locations[entity.index() as usize].unwrap();
        let arch = &self.archetypes[loc.archetype_id.0 as usize];
        proof {
            arch.lemma_wf();
        }
        let types = arch.component_types();
        let mut parts: Vec<(ComponentTypeId, ComponentValue)> = Vec::new();
        let mut k: usize = 0;
        while k < types.len()
            invariant
                arch.wf(),
                types@ == arch.types(),
                strictly_sorted(arch.types()),
                (loc.row as int) < arch.ents().len(),
                k <= types@.len(),
                parts@.len() == k,
                types_of(parts@) == arch.types().take(k as int),
                values_of(parts@) == arch.row(loc.row as int).take(k as int),
            decreases types@.len() - k,
        {
            let t = types[k];
            let v = arch.get_component(loc.row, t);
            proof {
                assert(arch.types().contains(t));
            }
            let v = v.unwrap();
            proof {
                let j = choose|j: int| 0 <= j < arch.types().len() && arch.types()[j] == t && *v == arch.value(j, loc.row as int);
                if j < k {
                    assert(arch.types()[j].0 < arch.types()[k as int].0);
                } else if j > k {
                    assert(arch.types()[k as int].0 < arch.types()[j].0);
                }
            }
            let ghost p0 = parts@;
            parts.push((t, v.duplicate()));
            proof {
                assert(forall|j: int| 0 <= j < k ==> parts@[j] == p0[j]);
                assert(forall|j: int| 0 <= j < k ==> p0[j].0 == types_of(p0)[j]);
                assert(forall|j: int| 0 <= j < k ==> p0[j].1 == values_of(p0)[j]);
                assert(types_of(parts@) =~= arch.types().take(k as int + 1));
                assert(values_of(parts@) =~= arch.row(loc.row as int).take(k as int + 1));
            }
            k = k + 1;
        }
        proof {
            assert(types_of(parts@) =~= arch.types());
            assert(values_of(parts@) =~= arch.row(loc.row as int));
            let a = loc.archetype_id.0 as int;
            assert forall|j: int| 0 <= j < types_of(parts@).len() implies self.reg().registered(#[trigger] types_of(parts@)[j]) by {
                assert(types_of(parts@)[j] == self.archetypes@[a].types()[j]);
            }
        }
        parts
    }

    /// Removes every entity and archetype, and puts the allocator in the
    /// state `(generations, all slots dead, free)`; the registry is kept.
    pub(crate) fn reset_entities(&mut self, generations: Vec<u32>, free: Vec<u32>)
        requires
            old(self).wf(),
            allocator_state_ok(generations@, Seq::new(generations@.len(), |i: int| false), free@),
        ensures
            final(self).wf(),
            final(self).view() == Map::<EntityId, Map<ComponentTypeId, ComponentValue>>::empty(),
            final(self).reg() == old(self).reg(),
            final(self).identity_id() == old(self).identity_id(),
            final(self).allocator_state().gens() == generations@,
            final(self).allocator_state().flags() == Seq::new(generations@.len(), |i: int| false),
            final(self).allocator_state().free() == free@,
            final(self).archs().len() == 0,
    {
        let n = generations.len();
        let mut alive: Vec<bool> = Vec::new();
        let mut locations: Vec<Option<EntityLocation>> = Vec::new();
        let mut i: usize = 0;
        while i < n
            invariant
                i <= n,
                alive@ == Seq::new(i as nat, |j: int| false),
                locations@ == Seq::new(i as nat, |j: int| None::<EntityLocation>),
            decreases n - i,
        {
            alive.push(false);
            locations.push(None);
            proof {
                assert(alive@ =~= Seq::new(i as nat + 1, |j: int| false));
                assert(locations@ =~= Seq::new(i as nat + 1, |j: int| None::<EntityLocation>));
            }
            i = i + 1;
        }
        proof {
            lemma_count_alive_none(alive@);
        }
        self.allocator = EntityAllocator::restore_from_snapshot(generations, alive, free);
        self.archetypes = Vec::new();
        self.locations = locations;
        self.live = 0;
        proof {
            assert(self.view() =~= Map::<EntityId, Map<ComponentTypeId, ComponentValue>>::empty());
        }
    }

    /// Stores the components of `bundle` under the exact id `entity`, whose
    /// slot is dead and not queued for reuse; the slot becomes alive.
    pub(crate) fn restore_entity(&mut self, entity: EntityId, bundle: ComponentBundle)
        requires
            old(self).wf(),
            bundle.wf(),
            old(self).all_registered(bundle.types()),
            (entity.idx() as int) < old(self).allocator_state().gens().len(),
            old(self).allocator_state().gens()[entity.idx() as int] == entity.gen(),
            !old(self).allocator_state().flags()[entity.idx() as int],
            !old(self).allocator_state().free().contains(entity.idx()),
            old(self).archs().len() < id_space(),
        ensures
            final(self).wf(),
            final(self).view() == old(self).view().insert(entity, bundle.view()),
            final(self).allocator_state().gens() == old(self).allocator_state().gens(),
            final(self).allocator_state().free() == old(self).allocator_state().free(),
            final(self).allocator_state().flags() == old(self).allocator_state().flags().update(entity.idx() as int, true),
            final(self).reg() == old(self).reg(),
            final(self).identity_id() == old(self).identity_id(),
            final(self).archs().len() <= old(self).archs().len() + 1,
    {
        let ghost s0 = *self;
        let idx = entity.index();
        self.allocator.revive(idx);
        let _slots = self.allocator.slot_count();
        proof {
            lemma_count_alive_update(s0.allocator.flags(), idx as int, true);
            lemma_count_alive_le_len(self.allocator.flags());
        }
        self.live = self.live + 1;
        proof {
            let s1 = *self;
            let i = idx as int;
            assert(s0.locations@[i] is None);
            assert forall|j: int|
                0 <= j < s1.locations@.len() && (#[trigger] s1.locations@[j]) is Some implies {
                    &&& s1.allocator.flags()[j]
                    &&& j != i
                    &&& s1.loc_ok(j, s1.locations@[j].unwrap())
                } by {
                assert(s0.loc_ok(j, s0.locations@[j].unwrap()));
            }
            assert forall|j: int|
                0 <= j < s1.locations@.len() && #[trigger] s1.allocator.flags()[j] && j != i implies s1.locations@[j] is Some by {
                assert(s0.allocator.flags()[j]);
            }
            assert forall|x: int, r: int|
                0 <= x < s1.archetypes@.len() && 0 <= r < s1.archetypes@[x].ents().len() implies {
                    let f = #[trigger] s1.archetypes@[x].ents()[r];
                    &&& (f.idx() as int) < s1.locations@.len()
                    &&& f.idx() != i
                    &&& s1.locations@[f.idx() as int] == Some(
                        EntityLocation { archetype_id: ArchetypeId(x as u32), row: r as usize },
                    )
                } by {
                let f = s1.archetypes@[x].ents()[r];
                assert(s0.locations@[f.idx() as int] is Some);
            }
            assert(s1.wf_skip(i));
            assert(s1.is_live(entity));
            assert forall|f: EntityId| f != entity && s0.is_live(f) implies s1.components(f) == s0.components(f) by {
                s0.lemma_live_located(-1, f);
            }
        }
        let ghost s1 = *self;
        self.attach(entity, bundle.into_raw_parts());
        proof {
            assert(self.view() =~= s0.view().insert(entity, bundle.view())) by {
                assert forall|f: EntityId| self.is_live(f) == (s0.is_live(f) || f == entity) by {
                    if f.idx() == entity.idx() && f != entity {
                        lemma_id_parts(f, entity);
                    }
                }
                assert forall|f: EntityId| #[trigger] self.is_live(f) && f != entity implies self.components(f)
                    == s0.components(f) by {
                    assert(s1.is_live(f));
                }
            }
        }
    }

    /// Remove a component from an entity by the component's registered name.
    /// If the entity does not have the named component, this is a no-op.
    ///
    /// Errors: an unregistered name gives [`EcsError::UnknownComponent`]; a
    /// dead entity gives [`EcsError::StaleEntity`].
    pub fn remove_component_by_name(&mut self, entity: EntityId, component_name: &str) -> (r: Result<(), EcsError>)
        requires
            old(self).wf(),
            old(self).can_add_archetype(),
        ensures
            final(self).wf(),
            final(self).allocator_state() == old(self).allocator_state(),
            final(self).reg() == old(self).reg(),
            final(self).identity_id() == old(self).identity_id(),
            remove_by_name_step(*old(self), entity, component_name@, r is Ok, *final(self)),
            final(self).archs().len() <= old(self).archs().len() + 1,
            old(self).reg().id_for_name(component_name@) is None ==> {
                &&& r is Err && old(self).unknown_name_error(r->Err_0, component_name@)
                &&& *final(self) == *old(self)
            },
            old(self).reg().id_for_name(component_name@) is Some && !old(self).is_live(entity) ==> {
                &&& r == Err::<(), EcsError>(EcsError::StaleEntity { entity })
                &&& *final(self) == *old(self)
            },
            old(self).reg().id_for_name(component_name@) is Some && old(self).is_live(entity) ==> {
                &&& r is Ok
                &&& final(self).view() == old(self).view().insert(
                    entity,
                    old(self).view()[entity].remove(old(self).reg().id_for_name(component_name@)->0),
                )
            },
    {
        let type_id = match self.registry.lookup_by_name(component_name) {
            Some(t) => t,
            None => {
                return Err(self.unknown_name(component_name));
            },
        };
        self.remove_component_type(entity, type_id)
    }

    /// A copy of the value of a component of an entity, by the component's
    /// registered name: `None` when the name is unknown, the entity is not
    /// live, or it lacks the component.
    pub fn get_component_by_name(&self, entity: EntityId, component_name: &str) -> (r: Option<ComponentValue>)
        requires
            self.wf(),
        ensures
            match self.reg().id_for_name(component_name@) {
                Some(t) => match r {
                    Some(v) => self.view().contains_key(entity) && self.view()[entity].contains_key(t) && v == self.view()[entity][t],
                    None => !(self.view().contains_key(entity) && self.view()[entity].contains_key(t)),
                },
                None => r is None,
            },
    {
        let type_id = match self.registry.lookup_by_name(component_name) {
            Some(t) => t,
            None => {
                return None;
            },
        };
        match self.get_component_value(entity, type_id) {
            Some(v) => Some(v.duplicate()),
            None => None,
        }
    }
}


/// Whether `v` is of the kind that type `t` of world `w` holds: the identity
/// type holds identities, every other type JSON.
pub open spec fn storable(w: World, t: ComponentTypeId, v: ComponentValue) -> bool {
    (t == w.identity_id()) == (v is Identity)
}

/// Whether a decoding outcome is refused for type `t` of world `w`: there is
/// no value, or it is of the wrong kind.
pub open spec fn refused(w: World, t: ComponentTypeId, o: Option<ComponentValue>) -> bool {
    match o {
        Some(v) => !storable(w, t, v),
        None => true,
    }
}

/// The outcome of setting component `name` of `entity` to `value` by name
/// ([`World::set_component_by_name`]) on world `w`: the world `w2` after the
/// call and whether it succeeded.
pub open spec fn set_by_name_step<F: Fn(ComponentTypeId, &serde_json::Value) -> Option<ComponentValue>>(
    decode: &F,
    w: World,
    entity: EntityId,
    name: Seq<char>,
    value: serde_json::Value,
    ok: bool,
    w2: World,
) -> bool {
    &&& w2.wf()
    &&& w2.allocator_state() == w.allocator_state()
    &&& w2.reg() == w.reg()
    &&& w2.identity_id() == w.identity_id()
    &&& match w.reg().id_for_name(name) {
        None => !ok && w2 == w,
        Some(t) => if !w.is_live(entity) {
            !ok && w2 == w
        } else if ok {
            let v = w2.view()[entity][t];
            &&& decode.ensures((t, &value), Some(v))
            &&& storable(w, t, v)
            &&& w2.view() == w.view().insert(entity, w.view()[entity].insert(t, v))
        } else {
            &&& exists|o: Option<ComponentValue>| decode.ensures((t, &value), o) && #[trigger] refused(w, t, o)
            &&& w2 == w
        },
    }
}

/// The outcome of removing component `name` of `entity` by name
/// ([`World::remove_component_by_name`]).
pub open spec fn remove_by_name_step(w: World, entity: EntityId, name: Seq<char>, ok: bool, w2: World) -> bool {
    &&& w2.wf()
    &&& w2.allocator_state() == w.allocator_state()
    &&& w2.reg() == w.reg()
    &&& w2.identity_id() == w.identity_id()
    &&& match w.reg().id_for_name(name) {
        None => !ok && w2 == w,
        Some(t) => if !w.is_live(entity) {
            !ok && w2 == w
        } else {
            ok && w2.view() == w.view().insert(entity, w.view()[entity].remove(t))
        },
    }
}

/// The outcome of despawning `entity` ([`World::despawn`]).
pub open spec fn despawn_step(w: World, entity: EntityId, ok: bool, w2: World) -> bool {
    &&& w2.wf()
    &&& ok == w.is_live(entity)
    &&& ok ==> {
        &&& deallocated(w.allocator_state(), w2.allocator_state(), entity)
        &&& w2.view() == w.view().remove(entity)
        &&& w2.reg() == w.reg()
        &&& w2.identity_id() == w.identity_id()
    }
    &&& !ok ==> w2 == w
}

/// World `w1` is world `w` with a fresh entity `e` that holds only the
/// identity component `identity`.
pub open spec fn spawned_with_identity(w: World, identity: Identity, e: EntityId, w1: World) -> bool {
    &&& w1.wf()
    &&& allocated(w.allocator_state(), w1.allocator_state(), e)
    &&& !w.is_live(e)
    &&& w1.view() == w.view().insert(
        e,
        Map::<ComponentTypeId, ComponentValue>::empty().insert(w.identity_id(), ComponentValue::Identity(identity)),
    )
    &&& w1.reg() == w.reg()
    &&& w1.identity_id() == w.identity_id()
}

/// `ws` are the worlds met while setting the named components `comps` on
/// `entity` one after the other, the `k`-th call succeeding as `oks[k]` says.
pub open spec fn set_chain<F: Fn(ComponentTypeId, &serde_json::Value) -> Option<ComponentValue>>(
    decode: &F,
    ws: Seq<World>,
    entity: EntityId,
    comps: Seq<(String, serde_json::Value)>,
    oks: Seq<bool>,
) -> bool {
    &&& ws.len() == comps.len() + 1
    &&& oks.len() == comps.len()
    &&& forall|k: int| 0 <= k < comps.len() ==> #[trigger] chain_step_at(decode, ws, entity, comps, oks, k)
}

/// Step `k` of a chain of by-name sets: `comps[k]` took `ws[k]` to
/// `ws[k + 1]` with outcome `oks[k]`.
pub open spec fn chain_step_at<F: Fn(ComponentTypeId, &serde_json::Value) -> Option<ComponentValue>>(
    decode: &F,
    ws: Seq<World>,
    entity: EntityId,
    comps: Seq<(String, serde_json::Value)>,
    oks: Seq<bool>,
    k: int,
) -> bool {
    set_by_name_step(decode, ws[k], entity, comps[k].0@, comps[k].1, oks[k], ws[k + 1])
}

/// The outcome of spawning an entity with identity `identity` and then
/// setting the named components `comps` on it, each failure ignored: `e` is
/// the new entity and `w2` the world afterwards.
pub open spec fn spawn_step<F: Fn(ComponentTypeId, &serde_json::Value) -> Option<ComponentValue>>(
    decode: &F,
    w: World,
    identity: Identity,
    comps: Seq<(String, serde_json::Value)>,
    e: EntityId,
    w2: World,
) -> bool {
    exists|ws: Seq<World>, oks: Seq<bool>|
        #[trigger] set_chain(decode, ws, e, comps, oks) && spawned_with_identity(w, identity, e, ws[0])
            && ws.last() == w2
}

/// Law: despawning an entity that was just spawned gives back the world's
/// entities and components as they were before the spawn.
pub proof fn lemma_despawn_undoes_spawn(
    w0: World,
    w1: World,
    w2: World,
    e: EntityId,
    components: Map<ComponentTypeId, ComponentValue>,
)
    requires
        !w0.view().contains_key(e),
        w1.view() == w0.view().insert(e, components),
        w2.view() == w1.view().remove(e),
    ensures
        w2.view() == w0.view(),
{
    assert(w2.view() =~= w0.view());
}

/// Law: a successful set by name stores the value that `decode` gave back
/// for the written JSON, that value is what a read by the same name then
/// gives back, and no other component of any entity changes.
pub proof fn lemma_set_then_get<F: Fn(ComponentTypeId, &serde_json::Value) -> Option<ComponentValue>>(
    decode: &F,
    w0: World,
    w1: World,
    e: EntityId,
    name: Seq<char>,
    value: serde_json::Value,
)
    requires
        set_by_name_step(decode, w0, e, name, value, true, w1),
    ensures
        w1.reg().id_for_name(name) is Some,
        w1.view().contains_key(e),
        decode.ensures((w1.reg().id_for_name(name)->0, &value), Some(w1.view()[e][w1.reg().id_for_name(name)->0])),
        forall|f: EntityId, t: ComponentTypeId|
            w0.view().contains_key(f) && w0.view()[f].contains_key(t) && (f != e || t != w1.reg().id_for_name(name)->0)
                ==> w1.view()[f].contains_key(t) && #[trigger] w1.view()[f][t] == w0.view()[f][t],
{
}

/// Law: inserting a component an entity lacked and then removing it gives
/// back the world as it was.
pub proof fn lemma_remove_undoes_insert(
    w0: World,
    w1: World,
    w2: World,
    e: EntityId,
    t: ComponentTypeId,
    v: ComponentValue,
)
    requires
        w0.view().contains_key(e),
        !w0.view()[e].contains_key(t),
        w1.view() == w0.view().insert(e, w0.view()[e].insert(t, v)),
        w2.view() == w1.view().insert(e, w1.view()[e].remove(t)),
    ensures
        w2.view() == w0.view(),
{
    assert(w1.view()[e].remove(t) =~= w0.view()[e]);
    assert(w2.view() =~= w0.view());
}

/// Law: the entity count of a world is the number of its live entities.
pub proof fn lemma_live_count_is_entities(w: World)
    requires
        w.wf(),
    ensures
        w.view().dom().finite(),
        w.view().dom().len() == w.live_count(),
{
    w.lemma_wf_parts();
    let a = w.allocator_state();
    crate::entity::lemma_alive_count_is_live_ids(a);
    assert(w.view().dom() =~= Set::new(|e: EntityId| a.alive_id(e)));
}

} // verus!
