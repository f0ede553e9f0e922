//! Component bundles and the map view of a sorted list of components.
use crate::archetype::strictly_sorted;
use crate::component::ComponentTypeId;
use crate::value::ComponentValue;
use vstd::prelude::*;

verus! {

/// The component type ids of a list of `(type, value)` pairs.
pub open spec fn types_of(entries: Seq<(ComponentTypeId, ComponentValue)>) -> Seq<ComponentTypeId> {
    Seq::new(entries.len(), |k: int| entries[k].0)
}

/// The values of a list of `(type, value)` pairs.
pub open spec fn values_of(entries: Seq<(ComponentTypeId, ComponentValue)>) -> Seq<ComponentValue> {
    Seq::new(entries.len(), |k: int| entries[k].1)
}

/// The position of `t` in `types`.
pub open spec fn position(types: Seq<ComponentTypeId>, t: ComponentTypeId) -> int {
    choose|k: int| 0 <= k < types.len() && types[k] == t
}

/// The map from component type to value described by parallel sequences of
/// types and values.
pub open spec fn map_of(types: Seq<ComponentTypeId>, vals: Seq<ComponentValue>) -> Map<
    ComponentTypeId,
    ComponentValue,
> {
    Map::new(|t: ComponentTypeId| types.contains(t), |t: ComponentTypeId| vals[position(types, t)])
}

/// In a strictly sorted type list, the entry for `types[k]` is `vals[k]`.
pub proof fn lemma_map_of_index(types: Seq<ComponentTypeId>, vals: Seq<ComponentValue>, k: int)
    requires
        strictly_sorted(types),
        0 <= k < types.len(),
    ensures
        map_of(types, vals).contains_key(types[k]),
        map_of(types, vals)[types[k]] == vals[k],
        position(types, types[k]) == k,
{
    assert(types.contains(types[k]));
    let j = position(types, types[k]);
    assert(0 <= j < types.len() && types[j] == types[k]);
    if j < k {
        assert(types[j].0 < types[k].0);
    } else if j > k {
        assert(types[k].0 < types[j].0);
    }
}

/// Replacing the value at position `k` updates the map at `types[k]`.
pub proof fn lemma_map_of_update(types: Seq<ComponentTypeId>, vals: Seq<ComponentValue>, k: int, v: ComponentValue)
    requires
        strictly_sorted(types),
        0 <= k < types.len(),
        vals.len() == types.len(),
    ensures
        map_of(types, vals.update(k, v)) == map_of(types, vals).insert(types[k], v),
{
    let m1 = map_of(types, vals.update(k, v));
    let m2 = map_of(types, vals).insert(types[k], v);
    assert forall|t: ComponentTypeId| #[trigger] m1.contains_key(t) == m2.contains_key(t) by {}
    assert forall|t: ComponentTypeId| m1.contains_key(t) implies m1[t] == m2[t] by {
        let j = choose|j: int| 0 <= j < types.len() && types[j] == t;
        lemma_map_of_index(types, vals.update(k, v), j);
        lemma_map_of_index(types, vals, j);
    }
    assert(m1 =~= m2);
}

/// Inserting `(t, v)` at position `p` of a sorted list adds `t -> v` to the
/// map.
pub proof fn lemma_map_of_insert(
    types: Seq<ComponentTypeId>,
    vals: Seq<ComponentValue>,
    p: int,
    t: ComponentTypeId,
    v: ComponentValue,
)
    requires
        strictly_sorted(types),
        strictly_sorted(types.insert(p, t)),
        0 <= p <= types.len(),
        vals.len() == types.len(),
    ensures
        map_of(types.insert(p, t), vals.insert(p, v)) == map_of(types, vals).insert(t, v),
{
    let nt = types.insert(p, t);
    let nv = vals.insert(p, v);
    let m1 = map_of(nt, nv);
    let m2 = map_of(types, vals).insert(t, v);
    assert forall|u: ComponentTypeId| #[trigger] m1.contains_key(u) == m2.contains_key(u) by {
        if nt.contains(u) {
            let j = choose|j: int| 0 <= j < nt.len() && nt[j] == u;
            if j < p {
                assert(types[j] == u);
            } else if j > p {
                assert(types[j - 1] == u);
            }
        }
        if types.contains(u) {
            let j = choose|j: int| 0 <= j < types.len() && types[j] == u;
            if j < p {
                assert(nt[j] == u);
            } else {
                assert(nt[j + 1] == u);
            }
        }
        if u == t {
            assert(nt[p] == t);
        }
    }
    assert forall|u: ComponentTypeId| m1.contains_key(u) implies m1[u] == m2[u] by {
        let j = choose|j: int| 0 <= j < nt.len() && nt[j] == u;
        lemma_map_of_index(nt, nv, j);
        assert(nt[p] == t);
        if j < p {
            assert(nt[j] == types[j]);
            assert(nt[j].0 < nt[p].0);
            lemma_map_of_index(types, vals, j);
        } else if j > p {
            assert(nt[j] == types[j - 1]);
            assert(nt[p].0 < nt[j].0);
            lemma_map_of_index(types, vals, j - 1);
        }
    }
    assert(m1 =~= m2);
}

/// Removing position `k` of a sorted list removes `types[k]` from the map.
pub proof fn lemma_map_of_remove(types: Seq<ComponentTypeId>, vals: Seq<ComponentValue>, k: int)
    requires
        strictly_sorted(types),
        0 <= k < types.len(),
        vals.len() == types.len(),
    ensures
        strictly_sorted(types.remove(k)),
        map_of(types.remove(k), vals.remove(k)) == map_of(types, vals).remove(types[k]),
{
    let nt = types.remove(k);
    let nv = vals.remove(k);
    assert forall|i: int, j: int| 0 <= i < j < nt.len() implies nt[i].0 < nt[j].0 by {
        let ii = if i < k { i } else { i + 1 };
        let jj = if j < k { j } else { j + 1 };
        assert(nt[i] == types[ii]);
        assert(nt[j] == types[jj]);
    }
    let m1 = map_of(nt, nv);
    let m2 = map_of(types, vals).remove(types[k]);
    assert forall|u: ComponentTypeId| #[trigger] m1.contains_key(u) == m2.contains_key(u) by {
        if nt.contains(u) {
            let j = choose|j: int| 0 <= j < nt.len() && nt[j] == u;
            let jj = if j < k { j } else { j + 1 };
            assert(types[jj] == u);
            assert(types[jj].0 != types[k].0);
        }
        if types.contains(u) && u != types[k] {
            let j = choose|j: int| 0 <= j < types.len() && types[j] == u;
            if j < k {
                assert(nt[j] == u);
            } else {
                assert(j != k);
                assert(nt[j - 1] == u);
            }
        }
    }
    assert forall|u: ComponentTypeId| m1.contains_key(u) implies m1[u] == m2[u] by {
        let j = choose|j: int| 0 <= j < nt.len() && nt[j] == u;
        lemma_map_of_index(nt, nv, j);
        let jj = if j < k { j } else { j + 1 };
        lemma_map_of_index(types, vals, jj);
    }
    assert(m1 =~= m2);
}

/// A helper for building a set of components to pass to `World::spawn_bundle`.
///
/// Entries are kept sorted by component type id, and each component type
/// occurs at most once.
#[derive(Debug)]
pub struct ComponentBundle {
    /// `(type, value)` pairs, strictly increasing by type id.
    entries: Vec<(ComponentTypeId, ComponentValue)>,
}

impl ComponentBundle {
    /// The `(type, value)` pairs, strictly increasing by type id.
    pub closed spec fn items(&self) -> Seq<(ComponentTypeId, ComponentValue)> {
        self.entries@
    }

    /// The component types of the bundle, strictly increasing.
    pub open spec fn types(&self) -> Seq<ComponentTypeId> {
        types_of(self.items())
    }

    /// The components of the bundle as a map.
    pub open spec fn view(&self) -> Map<ComponentTypeId, ComponentValue> {
        map_of(self.types(), values_of(self.items()))
    }

    /// Well-formedness: strictly increasing type ids.
    pub open spec fn wf(&self) -> bool {
        strictly_sorted(self.types())
    }

    /// Create an empty bundle.
    pub fn new() -> (b: Self)
        ensures
            b.wf(),
            b.items() == Seq::<(ComponentTypeId, ComponentValue)>::empty(),
            b.view() == Map::<ComponentTypeId, ComponentValue>::empty(),
    {
        let b = ComponentBundle { entries: Vec::new() };
        assert(b.view() =~= Map::<ComponentTypeId, ComponentValue>::empty());
        b
    }

    /// A bundle holding the given `(type, value)` pairs, which must be
    /// strictly increasing by type.
    pub fn from_sorted(entries: Vec<(ComponentTypeId, ComponentValue)>) -> (b: Self)
        requires
            strictly_sorted(types_of(entries@)),
        ensures
            b.wf(),
            b.items() == entries@,
    {
        ComponentBundle { entries }
    }

    /// Whether the bundle already holds a component of type `type_id`.
    pub fn contains(&self, type_id: ComponentTypeId) -> (b: bool)
        ensures
            b == self.types().contains(type_id),
    {
        let mut i: usize = 0;
        while i < self.entries.len()
            invariant
                i <= self.entries@.len(),
                forall|k: int| 0 <= k < i ==> self.entries@[k].0 != type_id,
            decreases self.entries@.len() - i,
        {
            if self.entries[i].0.0 == type_id.0 {
                assert(self.types()[i as int] == type_id);
                return true;
            }
            i = i + 1;
        }
        proof {
            if self.types().contains(type_id) {
                let k = choose|k: int| 0 <= k < self.types().len() && self.types()[k] == type_id;
                assert(self.entries@[k].0 == type_id);
            }
        }
        false
    }

    /// Add a component value to the bundle, keeping entries sorted by type.
    /// A bundle holds at most one value per component type.
    pub fn add(&mut self, type_id: ComponentTypeId, value: ComponentValue)
        requires
            old(self).wf(),
            !old(self).types().contains(type_id),
        ensures
            final(self).wf(),
            final(self).view() == old(self).view().insert(type_id, value),
            final(self).types().len() == old(self).types().len() + 1,
            final(self).types().to_set() == old(self).types().to_set().insert(type_id),
    {
        let mut p: usize = 0;
        while p < self.entries.len() && self.entries[p].0.0 < type_id.0
            invariant
                p <= self.entries@.len(),
                forall|k: int| 0 <= k < p ==> self.entries@[k].0.0 < type_id.0,
            decreases self.entries@.len() - p,
        {
            p = p + 1;
        }
        let ghost old_entries = self.entries@;
        proof {
            if p < old_entries.len() {
                assert(old_entries[p as int].0 != type_id) by {
                    assert(self.types()[p as int] == old_entries[p as int].0);
                }
            }
        }
        self.entries.insert(p, (type_id, value));
        proof {
            let ot = types_of(old_entries);
            assert(self.types() =~= ot.insert(p as int, type_id));
            assert(values_of(self.entries@) =~= values_of(old_entries).insert(p as int, value));
            assert forall|i: int, j: int|
                0 <= i < j < self.types().len() implies self.types()[i].0 < self.types()[j].0 by {
                if j < p {
                } else if j == p {
                } else if i < p {
                    assert(self.types()[j] == ot[j - 1]);
                    assert(ot[p as int].0 > type_id.0);
                    if j - 1 > p {
                        assert(ot[p as int].0 < ot[j - 1].0);
                    }
                } else if i == p {
                    assert(self.types()[j] == ot[j - 1]);
                    if j - 1 > p {
                        assert(ot[p as int].0 < ot[j - 1].0);
                    }
                } else {
                    assert(self.types()[i] == ot[i - 1]);
                    assert(self.types()[j] == ot[j - 1]);
                }
            }
            lemma_map_of_insert(ot, values_of(old_entries), p as int, type_id, value);
            assert(self.types().to_set() =~= ot.to_set().insert(type_id)) by {
                assert forall|u: ComponentTypeId| self.types().contains(u) <==> (ot.contains(u) || u == type_id) by {
                    if self.types().contains(u) {
                        let j = choose|j: int| 0 <= j < self.types().len() && self.types()[j] == u;
                        if j < p {
                            assert(ot[j] == u);
                        } else if j > p {
                            assert(ot[j - 1] == u);
                        }
                    }
                    if ot.contains(u) {
                        let j = choose|j: int| 0 <= j < ot.len() && ot[j] == u;
                        if j < p {
                            assert(self.types()[j] == u);
                        } else {
                            assert(self.types()[j + 1] == u);
                        }
                    }
                    if u == type_id {
                        assert(self.types()[p as int] == u);
                    }
                }
            }
        }
    }

    /// The sorted set of component type IDs in this bundle.
    pub fn type_ids(&self) -> (ids: Vec<ComponentTypeId>)
        ensures
            ids@ == self.types(),
    {
        let mut ids: Vec<ComponentTypeId> = Vec::new();
        let mut i: usize = 0;
        while i < self.entries.len()
            invariant
                i <= self.entries@.len(),
                ids@ == self.types().take(i as int),
            decreases self.entries@.len() - i,
        {
            ids.push(self.entries[i].0);
            i = i + 1;
        }
        assert(self.types().take(i as int) == self.types());
        ids
    }

    /// Consume the bundle, yielding its `(type, value)` pairs in type order.
    pub fn into_raw_parts(self) -> (parts: Vec<(ComponentTypeId, ComponentValue)>)
        ensures
            parts@ == self.items(),
    {
        self.entries
    }
}

} // verus!
