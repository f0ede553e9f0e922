//! Archetype storage.
//!
//! An [`Archetype`] stores all entities that share the exact same set of
//! component types. Components are laid out Structure-of-Arrays style: one
//! [`Column`] per component type, plus a parallel vector of entity ids that
//! maps row index to entity. Column `k` holds the values of the `k`-th
//! component type, and the component types are kept in strictly increasing
//! id order.
use crate::component::{ComponentInfo, ComponentTypeId};
use crate::entity::EntityId;
use crate::value::ComponentValue;
use vstd::prelude::*;

verus! {

/// Identifies an archetype within the world: its index in the world's
/// archetype list.
#[derive(Debug, Clone, Copy, PartialEq, Eq, Hash, Structural)]
pub struct ArchetypeId(pub u32);

/// Size and alignment of a component type.
#[derive(Debug, Clone, Copy)]
pub struct ComponentVtable {
    /// Size of the component type.
    pub size: usize,
    /// Alignment of the component type.
    pub align: usize,
}

impl ComponentVtable {
    /// The layout of a concrete component type `T`.
    pub fn new<T>() -> (v: Self)
        ensures
            v.size == vstd::layout::size_of::<T>(),
            v.align == vstd::layout::align_of::<T>(),
    {
        ComponentVtable { size: std::mem::size_of::<T>(), align: std::mem::align_of::<T>() }
    }
}

/// A densely packed array of the values of one component type.
#[derive(Debug)]
pub struct Column {
    /// The stored values, one per row.
    values: Vec<ComponentValue>,
    /// Size of a single element's type.
    item_size: usize,
    /// Alignment of a single element's type.
    item_align: usize,
}

impl Column {
    /// The stored values.
    pub closed spec fn vals(&self) -> Seq<ComponentValue> {
        self.values@
    }

    /// Size of a single element's type.
    pub closed spec fn item_size(&self) -> usize {
        self.item_size
    }

    /// Alignment of a single element's type.
    pub closed spec fn item_align(&self) -> usize {
        self.item_align
    }

    /// Create a new, empty column for a component described by `info`.
    pub fn new(info: &ComponentInfo) -> (c: Self)
        ensures
            c.vals() == Seq::<ComponentValue>::empty(),
            c.item_size() == info.size,
            c.item_align() == info.align,
    {
        Column { values: Vec::new(), item_size: info.size, item_align: info.align }
    }

    /// Number of stored elements.
    pub fn len(&self) -> (n: usize)
        ensures
            n == self.vals().len(),
    {
        self.values.len()
    }

    /// Whether the column is empty.
    pub fn is_empty(&self) -> (b: bool)
        ensures
            b == (self.vals().len() == 0),
    {
        self.values.len() == 0
    }
}

/// Whether a sequence of component type ids is strictly increasing.
pub open spec fn strictly_sorted(s: Seq<ComponentTypeId>) -> bool {
    forall|i: int, j: int| 0 <= i < j < s.len() ==> s[i].0 < s[j].0
}

/// An archetype stores all entities that share the exact same set of
/// component types.
#[derive(Debug)]
pub struct Archetype {
    /// Unique identifier of this archetype.
    id: ArchetypeId,
    /// Strictly increasing list of component types in this archetype.
    component_types: Vec<ComponentTypeId>,
    /// One column per component type: `columns[k]` holds the values of
    /// `component_types[k]`.
    columns: Vec<Column>,
    /// One layout per component type.
    vtables: Vec<ComponentVtable>,
    /// Parallel entity ID vector (same indexing as the columns).
    entities: Vec<EntityId>,
}

impl Archetype {
    /// The archetype's id.
    pub closed spec fn aid(&self) -> ArchetypeId {
        self.id
    }

    /// The component types, strictly increasing.
    pub closed spec fn types(&self) -> Seq<ComponentTypeId> {
        self.component_types@
    }

    /// The entities, by row.
    pub closed spec fn ents(&self) -> Seq<EntityId> {
        self.entities@
    }

    /// The value of the `k`-th component type in row `r`.
    pub closed spec fn value(&self, k: int, r: int) -> ComponentValue {
        self.columns@[k].vals()[r]
    }

    /// The values of row `r`, one per component type.
    pub open spec fn row(&self, r: int) -> Seq<ComponentValue> {
        Seq::new(self.types().len(), |k: int| self.value(k, r))
    }

    /// The layouts, one per component type.
    pub closed spec fn layouts(&self) -> Seq<ComponentVtable> {
        self.vtables@
    }

    /// Well-formedness: types strictly increasing, one column and one layout
    /// per type, every column as long as the entity vector.
    pub closed spec fn wf(&self) -> bool {
        &&& strictly_sorted(self.component_types@)
        &&& self.entities@.len() <= usize::MAX
        &&& self.columns@.len() == self.component_types@.len()
        &&& self.vtables@.len() == self.component_types@.len()
        &&& forall|k: int|
            0 <= k < self.columns@.len() ==> (#[trigger] self.columns@[k]).vals().len()
                == self.entities@.len()
    }

    /// Well-formedness implies the types are strictly increasing.
    pub proof fn lemma_wf(&self)
        requires
            self.wf(),
        ensures
            strictly_sorted(self.types()),
            self.layouts().len() == self.types().len(),
            self.ents().len() <= usize::MAX,
    {
    }

    /// Create a new, empty archetype.
    ///
    /// `component_types` must be strictly increasing, and `infos` and
    /// `vtables` must correspond 1:1 with `component_types`.
    pub fn new(
        id: ArchetypeId,
        component_types: Vec<ComponentTypeId>,
        infos: Vec<ComponentInfo>,
        vtables: Vec<ComponentVtable>,
    ) -> (a: Self)
        requires
            strictly_sorted(component_types@),
            infos@.len() == component_types@.len(),
            vtables@.len() == component_types@.len(),
            forall|k: int| 0 <= k < infos@.len() ==> (#[trigger] infos@[k]).id == component_types@[k],
        ensures
            a.wf(),
            a.aid() == id,
            a.types() == component_types@,
            a.ents() == Seq::<EntityId>::empty(),
            a.layouts() == vtables@,
    {
        let mut columns: Vec<Column> = Vec::new();
        let mut i: usize = 0;
        while i < infos.len()
            invariant
                i <= infos@.len(),
                columns@.len() == i,
                forall|k: int| 0 <= k < i ==> (#[trigger] columns@[k]).vals().len() == 0,
            decreases infos@.len() - i,
        {
            columns.push(Column::new(&infos[i]));
            i = i + 1;
        }
        Archetype { id, component_types, columns, vtables, entities: Vec::new() }
    }

    /// Binary search for the column of a component type.
    pub fn column_index(&self, type_id: ComponentTypeId) -> (r: Option<usize>)
        requires
            self.wf(),
        ensures
            match r {
                Some(k) => k < self.types().len() && self.types()[k as int] == type_id,
                None => !self.types().contains(type_id),
            },
    {
        let mut lo: usize = 0;
        let mut hi: usize = self.component_types.len();
        while lo < hi
            invariant
                self.wf(),
                lo <= hi <= self.component_types@.len(),
                forall|k: int| 0 <= k < lo ==> self.component_types@[k].0 < type_id.0,
                forall|k: int| hi <= k < self.component_types@.len() ==> self.component_types@[k].0
                    > type_id.0,
            decreases hi - lo,
        {
            let mid = lo + (hi - lo) / 2;
            let t = self.component_types[mid];
            if t.0 == type_id.0 {
                return Some(mid);
            } else if t.0 < type_id.0 {
                lo = mid + 1;
            } else {
                hi = mid;
            }
        }
        proof {
            if self.types().contains(type_id) {
                let k = choose|k: int| 0 <= k < self.types().len() && self.types()[k] == type_id;
                assert(self.component_types@[k] == type_id);
            }
        }
        None
    }

    /// The archetype's unique ID.
    pub fn id(&self) -> (i: ArchetypeId)
        ensures
            i == self.aid(),
    {
        self.id
    }

    /// The strictly increasing set of component type IDs of this archetype.
    pub fn component_types(&self) -> (t: &[ComponentTypeId])
        ensures
            t@ == self.types(),
    {
        self.component_types.as_slice()
    }

    /// Whether this archetype contains the given component type.
    pub fn has_component(&self, type_id: ComponentTypeId) -> (b: bool)
        requires
            self.wf(),
        ensures
            b == self.types().contains(type_id),
    {
        self.column_index(type_id).is_some()
    }

    /// Number of entities stored in this archetype.
    pub fn len(&self) -> (n: usize)
        ensures
            n == self.ents().len(),
    {
        self.entities.len()
    }

    /// Whether this archetype is empty.
    pub fn is_empty(&self) -> (b: bool)
        ensures
            b == (self.ents().len() == 0),
    {
        self.entities.len() == 0
    }

    /// The entity IDs stored in this archetype.
    pub fn entities(&self) -> (e: &[EntityId])
        ensures
            e@ == self.ents(),
    {
        self.entities.as_slice()
    }

    /// Add an entity with its component values, one per component type of
    /// this archetype, in the archetype's type order. Returns the new row.
    pub fn add_entity(&mut self, entity: EntityId, components: Vec<(ComponentTypeId, ComponentValue)>) -> (row:
        usize)
        requires
            old(self).wf(),
            components@.len() == old(self).types().len(),
            forall|k: int|
                0 <= k < components@.len() ==> (#[trigger] components@[k]).0 == old(self).types()[k],
        ensures
            final(self).wf(),
            row == old(self).ents().len(),
            final(self).aid() == old(self).aid(),
            final(self).types() == old(self).types(),
            final(self).layouts() == old(self).layouts(),
            final(self).ents() == old(self).ents().push(entity),
            forall|r: int| 0 <= r < row ==> final(self).row(r) == old(self).row(r),
            forall|k: int| 0 <= k < components@.len() ==> final(self).value(k, row as int) == (
            #[trigger] components@[k]).1,
    {
        let row = self.entities.len();
        self.entities.push(entity);
        let _n = self.entities.len();
        let mut components = components;
        let ghost comps = components@;
        while components.len() > 0
            invariant
                strictly_sorted(self.component_types@),
                self.columns@.len() == self.component_types@.len(),
                self.vtables@.len() == self.component_types@.len(),
                self.entities@.len() == row + 1,
                self.entities@.len() <= usize::MAX,
                self.component_types@ == old(self).component_types@,
                self.vtables@ == old(self).vtables@,
                self.id == old(self).id,
                self.entities@ == old(self).entities@.push(entity),
                components@.len() <= comps.len(),
                components@ == comps.take(components@.len() as int),
                comps.len() == self.columns@.len(),
                forall|k: int|
                    0 <= k < components@.len() ==> (#[trigger] self.columns@[k]).vals() == old(
                        self,
                    ).columns@[k].vals(),
                forall|k: int|
                    components@.len() <= k < self.columns@.len() ==> (#[trigger] self.columns@[k]).vals()
                        == old(self).columns@[k].vals().push(comps[k].1),
                forall|k: int| 0 <= k < old(self).columns@.len() ==> (#[trigger] old(self).columns@[k]).vals().len() == row,
            decreases components@.len(),
        {
            let k = components.len() - 1;
            let ghost before = components@;
            let (_t, v) = components.pop().unwrap();
            assert(v == comps[k as int].1);
            self.columns[k].values.push(v);
            assert(components@ =~= comps.take(components@.len() as int));
        }
        proof {
            assert forall|k: int|
                0 <= k < self.columns@.len() implies (#[trigger] self.columns@[k]).vals().len()
                    == self.entities@.len() by {}
            assert forall|r: int| 0 <= r < row implies self.row(r) == old(self).row(r) by {
                assert(self.row(r) =~= old(self).row(r));
            }
        }
        row
    }

    /// Remove the entity at `row`, moving the last entity into its place to
    /// keep storage dense. Returns the removed row's values, one per
    /// component type, and the entity that was moved into `row`, if any.
    pub fn remove_entity_and_move(&mut self, row: usize) -> (res: (Option<EntityId>, Vec<(ComponentTypeId, ComponentValue)>))
        requires
            old(self).wf(),
            row < old(self).ents().len(),
        ensures
            final(self).wf(),
            final(self).aid() == old(self).aid(),
            final(self).types() == old(self).types(),
            final(self).layouts() == old(self).layouts(),
            final(self).ents() == old(self).ents().update(row as int, old(self).ents().last()).drop_last(),
            forall|r: int|
                0 <= r < final(self).ents().len() ==> final(self).row(r) == (if r == row {
                    old(self).row(old(self).ents().len() - 1)
                } else {
                    old(self).row(r)
                }),
            res.0 == (if row + 1 < old(self).ents().len() {
                Some(old(self).ents().last())
            } else {
                None
            }),
            res.1@.len() == old(self).types().len(),
            forall|k: int|
                0 <= k < res.1@.len() ==> (#[trigger] res.1@[k]).0 == old(self).types()[k] && res.1@[k].1
                    == old(self).value(k, row as int),
    {
        let last = self.entities.len() - 1;
        self.entities.swap_remove(row);
        let mut out: Vec<(ComponentTypeId, ComponentValue)> = Vec::new();
        let mut k: usize = 0;
        while k < self.columns.len()
            invariant
                strictly_sorted(self.component_types@),
                self.columns@.len() == self.component_types@.len(),
                self.vtables@.len() == self.component_types@.len(),
                self.component_types@ == old(self).component_types@,
                self.vtables@ == old(self).vtables@,
                self.id == old(self).id,
                self.columns@.len() == old(self).columns@.len(),
                k <= self.columns@.len(),
                last + 1 == old(self).entities@.len(),
                row <= last,
                self.entities@ == old(self).entities@.update(row as int, old(self).entities@.last()).drop_last(),
                forall|j: int| 0 <= j < old(self).columns@.len() ==> (#[trigger] old(self).columns@[j]).vals().len() == last + 1,
                forall|j: int| k <= j < self.columns@.len() ==> (#[trigger] self.columns@[j]).vals() == old(self).columns@[j].vals(),
                forall|j: int| 0 <= j < k ==> (#[trigger] self.columns@[j]).vals() == old(self).columns@[j].vals().update(row as int, old(self).columns@[j].vals().last()).drop_last(),
                out@.len() == k,
                forall|j: int| 0 <= j < k ==> (#[trigger] out@[j]).0 == old(self).component_types@[j] && out@[j].1 == old(self).columns@[j].vals()[row as int],
            decreases self.columns@.len() - k,
        {
            let v = self.columns[k].values.swap_remove(row);
            let t = self.component_types[k];
            out.push((t, v));
            k = k + 1;
        }
        proof {
            assert forall|j: int|
                0 <= j < self.columns@.len() implies (#[trigger] self.columns@[j]).vals().len()
                    == self.entities@.len() by {}
            assert forall|r: int| 0 <= r < self.ents().len() implies self.row(r) == (if r == row {
                old(self).row(old(self).ents().len() - 1)
            } else {
                old(self).row(r)
            }) by {
                if r == row {
                    assert(self.row(r) =~= old(self).row(old(self).ents().len() - 1));
                } else {
                    assert(self.row(r) =~= old(self).row(r));
                }
            }
        }
        if row < last {
            (Some(self.entities[row]), out)
        } else {
            (None, out)
        }
    }

    /// Remove the entity at `row`, dropping its components, using swap-remove
    /// to keep storage dense. Returns the entity that was moved into `row`,
    /// if any.
    pub fn remove_entity(&mut self, row: usize) -> (moved: Option<EntityId>)
        requires
            old(self).wf(),
            row < old(self).ents().len(),
        ensures
            final(self).wf(),
            final(self).aid() == old(self).aid(),
            final(self).types() == old(self).types(),
            final(self).layouts() == old(self).layouts(),
            final(self).ents() == old(self).ents().update(row as int, old(self).ents().last()).drop_last(),
            forall|r: int|
                0 <= r < final(self).ents().len() ==> final(self).row(r) == (if r == row {
                    old(self).row(old(self).ents().len() - 1)
                } else {
                    old(self).row(r)
                }),
            moved == (if row + 1 < old(self).ents().len() {
                Some(old(self).ents().last())
            } else {
                None
            }),
    {
        let (moved, _removed) = self.remove_entity_and_move(row);
        moved
    }

    /// The value of a component in a row.
    pub fn get_component(&self, row: usize, type_id: ComponentTypeId) -> (r: Option<&ComponentValue>)
        requires
            self.wf(),
        ensures
            match r {
                Some(v) => row < self.ents().len() && exists|k: int|
                    0 <= k < self.types().len() && self.types()[k] == type_id && *v == self.value(k, row as int),
                None => row >= self.ents().len() || !self.types().contains(type_id),
            },
    {
        match self.column_index(type_id) {
            Some(k) => {
                if row < self.columns[k].values.len() {
                    Some(&self.columns[k].values[row])
                } else {
                    None
                }
            },
            None => None,
        }
    }

    /// Replace the value of a component in a row. Returns `false`, changing
    /// nothing, when the row or the component type is absent.
    pub fn replace_component(&mut self, row: usize, type_id: ComponentTypeId, value: ComponentValue) -> (done: bool)
        requires
            old(self).wf(),
        ensures
            final(self).wf(),
            final(self).aid() == old(self).aid(),
            final(self).types() == old(self).types(),
            final(self).layouts() == old(self).layouts(),
            final(self).ents() == old(self).ents(),
            done == (row < old(self).ents().len() && old(self).types().contains(type_id)),
            forall|r: int|
                0 <= r < final(self).ents().len() && r != row ==> final(self).row(r) == old(self).row(r),
            done ==> forall|k: int|
                0 <= k < final(self).types().len() ==> #[trigger] final(self).value(k, row as int) == if final(self).types()[k] == type_id {
                    value
                } else {
                    old(self).value(k, row as int)
                },
            !done ==> final(self).row(row as int) == old(self).row(row as int),
    {
        match self.column_index(type_id) {
            Some(k) => {
                if row < self.columns[k].values.len() {
                    self.columns[k].values.set(row, value);
                    proof {
                        assert forall|j: int|
                            0 <= j < self.columns@.len() implies (#[trigger] self.columns@[j]).vals().len()
                                == self.entities@.len() by {
                            if j != k {
                                assert(self.columns@[j] == old(self).columns@[j]);
                            }
                        }
                        assert forall|r: int| 0 <= r < self.ents().len() && r != row implies self.row(r) == old(self).row(r) by {
                            assert forall|j: int| 0 <= j < self.types().len() implies self.value(j, r) == old(self).value(j, r) by {
                                if j != k {
                                    assert(self.columns@[j] == old(self).columns@[j]);
                                }
                            }
                            assert(self.row(r) =~= old(self).row(r));
                        }
                        assert forall|j: int| 0 <= j < self.types().len() implies #[trigger] self.value(j, row as int) == if self.types()[j] == type_id {
                            value
                        } else {
                            old(self).value(j, row as int)
                        } by {
                            if j != k {
                                assert(self.columns@[j] == old(self).columns@[j]);
                                assert(self.types()[j].0 != self.types()[k as int].0);
                            }
                        }
                    }
                    true
                } else {
                    false
                }
            },
            None => false,
        }
    }

    /// Get the layout for a given component type in this archetype.
    pub fn vtable(&self, type_id: ComponentTypeId) -> (r: Option<&ComponentVtable>)
        requires
            self.wf(),
        ensures
            match r {
                Some(v) => exists|k: int|
                    0 <= k < self.types().len() && self.types()[k] == type_id && *v == self.layouts()[k],
                None => !self.types().contains(type_id),
            },
    {
        match self.column_index(type_id) {
            Some(k) => Some(&self.vtables[k]),
            None => None,
        }
    }
}

} // verus!
