//! Component type registration and metadata.
//!
//! Every component type used in the ECS is registered at runtime in a
//! [`ComponentRegistry`]. Registration produces a [`ComponentTypeId`] that is
//! used as the key for archetype column lookups and query matching.
use crate::strings::{chars_lt, chars_of, join_strs, joined, seq_lt, str_eq, views_of};
use std::any::TypeId;
use vstd::prelude::*;

verus! {

/// Lets contracts speak of `std::any::TypeId` values; they are compared only
/// for equality.
#[verifier::external_type_specification]
#[verifier::external_body]
pub struct ExTypeId(std::any::TypeId);

/// Trusted: `TypeId` is `Copy`, and its `Clone` gives back the same value.
pub assume_specification[ <TypeId as Clone>::clone ](t: &TypeId) -> (r: TypeId)
    ensures
        r == *t,
;

/// The `TypeId` of `T`.
///
/// Trusted: calls `std::any::TypeId::of::<T>()`. Nothing is claimed about the
/// value beyond its type.
#[verifier::external_body]
fn type_id_of<T: ?Sized + 'static>() -> TypeId {
    TypeId::of::<T>()
}

/// Compares two `TypeId`s.
///
/// Trusted: calls `<TypeId as PartialEq>::eq`, which compares the identifiers
/// field by field, so it answers `true` exactly when the values are equal.
#[verifier::external_body]
fn type_ids_equal(a: &TypeId, b: &TypeId) -> (r: bool)
    ensures
        r == (*a == *b),
{
    *a == *b
}

/// Opaque, lightweight identifier for a registered component type.
#[derive(Clone, Copy, Debug, PartialEq, Eq, Hash, PartialOrd, Ord, Structural)]
pub struct ComponentTypeId(pub u32);

/// Metadata about a registered component type.
#[derive(Debug, Clone)]
pub struct ComponentInfo {
    /// Unique ID assigned at registration time.
    pub id: ComponentTypeId,
    /// Human-readable name (supplied by the caller).
    pub name: String,
    /// `std::mem::size_of::<T>()`
    pub size: usize,
    /// `std::mem::align_of::<T>()`
    pub align: usize,
    /// Rust `TypeId` for runtime type checking.
    pub type_id: TypeId,
}

impl ComponentInfo {
    /// A field-by-field copy of this metadata.
    pub fn duplicate(&self) -> (c: ComponentInfo)
        ensures
            c.id == self.id,
            c.name@ == self.name@,
            c.size == self.size,
            c.align == self.align,
            c.type_id == self.type_id,
    {
        ComponentInfo {
            id: self.id,
            name: self.name.clone(),
            size: self.size,
            align: self.align,
            type_id: self.type_id,
        }
    }
}

/// Number of component ids that fit in a `u32`.
pub open spec fn id_space() -> nat {
    0x1_0000_0000
}

/// Registry mapping Rust types and names to [`ComponentTypeId`]s and their
/// metadata.
///
/// A type registered with [`register`](Self::register) is registered once;
/// later registrations of the same Rust `TypeId` return the existing id. A
/// name is registered once; dynamic registrations of a known name return the
/// existing id.
#[derive(Debug)]
pub struct ComponentRegistry {
    /// Indexed by `ComponentTypeId.0`.
    infos: Vec<ComponentInfo>,
    /// `by_type[i]` tells whether entry `i` is found by its Rust type.
    by_type: Vec<bool>,
}

impl ComponentRegistry {
    /// The registered entries, indexed by id.
    pub closed spec fn entries(&self) -> Seq<ComponentInfo> {
        self.infos@
    }

    /// For each entry, whether it can be found by its Rust type (typed
    /// registration) or only by name (dynamic registration).
    pub closed spec fn typed(&self) -> Seq<bool> {
        self.by_type@
    }

    /// Number of registered component types.
    pub open spec fn count(&self) -> nat {
        self.entries().len()
    }

    /// Whether entry `i` carries `name`.
    pub open spec fn named(&self, name: Seq<char>, i: int) -> bool {
        0 <= i < self.entries().len() && self.entries()[i].name@ == name
    }

    /// Whether entry `i` is found by the Rust type `key`.
    pub open spec fn keyed(&self, key: TypeId, i: int) -> bool {
        0 <= i < self.entries().len() && self.typed()[i] && self.entries()[i].type_id == key
    }

    /// The id registered under `name`, if any.
    pub open spec fn id_for_name(&self, name: Seq<char>) -> Option<ComponentTypeId> {
        if exists|i: int| self.named(name, i) {
            Some(self.entries()[choose|i: int| self.named(name, i)].id)
        } else {
            None
        }
    }

    /// The id registered for the Rust type `key`, if any.
    pub open spec fn id_for_type(&self, key: TypeId) -> Option<ComponentTypeId> {
        if exists|i: int| self.keyed(key, i) {
            Some(self.entries()[choose|i: int| self.keyed(key, i)].id)
        } else {
            None
        }
    }

    /// Whether `id` names a registered component type.
    pub open spec fn registered(&self, id: ComponentTypeId) -> bool {
        (id.0 as int) < self.count()
    }

    /// Well-formedness: ids are indices, names are distinct, and typed entries
    /// have distinct Rust types.
    pub open spec fn wf(&self) -> bool {
        &&& self.typed().len() == self.entries().len()
        &&& self.entries().len() <= id_space()
        &&& forall|i: int| 0 <= i < self.entries().len() ==> (#[trigger] self.entries()[i]).id.0 == i
        &&& forall|i: int, j: int|
            0 <= i < self.entries().len() && 0 <= j < self.entries().len() && i != j ==> (
            #[trigger] self.entries()[i]).name@ != (#[trigger] self.entries()[j]).name@
        &&& forall|i: int, j: int|
            #![trigger self.keyed(self.entries()[i].type_id, i), self.keyed(self.entries()[j].type_id, j)]
            self.keyed(self.entries()[i].type_id, i) && self.keyed(self.entries()[j].type_id, j) && i
                != j ==> self.entries()[i].type_id != self.entries()[j].type_id
    }

    /// Create an empty registry.
    pub fn new() -> (r: Self)
        ensures
            r.wf(),
            r.count() == 0,
    {
        ComponentRegistry { infos: Vec::new(), by_type: Vec::new() }
    }

    /// The index of the entry named `name`, if any.
    fn find_name(&self, name: &str) -> (r: Option<usize>)
        requires
            self.wf(),
        ensures
            match r {
                Some(i) => self.named(name@, i as int),
                None => forall|i: int| !self.named(name@, i),
            },
    {
        let mut i: usize = 0;
        while i < self.infos.len()
            invariant
                self.wf(),
                i <= self.infos@.len(),
                forall|k: int| 0 <= k < i ==> !self.named(name@, k),
            decreases self.infos@.len() - i,
        {
            if str_eq(self.infos[i].name.as_str(), name) {
                return Some(i);
            }
            i = i + 1;
        }
        None
    }

    /// The index of the typed entry for `key`, if any.
    fn find_type(&self, key: &TypeId) -> (r: Option<usize>)
        requires
            self.wf(),
        ensures
            match r {
                Some(i) => self.keyed(*key, i as int),
                None => forall|i: int| !self.keyed(*key, i),
            },
    {
        let mut i: usize = 0;
        while i < self.infos.len()
            invariant
                self.wf(),
                i <= self.infos@.len(),
                forall|k: int| 0 <= k < i ==> !self.keyed(*key, k),
            decreases self.infos@.len() - i,
        {
            if self.by_type[i] && type_ids_equal(&self.infos[i].type_id, key) {
                return Some(i);
            }
            i = i + 1;
        }
        None
    }

    proof fn lemma_name_unique(&self, name: Seq<char>, i: int)
        requires
            self.wf(),
            self.named(name, i),
        ensures
            self.id_for_name(name) == Some(ComponentTypeId(i as u32)),
    {
        let j = choose|j: int| self.named(name, j);
        assert(self.named(name, j));
        assert(i == j);
    }

    /// The id registered under the name of a registered type is that type.
    pub proof fn lemma_id_for_entry_name(&self, t: ComponentTypeId)
        requires
            self.wf(),
            self.registered(t),
        ensures
            self.id_for_name(self.entries()[t.0 as int].name@) == Some(t),
    {
        self.lemma_name_unique(self.entries()[t.0 as int].name@, t.0 as int);
    }

    /// A name the registry knows is the name of the entry of its id; two
    /// different known names have different ids.
    pub proof fn lemma_known_name(&self, n: Seq<char>, m: Seq<char>)
        requires
            self.wf(),
            self.id_for_name(n) is Some,
        ensures
            self.registered(self.id_for_name(n)->0),
            self.entries()[(self.id_for_name(n)->0).0 as int].name@ == n,
            self.id_for_name(m) == self.id_for_name(n) ==> m == n,
    {
        let i = choose|i: int| self.named(n, i);
        self.lemma_name_unique(n, i);
        if self.id_for_name(m) == self.id_for_name(n) {
            let j = choose|j: int| self.named(m, j);
            self.lemma_name_unique(m, j);
        }
    }

    proof fn lemma_type_unique(&self, key: TypeId, i: int)
        requires
            self.wf(),
            self.keyed(key, i),
        ensures
            self.id_for_type(key) == Some(ComponentTypeId(i as u32)),
    {
        let j = choose|j: int| self.keyed(key, j);
        assert(self.keyed(key, j));
        assert(self.keyed(self.entries()[i].type_id, i));
        assert(self.keyed(self.entries()[j].type_id, j));
        assert(i == j);
    }

    /// Appends a new entry; the name must be new.
    fn push_entry(&mut self, key: TypeId, name: &str, size: usize, align: usize, typed: bool) -> (id:
        ComponentTypeId)
        requires
            old(self).wf(),
            old(self).count() < id_space(),
            forall|i: int| !old(self).named(name@, i),
            typed ==> forall|i: int| !old(self).keyed(key, i),
        ensures
            final(self).wf(),
            id.0 == old(self).count(),
            final(self).count() == old(self).count() + 1,
            final(self).entries().drop_last() == old(self).entries(),
            final(self).typed() == old(self).typed().push(typed),
            final(self).entries().last().id == id,
            final(self).entries().last().name@ == name@,
            final(self).entries().last().size == size,
            final(self).entries().last().align == align,
            final(self).entries().last().type_id == key,
            final(self).id_for_name(name@) == Some(id),
            typed ==> final(self).id_for_type(key) == Some(id),
            forall|n: Seq<char>| n != name@ ==> final(self).id_for_name(n) == old(self).id_for_name(n),
            forall|k: TypeId|
                (k != key || !typed) ==> final(self).id_for_type(k) == old(self).id_for_type(k),
    {
        let id = ComponentTypeId(self.infos.len() as u32);
        let info = ComponentInfo { id, name: name.to_owned(), size, align, type_id: key };
        self.infos.push(info);
        self.by_type.push(typed);
        proof {
            let n = old(self).count() as int;
            assert(self.entries().drop_last() == old(self).entries());
            assert forall|i: int| 0 <= i < n + 1 implies (#[trigger] self.entries()[i]).id.0 == i by {
                if i < n {
                    assert(self.entries()[i] == old(self).entries()[i]);
                }
            }
            assert forall|i: int, j: int|
                0 <= i < n + 1 && 0 <= j < n + 1 && i != j implies (
                #[trigger] self.entries()[i]).name@ != (#[trigger] self.entries()[j]).name@ by {
                if i < n && j < n {
                    assert(self.entries()[i] == old(self).entries()[i]);
                    assert(self.entries()[j] == old(self).entries()[j]);
                } else if i < n {
                    assert(self.entries()[i] == old(self).entries()[i]);
                    assert(!old(self).named(name@, i));
                } else {
                    assert(self.entries()[j] == old(self).entries()[j]);
                    assert(!old(self).named(name@, j));
                }
            }
            assert forall|i: int| 0 <= i < n implies self.keyed(self.entries()[i].type_id, i)
                == old(self).keyed(old(self).entries()[i].type_id, i) by {
                assert(self.entries()[i] == old(self).entries()[i]);
            }
            assert forall|i: int, j: int|
                #![trigger self.keyed(self.entries()[i].type_id, i), self.keyed(self.entries()[j].type_id, j)]
                self.keyed(self.entries()[i].type_id, i) && self.keyed(self.entries()[j].type_id, j) && i
                    != j implies self.entries()[i].type_id != self.entries()[j].type_id by {
                if i < n && j < n {
                    assert(old(self).keyed(old(self).entries()[i].type_id, i));
                    assert(old(self).keyed(old(self).entries()[j].type_id, j));
                } else if i < n {
                    assert(old(self).keyed(old(self).entries()[i].type_id, i));
                    assert(self.entries()[j].type_id == key);
                } else {
                    assert(old(self).keyed(old(self).entries()[j].type_id, j));
                    assert(self.entries()[i].type_id == key);
                }
            }
            assert(self.named(name@, n));
            self.lemma_name_unique(name@, n);
            if typed {
                assert(self.keyed(key, n));
                self.lemma_type_unique(key, n);
            }
            assert forall|nm: Seq<char>| nm != name@ implies self.id_for_name(nm) == old(
                self,
            ).id_for_name(nm) by {
                assert forall|i: int| self.named(nm, i) == old(self).named(nm, i) by {
                    if 0 <= i < n {
                        assert(self.entries()[i] == old(self).entries()[i]);
                    }
                }
            }
            assert forall|k: TypeId| (k != key || !typed) implies self.id_for_type(k) == old(
                self,
            ).id_for_type(k) by {
                assert forall|i: int| self.keyed(k, i) == old(self).keyed(k, i) by {
                    if 0 <= i < n {
                        assert(self.entries()[i] == old(self).entries()[i]);
                    }
                }
            }
        }
        id
    }

    /// Register a component type, identified by its Rust `TypeId`, under
    /// `name`.
    ///
    /// If the type has already been registered, the existing id is returned
    /// and `name` is ignored.
    pub fn register_type(&mut self, key: TypeId, name: &str, size: usize, align: usize) -> (id:
        ComponentTypeId)
        requires
            old(self).wf(),
            old(self).count() < id_space(),
            old(self).id_for_type(key) is Some || old(self).id_for_name(name@) is None,
        ensures
            final(self).wf(),
            old(self).id_for_type(key) is Some ==> {
                &&& Some(id) == old(self).id_for_type(key)
                &&& final(self).entries() == old(self).entries()
                &&& final(self).typed() == old(self).typed()
            },
            old(self).id_for_type(key) is None ==> {
                &&& id.0 == old(self).count()
                &&& final(self).entries().drop_last() == old(self).entries()
                &&& final(self).typed() == old(self).typed().push(true)
                &&& final(self).entries().last().id == id
                &&& final(self).entries().last().name@ == name@
                &&& final(self).entries().last().size == size
                &&& final(self).entries().last().align == align
                &&& final(self).entries().last().type_id == key
            },
            final(self).id_for_type(key) == Some(id),
    {
        match self.find_type(&key) {
            Some(i) => {
                proof {
                    self.lemma_type_unique(key, i as int);
                }
                self.infos[i].id
            },
            None => {
                proof {
                    if exists|i: int| old(self).named(name@, i) {
                        let i = choose|i: int| old(self).named(name@, i);
                        assert(old(self).named(name@, i));
                    }
                }
                self.push_entry(key, name, size, align, true)
            },
        }
    }

    /// Register a component type `T` under `name`.
    ///
    /// If the type has already been registered, the existing id is returned
    /// and `name` is ignored. If the type is new but `name` already belongs
    /// to another entry, the name is taken by a different type: the registry
    /// is left unchanged and `None` is returned.
    pub fn register<T: 'static>(&mut self, name: &str) -> (r: Option<ComponentTypeId>)
        requires
            old(self).wf(),
            old(self).count() < id_space(),
        ensures
            final(self).wf(),
            exists|key: TypeId|
                {
                    &&& old(self).id_for_type(key) is Some ==> {
                        &&& r == old(self).id_for_type(key)
                        &&& final(self).entries() == old(self).entries()
                        &&& final(self).typed() == old(self).typed()
                    }
                    &&& (old(self).id_for_type(key) is None && old(self).id_for_name(name@) is Some)
                        ==> {
                        &&& r is None
                        &&& final(self).entries() == old(self).entries()
                        &&& final(self).typed() == old(self).typed()
                    }
                    &&& (old(self).id_for_type(key) is None && old(self).id_for_name(name@) is None)
                        ==> {
                        &&& r is Some
                        &&& (r->0).0 == old(self).count()
                        &&& final(self).entries().drop_last() == old(self).entries()
                        &&& final(self).typed() == old(self).typed().push(true)
                        &&& final(self).entries().last().id == r->0
                        &&& final(self).entries().last().name@ == name@
                        &&& final(self).entries().last().size == vstd::layout::size_of::<T>()
                        &&& final(self).entries().last().align == vstd::layout::align_of::<T>()
                        &&& final(self).entries().last().type_id == key
                    }
                },
            registration_step(*old(self), *final(self), name@),
    {
        let key = type_id_of::<T>();
        if self.find_type(&key).is_none() {
            if let Some(i) = self.find_name(name) {
                proof {
                    self.lemma_name_unique(name@, i as int);
                    assert forall|j: int| !self.keyed(key, j) by {}
                }
                return None;
            }
        }
        let size = std::mem::size_of::<T>();
        let align = std::mem::align_of::<T>();
        proof {
            if exists|j: int| old(self).keyed(key, j) {
                let j = choose|j: int| old(self).keyed(key, j);
                assert(old(self).keyed(key, j));
            }
            if exists|j: int| old(self).named(name@, j) {
                let j = choose|j: int| old(self).named(name@, j);
                assert(old(self).named(name@, j));
            }
        }
        Some(self.register_type(key, name, size, align))
    }

    /// Register a dynamic component type by name.
    ///
    /// Unlike [`register`](Self::register), this creates a unique id per name
    /// even if the backing Rust type is the same. Returns the existing id if
    /// the name is already registered.
    pub fn register_dynamic<T: 'static>(&mut self, name: &str) -> (id: ComponentTypeId)
        requires
            old(self).wf(),
            old(self).count() < id_space(),
        ensures
            final(self).wf(),
            old(self).id_for_name(name@) is Some ==> {
                &&& Some(id) == old(self).id_for_name(name@)
                &&& final(self).entries() == old(self).entries()
                &&& final(self).typed() == old(self).typed()
            },
            old(self).id_for_name(name@) is None ==> {
                &&& id.0 == old(self).count()
                &&& final(self).entries().drop_last() == old(self).entries()
                &&& final(self).typed() == old(self).typed().push(false)
                &&& final(self).entries().last().id == id
                &&& final(self).entries().last().name@ == name@
                &&& final(self).entries().last().size == vstd::layout::size_of::<T>()
                &&& final(self).entries().last().align == vstd::layout::align_of::<T>()
            },
            final(self).id_for_name(name@) == Some(id),
            registration_step(*old(self), *final(self), name@),
    {
        if let Some(i) = self.find_name(name) {
            proof {
                self.lemma_name_unique(name@, i as int);
            }
            return self.infos[i].id;
        }
        let key = type_id_of::<T>();
        let size = std::mem::size_of::<T>();
        let align = std::mem::align_of::<T>();
        self.push_entry(key, name, size, align, false)
    }

    /// Look up a component type by its Rust `TypeId`.
    pub fn lookup_type(&self, key: &TypeId) -> (r: Option<ComponentTypeId>)
        requires
            self.wf(),
        ensures
            r == self.id_for_type(*key),
    {
        match self.find_type(key) {
            Some(i) => {
                proof {
                    self.lemma_type_unique(*key, i as int);
                }
                Some(self.infos[i].id)
            },
            None => None,
        }
    }

    /// Look up a component type by the Rust type `T`.
    pub fn lookup<T: 'static>(&self) -> (r: Option<ComponentTypeId>)
        requires
            self.wf(),
        ensures
            exists|key: TypeId| r == self.id_for_type(key),
    {
        let key = type_id_of::<T>();
        self.lookup_type(&key)
    }

    /// Look up a component type by its registered string name.
    pub fn lookup_by_name(&self, name: &str) -> (r: Option<ComponentTypeId>)
        requires
            self.wf(),
        ensures
            r == self.id_for_name(name@),
    {
        match self.find_name(name) {
            Some(i) => {
                proof {
                    self.lemma_name_unique(name@, i as int);
                }
                Some(self.infos[i].id)
            },
            None => None,
        }
    }

    /// Get the [`ComponentInfo`] for a registered component type ID.
    pub fn get_info(&self, id: ComponentTypeId) -> (r: Option<&ComponentInfo>)
        requires
            self.wf(),
        ensures
            self.registered(id) ==> r == Some(&self.entries()[id.0 as int]),
            !self.registered(id) ==> r is None,
    {
        if (id.0 as usize) < self.infos.len() {
            Some(&self.infos[id.0 as usize])
        } else {
            None
        }
    }

    /// The name of a registered component type.
    pub fn name_of(&self, id: ComponentTypeId) -> (r: &str)
        requires
            self.wf(),
            self.registered(id),
        ensures
            r@ == self.entries()[id.0 as int].name@,
    {
        self.infos[id.0 as usize].name.as_str()
    }

    /// Total number of registered component types.
    pub fn len(&self) -> (n: usize)
        ensures
            n == self.count(),
    {
        self.infos.len()
    }

    /// Whether any component types have been registered.
    pub fn is_empty(&self) -> (b: bool)
        ensures
            b == (self.count() == 0),
    {
        self.infos.len() == 0
    }

    /// Whether `s` is the name of some entry.
    pub open spec fn has_name(&self, s: Seq<char>) -> bool {
        exists|j: int| self.named(s, j)
    }

    /// Returns the names of all registered component types, sorted.
    pub fn registered_names(&self) -> (names: Vec<&str>)
        requires
            self.wf(),
        ensures
            names@.len() == self.count(),
            forall|i: int| 0 <= i < names@.len() ==> self.has_name(#[trigger] names@[i]@),
            forall|j: int|
                0 <= j < self.count() ==> lists_name(names@, (#[trigger] self.entries()[j]).name@),
            forall|i: int, k: int| 0 <= i < k < names@.len() ==> seq_lt(names@[i]@, names@[k]@),
    {
        let mut names: Vec<&str> = Vec::new();
        let mut keys: Vec<Vec<char>> = Vec::new();
        let mut n: usize = 0;
        while n < self.infos.len()
            invariant
                self.wf(),
                n <= self.infos@.len(),
                names@.len() == n,
                keys@.len() == n,
                forall|i: int| 0 <= i < n ==> (#[trigger] keys@[i])@ == names@[i]@,
                forall|i: int| 0 <= i < n ==> self.named_before(#[trigger] names@[i]@, n as int),
                forall|j: int|
                    0 <= j < n ==> lists_name(names@, (#[trigger] self.entries()[j]).name@),
                forall|i: int, k: int| 0 <= i < k < n ==> seq_lt(names@[i]@, names@[k]@),
            decreases self.infos@.len() - n,
        {
            let name = self.infos[n].name.as_str();
            let key = chars_of(name);
            let mut p: usize = 0;
            while p < keys.len() && chars_lt(keys[p].as_slice(), key.as_slice())
                invariant
                    p <= keys@.len(),
                    keys@.len() == n,
                    forall|i: int| 0 <= i < n ==> (#[trigger] keys@[i])@ == names@[i]@,
                    forall|i: int| 0 <= i < p ==> seq_lt(names@[i]@, key@),
                decreases keys@.len() - p,
            {
                p = p + 1;
            }
            proof {
                assert forall|i: int| 0 <= i < n implies names@[i]@ != key@ by {
                    assert(self.named_before(names@[i]@, n as int));
                    let j = choose|j: int| 0 <= j < n && self.named(names@[i]@, j);
                    assert(self.entries()[j].name@ != self.entries()[n as int].name@);
                }
                if p < n {
                    assert(!seq_lt(names@[p as int]@, key@));
                    lemma_seq_lt_total(names@[p as int]@, key@);
                }
                assert forall|i: int| p <= i < n implies seq_lt(key@, #[trigger] names@[i]@) by {
                    if i > p {
                        lemma_seq_lt_transitive(key@, names@[p as int]@, names@[i]@);
                    }
                }
            }
            let ghost old_names = names@;
            let ghost old_keys = keys@;
            names.insert(p, name);
            keys.insert(p, key);
            proof {
                assert forall|i: int| 0 <= i < n + 1 implies (#[trigger] keys@[i])@ == names@[i]@ by {
                    if i < p {
                        assert(keys@[i] == old_keys[i]);
                    } else if i > p {
                        assert(keys@[i] == old_keys[i - 1]);
                    }
                }
                assert forall|i: int, k: int| 0 <= i < k < n + 1 implies seq_lt(
                    names@[i]@,
                    names@[k]@,
                ) by {
                    if k < p {
                    } else if k == p {
                    } else if i < p {
                        lemma_seq_lt_transitive(names@[i]@, key@, names@[k]@);
                    } else if i == p {
                    } else {
                        assert(names@[i] == old_names[i - 1]);
                        assert(names@[k] == old_names[k - 1]);
                    }
                }
                assert forall|i: int| 0 <= i < n + 1 implies self.named_before(
                    #[trigger] names@[i]@,
                    n + 1,
                ) by {
                    if i < p {
                        assert(names@[i] == old_names[i]);
                        assert(self.named_before(old_names[i]@, n as int));
                    } else if i == p {
                        assert(self.named(names@[i]@, n as int));
                    } else {
                        assert(names@[i] == old_names[i - 1]);
                        assert(self.named_before(old_names[i - 1]@, n as int));
                    }
                }
                assert forall|j: int| 0 <= j < n + 1 implies lists_name(
                    names@,
                    (#[trigger] self.entries()[j]).name@,
                ) by {
                    if j == n {
                        assert(names@[p as int]@ == self.entries()[j].name@);
                    } else {
                        assert(lists_name(old_names, self.entries()[j].name@));
                        let i = choose|i: int| 0 <= i < old_names.len() && old_names[i]@ == self.entries()[j].name@;
                        if i < p {
                            assert(names@[i] == old_names[i]);
                        } else {
                            assert(names@[i + 1] == old_names[i]);
                        }
                    }
                }
            }
            n = n + 1;
        }
        proof {
            assert forall|i: int| 0 <= i < names@.len() implies self.has_name(#[trigger] names@[i]@) by {
                assert(self.named_before(names@[i]@, n as int));
            }
        }
        names
    }

    /// Whether `names` lists the registered names exactly once each, in
    /// increasing lexicographic order.
    pub open spec fn sorted_names(&self, names: Seq<Seq<char>>) -> bool {
        &&& names.len() == self.count()
        &&& forall|i: int| 0 <= i < names.len() ==> self.has_name(#[trigger] names[i])
        &&& forall|j: int| 0 <= j < self.count() ==> names.contains((#[trigger] self.entries()[j]).name@)
        &&& forall|i: int, k: int| 0 <= i < k < names.len() ==> seq_lt(names[i], names[k])
    }

    /// The registered names, sorted, joined by `", "`.
    pub fn names_text(&self) -> (s: String)
        requires
            self.wf(),
        ensures
            exists|ns: Seq<Seq<char>>| self.sorted_names(ns) && s@ == joined(ns, ", "@),
    {
        let names = self.registered_names();
        let s = join_strs(&names, ", ");
        proof {
            let ns = views_of(names@);
            assert forall|j: int| 0 <= j < self.count() implies ns.contains((#[trigger] self.entries()[j]).name@) by {
                assert(lists_name(names@, self.entries()[j].name@));
                let i = choose|i: int| 0 <= i < names@.len() && names@[i]@ == self.entries()[j].name@;
                assert(ns[i] == names@[i]@);
            }
            assert(self.sorted_names(ns));
        }
        s
    }

    /// Whether `s` is the name of one of the first `n` entries.
    spec fn named_before(&self, s: Seq<char>, n: int) -> bool {
        exists|j: int| 0 <= j < n && self.named(s, j)
    }
}

/// Whether one of `names` is `s`.
pub open spec fn lists_name(names: Seq<&str>, s: Seq<char>) -> bool {
    exists|i: int| 0 <= i < names.len() && names[i]@ == s
}

/// Lexicographic order is total on distinct sequences.
pub proof fn lemma_seq_lt_total(a: Seq<char>, b: Seq<char>)
    requires
        a != b,
    ensures
        seq_lt(a, b) || seq_lt(b, a),
    decreases a.len(),
{
    if a.len() == 0 {
        if b.len() == 0 {
            assert(a =~= b);
        }
    } else if b.len() == 0 {
    } else if a[0] != b[0] {
    } else {
        if a.drop_first() == b.drop_first() {
            assert(a == seq![a[0]] + a.drop_first());
            assert(b == seq![b[0]] + b.drop_first());
        }
        lemma_seq_lt_total(a.drop_first(), b.drop_first());
    }
}

/// Lexicographic order is transitive.
pub proof fn lemma_seq_lt_transitive(a: Seq<char>, b: Seq<char>, c: Seq<char>)
    requires
        seq_lt(a, b),
        seq_lt(b, c),
    ensures
        seq_lt(a, c),
    decreases a.len(),
{
    if a.len() > 0 && b.len() > 0 && c.len() > 0 && a[0] == b[0] && b[0] == c[0] {
        lemma_seq_lt_transitive(a.drop_first(), b.drop_first(), c.drop_first());
    }
}

/// How one `register` or `register_dynamic` call under `name` moves a
/// registry from `before` to `after`: the entries stay as they are, or, when
/// no entry had that name, one entry named `name` is appended.
pub open spec fn registration_step(before: ComponentRegistry, after: ComponentRegistry, name: Seq<char>) -> bool {
    ||| after.entries() == before.entries()
    ||| {
        &&& before.id_for_name(name) is None
        &&& after.entries().drop_last() == before.entries()
        &&& after.entries().len() == before.entries().len() + 1
        &&& after.entries().last().name@ == name
    }
}

/// `regs[k + 1]` is what a registration under `names[k]` makes of
/// `regs[k]`, for every call of the history.
pub open spec fn is_registration_history(regs: Seq<ComponentRegistry>, names: Seq<Seq<char>>) -> bool {
    &&& regs.len() == names.len() + 1
    &&& forall|k: int| 0 <= k < names.len() ==> registration_step(regs[k], #[trigger] regs[k + 1], names[k])
}

/// Whether call `k` of a registration history added an entry.
pub open spec fn added_at(regs: Seq<ComponentRegistry>, k: int) -> bool {
    regs[k + 1].entries().len() > regs[k].entries().len()
}

/// The names that the first `n` calls of a history added an entry for.
pub open spec fn added_name(regs: Seq<ComponentRegistry>, names: Seq<Seq<char>>, n: int, name: Seq<char>) -> bool {
    exists|k: int| 0 <= k < n && #[trigger] added_at(regs, k) && names[k] == name
}

/// Along a history that starts from an empty registry, the entries after
/// `n` calls carry exactly the names that those calls added.
proof fn lemma_history_names(regs: Seq<ComponentRegistry>, names: Seq<Seq<char>>, n: int)
    requires
        is_registration_history(regs, names),
        regs[0].count() == 0,
        0 <= n <= names.len(),
    ensures
        forall|name: Seq<char>|
            #![trigger added_name(regs, names, n, name)]
            (exists|i: int| regs[n].named(name, i)) <==> added_name(regs, names, n, name),
    decreases n,
{
    if n > 0 {
        let m = n - 1;
        lemma_history_names(regs, names, m);
        let b = regs[m];
        let a = regs[m + 1];
        assert(registration_step(b, a, names[m]));
        assert forall|name: Seq<char>|
            (exists|i: int| regs[n].named(name, i)) <==> #[trigger] added_name(regs, names, n, name) by {
            let before = added_name(regs, names, m, name);
            assert(before == (exists|i: int| b.named(name, i)));
            assert(added_name(regs, names, n, name) == (before || (added_at(regs, m) && names[m] == name))) by {
                if added_name(regs, names, n, name) {
                    let k = choose|k: int| 0 <= k < n && #[trigger] added_at(regs, k) && names[k] == name;
                    if k < m {
                        assert(added_name(regs, names, m, name));
                    }
                }
                if before {
                    let k = choose|k: int| 0 <= k < m && #[trigger] added_at(regs, k) && names[k] == name;
                    assert(added_name(regs, names, n, name));
                }
                if added_at(regs, m) && names[m] == name {
                    assert(added_name(regs, names, n, name));
                }
            }
            if a.entries() == b.entries() {
                assert(!added_at(regs, m));
                assert forall|i: int| a.named(name, i) == b.named(name, i) by {}
            } else {
                assert(added_at(regs, m));
                let last = b.entries().len() as int;
                assert forall|i: int| 0 <= i < last implies a.entries()[i] == b.entries()[i] by {
                    assert(a.entries()[i] == a.entries().drop_last()[i]);
                }
                if exists|i: int| a.named(name, i) {
                    let i = choose|i: int| a.named(name, i);
                    if i < last {
                        assert(b.named(name, i));
                    }
                }
                if before {
                    let i = choose|i: int| b.named(name, i);
                    assert(a.named(name, i));
                }
                if names[m] == name {
                    assert(a.named(name, last));
                }
            }
        }
    }
}

/// Law: after any history of `register` and `register_dynamic` calls on a
/// new registry, `lookup_by_name` finds exactly the names whose call added
/// an entry (a dynamic registration under a new name, or the first typed
/// registration of a type under a free name), and the id it finds is that
/// of the entry carrying the name.
pub proof fn lemma_lookup_by_name_after_history(regs: Seq<ComponentRegistry>, names: Seq<Seq<char>>)
    requires
        is_registration_history(regs, names),
        regs[0].count() == 0,
        regs.last().wf(),
    ensures
        forall|name: Seq<char>|
            #![trigger regs.last().id_for_name(name)]
            regs.last().id_for_name(name) is Some <==> added_name(regs, names, names.len() as int, name),
        forall|name: Seq<char>|
            #![trigger regs.last().id_for_name(name)]
            regs.last().id_for_name(name) is Some ==> regs.last().entries()[(regs.last().id_for_name(name)->0).0 as int].name@
                == name,
{
    lemma_history_names(regs, names, names.len() as int);
    assert(regs.last() == regs[names.len() as int]);
    assert forall|name: Seq<char>| regs.last().id_for_name(name) is Some <==> added_name(regs, names, names.len() as int, name) by {
        assert(added_name(regs, names, names.len() as int, name) == (exists|i: int| regs[names.len() as int].named(name, i)));
    }
    assert forall|name: Seq<char>| regs.last().id_for_name(name) is Some implies regs.last().entries()[(
    regs.last().id_for_name(name)->0).0 as int].name@ == name by {
        regs.last().lemma_known_name(name, name);
    }
}

} // verus!
