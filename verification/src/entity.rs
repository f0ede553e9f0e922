//! Entity identifiers and allocation.
//!
//! An [`EntityId`] is a 64-bit handle that packs a generation counter in the
//! high 32 bits and an index in the low 32 bits. The generation is bumped
//! every time an index is recycled, which allows immediate stale-ID detection.
use crate::strings::{append_decimal, append_str, decimal, string_from_chars};
use std::collections::VecDeque;
use vstd::prelude::*;

verus! {

broadcast use vstd::std_specs::vecdeque::group_vec_dequeue_axioms;

/// Number of distinct indices an `EntityId` can carry.
pub open spec fn index_space() -> nat {
    0x1_0000_0000
}

/// The raw layout of an id: `generation * 2^32 + index`.
pub open spec fn pack(index: u32, generation: u32) -> u64 {
    (generation as int * 0x1_0000_0000 + index as int) as u64
}

/// A generational entity identifier.
///
/// Layout: `[generation: u32 | index: u32]`
#[derive(Clone, Copy, Debug, PartialEq, Eq, Hash, Structural)]
pub struct EntityId(pub(crate) u64);

impl EntityId {
    /// The index portion (low 32 bits) of the id.
    pub open spec fn idx(self) -> u32 {
        (self.raw() % 0x1_0000_0000) as u32
    }

    /// The generation portion (high 32 bits) of the id.
    pub open spec fn gen(self) -> u32 {
        (self.raw() / 0x1_0000_0000) as u32
    }

    /// The raw 64-bit value.
    pub closed spec fn raw(self) -> u64 {
        self.0
    }

    /// Construct an `EntityId` from an index and generation.
    pub fn new(index: u32, generation: u32) -> (id: Self)
        ensures
            id.raw() == pack(index, generation),
            id.idx() == index,
            id.gen() == generation,
    {
        let raw = (generation as u64) << 32u64 | index as u64;
        assert(raw == (generation as u64) * 0x1_0000_0000u64 + index as u64) by (bit_vector)
            requires
                raw == (generation as u64) << 32u64 | index as u64,
        ;
        EntityId(raw)
    }

    /// The index portion (low 32 bits).
    pub fn index(self) -> (i: u32)
        ensures
            i == self.idx(),
    {
        let r = self.0;
        let i = r as u32;
        assert(i == r % 0x1_0000_0000) by (bit_vector)
            requires
                i == r as u32,
        ;
        i
    }

    /// The generation portion (high 32 bits).
    pub fn generation(self) -> (g: u32)
        ensures
            g == self.gen(),
    {
        let r = self.0;
        let g = (r >> 32u64) as u32;
        assert(g == r / 0x1_0000_0000) by (bit_vector)
            requires
                g == (r >> 32u64) as u32,
        ;
        g
    }

    /// Raw `u64` representation.
    pub fn to_raw(self) -> (r: u64)
        ensures
            r == self.raw(),
    {
        self.0
    }

    /// Reconstruct from a raw `u64`.
    pub fn from_raw(raw: u64) -> (id: Self)
        ensures
            id.raw() == raw,
    {
        EntityId(raw)
    }

    /// The text form of an id: its index, `v`, and its generation.
    pub open spec fn text_spec(self) -> Seq<char> {
        decimal(self.idx() as nat) + "v"@ + decimal(self.gen() as nat)
    }

    /// The text form `"{index}v{generation}"`, as in `"3v1"`.
    pub fn to_text(self) -> (s: String)
        ensures
            s@ == self.text_spec(),
    {
        let mut cs: Vec<char> = Vec::new();
        append_decimal(&mut cs, self.index() as u64);
        append_str(&mut cs, "v");
        append_decimal(&mut cs, self.generation() as u64);
        string_from_chars(cs.as_slice())
    }

    /// The debugging form `"EntityId({index}v{generation})"`.
    pub fn debug_text(self) -> (s: String)
        ensures
            s@ == "EntityId("@ + self.text_spec() + ")"@,
    {
        let mut cs: Vec<char> = Vec::new();
        append_str(&mut cs, "EntityId(");
        append_decimal(&mut cs, self.index() as u64);
        append_str(&mut cs, "v");
        append_decimal(&mut cs, self.generation() as u64);
        append_str(&mut cs, ")");
        assert(cs@ =~= "EntityId("@ + self.text_spec() + ")"@);
        string_from_chars(cs.as_slice())
    }
}

/// An id is determined by its raw value, and its raw value is the packing of
/// its index and generation.
pub proof fn lemma_id_parts(a: EntityId, b: EntityId)
    ensures
        a.raw() == pack(a.idx(), a.gen()),
        a.raw() == b.raw() <==> a == b,
{
}

/// The id with the given index and generation.
pub closed spec fn id_from_parts(index: u32, generation: u32) -> EntityId {
    EntityId(pack(index, generation))
}

/// The id built from an index and a generation has that index and that
/// generation.
pub proof fn lemma_id_from_parts(index: u32, generation: u32)
    ensures
        id_from_parts(index, generation).idx() == index,
        id_from_parts(index, generation).gen() == generation,
        id_from_parts(index, generation).raw() == pack(index, generation),
{
    let g = generation as int;
    let i = index as int;
    assert(0 <= g * 0x1_0000_0000 + i < 0x1_0000_0000_0000_0000) by (nonlinear_arith)
        requires
            0 <= g < 0x1_0000_0000,
            0 <= i < 0x1_0000_0000,
    ;
    assert((g * 0x1_0000_0000 + i) % 0x1_0000_0000 == i) by (nonlinear_arith)
        requires
            0 <= g,
            0 <= i < 0x1_0000_0000,
    ;
    assert((g * 0x1_0000_0000 + i) / 0x1_0000_0000 == g) by (nonlinear_arith)
        requires
            0 <= g,
            0 <= i < 0x1_0000_0000,
    ;
}

/// Packing is injective: two ids built from different (index, generation)
/// pairs differ.
pub proof fn lemma_pack_injective(i1: u32, g1: u32, i2: u32, g2: u32)
    requires
        pack(i1, g1) == pack(i2, g2),
    ensures
        i1 == i2,
        g1 == g2,
{
}


/// Number of `true` entries of a sequence of flags.
pub open spec fn count_alive(flags: Seq<bool>) -> nat
    decreases flags.len(),
{
    if flags.len() == 0 {
        0
    } else {
        count_alive(flags.drop_last()) + if flags.last() {
            1nat
        } else {
            0nat
        }
    }
}

/// Setting one flag changes the count by exactly the change of that flag.
pub proof fn lemma_count_alive_update(flags: Seq<bool>, i: int, v: bool)
    requires
        0 <= i < flags.len(),
    ensures
        count_alive(flags.update(i, v)) + (if flags[i] { 1int } else { 0int }) == count_alive(flags)
            + (if v { 1int } else { 0int }),
    decreases flags.len(),
{
    let u = flags.update(i, v);
    if i == flags.len() - 1 {
        assert(u.drop_last() == flags.drop_last());
    } else {
        lemma_count_alive_update(flags.drop_last(), i, v);
        assert(u.drop_last() == flags.drop_last().update(i, v));
    }
}

/// Whether a sequence holds no value twice.
pub open spec fn no_duplicates(s: Seq<u32>) -> bool {
    forall|i: int, j: int| 0 <= i < s.len() && 0 <= j < s.len() && i != j ==> s[i] != s[j]
}

/// The conditions under which `(generations, alive, free_indices)` describe
/// an allocator: one generation and one flag per slot, at most 2^32 slots,
/// and a free list of distinct, in-bounds, dead slots.
pub open spec fn allocator_state_ok(generations: Seq<u32>, alive: Seq<bool>, free: Seq<u32>) -> bool {
    &&& generations.len() == alive.len()
    &&& generations.len() <= index_space()
    &&& forall|k: int| 0 <= k < free.len() ==> (#[trigger] free[k]) < generations.len()
    &&& forall|k: int| 0 <= k < free.len() ==> !alive[#[trigger] free[k] as int]
    &&& no_duplicates(free)
}

/// How `allocate` moves an allocator from `before` to `after` when it hands
/// out `id`: the front of the free list is reused with its current
/// generation, or, with an empty free list, a new slot with generation 0 is
/// appended.
pub open spec fn allocated(before: EntityAllocator, after: EntityAllocator, id: EntityId) -> bool {
    &&& before.free().len() > 0 ==> {
        let i = before.free()[0];
        &&& id.raw() == pack(i, before.gens()[i as int])
        &&& after.gens() == before.gens()
        &&& after.flags() == before.flags().update(i as int, true)
        &&& after.free() == before.free().drop_first()
    }
    &&& before.free().len() == 0 ==> {
        &&& id.raw() == pack(before.gens().len() as u32, 0)
        &&& after.gens() == before.gens().push(0)
        &&& after.flags() == before.flags().push(true)
        &&& after.free() == before.free()
    }
}

/// How `deallocate` moves an allocator from `before` to `after` when it
/// frees the live `id`: the slot's generation is bumped (wrapping), the slot
/// is marked dead and appended to the free list.
pub open spec fn deallocated(before: EntityAllocator, after: EntityAllocator, id: EntityId) -> bool {
    let i = id.idx() as int;
    &&& after.gens() == before.gens().update(
        i,
        (if before.gens()[i] == u32::MAX {
            0
        } else {
            (before.gens()[i] + 1) as u32
        }),
    )
    &&& after.flags() == before.flags().update(i, false)
    &&& after.free() == before.free().push(id.idx())
}

/// Allocates and recycles [`EntityId`]s with generational tracking.
///
/// Free indices are kept in a FIFO queue so that generations are spread out
/// over time rather than concentrated on a hot index.
#[derive(Debug)]
pub struct EntityAllocator {
    /// Current generation for each index slot.
    generations: Vec<u32>,
    /// Whether the slot is currently alive.
    alive: Vec<bool>,
    /// Free-list of recyclable indices (FIFO queue).
    free_indices: VecDeque<u32>,
}

impl EntityAllocator {
    /// Per-slot generations.
    pub closed spec fn gens(&self) -> Seq<u32> {
        self.generations@
    }

    /// Per-slot alive flags.
    pub closed spec fn flags(&self) -> Seq<bool> {
        self.alive@
    }

    /// The free list, front first.
    pub closed spec fn free(&self) -> Seq<u32> {
        self.free_indices@
    }

    /// Well-formedness: the state satisfies [`allocator_state_ok`].
    pub open spec fn wf(&self) -> bool {
        allocator_state_ok(self.gens(), self.flags(), self.free())
    }

    /// Whether another id can be handed out: either a recycled index is
    /// waiting, or a fresh index still fits in 32 bits.
    pub open spec fn can_allocate(&self) -> bool {
        self.free().len() > 0 || self.gens().len() < index_space()
    }

    /// Whether `id` names a live entity of this allocator.
    pub open spec fn alive_id(&self, id: EntityId) -> bool {
        &&& (id.idx() as int) < self.gens().len()
        &&& self.flags()[id.idx() as int]
        &&& self.gens()[id.idx() as int] == id.gen()
    }

    /// Number of index slots ever handed out.
    pub fn slot_count(&self) -> (n: usize)
        ensures
            n == self.gens().len(),
    {
        self.generations.len()
    }

    /// Whether another id can be handed out.
    pub fn has_capacity(&self) -> (b: bool)
        ensures
            b == self.can_allocate(),
    {
        self.free_indices.len() > 0 || (self.generations.len() as u64) < 0x1_0000_0000u64
    }

    /// Create a new, empty allocator.
    pub fn new() -> (a: Self)
        ensures
            a.wf(),
            a.gens() == Seq::<u32>::empty(),
            a.flags() == Seq::<bool>::empty(),
            a.free() == Seq::<u32>::empty(),
    {
        EntityAllocator { generations: Vec::new(), alive: Vec::new(), free_indices: VecDeque::new() }
    }

    /// Allocate a fresh [`EntityId`].
    ///
    /// If a recycled index is available it is reused with the generation that
    /// was bumped when it was freed; otherwise a brand-new index is created
    /// with generation 0.
    pub fn allocate(&mut self) -> (id: EntityId)
        requires
            old(self).wf(),
            old(self).can_allocate(),
        ensures
            final(self).wf(),
            final(self).alive_id(id),
            !old(self).alive_id(id),
            forall|e: EntityId| e != id ==> final(self).alive_id(e) == old(self).alive_id(e),
            count_alive(final(self).flags()) == count_alive(old(self).flags()) + 1,
            allocated(*old(self), *final(self), id),
            call_step(*old(self), *final(self), AllocatorCall::Allocate),
    {
        if let Some(index) = self.free_indices.pop_front() {
            proof {
                assert(old(self).free()[0] == index);
                assert forall|a: int, b: int|
                    0 <= a < self.free().len() && 0 <= b < self.free().len() && a != b implies
                    self.free()[a] != self.free()[b] by {
                    assert(self.free()[a] == old(self).free()[a + 1]);
                    assert(self.free()[b] == old(self).free()[b + 1]);
                }
                assert forall|k: int| 0 <= k < self.free().len() implies
                    (#[trigger] self.free()[k]) != index by {
                    assert(self.free()[k] == old(self).free()[k + 1]);
                }
                assert forall|k: int| 0 <= k < self.free().len() implies
                    (#[trigger] self.free()[k]) < self.gens().len() && !self.flags().update(
                        index as int,
                        true,
                    )[self.free()[k] as int] by {
                    assert(self.free()[k] == old(self).free()[k + 1]);
                }
            }
            proof {
                lemma_count_alive_update(old(self).flags(), index as int, true);
            }
            self.alive.set(index as usize, true);
            let g = self.generations[index as usize];
            let id = EntityId::new(index, g);
            proof {
                assert forall|e: EntityId| e != id implies self.alive_id(e) == old(self).alive_id(e) by {
                    lemma_id_parts(e, id);
                }
                assert(allocated(*old(self), *self, id));
            }
            id
        } else {
            let index = self.generations.len() as u32;
            self.generations.push(0);
            self.alive.push(true);
            let id = EntityId::new(index, 0);
            proof {
                assert(self.flags().drop_last() == old(self).flags());
                assert forall|e: EntityId| e != id implies self.alive_id(e) == old(self).alive_id(e) by {
                    lemma_id_parts(e, id);
                }
                assert(allocated(*old(self), *self, id));
            }
            id
        }
    }

    /// Deallocate (despawn) an entity, incrementing the generation for that
    /// index so that any outstanding handles become stale.
    ///
    /// Returns `true` if the entity was alive and is now despawned, `false` if
    /// it was already dead or had a stale generation.
    pub fn deallocate(&mut self, id: EntityId) -> (freed: bool)
        requires
            old(self).wf(),
        ensures
            final(self).wf(),
            freed == old(self).alive_id(id),
            !final(self).alive_id(id),
            forall|e: EntityId| e != id ==> final(self).alive_id(e) == old(self).alive_id(e),
            freed ==> count_alive(final(self).flags()) + 1 == count_alive(old(self).flags()),
            freed ==> deallocated(*old(self), *final(self), id),
            !freed ==> {
                &&& final(self).gens() == old(self).gens()
                &&& final(self).flags() == old(self).flags()
                &&& final(self).free() == old(self).free()
            },
            call_step(*old(self), *final(self), AllocatorCall::Deallocate(id)),
    {
        let idx = id.index() as usize;
        if idx >= self.generations.len() {
            return false;
        }
        if self.generations[idx] != id.generation() {
            return false;
        }
        if !self.alive[idx] {
            return false;
        }
        proof {
            assert forall|k: int| 0 <= k < old(self).free().len() implies
                (#[trigger] old(self).free()[k]) != idx by {}
            lemma_count_alive_update(old(self).flags(), idx as int, false);
        }
        self.alive.set(idx, false);
        let g = self.generations[idx];
        self.generations.set(idx, g.wrapping_add(1));
        self.free_indices.push_back(id.index());
        proof {
            let f = self.free();
            assert forall|a: int, b: int| 0 <= a < f.len() && 0 <= b < f.len() && a != b implies f[a]
                != f[b] by {
                if a < f.len() - 1 && b < f.len() - 1 {
                    assert(f[a] == old(self).free()[a]);
                    assert(f[b] == old(self).free()[b]);
                } else if a < f.len() - 1 {
                    assert(f[a] == old(self).free()[a]);
                } else if b < f.len() - 1 {
                    assert(f[b] == old(self).free()[b]);
                }
            }
            assert forall|k: int| 0 <= k < f.len() implies (#[trigger] f[k]) < self.gens().len()
                && !self.flags()[f[k] as int] by {
                if k < f.len() - 1 {
                    assert(f[k] == old(self).free()[k]);
                }
            }
            assert forall|e: EntityId| e != id implies self.alive_id(e) == old(self).alive_id(e) by {
                lemma_id_parts(e, id);
            }
        }
        true
    }

    /// Returns `true` if `id` refers to a currently alive entity whose
    /// generation matches the allocator's current generation for that index.
    pub fn is_alive(&self, id: EntityId) -> (b: bool)
        requires
            self.wf(),
        ensures
            b == self.alive_id(id),
    {
        let idx = id.index() as usize;
        if idx >= self.generations.len() {
            return false;
        }
        self.alive[idx] && self.generations[idx] == id.generation()
    }

    /// Total number of currently alive entities.
    pub fn alive_count(&self) -> (n: usize)
        requires
            self.wf(),
        ensures
            n == count_alive(self.flags()),
    {
        let mut n: usize = 0;
        let mut i: usize = 0;
        while i < self.alive.len()
            invariant
                i <= self.alive@.len(),
                n == count_alive(self.alive@.take(i as int)),
                n <= i,
            decreases self.alive@.len() - i,
        {
            assert(self.alive@.take(i as int + 1).drop_last() == self.alive@.take(i as int));
            if self.alive[i] {
                n = n + 1;
            }
            i = i + 1;
        }
        assert(self.alive@.take(i as int) == self.alive@);
        n
    }

    /// Capture the allocator state for snapshot/restore.
    ///
    /// Returns `(generations, alive, free_indices)` as owned vectors.
    pub fn snapshot_state(&self) -> (state: (Vec<u32>, Vec<bool>, Vec<u32>))
        ensures
            state.0@ == self.gens(),
            state.1@ == self.flags(),
            state.2@ == self.free(),
    {
        let mut free: Vec<u32> = Vec::new();
        let mut i: usize = 0;
        while i < self.free_indices.len()
            invariant
                i <= self.free_indices@.len(),
                free@ == self.free_indices@.take(i as int),
            decreases self.free_indices@.len() - i,
        {
            free.push(self.free_indices[i]);
            i = i + 1;
        }
        (self.generations.clone(), self.alive.clone(), free)
    }

    /// Restore allocator state from a previously captured snapshot.
    ///
    /// This reconstructs the allocator exactly as it was at the time of the
    /// snapshot, preserving generations, alive flags, and the free-list order.
    pub fn restore_from_snapshot(generations: Vec<u32>, alive: Vec<bool>, free_indices: Vec<u32>) -> (a: Self)
        ensures
            a.wf() == allocator_state_ok(generations@, alive@, free_indices@),
            a.gens() == generations@,
            a.flags() == alive@,
            a.free() == free_indices@,
    {
        let mut queue: VecDeque<u32> = VecDeque::new();
        let mut i: usize = 0;
        while i < free_indices.len()
            invariant
                i <= free_indices@.len(),
                queue@ == free_indices@.take(i as int),
            decreases free_indices@.len() - i,
        {
            queue.push_back(free_indices[i]);
            i = i + 1;
        }
        assert(queue@ =~= free_indices@);
        let a = EntityAllocator { generations, alive, free_indices: queue };
        assert(a.gens() == generations@ && a.flags() == alive@ && a.free() == free_indices@);
        a
    }

    /// Marks the dead, unqueued slot `index` alive again, keeping its
    /// generation; used when entities are restored at their exact ids.
    pub(crate) fn revive(&mut self, index: u32)
        requires
            old(self).wf(),
            (index as int) < old(self).gens().len(),
            !old(self).flags()[index as int],
            !old(self).free().contains(index),
        ensures
            final(self).wf(),
            final(self).gens() == old(self).gens(),
            final(self).flags() == old(self).flags().update(index as int, true),
            final(self).free() == old(self).free(),
    {
        self.alive.set(index as usize, true);
        proof {
            assert forall|k: int| 0 <= k < self.free().len() implies !self.flags()[#[trigger] self.free()[k] as int] by {
                assert(old(self).free()[k] != index);
            }
        }
    }
}

/// Law: the state captured by `snapshot_state` of a well-formed allocator is
/// always accepted by `restore_from_snapshot`, and the restored allocator has
/// the same generations, alive flags and free-list order, so it answers every
/// liveness question as the captured one does, and the next allocation on
/// either hands out the same id and leaves the same state.
pub proof fn lemma_snapshot_restore_roundtrip(a: EntityAllocator, b: EntityAllocator)
    requires
        a.wf(),
        b.gens() == a.gens(),
        b.flags() == a.flags(),
        b.free() == a.free(),
    ensures
        allocator_state_ok(a.gens(), a.flags(), a.free()),
        b.wf(),
        forall|e: EntityId| b.alive_id(e) == a.alive_id(e),
        b.can_allocate() == a.can_allocate(),
        forall|a2: EntityAllocator, b2: EntityAllocator, x: EntityId, y: EntityId|
            #[trigger] allocated(a, a2, x) && #[trigger] allocated(b, b2, y) ==> {
                &&& x == y
                &&& a2.gens() == b2.gens()
                &&& a2.flags() == b2.flags()
                &&& a2.free() == b2.free()
            },
{
}

/// Law: an id that was freed is not handed back by the next allocation and
/// stays dead after it: when its slot is reused, it comes back with the next
/// generation, so the old handle is stale.
pub proof fn lemma_freed_id_stays_stale(
    a0: EntityAllocator,
    a1: EntityAllocator,
    a2: EntityAllocator,
    freed: EntityId,
    next: EntityId,
)
    requires
        a0.wf(),
        a0.alive_id(freed),
        deallocated(a0, a1, freed),
        a1.wf(),
        allocated(a1, a2, next),
    ensures
        next != freed,
        !a2.alive_id(freed),
{
    let i = freed.idx() as int;
    lemma_id_parts(next, freed);
    lemma_id_parts(freed, next);
    if a1.free().len() > 0 {
        let j = a1.free()[0];
        lemma_id_from_parts(j, a1.gens()[j as int]);
        lemma_pack_injective_raw(next, j, a1.gens()[j as int]);
    } else {
        lemma_pack_injective_raw(next, a1.gens().len() as u32, 0);
    }
}

/// An id whose raw value is the packing of an index and a generation has
/// that index and that generation.
proof fn lemma_pack_injective_raw(id: EntityId, index: u32, generation: u32)
    requires
        id.raw() == pack(index, generation),
    ensures
        id.idx() == index,
        id.gen() == generation,
{
    lemma_id_from_parts(index, generation);
    lemma_id_parts(id, id_from_parts(index, generation));
}

/// A sequence of flags that are all `false` counts no alive slot.
pub proof fn lemma_count_alive_none(flags: Seq<bool>)
    requires
        forall|i: int| 0 <= i < flags.len() ==> !flags[i],
    ensures
        count_alive(flags) == 0,
    decreases flags.len(),
{
    if flags.len() > 0 {
        lemma_count_alive_none(flags.drop_last());
    }
}

/// The number of alive flags never exceeds the number of slots.
pub proof fn lemma_count_alive_le_len(flags: Seq<bool>)
    ensures
        count_alive(flags) <= flags.len(),
    decreases flags.len(),
{
    if flags.len() > 0 {
        lemma_count_alive_le_len(flags.drop_last());
    }
}

/// The live ids of an allocator whose index is below `n`.
pub open spec fn alive_ids_below(a: EntityAllocator, n: int) -> Set<EntityId> {
    Set::new(|e: EntityId| (e.idx() as int) < n && a.alive_id(e))
}

/// The live ids below index `n` are as many as the alive flags among the
/// first `n` slots.
proof fn lemma_alive_ids_below(a: EntityAllocator, n: int)
    requires
        a.wf(),
        0 <= n <= a.flags().len(),
    ensures
        alive_ids_below(a, n).finite(),
        alive_ids_below(a, n).len() == count_alive(a.flags().take(n)),
    decreases n,
{
    if n == 0 {
        assert(alive_ids_below(a, 0) =~= Set::<EntityId>::empty());
        assert(a.flags().take(0) =~= Seq::<bool>::empty());
    } else {
        let m = n - 1;
        lemma_alive_ids_below(a, m);
        let below = alive_ids_below(a, m);
        let id = id_from_parts(m as u32, a.gens()[m]);
        lemma_id_from_parts(m as u32, a.gens()[m]);
        assert(a.flags().take(n).drop_last() =~= a.flags().take(m));
        assert(a.flags().take(n).last() == a.flags()[m]);
        assert forall|e: EntityId| (e.idx() as int) == m && a.alive_id(e) implies e == id by {
            lemma_id_parts(e, id);
        }
        if a.flags()[m] {
            assert(alive_ids_below(a, n) =~= below.insert(id));
            assert(!below.contains(id));
        } else {
            assert(alive_ids_below(a, n) =~= below);
        }
    }
}

/// Law: the number of live ids of an allocator is its count of alive slots.
pub proof fn lemma_alive_count_is_live_ids(a: EntityAllocator)
    requires
        a.wf(),
    ensures
        Set::new(|e: EntityId| a.alive_id(e)).finite(),
        Set::new(|e: EntityId| a.alive_id(e)).len() == count_alive(a.flags()),
{
    lemma_alive_ids_below(a, a.flags().len() as int);
    assert(a.flags().take(a.flags().len() as int) =~= a.flags());
    assert(Set::new(|e: EntityId| a.alive_id(e)) =~= alive_ids_below(a, a.flags().len() as int));
}

/// One call made on an allocator: `allocate`, or `deallocate` of an id.
pub enum AllocatorCall {
    Allocate,
    Deallocate(EntityId),
}

/// How one call moves an allocator from `before` to `after`: `allocate`
/// (when it has capacity) hands out some id as [`allocated`] says;
/// `deallocate` of a live id frees it as [`deallocated`] says, and of any
/// other id leaves the allocator as it was.
pub open spec fn call_step(before: EntityAllocator, after: EntityAllocator, call: AllocatorCall) -> bool {
    match call {
        AllocatorCall::Allocate => before.can_allocate() && exists|id: EntityId|
            allocated(before, after, id),
        AllocatorCall::Deallocate(id) => if before.alive_id(id) {
            deallocated(before, after, id)
        } else {
            &&& after.gens() == before.gens()
            &&& after.flags() == before.flags()
            &&& after.free() == before.free()
        },
    }
}

/// `states[k + 1]` is what call `calls[k]` makes of `states[k]`, for every
/// call of the run.
pub open spec fn is_run(states: Seq<EntityAllocator>, calls: Seq<AllocatorCall>) -> bool {
    &&& states.len() == calls.len() + 1
    &&& forall|k: int| 0 <= k < calls.len() ==> call_step(states[k], #[trigger] states[k + 1], calls[k])
}

/// Whether `call`, made on `before`, frees the live entity at slot `index`.
pub open spec fn frees_slot(before: EntityAllocator, call: AllocatorCall, index: u32) -> bool {
    match call {
        AllocatorCall::Deallocate(id) => id.idx() == index && before.alive_id(id),
        AllocatorCall::Allocate => false,
    }
}

/// How many of the first `n` calls of a run free the entity at slot `index`.
pub open spec fn slot_frees(states: Seq<EntityAllocator>, calls: Seq<AllocatorCall>, index: u32, n: nat) -> nat
    decreases n,
{
    if n == 0 {
        0
    } else {
        slot_frees(states, calls, index, (n - 1) as nat) + if frees_slot(
            states[n - 1],
            calls[n - 1],
            index,
        ) {
            1nat
        } else {
            0nat
        }
    }
}

/// The generation of a slot whose entity had generation `g` and that was
/// since freed `1 + c` times (counting wraps at 2^32), for `c` below
/// `2^32 - 1`.
spec fn generation_after(g: u32, c: nat) -> int {
    let y = g + 1 + c;
    if y < index_space() {
        y
    } else {
        y - index_space()
    }
}

/// The count of frees of a slot never shrinks as the run goes on.
proof fn lemma_slot_frees_monotone(
    states: Seq<EntityAllocator>,
    calls: Seq<AllocatorCall>,
    index: u32,
    k: nat,
    n: nat,
)
    requires
        k <= n,
    ensures
        slot_frees(states, calls, index, k) <= slot_frees(states, calls, index, n),
    decreases n,
{
    if k < n {
        lemma_slot_frees_monotone(states, calls, index, k, (n - 1) as nat);
    }
}

/// Along a run that starts right after `freed` was freed, the slot of
/// `freed` stays allocated and its generation is [`generation_after`] the
/// number of frees of that slot so far.
proof fn lemma_run_generation(
    a: EntityAllocator,
    freed: EntityId,
    states: Seq<EntityAllocator>,
    calls: Seq<AllocatorCall>,
    k: nat,
)
    requires
        a.alive_id(freed),
        deallocated(a, states[0], freed),
        is_run(states, calls),
        k < states.len(),
        slot_frees(states, calls, freed.idx(), k) < u32::MAX,
    ensures
        (freed.idx() as int) < states[k as int].gens().len(),
        states[k as int].gens()[freed.idx() as int] == generation_after(
            freed.gen(),
            slot_frees(states, calls, freed.idx(), k),
        ),
    decreases k,
{
    let i = freed.idx() as int;
    if k > 0 {
        let j = (k - 1) as nat;
        lemma_run_generation(a, freed, states, calls, j);
        let before = states[j as int];
        let after = states[j as int + 1];
        assert(call_step(before, after, calls[j as int]));
        match calls[j as int] {
            AllocatorCall::Allocate => {
                let id = choose|id: EntityId| allocated(before, after, id);
                assert(after.gens()[i] == before.gens()[i]);
            },
            AllocatorCall::Deallocate(id) => {
                if before.alive_id(id) && id.idx() as int == i {
                    assert(frees_slot(before, calls[j as int], freed.idx()));
                } else if before.alive_id(id) {
                    assert(after.gens()[i] == before.gens()[i]);
                }
            },
        }
    }
}

/// Law: a freed id stays stale. Once `deallocate` has freed `freed`, no
/// sequence of later `allocate` and `deallocate` calls makes it alive again,
/// as long as its slot is freed fewer than 2^32 - 1 more times (after that
/// many frees the slot's 32-bit generation has wrapped around to the old
/// value).
pub proof fn lemma_freed_id_stays_stale_over_run(
    a: EntityAllocator,
    freed: EntityId,
    states: Seq<EntityAllocator>,
    calls: Seq<AllocatorCall>,
)
    requires
        a.wf(),
        a.alive_id(freed),
        deallocated(a, states[0], freed),
        is_run(states, calls),
        slot_frees(states, calls, freed.idx(), calls.len()) < u32::MAX,
    ensures
        forall|k: int| 0 <= k < states.len() ==> !(#[trigger] states[k]).alive_id(freed),
{
    assert forall|k: int| 0 <= k < states.len() implies !(#[trigger] states[k]).alive_id(freed) by {
        lemma_slot_frees_monotone(states, calls, freed.idx(), k as nat, calls.len());
        lemma_run_generation(a, freed, states, calls, k as nat);
    }
}

/// Every dead slot of the allocator waits on its free list.
pub open spec fn dead_slots_queued(a: EntityAllocator) -> bool {
    forall|i: int| 0 <= i < a.flags().len() && !a.flags()[i] ==> a.free().contains(i as u32)
}

/// One call keeps an allocator well-formed and keeps its dead slots queued.
proof fn lemma_call_step_keeps_queue(before: EntityAllocator, after: EntityAllocator, call: AllocatorCall)
    requires
        before.wf(),
        dead_slots_queued(before),
        call_step(before, after, call),
    ensures
        after.wf(),
        dead_slots_queued(after),
{
    let (g, fl, fr) = (before.gens(), before.flags(), before.free());
    match call {
        AllocatorCall::Allocate => {
            let id = choose|id: EntityId| allocated(before, after, id);
            if fr.len() > 0 {
                let i = fr[0];
                assert forall|k: int| 0 <= k < after.free().len() implies
                    (#[trigger] after.free()[k]) != i by {
                    assert(after.free()[k] == fr[k + 1]);
                }
                assert forall|a: int, b: int|
                    0 <= a < after.free().len() && 0 <= b < after.free().len() && a != b implies
                    after.free()[a] != after.free()[b] by {
                    assert(after.free()[a] == fr[a + 1]);
                    assert(after.free()[b] == fr[b + 1]);
                }
                assert forall|k: int| 0 <= k < after.free().len() implies
                    (#[trigger] after.free()[k]) < after.gens().len() && !after.flags()[after.free()[k] as int] by {
                    assert(after.free()[k] == fr[k + 1]);
                }
                assert forall|j: int| 0 <= j < after.flags().len() && !after.flags()[j] implies
                    after.free().contains(j as u32) by {
                    assert(j != i as int);
                    assert(!fl[j]);
                    let p = choose|p: int| 0 <= p < fr.len() && fr[p] == j as u32;
                    assert(p != 0);
                    assert(after.free()[p - 1] == fr[p]);
                }
            } else {
                assert forall|j: int| 0 <= j < after.flags().len() && !after.flags()[j] implies
                    after.free().contains(j as u32) by {
                    assert(j < fl.len());
                    assert(!fl[j]);
                }
            }
        },
        AllocatorCall::Deallocate(id) => {
            if before.alive_id(id) {
                let i = id.idx();
                let f = after.free();
                assert forall|k: int| 0 <= k < fr.len() implies (#[trigger] fr[k]) != i by {}
                assert forall|a: int, b: int| 0 <= a < f.len() && 0 <= b < f.len() && a != b implies f[a]
                    != f[b] by {
                    if a < f.len() - 1 && b < f.len() - 1 {
                        assert(f[a] == fr[a]);
                        assert(f[b] == fr[b]);
                    } else if a < f.len() - 1 {
                        assert(f[a] == fr[a]);
                    } else if b < f.len() - 1 {
                        assert(f[b] == fr[b]);
                    }
                }
                assert forall|k: int| 0 <= k < f.len() implies (#[trigger] f[k]) < after.gens().len()
                    && !after.flags()[f[k] as int] by {
                    if k < f.len() - 1 {
                        assert(f[k] == fr[k]);
                    }
                }
                assert forall|j: int| 0 <= j < after.flags().len() && !after.flags()[j] implies
                    f.contains(j as u32) by {
                    if j == i as int {
                        assert(f[f.len() - 1] == i);
                    } else {
                        assert(!fl[j]);
                        let p = choose|p: int| 0 <= p < fr.len() && fr[p] == j as u32;
                        assert(f[p] == fr[p]);
                    }
                }
            }
        },
    }
}

/// Law: an allocator made by `new` and then changed by any sequence of
/// `allocate` and `deallocate` calls stays well-formed (one generation and
/// one flag per slot; a free list of distinct, in-range, dead slots), and
/// every dead slot waits on its free list, so the state that
/// `snapshot_state` captures from it has all these properties.
pub proof fn lemma_run_from_new_queues_dead_slots(states: Seq<EntityAllocator>, calls: Seq<AllocatorCall>)
    requires
        is_run(states, calls),
        states[0].gens() == Seq::<u32>::empty(),
        states[0].flags() == Seq::<bool>::empty(),
        states[0].free() == Seq::<u32>::empty(),
    ensures
        forall|k: int|
            0 <= k < states.len() ==> (#[trigger] states[k]).wf() && dead_slots_queued(states[k]),
{
    assert forall|k: int| 0 <= k < states.len() implies (#[trigger] states[k]).wf() && dead_slots_queued(
        states[k],
    ) by {
        lemma_run_keeps_queue(states, calls, k as nat);
    }
}

/// The prefix form of [`lemma_run_from_new_queues_dead_slots`].
proof fn lemma_run_keeps_queue(states: Seq<EntityAllocator>, calls: Seq<AllocatorCall>, k: nat)
    requires
        is_run(states, calls),
        states[0].gens() == Seq::<u32>::empty(),
        states[0].flags() == Seq::<bool>::empty(),
        states[0].free() == Seq::<u32>::empty(),
        k < states.len(),
    ensures
        states[k as int].wf(),
        dead_slots_queued(states[k as int]),
    decreases k,
{
    if k > 0 {
        let j = (k - 1) as nat;
        lemma_run_keeps_queue(states, calls, j);
        assert(call_step(states[j as int], states[j as int + 1], calls[j as int]));
        lemma_call_step_keeps_queue(states[j as int], states[j as int + 1], calls[j as int]);
    }
}

} // verus!
