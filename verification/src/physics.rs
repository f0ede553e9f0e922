//! The deterministic bookkeeping around the physics step: the order in which
//! collisions are reported and the commands that write physics results back
//! into the world.
//!
//! The rigid-body simulation itself works in floating point and stays with
//! the physics backend; what it reports is reduced here to entity ids and
//! JSON values.
use crate::command::{CausalReason, Command, CommandBuffer, CommandKind};
use crate::entity::EntityId;
use crate::identity::SystemId;
use vstd::prelude::*;

verus! {

/// The key a collision pair is ordered by: its two raw entity ids, smaller
/// first.
pub open spec fn pair_key(p: (u64, u64)) -> (u64, u64) {
    if p.0 <= p.1 {
        (p.0, p.1)
    } else {
        (p.1, p.0)
    }
}

/// Lexicographic order on keys.
pub open spec fn key_le(a: (u64, u64), b: (u64, u64)) -> bool {
    a.0 < b.0 || (a.0 == b.0 && a.1 <= b.1)
}

/// `s` with `x` inserted after every element whose key does not exceed
/// `x`'s, so that equal keys keep their order of arrival.
pub open spec fn insert_by_key(s: Seq<(u64, u64)>, x: (u64, u64)) -> Seq<(u64, u64)>
    decreases s.len(),
{
    if s.len() == 0 {
        seq![x]
    } else if key_le(pair_key(s.last()), pair_key(x)) {
        s.push(x)
    } else {
        insert_by_key(s.drop_last(), x).push(s.last())
    }
}

/// The stable sort of `s` by [`pair_key`].
pub open spec fn sorted_pairs(s: Seq<(u64, u64)>) -> Seq<(u64, u64)>
    decreases s.len(),
{
    if s.len() == 0 {
        Seq::empty()
    } else {
        insert_by_key(sorted_pairs(s.drop_last()), s.last())
    }
}

/// Every element's key is at most that of every later element.
pub open spec fn keys_sorted(s: Seq<(u64, u64)>) -> bool {
    forall|i: int, j: int| 0 <= i < j < s.len() ==> key_le(pair_key(s[i]), pair_key(s[j]))
}

/// Inserting at the first position from the right whose predecessor's key
/// does not exceed `x`'s is [`insert_by_key`].
proof fn lemma_insert_at(s: Seq<(u64, u64)>, x: (u64, u64), p: int)
    requires
        0 <= p <= s.len(),
        p > 0 ==> key_le(pair_key(s[p - 1]), pair_key(x)),
        forall|k: int| p <= k < s.len() ==> !key_le(pair_key(#[trigger] s[k]), pair_key(x)),
    ensures
        insert_by_key(s, x) == s.insert(p, x),
    decreases s.len(),
{
    if s.len() == 0 {
        assert(s.insert(p, x) =~= seq![x]);
    } else if p == s.len() {
        assert(s.insert(p, x) =~= s.push(x));
    } else {
        assert(!key_le(pair_key(s[s.len() - 1]), pair_key(x)));
        lemma_insert_at(s.drop_last(), x, p);
        assert(s.drop_last().insert(p, x).push(s.last()) =~= s.insert(p, x));
    }
}

/// Inserting into a sorted sequence keeps it sorted, adds one element and
/// adds `x` to its elements.
proof fn lemma_insert_sorted(s: Seq<(u64, u64)>, x: (u64, u64))
    requires
        keys_sorted(s),
    ensures
        keys_sorted(insert_by_key(s, x)),
        insert_by_key(s, x).len() == s.len() + 1,
        insert_by_key(s, x).to_multiset() == s.to_multiset().insert(x),
    decreases s.len(),
{
    broadcast use vstd::seq_lib::group_to_multiset_ensures;

    if s.len() == 0 {
        assert(insert_by_key(s, x) =~= s.push(x));
    } else if key_le(pair_key(s.last()), pair_key(x)) {
        let r = s.push(x);
        assert forall|i: int, j: int| 0 <= i < j < r.len() implies key_le(pair_key(r[i]), pair_key(r[j])) by {
            if j == s.len() {
                if i < s.len() - 1 {
                    assert(key_le(pair_key(s[i]), pair_key(s[s.len() - 1])));
                }
            }
        }
    } else {
        let t = s.drop_last();
        assert forall|i: int, j: int| 0 <= i < j < t.len() implies key_le(pair_key(t[i]), pair_key(t[j])) by {
            assert(t[i] == s[i] && t[j] == s[j]);
        }
        lemma_insert_sorted(t, x);
        let r = insert_by_key(t, x);
        assert forall|i: int| 0 <= i < r.len() implies key_le(pair_key(#[trigger] r[i]), pair_key(s.last())) by {
            assert(r.to_multiset().count(r[i]) > 0);
            assert(t.to_multiset().insert(x).count(r[i]) > 0);
            if r[i] != x {
                assert(t.to_multiset().count(r[i]) > 0);
                assert(t.contains(r[i]));
                let k = choose|k: int| 0 <= k < t.len() && t[k] == r[i];
                assert(s[k] == t[k]);
            }
        }
        let rr = r.push(s.last());
        assert forall|i: int, j: int| 0 <= i < j < rr.len() implies key_le(pair_key(rr[i]), pair_key(rr[j])) by {
            if j == r.len() {
                assert(key_le(pair_key(r[i]), pair_key(s.last())));
            } else {
                assert(rr[i] == r[i] && rr[j] == r[j]);
            }
        }
        assert(s.drop_last().to_multiset().insert(s.last()) == s.to_multiset()) by {
            assert(s.drop_last().push(s.last()) =~= s);
        }
    }
}

/// The stable sort by key is sorted and holds the same elements.
pub proof fn lemma_sorted_pairs(s: Seq<(u64, u64)>)
    ensures
        keys_sorted(sorted_pairs(s)),
        sorted_pairs(s).len() == s.len(),
        sorted_pairs(s).to_multiset() == s.to_multiset(),
    decreases s.len(),
{
    broadcast use vstd::seq_lib::group_to_multiset_ensures;

    if s.len() > 0 {
        lemma_sorted_pairs(s.drop_last());
        lemma_insert_sorted(sorted_pairs(s.drop_last()), s.last());
        assert(s.drop_last().push(s.last()) =~= s);
    }
}

/// Whether the pair `p` joins the ids `lo` and `hi`, `lo <= hi`, in either
/// order.
pub open spec fn joins(p: (u64, u64), lo: u64, hi: u64) -> bool {
    ||| p.0 == lo && p.1 == hi
    ||| p.0 == hi && p.1 == lo
}

/// The pairs of `s` that join `lo` and `hi`, in their order in `s`.
pub open spec fn pairs_joining(s: Seq<(u64, u64)>, lo: u64, hi: u64) -> Seq<(u64, u64)> {
    s.filter(|p: (u64, u64)| joins(p, lo, hi))
}

/// Inserting `x` puts it after every element with the same ids, so the
/// elements with given ids keep their order.
proof fn lemma_insert_keeps_order(s: Seq<(u64, u64)>, x: (u64, u64), lo: u64, hi: u64)
    requires
        lo <= hi,
    ensures
        pairs_joining(insert_by_key(s, x), lo, hi) == if joins(x, lo, hi) {
            pairs_joining(s, lo, hi).push(x)
        } else {
            pairs_joining(s, lo, hi)
        },
    decreases s.len(),
{
    reveal(Seq::filter);
    let f = |p: (u64, u64)| joins(p, lo, hi);
    if s.len() == 0 {
        assert(insert_by_key(s, x) =~= s.push(x));
        assert(s.push(x).drop_last() =~= s);
    } else if key_le(pair_key(s.last()), pair_key(x)) {
        assert(s.push(x).drop_last() =~= s);
    } else {
        lemma_insert_keeps_order(s.drop_last(), x, lo, hi);
        let r = insert_by_key(s.drop_last(), x).push(s.last());
        assert(r.drop_last() =~= insert_by_key(s.drop_last(), x));
        if f(x) && f(s.last()) {
            assert(pair_key(x) == pair_key(s.last()));
        }
    }
}

/// Sorting keeps, for any two ids, the pairs joining them in the order
/// they were reported.
proof fn lemma_sorted_keeps_order(s: Seq<(u64, u64)>, lo: u64, hi: u64)
    requires
        lo <= hi,
    ensures
        pairs_joining(sorted_pairs(s), lo, hi) == pairs_joining(s, lo, hi),
    decreases s.len(),
{
    reveal(Seq::filter);
    if s.len() > 0 {
        lemma_sorted_keeps_order(s.drop_last(), lo, hi);
        lemma_insert_keeps_order(sorted_pairs(s.drop_last()), s.last(), lo, hi);
    }
}

/// Law: the collision order. The ordered pairs are the reported ones (the
/// same pairs, as often), ordered by their smaller id and, for equal smaller
/// ids, by their larger id; pairs joining the same two ids keep the order in
/// which they were reported.
pub proof fn lemma_collision_order(s: Seq<(u64, u64)>)
    ensures
        sorted_pairs(s).to_multiset() == s.to_multiset(),
        forall|i: int, j: int|
            0 <= i < j < sorted_pairs(s).len() ==> {
                let p = #[trigger] sorted_pairs(s)[i];
                let q = #[trigger] sorted_pairs(s)[j];
                let p_lo = if p.0 <= p.1 { p.0 } else { p.1 };
                let p_hi = if p.0 <= p.1 { p.1 } else { p.0 };
                let q_lo = if q.0 <= q.1 { q.0 } else { q.1 };
                let q_hi = if q.0 <= q.1 { q.1 } else { q.0 };
                p_lo < q_lo || (p_lo == q_lo && p_hi <= q_hi)
            },
        forall|lo: u64, hi: u64|
            lo <= hi ==> #[trigger] pairs_joining(sorted_pairs(s), lo, hi) == pairs_joining(s, lo, hi),
{
    lemma_sorted_pairs(s);
    let r = sorted_pairs(s);
    assert forall|i: int, j: int| 0 <= i < j < r.len() implies {
        let p = #[trigger] r[i];
        let q = #[trigger] r[j];
        let p_lo = if p.0 <= p.1 { p.0 } else { p.1 };
        let p_hi = if p.0 <= p.1 { p.1 } else { p.0 };
        let q_lo = if q.0 <= q.1 { q.0 } else { q.1 };
        let q_hi = if q.0 <= q.1 { q.1 } else { q.0 };
        p_lo < q_lo || (p_lo == q_lo && p_hi <= q_hi)
    } by {
        assert(key_le(pair_key(r[i]), pair_key(r[j])));
    }
    assert forall|lo: u64, hi: u64| lo <= hi implies #[trigger] pairs_joining(sorted_pairs(s), lo, hi)
        == pairs_joining(s, lo, hi) by {
        lemma_sorted_keeps_order(s, lo, hi);
    }
}

/// Whether the key of `a` does not exceed that of `b`.
fn key_at_most(a: (u64, u64), b: (u64, u64)) -> (r: bool)
    ensures
        r == key_le(pair_key(a), pair_key(b)),
{
    let (a0, a1) = if a.0 <= a.1 {
        (a.0, a.1)
    } else {
        (a.1, a.0)
    };
    let (b0, b1) = if b.0 <= b.1 {
        (b.0, b.1)
    } else {
        (b.1, b.0)
    };
    a0 < b0 || (a0 == b0 && a1 <= b1)
}

/// Order collision pairs of raw entity ids by their smaller then their
/// larger id, keeping pairs with the same ids in the order reported, so
/// that one simulation state always yields one collision sequence.
pub fn order_collision_pairs(pairs: &[(u64, u64)]) -> (r: Vec<(u64, u64)>)
    ensures
        r@ == sorted_pairs(pairs@),
        r@.to_multiset() == pairs@.to_multiset(),
        forall|i: int, j: int|
            0 <= i < j < r@.len() ==> {
                let p = #[trigger] r@[i];
                let q = #[trigger] r@[j];
                let p_lo = if p.0 <= p.1 { p.0 } else { p.1 };
                let p_hi = if p.0 <= p.1 { p.1 } else { p.0 };
                let q_lo = if q.0 <= q.1 { q.0 } else { q.1 };
                let q_hi = if q.0 <= q.1 { q.1 } else { q.0 };
                p_lo < q_lo || (p_lo == q_lo && p_hi <= q_hi)
            },
        forall|lo: u64, hi: u64|
            lo <= hi ==> #[trigger] pairs_joining(r@, lo, hi) == pairs_joining(pairs@, lo, hi),
{
    let mut out: Vec<(u64, u64)> = Vec::new();
    let mut i: usize = 0;
    while i < pairs.len()
        invariant
            i <= pairs@.len(),
            out@ == sorted_pairs(pairs@.take(i as int)),
        decreases pairs@.len() - i,
    {
        let x = pairs[i];
        let mut p: usize = out.len();
        while p > 0 && !key_at_most(out[p - 1], x)
            invariant
                p <= out@.len(),
                forall|k: int| p <= k < out@.len() ==> !key_le(pair_key(#[trigger] out@[k]), pair_key(x)),
            decreases p,
        {
            p = p - 1;
        }
        proof {
            lemma_insert_at(out@, x, p as int);
            assert(pairs@.take(i as int + 1).drop_last() =~= pairs@.take(i as int));
        }
        out.insert(p, x);
        i = i + 1;
    }
    proof {
        assert(pairs@.take(i as int) =~= pairs@);
        lemma_collision_order(pairs@);
    }
    out
}

/// Command `c` sets component `name` of `entity` to `value` on behalf of the
/// physics system.
pub open spec fn is_physics_update(c: Command, entity: EntityId, name: Seq<char>, value: serde_json::Value) -> bool {
    &&& c.target == Some(entity)
    &&& c.kind matches CommandKind::SetComponent { component_name: n, value: v } && n@ == name && v == value
    &&& c.issued_by == SystemId(200)
    &&& c.reason matches CausalReason::SystemInternal(s) && s@ == "physics_step"@
}

/// Commands `at` and `at + 1` of `q` write back the position and then the
/// velocity of physics result `r`.
pub open spec fn physics_pair_at(q: Seq<Command>, at: int, r: (EntityId, serde_json::Value, serde_json::Value)) -> bool {
    &&& is_physics_update(q[at], r.0, "position"@, r.1)
    &&& is_physics_update(q[at + 1], r.0, "velocity"@, r.2)
}

/// Queue the results of a physics step: for each `(entity, position,
/// velocity)`, in order, a command setting its `"position"` and then one
/// setting its `"velocity"`, both issued by the physics system.
pub fn queue_physics_results(
    commands: &mut CommandBuffer,
    results: Vec<(EntityId, serde_json::Value, serde_json::Value)>,
)
    requires
        old(commands).wf(),
        old(commands).queued().len() + 2 * results@.len() < u32::MAX,
    ensures
        final(commands).wf(),
        final(commands).report() == old(commands).report(),
        final(commands).queued().len() == old(commands).queued().len() + 2 * results@.len(),
        final(commands).queued().take(old(commands).queued().len() as int) == old(commands).queued(),
        forall|i: int|
            0 <= i < results@.len() ==> physics_pair_at(
                final(commands).queued(),
                old(commands).queued().len() + 2 * i,
                #[trigger] results@[i],
            ),
{
    let ghost q0 = commands.queued();
    let mut i: usize = 0;
    while i < results.len()
        invariant
            i <= results@.len(),
            commands.wf(),
            commands.report() == old(commands).report(),
            q0 == old(commands).queued(),
            q0.len() + 2 * results@.len() < u32::MAX,
            commands.queued().len() == q0.len() + 2 * i,
            commands.queued().take(q0.len() as int) == q0,
            forall|k: int| 0 <= k < i ==> physics_pair_at(commands.queued(), q0.len() + 2 * k, #[trigger] results@[k]),
        decreases results@.len() - i,
    {
        let entity = results[i].0;
        let ghost qa = commands.queued();
        commands.set_component(
            entity,
            "position",
            results[i].1.clone(),
            SystemId::PHYSICS(),
            CausalReason::SystemInternal("physics_step".to_owned()),
        );
        let ghost qb = commands.queued();
        commands.set_component(
            entity,
            "velocity",
            results[i].2.clone(),
            SystemId::PHYSICS(),
            CausalReason::SystemInternal("physics_step".to_owned()),
        );
        proof {
            let qc = commands.queued();
            assert(qc.drop_last() == qb && qb.drop_last() == qa);
            assert(qc.take(q0.len() as int) =~= q0) by {
                assert forall|k: int| 0 <= k < q0.len() implies qc[k] == q0[k] by {
                    assert(qc[k] == qb[k] && qb[k] == qa[k]);
                    assert(qa.take(q0.len() as int)[k] == qa[k]);
                }
            }
            assert forall|k: int| 0 <= k < i + 1 implies physics_pair_at(qc, q0.len() + 2 * k, #[trigger] results@[k]) by {
                let base = q0.len() + 2 * k;
                if k < i {
                    assert(physics_pair_at(qa, base, results@[k]));
                    assert(qc[base] == qa[base] && qc[base + 1] == qa[base + 1]);
                } else {
                    assert(qc[base] == qb.last());
                }
            }
        }
        i = i + 1;
    }
}

} // verus!
