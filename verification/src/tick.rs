//! The parts of the fixed-timestep tick loop that decide: the per-tick input
//! frame, the timing report, and the system schedule with its dependency
//! rules.
//!
//! Systems run in declaration order. A system may declare systems that must
//! run before it; those must already be registered, and names are unique, so
//! declaration order always respects every dependency and no cycle can form.
use crate::strings::str_eq;
use vstd::prelude::*;

verus! {

/// A single frame of recorded input for replay: key-value pairs with
/// distinct keys.
#[derive(Debug)]
pub struct InputFrame {
    /// The inputs of this tick, each key once.
    pub inputs: Vec<(String, serde_json::Value)>,
}

/// Whether no key occurs twice among the pairs.
pub open spec fn distinct_keys(pairs: Seq<(String, serde_json::Value)>) -> bool {
    forall|i: int, j: int| 0 <= i < pairs.len() && 0 <= j < pairs.len() && i != j ==> pairs[i].0@ != pairs[j].0@
}

/// The pairs as a map from key to value.
pub open spec fn pairs_map(pairs: Seq<(String, serde_json::Value)>) -> Map<Seq<char>, serde_json::Value>
    decreases pairs.len(),
{
    if pairs.len() == 0 {
        Map::empty()
    } else {
        pairs_map(pairs.drop_last()).insert(pairs.last().0@, pairs.last().1)
    }
}

impl InputFrame {
    /// Keys are distinct.
    pub open spec fn wf(&self) -> bool {
        distinct_keys(self.inputs@)
    }

    /// The frame as a map from key to value.
    pub open spec fn view(&self) -> Map<Seq<char>, serde_json::Value> {
        pairs_map(self.inputs@)
    }

    /// An empty input frame.
    pub fn new() -> (f: Self)
        ensures
            f.wf(),
            f.inputs@.len() == 0,
            f.view() == Map::<Seq<char>, serde_json::Value>::empty(),
    {
        InputFrame { inputs: Vec::new() }
    }

    /// Whether the frame holds no input.
    pub fn is_empty(&self) -> (b: bool)
        ensures
            b == (self.inputs@.len() == 0),
    {
        self.inputs.len() == 0
    }

    /// Set the value of `key`, replacing any earlier value.
    pub fn insert(&mut self, key: String, value: serde_json::Value)
        requires
            old(self).wf(),
        ensures
            final(self).wf(),
            final(self).view() == old(self).view().insert(key@, value),
    {
        let mut i: usize = 0;
        while i < self.inputs.len()
            invariant
                i <= self.inputs@.len(),
                *self == *old(self),
                old(self).wf(),
                forall|k: int| 0 <= k < i ==> self.inputs@[k].0@ != key@,
            decreases self.inputs@.len() - i,
        {
            if str_eq(self.inputs[i].0.as_str(), key.as_str()) {
                let ghost p0 = self.inputs@;
                let k = self.inputs[i].0.clone();
                self.inputs.set(i, (k, value));
                proof {
                    lemma_pairs_map_update(p0, i as int, value);
                    assert forall|a: int, b: int| 0 <= a < self.inputs@.len() && 0 <= b < self.inputs@.len() && a != b implies self.inputs@[a].0@ != self.inputs@[b].0@ by {
                        assert(self.inputs@[a].0@ == p0[a].0@);
                        assert(self.inputs@[b].0@ == p0[b].0@);
                    }
                }
                return;
            }
            i = i + 1;
        }
        let ghost p0 = self.inputs@;
        self.inputs.push((key, value));
        proof {
            assert(self.inputs@.drop_last() =~= p0);
        }
    }

    /// A copy of this frame.
    pub fn duplicate(&self) -> (f: InputFrame)
        ensures
            f.inputs@ == self.inputs@,
    {
        let mut inputs: Vec<(String, serde_json::Value)> = Vec::new();
        let mut i: usize = 0;
        while i < self.inputs.len()
            invariant
                i <= self.inputs@.len(),
                inputs@ == self.inputs@.take(i as int),
            decreases self.inputs@.len() - i,
        {
            inputs.push((self.inputs[i].0.clone(), self.inputs[i].1.clone()));
            proof {
                assert(self.inputs@.take(i as int + 1) =~= self.inputs@.take(i as int).push(self.inputs@[i as int]));
            }
            i = i + 1;
        }
        proof {
            assert(self.inputs@.take(i as int) =~= self.inputs@);
        }
        InputFrame { inputs }
    }
}

/// Replacing the value of the pair at `i` replaces the value of its key.
proof fn lemma_pairs_map_update(pairs: Seq<(String, serde_json::Value)>, i: int, v: serde_json::Value)
    requires
        0 <= i < pairs.len(),
        distinct_keys(pairs),
    ensures
        pairs_map(pairs.update(i, (pairs[i].0, v))) == pairs_map(pairs).insert(pairs[i].0@, v),
    decreases pairs.len(),
{
    let u = pairs.update(i, (pairs[i].0, v));
    if i == pairs.len() - 1 {
        assert(u.drop_last() =~= pairs.drop_last());
        assert(pairs_map(u) =~= pairs_map(pairs).insert(pairs[i].0@, v));
    } else {
        assert(u.drop_last() =~= pairs.drop_last().update(i, (pairs[i].0, v)));
        lemma_pairs_map_update(pairs.drop_last(), i, v);
        assert(pairs.last().0@ != pairs[i].0@);
        assert(pairs_map(u) =~= pairs_map(pairs).insert(pairs[i].0@, v));
    }
}

/// Timing diagnostics for the last tick.
#[derive(Debug)]
pub struct TickDiagnostics {
    /// Wall-clock time per system (in order of execution).
    pub system_times: Vec<(String, std::time::Duration)>,
    /// Total time for the tick (systems + command apply).
    pub total_time: std::time::Duration,
    /// Time spent applying commands.
    pub command_apply_time: std::time::Duration,
}

/// A zero-length duration.
///
/// Trusted: calls `Duration::from_secs(0)`; nothing is claimed of the value,
/// which Verus sees as opaque.
#[verifier::external_body]
fn zero_duration() -> std::time::Duration {
    std::time::Duration::from_secs(0)
}

impl Default for TickDiagnostics {
    fn default() -> (d: Self)
        ensures
            d.system_times@.len() == 0,
    {
        TickDiagnostics { system_times: Vec::new(), total_time: zero_duration(), command_apply_time: zero_duration() }
    }
}

/// A named system with the names of the systems that must run before it.
#[derive(Debug)]
pub struct RegisteredSystem<F> {
    /// The system's unique name.
    pub name: String,
    /// The system function to invoke each tick.
    pub func: F,
    /// Names of systems that must execute before this one.
    pub after: Vec<String>,
}

/// Why a system cannot be registered.
#[derive(Debug, Clone, PartialEq, Eq)]
pub enum ScheduleError {
    /// A declared dependency is not registered.
    UnknownDependency {
        /// The system being registered.
        system: String,
        /// The dependency that is missing.
        dependency: String,
    },
    /// A system with this name is already registered.
    DuplicateName {
        /// The repeated name.
        name: String,
    },
}

/// The systems to run each tick, in declaration order.
#[derive(Debug)]
pub struct SystemSchedule<F> {
    /// Registered systems, in execution order.
    systems: Vec<RegisteredSystem<F>>,
}

impl<F> SystemSchedule<F> {
    /// The names of the systems, in execution order.
    pub closed spec fn names(&self) -> Seq<Seq<char>> {
        self.systems@.map_values(|s: RegisteredSystem<F>| s.name@)
    }

    /// The declared dependencies of system `i`.
    pub closed spec fn deps(&self, i: int) -> Seq<Seq<char>> {
        self.systems@[i].after@.map_values(|d: String| d@)
    }

    /// The function of system `i`.
    pub closed spec fn func_spec(&self, i: int) -> F {
        self.systems@[i].func
    }

    /// Dependency `k` of system `i` names a system declared before it.
    pub open spec fn declared_before(&self, i: int, k: int) -> bool {
        exists|j: int| 0 <= j < i && self.names()[j] == self.deps(i)[k]
    }

    /// Names are distinct and every dependency of a system names a system
    /// declared before it.
    pub closed spec fn wf(&self) -> bool {
        &&& forall|i: int, j: int| 0 <= i < j < self.systems@.len() ==> self.names()[i] != self.names()[j]
        &&& forall|i: int, k: int|
            0 <= i < self.systems@.len() && 0 <= k < self.deps(i).len() ==> #[trigger] self.declared_before(i, k)
    }

    /// An empty schedule.
    pub fn new() -> (s: Self)
        ensures
            s.wf(),
            s.names().len() == 0,
    {
        SystemSchedule { systems: Vec::new() }
    }

    /// The number of registered systems.
    pub fn system_count(&self) -> (n: usize)
        ensures
            n == self.names().len(),
    {
        self.systems.len()
    }

    /// The names of all registered systems, in execution order.
    pub fn system_names(&self) -> (v: Vec<&str>)
        ensures
            v@.len() == self.names().len(),
            forall|i: int| 0 <= i < v@.len() ==> (#[trigger] v@[i])@ == self.names()[i],
    {
        let mut v: Vec<&str> = Vec::new();
        let mut i: usize = 0;
        while i < self.systems.len()
            invariant
                i <= self.systems@.len(),
                v@.len() == i,
                forall|k: int| 0 <= k < i ==> (#[trigger] v@[k])@ == self.names()[k],
            decreases self.systems@.len() - i,
        {
            v.push(self.systems[i].name.as_str());
            i = i + 1;
        }
        v
    }

    /// The function of system `i`, in execution order.
    pub fn func(&self, i: usize) -> (f: &F)
        requires
            i < self.names().len(),
        ensures
            *f == self.func_spec(i as int),
    {
        &self.systems[i].func
    }

    /// Whether a system named `name` is registered.
    pub fn contains(&self, name: &str) -> (b: bool)
        ensures
            b == self.names().contains(name@),
    {
        let mut i: usize = 0;
        while i < self.systems.len()
            invariant
                i <= self.systems@.len(),
                forall|k: int| 0 <= k < i ==> self.names()[k] != name@,
            decreases self.systems@.len() - i,
        {
            if str_eq(self.systems[i].name.as_str(), name) {
                proof {
                    assert(self.names()[i as int] == name@);
                }
                return true;
            }
            i = i + 1;
        }
        false
    }

    /// Checks whether a system `name` with dependencies `after` may be
    /// registered: each dependency, in order, must be registered, then the
    /// name must be new. The first failure is reported.
    pub fn check_new_system(&self, name: &str, after: &[&str]) -> (r: Result<(), ScheduleError>)
        ensures
            r is Ok <==> (forall|k: int| 0 <= k < after@.len() ==> self.names().contains(#[trigger] after@[k]@))
                && !self.names().contains(name@),
            r matches Err(ScheduleError::UnknownDependency { system, dependency }) ==> system@ == name@
                && exists|k: int|
                0 <= k < after@.len() && dependency@ == (#[trigger] after@[k])@ && !self.names().contains(after@[k]@)
                    && forall|j: int| 0 <= j < k ==> self.names().contains(after@[j]@),
            r matches Err(ScheduleError::DuplicateName { name: n }) ==> n@ == name@ && self.names().contains(name@)
                && forall|k: int| 0 <= k < after@.len() ==> self.names().contains(#[trigger] after@[k]@),
    {
        let mut k: usize = 0;
        while k < after.len()
            invariant
                k <= after@.len(),
                forall|j: int| 0 <= j < k ==> self.names().contains(#[trigger] after@[j]@),
            decreases after@.len() - k,
        {
            if !self.contains(after[k]) {
                return Err(ScheduleError::UnknownDependency { system: name.to_owned(), dependency: after[k].to_owned() });
            }
            k = k + 1;
        }
        if self.contains(name) {
            return Err(ScheduleError::DuplicateName { name: name.to_owned() });
        }
        Ok(())
    }

    /// Register a system that must run after the systems named in `after`.
    /// Every dependency must already be registered and the name must be new,
    /// so declaration order keeps respecting every dependency.
    pub fn add_system_after(&mut self, name: &str, after: &[&str], func: F)
        requires
            old(self).wf(),
            forall|k: int| 0 <= k < after@.len() ==> old(self).names().contains(#[trigger] after@[k]@),
            !old(self).names().contains(name@),
        ensures
            final(self).wf(),
            final(self).names() == old(self).names().push(name@),
            final(self).deps(old(self).names().len() as int) == after@.map_values(|d: &str| d@),
            final(self).func_spec(old(self).names().len() as int) == func,
            forall|i: int| 0 <= i < old(self).names().len() ==> final(self).deps(i) == old(self).deps(i) && final(self).func_spec(i) == old(self).func_spec(i),
    {
        let mut deps: Vec<String> = Vec::new();
        let mut k: usize = 0;
        while k < after.len()
            invariant
                k <= after@.len(),
                deps@.len() == k,
                forall|j: int| 0 <= j < k ==> (#[trigger] deps@[j])@ == after@[j]@,
            decreases after@.len() - k,
        {
            deps.push(after[k].to_owned());
            k = k + 1;
        }
        let ghost s0 = self.systems@;
        let ghost n0 = self.names();
        self.systems.push(RegisteredSystem { name: name.to_owned(), func, after: deps });
        proof {
            let n = s0.len() as int;
            assert(self.names() =~= n0.push(name@));
            assert(self.deps(n) =~= after@.map_values(|d: &str| d@));
            assert forall|i: int| 0 <= i < n implies self.deps(i) == old(self).deps(i) by {
                assert(self.systems@[i] == s0[i]);
            }
            assert forall|i: int, j: int| 0 <= i < j < self.systems@.len() implies self.names()[i] != self.names()[j] by {
                if j == n {
                    assert(n0.contains(n0[i]));
                }
            }
            assert forall|i: int, k: int|
                0 <= i < self.systems@.len() && 0 <= k < self.deps(i).len() implies #[trigger] self.declared_before(i, k) by {
                if i == n {
                    assert(n0.contains(after@[k]@));
                    let j = choose|j: int| 0 <= j < n0.len() && n0[j] == after@[k]@;
                    assert(self.names()[j] == self.deps(i)[k]);
                } else {
                    assert(self.deps(i) == old(self).deps(i));
                    assert(old(self).declared_before(i, k));
                    let j = choose|j: int| 0 <= j < i && n0[j] == old(self).deps(i)[k];
                    assert(self.names()[j] == n0[j]);
                }
            }
        }
    }
}

/// Law: in a well-formed schedule, every dependency of every system names a
/// system that comes earlier, so running systems in declaration order runs
/// each system after all its dependencies, and the dependency graph has no
/// cycle.
pub proof fn lemma_schedule_order<F>(s: SystemSchedule<F>, i: int, k: int)
    requires
        s.wf(),
        0 <= i < s.names().len(),
        0 <= k < s.deps(i).len(),
    ensures
        exists|j: int| 0 <= j < i && s.names()[j] == s.deps(i)[k],
{
    assert(s.declared_before(i, k));
}

} // verus!
