//! Command buffer with causality metadata for deferred ECS mutations.
//!
//! The [`CommandBuffer`] collects deferred mutations to the ECS world during a
//! tick. Each command carries causality metadata ([`SystemId`],
//! [`CausalReason`]) that feeds the manifest's causal chains. Commands are
//! applied in FIFO order after all systems have run.
//!
//! Component values in commands are JSON values; applying a command hands
//! them to the world by component name.
use crate::bundle::ComponentBundle;
use crate::component::{id_space, ComponentTypeId};
use crate::entity::{index_space, lemma_id_parts, EntityId};
use crate::identity::{EntityIdentity, Identity, PoolIdentity, SystemId};
use crate::strings::str_eq;
use crate::value::ComponentValue;
use crate::world::{chain_step_at, despawn_step, remove_by_name_step, set_by_name_step, set_chain, spawn_step, spawned_with_identity, World};
use vstd::prelude::*;

verus! {

/// Why a command was issued. This feeds the manifest's causal chains.
#[derive(Debug, Clone, PartialEq)]
pub enum CausalReason {
    /// Caused by player input.
    PlayerInput(String),
    /// Caused by a collision between two entities.
    CollisionResponse(EntityId, EntityId),
    /// Caused by a game rule (e.g. "brick_destroyed_on_hit").
    GameRule(String),
    /// Caused by a state transition.
    StateTransition {
        /// The state being transitioned from.
        from: String,
        /// The state being transitioned to.
        to: String,
    },
    /// Caused by a timer firing.
    Timer(String),
    /// Internal system logic -- last resort, prefer more specific reasons.
    SystemInternal(String),
}

/// The data payload for a command -- what mutation to perform.
#[derive(Debug)]
pub enum CommandKind {
    /// Set a component value on an entity (insert or overwrite).
    SetComponent {
        /// Registered name of the component type.
        component_name: String,
        /// The component value in JSON form.
        value: serde_json::Value,
    },
    /// Remove a component from an entity.
    RemoveComponent {
        /// Registered name of the component type.
        component_name: String,
    },
    /// Despawn an entity entirely.
    Despawn,
    /// Spawn a semantic-tier entity with full identity and optional components.
    SpawnSemantic {
        /// The entity's semantic identity.
        identity: EntityIdentity,
        /// Component values (name, JSON) to attach on spawn.
        components: Vec<(String, serde_json::Value)>,
    },
    /// Spawn a pooled-tier entity with type-level identity and optional components.
    SpawnPooled {
        /// The entity's pool identity.
        identity: PoolIdentity,
        /// Component values (name, JSON) to attach on spawn.
        components: Vec<(String, serde_json::Value)>,
    },
}

/// A single deferred mutation with full causality metadata.
///
/// For spawn commands the `target` is `None` because the entity does not
/// exist yet; after application `spawned_entity` holds the new entity.
#[derive(Debug)]
pub struct Command {
    /// Which entity this command targets. `None` for spawn commands.
    pub target: Option<EntityId>,
    /// What mutation to perform.
    pub kind: CommandKind,
    /// Which system issued this command.
    pub issued_by: SystemId,
    /// Why this command was issued (feeds manifest causality).
    pub reason: CausalReason,
    /// Sequential index within the buffer (set on insertion).
    pub command_index: u32,
    /// For spawn commands: the entity created by application.
    pub spawned_entity: Option<EntityId>,
    /// Whether the command was applied successfully.
    pub applied_successfully: bool,
}

/// Whether a command has the target its kind needs: set, remove and despawn
/// commands name an entity.
pub open spec fn has_needed_target(c: Command) -> bool {
    match c.kind {
        CommandKind::SetComponent { .. } => c.target is Some,
        CommandKind::RemoveComponent { .. } => c.target is Some,
        CommandKind::Despawn => c.target is Some,
        _ => true,
    }
}

/// The (entity, component name) pair a set or remove command targets.
pub open spec fn command_key(c: Command) -> Option<(EntityId, Seq<char>)> {
    match c.kind {
        CommandKind::SetComponent { component_name, .. } => match c.target {
            Some(t) => Some((t, component_name@)),
            None => None,
        },
        CommandKind::RemoveComponent { component_name } => match c.target {
            Some(t) => Some((t, component_name@)),
            None => None,
        },
        _ => None,
    }
}

/// Command `i` is the first of two or more commands of `cmds` that target
/// the same (entity, component) pair.
pub open spec fn opens_conflict(cmds: Seq<Command>, i: int) -> bool {
    &&& command_key(cmds[i]) is Some
    &&& forall|j: int| 0 <= j < i ==> command_key(#[trigger] cmds[j]) != command_key(cmds[i])
    &&& exists|j: int| i < j < cmds.len() && command_key(#[trigger] cmds[j]) == command_key(cmds[i])
}

/// Among the first `n` commands, how many open a conflict; over all of
/// `cmds`, this is the number of (entity, component) pairs that two or more
/// commands target.
pub open spec fn conflicts_upto(cmds: Seq<Command>, n: int) -> nat
    decreases n,
{
    if n <= 0 {
        0
    } else {
        conflicts_upto(cmds, n - 1) + if opens_conflict(cmds, n - 1) {
            1nat
        } else {
            0nat
        }
    }
}

/// Law: the commands that can conflict. A set or a remove command on an
/// entity targets the pair of that entity and its component name, whatever
/// value it carries; a despawn or spawn command targets no pair.
pub proof fn lemma_command_key(c: Command)
    ensures
        match c.kind {
            CommandKind::SetComponent { component_name, .. } => match c.target {
                Some(t) => command_key(c) == Some((t, component_name@)),
                None => command_key(c) is None,
            },
            CommandKind::RemoveComponent { component_name } => match c.target {
                Some(t) => command_key(c) == Some((t, component_name@)),
                None => command_key(c) is None,
            },
            _ => command_key(c) is None,
        },
{
}

/// Law: the success count is the number of commands marked as applied.
pub proof fn lemma_count_applied(cmds: Seq<Command>)
    ensures
        count_applied(cmds) == cmds.filter(|c: Command| c.applied_successfully).len(),
    decreases cmds.len(),
{
    reveal(Seq::filter);
    if cmds.len() > 0 {
        lemma_count_applied(cmds.drop_last());
    }
}

/// The (entity, component name) pairs that two or more commands of `cmds`
/// target.
pub open spec fn repeated_keys(cmds: Seq<Command>) -> Set<(EntityId, Seq<char>)> {
    Set::new(
        |k: (EntityId, Seq<char>)|
            exists|i: int, j: int|
                0 <= i < j < cmds.len() && #[trigger] command_key(cmds[i]) == Some(k) && #[trigger] command_key(cmds[j])
                    == Some(k),
    )
}

/// The keys of the commands among the first `n` that open a conflict.
spec fn opened_keys(cmds: Seq<Command>, n: int) -> Set<(EntityId, Seq<char>)> {
    Set::new(
        |k: (EntityId, Seq<char>)|
            exists|i: int| 0 <= i < n && #[trigger] opens_conflict(cmds, i) && command_key(cmds[i]) == Some(k),
    )
}

/// The keys opened among the first `n` commands are as many as the
/// commands that open them.
proof fn lemma_opened_keys(cmds: Seq<Command>, n: int)
    requires
        0 <= n <= cmds.len(),
    ensures
        opened_keys(cmds, n).finite(),
        opened_keys(cmds, n).len() == conflicts_upto(cmds, n),
    decreases n,
{
    if n == 0 {
        assert(opened_keys(cmds, 0) =~= Set::empty());
    } else {
        let m = n - 1;
        lemma_opened_keys(cmds, m);
        if opens_conflict(cmds, m) {
            let k = command_key(cmds[m])->0;
            assert(opened_keys(cmds, n) =~= opened_keys(cmds, m).insert(k)) by {
                assert(opens_conflict(cmds, m) && command_key(cmds[m]) == Some(k));
            }
            assert(!opened_keys(cmds, m).contains(k)) by {
                if opened_keys(cmds, m).contains(k) {
                    let i = choose|i: int| 0 <= i < m && #[trigger] opens_conflict(cmds, i) && command_key(cmds[i]) == Some(k);
                    assert(command_key(cmds[i]) != command_key(cmds[m]));
                }
            }
        } else {
            assert(opened_keys(cmds, n) =~= opened_keys(cmds, m));
        }
    }
}

/// A key that command `i` targets was first targeted by some command at or
/// before `i`.
proof fn lemma_first_with_key(cmds: Seq<Command>, k: (EntityId, Seq<char>), i: int)
    requires
        0 <= i < cmds.len(),
        command_key(cmds[i]) == Some(k),
    ensures
        exists|f: int|
            0 <= f <= i && command_key(cmds[f]) == Some(k) && forall|m: int|
                0 <= m < f ==> command_key(#[trigger] cmds[m]) != Some(k),
    decreases i,
{
    if exists|m: int| 0 <= m < i && command_key(#[trigger] cmds[m]) == Some(k) {
        let m = choose|m: int| 0 <= m < i && command_key(#[trigger] cmds[m]) == Some(k);
        lemma_first_with_key(cmds, k, m);
    } else {
        assert(forall|m: int| 0 <= m < i ==> command_key(#[trigger] cmds[m]) != Some(k));
    }
}

/// Law: the conflict count is the number of distinct (entity, component
/// name) pairs that two or more set or remove commands target; a pair
/// targeted three times counts once.
pub proof fn lemma_conflicts_are_repeated_keys(cmds: Seq<Command>)
    ensures
        repeated_keys(cmds).finite(),
        conflicts_upto(cmds, cmds.len() as int) == repeated_keys(cmds).len(),
{
    let n = cmds.len() as int;
    lemma_opened_keys(cmds, n);
    assert forall|k: (EntityId, Seq<char>)| opened_keys(cmds, n).contains(k) <==> repeated_keys(cmds).contains(k) by {
        if opened_keys(cmds, n).contains(k) {
            let i = choose|i: int| 0 <= i < n && #[trigger] opens_conflict(cmds, i) && command_key(cmds[i]) == Some(k);
            let j = choose|j: int| i < j < cmds.len() && command_key(#[trigger] cmds[j]) == command_key(cmds[i]);
            assert(command_key(cmds[i]) == Some(k) && command_key(cmds[j]) == Some(k));
        }
        if repeated_keys(cmds).contains(k) {
            let (i, j) = choose|i: int, j: int|
                0 <= i < j < cmds.len() && #[trigger] command_key(cmds[i]) == Some(k) && #[trigger] command_key(cmds[j])
                    == Some(k);
            lemma_first_with_key(cmds, k, i);
            let f = choose|f: int|
                0 <= f <= i && command_key(cmds[f]) == Some(k) && forall|m: int|
                    0 <= m < f ==> command_key(#[trigger] cmds[m]) != Some(k);
            assert(command_key(cmds[j]) == command_key(cmds[f]));
            assert(opens_conflict(cmds, f));
        }
    }
    assert(opened_keys(cmds, n) =~= repeated_keys(cmds));
}

/// How many commands of `cmds` are marked as applied successfully.
pub open spec fn count_applied(cmds: Seq<Command>) -> nat
    decreases cmds.len(),
{
    if cmds.len() == 0 {
        0
    } else {
        count_applied(cmds.drop_last()) + if cmds.last().applied_successfully {
            1nat
        } else {
            0nat
        }
    }
}

/// The number of world operations applying a command takes: one, plus one
/// per component a spawn command sets.
pub open spec fn command_work(c: Command) -> nat {
    match c.kind {
        CommandKind::SpawnSemantic { components, .. } => components@.len() + 1,
        CommandKind::SpawnPooled { components, .. } => components@.len() + 1,
        _ => 1,
    }
}

/// The number of world operations applying all of `cmds` takes.
pub open spec fn total_work(cmds: Seq<Command>) -> nat
    decreases cmds.len(),
{
    if cmds.len() == 0 {
        0
    } else {
        total_work(cmds.drop_last()) + command_work(cmds.last())
    }
}

/// Applying command `c` to world `w` gave world `w2` and the recorded command
/// `out`: `out` is `c` with its outcome filled in, and the world changed as
/// the world operation for `c` says.
pub open spec fn command_step<F: Fn(ComponentTypeId, &serde_json::Value) -> Option<ComponentValue>>(
    decode: &F,
    w: World,
    c: Command,
    out: Command,
    w2: World,
) -> bool {
    &&& out == Command { applied_successfully: out.applied_successfully, spawned_entity: out.spawned_entity, ..c }
    &&& match c.kind {
        CommandKind::SetComponent { component_name, value } => {
            &&& out.spawned_entity is None
            &&& set_by_name_step(decode, w, c.target->0, component_name@, value, out.applied_successfully, w2)
        },
        CommandKind::RemoveComponent { component_name } => {
            &&& out.spawned_entity is None
            &&& remove_by_name_step(w, c.target->0, component_name@, out.applied_successfully, w2)
        },
        CommandKind::Despawn => {
            &&& out.spawned_entity is None
            &&& despawn_step(w, c.target->0, out.applied_successfully, w2)
        },
        CommandKind::SpawnSemantic { identity, components } => {
            &&& out.applied_successfully
            &&& out.spawned_entity is Some
            &&& spawn_step(decode, w, Identity::Semantic(identity), components@, out.spawned_entity->0, w2)
        },
        CommandKind::SpawnPooled { identity, components } => {
            &&& out.applied_successfully
            &&& out.spawned_entity is Some
            &&& spawn_step(decode, w, Identity::Pooled(identity), components@, out.spawned_entity->0, w2)
        },
    }
}

/// Step `i` of an application: command `cmds[i]` took world `ws[i]` to
/// `ws[i + 1]` and was recorded as `outs[i]`.
pub open spec fn step_at<F: Fn(ComponentTypeId, &serde_json::Value) -> Option<ComponentValue>>(
    decode: &F,
    ws: Seq<World>,
    cmds: Seq<Command>,
    outs: Seq<Command>,
    i: int,
) -> bool {
    command_step(decode, ws[i], cmds[i], outs[i], ws[i + 1])
}

/// `ws` are the worlds met while applying `cmds` in order, recorded as `outs`.
pub open spec fn apply_trace<F: Fn(ComponentTypeId, &serde_json::Value) -> Option<ComponentValue>>(
    decode: &F,
    ws: Seq<World>,
    cmds: Seq<Command>,
    outs: Seq<Command>,
) -> bool {
    &&& ws.len() == cmds.len() + 1
    &&& outs.len() == cmds.len()
    &&& forall|i: int| 0 <= i < cmds.len() ==> #[trigger] step_at(decode, ws, cmds, outs, i)
}

proof fn lemma_work_step(s: Seq<Command>, i: int)
    requires
        0 <= i < s.len(),
    ensures
        total_work(s.take(i + 1)) == total_work(s.take(i)) + command_work(s[i]),
{
    assert(s.take(i + 1).drop_last() =~= s.take(i));
}

proof fn lemma_work_prefix(s: Seq<Command>, i: int)
    requires
        0 <= i <= s.len(),
    ensures
        total_work(s.take(i)) <= total_work(s),
    decreases s.len() - i,
{
    if i == s.len() {
        assert(s.take(i) =~= s);
    } else {
        lemma_work_prefix(s, i + 1);
        lemma_work_step(s, i);
    }
}

/// Whether commands `a` and `b` are set or remove commands on the same
/// (entity, component name) pair.
fn same_key(a: &Command, b: &Command) -> (r: bool)
    ensures
        r == (command_key(*a) is Some && command_key(*a) == command_key(*b)),
{
    let ta = match a.target {
        Some(t) => t,
        None => {
            return false;
        },
    };
    let tb = match b.target {
        Some(t) => t,
        None => {
            return false;
        },
    };
    let na: &String = match &a.kind {
        CommandKind::SetComponent { component_name, .. } => component_name,
        CommandKind::RemoveComponent { component_name } => component_name,
        _ => {
            return false;
        },
    };
    let nb: &String = match &b.kind {
        CommandKind::SetComponent { component_name, .. } => component_name,
        CommandKind::RemoveComponent { component_name } => component_name,
        _ => {
            return false;
        },
    };
    ta == tb && str_eq(na.as_str(), nb.as_str())
}

/// The number of (entity, component name) pairs that two or more of the set
/// and remove commands of `cmds` target.
fn count_conflicts(cmds: &[Command]) -> (count: usize)
    ensures
        count == conflicts_upto(cmds@, cmds@.len() as int),
{
    let mut count: usize = 0;
    let mut i: usize = 0;
    while i < cmds.len()
        invariant
            i <= cmds@.len(),
            count == conflicts_upto(cmds@, i as int),
            count <= i,
        decreases cmds@.len() - i,
    {
        let keyed = same_key(&cmds[i], &cmds[i]);
        if keyed {
            let mut first = true;
            let mut j: usize = 0;
            while j < i && first
                invariant
                    j <= i,
                    i < cmds@.len(),
                    command_key(cmds@[i as int]) is Some,
                    first ==> forall|k: int| 0 <= k < j ==> command_key(#[trigger] cmds@[k]) != command_key(cmds@[i as int]),
                    !first ==> exists|k: int| 0 <= k < i && command_key(#[trigger] cmds@[k]) == command_key(cmds@[i as int]),
                decreases i - j,
            {
                if same_key(&cmds[j], &cmds[i]) {
                    first = false;
                }
                j = j + 1;
            }
            let mut repeated = false;
            let mut j: usize = i + 1;
            while j < cmds.len() && !repeated
                invariant
                    i < j <= cmds@.len(),
                    command_key(cmds@[i as int]) is Some,
                    !repeated ==> forall|k: int| i < k < j ==> command_key(#[trigger] cmds@[k]) != command_key(cmds@[i as int]),
                    repeated ==> exists|k: int| i < k < cmds@.len() && command_key(#[trigger] cmds@[k]) == command_key(cmds@[i as int]),
                decreases cmds@.len() - j,
            {
                if same_key(&cmds[j], &cmds[i]) {
                    repeated = true;
                }
                j = j + 1;
            }
            proof {
                assert(opens_conflict(cmds@, i as int) == (first && repeated));
            }
            if first && repeated {
                count = count + 1;
            }
        }
        i = i + 1;
    }
    count
}

/// Spawns an entity with `identity`, then sets the named `components` on it
/// one after the other; a component that cannot be set is skipped.
fn apply_spawn<F: Fn(ComponentTypeId, &serde_json::Value) -> Option<ComponentValue>>(
    world: &mut World,
    identity: Identity,
    components: &Vec<(String, serde_json::Value)>,
    decode: &F,
) -> (e: EntityId)
    requires
        old(world).wf(),
        old(world).allocator_state().can_allocate(),
        old(world).archs().len() + components@.len() + 1 < id_space(),
        forall|t: ComponentTypeId, v: &serde_json::Value| decode.requires((t, v)),
    ensures
        final(world).wf(),
        spawn_step(decode, *old(world), identity, components@, e, *final(world)),
        final(world).archs().len() <= old(world).archs().len() + components@.len() + 1,
        final(world).allocator_state().gens().len() <= old(world).allocator_state().gens().len() + 1,
{
    let bundle = ComponentBundle::new();
    proof {
        assert(bundle.types() =~= Seq::<ComponentTypeId>::empty());
    }
    let r = match identity {
        Identity::Semantic(i) => world.spawn_semantic(i, bundle),
        Identity::Pooled(p) => world.spawn_pooled(p, bundle),
    };
    let e = match r {
        Ok(e) => e,
        Err(_) => EntityId::new(0, 0),
    };
    let ghost w1 = *world;
    proof {
        assert(spawned_with_identity(*old(world), identity, e, w1));
    }
    let ghost mut ws: Seq<World> = seq![*world];
    let ghost mut oks: Seq<bool> = Seq::empty();
    let mut k: usize = 0;
    while k < components.len()
        invariant
            k <= components@.len(),
            world.wf(),
            set_chain(decode, ws, e, components@.take(k as int), oks),
            ws[0] == w1,
            ws.last() == *world,
            world.archs().len() <= w1.archs().len() + k,
            world.allocator_state() == w1.allocator_state(),
            w1.archs().len() + components@.len() < id_space(),
            forall|t: ComponentTypeId, v: &serde_json::Value| decode.requires((t, v)),
        decreases components@.len() - k,
    {
        let ghost ws0 = ws;
        let ghost oks0 = oks;
        let r = world.set_component_by_name(e, components[k].0.as_str(), &components[k].1, decode);
        proof {
            ws = ws.push(*world);
            oks = oks.push(r is Ok);
            let c1 = components@.take(k + 1);
            assert forall|m: int| 0 <= m < c1.len() implies #[trigger] chain_step_at(decode, ws, e, c1, oks, m) by {
                if m < k {
                    assert(chain_step_at(decode, ws0, e, components@.take(k as int), oks0, m));
                }
            }
        }
        k = k + 1;
    }
    proof {
        assert(components@.take(k as int) =~= components@);
        assert(set_chain(decode, ws, e, components@, oks));
    }
    e
}

/// Summary of the last [`CommandBuffer::apply`] call.
#[derive(Debug, Clone, Copy, PartialEq, Eq, Structural)]
pub struct ApplyReport {
    /// Number of (entity, component) pairs targeted by multiple commands.
    pub conflict_count: usize,
    /// Number of commands that failed to apply.
    pub failed_count: usize,
    /// Number of commands that applied successfully.
    pub success_count: usize,
}

impl Default for ApplyReport {
    fn default() -> (r: Self)
        ensures
            r.conflict_count == 0,
            r.failed_count == 0,
            r.success_count == 0,
    {
        ApplyReport { conflict_count: 0, failed_count: 0, success_count: 0 }
    }
}

/// Collects commands during a tick and applies them in insertion order.
#[derive(Debug)]
pub struct CommandBuffer {
    /// The queued commands, in insertion order.
    commands: Vec<Command>,
    /// The index the next queued command receives.
    next_index: u32,
    /// Report of the last application.
    last_apply_report: ApplyReport,
}

impl CommandBuffer {
    /// The queued commands, in insertion order.
    pub closed spec fn queued(&self) -> Seq<Command> {
        self.commands@
    }

    /// The report of the last application.
    pub closed spec fn report(&self) -> ApplyReport {
        self.last_apply_report
    }

    /// Well-formedness: commands are numbered by position, each has the
    /// target its kind needs, and their number fits the `u32` numbering.
    pub closed spec fn wf(&self) -> bool {
        &&& self.next_index as int == self.commands@.len()
        &&& forall|i: int| 0 <= i < self.commands@.len() ==> (#[trigger] self.commands@[i]).command_index == i
        &&& forall|i: int| 0 <= i < self.commands@.len() ==> has_needed_target(#[trigger] self.commands@[i])
    }

    /// Whether another command can be queued without exhausting the `u32`
    /// numbering.
    pub open spec fn has_room(&self) -> bool {
        self.queued().len() < u32::MAX
    }

    /// Create a new, empty command buffer.
    pub fn new() -> (b: Self)
        ensures
            b.wf(),
            b.queued().len() == 0,
            b.report() == (ApplyReport { conflict_count: 0, failed_count: 0, success_count: 0 }),
    {
        CommandBuffer { commands: Vec::new(), next_index: 0, last_apply_report: ApplyReport::default() }
    }

    fn push(&mut self, target: Option<EntityId>, kind: CommandKind, issued_by: SystemId, reason: CausalReason)
        requires
            old(self).wf(),
            old(self).has_room(),
            has_needed_target(Command { target, kind, issued_by, reason, command_index: 0, spawned_entity: None, applied_successfully: false }),
        ensures
            final(self).wf(),
            final(self).report() == old(self).report(),
            final(self).queued() == old(self).queued().push(Command {
                target,
                kind,
                issued_by,
                reason,
                command_index: old(self).queued().len() as u32,
                spawned_entity: None,
                applied_successfully: false,
            }),
    {
        let index = self.next_index;
        self.next_index = self.next_index + 1;
        self.commands.push(Command {
            target,
            kind,
            issued_by,
            reason,
            command_index: index,
            spawned_entity: None,
            applied_successfully: false,
        });
    }

    /// Queue a `SetComponent` command.
    pub fn set_component(
        &mut self,
        target: EntityId,
        component_name: &str,
        value: serde_json::Value,
        issued_by: SystemId,
        reason: CausalReason,
    )
        requires
            old(self).wf(),
            old(self).has_room(),
        ensures
            final(self).wf(),
            final(self).report() == old(self).report(),
            final(self).queued().len() == old(self).queued().len() + 1,
            final(self).queued().drop_last() == old(self).queued(),
            ({
                let c = final(self).queued().last();
                &&& c.target == Some(target)
                &&& c.kind matches CommandKind::SetComponent { component_name: n, value: v } && n@ == component_name@ && v == value
                &&& c.issued_by == issued_by
                &&& c.reason == reason
                &&& c.command_index == old(self).queued().len()
                &&& c.spawned_entity is None
                &&& !c.applied_successfully
            }),
    {
        self.push(
            Some(target),
            CommandKind::SetComponent { component_name: component_name.to_owned(), value },
            issued_by,
            reason,
        );
    }

    /// Queue a `RemoveComponent` command.
    pub fn remove_component(&mut self, target: EntityId, component_name: &str, issued_by: SystemId, reason: CausalReason)
        requires
            old(self).wf(),
            old(self).has_room(),
        ensures
            final(self).wf(),
            final(self).report() == old(self).report(),
            final(self).queued().len() == old(self).queued().len() + 1,
            final(self).queued().drop_last() == old(self).queued(),
            ({
                let c = final(self).queued().last();
                &&& c.target == Some(target)
                &&& c.kind matches CommandKind::RemoveComponent { component_name: n } && n@ == component_name@
                &&& c.issued_by == issued_by
                &&& c.reason == reason
                &&& c.command_index == old(self).queued().len()
                &&& c.spawned_entity is None
                &&& !c.applied_successfully
            }),
    {
        self.push(
            Some(target),
            CommandKind::RemoveComponent { component_name: component_name.to_owned() },
            issued_by,
            reason,
        );
    }

    /// Queue a `Despawn` command.
    pub fn despawn(&mut self, target: EntityId, issued_by: SystemId, reason: CausalReason)
        requires
            old(self).wf(),
            old(self).has_room(),
        ensures
            final(self).wf(),
            final(self).report() == old(self).report(),
            final(self).queued() == old(self).queued().push(Command {
                target: Some(target),
                kind: CommandKind::Despawn,
                issued_by,
                reason,
                command_index: old(self).queued().len() as u32,
                spawned_entity: None,
                applied_successfully: false,
            }),
    {
        self.push(Some(target), CommandKind::Despawn, issued_by, reason);
    }

    /// Queue a `SpawnSemantic` command.
    pub fn spawn_semantic(
        &mut self,
        identity: EntityIdentity,
        components: Vec<(String, serde_json::Value)>,
        issued_by: SystemId,
        reason: CausalReason,
    )
        requires
            old(self).wf(),
            old(self).has_room(),
        ensures
            final(self).wf(),
            final(self).report() == old(self).report(),
            final(self).queued() == old(self).queued().push(Command {
                target: None,
                kind: CommandKind::SpawnSemantic { identity, components },
                issued_by,
                reason,
                command_index: old(self).queued().len() as u32,
                spawned_entity: None,
                applied_successfully: false,
            }),
    {
        self.push(None, CommandKind::SpawnSemantic { identity, components }, issued_by, reason);
    }

    /// Queue a `SpawnPooled` command.
    pub fn spawn_pooled(
        &mut self,
        identity: PoolIdentity,
        components: Vec<(String, serde_json::Value)>,
        issued_by: SystemId,
        reason: CausalReason,
    )
        requires
            old(self).wf(),
            old(self).has_room(),
        ensures
            final(self).wf(),
            final(self).report() == old(self).report(),
            final(self).queued() == old(self).queued().push(Command {
                target: None,
                kind: CommandKind::SpawnPooled { identity, components },
                issued_by,
                reason,
                command_index: old(self).queued().len() as u32,
                spawned_entity: None,
                applied_successfully: false,
            }),
    {
        self.push(None, CommandKind::SpawnPooled { identity, components }, issued_by, reason);
    }

    /// Push a pre-built command into the buffer. The command index is
    /// reassigned to the command's position in this buffer.
    pub fn push_raw(&mut self, cmd: Command)
        requires
            old(self).wf(),
            old(self).has_room(),
            has_needed_target(cmd),
        ensures
            final(self).wf(),
            final(self).report() == old(self).report(),
            final(self).queued() == old(self).queued().push(Command { command_index: old(self).queued().len() as u32, ..cmd }),
    {
        let mut cmd = cmd;
        cmd.command_index = self.next_index;
        self.next_index = self.next_index + 1;
        self.commands.push(cmd);
    }

    /// Get all queued commands in insertion order.
    pub fn commands(&self) -> (c: &[Command])
        ensures
            c@ == self.queued(),
            self.wf() ==> forall|i: int| 0 <= i < c@.len() ==> (#[trigger] c@[i]).command_index == i,
    {
        self.commands.as_slice()
    }

    /// Number of queued commands.
    pub fn len(&self) -> (n: usize)
        ensures
            n == self.queued().len(),
    {
        self.commands.len()
    }

    /// Whether the buffer is empty.
    pub fn is_empty(&self) -> (b: bool)
        ensures
            b == (self.queued().len() == 0),
    {
        self.commands.len() == 0
    }

    /// Report from the last [`apply`](Self::apply) call; all zero if
    /// `apply()` has never been called.
    pub fn last_apply_report(&self) -> (r: &ApplyReport)
        ensures
            *r == self.report(),
    {
        &self.last_apply_report
    }

    /// Apply all commands to the world in insertion order, and return them
    /// all, each marked with its outcome; the buffer is left empty.
    ///
    /// Set and remove commands go through the world's by-name operations,
    /// with `decode` reading each JSON value as its component's type. A
    /// command that fails (stale entity, unknown component, rejected value)
    /// is kept in the returned list with `applied_successfully == false`.
    /// Spawn commands always succeed: the new entity is recorded in
    /// `spawned_entity`, and components that cannot be set on it are skipped.
    ///
    /// The report counts the successes, the failures and the (entity,
    /// component) pairs that two or more set or remove commands target; the
    /// last of those commands wins.
    pub fn apply<F: Fn(ComponentTypeId, &serde_json::Value) -> Option<ComponentValue>>(
        &mut self,
        world: &mut World,
        decode: &F,
    ) -> (applied: Vec<Command>)
        requires
            old(self).wf(),
            old(world).wf(),
            forall|t: ComponentTypeId, v: &serde_json::Value| decode.requires((t, v)),
            old(world).archs().len() + total_work(old(self).queued()) < id_space(),
            old(world).allocator_state().gens().len() + old(self).queued().len() < index_space(),
        ensures
            final(self).wf(),
            final(self).queued().len() == 0,
            final(world).wf(),
            applied@.len() == old(self).queued().len(),
            forall|i: int| 0 <= i < applied@.len() ==> (#[trigger] applied@[i]).command_index == i,
            forall|i: int|
                0 <= i < applied@.len() ==> #[trigger] applied@[i] == (Command {
                    applied_successfully: applied@[i].applied_successfully,
                    spawned_entity: applied@[i].spawned_entity,
                    ..old(self).queued()[i]
                }),
            exists|ws: Seq<World>|
                #[trigger] apply_trace(decode, ws, old(self).queued(), applied@) && ws[0] == *old(world)
                    && ws.last() == *final(world),
            final(self).report().conflict_count == conflicts_upto(old(self).queued(), old(self).queued().len() as int),
            final(self).report().conflict_count == repeated_keys(old(self).queued()).len(),
            final(self).report().success_count == count_applied(applied@),
            final(self).report().success_count == applied@.filter(|c: Command| c.applied_successfully).len(),
            final(self).report().failed_count + count_applied(applied@) == old(self).queued().len(),
    {
        let mut cmds: Vec<Command> = Vec::new();
        std::mem::swap(&mut cmds, &mut self.commands);
        self.next_index = 0;
        let ghost c0 = cmds@;
        let ghost w0 = *world;
        let conflict_count = count_conflicts(cmds.as_slice());
        proof {
            lemma_conflicts_are_repeated_keys(cmds@);
        }
        let n = cmds.len();
        let mut applied: Vec<Command> = Vec::new();
        let mut success_count: usize = 0;
        let ghost mut ws: Seq<World> = seq![*world];
        let mut i: usize = 0;
        while i < n
            invariant
                n == c0.len(),
                i <= n,
                cmds@ == c0.skip(i as int),
                applied@.len() == i,
                ws.len() == i + 1,
                ws[0] == w0,
                ws[i as int] == *world,
                forall|k: int| 0 <= k < i ==> #[trigger] step_at(decode, ws, c0, applied@, k),
                world.wf(),
                success_count == count_applied(applied@),
                success_count <= i,
                world.archs().len() <= w0.archs().len() + total_work(c0.take(i as int)),
                world.allocator_state().gens().len() <= w0.allocator_state().gens().len() + i,
                w0.archs().len() + total_work(c0) < id_space(),
                w0.allocator_state().gens().len() + n < index_space(),
                forall|k: int| 0 <= k < c0.len() ==> has_needed_target(#[trigger] c0[k]),
                forall|t: ComponentTypeId, v: &serde_json::Value| decode.requires((t, v)),
                self.commands@.len() == 0,
                self.next_index == 0,
            decreases n - i,
        {
            let ghost ws0 = ws;
            let ghost a0 = applied@;
            let ghost wb = *world;
            proof {
                lemma_work_step(c0, i as int);
                lemma_work_prefix(c0, i as int + 1);
                assert(has_needed_target(c0[i as int]));
            }
            let mut cmd = cmds.remove(0);
            proof {
                assert(cmds@ =~= c0.skip(i as int + 1));
            }
            let (ok, spawned): (bool, Option<EntityId>) = match &cmd.kind {
                CommandKind::SetComponent { component_name, value } => {
                    let r = world.set_component_by_name(cmd.target.unwrap(), component_name.as_str(), value, decode);
                    (r.is_ok(), None)
                },
                CommandKind::RemoveComponent { component_name } => {
                    let r = world.remove_component_by_name(cmd.target.unwrap(), component_name.as_str());
                    (r.is_ok(), None)
                },
                CommandKind::Despawn => {
                    let r = world.despawn(cmd.target.unwrap());
                    (r.is_ok(), None)
                },
                CommandKind::SpawnSemantic { identity, components } => {
                    let e = apply_spawn(world, Identity::Semantic(identity.duplicate()), components, decode);
                    (true, Some(e))
                },
                CommandKind::SpawnPooled { identity, components } => {
                    let e = apply_spawn(world, Identity::Pooled(identity.duplicate()), components, decode);
                    (true, Some(e))
                },
            };
            cmd.applied_successfully = ok;
            cmd.spawned_entity = spawned;
            if ok {
                success_count = success_count + 1;
            }
            proof {
                assert(command_step(decode, wb, c0[i as int], cmd, *world));
            }
            applied.push(cmd);
            proof {
                ws = ws0.push(*world);
                assert(applied@.drop_last() =~= a0);
                assert forall|k: int| 0 <= k < i + 1 implies #[trigger] step_at(decode, ws, c0, applied@, k) by {
                    if k < i {
                        assert(step_at(decode, ws0, c0, a0, k));
                        assert(ws[k] == ws0[k]);
                        assert(ws[k + 1] == ws0[k + 1]);
                        assert(applied@[k] == a0[k]);
                    }
                }
            }
            i = i + 1;
        }
        proof {
            assert(apply_trace(decode, ws, c0, applied@));
            assert forall|k: int| 0 <= k < applied@.len() implies (#[trigger] applied@[k]).command_index == k by {
                assert(step_at(decode, ws, c0, applied@, k));
                assert(c0[k].command_index == k);
            }
            assert forall|k: int| 0 <= k < applied@.len() implies #[trigger] applied@[k] == (Command {
                applied_successfully: applied@[k].applied_successfully,
                spawned_entity: applied@[k].spawned_entity,
                ..c0[k]
            }) by {
                assert(step_at(decode, ws, c0, applied@, k));
            }
        }
        self.last_apply_report = ApplyReport {
            conflict_count,
            failed_count: n - success_count,
            success_count,
        };
        proof {
            lemma_count_applied(applied@);
        }
        applied
    }

    /// Whether applying the queued commands to `world` stays within the
    /// 32-bit id spaces, as [`apply`](Self::apply) requires: one new
    /// archetype at most per world operation, one new index at most per
    /// command.
    pub fn fits_in(&self, world: &World) -> (b: bool)
        requires
            self.wf(),
            world.wf(),
        ensures
            b == (world.archs().len() + total_work(self.queued()) < id_space()
                && world.allocator_state().gens().len() + self.queued().len() < index_space()),
    {
        let slots = world.allocator().slot_count() as u64;
        if slots >= 0x1_0000_0000u64 || (self.commands.len() as u64) >= 0x1_0000_0000u64 - slots {
            return false;
        }
        let mut w: u64 = world.archetype_count() as u64;
        if w >= 0x1_0000_0000u64 {
            proof {
                lemma_total_work_prefix(self.queued(), 0);
            }
            return false;
        }
        let mut i: usize = 0;
        while i < self.commands.len()
            invariant
                i <= self.commands@.len(),
                w == world.archs().len() + total_work(self.commands@.take(i as int)),
                w < 0x1_0000_0000u64,
            decreases self.commands@.len() - i,
        {
            let work: usize = match &self.commands[i].kind {
                CommandKind::SpawnSemantic { components, .. } => components.len(),
                CommandKind::SpawnPooled { components, .. } => components.len(),
                _ => 0,
            };
            proof {
                assert(self.commands@.take(i as int + 1).drop_last() =~= self.commands@.take(i as int));
                assert(command_work(self.commands@[i as int]) == work + 1);
            }
            if (work as u64) >= 0x1_0000_0000u64 - 1 - w {
                proof {
                    lemma_total_work_prefix(self.queued(), i as int + 1);
                }
                return false;
            }
            w = w + work as u64 + 1;
            i = i + 1;
        }
        proof {
            assert(self.commands@.take(i as int) =~= self.commands@);
        }
        true
    }

    /// Clear the buffer without applying any commands.
    pub fn clear(&mut self)
        ensures
            final(self).wf(),
            final(self).queued().len() == 0,
            final(self).report() == old(self).report(),
    {
        self.commands.clear();
        self.next_index = 0;
    }
}

/// The work of a prefix of a command sequence is at most that of the whole.
proof fn lemma_total_work_prefix(cmds: Seq<Command>, i: int)
    requires
        0 <= i <= cmds.len(),
    ensures
        total_work(cmds.take(i)) <= total_work(cmds),
    decreases cmds.len() - i,
{
    if i < cmds.len() {
        lemma_total_work_prefix(cmds, i + 1);
        assert(cmds.take(i + 1).drop_last() =~= cmds.take(i));
    } else {
        assert(cmds.take(i) =~= cmds);
    }
}

/// A chain of by-name sets on entity `x` leaves every other entity's
/// components as they were.
proof fn lemma_chain_keeps<F: Fn(ComponentTypeId, &serde_json::Value) -> Option<ComponentValue>>(
    decode: &F,
    ws: Seq<World>,
    x: EntityId,
    comps: Seq<(String, serde_json::Value)>,
    oks: Seq<bool>,
    e: EntityId,
    n: int,
)
    requires
        set_chain(decode, ws, x, comps, oks),
        0 <= n <= comps.len(),
        x != e,
        ws[0].view().contains_key(e),
    ensures
        ws[n].view().contains_key(e),
        ws[n].view()[e] == ws[0].view()[e],
        ws[n].reg() == ws[0].reg(),
    decreases n,
{
    if n > 0 {
        lemma_chain_keeps(decode, ws, x, comps, oks, e, n - 1);
        assert(chain_step_at(decode, ws, x, comps, oks, n - 1));
    }
}

/// One applied command that neither targets the pair (`e`, `name`) nor
/// despawns `e` leaves that component of `e` as it was.
proof fn lemma_step_keeps<F: Fn(ComponentTypeId, &serde_json::Value) -> Option<ComponentValue>>(
    decode: &F,
    w: World,
    c: Command,
    out: Command,
    w2: World,
    e: EntityId,
    name: Seq<char>,
)
    requires
        command_step(decode, w, c, out, w2),
        has_needed_target(c),
        w.wf(),
        w.reg().id_for_name(name) is Some,
        w.view().contains_key(e),
        w.view()[e].contains_key(w.reg().id_for_name(name)->0),
        command_key(c) != Some((e, name)),
        !(c.kind is Despawn && c.target == Some(e)),
    ensures
        w2.wf(),
        w2.reg() == w.reg(),
        w2.view().contains_key(e),
        w2.view()[e].contains_key(w.reg().id_for_name(name)->0),
        w2.view()[e][w.reg().id_for_name(name)->0] == w.view()[e][w.reg().id_for_name(name)->0],
{
    w.lemma_wf_parts();
    let t = w.reg().id_for_name(name)->0;
    match c.kind {
        CommandKind::SetComponent { component_name, value } => {
            let n2 = component_name@;
            assert(set_by_name_step(decode, w, c.target->0, n2, value, out.applied_successfully, w2));
            if w.reg().id_for_name(n2) is Some && c.target->0 == e {
                w.reg().lemma_known_name(n2, name);
                w.reg().lemma_known_name(name, n2);
            }
        },
        CommandKind::RemoveComponent { component_name } => {
            let n2 = component_name@;
            if w.reg().id_for_name(n2) is Some && c.target->0 == e {
                w.reg().lemma_known_name(n2, name);
                w.reg().lemma_known_name(name, n2);
            }
        },
        CommandKind::Despawn => {},
        CommandKind::SpawnSemantic { identity, components } => {
            let x = out.spawned_entity->0;
            let (ws2, oks) = choose|ws2: Seq<World>, oks: Seq<bool>|
                #[trigger] set_chain(decode, ws2, x, components@, oks) && spawned_with_identity(
                    w,
                    Identity::Semantic(identity),
                    x,
                    ws2[0],
                ) && ws2.last() == w2;
            lemma_chain_keeps(decode, ws2, x, components@, oks, e, components@.len() as int);
            lemma_chain_registry(decode, ws2, x, components@, oks, components@.len() as int);
            assert(ws2.last() == ws2[components@.len() as int]);
        },
        CommandKind::SpawnPooled { identity, components } => {
            let x = out.spawned_entity->0;
            let (ws2, oks) = choose|ws2: Seq<World>, oks: Seq<bool>|
                #[trigger] set_chain(decode, ws2, x, components@, oks) && spawned_with_identity(
                    w,
                    Identity::Pooled(identity),
                    x,
                    ws2[0],
                ) && ws2.last() == w2;
            lemma_chain_keeps(decode, ws2, x, components@, oks, e, components@.len() as int);
            lemma_chain_registry(decode, ws2, x, components@, oks, components@.len() as int);
            assert(ws2.last() == ws2[components@.len() as int]);
        },
    }
}

/// Law: the last write wins. When command `j` of an applied buffer is a
/// successful set of component `name` on entity `e`, and no later command
/// sets or removes that component or despawns `e`, the world after the whole
/// buffer holds the value that command `j` stored there (the value `decode`
/// gave back for its JSON).
pub proof fn lemma_last_write_wins<F: Fn(ComponentTypeId, &serde_json::Value) -> Option<ComponentValue>>(
    decode: &F,
    ws: Seq<World>,
    cmds: Seq<Command>,
    outs: Seq<Command>,
    j: int,
)
    requires
        apply_trace(decode, ws, cmds, outs),
        forall|m: int| 0 <= m < cmds.len() ==> has_needed_target(#[trigger] cmds[m]),
        ws[0].wf(),
        0 <= j < cmds.len(),
        cmds[j].kind is SetComponent,
        outs[j].applied_successfully,
        forall|k: int|
            j < k < cmds.len() ==> command_key(#[trigger] cmds[k]) != command_key(cmds[j]) && !(cmds[k].kind is Despawn
                && cmds[k].target == cmds[j].target),
    ensures
        ({
            let e = cmds[j].target->0;
            let name = cmds[j].kind->SetComponent_component_name@;
            let t = ws[0].reg().id_for_name(name)->0;
            &&& ws[0].reg().id_for_name(name) is Some
            &&& ws.last().view().contains_key(e)
            &&& ws.last().view()[e].contains_key(t)
            &&& ws.last().view()[e][t] == ws[j + 1].view()[e][t]
            &&& decode.ensures((t, &cmds[j].kind->SetComponent_value), Some(ws.last().view()[e][t]))
        }),
{
    let e = cmds[j].target->0;
    let name = cmds[j].kind->SetComponent_component_name@;
    let n = cmds.len() as int;
    lemma_trace_keeps_registry(decode, ws, cmds, outs, n);
    assert(step_at(decode, ws, cmds, outs, j));
    lemma_trace_wf(decode, ws, cmds, outs, j);
    lemma_written_value_kept(decode, ws, cmds, outs, j, n);
    assert(ws.last() == ws[n]);
}

/// The value written by command `j` is still there in world `k`.
proof fn lemma_written_value_kept<F: Fn(ComponentTypeId, &serde_json::Value) -> Option<ComponentValue>>(
    decode: &F,
    ws: Seq<World>,
    cmds: Seq<Command>,
    outs: Seq<Command>,
    j: int,
    k: int,
)
    requires
        apply_trace(decode, ws, cmds, outs),
        forall|m: int| 0 <= m < cmds.len() ==> has_needed_target(#[trigger] cmds[m]),
        ws[0].wf(),
        0 <= j < k <= cmds.len(),
        cmds[j].kind is SetComponent,
        outs[j].applied_successfully,
        forall|m: int| 0 <= m <= cmds.len() ==> #[trigger] ws[m].reg() == ws[0].reg(),
        forall|m: int|
            j < m < cmds.len() ==> command_key(#[trigger] cmds[m]) != command_key(cmds[j]) && !(cmds[m].kind is Despawn
                && cmds[m].target == cmds[j].target),
    ensures
        ({
            let e = cmds[j].target->0;
            let name = cmds[j].kind->SetComponent_component_name@;
            let t = ws[0].reg().id_for_name(name)->0;
            &&& ws[0].reg().id_for_name(name) is Some
            &&& ws[k].wf()
            &&& ws[k].view().contains_key(e)
            &&& ws[k].view()[e].contains_key(t)
            &&& ws[k].view()[e][t] == ws[j + 1].view()[e][t]
            &&& decode.ensures((t, &cmds[j].kind->SetComponent_value), Some(ws[j + 1].view()[e][t]))
        }),
    decreases k,
{
    let e = cmds[j].target->0;
    let name = cmds[j].kind->SetComponent_component_name@;
    assert(has_needed_target(cmds[j]));
    assert(step_at(decode, ws, cmds, outs, j));
    lemma_trace_wf(decode, ws, cmds, outs, j);
    assert(ws[j].reg() == ws[0].reg());
    assert(ws[j + 1].reg() == ws[0].reg());
    if k > j + 1 {
        lemma_written_value_kept(decode, ws, cmds, outs, j, k - 1);
        assert(step_at(decode, ws, cmds, outs, k - 1));
        assert(has_needed_target(cmds[k - 1]));
        assert(ws[k - 1].reg() == ws[0].reg());
        lemma_step_keeps(decode, ws[k - 1], cmds[k - 1], outs[k - 1], ws[k], e, name);
    }
}

/// Every world of an application trace has the registry of the first.
proof fn lemma_trace_keeps_registry<F: Fn(ComponentTypeId, &serde_json::Value) -> Option<ComponentValue>>(
    decode: &F,
    ws: Seq<World>,
    cmds: Seq<Command>,
    outs: Seq<Command>,
    n: int,
)
    requires
        apply_trace(decode, ws, cmds, outs),
        0 <= n <= cmds.len(),
    ensures
        forall|m: int| 0 <= m <= n ==> #[trigger] ws[m].reg() == ws[0].reg(),
    decreases n,
{
    if n > 0 {
        lemma_trace_keeps_registry(decode, ws, cmds, outs, n - 1);
        assert(step_at(decode, ws, cmds, outs, n - 1));
        lemma_step_registry(decode, ws[n - 1], cmds[n - 1], outs[n - 1], ws[n]);
    }
}

/// Every world after the first of an application trace is well formed.
proof fn lemma_trace_wf<F: Fn(ComponentTypeId, &serde_json::Value) -> Option<ComponentValue>>(
    decode: &F,
    ws: Seq<World>,
    cmds: Seq<Command>,
    outs: Seq<Command>,
    k: int,
)
    requires
        apply_trace(decode, ws, cmds, outs),
        0 <= k < cmds.len(),
    ensures
        ws[k + 1].wf(),
{
    assert(step_at(decode, ws, cmds, outs, k));
    lemma_step_registry(decode, ws[k], cmds[k], outs[k], ws[k + 1]);
}

/// One step keeps the registry and leaves a well-formed world.
proof fn lemma_step_registry<F: Fn(ComponentTypeId, &serde_json::Value) -> Option<ComponentValue>>(
    decode: &F,
    w: World,
    c: Command,
    out: Command,
    w2: World,
)
    requires
        command_step(decode, w, c, out, w2),
    ensures
        w2.reg() == w.reg(),
        w2.wf(),
{
    match c.kind {
        CommandKind::SpawnSemantic { identity, components } => {
            let x = out.spawned_entity->0;
            let (ws2, oks) = choose|ws2: Seq<World>, oks: Seq<bool>|
                #[trigger] set_chain(decode, ws2, x, components@, oks) && spawned_with_identity(
                    w,
                    Identity::Semantic(identity),
                    x,
                    ws2[0],
                ) && ws2.last() == w2;
            lemma_chain_registry(decode, ws2, x, components@, oks, components@.len() as int);
            assert(ws2.last() == ws2[components@.len() as int]);
        },
        CommandKind::SpawnPooled { identity, components } => {
            let x = out.spawned_entity->0;
            let (ws2, oks) = choose|ws2: Seq<World>, oks: Seq<bool>|
                #[trigger] set_chain(decode, ws2, x, components@, oks) && spawned_with_identity(
                    w,
                    Identity::Pooled(identity),
                    x,
                    ws2[0],
                ) && ws2.last() == w2;
            lemma_chain_registry(decode, ws2, x, components@, oks, components@.len() as int);
            assert(ws2.last() == ws2[components@.len() as int]);
        },
        CommandKind::Despawn => {
            if !out.applied_successfully {
            }
        },
        _ => {},
    }
}

/// A chain of by-name sets keeps the registry and well-formedness.
proof fn lemma_chain_registry<F: Fn(ComponentTypeId, &serde_json::Value) -> Option<ComponentValue>>(
    decode: &F,
    ws: Seq<World>,
    x: EntityId,
    comps: Seq<(String, serde_json::Value)>,
    oks: Seq<bool>,
    n: int,
)
    requires
        set_chain(decode, ws, x, comps, oks),
        ws[0].wf(),
        0 <= n <= comps.len(),
    ensures
        ws[n].reg() == ws[0].reg(),
        ws[n].wf(),
    decreases n,
{
    if n > 0 {
        lemma_chain_registry(decode, ws, x, comps, oks, n - 1);
        assert(chain_step_at(decode, ws, x, comps, oks, n - 1));
    }
}

/// Two worlds hold the same state: the same entities with the same
/// components, the same allocator state, registry and identity type.
pub open spec fn same_state(a: World, b: World) -> bool {
    &&& a.view() == b.view()
    &&& a.allocator_state().gens() == b.allocator_state().gens()
    &&& a.allocator_state().flags() == b.allocator_state().flags()
    &&& a.allocator_state().free() == b.allocator_state().free()
    &&& a.reg() == b.reg()
    &&& a.identity_id() == b.identity_id()
}

/// The decoder `decode` gives the same outcome for the same type and value.
pub open spec fn deterministic_check<F: Fn(ComponentTypeId, &serde_json::Value) -> Option<ComponentValue>>(decode: &F) -> bool {
    forall|t: ComponentTypeId, v: serde_json::Value, o1: Option<ComponentValue>, o2: Option<ComponentValue>|
        decode.ensures((t, &v), o1) && decode.ensures((t, &v), o2) ==> o1 == o2
}

proof fn lemma_set_deterministic<F: Fn(ComponentTypeId, &serde_json::Value) -> Option<ComponentValue>>(
    decode: &F,
    w1: World,
    w2: World,
    e: EntityId,
    name: Seq<char>,
    value: serde_json::Value,
    ok1: bool,
    ok2: bool,
    v1: World,
    v2: World,
)
    requires
        deterministic_check(decode),
        set_by_name_step(decode, w1, e, name, value, ok1, v1),
        set_by_name_step(decode, w2, e, name, value, ok2, v2),
        same_state(w1, w2),
    ensures
        ok1 == ok2,
        same_state(v1, v2),
{
    assert(w1.is_live(e) == w2.is_live(e));
}

proof fn lemma_chain_deterministic<F: Fn(ComponentTypeId, &serde_json::Value) -> Option<ComponentValue>>(
    decode: &F,
    ws1: Seq<World>,
    ws2: Seq<World>,
    e: EntityId,
    comps: Seq<(String, serde_json::Value)>,
    oks1: Seq<bool>,
    oks2: Seq<bool>,
    n: int,
)
    requires
        deterministic_check(decode),
        set_chain(decode, ws1, e, comps, oks1),
        set_chain(decode, ws2, e, comps, oks2),
        same_state(ws1[0], ws2[0]),
        0 <= n <= comps.len(),
    ensures
        same_state(ws1[n], ws2[n]),
    decreases n,
{
    if n > 0 {
        lemma_chain_deterministic(decode, ws1, ws2, e, comps, oks1, oks2, n - 1);
        assert(chain_step_at(decode, ws1, e, comps, oks1, n - 1));
        assert(chain_step_at(decode, ws2, e, comps, oks2, n - 1));
        lemma_set_deterministic(decode, ws1[n - 1], ws2[n - 1], e, comps[n - 1].0@, comps[n - 1].1, oks1[n - 1], oks2[n - 1], ws1[n], ws2[n]);
    }
}

proof fn lemma_spawn_deterministic<F: Fn(ComponentTypeId, &serde_json::Value) -> Option<ComponentValue>>(
    decode: &F,
    w1: World,
    w2: World,
    identity: Identity,
    comps: Seq<(String, serde_json::Value)>,
    e1: EntityId,
    e2: EntityId,
    v1: World,
    v2: World,
)
    requires
        deterministic_check(decode),
        spawn_step(decode, w1, identity, comps, e1, v1),
        spawn_step(decode, w2, identity, comps, e2, v2),
        same_state(w1, w2),
    ensures
        e1 == e2,
        same_state(v1, v2),
{
    let (ws1, oks1) = choose|ws: Seq<World>, oks: Seq<bool>|
        #[trigger] set_chain(decode, ws, e1, comps, oks) && spawned_with_identity(w1, identity, e1, ws[0])
            && ws.last() == v1;
    let (ws2, oks2) = choose|ws: Seq<World>, oks: Seq<bool>|
        #[trigger] set_chain(decode, ws, e2, comps, oks) && spawned_with_identity(w2, identity, e2, ws[0])
            && ws.last() == v2;
    lemma_id_parts(e1, e2);
    assert(e1 == e2);
    assert(same_state(ws1[0], ws2[0]));
    lemma_chain_deterministic(decode, ws1, ws2, e1, comps, oks1, oks2, comps.len() as int);
    assert(ws1.last() == ws1[comps.len() as int]);
    assert(ws2.last() == ws2[comps.len() as int]);
}

proof fn lemma_step_deterministic<F: Fn(ComponentTypeId, &serde_json::Value) -> Option<ComponentValue>>(
    decode: &F,
    w1: World,
    w2: World,
    c: Command,
    o1: Command,
    o2: Command,
    v1: World,
    v2: World,
)
    requires
        deterministic_check(decode),
        command_step(decode, w1, c, o1, v1),
        command_step(decode, w2, c, o2, v2),
        same_state(w1, w2),
    ensures
        o1 == o2,
        same_state(v1, v2),
{
    match c.kind {
        CommandKind::SetComponent { component_name, value } => {
            lemma_set_deterministic(decode, w1, w2, c.target->0, component_name@, value, o1.applied_successfully, o2.applied_successfully, v1, v2);
        },
        CommandKind::RemoveComponent { component_name } => {
            assert(w1.is_live(c.target->0) == w2.is_live(c.target->0));
        },
        CommandKind::Despawn => {
            assert(w1.is_live(c.target->0) == w2.is_live(c.target->0));
        },
        CommandKind::SpawnSemantic { identity, components } => {
            lemma_spawn_deterministic(decode, w1, w2, Identity::Semantic(identity), components@, o1.spawned_entity->0, o2.spawned_entity->0, v1, v2);
        },
        CommandKind::SpawnPooled { identity, components } => {
            lemma_spawn_deterministic(decode, w1, w2, Identity::Pooled(identity), components@, o1.spawned_entity->0, o2.spawned_entity->0, v1, v2);
        },
    }
}

/// Law: applying commands is deterministic. The same commands applied to two
/// worlds in the same state, with a decoder that gives the same outcome for
/// the same type and value, record the same outcomes (including the ids of
/// spawned entities) and leave the two worlds in the same state.
pub proof fn lemma_apply_deterministic<F: Fn(ComponentTypeId, &serde_json::Value) -> Option<ComponentValue>>(
    decode: &F,
    ws1: Seq<World>,
    ws2: Seq<World>,
    cmds: Seq<Command>,
    outs1: Seq<Command>,
    outs2: Seq<Command>,
)
    requires
        deterministic_check(decode),
        apply_trace(decode, ws1, cmds, outs1),
        apply_trace(decode, ws2, cmds, outs2),
        same_state(ws1[0], ws2[0]),
    ensures
        outs1 == outs2,
        same_state(ws1.last(), ws2.last()),
{
    lemma_trace_deterministic(decode, ws1, ws2, cmds, outs1, outs2, cmds.len() as int);
    assert(outs1 =~= outs2);
    assert(ws1.last() == ws1[cmds.len() as int]);
    assert(ws2.last() == ws2[cmds.len() as int]);
}

proof fn lemma_trace_deterministic<F: Fn(ComponentTypeId, &serde_json::Value) -> Option<ComponentValue>>(
    decode: &F,
    ws1: Seq<World>,
    ws2: Seq<World>,
    cmds: Seq<Command>,
    outs1: Seq<Command>,
    outs2: Seq<Command>,
    n: int,
)
    requires
        deterministic_check(decode),
        apply_trace(decode, ws1, cmds, outs1),
        apply_trace(decode, ws2, cmds, outs2),
        same_state(ws1[0], ws2[0]),
        0 <= n <= cmds.len(),
    ensures
        same_state(ws1[n], ws2[n]),
        forall|k: int| 0 <= k < n ==> outs1[k] == outs2[k],
    decreases n,
{
    if n > 0 {
        lemma_trace_deterministic(decode, ws1, ws2, cmds, outs1, outs2, n - 1);
        assert(step_at(decode, ws1, cmds, outs1, n - 1));
        assert(step_at(decode, ws2, cmds, outs2, n - 1));
        lemma_step_deterministic(decode, ws1[n - 1], ws2[n - 1], cmds[n - 1], outs1[n - 1], outs2[n - 1], ws1[n], ws2[n]);
    }
}

} // verus!
