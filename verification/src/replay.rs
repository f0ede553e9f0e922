//! Deterministic replay bookkeeping: recording inputs and state-hash
//! checkpoints tick by tick, and checking a recorded log before and during a
//! replay.
//!
//! A log holds, besides the initial snapshot, an ordered list of entries:
//! the non-empty input frame of a tick, or the state hash recorded at a tick
//! before it ran. Replaying restores the snapshot and runs `total_ticks`
//! ticks from the snapshot's tick, feeding each tick its recorded input (an
//! empty frame when none was recorded) and comparing the state hash at each
//! checkpoint; the first mismatch ends the replay.
use crate::strings::{append_decimal, append_str, decimal, str_eq, string_from_chars};
use crate::tick::InputFrame;
use vstd::prelude::*;

verus! {

/// A single entry of a replay log.
#[derive(Debug)]
pub enum ReplayEntry {
    /// An input frame recorded at the given tick.
    Input {
        /// The tick number at which this input was active.
        tick: u64,
        /// The input frame for this tick.
        input: InputFrame,
    },
    /// A state hash checkpoint recorded at the given tick (before it ran).
    Checkpoint {
        /// The tick number at which this checkpoint was taken.
        tick: u64,
        /// The hex digest of the engine state at this tick.
        state_hash: String,
    },
}

/// A complete replay log: the initial snapshot and the ordered entries.
#[derive(Debug)]
pub struct ReplayLog<S> {
    /// The snapshot captured at the start of recording.
    pub initial_snapshot: S,
    /// Optional hex digest of the gameplay module that was active during
    /// recording (informational).
    pub gameplay_module_hash: Option<String>,
    /// Total number of ticks recorded; a replay runs exactly this many.
    pub total_ticks: u64,
    /// Ordered sequence of entries (inputs and checkpoints).
    pub entries: Vec<ReplayEntry>,
}

/// The outcome of a replay.
#[derive(Debug, Clone)]
pub struct ReplayResult {
    /// Whether the replay ran to completion without a divergence.
    pub completed: bool,
    /// The number of ticks replayed.
    pub ticks_replayed: u64,
    /// The first checkpoint whose hash did not match, if any.
    pub first_divergence: Option<ReplayDivergence>,
}

/// Where a replay stands: the tick about to be replayed and the number of
/// ticks replayed before it.
#[derive(Debug, Clone, Copy)]
pub struct ReplayProgress {
    /// The tick about to be replayed.
    pub tick: u64,
    /// The ticks replayed so far.
    pub ticks_replayed: u64,
}

/// What a replay driver does next: replay a tick, or stop with a result.
#[derive(Debug)]
pub enum ReplayStep {
    /// Feed the tick's input, hash at a checkpoint, ask
    /// [`ReplayPlan::stop_at`], then tick.
    Run(ReplayProgress),
    /// The replay is over.
    Done(ReplayResult),
}

/// Details about a determinism failure detected during replay.
#[derive(Debug, Clone)]
pub struct ReplayDivergence {
    /// The tick at which the divergence was detected.
    pub tick: u64,
    /// The state hash recorded in the log at this tick.
    pub expected_hash: String,
    /// The state hash computed during replay at this tick.
    pub actual_hash: String,
}

/// `added` are the entries `record_tick` appends for one tick: the input,
/// when it is non-empty, then the checkpoint, when a hash is given and the
/// tick falls on the interval (every tick when the interval is 0).
pub open spec fn records_tick(
    added: Seq<ReplayEntry>,
    tick: u64,
    input: InputFrame,
    state_hash: Option<String>,
    interval: u64,
) -> bool {
    let want_input = input.inputs@.len() > 0;
    let want_checkpoint = state_hash is Some && (interval == 0 || tick % interval == 0);
    &&& added.len() == (if want_input { 1int } else { 0int }) + (if want_checkpoint { 1int } else { 0int })
    &&& want_input ==> (added[0] matches ReplayEntry::Input { tick: t, input: f } && t == tick && f.inputs@ == input.inputs@)
    &&& want_checkpoint ==> added.last() == ReplayEntry::Checkpoint { tick, state_hash: state_hash->0 }
}

/// Entries are ordered by tick, an input coming before the checkpoint of its
/// tick, and none is after `last`.
pub open spec fn log_ordered(es: Seq<ReplayEntry>, last: Option<u64>) -> bool {
    &&& forall|i: int, j: int|
        0 <= i < j < es.len() ==> entry_tick(es[i]) < entry_tick(es[j]) || (entry_tick(es[i]) == entry_tick(es[j])
            && es[i] is Input && es[j] is Checkpoint)
    &&& forall|i: int| 0 <= i < es.len() ==> last is Some && entry_tick(#[trigger] es[i]) <= last->0
}

/// Records a simulation run into a [`ReplayLog`], one call per tick, with
/// strictly increasing tick numbers.
#[derive(Debug)]
pub struct ReplayRecorder<S> {
    /// The log being built.
    log: ReplayLog<S>,
    /// How often (in ticks) to record a checkpoint; 0 means at every tick
    /// that comes with a hash.
    checkpoint_interval: u64,
    /// Number of ticks recorded so far.
    ticks_recorded: u64,
    /// The tick of the last call, `None` before the first.
    last_tick: Option<u64>,
}

impl<S> ReplayRecorder<S> {
    /// The entries recorded so far.
    pub closed spec fn entries(&self) -> Seq<ReplayEntry> {
        self.log.entries@
    }

    /// The checkpoint interval.
    pub closed spec fn interval(&self) -> u64 {
        self.checkpoint_interval
    }

    /// The number of ticks recorded so far.
    pub closed spec fn recorded(&self) -> u64 {
        self.ticks_recorded
    }

    /// The tick of the last recorded call.
    pub closed spec fn last(&self) -> Option<u64> {
        self.last_tick
    }

    /// The initial snapshot.
    pub closed spec fn snapshot(&self) -> S {
        self.log.initial_snapshot
    }

    /// The gameplay module hash.
    pub closed spec fn module_hash(&self) -> Option<String> {
        self.log.gameplay_module_hash
    }

    /// Entries are ordered by tick, an input coming before the checkpoint of
    /// its tick, and none is after the last recorded tick.
    pub closed spec fn wf(&self) -> bool {
        log_ordered(self.log.entries@, self.last_tick)
    }

    /// Create a recorder for a run starting from `snapshot`, with checkpoints
    /// every `checkpoint_interval` ticks (0: at every tick given a hash).
    pub fn new(snapshot: S, checkpoint_interval: u64) -> (r: Self)
        ensures
            r.wf(),
            r.entries().len() == 0,
            r.interval() == checkpoint_interval,
            r.recorded() == 0,
            r.last() is None,
            r.snapshot() == snapshot,
            r.module_hash() is None,
    {
        ReplayRecorder {
            log: ReplayLog { initial_snapshot: snapshot, gameplay_module_hash: None, total_ticks: 0, entries: Vec::new() },
            checkpoint_interval,
            ticks_recorded: 0,
            last_tick: None,
        }
    }

    /// Set the hex digest of the gameplay module.
    pub fn set_gameplay_module_hash(&mut self, hash: String)
        ensures
            old(self).wf() ==> final(self).wf(),
            final(self).module_hash() == Some(hash),
            final(self).entries() == old(self).entries(),
            final(self).interval() == old(self).interval(),
            final(self).recorded() == old(self).recorded(),
            final(self).last() == old(self).last(),
            final(self).snapshot() == old(self).snapshot(),
    {
        self.log.gameplay_module_hash = Some(hash);
        proof {
            assert(self.log.entries@ == old(self).log.entries@);
            assert(self.last_tick == old(self).last_tick);
        }
    }

    /// The last tick recorded, if any.
    pub fn last_tick(&self) -> (t: Option<u64>)
        ensures
            t == self.last(),
    {
        self.last_tick
    }

    /// The number of ticks recorded so far.
    pub fn ticks_recorded(&self) -> (n: u64)
        ensures
            n == self.recorded(),
    {
        self.ticks_recorded
    }

    /// Record one tick, before it runs: the input frame when it is non-empty,
    /// and a checkpoint when `state_hash` is given and the tick falls on the
    /// interval. Ticks must be strictly increasing across calls.
    pub fn record_tick(&mut self, tick: u64, input: &InputFrame, state_hash: Option<String>)
        requires
            old(self).wf(),
            old(self).last() matches Some(p) ==> tick > p,
            old(self).recorded() < u64::MAX,
        ensures
            final(self).wf(),
            final(self).entries().take(old(self).entries().len() as int) == old(self).entries(),
            final(self).entries().len() >= old(self).entries().len(),
            records_tick(
                final(self).entries().skip(old(self).entries().len() as int),
                tick,
                *input,
                state_hash,
                old(self).interval(),
            ),
            final(self).last() == Some(tick),
            final(self).recorded() == old(self).recorded() + 1,
            final(self).interval() == old(self).interval(),
            final(self).snapshot() == old(self).snapshot(),
            final(self).module_hash() == old(self).module_hash(),
    {
        self.last_tick = Some(tick);
        self.ticks_recorded = self.ticks_recorded + 1;
        let ghost e0 = self.log.entries@;
        if !input.is_empty() {
            self.log.entries.push(ReplayEntry::Input { tick, input: input.duplicate() });
        }
        let ghost e1 = self.log.entries@;
        match state_hash {
            Some(hash) => {
                let on_interval = if self.checkpoint_interval == 0 {
                    true
                } else {
                    tick % self.checkpoint_interval == 0
                };
                if on_interval {
                    self.log.entries.push(ReplayEntry::Checkpoint { tick, state_hash: hash });
                }
            },
            None => {},
        }
        proof {
            let es = self.log.entries@;
            assert forall|i: int| 0 <= i < e0.len() implies entry_tick(#[trigger] e0[i]) < tick by {
            }
            assert forall|i: int| e0.len() <= i < es.len() implies entry_tick(#[trigger] es[i]) == tick by {
                if es.len() > e1.len() && i == es.len() - 1 {
                } else {
                    assert(es[i] == e1[i]);
                }
            }
            assert forall|i: int, j: int|
                0 <= i < j < es.len() implies entry_tick(es[i]) < entry_tick(es[j])
                    || (entry_tick(es[i]) == entry_tick(es[j]) && es[i] is Input && es[j] is Checkpoint) by {
                if j < e0.len() {
                    assert(es[i] == e0[i] && es[j] == e0[j]);
                } else if i < e0.len() {
                    assert(es[i] == e0[i]);
                    assert(entry_tick(e0[i]) < tick);
                } else {
                    assert(e1.len() <= e0.len() + 1);
                    assert(es[i] == e1[i]);
                }
            }
            assert(self.log.entries@.take(e0.len() as int) =~= e0);
            let added = self.log.entries@.skip(e0.len() as int);
            if input.inputs@.len() > 0 {
                assert(added[0] == e1.last());
            }
        }
    }

    /// Finish recording: the log, with `total_ticks` set to the number of
    /// ticks recorded.
    pub fn finish(self) -> (log: ReplayLog<S>)
        requires
            self.wf(),
        ensures
            log.entries@ == self.entries(),
            !(exists|i: int| 0 <= i < log.entries@.len() && #[trigger] repeats_at(log.entries@, i)),
            log.total_ticks == self.recorded(),
            log.initial_snapshot == self.snapshot(),
            log.gameplay_module_hash == self.module_hash(),
    {
        proof {
            let es = self.log.entries@;
            assert forall|i: int| 0 <= i < es.len() implies !#[trigger] repeats_at(es, i) by {
                if repeats_at(es, i) {
                    let j = choose|j: int| 0 <= j < i && (es[j] is Input) == (es[i] is Input) && #[trigger] entry_tick(es[j]) == entry_tick(es[i]);
                }
            }
        }
        let mut log = self.log;
        log.total_ticks = self.ticks_recorded;
        log
    }
}

/// Why a replay log cannot be replayed.
#[derive(Debug, Clone, PartialEq, Eq)]
pub enum ReplayError {
    /// Two input entries share a tick.
    DuplicateInput {
        /// The repeated tick.
        tick: u64,
    },
    /// Two checkpoint entries share a tick.
    DuplicateCheckpoint {
        /// The repeated tick.
        tick: u64,
    },
    /// The start tick plus the number of ticks exceeds `u64::MAX`.
    TickRangeOverflow {
        /// The snapshot's tick.
        start_tick: u64,
        /// The number of ticks to replay.
        total_ticks: u64,
    },
}

impl ReplayError {
    /// The message describing an error.
    pub open spec fn message_spec(&self) -> Seq<char> {
        match self {
            ReplayError::DuplicateInput { tick } => "replay log contains duplicate Input entry at tick "@ + decimal(
                *tick as nat,
            ),
            ReplayError::DuplicateCheckpoint { tick } => "replay log contains duplicate Checkpoint entry at tick "@
                + decimal(*tick as nat),
            ReplayError::TickRangeOverflow { start_tick, total_ticks } => "tick range overflow: start_tick ("@
                + decimal(*start_tick as nat) + ") + total_ticks ("@ + decimal(*total_ticks as nat)
                + ") exceeds u64::MAX"@,
        }
    }

    /// The message describing an error, as in
    /// `"replay log contains duplicate Input entry at tick 0"`.
    pub fn message(&self) -> (s: String)
        ensures
            s@ == self.message_spec(),
    {
        let mut cs: Vec<char> = Vec::new();
        match self {
            ReplayError::DuplicateInput { tick } => {
                append_str(&mut cs, "replay log contains duplicate Input entry at tick ");
                append_decimal(&mut cs, *tick);
            },
            ReplayError::DuplicateCheckpoint { tick } => {
                append_str(&mut cs, "replay log contains duplicate Checkpoint entry at tick ");
                append_decimal(&mut cs, *tick);
            },
            ReplayError::TickRangeOverflow { start_tick, total_ticks } => {
                append_str(&mut cs, "tick range overflow: start_tick (");
                append_decimal(&mut cs, *start_tick);
                append_str(&mut cs, ") + total_ticks (");
                append_decimal(&mut cs, *total_ticks);
                append_str(&mut cs, ") exceeds u64::MAX");
            },
        }
        proof {
            assert(cs@ =~= self.message_spec());
        }
        string_from_chars(cs.as_slice())
    }
}

/// The tick of an entry.
pub open spec fn entry_tick(e: ReplayEntry) -> u64 {
    match e {
        ReplayEntry::Input { tick, .. } => tick,
        ReplayEntry::Checkpoint { tick, .. } => tick,
    }
}

/// Entry `i` repeats the tick of an earlier entry of the same kind.
pub open spec fn repeats_at(entries: Seq<ReplayEntry>, i: int) -> bool {
    exists|j: int|
        0 <= j < i && (entries[j] is Input) == (entries[i] is Input) && #[trigger] entry_tick(entries[j]) == entry_tick(
            entries[i],
        )
}

/// The `(tick, input)` pairs of the input entries, in order.
pub open spec fn input_pairs(entries: Seq<ReplayEntry>) -> Seq<(u64, InputFrame)>
    decreases entries.len(),
{
    if entries.len() == 0 {
        Seq::empty()
    } else {
        let rest = input_pairs(entries.drop_last());
        match entries.last() {
            ReplayEntry::Input { tick, input } => rest.push((tick, input)),
            _ => rest,
        }
    }
}

/// The `(tick, hash)` pairs of the checkpoint entries, in order.
pub open spec fn checkpoint_pairs(entries: Seq<ReplayEntry>) -> Seq<(u64, String)>
    decreases entries.len(),
{
    if entries.len() == 0 {
        Seq::empty()
    } else {
        let rest = checkpoint_pairs(entries.drop_last());
        match entries.last() {
            ReplayEntry::Checkpoint { tick, state_hash } => rest.push((tick, state_hash)),
            _ => rest,
        }
    }
}

/// One of `pairs` is keyed by tick `t`.
pub open spec fn keyed_by<V>(pairs: Seq<(u64, V)>, t: u64) -> bool {
    exists|a: int| 0 <= a < pairs.len() && pairs[a].0 == t
}

/// One of the first `n` entries is of the given kind and at tick `t`.
pub open spec fn kind_at_before(entries: Seq<ReplayEntry>, input_kind: bool, n: int, t: u64) -> bool {
    exists|j: int| 0 <= j < n && (entries[j] is Input) == input_kind && #[trigger] entry_tick(entries[j]) == t
}

/// The input pairs with each frame taken by its inputs.
pub open spec fn input_views(pairs: Seq<(u64, InputFrame)>) -> Seq<(u64, Seq<(String, serde_json::Value)>)> {
    pairs.map_values(|p: (u64, InputFrame)| (p.0, p.1.inputs@))
}

/// The position of the pair keyed by `t`, if any.
fn find_tick<V>(pairs: &Vec<(u64, V)>, t: u64) -> (r: Option<usize>)
    ensures
        match r {
            Some(a) => a < pairs@.len() && pairs@[a as int].0 == t,
            None => !keyed_by(pairs@, t),
        },
{
    let mut a: usize = 0;
    while a < pairs.len()
        invariant
            a <= pairs@.len(),
            forall|b: int| 0 <= b < a ==> pairs@[b].0 != t,
        decreases pairs@.len() - a,
    {
        if pairs[a].0 == t {
            return Some(a);
        }
        a = a + 1;
    }
    None
}

proof fn lemma_kind_step(entries: Seq<ReplayEntry>, kind: bool, i: int, t: u64)
    requires
        0 <= i < entries.len(),
    ensures
        kind_at_before(entries, kind, i + 1, t) == (kind_at_before(entries, kind, i, t) || ((entries[i] is Input)
            == kind && entry_tick(entries[i]) == t)),
{
    if kind_at_before(entries, kind, i + 1, t) {
        let j = choose|j: int| 0 <= j < i + 1 && (entries[j] is Input) == kind && #[trigger] entry_tick(entries[j]) == t;
        if j < i {
            assert(kind_at_before(entries, kind, i, t));
        }
    }
    if kind_at_before(entries, kind, i, t) {
        let j = choose|j: int| 0 <= j < i && (entries[j] is Input) == kind && #[trigger] entry_tick(entries[j]) == t;
        assert(kind_at_before(entries, kind, i + 1, t));
    }
    if (entries[i] is Input) == kind && entry_tick(entries[i]) == t {
        assert(kind_at_before(entries, kind, i + 1, t));
    }
}

proof fn lemma_keyed_push<V>(pairs: Seq<(u64, V)>, p: (u64, V), t: u64)
    ensures
        keyed_by(pairs.push(p), t) == (keyed_by(pairs, t) || p.0 == t),
{
    let q = pairs.push(p);
    if keyed_by(q, t) {
        let a = choose|a: int| 0 <= a < q.len() && q[a].0 == t;
        if a < pairs.len() {
            assert(pairs[a].0 == t);
        }
    }
    if keyed_by(pairs, t) {
        let a = choose|a: int| 0 <= a < pairs.len() && pairs[a].0 == t;
        assert(q[a].0 == t);
    }
    if p.0 == t {
        assert(q[pairs.len() as int].0 == t);
    }
}

/// The validated lookup tables of a replay log and its tick range.
#[derive(Debug)]
pub struct ReplayPlan {
    /// The input of each tick that has one; ticks are distinct.
    inputs: Vec<(u64, InputFrame)>,
    /// The recorded hash of each checkpoint tick; ticks are distinct.
    checkpoints: Vec<(u64, String)>,
    /// The first tick to replay.
    start_tick: u64,
    /// One past the last tick to replay.
    end_tick: u64,
}

impl ReplayPlan {
    /// The input pairs.
    pub closed spec fn inputs_spec(&self) -> Seq<(u64, InputFrame)> {
        self.inputs@
    }

    /// The checkpoint pairs.
    pub closed spec fn checkpoints_spec(&self) -> Seq<(u64, String)> {
        self.checkpoints@
    }

    /// The first tick to replay.
    pub closed spec fn start(&self) -> u64 {
        self.start_tick
    }

    /// One past the last tick to replay.
    pub closed spec fn end(&self) -> u64 {
        self.end_tick
    }

    /// Ticks are distinct within each table, and the range is ordered.
    pub closed spec fn wf(&self) -> bool {
        &&& forall|a: int, b: int| 0 <= a < b < self.inputs@.len() ==> self.inputs@[a].0 != self.inputs@[b].0
        &&& forall|a: int, b: int| 0 <= a < b < self.checkpoints@.len() ==> self.checkpoints@[a].0 != self.checkpoints@[b].0
        &&& self.start_tick <= self.end_tick
    }

    /// Validate the entries of a log and fix the tick range
    /// `[start_tick, start_tick + total_ticks)`. Two entries of the same kind
    /// at one tick are refused, the first such entry in order being
    /// reported; then, when there is a tick to replay, a range that does not
    /// fit in `u64` is refused.
    pub fn new(entries: &Vec<ReplayEntry>, start_tick: u64, total_ticks: u64) -> (r: Result<ReplayPlan, ReplayError>)
        ensures
            (exists|i: int| 0 <= i < entries@.len() && #[trigger] repeats_at(entries@, i)) ==> {
                &&& r is Err
                &&& exists|i: int|
                    0 <= i < entries@.len() && #[trigger] repeats_at(entries@, i) && (forall|j: int|
                        0 <= j < i ==> !repeats_at(entries@, j)) && r->Err_0 == (if entries@[i] is Input {
                        ReplayError::DuplicateInput { tick: entry_tick(entries@[i]) }
                    } else {
                        ReplayError::DuplicateCheckpoint { tick: entry_tick(entries@[i]) }
                    })
            },
            !(exists|i: int| 0 <= i < entries@.len() && #[trigger] repeats_at(entries@, i)) ==> {
                &&& (total_ticks > 0 && start_tick + total_ticks > u64::MAX) ==> r == Err::<ReplayPlan, ReplayError>(
                    ReplayError::TickRangeOverflow { start_tick, total_ticks },
                )
                &&& (total_ticks == 0 || start_tick + total_ticks <= u64::MAX) ==> {
                    &&& r is Ok
                    &&& r->Ok_0.wf()
                    &&& input_views(r->Ok_0.inputs_spec()) == input_views(input_pairs(entries@))
                    &&& r->Ok_0.checkpoints_spec() == checkpoint_pairs(entries@)
                    &&& r->Ok_0.start() == start_tick
                    &&& r->Ok_0.end() == start_tick + total_ticks
                }
            },
    {
        let mut inputs: Vec<(u64, InputFrame)> = Vec::new();
        let mut checkpoints: Vec<(u64, String)> = Vec::new();
        let mut i: usize = 0;
        while i < entries.len()
            invariant
                i <= entries@.len(),
                forall|j: int| 0 <= j < i ==> !#[trigger] repeats_at(entries@, j),
                input_views(inputs@) == input_views(input_pairs(entries@.take(i as int))),
                checkpoints@ == checkpoint_pairs(entries@.take(i as int)),
                forall|a: int, b: int| 0 <= a < b < inputs@.len() ==> inputs@[a].0 != inputs@[b].0,
                forall|a: int, b: int| 0 <= a < b < checkpoints@.len() ==> checkpoints@[a].0 != checkpoints@[b].0,
                forall|t: u64| #[trigger] keyed_by(inputs@, t) <==> kind_at_before(entries@, true, i as int, t),
                forall|t: u64| #[trigger] keyed_by(checkpoints@, t) <==> kind_at_before(entries@, false, i as int, t),
            decreases entries@.len() - i,
        {
            proof {
                assert(entries@.take(i as int + 1).drop_last() =~= entries@.take(i as int));
            }
            let ghost inputs0 = inputs@;
            let ghost checkpoints0 = checkpoints@;
            match &entries[i] {
                ReplayEntry::Input { tick, input } => {
                    if find_tick(&inputs, *tick).is_some() {
                        proof {
                            assert(keyed_by(inputs@, *tick));
                            assert(kind_at_before(entries@, true, i as int, *tick));
                            let j = choose|j: int| 0 <= j < i && (entries@[j] is Input) == true && #[trigger] entry_tick(entries@[j]) == *tick;
                            assert(repeats_at(entries@, i as int));
                        }
                        return Err(ReplayError::DuplicateInput { tick: *tick });
                    }
                    proof {
                        assert(!repeats_at(entries@, i as int)) by {
                            if repeats_at(entries@, i as int) {
                                let j = choose|j: int| 0 <= j < i && (entries@[j] is Input) == (entries@[i as int] is Input) && #[trigger] entry_tick(entries@[j]) == entry_tick(entries@[i as int]);
                                assert(kind_at_before(entries@, true, i as int, *tick));
                                assert(keyed_by(inputs@, *tick));
                            }
                        }
                    }
                    inputs.push((*tick, input.duplicate()));
                },
                ReplayEntry::Checkpoint { tick, state_hash } => {
                    if find_tick(&checkpoints, *tick).is_some() {
                        proof {
                            assert(keyed_by(checkpoints@, *tick));
                            assert(kind_at_before(entries@, false, i as int, *tick));
                            let j = choose|j: int| 0 <= j < i && (entries@[j] is Input) == false && #[trigger] entry_tick(entries@[j]) == *tick;
                            assert(repeats_at(entries@, i as int));
                        }
                        return Err(ReplayError::DuplicateCheckpoint { tick: *tick });
                    }
                    proof {
                        assert(!repeats_at(entries@, i as int)) by {
                            if repeats_at(entries@, i as int) {
                                let j = choose|j: int| 0 <= j < i && (entries@[j] is Input) == (entries@[i as int] is Input) && #[trigger] entry_tick(entries@[j]) == entry_tick(entries@[i as int]);
                                assert(kind_at_before(entries@, false, i as int, *tick));
                                assert(keyed_by(checkpoints@, *tick));
                            }
                        }
                    }
                    checkpoints.push((*tick, state_hash.clone()));
                },
            }
            proof {
                let t1 = entries@.take(i as int + 1);
                assert(t1.last() == entries@[i as int]);
                assert forall|t: u64| #[trigger] keyed_by(inputs@, t) <==> kind_at_before(entries@, true, i + 1, t) by {
                    lemma_kind_step(entries@, true, i as int, t);
                    if entries@[i as int] is Input {
                        lemma_keyed_push(inputs0, inputs@.last(), t);
                        assert(inputs@ == inputs0.push(inputs@.last()));
                    } else {
                        assert(inputs@ == inputs0);
                    }
                }
                assert forall|t: u64| #[trigger] keyed_by(checkpoints@, t) <==> kind_at_before(entries@, false, i + 1, t) by {
                    lemma_kind_step(entries@, false, i as int, t);
                    if entries@[i as int] is Checkpoint {
                        lemma_keyed_push(checkpoints0, checkpoints@.last(), t);
                        assert(checkpoints@ == checkpoints0.push(checkpoints@.last()));
                    } else {
                        assert(checkpoints@ == checkpoints0);
                    }
                }
                match entries@[i as int] {
                    ReplayEntry::Input { tick, input } => {
                        assert(input_pairs(t1) == input_pairs(entries@.take(i as int)).push((tick, input)));
                        assert(input_views(inputs@) =~= input_views(inputs0).push((tick, input.inputs@)));
                        assert(input_views(input_pairs(t1)) =~= input_views(input_pairs(entries@.take(i as int))).push((tick, input.inputs@)));
                    },
                    ReplayEntry::Checkpoint { tick, state_hash } => {
                        assert(input_pairs(t1) == input_pairs(entries@.take(i as int)));
                        assert(checkpoint_pairs(t1) == checkpoint_pairs(entries@.take(i as int)).push((tick, state_hash)));
                    },
                }
            }
            i = i + 1;
        }
        proof {
            assert(entries@.take(i as int) =~= entries@);
        }
        let end_tick = if total_ticks == 0 {
            start_tick
        } else {
            match start_tick.checked_add(total_ticks) {
                Some(e) => e,
                None => {
                    return Err(ReplayError::TickRangeOverflow { start_tick, total_ticks });
                },
            }
        };
        Ok(ReplayPlan { inputs, checkpoints, start_tick, end_tick })
    }

    /// The first tick to replay.
    pub fn start_tick(&self) -> (t: u64)
        ensures
            t == self.start(),
    {
        self.start_tick
    }

    /// One past the last tick to replay.
    pub fn end_tick(&self) -> (t: u64)
        ensures
            t == self.end(),
    {
        self.end_tick
    }

    /// The input to feed at `tick`: the recorded one, or an empty frame.
    pub fn input_for(&self, tick: u64) -> (f: InputFrame)
        requires
            self.wf(),
        ensures
            forall|a: int| 0 <= a < self.inputs_spec().len() && self.inputs_spec()[a].0 == tick
                ==> f.inputs@ == self.inputs_spec()[a].1.inputs@,
            !keyed_by(self.inputs_spec(), tick) ==> f.inputs@.len() == 0,
    {
        match find_tick(&self.inputs, tick) {
            Some(a) => {
                proof {
                    assert forall|b: int| 0 <= b < self.inputs@.len() && self.inputs@[b].0 == tick implies b == a by {
                        if b < a {
                            assert(self.inputs@[b].0 != self.inputs@[a as int].0);
                        } else if b > a {
                            assert(self.inputs@[a as int].0 != self.inputs@[b].0);
                        }
                    }
                }
                self.inputs[a].1.duplicate()
            },
            None => InputFrame::new(),
        }
    }

    /// The hash recorded at `tick`, if that tick is a checkpoint.
    pub fn checkpoint_for(&self, tick: u64) -> (h: Option<&String>)
        requires
            self.wf(),
        ensures
            match h {
                Some(s) => forall|a: int|
                    0 <= a < self.checkpoints_spec().len() && self.checkpoints_spec()[a].0 == tick ==> *s
                        == self.checkpoints_spec()[a].1,
                None => !keyed_by(self.checkpoints_spec(), tick),
            },
            h is Some <==> keyed_by(self.checkpoints_spec(), tick),
    {
        match find_tick(&self.checkpoints, tick) {
            Some(a) => {
                proof {
                    assert forall|b: int| 0 <= b < self.checkpoints@.len() && self.checkpoints@[b].0 == tick implies b == a by {
                        if b < a {
                            assert(self.checkpoints@[b].0 != self.checkpoints@[a as int].0);
                        } else if b > a {
                            assert(self.checkpoints@[a as int].0 != self.checkpoints@[b].0);
                        }
                    }
                    assert(keyed_by(self.checkpoints@, tick));
                }
                Some(&self.checkpoints[a].1)
            },
            None => None,
        }
    }

    /// The progress `p` is a point of this replay: its tick lies in the
    /// replayed range and it counts the ticks replayed before that tick.
    pub open spec fn at(&self, p: ReplayProgress) -> bool {
        &&& self.start() <= p.tick < self.end()
        &&& p.ticks_replayed == p.tick - self.start()
    }

    /// The first step of a replay: done at once, complete with no tick
    /// replayed, when the range is empty; else the first tick of the range,
    /// with nothing replayed yet.
    pub fn first_step(&self) -> (s: ReplayStep)
        requires
            self.wf(),
        ensures
            self.start() == self.end() ==> (s matches ReplayStep::Done(r) && r.completed && r.ticks_replayed == 0
                && r.first_divergence is None),
            self.start() < self.end() ==> (s matches ReplayStep::Run(p) && p.tick == self.start() && self.at(p)),
    {
        if self.start_tick == self.end_tick {
            ReplayStep::Done(self.completed(0))
        } else {
            ReplayStep::Run(ReplayProgress { tick: self.start_tick, ticks_replayed: 0 })
        }
    }

    /// The step after the tick of `p` was replayed: the next tick, one more
    /// replayed, or, after the last tick of the range, a complete replay
    /// that replayed every tick of the range.
    pub fn after_tick(&self, p: &ReplayProgress) -> (s: ReplayStep)
        requires
            self.wf(),
            self.at(*p),
        ensures
            p.tick + 1 < self.end() ==> (s matches ReplayStep::Run(q) && q.tick == p.tick + 1 && q.ticks_replayed
                == p.ticks_replayed + 1 && self.at(q)),
            p.tick + 1 == self.end() ==> (s matches ReplayStep::Done(r) && r.completed && r.ticks_replayed == self.end()
                - self.start() && r.first_divergence is None),
    {
        if p.tick + 1 < self.end_tick {
            ReplayStep::Run(ReplayProgress { tick: p.tick + 1, ticks_replayed: p.ticks_replayed + 1 })
        } else {
            ReplayStep::Done(self.completed(p.ticks_replayed + 1))
        }
    }

    /// The decision of a replay at the tick of `p`, where `actual` is the
    /// state hash computed there (the driver computes one only at checkpoint
    /// ticks): `Some`, the final result of an incomplete replay, exactly when
    /// the tick is a checkpoint whose recorded hash differs from the computed
    /// one, so the replay stops there without ticking; its divergence lies at
    /// the start tick plus the ticks replayed. `None` when the driver is to
    /// tick and go on with [`after_tick`](Self::after_tick).
    pub fn stop_at(&self, p: &ReplayProgress, actual: Option<&str>) -> (r: Option<ReplayResult>)
        requires
            self.wf(),
            self.at(*p),
        ensures
            match actual {
                None => r is None,
                Some(h) => match r {
                    Some(res) => {
                        &&& !res.completed
                        &&& res.ticks_replayed == p.ticks_replayed
                        &&& res.first_divergence matches Some(div) && div.tick == p.tick && div.tick == self.start()
                            + res.ticks_replayed && div.actual_hash@ == h@ && keyed_by(self.checkpoints_spec(), p.tick)
                            && div.expected_hash@ != h@ && forall|a: int|
                            0 <= a < self.checkpoints_spec().len() && self.checkpoints_spec()[a].0 == p.tick
                                ==> div.expected_hash@ == self.checkpoints_spec()[a].1@
                    },
                    None => forall|a: int|
                        0 <= a < self.checkpoints_spec().len() && self.checkpoints_spec()[a].0 == p.tick
                            ==> self.checkpoints_spec()[a].1@ == h@,
                },
            },
    {
        match actual {
            None => None,
            Some(h) => match self.divergence(p.tick, h) {
                Some(div) => Some(ReplayResult { completed: false, ticks_replayed: p.ticks_replayed, first_divergence: Some(div) }),
                None => None,
            },
        }
    }

    /// The result of a replay that ran through its whole range without a
    /// divergence, having replayed `ticks_replayed` ticks.
    pub fn completed(&self, ticks_replayed: u64) -> (r: ReplayResult)
        ensures
            r.completed,
            r.ticks_replayed == ticks_replayed,
            r.first_divergence is None,
    {
        ReplayResult { completed: true, ticks_replayed, first_divergence: None }
    }

    /// The divergence found at `tick` when the state hash there is `actual`:
    /// `Some` exactly when `tick` is a checkpoint whose recorded hash differs.
    pub fn divergence(&self, tick: u64, actual: &str) -> (d: Option<ReplayDivergence>)
        requires
            self.wf(),
        ensures
            match d {
                Some(div) => div.tick == tick && div.actual_hash@ == actual@ && keyed_by(self.checkpoints_spec(), tick)
                    && div.expected_hash@ != actual@ && forall|a: int|
                    0 <= a < self.checkpoints_spec().len() && self.checkpoints_spec()[a].0 == tick
                        ==> div.expected_hash@ == self.checkpoints_spec()[a].1@,
                None => forall|a: int|
                    0 <= a < self.checkpoints_spec().len() && self.checkpoints_spec()[a].0 == tick
                        ==> self.checkpoints_spec()[a].1@ == actual@,
            },
    {
        match self.checkpoint_for(tick) {
            Some(expected) => {
                if str_eq(expected.as_str(), actual) {
                    None
                } else {
                    Some(ReplayDivergence { tick, expected_hash: expected.clone(), actual_hash: actual.to_owned() })
                }
            },
            None => None,
        }
    }
}

} // verus!
