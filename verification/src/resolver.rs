//! The provider-chain orchestrator as a state machine.
//!
//! One pass resolves a list of BSSIDs: each is optionally answered from the
//! cache or the negative cache, claimed against concurrent passes, then
//! offered to the providers in order until one finds it. The caller performs
//! the I/O that each `ChainAction` asks for and feeds the answer back as a
//! `ChainEvent`; `ChainRun::step` decides what happens next and which
//! database writes (`ChainEffect`s) go with it.

use vstd::prelude::*;
use crate::provider::OutcomeKind;
use crate::text::chars_of;
use crate::text::chars_eq;

verus! {

/// What the orchestrator should do when a provider is `Skipped`
/// (rate-limited, not configured, etc.) for a given BSSID.
#[derive(Debug, Clone, Copy, PartialEq, Eq, Structural)]
pub enum SkipAction {
    /// Move on to the next provider for this BSSID.
    NextProvider,
    /// Insert this BSSID into the pending queue (so a later drain retries).
    QueuePending,
}

/// What the orchestrator should do on a transient network error.
#[derive(Debug, Clone, Copy, PartialEq, Eq, Structural)]
pub enum NetErrorAction {
    /// Log and continue.
    Ignore,
    /// Insert into the pending queue.
    QueuePending,
    /// Increment the existing pending row's attempts counter.
    IncrementPending,
}

/// What the orchestrator should do when a provider signals `HardStop`.
/// The current provider is abandoned for the rest of this pass either way.
#[derive(Debug, Clone, Copy, PartialEq, Eq, Structural)]
pub enum HardStopAction {
    /// Just stop using this provider.
    Stop,
    /// Stop using this provider, and queue the current BSSID as pending.
    QueuePendingAndStop,
}

/// Cross-cutting policy that distinguishes the resolution flows.
#[derive(Debug, Clone, Copy, PartialEq, Eq)]
pub struct ChainPolicy {
    /// Skip BSSIDs already present in the `aps` cache before calling any provider.
    pub skip_cached: bool,
    /// Skip BSSIDs present in the not_found table (within TTL).
    pub skip_not_found: bool,
    /// Persist successful lookups to the `aps` cache (write-through).
    pub write_through: bool,
    /// On a successful resolution, delete the BSSID from the pending queue.
    pub delete_pending_on_success: bool,
    /// On a provider's authoritative NotFound, immediately mark not_found.
    pub mark_not_found_per_provider: bool,
    /// At end of pass, mark not_found the BSSIDs that every consulted
    /// provider definitively did not know.
    pub mark_not_found_at_chain_end: bool,
    /// Leave out of those end-of-pass marks the BSSIDs already in the
    /// pending queue (each is probed with `ProbePending` first).
    pub skip_pending_at_chain_end: bool,
    pub on_skipped: SkipAction,
    pub on_network_error: NetErrorAction,
    pub on_hard_stop: HardStopAction,
}

/// Policy of the `resolve` command: read-only, WiGLE only, per-provider
/// not_found marking.
pub fn readonly_policy() -> (p: ChainPolicy)
    ensures
        p == (ChainPolicy {
            skip_cached: true,
            skip_not_found: true,
            write_through: false,
            delete_pending_on_success: false,
            mark_not_found_per_provider: true,
            mark_not_found_at_chain_end: false,
            skip_pending_at_chain_end: false,
            on_skipped: SkipAction::NextProvider,
            on_network_error: NetErrorAction::Ignore,
            on_hard_stop: HardStopAction::Stop,
        }),
{
    ChainPolicy {
        skip_cached: true,
        skip_not_found: true,
        write_through: false,
        delete_pending_on_success: false,
        mark_not_found_per_provider: true,
        mark_not_found_at_chain_end: false,
        skip_pending_at_chain_end: false,
        on_skipped: SkipAction::NextProvider,
        on_network_error: NetErrorAction::Ignore,
        on_hard_stop: HardStopAction::Stop,
    }
}

/// Policy of background resolution of stable BSSIDs: write-through, decide
/// not_found at the end of the pass (leaving out BSSIDs already pending),
/// queue anything transient.
pub fn background_policy() -> (p: ChainPolicy)
    ensures
        p == (ChainPolicy {
            skip_cached: true,
            skip_not_found: true,
            write_through: true,
            delete_pending_on_success: false,
            mark_not_found_per_provider: false,
            mark_not_found_at_chain_end: true,
            skip_pending_at_chain_end: true,
            on_skipped: SkipAction::QueuePending,
            on_network_error: NetErrorAction::QueuePending,
            on_hard_stop: HardStopAction::QueuePendingAndStop,
        }),
{
    ChainPolicy {
        skip_cached: true,
        skip_not_found: true,
        write_through: true,
        delete_pending_on_success: false,
        mark_not_found_per_provider: false,
        mark_not_found_at_chain_end: true,
        skip_pending_at_chain_end: true,
        on_skipped: SkipAction::QueuePending,
        on_network_error: NetErrorAction::QueuePending,
        on_hard_stop: HardStopAction::QueuePendingAndStop,
    }
}

/// Policy of the pending-queue drain: the queue is the input, successes
/// leave the queue, network errors count an attempt, and a BSSID every
/// provider missed is marked not_found although it has a pending row.
pub fn drain_policy() -> (p: ChainPolicy)
    ensures
        p == (ChainPolicy {
            skip_cached: false,
            skip_not_found: false,
            write_through: true,
            delete_pending_on_success: true,
            mark_not_found_per_provider: false,
            mark_not_found_at_chain_end: true,
            skip_pending_at_chain_end: false,
            on_skipped: SkipAction::NextProvider,
            on_network_error: NetErrorAction::IncrementPending,
            on_hard_stop: HardStopAction::Stop,
        }),
{
    ChainPolicy {
        skip_cached: false,
        skip_not_found: false,
        write_through: true,
        delete_pending_on_success: true,
        mark_not_found_per_provider: false,
        mark_not_found_at_chain_end: true,
        skip_pending_at_chain_end: false,
        on_skipped: SkipAction::NextProvider,
        on_network_error: NetErrorAction::IncrementPending,
        on_hard_stop: HardStopAction::Stop,
    }
}

/// A pending BSSID awaiting resolution, as the queue stores it.
#[derive(Debug, Clone)]
pub struct PendingAp {
    pub bssid: String,
    pub ssid: Option<String>,
    pub channel: Option<i32>,
    pub frequency: Option<i32>,
    pub signal_dbm: Option<i32>,
    pub attempts: i32,
}

/// The BSSIDs of a batch taken from the pending queue, in queue order: the
/// input of one drain pass.
pub fn drain_bssids(pending: &Vec<PendingAp>) -> (r: Vec<String>)
    ensures
        r.len() == pending.len(),
        forall|i: int| 0 <= i < r.len() ==> #[trigger] r[i]@ == pending[i].bssid@,
{
    let mut r: Vec<String> = Vec::new();
    let mut i: usize = 0;
    while i < pending.len()
        invariant
            i <= pending.len(),
            r.len() == i,
            forall|j: int| 0 <= j < i ==> #[trigger] r[j]@ == pending[j].bssid@,
        decreases pending.len() - i,
    {
        r.push(pending[i].bssid.clone());
        i = i + 1;
    }
    r
}

/// An answer the caller feeds back into the pass.
#[derive(Debug, Clone, Copy, PartialEq, Eq)]
pub enum ChainEvent {
    /// Start the pass.
    Begin,
    /// Result of `ProbeCache`: was the BSSID in the `aps` cache?
    CacheProbed(bool),
    /// Result of `ProbeNotFound`: is the BSSID in the not_found table within TTL?
    NotFoundProbed(bool),
    /// Result of `Claim`: did this pass obtain the in-flight claim?
    Claimed(bool),
    /// Result of `AskProvider`.
    ProviderAnswered(OutcomeKind),
    /// Result of `ProbePending`: is the BSSID in the pending queue? (Answer
    /// `true` when the probe fails, which leaves the BSSID unmarked.)
    PendingProbed(bool),
}

/// The next thing the caller must do and answer.
#[derive(Debug, Clone, Copy, PartialEq, Eq)]
pub enum ChainAction {
    /// Look BSSID `i` up in the `aps` cache (touching it on a hit); answer `CacheProbed`.
    ProbeCache(usize),
    /// Check BSSID `i` against the not_found table; answer `NotFoundProbed`.
    ProbeNotFound(usize),
    /// Claim BSSID `i` against concurrent passes; answer `Claimed`.
    Claim(usize),
    /// Ask provider `p` about BSSID `i`; answer `ProviderAnswered`.
    AskProvider(usize, usize),
    /// At the end of the pass, check whether BSSID `i` is in the pending
    /// queue; answer `PendingProbed`.
    ProbePending(usize),
    /// The pass is over.
    Finish,
}

/// A write or bookkeeping step the caller performs, in order.
#[derive(Debug, Clone, Copy, PartialEq, Eq)]
pub enum ChainEffect {
    /// BSSID `i` was answered from the cache: keep the cached position.
    KeepCached(usize),
    /// Write the position just found for BSSID `i` to the `aps` cache.
    CacheWrite(usize),
    /// Delete BSSID `i` from the pending queue.
    DeletePending(usize),
    /// Keep the position just found for BSSID `i` as fetched from a provider.
    KeepFetched(usize),
    /// Insert BSSID `i` into the not_found table.
    InsertNotFound(usize),
    /// Increment the pending attempts of BSSID `i`.
    IncrementPending(usize),
    /// Release the in-flight claim on BSSID `i`.
    Release(usize),
    /// Insert BSSID `i` into the pending queue.
    InsertPending(usize),
}

/// Where the pass stands.
#[derive(Debug, Clone, Copy, PartialEq, Eq)]
pub enum Phase {
    Idle,
    AwaitCache,
    AwaitNotFound,
    AwaitClaim,
    AwaitProvider(usize),
    AwaitPending(usize),
    Done,
}

/// The abstract state of a pass.
pub ghost struct ChainModel {
    pub policy: ChainPolicy,
    /// The BSSIDs of the pass.
    pub keys: Seq<Seq<char>>,
    /// Number of providers in the chain.
    pub n_providers: nat,
    /// Providers that hard-stopped during this pass.
    pub stopped: Seq<bool>,
    /// Per BSSID occurrence: answered by the cache or a provider.
    pub resolved: Seq<bool>,
    /// Per BSSID occurrence: owned by a concurrent pass.
    pub deferred: Seq<bool>,
    /// Per BSSID occurrence: some provider answered Skipped, HardStop or NetworkError.
    pub transient: Seq<bool>,
    /// Per BSSID occurrence: to be queued as pending at the end.
    pub queued: Seq<bool>,
    /// Per BSSID occurrence: found in the pending queue by the end-of-pass probe.
    pub pending: Seq<bool>,
    /// BSSID being worked on.
    pub cur: nat,
    pub phase: Phase,
    /// Queue-pending was requested for the current BSSID.
    pub queue_this: bool,
}

impl ChainModel {
    pub open spec fn n(self) -> nat {
        self.keys.len()
    }

    /// The per-BSSID tables and the provider table have the right lengths.
    pub open spec fn tables_ok(self) -> bool {
        &&& self.stopped.len() == self.n_providers
        &&& self.resolved.len() == self.n()
        &&& self.deferred.len() == self.n()
        &&& self.transient.len() == self.n()
        &&& self.queued.len() == self.n()
        &&& self.pending.len() == self.n()
        &&& self.n() <= usize::MAX
        &&& self.n_providers <= usize::MAX
        &&& self.cur <= self.n()
    }

    /// The model is well formed: tables fit, the BSSID being worked on
    /// exists, and the provider being waited on has not stopped.
    pub open spec fn wf(self) -> bool {
        &&& self.tables_ok()
        &&& (self.phase is AwaitCache || self.phase is AwaitNotFound || self.phase is AwaitClaim
            || self.phase is AwaitProvider) ==> self.cur < self.n()
        &&& (self.phase matches Phase::AwaitProvider(p) ==> p < self.n_providers && !self.stopped[p as int])
        &&& (self.phase matches Phase::AwaitPending(k) ==> k < self.n())
    }
}

/// First provider at index `from` or later that has not stopped.
pub open spec fn next_open(stopped: Seq<bool>, from: int) -> Option<nat>
    decreases stopped.len() - from,
{
    if from < 0 || from >= stopped.len() {
        None
    } else if !stopped[from] {
        Some(from as nat)
    } else {
        next_open(stopped, from + 1)
    }
}

/// BSSID occurrence `i` was definitively not found: no occurrence of the
/// same BSSID in the pass was resolved, deferred, or met a transient answer.
pub open spec fn definitive_miss(m: ChainModel, i: int) -> bool {
    forall|j: int|
        0 <= j < m.n() && #[trigger] m.keys[j] == m.keys[i] ==> !m.resolved[j] && !m.deferred[j]
            && !m.transient[j]
}

/// BSSID occurrence `i` gets the end-of-pass not_found mark: it was
/// definitively missed and, where the policy leaves out pending BSSIDs, the
/// end probe did not find it pending.
pub open spec fn end_mark(m: ChainModel, i: int) -> bool {
    definitive_miss(m, i) && !(m.policy.skip_pending_at_chain_end && m.pending[i])
}

/// `InsertPending` for the queued BSSIDs among the first `k`, in order.
pub open spec fn pending_effects(m: ChainModel, k: nat) -> Seq<ChainEffect>
    decreases k,
{
    if k == 0 {
        Seq::empty()
    } else {
        pending_effects(m, (k - 1) as nat) + if m.queued[k - 1] {
            seq![ChainEffect::InsertPending((k - 1) as usize)]
        } else {
            Seq::empty()
        }
    }
}

/// `InsertNotFound` for the BSSIDs among the first `k` that get the end mark, in order.
pub open spec fn not_found_effects(m: ChainModel, k: nat) -> Seq<ChainEffect>
    decreases k,
{
    if k == 0 {
        Seq::empty()
    } else {
        not_found_effects(m, (k - 1) as nat) + if end_mark(m, k - 1) {
            seq![ChainEffect::InsertNotFound((k - 1) as usize)]
        } else {
            Seq::empty()
        }
    }
}

/// The writes at the end of the pass: pending inserts, then (per policy)
/// end-of-chain not_found marks.
pub open spec fn finish_effects(m: ChainModel) -> Seq<ChainEffect> {
    pending_effects(m, m.n()) + if m.policy.mark_not_found_at_chain_end {
        not_found_effects(m, m.n())
    } else {
        Seq::empty()
    }
}

/// End the pass: the end-of-pass writes, then `Finish`.
pub open spec fn finish_pass(m: ChainModel) -> (ChainModel, Seq<ChainEffect>, ChainAction) {
    (ChainModel { cur: m.n(), phase: Phase::Done, ..m }, finish_effects(m), ChainAction::Finish)
}

/// First definitively missed BSSID occurrence at `from` or later.
pub open spec fn next_miss(m: ChainModel, from: int) -> Option<nat>
    decreases m.n() - from,
{
    if from < 0 || from >= m.n() {
        None
    } else if definitive_miss(m, from) {
        Some(from as nat)
    } else {
        next_miss(m, from + 1)
    }
}

/// Probe the next definitively missed BSSID at `from` or later for a
/// pending row, or end the pass when none is left.
pub open spec fn end_scan(m: ChainModel, from: int) -> (ChainModel, Seq<ChainEffect>, ChainAction) {
    match next_miss(m, from) {
        Some(k) => (
            ChainModel { cur: m.n(), phase: Phase::AwaitPending(k as usize), ..m },
            Seq::empty(),
            ChainAction::ProbePending(k as usize),
        ),
        None => finish_pass(m),
    }
}

/// Start work on BSSID `i`; when none is left, probe for pending rows (where
/// the policy asks for it) and finish the pass.
pub open spec fn advance(m: ChainModel, i: nat) -> (ChainModel, Seq<ChainEffect>, ChainAction) {
    if i >= m.n() {
        if m.policy.mark_not_found_at_chain_end && m.policy.skip_pending_at_chain_end {
            end_scan(m, 0)
        } else {
            finish_pass(m)
        }
    } else if m.policy.skip_cached {
        (ChainModel { cur: i, phase: Phase::AwaitCache, queue_this: false, ..m }, Seq::empty(), ChainAction::ProbeCache(i as usize))
    } else if m.policy.skip_not_found {
        (ChainModel { cur: i, phase: Phase::AwaitNotFound, queue_this: false, ..m }, Seq::empty(), ChainAction::ProbeNotFound(i as usize))
    } else {
        (ChainModel { cur: i, phase: Phase::AwaitClaim, queue_this: false, ..m }, Seq::empty(), ChainAction::Claim(i as usize))
    }
}

/// Done with the claimed BSSID `m.cur`: release it, remember whether to
/// queue it, and move on.
pub open spec fn finish_bssid(m: ChainModel, found: bool) -> (ChainModel, Seq<ChainEffect>, ChainAction) {
    let m1 = ChainModel { queued: m.queued.update(m.cur as int, !found && m.queue_this), ..m };
    let r = advance(m1, m.cur + 1);
    (r.0, seq![ChainEffect::Release(m.cur as usize)] + r.1, r.2)
}

/// Offer the claimed BSSID to the first open provider at `from` or later.
pub open spec fn walk(m: ChainModel, from: int) -> (ChainModel, Seq<ChainEffect>, ChainAction) {
    match next_open(m.stopped, from) {
        Some(p) => (ChainModel { phase: Phase::AwaitProvider(p as usize), ..m }, Seq::empty(), ChainAction::AskProvider(m.cur as usize, p as usize)),
        None => finish_bssid(m, false),
    }
}

/// Prefix `e` to the effects of a step.
pub open spec fn with_effects(e: Seq<ChainEffect>, r: (ChainModel, Seq<ChainEffect>, ChainAction)) -> (ChainModel, Seq<ChainEffect>, ChainAction) {
    (r.0, e + r.1, r.2)
}

/// Provider `p` answered `o` about the current BSSID.
pub open spec fn on_outcome(m: ChainModel, p: nat, o: OutcomeKind) -> (ChainModel, Seq<ChainEffect>, ChainAction) {
    let i = m.cur as usize;
    match o {
        OutcomeKind::Found => {
            let writes = if m.policy.write_through {
                if m.policy.delete_pending_on_success {
                    seq![ChainEffect::CacheWrite(i), ChainEffect::DeletePending(i)]
                } else {
                    seq![ChainEffect::CacheWrite(i)]
                }
            } else {
                Seq::empty()
            };
            let m1 = ChainModel { resolved: m.resolved.update(m.cur as int, true), ..m };
            with_effects(writes + seq![ChainEffect::KeepFetched(i)], finish_bssid(m1, true))
        },
        OutcomeKind::NotFound => with_effects(
            if m.policy.mark_not_found_per_provider { seq![ChainEffect::InsertNotFound(i)] } else { Seq::empty() },
            walk(m, (p + 1) as int),
        ),
        OutcomeKind::Skipped => {
            let m1 = ChainModel {
                transient: m.transient.update(m.cur as int, true),
                queue_this: m.queue_this || m.policy.on_skipped == SkipAction::QueuePending,
                ..m
            };
            walk(m1, (p + 1) as int)
        },
        OutcomeKind::HardStop => {
            let m1 = ChainModel {
                stopped: m.stopped.update(p as int, true),
                transient: m.transient.update(m.cur as int, true),
                queue_this: m.queue_this || m.policy.on_hard_stop == HardStopAction::QueuePendingAndStop,
                ..m
            };
            walk(m1, (p + 1) as int)
        },
        OutcomeKind::NetworkError => {
            let m1 = ChainModel {
                transient: m.transient.update(m.cur as int, true),
                queue_this: m.queue_this || m.policy.on_network_error == NetErrorAction::QueuePending,
                ..m
            };
            with_effects(
                if m.policy.on_network_error == NetErrorAction::IncrementPending { seq![ChainEffect::IncrementPending(i)] } else { Seq::empty() },
                walk(m1, (p + 1) as int),
            )
        },
    }
}

/// The action a model in phase `m.phase` waits on (repeated when an event
/// does not fit the phase).
pub open spec fn awaited(m: ChainModel) -> ChainAction {
    match m.phase {
        Phase::Idle => ChainAction::Finish,
        Phase::AwaitCache => ChainAction::ProbeCache(m.cur as usize),
        Phase::AwaitNotFound => ChainAction::ProbeNotFound(m.cur as usize),
        Phase::AwaitClaim => ChainAction::Claim(m.cur as usize),
        Phase::AwaitProvider(p) => ChainAction::AskProvider(m.cur as usize, p),
        Phase::AwaitPending(k) => ChainAction::ProbePending(k),
        Phase::Done => ChainAction::Finish,
    }
}

/// One transition of the pass.
pub open spec fn step_spec(m: ChainModel, e: ChainEvent) -> (ChainModel, Seq<ChainEffect>, ChainAction) {
    match (m.phase, e) {
        (Phase::Idle, ChainEvent::Begin) => advance(m, 0),
        (Phase::AwaitCache, ChainEvent::CacheProbed(hit)) => if hit {
            let m1 = ChainModel { resolved: m.resolved.update(m.cur as int, true), ..m };
            with_effects(seq![ChainEffect::KeepCached(m.cur as usize)], advance(m1, m.cur + 1))
        } else if m.policy.skip_not_found {
            (ChainModel { phase: Phase::AwaitNotFound, ..m }, Seq::empty(), ChainAction::ProbeNotFound(m.cur as usize))
        } else {
            (ChainModel { phase: Phase::AwaitClaim, ..m }, Seq::empty(), ChainAction::Claim(m.cur as usize))
        },
        (Phase::AwaitNotFound, ChainEvent::NotFoundProbed(nf)) => if nf {
            advance(m, m.cur + 1)
        } else {
            (ChainModel { phase: Phase::AwaitClaim, ..m }, Seq::empty(), ChainAction::Claim(m.cur as usize))
        },
        (Phase::AwaitClaim, ChainEvent::Claimed(ok)) => if ok {
            walk(m, 0)
        } else {
            let m1 = ChainModel { deferred: m.deferred.update(m.cur as int, true), ..m };
            advance(m1, m.cur + 1)
        },
        (Phase::AwaitProvider(p), ChainEvent::ProviderAnswered(o)) => on_outcome(m, p as nat, o),
        (Phase::AwaitPending(k), ChainEvent::PendingProbed(found)) => end_scan(
            ChainModel { pending: m.pending.update(k as int, found), ..m },
            k + 1,
        ),
        _ => (m, Seq::empty(), awaited(m)),
    }
}


/// A pass of the provider chain over a list of BSSIDs.
#[derive(Debug)]
pub struct ChainRun {
    policy: ChainPolicy,
    keys: Vec<Vec<char>>,
    stopped: Vec<bool>,
    resolved: Vec<bool>,
    deferred: Vec<bool>,
    transient: Vec<bool>,
    queued: Vec<bool>,
    pending: Vec<bool>,
    cur: usize,
    phase: Phase,
    queue_this: bool,
}

impl View for ChainRun {
    type V = ChainModel;

    closed spec fn view(&self) -> ChainModel {
        ChainModel {
            policy: self.policy,
            keys: self.keys@.map_values(|k: Vec<char>| k@),
            n_providers: self.stopped@.len(),
            stopped: self.stopped@,
            resolved: self.resolved@,
            deferred: self.deferred@,
            transient: self.transient@,
            queued: self.queued@,
            pending: self.pending@,
            cur: self.cur as nat,
            phase: self.phase,
            queue_this: self.queue_this,
        }
    }
}

/// The state of a pass that has not begun.
pub open spec fn initial_model(keys: Seq<Seq<char>>, n_providers: nat, policy: ChainPolicy) -> ChainModel {
    ChainModel {
        policy,
        keys,
        n_providers,
        stopped: Seq::new(n_providers, |i: int| false),
        resolved: Seq::new(keys.len(), |i: int| false),
        deferred: Seq::new(keys.len(), |i: int| false),
        transient: Seq::new(keys.len(), |i: int| false),
        queued: Seq::new(keys.len(), |i: int| false),
        pending: Seq::new(keys.len(), |i: int| false),
        cur: 0,
        phase: Phase::Idle,
        queue_this: false,
    }
}

fn falses(n: usize) -> (v: Vec<bool>)
    ensures
        v@ == Seq::new(n as nat, |i: int| false),
{
    let mut v: Vec<bool> = Vec::new();
    let mut i: usize = 0;
    while i < n
        invariant
            i <= n,
            v@ == Seq::new(i as nat, |k: int| false),
        decreases n - i,
    {
        v.push(false);
        assert(v@ =~= Seq::new((i + 1) as nat, |k: int| false));
        i = i + 1;
    }
    v
}

impl ChainRun {
    /// A pass over `bssids` with `n_providers` providers under `policy`.
    pub fn new(bssids: &[String], n_providers: usize, policy: ChainPolicy) -> (r: ChainRun)
        ensures
            r@ == initial_model(bssids@.map_values(|s: String| s@), n_providers as nat, policy),
            r@.wf(),
    {
        let mut keys: Vec<Vec<char>> = Vec::new();
        let mut i: usize = 0;
        while i < bssids.len()
            invariant
                i <= bssids@.len(),
                keys@.map_values(|k: Vec<char>| k@) =~= bssids@.map_values(|s: String| s@).take(i as int),
            decreases bssids.len() - i,
        {
            let ghost before = keys@;
            keys.push(chars_of(bssids[i].as_str()));
            assert(keys@.map_values(|k: Vec<char>| k@) =~= before.map_values(|k: Vec<char>| k@).push(bssids@[i as int]@));
            i = i + 1;
        }
        assert(bssids@.map_values(|s: String| s@).take(bssids@.len() as int) =~= bssids@.map_values(|s: String| s@));
        let n = bssids.len();
        ChainRun {
            policy,
            keys,
            stopped: falses(n_providers),
            resolved: falses(n),
            deferred: falses(n),
            transient: falses(n),
            queued: falses(n),
            pending: falses(n),
            cur: 0,
            phase: Phase::Idle,
            queue_this: false,
        }
    }

    fn is_definitive_miss(&self, i: usize) -> (r: bool)
        requires
            self@.tables_ok(),
            i < self@.n(),
        ensures
            r == definitive_miss(self@, i as int),
    {
        let ghost m = self@;
        let mut j: usize = 0;
        while j < self.keys.len()
            invariant
                m == self@,
                m.tables_ok(),
                i < m.n(),
                j <= m.n(),
                forall|k: int|
                    0 <= k < j && #[trigger] m.keys[k] == m.keys[i as int] ==> !m.resolved[k] && !m.deferred[k]
                        && !m.transient[k],
            decreases self.keys.len() - j,
        {
            if chars_eq(self.keys[j].as_slice(), self.keys[i].as_slice()) {
                assert(m.keys[j as int] == m.keys[i as int]);
                if self.resolved[j] || self.deferred[j] || self.transient[j] {
                    return false;
                }
            }
            j = j + 1;
        }
        true
    }

    fn push_finish_effects(&self, effects: &mut Vec<ChainEffect>)
        requires
            self@.tables_ok(),
        ensures
            final(effects)@ == old(effects)@ + finish_effects(self@),
    {
        let ghost m = self@;
        let ghost start = effects@;
        let n = self.keys.len();
        let mut k: usize = 0;
        while k < n
            invariant
                m == self@,
                m.tables_ok(),
                n == m.n(),
                k <= n,
                effects@ == start + pending_effects(m, k as nat),
            decreases n - k,
        {
            if self.queued[k] {
                effects.push(ChainEffect::InsertPending(k));
            }
            assert(effects@ =~= start + pending_effects(m, (k + 1) as nat));
            k = k + 1;
        }
        if self.policy.mark_not_found_at_chain_end {
            let ghost mid = effects@;
            let mut k: usize = 0;
            while k < n
                invariant
                    m == self@,
                    m.tables_ok(),
                    n == m.n(),
                    k <= n,
                    effects@ == mid + not_found_effects(m, k as nat),
                decreases n - k,
            {
                if self.is_definitive_miss(k) && !(self.policy.skip_pending_at_chain_end && self.pending[k]) {
                    effects.push(ChainEffect::InsertNotFound(k));
                }
                assert(effects@ =~= mid + not_found_effects(m, (k + 1) as nat));
                k = k + 1;
            }
        }
        assert(effects@ =~= start + finish_effects(m));
    }

    fn finish_pass(&mut self, effects: &mut Vec<ChainEffect>) -> (a: ChainAction)
        requires
            old(self)@.tables_ok(),
        ensures
            final(self)@ == finish_pass(old(self)@).0,
            final(effects)@ == old(effects)@ + finish_pass(old(self)@).1,
            a == finish_pass(old(self)@).2,
            final(self)@.wf(),
    {
        self.push_finish_effects(effects);
        self.cur = self.keys.len();
        self.phase = Phase::Done;
        ChainAction::Finish
    }

    fn next_miss(&self, from: usize) -> (r: Option<usize>)
        requires
            self@.tables_ok(),
        ensures
            r matches Some(k) ==> next_miss(self@, from as int) == Some(k as nat),
            r is None ==> next_miss(self@, from as int) is None,
    {
        let mut k = from;
        while k < self.keys.len()
            invariant
                from <= k,
                self@.tables_ok(),
                next_miss(self@, from as int) == next_miss(self@, k as int),
            decreases self.keys.len() - k,
        {
            if self.is_definitive_miss(k) {
                return Some(k);
            }
            k = k + 1;
        }
        None
    }

    fn end_scan(&mut self, from: usize, effects: &mut Vec<ChainEffect>) -> (a: ChainAction)
        requires
            old(self)@.tables_ok(),
        ensures
            final(self)@ == end_scan(old(self)@, from as int).0,
            final(effects)@ == old(effects)@ + end_scan(old(self)@, from as int).1,
            a == end_scan(old(self)@, from as int).2,
            final(self)@.wf(),
    {
        proof {
            lemma_next_miss_bounds(self@, from as int);
        }
        match self.next_miss(from) {
            Some(k) => {
                self.cur = self.keys.len();
                self.phase = Phase::AwaitPending(k);
                assert(effects@ =~= old(effects)@ + Seq::<ChainEffect>::empty());
                ChainAction::ProbePending(k)
            },
            None => self.finish_pass(effects),
        }
    }

    fn advance(&mut self, i: usize, effects: &mut Vec<ChainEffect>) -> (a: ChainAction)
        requires
            old(self)@.tables_ok(),
            i <= old(self)@.n(),
        ensures
            final(self)@ == advance(old(self)@, i as nat).0,
            final(effects)@ == old(effects)@ + advance(old(self)@, i as nat).1,
            a == advance(old(self)@, i as nat).2,
            final(self)@.wf(),
    {
        if i >= self.keys.len() {
            if self.policy.mark_not_found_at_chain_end && self.policy.skip_pending_at_chain_end {
                return self.end_scan(0, effects);
            }
            return self.finish_pass(effects);
        }
        self.cur = i;
        self.queue_this = false;
        if self.policy.skip_cached {
            self.phase = Phase::AwaitCache;
            assert(effects@ =~= old(effects)@ + Seq::<ChainEffect>::empty());
            ChainAction::ProbeCache(i)
        } else if self.policy.skip_not_found {
            self.phase = Phase::AwaitNotFound;
            assert(effects@ =~= old(effects)@ + Seq::<ChainEffect>::empty());
            ChainAction::ProbeNotFound(i)
        } else {
            self.phase = Phase::AwaitClaim;
            assert(effects@ =~= old(effects)@ + Seq::<ChainEffect>::empty());
            ChainAction::Claim(i)
        }
    }

    fn finish_bssid(&mut self, found: bool, effects: &mut Vec<ChainEffect>) -> (a: ChainAction)
        requires
            old(self)@.tables_ok(),
            old(self)@.cur < old(self)@.n(),
        ensures
            final(self)@ == finish_bssid(old(self)@, found).0,
            final(effects)@ == old(effects)@ + finish_bssid(old(self)@, found).1,
            a == finish_bssid(old(self)@, found).2,
            final(self)@.wf(),
    {
        let ghost m = self@;
        let c = self.cur;
        let q = !found && self.queue_this;
        self.queued.set(c, q);
        effects.push(ChainEffect::Release(c));
        let ghost mid = effects@;
        let ghost m1 = ChainModel { queued: m.queued.update(c as int, q), ..m };
        assert(self@ == m1);
        let _n = self.keys.len();
        let a = self.advance(c + 1, effects);
        assert(effects@ =~= old(effects)@ + (seq![ChainEffect::Release(c)] + advance(m1, (c + 1) as nat).1));
        a
    }

    fn next_open(&self, from: usize) -> (r: Option<usize>)
        requires
            self@.tables_ok(),
        ensures
            r matches Some(p) ==> next_open(self@.stopped, from as int) == Some(p as nat),
            r is None ==> next_open(self@.stopped, from as int) is None,
    {
        let mut p = from;
        while p < self.stopped.len()
            invariant
                from <= p,
                next_open(self@.stopped, from as int) == next_open(self@.stopped, p as int),
            decreases self.stopped.len() - p,
        {
            if !self.stopped[p] {
                return Some(p);
            }
            p = p + 1;
        }
        None
    }

    fn walk(&mut self, from: usize, effects: &mut Vec<ChainEffect>) -> (a: ChainAction)
        requires
            old(self)@.tables_ok(),
            old(self)@.cur < old(self)@.n(),
        ensures
            final(self)@ == walk(old(self)@, from as int).0,
            final(effects)@ == old(effects)@ + walk(old(self)@, from as int).1,
            a == walk(old(self)@, from as int).2,
            final(self)@.wf(),
    {
        proof {
            lemma_next_open_bounds(self@.stopped, from as int);
        }
        match self.next_open(from) {
            Some(p) => {
                self.phase = Phase::AwaitProvider(p);
                assert(effects@ =~= old(effects)@ + Seq::<ChainEffect>::empty());
                ChainAction::AskProvider(self.cur, p)
            },
            None => self.finish_bssid(false, effects),
        }
    }

    fn on_found(&mut self, p: usize, effects: &mut Vec<ChainEffect>) -> (a: ChainAction)
        requires
            old(self)@.wf(),
            old(self)@.cur < old(self)@.n(),
            p < old(self)@.n_providers,
        ensures
            final(self)@ == on_outcome(old(self)@, p as nat, OutcomeKind::Found).0,
            final(effects)@ == old(effects)@ + on_outcome(old(self)@, p as nat, OutcomeKind::Found).1,
            a == on_outcome(old(self)@, p as nat, OutcomeKind::Found).2,
            final(self)@.wf(),
    {
        let c = self.cur;
        let ghost e0 = effects@;
        let ghost m = self@;
        let ghost writes = if m.policy.write_through {
            if m.policy.delete_pending_on_success {
                seq![ChainEffect::CacheWrite(c), ChainEffect::DeletePending(c)]
            } else {
                seq![ChainEffect::CacheWrite(c)]
            }
        } else {
            Seq::<ChainEffect>::empty()
        };
        if self.policy.write_through {
            effects.push(ChainEffect::CacheWrite(c));
            if self.policy.delete_pending_on_success {
                effects.push(ChainEffect::DeletePending(c));
            }
        }
        effects.push(ChainEffect::KeepFetched(c));
        assert(effects@ =~= e0 + (writes + seq![ChainEffect::KeepFetched(c)]));
        let ghost mid = effects@;
        self.resolved.set(c, true);
        let ghost m1 = ChainModel { resolved: m.resolved.update(c as int, true), ..m };
        assert(self@ == m1);
        let a = self.finish_bssid(true, effects);
        assert(effects@ =~= e0 + ((writes + seq![ChainEffect::KeepFetched(c)]) + finish_bssid(m1, true).1));
        a
    }

    fn on_not_found(&mut self, p: usize, effects: &mut Vec<ChainEffect>) -> (a: ChainAction)
        requires
            old(self)@.wf(),
            old(self)@.cur < old(self)@.n(),
            p < old(self)@.n_providers,
        ensures
            final(self)@ == on_outcome(old(self)@, p as nat, OutcomeKind::NotFound).0,
            final(effects)@ == old(effects)@ + on_outcome(old(self)@, p as nat, OutcomeKind::NotFound).1,
            a == on_outcome(old(self)@, p as nat, OutcomeKind::NotFound).2,
            final(self)@.wf(),
    {
        let c = self.cur;
        let ghost e0 = effects@;
        let ghost m = self@;
        if self.policy.mark_not_found_per_provider {
            effects.push(ChainEffect::InsertNotFound(c));
        }
        let ghost pre = if m.policy.mark_not_found_per_provider {
            seq![ChainEffect::InsertNotFound(c)]
        } else {
            Seq::<ChainEffect>::empty()
        };
        assert(effects@ =~= e0 + pre);
        let _np = self.stopped.len();
        let a = self.walk(p + 1, effects);
        assert(effects@ =~= e0 + (pre + walk(m, (p + 1) as int).1));
        a
    }

    fn on_transient(&mut self, p: usize, o: OutcomeKind, effects: &mut Vec<ChainEffect>) -> (a: ChainAction)
        requires
            old(self)@.wf(),
            old(self)@.cur < old(self)@.n(),
            p < old(self)@.n_providers,
            o == OutcomeKind::Skipped || o == OutcomeKind::HardStop,
        ensures
            final(self)@ == on_outcome(old(self)@, p as nat, o).0,
            final(effects)@ == old(effects)@ + on_outcome(old(self)@, p as nat, o).1,
            a == on_outcome(old(self)@, p as nat, o).2,
            final(self)@.wf(),
    {
        let c = self.cur;
        if o == OutcomeKind::HardStop {
            self.stopped.set(p, true);
            self.queue_this = self.queue_this || self.policy.on_hard_stop == HardStopAction::QueuePendingAndStop;
        } else {
            self.queue_this = self.queue_this || self.policy.on_skipped == SkipAction::QueuePending;
        }
        self.transient.set(c, true);
        let _np = self.stopped.len();
        self.walk(p + 1, effects)
    }

    fn on_net_error(&mut self, p: usize, effects: &mut Vec<ChainEffect>) -> (a: ChainAction)
        requires
            old(self)@.wf(),
            old(self)@.cur < old(self)@.n(),
            p < old(self)@.n_providers,
        ensures
            final(self)@ == on_outcome(old(self)@, p as nat, OutcomeKind::NetworkError).0,
            final(effects)@ == old(effects)@ + on_outcome(old(self)@, p as nat, OutcomeKind::NetworkError).1,
            a == on_outcome(old(self)@, p as nat, OutcomeKind::NetworkError).2,
            final(self)@.wf(),
    {
        let c = self.cur;
        let ghost e0 = effects@;
        let ghost m = self@;
        self.transient.set(c, true);
        self.queue_this = self.queue_this || self.policy.on_network_error == NetErrorAction::QueuePending;
        if self.policy.on_network_error == NetErrorAction::IncrementPending {
            effects.push(ChainEffect::IncrementPending(c));
        }
        let ghost pre = if m.policy.on_network_error == NetErrorAction::IncrementPending {
            seq![ChainEffect::IncrementPending(c)]
        } else {
            Seq::<ChainEffect>::empty()
        };
        assert(effects@ =~= e0 + pre);
        let ghost m1 = self@;
        let _np = self.stopped.len();
        let a = self.walk(p + 1, effects);
        assert(effects@ =~= e0 + (pre + walk(m1, (p + 1) as int).1));
        a
    }

    fn on_outcome(&mut self, p: usize, o: OutcomeKind, effects: &mut Vec<ChainEffect>) -> (a: ChainAction)
        requires
            old(self)@.wf(),
            old(self)@.cur < old(self)@.n(),
            p < old(self)@.n_providers,
        ensures
            final(self)@ == on_outcome(old(self)@, p as nat, o).0,
            final(effects)@ == old(effects)@ + on_outcome(old(self)@, p as nat, o).1,
            a == on_outcome(old(self)@, p as nat, o).2,
            final(self)@.wf(),
    {
        match o {
            OutcomeKind::Found => self.on_found(p, effects),
            OutcomeKind::NotFound => self.on_not_found(p, effects),
            OutcomeKind::Skipped => self.on_transient(p, o, effects),
            OutcomeKind::HardStop => self.on_transient(p, o, effects),
            OutcomeKind::NetworkError => self.on_net_error(p, effects),
        }
    }

    /// Feed an answer into the pass; returns the writes to perform, in
    /// order, and what to do next.
    pub fn step(&mut self, e: ChainEvent) -> (r: (Vec<ChainEffect>, ChainAction))
        requires
            old(self)@.wf(),
        ensures
            final(self)@ == step_spec(old(self)@, e).0,
            r.0@ == step_spec(old(self)@, e).1,
            r.1 == step_spec(old(self)@, e).2,
            final(self)@.wf(),
    {
        let mut effects: Vec<ChainEffect> = Vec::new();
        let ghost m = self@;
        match (self.phase, e) {
            (Phase::Idle, ChainEvent::Begin) => {
                let a = self.advance(0, &mut effects);
                assert(effects@ =~= step_spec(m, e).1);
                (effects, a)
            },
            (Phase::AwaitCache, ChainEvent::CacheProbed(hit)) => {
                if hit {
                    let c = self.cur;
                    self.resolved.set(c, true);
                    effects.push(ChainEffect::KeepCached(c));
                    let _n = self.keys.len();
                    let a = self.advance(c + 1, &mut effects);
                    assert(effects@ =~= step_spec(m, e).1);
                    (effects, a)
                } else if self.policy.skip_not_found {
                    self.phase = Phase::AwaitNotFound;
                    assert(effects@ =~= step_spec(m, e).1);
                    (effects, ChainAction::ProbeNotFound(self.cur))
                } else {
                    self.phase = Phase::AwaitClaim;
                    assert(effects@ =~= step_spec(m, e).1);
                    (effects, ChainAction::Claim(self.cur))
                }
            },
            (Phase::AwaitNotFound, ChainEvent::NotFoundProbed(nf)) => {
                if nf {
                    let c = self.cur;
                    let _n = self.keys.len();
                    let a = self.advance(c + 1, &mut effects);
                    assert(effects@ =~= step_spec(m, e).1);
                    (effects, a)
                } else {
                    self.phase = Phase::AwaitClaim;
                    assert(effects@ =~= step_spec(m, e).1);
                    (effects, ChainAction::Claim(self.cur))
                }
            },
            (Phase::AwaitClaim, ChainEvent::Claimed(ok)) => {
                if ok {
                    let a = self.walk(0, &mut effects);
                    assert(effects@ =~= step_spec(m, e).1);
                    (effects, a)
                } else {
                    let c = self.cur;
                    self.deferred.set(c, true);
                    let _n = self.keys.len();
                    let a = self.advance(c + 1, &mut effects);
                    assert(effects@ =~= step_spec(m, e).1);
                    (effects, a)
                }
            },
            (Phase::AwaitProvider(p), ChainEvent::ProviderAnswered(o)) => {
                let a = self.on_outcome(p, o, &mut effects);
                assert(effects@ =~= step_spec(m, e).1);
                (effects, a)
            },
            (Phase::AwaitPending(k), ChainEvent::PendingProbed(found)) => {
                self.pending.set(k, found);
                let a = self.end_scan(k + 1, &mut effects);
                assert(effects@ =~= step_spec(m, e).1);
                (effects, a)
            },
            _ => {
                let a = match self.phase {
                    Phase::Idle => ChainAction::Finish,
                    Phase::AwaitCache => ChainAction::ProbeCache(self.cur),
                    Phase::AwaitNotFound => ChainAction::ProbeNotFound(self.cur),
                    Phase::AwaitClaim => ChainAction::Claim(self.cur),
                    Phase::AwaitProvider(p) => ChainAction::AskProvider(self.cur, p),
                    Phase::AwaitPending(k) => ChainAction::ProbePending(k),
                    Phase::Done => ChainAction::Finish,
                };
                assert(effects@ =~= step_spec(m, e).1);
                (effects, a)
            },
        }
    }
}

proof fn lemma_next_miss_bounds(m: ChainModel, from: int)
    ensures
        next_miss(m, from) matches Some(k) ==> from <= k < m.n() && definitive_miss(m, k as int),
    decreases m.n() - from,
{
    if 0 <= from < m.n() && !definitive_miss(m, from) {
        lemma_next_miss_bounds(m, from + 1);
    }
}

proof fn lemma_next_open_bounds(stopped: Seq<bool>, from: int)
    ensures
        next_open(stopped, from) matches Some(p) ==> from <= p < stopped.len() && !stopped[p as int],
    decreases stopped.len() - from,
{
    if 0 <= from < stopped.len() && stopped[from] {
        lemma_next_open_bounds(stopped, from + 1);
    }
}


/// Every `InsertNotFound` the step emits is justified: either the per-provider
/// policy and a `NotFound` answer about the current BSSID, or the end of the
/// pass under the end-of-chain policy for a definitively missed BSSID.
pub open spec fn not_found_marks_justified(
    m: ChainModel,
    e: ChainEvent,
    r: (ChainModel, Seq<ChainEffect>, ChainAction),
) -> bool {
    forall|x: int|
        0 <= x < r.1.len() ==> (#[trigger] r.1[x] matches ChainEffect::InsertNotFound(i) ==> (
        m.policy.mark_not_found_per_provider && e == ChainEvent::ProviderAnswered(OutcomeKind::NotFound)
            && i == m.cur) || (m.policy.mark_not_found_at_chain_end && r.2 == ChainAction::Finish && i < r.0.n()
            && definitive_miss(r.0, i as int)))
}

/// Every `InsertNotFound` among `effs` is an end-of-pass mark (the action
/// is `a == Finish`) for a definitively missed BSSID of `m`.
pub open spec fn end_marks_only(m: ChainModel, effs: Seq<ChainEffect>, a: ChainAction) -> bool {
    forall|x: int|
        0 <= x < effs.len() ==> (#[trigger] effs[x] matches ChainEffect::InsertNotFound(i) ==> a == ChainAction::Finish
            && m.policy.mark_not_found_at_chain_end && i < m.n() && definitive_miss(m, i as int))
}

proof fn lemma_pending_effects_kind(m: ChainModel, k: nat)
    ensures
        forall|x: int| 0 <= x < pending_effects(m, k).len() ==> #[trigger] pending_effects(m, k)[x] is InsertPending,
    decreases k,
{
    if k > 0 {
        lemma_pending_effects_kind(m, (k - 1) as nat);
        let a = pending_effects(m, (k - 1) as nat);
        let b: Seq<ChainEffect> = if m.queued[k - 1] {
            seq![ChainEffect::InsertPending((k - 1) as usize)]
        } else {
            Seq::empty()
        };
        assert forall|x: int| 0 <= x < (a + b).len() implies #[trigger] (a + b)[x] is InsertPending by {
            if x < a.len() {
                assert((a + b)[x] == a[x]);
            } else {
                assert((a + b)[x] == b[x - a.len()]);
            }
        }
    }
}

proof fn lemma_not_found_effects_definitive(m: ChainModel, k: nat)
    requires
        k <= m.n(),
        m.n() <= usize::MAX,
    ensures
        forall|x: int|
            0 <= x < not_found_effects(m, k).len() ==> (#[trigger] not_found_effects(m, k)[x] matches ChainEffect::InsertNotFound(i)
                ==> i < k && definitive_miss(m, i as int)),
    decreases k,
{
    if k > 0 {
        lemma_not_found_effects_definitive(m, (k - 1) as nat);
        let a = not_found_effects(m, (k - 1) as nat);
        let b: Seq<ChainEffect> = if end_mark(m, k - 1) {
            seq![ChainEffect::InsertNotFound((k - 1) as usize)]
        } else {
            Seq::empty()
        };
        assert(((k - 1) as usize) as int == k - 1);
        assert forall|x: int| 0 <= x < (a + b).len() implies (#[trigger] (a + b)[x] matches ChainEffect::InsertNotFound(i)
            ==> i < k && definitive_miss(m, i as int)) by {
            if x < a.len() {
                assert((a + b)[x] == a[x]);
            } else {
                assert((a + b)[x] == b[x - a.len()]);
            }
        }
    }
}

proof fn lemma_finish_effects_marks(m: ChainModel)
    requires
        m.tables_ok(),
    ensures
        end_marks_only(m, finish_effects(m), ChainAction::Finish),
{
    lemma_pending_effects_kind(m, m.n());
    lemma_not_found_effects_definitive(m, m.n());
    let a = pending_effects(m, m.n());
    let b = if m.policy.mark_not_found_at_chain_end {
        not_found_effects(m, m.n())
    } else {
        Seq::empty()
    };
    assert forall|x: int| 0 <= x < (a + b).len() implies (#[trigger] (a + b)[x] matches ChainEffect::InsertNotFound(i)
        ==> ChainAction::Finish == ChainAction::Finish && m.policy.mark_not_found_at_chain_end && i < m.n()
        && definitive_miss(m, i as int)) by {
        if x < a.len() {
            assert((a + b)[x] == a[x]);
        } else {
            assert((a + b)[x] == b[x - a.len()]);
        }
    }
}

proof fn lemma_finish_pass_marks(m: ChainModel)
    requires
        m.tables_ok(),
    ensures
        end_marks_only(finish_pass(m).0, finish_pass(m).1, finish_pass(m).2),
{
    lemma_finish_effects_marks(m);
    let m2 = finish_pass(m).0;
    assert(m2.keys == m.keys && m2.resolved == m.resolved && m2.deferred == m.deferred
        && m2.transient == m.transient);
    assert forall|j: int| definitive_miss(m, j) implies #[trigger] definitive_miss(m2, j) by {
        assert forall|k: int| 0 <= k < m2.n() && #[trigger] m2.keys[k] == m2.keys[j] implies !m2.resolved[k]
            && !m2.deferred[k] && !m2.transient[k] by {
            assert(m.keys[k] == m.keys[j]);
        }
    }
}

proof fn lemma_end_scan_marks(m: ChainModel, from: int)
    requires
        m.tables_ok(),
    ensures
        end_marks_only(end_scan(m, from).0, end_scan(m, from).1, end_scan(m, from).2),
{
    if next_miss(m, from) is None {
        lemma_finish_pass_marks(m);
    }
}

proof fn lemma_advance_marks(m: ChainModel, i: nat)
    requires
        m.tables_ok(),
    ensures
        end_marks_only(advance(m, i).0, advance(m, i).1, advance(m, i).2),
{
    if i >= m.n() {
        lemma_finish_pass_marks(m);
        lemma_end_scan_marks(m, 0);
    }
}

/// Prefixing effects that are not not_found marks keeps a step justified.
proof fn lemma_prefix_marks(pre: Seq<ChainEffect>, r: (ChainModel, Seq<ChainEffect>, ChainAction))
    requires
        forall|x: int| 0 <= x < pre.len() ==> !(#[trigger] pre[x] is InsertNotFound),
        end_marks_only(r.0, r.1, r.2),
    ensures
        end_marks_only(r.0, pre + r.1, r.2),
{
    let s = pre + r.1;
    assert forall|x: int| 0 <= x < s.len() implies (#[trigger] s[x] matches ChainEffect::InsertNotFound(i)
        ==> r.2 == ChainAction::Finish && r.0.policy.mark_not_found_at_chain_end && i < r.0.n()
        && definitive_miss(r.0, i as int)) by {
        if x < pre.len() {
            assert(s[x] == pre[x]);
        } else {
            assert(s[x] == r.1[x - pre.len()]);
        }
    }
}

proof fn lemma_walk_marks(m: ChainModel, from: int)
    requires
        m.tables_ok(),
        m.cur < m.n(),
    ensures
        end_marks_only(walk(m, from).0, walk(m, from).1, walk(m, from).2),
{
    match next_open(m.stopped, from) {
        Some(p) => {},
        None => {
            let m1 = ChainModel { queued: m.queued.update(m.cur as int, !false && m.queue_this), ..m };
            lemma_advance_marks(m1, m.cur + 1);
            lemma_prefix_marks(seq![ChainEffect::Release(m.cur as usize)], advance(m1, m.cur + 1));
        },
    }
}

proof fn lemma_justified_from_end_marks(m: ChainModel, e: ChainEvent, r: (ChainModel, Seq<ChainEffect>, ChainAction))
    requires
        end_marks_only(r.0, r.1, r.2),
        r.0.policy == m.policy,
    ensures
        not_found_marks_justified(m, e, r),
{
}

/// Law (definitive not_found): a pass marks a BSSID not_found only on a
/// provider's authoritative `NotFound` under the per-provider policy, or at
/// the end of the pass under the end-of-chain policy when no occurrence of
/// that BSSID was resolved, deferred to a concurrent pass, or met a
/// transient answer (skipped, hard stop, network error).
pub proof fn lemma_not_found_marks_justified(m: ChainModel, e: ChainEvent)
    requires
        m.wf(),
    ensures
        not_found_marks_justified(m, e, step_spec(m, e)),
{
    let r = step_spec(m, e);
    match (m.phase, e) {
        (Phase::Idle, ChainEvent::Begin) => {
            lemma_advance_marks(m, 0);
            lemma_justified_from_end_marks(m, e, r);
        },
        (Phase::AwaitCache, ChainEvent::CacheProbed(hit)) => {
            if hit {
                let m1 = ChainModel { resolved: m.resolved.update(m.cur as int, true), ..m };
                lemma_advance_marks(m1, m.cur + 1);
                lemma_prefix_marks(seq![ChainEffect::KeepCached(m.cur as usize)], advance(m1, m.cur + 1));
                lemma_justified_from_end_marks(m, e, r);
            }
        },
        (Phase::AwaitNotFound, ChainEvent::NotFoundProbed(nf)) => {
            if nf {
                lemma_advance_marks(m, m.cur + 1);
                lemma_justified_from_end_marks(m, e, r);
            }
        },
        (Phase::AwaitClaim, ChainEvent::Claimed(ok)) => {
            if ok {
                lemma_walk_marks(m, 0);
            } else {
                let m1 = ChainModel { deferred: m.deferred.update(m.cur as int, true), ..m };
                lemma_advance_marks(m1, m.cur + 1);
            }
            lemma_justified_from_end_marks(m, e, r);
        },
        (Phase::AwaitPending(k), ChainEvent::PendingProbed(found)) => {
            let m1 = ChainModel { pending: m.pending.update(k as int, found), ..m };
            lemma_end_scan_marks(m1, k + 1);
            lemma_justified_from_end_marks(m, e, r);
        },
        (Phase::AwaitProvider(p), ChainEvent::ProviderAnswered(o)) => {
            let i = m.cur as usize;
            match o {
                OutcomeKind::Found => {
                    let m1 = ChainModel { resolved: m.resolved.update(m.cur as int, true), ..m };
                    let m2 = ChainModel { queued: m1.queued.update(m1.cur as int, !true && m1.queue_this), ..m1 };
                    lemma_advance_marks(m2, m.cur + 1);
                    let ra = advance(m2, m.cur + 1);
                    lemma_prefix_marks(seq![ChainEffect::Release(i)], ra);
                    let writes = if m.policy.write_through {
                        if m.policy.delete_pending_on_success {
                            seq![ChainEffect::CacheWrite(i), ChainEffect::DeletePending(i)]
                        } else {
                            seq![ChainEffect::CacheWrite(i)]
                        }
                    } else {
                        Seq::empty()
                    };
                    let pre = writes + seq![ChainEffect::KeepFetched(i)];
                    assert forall|x: int| 0 <= x < pre.len() implies !(#[trigger] pre[x] is InsertNotFound) by {
                        if x < writes.len() {
                            assert(pre[x] == writes[x]);
                        }
                    }
                    lemma_prefix_marks(pre, (ra.0, seq![ChainEffect::Release(i)] + ra.1, ra.2));
                    assert(pre + (seq![ChainEffect::Release(i)] + ra.1) =~= r.1);
                    lemma_justified_from_end_marks(m, e, r);
                },
                OutcomeKind::NotFound => {
                    lemma_walk_marks(m, (p + 1) as int);
                    let rw = walk(m, (p + 1) as int);
                    let pre: Seq<ChainEffect> = if m.policy.mark_not_found_per_provider {
                        seq![ChainEffect::InsertNotFound(i)]
                    } else {
                        Seq::empty()
                    };
                    assert(r.1 == pre + rw.1);
                    assert forall|x: int| 0 <= x < r.1.len() implies (#[trigger] r.1[x] matches ChainEffect::InsertNotFound(j)
                        ==> (m.policy.mark_not_found_per_provider && e == ChainEvent::ProviderAnswered(OutcomeKind::NotFound)
                        && j == m.cur) || (m.policy.mark_not_found_at_chain_end && r.2 == ChainAction::Finish && j < r.0.n()
                        && definitive_miss(r.0, j as int))) by {
                        if x < pre.len() {
                            assert(r.1[x] == pre[x]);
                        } else {
                            assert(r.1[x] == rw.1[x - pre.len()]);
                        }
                    }
                },
                OutcomeKind::Skipped => {
                    let m1 = ChainModel {
                        transient: m.transient.update(m.cur as int, true),
                        queue_this: m.queue_this || m.policy.on_skipped == SkipAction::QueuePending,
                        ..m
                    };
                    lemma_walk_marks(m1, (p + 1) as int);
                    lemma_justified_from_end_marks(m, e, r);
                },
                OutcomeKind::HardStop => {
                    let m1 = ChainModel {
                        stopped: m.stopped.update(p as int, true),
                        transient: m.transient.update(m.cur as int, true),
                        queue_this: m.queue_this || m.policy.on_hard_stop == HardStopAction::QueuePendingAndStop,
                        ..m
                    };
                    lemma_walk_marks(m1, (p + 1) as int);
                    lemma_justified_from_end_marks(m, e, r);
                },
                OutcomeKind::NetworkError => {
                    let m1 = ChainModel {
                        transient: m.transient.update(m.cur as int, true),
                        queue_this: m.queue_this || m.policy.on_network_error == NetErrorAction::QueuePending,
                        ..m
                    };
                    lemma_walk_marks(m1, (p + 1) as int);
                    let pre: Seq<ChainEffect> = if m.policy.on_network_error == NetErrorAction::IncrementPending {
                        seq![ChainEffect::IncrementPending(i)]
                    } else {
                        Seq::empty()
                    };
                    lemma_prefix_marks(pre, walk(m1, (p + 1) as int));
                    lemma_justified_from_end_marks(m, e, r);
                },
            }
        },
        _ => {},
    }
}

proof fn lemma_not_found_effects_complete(m: ChainModel, k: nat)
    requires
        k <= m.n(),
        m.n() <= usize::MAX,
    ensures
        forall|i: int| 0 <= i < k && end_mark(m, i) ==> #[trigger] not_found_effects(m, k).contains(
            ChainEffect::InsertNotFound(i as usize),
        ),
    decreases k,
{
    if k > 0 {
        lemma_not_found_effects_complete(m, (k - 1) as nat);
        let a = not_found_effects(m, (k - 1) as nat);
        let b: Seq<ChainEffect> = if end_mark(m, k - 1) {
            seq![ChainEffect::InsertNotFound((k - 1) as usize)]
        } else {
            Seq::empty()
        };
        assert(not_found_effects(m, k) == a + b);
        assert forall|i: int| 0 <= i < k && end_mark(m, i) implies #[trigger] (a + b).contains(
            ChainEffect::InsertNotFound(i as usize),
        ) by {
            if i < k - 1 {
                assert(a.contains(ChainEffect::InsertNotFound(i as usize)));
                let j = choose|j: int| 0 <= j < a.len() && a[j] == ChainEffect::InsertNotFound(i as usize);
                assert((a + b)[j] == a[j]);
            } else {
                assert((a + b)[a.len() as int] == b[0]);
            }
        }
    }
}

/// Law (complete marks): when a pass ends under the end-of-chain policy,
/// every BSSID none of whose occurrences was resolved, deferred to a
/// concurrent pass or met a transient answer is marked not_found, unless
/// the policy leaves out pending BSSIDs and the end probe found it pending.
pub proof fn lemma_end_marks_complete(m: ChainModel)
    requires
        m.tables_ok(),
        m.policy.mark_not_found_at_chain_end,
    ensures
        forall|i: int| 0 <= i < m.n() && end_mark(m, i) ==> #[trigger] finish_effects(m).contains(
            ChainEffect::InsertNotFound(i as usize),
        ),
{
    lemma_not_found_effects_complete(m, m.n());
    let a = pending_effects(m, m.n());
    let b = not_found_effects(m, m.n());
    assert(finish_effects(m) == a + b);
    assert forall|i: int| 0 <= i < m.n() && end_mark(m, i) implies #[trigger] (a + b).contains(
        ChainEffect::InsertNotFound(i as usize),
    ) by {
        assert(b.contains(ChainEffect::InsertNotFound(i as usize)));
        let j = choose|j: int| 0 <= j < b.len() && b[j] == ChainEffect::InsertNotFound(i as usize);
        assert((a + b)[a.len() + j] == b[j]);
    }
}

/// Law (pending drain): when the policy writes through and deletes pending
/// rows on success (as the drain's does), a provider's `Found` for the BSSID
/// being worked on first writes it to the cache, removes it from the pending
/// queue and keeps it as fetched; when network errors count attempts (as the
/// drain's do), a network error first counts one attempt on that BSSID's
/// pending row.
pub proof fn lemma_drain_outcomes(m: ChainModel, p: usize)
    requires
        m.wf(),
        m.phase == Phase::AwaitProvider(p),
    ensures
        m.policy.write_through && m.policy.delete_pending_on_success ==> step_spec(
            m,
            ChainEvent::ProviderAnswered(OutcomeKind::Found),
        ).1.take(3) == seq![
            ChainEffect::CacheWrite(m.cur as usize),
            ChainEffect::DeletePending(m.cur as usize),
            ChainEffect::KeepFetched(m.cur as usize),
        ],
        m.policy.on_network_error == NetErrorAction::IncrementPending ==> step_spec(
            m,
            ChainEvent::ProviderAnswered(OutcomeKind::NetworkError),
        ).1[0] == ChainEffect::IncrementPending(m.cur as usize),
{
    let i = m.cur as usize;
    if m.policy.write_through && m.policy.delete_pending_on_success {
        let m1 = ChainModel { resolved: m.resolved.update(m.cur as int, true), ..m };
        let fb = finish_bssid(m1, true);
        let pre = seq![ChainEffect::CacheWrite(i), ChainEffect::DeletePending(i)] + seq![ChainEffect::KeepFetched(i)];
        assert(step_spec(m, ChainEvent::ProviderAnswered(OutcomeKind::Found)).1 == pre + fb.1);
        assert((pre + fb.1).take(3) =~= seq![ChainEffect::CacheWrite(i), ChainEffect::DeletePending(i), ChainEffect::KeepFetched(i)]);
    }
    if m.policy.on_network_error == NetErrorAction::IncrementPending {
        let m1 = ChainModel {
            transient: m.transient.update(m.cur as int, true),
            queue_this: m.queue_this || m.policy.on_network_error == NetErrorAction::QueuePending,
            ..m
        };
        let w = walk(m1, (p + 1) as int);
        assert(step_spec(m, ChainEvent::ProviderAnswered(OutcomeKind::NetworkError)).1 == seq![ChainEffect::IncrementPending(i)] + w.1);
        assert((seq![ChainEffect::IncrementPending(i)] + w.1)[0] == ChainEffect::IncrementPending(i));
    }
}

/// Law (write-through): when a provider finds the BSSID being worked on,
/// a policy that writes through first writes the position to the `aps`
/// cache (then, when it also deletes pending rows, removes the pending row)
/// and only then keeps it as fetched; a policy that does not write through
/// keeps it as fetched with no cache write. Either way no other write
/// comes before.
pub proof fn lemma_found_writes_through(m: ChainModel, p: usize)
    requires
        m.wf(),
        m.phase == Phase::AwaitProvider(p),
    ensures
        ({
            let effs = step_spec(m, ChainEvent::ProviderAnswered(OutcomeKind::Found)).1;
            let i = m.cur as usize;
            &&& m.policy.write_through && !m.policy.delete_pending_on_success ==> effs.take(2) == seq![
                ChainEffect::CacheWrite(i),
                ChainEffect::KeepFetched(i),
            ]
            &&& m.policy.write_through && m.policy.delete_pending_on_success ==> effs.take(3) == seq![
                ChainEffect::CacheWrite(i),
                ChainEffect::DeletePending(i),
                ChainEffect::KeepFetched(i),
            ]
            &&& !m.policy.write_through ==> effs[0] == ChainEffect::KeepFetched(i)
                && effs.len() >= 1
        }),
{
    let i = m.cur as usize;
    let m1 = ChainModel { resolved: m.resolved.update(m.cur as int, true), ..m };
    let fb = finish_bssid(m1, true);
    let effs = step_spec(m, ChainEvent::ProviderAnswered(OutcomeKind::Found)).1;
    if m.policy.write_through {
        if m.policy.delete_pending_on_success {
            let pre = seq![ChainEffect::CacheWrite(i), ChainEffect::DeletePending(i)] + seq![ChainEffect::KeepFetched(i)];
            assert(effs == pre + fb.1);
            assert((pre + fb.1).take(3) =~= seq![ChainEffect::CacheWrite(i), ChainEffect::DeletePending(i), ChainEffect::KeepFetched(i)]);
        } else {
            let pre = seq![ChainEffect::CacheWrite(i)] + seq![ChainEffect::KeepFetched(i)];
            assert(effs == pre + fb.1);
            assert((pre + fb.1).take(2) =~= seq![ChainEffect::CacheWrite(i), ChainEffect::KeepFetched(i)]);
        }
    } else {
        let pre = Seq::<ChainEffect>::empty() + seq![ChainEffect::KeepFetched(i)];
        assert(effs == pre + fb.1);
        assert((pre + fb.1)[0] == ChainEffect::KeepFetched(i));
    }
}

/// Law: a step only ever asks a provider that has not hard-stopped in this
/// pass, and a provider that has stopped stays stopped.
#[verifier::rlimit(40)]
pub proof fn lemma_stopped_providers_never_asked(m: ChainModel, e: ChainEvent)
    requires
        m.wf(),
    ensures
        step_spec(m, e).2 matches ChainAction::AskProvider(i, p) ==> p < m.n_providers && !step_spec(m, e).0.stopped[p as int],
        forall|q: int| 0 <= q < m.n_providers && m.stopped[q] ==> #[trigger] step_spec(m, e).0.stopped[q],
{
    let r = step_spec(m, e);
    match (m.phase, e) {
        (Phase::AwaitClaim, ChainEvent::Claimed(true)) => {
            lemma_next_open_bounds(m.stopped, 0);
        },
        (Phase::AwaitProvider(p), ChainEvent::ProviderAnswered(o)) => {
            lemma_next_open_bounds(m.stopped, (p + 1) as int);
            lemma_next_open_bounds(m.stopped.update(p as int, true), (p + 1) as int);
        },
        (Phase::AwaitPending(k), ChainEvent::PendingProbed(found)) => {
            let m1 = ChainModel { pending: m.pending.update(k as int, found), ..m };
            assert(end_scan(m1, k + 1).0.stopped == m.stopped);
        },
        _ => {},
    }
}

} // verus!
