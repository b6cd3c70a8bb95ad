use whereami::provider::OutcomeKind;
use whereami::resolver::{
    background_policy, drain_bssids, drain_policy, ChainAction, ChainEffect, ChainEvent, ChainPolicy, ChainRun, PendingAp,
};
use whereami::server::{drain_drops_pending, was_resolved};

/// Runs a pass under `policy` over one BSSID with two providers answering
/// `a` and `b`, the end probe answering `pending`; returns every effect in
/// order and how many end probes were asked.
fn run_pass(bssid: &str, policy: ChainPolicy, a: OutcomeKind, b: OutcomeKind, pending: bool) -> (Vec<ChainEffect>, usize) {
    let bssids = vec![bssid.to_string()];
    let mut run = ChainRun::new(&bssids, 2, policy);
    let mut effects = Vec::new();
    let mut probes = 0;
    let (e, mut action) = run.step(ChainEvent::Begin);
    effects.extend(e);
    loop {
        let event = match action {
            ChainAction::Claim(_) => ChainEvent::Claimed(true),
            ChainAction::AskProvider(_, 0) => ChainEvent::ProviderAnswered(a),
            ChainAction::AskProvider(_, _) => ChainEvent::ProviderAnswered(b),
            ChainAction::ProbeCache(_) => ChainEvent::CacheProbed(false),
            ChainAction::ProbeNotFound(_) => ChainEvent::NotFoundProbed(false),
            ChainAction::ProbePending(_) => {
                probes += 1;
                ChainEvent::PendingProbed(pending)
            }
            ChainAction::Finish => break,
        };
        let (e, next) = run.step(event);
        effects.extend(e);
        action = next;
    }
    (effects, probes)
}

/// Runs a drain pass over one BSSID (which has a pending row) with two
/// providers answering `a` and `b`; returns every effect in order.
fn drain_pass(bssid: &str, a: OutcomeKind, b: OutcomeKind) -> Vec<ChainEffect> {
    run_pass(bssid, drain_policy(), a, b, true).0
}

/// What the drain's cleanup removes from the pending queue: unresolved
/// BSSIDs that the pass marked not_found.
fn pending_deleted_after(bssid: &str, effects: &[ChainEffect]) -> bool {
    let fetched: Vec<String> = if effects.iter().any(|e| matches!(e, ChainEffect::KeepFetched(0))) {
        vec![bssid.to_string()]
    } else {
        Vec::new()
    };
    let marked = effects.iter().any(|e| matches!(e, ChainEffect::InsertNotFound(0)));
    let deleted_by_chain = effects.iter().any(|e| matches!(e, ChainEffect::DeletePending(0)));
    deleted_by_chain || drain_drops_pending(bssid, &fetched, &[], marked)
}

#[test]
fn drain_cleanup_deletes_pending_after_definitive_not_found() {
    let bssid = "aa:bb:cc:dd:ee:f1";
    let effects = drain_pass(bssid, OutcomeKind::NotFound, OutcomeKind::NotFound);
    let nf = effects.iter().any(|e| matches!(e, ChainEffect::InsertNotFound(0)));
    assert!(nf, "definitive NotFound must mark not_found");
    assert!(pending_deleted_after(bssid, &effects), "pending row must be deleted after definitive not_found");
}

#[test]
fn drain_cleanup_keeps_pending_when_transient_error() {
    let bssid = "aa:bb:cc:dd:ee:f2";
    let effects = drain_pass(bssid, OutcomeKind::NotFound, OutcomeKind::NetworkError);
    let nf = effects.iter().any(|e| matches!(e, ChainEffect::InsertNotFound(0)));
    assert!(!nf, "transient error must not mark not_found");
    assert!(!pending_deleted_after(bssid, &effects), "pending row must survive a transient error");
    assert!(effects.iter().any(|e| matches!(e, ChainEffect::IncrementPending(0))));
}

#[test]
fn drain_success_writes_through_and_leaves_the_queue() {
    let effects = drain_pass("x", OutcomeKind::Found, OutcomeKind::NotFound);
    assert_eq!(
        effects,
        vec![
            ChainEffect::CacheWrite(0),
            ChainEffect::DeletePending(0),
            ChainEffect::KeepFetched(0),
            ChainEffect::Release(0),
        ]
    );
}

#[test]
fn drain_batch_keeps_queue_order() {
    let pending = vec![
        PendingAp { bssid: "aa:bb:cc:dd:ee:01".to_string(), ssid: None, channel: None, frequency: None, signal_dbm: Some(-60), attempts: 0 },
        PendingAp { bssid: "aa:bb:cc:dd:ee:02".to_string(), ssid: Some("x".to_string()), channel: Some(6), frequency: Some(2437), signal_dbm: None, attempts: 2 },
    ];
    let b = drain_bssids(&pending);
    assert_eq!(b, vec!["aa:bb:cc:dd:ee:01".to_string(), "aa:bb:cc:dd:ee:02".to_string()]);
}

#[test]
fn drain_drops_only_unresolved_not_found_rows() {
    let fetched = vec!["A".to_string()];
    let positioned = vec!["B".to_string()];
    assert!(!drain_drops_pending("A", &fetched, &positioned, true));
    assert!(!drain_drops_pending("B", &fetched, &positioned, true));
    assert!(drain_drops_pending("C", &fetched, &positioned, true));
    assert!(!drain_drops_pending("C", &fetched, &positioned, false));
    assert!(was_resolved("B", &fetched, &positioned));
}

#[test]
fn background_pass_leaves_pending_bssid_unmarked() {
    let (effects, probes) = run_pass("aa:bb:cc:dd:ee:f3", background_policy(), OutcomeKind::NotFound, OutcomeKind::NotFound, true);
    assert_eq!(probes, 1);
    assert!(!effects.iter().any(|e| matches!(e, ChainEffect::InsertNotFound(_))));
}

#[test]
fn background_pass_marks_definitive_miss_without_pending_row() {
    let (effects, probes) = run_pass("aa:bb:cc:dd:ee:f4", background_policy(), OutcomeKind::NotFound, OutcomeKind::NotFound, false);
    assert_eq!(probes, 1);
    assert_eq!(effects, vec![ChainEffect::Release(0), ChainEffect::InsertNotFound(0)]);
}

#[test]
fn background_pass_probes_only_definitive_misses() {
    let (effects, probes) = run_pass("aa:bb:cc:dd:ee:f5", background_policy(), OutcomeKind::NotFound, OutcomeKind::NetworkError, false);
    assert_eq!(probes, 0);
    assert_eq!(effects, vec![ChainEffect::Release(0), ChainEffect::InsertPending(0)]);
}

#[test]
fn drain_pass_marks_without_probing_pending() {
    let (effects, probes) = run_pass("aa:bb:cc:dd:ee:f6", drain_policy(), OutcomeKind::NotFound, OutcomeKind::NotFound, true);
    assert_eq!(probes, 0);
    assert!(effects.iter().any(|e| matches!(e, ChainEffect::InsertNotFound(0))));
}
