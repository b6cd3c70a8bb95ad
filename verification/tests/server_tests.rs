use whereami::debounce::{Debouncer, ScanEntry, ScanSample};
use whereami::server::{
    check_resolve_request, db_status, debug_rows, locate_candidates, resolve_answers,
    scan_networks, should_backfill, stale_age_secs, was_resolved, Command, DbStatus, Provenance,
};

fn sample(items: &[(&str, i32)]) -> ScanSample {
    let mut s = ScanSample::new();
    for (b, sig) in items {
        s.insert(b.to_string(), ScanEntry { signal_dbm: *sig, ssid: Some(format!("net-{b}")), channel: Some(6) });
    }
    s
}

#[test]
fn candidates_are_stable_current_strongest_first() {
    let mut d = Debouncer::new(5, 2);
    d.push_scan(sample(&[("A", -70), ("B", -60), ("C", -50), ("D", -40)]));
    d.push_scan(sample(&[("A", -65), ("B", -75), ("C", -55), ("E", -30)]));
    // Stable: A, B, C (seen twice); D is stable? no (once). E once.
    let c = locate_candidates(&d, 2);
    assert!(!c.using_fallback);
    assert_eq!(c.visible, 4);
    assert_eq!(c.stable, 3);
    assert_eq!(c.list, vec![("C".to_string(), -55), ("A".to_string(), -65)]);
}

#[test]
fn candidates_skip_stable_aps_missing_from_latest_scan() {
    let mut d = Debouncer::new(5, 2);
    d.push_scan(sample(&[("A", -70), ("B", -60)]));
    d.push_scan(sample(&[("A", -70), ("B", -60)]));
    d.push_scan(sample(&[("B", -61), ("X", -20)]));
    let c = locate_candidates(&d, 10);
    assert_eq!(c.list, vec![("B".to_string(), -61)]);
}

#[test]
fn cold_start_falls_back_to_latest_scan() {
    let mut d = Debouncer::new(5, 3);
    d.push_scan(sample(&[("A", -70), ("B", -50), ("C", -70), ("D", -90)]));
    let c = locate_candidates(&d, 3);
    assert!(c.using_fallback);
    assert_eq!(c.stable, 0);
    assert_eq!(
        c.list,
        vec![("B".to_string(), -50), ("A".to_string(), -70), ("C".to_string(), -70)]
    );
    let empty = Debouncer::new(5, 3);
    let c = locate_candidates(&empty, 3);
    assert!(!c.using_fallback);
    assert!(c.list.is_empty());
    assert_eq!(c.visible, 0);
}

#[test]
fn debug_rows_cover_latest_and_stable() {
    let mut d = Debouncer::new(5, 2);
    d.push_scan(sample(&[("A", -70), ("S", -40)]));
    d.push_scan(sample(&[("A", -60), ("S", -45)]));
    d.push_scan(sample(&[("A", -65), ("N", -30)]));
    let rows = debug_rows(&d);
    let summary: Vec<(String, Option<i32>, usize, usize, bool)> = rows
        .iter()
        .map(|r| (r.bssid.clone(), r.signal_dbm, r.seen, r.needed, r.is_stable))
        .collect();
    assert_eq!(
        summary,
        vec![
            ("N".to_string(), Some(-30), 1, 2, false),
            ("A".to_string(), Some(-65), 3, 2, true),
            ("S".to_string(), None, 2, 2, true),
        ]
    );
}

#[test]
fn scan_listing_is_sorted_by_signal() {
    let mut d = Debouncer::new(5, 2);
    assert!(scan_networks(&d).is_empty());
    d.push_scan(sample(&[("A", -70), ("B", -50), ("C", -70)]));
    let nets = scan_networks(&d);
    let order: Vec<&str> = nets.iter().map(|n| n.bssid.as_str()).collect();
    assert_eq!(order, vec!["B", "A", "C"]);
    assert_eq!(nets[0].ssid.as_deref(), Some("net-B"));
    assert_eq!(nets[0].channel, Some(6));
}

#[test]
fn resolve_requests_are_checked() {
    assert_eq!(check_resolve_request(&[]).unwrap_err(), "resolve requires non-empty bssids array");
    let many: Vec<String> = (0..257).map(|i| format!("{i}")).collect();
    assert_eq!(
        check_resolve_request(&many).unwrap_err(),
        "resolve accepts at most 256 BSSIDs per request (got 257)"
    );
    let ok = check_resolve_request(&[" aa:bb:cc:dd:ee:ff ".to_string()]).unwrap();
    assert_eq!(ok, vec!["AA:BB:CC:DD:EE:FF".to_string()]);
    assert_eq!(check_resolve_request(&many[..256]).unwrap().len(), 256);
}

#[test]
fn resolve_provenance() {
    let req = vec!["A".to_string(), "B".to_string(), "C".to_string()];
    let positioned = vec!["B".to_string(), "A".to_string()];
    let fetched = vec!["B".to_string()];
    let answers = resolve_answers(&req, &positioned, &fetched);
    assert_eq!(
        answers,
        vec![(Some(1), Provenance::Cache), (Some(0), Provenance::Api), (None, Provenance::NotFound)]
    );
    assert_eq!(Provenance::Cache.as_str(), "cache");
    assert_eq!(Provenance::Api.as_str(), "api");
    assert_eq!(Provenance::NotFound.as_str(), "not_found");
    assert!(was_resolved("B", &fetched, &[]));
    assert!(was_resolved("A", &[], &positioned));
    assert!(!was_resolved("C", &fetched, &positioned));
}

#[test]
fn db_status_precedence() {
    assert_eq!(db_status(true, true, true), DbStatus::Cached);
    assert_eq!(db_status(false, true, true), DbStatus::NotFound);
    assert_eq!(db_status(false, false, true), DbStatus::Pending);
    assert_eq!(db_status(false, false, false), DbStatus::New);
    assert_eq!(DbStatus::NotFound.as_str(), "not_found");
    assert_eq!(DbStatus::New.as_str(), "new");
}

#[test]
fn stale_ages_and_backfill() {
    assert_eq!(stale_age_secs(10_000_000_000, 2_500_000_000), 7);
    assert_eq!(stale_age_secs(2_000_000_000, 9_000_000_000), 0);
    assert!(should_backfill((1, 2), (1, 2), false));
    assert!(!should_backfill((1, 2), (1, 2), true));
    assert!(!should_backfill((1, 2), (1, 3), false));
}

#[test]
fn commands_parse() {
    assert_eq!(Command::parse("locate"), Ok(Command::Locate));
    assert_eq!(Command::parse("history"), Ok(Command::History));
    assert_eq!(Command::parse("dance").unwrap_err(), "unknown command: dance");
}
