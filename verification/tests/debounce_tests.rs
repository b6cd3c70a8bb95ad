use whereami::debounce::{Debouncer, ScanEntry, ScanSample};

fn entry(signal: i32) -> ScanEntry {
    ScanEntry { signal_dbm: signal, ssid: None, channel: None }
}

fn sample(items: &[(&str, i32)]) -> ScanSample {
    let mut s = ScanSample::new();
    for (b, sig) in items {
        s.insert(b.to_string(), entry(*sig));
    }
    s
}

fn has(v: &[String], b: &str) -> bool {
    v.iter().any(|s| s == b)
}

#[test]
fn test_empty_debouncer() {
    let d = Debouncer::new(10, 5);
    assert!(!d.is_stable("AA:BB:CC:DD:EE:FF"));
    assert!(d.stable_bssids().is_empty());
}

#[test]
fn test_stable_after_threshold() {
    let mut d = Debouncer::new(10, 3);
    let bssid = "AA:BB:CC:DD:EE:FF";

    for _ in 0..2 {
        d.push_scan(sample(&[(bssid, -65)]));
    }
    assert!(!d.is_stable(bssid));

    d.push_scan(sample(&[(bssid, -70)]));
    assert!(d.is_stable(bssid));
}

#[test]
fn test_window_rollover() {
    let mut d = Debouncer::new(3, 2);
    let bssid = "AA:BB:CC:DD:EE:FF";

    for _ in 0..3 {
        d.push_scan(sample(&[(bssid, -65)]));
    }
    assert!(d.is_stable(bssid));

    d.push_scan(ScanSample::new());
    d.push_scan(ScanSample::new());
    assert!(!d.is_stable(bssid));
}

#[test]
fn test_stable_bssids() {
    let mut d = Debouncer::new(5, 2);
    d.push_scan(sample(&[("AA:BB:CC:DD:EE:FF", -65), ("11:22:33:44:55:66", -80)]));
    d.push_scan(sample(&[("AA:BB:CC:DD:EE:FF", -60)]));

    let stable = d.stable_bssids();
    assert!(has(&stable, "AA:BB:CC:DD:EE:FF"));
    assert!(!has(&stable, "11:22:33:44:55:66"));
}

#[test]
fn test_latest_signal() {
    let mut d = Debouncer::new(5, 1);
    d.push_scan(sample(&[("AA:BB:CC:DD:EE:FF", -65)]));
    d.push_scan(sample(&[("AA:BB:CC:DD:EE:FF", -50)]));
    assert_eq!(d.latest_signal("AA:BB:CC:DD:EE:FF"), Some(-50));
}

#[test]
fn test_latest_signal_only_from_latest_scan() {
    let mut d = Debouncer::new(5, 1);
    d.push_scan(sample(&[("AA:BB:CC:DD:EE:FF", -65)]));
    // Second scan does NOT contain the BSSID
    d.push_scan(ScanSample::new());
    // Should return None since it's not in the latest scan
    assert_eq!(d.latest_signal("AA:BB:CC:DD:EE:FF"), None);
}

#[test]
fn threshold_contract_on_concrete_values() {
    // threshold - 1 scans: nothing stable; one more: everything stable.
    let mut d = Debouncer::new(6, 3);
    for _ in 0..2 {
        d.push_scan(sample(&[("AP-0", -60), ("AP-1", -60)]));
    }
    assert!(d.stable_bssids().is_empty());
    d.push_scan(sample(&[("AP-0", -60), ("AP-1", -60)]));
    let stable = d.stable_bssids();
    assert_eq!(stable.len(), 2);
    assert!(has(&stable, "AP-0") && has(&stable, "AP-1"));
}

#[test]
fn forgets_after_window_empty_scans() {
    let mut d = Debouncer::new(4, 2);
    for _ in 0..4 {
        d.push_scan(sample(&[("AP-1", -50)]));
    }
    assert!(!d.stable_bssids().is_empty());
    for _ in 0..4 {
        d.push_scan(ScanSample::new());
    }
    assert!(d.stable_bssids().is_empty());
    assert_eq!(d.sample_count(), 4);
}

#[test]
fn counts_and_accessors() {
    let mut d = Debouncer::new(3, 2);
    assert!(d.latest_scan().is_none());
    assert!(d.latest_scan_age_ms().is_none());
    assert!(d.latest_scan_time().is_none());
    d.push_scan(sample(&[("X", -1)]));
    d.push_scan(sample(&[("X", -2), ("Y", -3)]));
    assert_eq!(d.count("X"), 2);
    assert_eq!(d.count("Y"), 1);
    assert_eq!(d.threshold(), 2);
    assert_eq!(d.sample_count(), 2);
    assert_eq!(d.latest_scan().unwrap().len(), 2);
    assert_eq!(d.latest_entry("Y").unwrap().signal_dbm, -3);
    assert!(d.latest_scan_age_ms().is_some());
    assert!(d.latest_scan_time().unwrap() > 0);
}

#[test]
fn sample_insert_replaces_in_place() {
    let mut s = ScanSample::new();
    assert!(s.is_empty());
    s.insert("A".to_string(), entry(-1));
    s.insert("B".to_string(), entry(-2));
    s.insert("A".to_string(), entry(-3));
    assert_eq!(s.len(), 2);
    assert!(s.contains_key("B"));
    assert!(!s.contains_key("C"));
    assert_eq!(s.entries()[0].0, "A");
    assert_eq!(s.entries()[0].1.signal_dbm, -3);
}
