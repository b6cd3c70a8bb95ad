use whereami::history::{history_window, parse_range, parse_range_at, range_in_bounds, range_seconds, RangeErrorKind};

fn now_secs() -> i64 {
    std::time::SystemTime::now()
        .duration_since(std::time::UNIX_EPOCH)
        .unwrap()
        .as_secs() as i64
}

#[test]
fn parse_range_understands_common_units() {
    let now_ts = now_secs();
    for spec in ["7d", "24h", "30m", "1w", "300s"] {
        let (start, end) = parse_range(spec).unwrap().unwrap();
        let end_s = (end / 1_000_000_000) as i64;
        assert!((end_s - now_ts).abs() < 5, "end ≈ now");
        assert!(start < end, "start {start:?} must be before end {end:?}");
    }
}

#[test]
fn parse_range_rejects_garbage() {
    assert!(parse_range("").unwrap().is_err());
    assert!(parse_range("7").unwrap().is_err()); // no unit
    assert!(parse_range("xd").unwrap().is_err());
    assert!(parse_range("7y").unwrap().is_err()); // unknown unit
    assert!(parse_range("0d").unwrap().is_err()); // must be > 0
    assert!(parse_range("-3d").unwrap().is_err());
}

#[test]
fn parse_range_no_panic_on_non_ascii() {
    // Multi-byte unit char: '日' is 3 bytes. Must NOT panic.
    assert!(parse_range("7日").unwrap().is_err());
    // 4-byte char (emoji).
    assert!(parse_range("7🚀").unwrap().is_err());
    // Pure non-ASCII string.
    assert!(parse_range("日").unwrap().is_err());
    // Whitespace-only.
    assert!(parse_range("   ").unwrap().is_err());
}

#[test]
fn range_lengths_and_errors() {
    assert_eq!(range_seconds("7d").unwrap(), 604_800);
    assert_eq!(range_seconds(" 24h ").unwrap(), 86_400);
    assert_eq!(range_seconds("30m").unwrap(), 1_800);
    assert_eq!(range_seconds("1w").unwrap(), 604_800);
    assert_eq!(range_seconds("+5s").unwrap(), 5);
    assert_eq!(range_seconds("").unwrap_err().kind, RangeErrorKind::Empty);
    assert_eq!(range_seconds("7").unwrap_err().kind, RangeErrorKind::InvalidNumber);
    assert_eq!(range_seconds("0d").unwrap_err().kind, RangeErrorKind::NotPositive);
    let e = range_seconds("7日").unwrap_err();
    assert_eq!(e.kind, RangeErrorKind::UnknownUnit);
    assert_eq!(e.message(), "unknown range unit '日' in '7日': use s/m/h/d/w");
    assert_eq!(range_seconds("x d").unwrap_err().message(), "invalid range 'x d': expected '<number><unit>' (e.g. '7d')");
    assert_eq!(range_seconds("-3d").unwrap_err().message(), "range '-3d' must be > 0");
    assert_eq!(range_seconds("").unwrap_err().message(), "empty range spec");
}

#[test]
fn huge_ranges_do_not_fit() {
    assert!(range_in_bounds("9223372036854775s"));
    assert!(!range_in_bounds("9223372036854776s"));
    assert!(!range_in_bounds("9223372036854775807w"));
    let e = parse_range("9223372036854775807w").unwrap().unwrap_err();
    assert_eq!(e.kind, RangeErrorKind::TooLong);
    assert_eq!(e.message(), "range '9223372036854775807w' is too long");
    // Longer than the clock's reach back to the earliest instant.
    let e = parse_range("300000000w").unwrap().unwrap_err();
    assert_eq!(e.kind, RangeErrorKind::TooLong);
    let e = history_window(Some("300000000w"), None, None).unwrap().unwrap_err();
    assert_eq!(e, "history: invalid range: range '300000000w' is too long");
    assert!(range_in_bounds("bogus"));
}

#[test]
fn parse_range_at_fixed_now() {
    let (s, e) = parse_range_at("2h", 10_000_000_000_000).unwrap();
    assert_eq!(e, 10_000_000_000_000);
    assert_eq!(s, 10_000_000_000_000 - 7_200_000_000_000);
}

#[test]
fn history_window_shapes() {
    let e = history_window(Some("7d"), Some("x"), None).unwrap().unwrap_err();
    assert_eq!(e, "history: 'range' and 'from'/'to' are mutually exclusive");
    let e = history_window(None, Some("2026-05-01T00:00:00+00:00"), None).unwrap().unwrap_err();
    assert_eq!(e, "history: provide either 'range' or both 'from' and 'to'");
    let e = history_window(Some("7y"), None, None).unwrap().unwrap_err();
    assert_eq!(e, "history: invalid range: unknown range unit 'y' in '7y': use s/m/h/d/w");
    let (a, b) = history_window(None, Some("2026-05-01T00:00:00+00:00"), Some("2026-05-08T00:00:00+02:00"))
        .unwrap()
        .unwrap();
    assert_eq!(a, (1_777_593_600, 0));
    assert_eq!(b, (1_777_593_600 + 7 * 86_400 - 7_200, 0));
    let e = history_window(None, Some("2026-05-08T00:00:00+00:00"), Some("2026-05-01T00:00:00+00:00"))
        .unwrap()
        .unwrap_err();
    assert_eq!(e, "history: 'from' must be before 'to'");
    let e = history_window(None, Some("garbage"), Some("2026-05-01T00:00:00+00:00")).unwrap().unwrap_err();
    assert!(e.starts_with("history: invalid 'from' timestamp: "));
    let e = history_window(None, Some("2026-05-01T00:00:00+00:00"), Some("nope")).unwrap().unwrap_err();
    assert!(e.starts_with("history: invalid 'to' timestamp: "));
    let (a, b) = history_window(None, None, None).unwrap().unwrap();
    let span = (b.0 as i128 * 1_000_000_000 + b.1 as i128) - (a.0 as i128 * 1_000_000_000 + a.1 as i128);
    assert_eq!(span, 7 * 86_400 * 1_000_000_000);
}
