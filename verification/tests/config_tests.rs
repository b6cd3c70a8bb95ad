use whereami::config::{expand_tilde, Args, ArgsError, ConfigFile};

fn args_with(window: usize, threshold: usize) -> Args {
    let mut a = Args::default();
    a.debounce_window = window;
    a.debounce_threshold = threshold;
    a
}

#[test]
fn defaults_validate_clean() {
    Args::default().validate().expect("default Args must validate");
}

#[test]
fn debounce_threshold_greater_than_window_rejected() {
    let args = args_with(3, 5);
    let err = args.validate().expect_err("expected validation error");
    let msg = err.message();
    assert!(
        msg.contains("debounce-threshold"),
        "error message should name the offending flag, got: {msg}"
    );
}

#[test]
fn debounce_threshold_equal_to_window_accepted() {
    args_with(5, 5).validate().expect("threshold == window must be allowed");
}

#[test]
fn zero_window_rejected() {
    let mut a = Args::default();
    a.debounce_window = 0;
    assert!(a.validate().is_err());
}

#[test]
fn zero_top_n_rejected() {
    let mut a = Args::default();
    a.top_n = 0;
    assert!(a.validate().is_err());
}

#[test]
fn zero_scan_interval_fast_rejected() {
    let mut a = Args::default();
    a.scan_interval_fast = 0;
    assert!(a.validate().is_err());
}

#[test]
fn defaults_match_documented_flags() {
    let a = Args::default();
    assert_eq!(a.bind, "127.0.0.1:4747");
    assert_eq!(a.db, "/var/lib/whereami/aps.sqlite");
    assert_eq!(a.interface, "wlan0");
    assert_eq!(a.config, "~/.config/whereami/config.toml");
    assert_eq!(a.scan_interval_fast, 10);
    assert_eq!(a.scan_fast_duration, 60);
    assert_eq!(a.scan_interval_slow, 60);
    assert_eq!(a.debounce_window, 10);
    assert_eq!(a.debounce_threshold, 5);
    assert_eq!(a.top_n, 10);
    assert_eq!(a.pending_interval, 300);
    assert_eq!(a.pending_max_attempts, 20);
    assert_eq!(a.daily_limit, 100);
    assert_eq!(a.not_found_ttl_days, 30);
    assert!(!a.address_approx);
    assert_eq!(a.address_cache_ttl_days, 7);
    assert_eq!(a.http_timeout_secs, 15);
    assert_eq!(a.nominatim_timeout_secs, 30);
    assert_eq!(a.history_retention_days, 30);
    assert_eq!(a.history_segment_distance_m, 100);
    assert_eq!(a.history_segment_min_duration_secs, 300);
}

#[test]
fn every_validation_error_names_its_flag() {
    let mut a = Args::default();
    a.debounce_threshold = 0;
    assert_eq!(a.validate(), Err(ArgsError::DebounceThresholdZero));
    assert_eq!(a.validate().unwrap_err().message(), "--debounce-threshold must be > 0");

    let a = args_with(3, 5);
    assert_eq!(
        a.validate().unwrap_err().message(),
        "--debounce-threshold (5) must be <= --debounce-window (3)"
    );

    let mut a = Args::default();
    a.scan_interval_slow = 0;
    assert_eq!(a.validate().unwrap_err().message(), "--scan-interval-slow must be > 0");

    let mut a = Args::default();
    a.pending_interval = 0;
    assert_eq!(a.validate().unwrap_err().message(), "--pending-interval must be > 0");

    let mut a = Args::default();
    a.pending_max_attempts = -1;
    assert_eq!(a.validate().unwrap_err().message(), "--pending-max-attempts must be > 0");

    let mut a = Args::default();
    a.not_found_ttl_days = 0;
    assert_eq!(a.validate().unwrap_err().message(), "--not-found-ttl-days must be > 0");

    let mut a = Args::default();
    a.debounce_window = 0;
    assert_eq!(a.validate().unwrap_err().message(), "--debounce-window must be > 0");
}

#[test]
fn validation_checks_window_before_threshold() {
    let a = args_with(0, 0);
    assert_eq!(a.validate(), Err(ArgsError::DebounceWindowZero));
}

#[test]
fn scan_interval_switches_after_fast_phase() {
    let a = Args::default();
    assert_eq!(a.scan_interval_at(0), 10);
    assert_eq!(a.scan_interval_at(59_999_999_999), 10);
    assert_eq!(a.scan_interval_at(60_000_000_000), 60);
}

#[test]
fn expand_tilde_joins_home() {
    assert_eq!(expand_tilde("~/.config/x.toml", Some("/home/me")), "/home/me/.config/x.toml");
    assert_eq!(expand_tilde("~/.config/x.toml", Some("/home/me/")), "/home/me/.config/x.toml");
    assert_eq!(expand_tilde("~/.config/x.toml", None), "~/.config/x.toml");
    assert_eq!(expand_tilde("/etc/x.toml", Some("/home/me")), "/etc/x.toml");
    assert_eq!(expand_tilde("~//abs", Some("/home/me")), "/abs");
    assert_eq!(expand_tilde("~/", Some("/home/me")), "/home/me/");
}

#[test]
fn config_file_default_has_no_credentials() {
    let c = ConfigFile::default();
    assert!(c.wigle.api_user.is_empty());
    assert!(c.wigle.api_key.is_empty());
}
