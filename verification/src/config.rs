//! Daemon settings (the command-line flags) and their cross-field checks,
//! and the shape of the TOML file that holds the API secrets.

use vstd::prelude::*;
use crate::text::{chars_of, decimal, push_char, push_decimal, push_str, starts_with, string_of_range};

verus! {

/// whereamid: Wi-Fi geolocation daemon settings.
#[derive(Debug, Clone)]
pub struct Args {
    /// TCP bind address
    pub bind: String,
    /// Path to SQLite database
    pub db: String,
    /// Wi-Fi interface name
    pub interface: String,
    /// Path to TOML config file (API secrets)
    pub config: String,
    /// Scan interval during fast phase (seconds)
    pub scan_interval_fast: u64,
    /// How long the fast scan phase lasts (seconds)
    pub scan_fast_duration: u64,
    /// Scan interval during steady phase (seconds)
    pub scan_interval_slow: u64,
    /// Number of scan samples in debounce ring buffer
    pub debounce_window: usize,
    /// Minimum appearances in ring buffer to be considered stable
    pub debounce_threshold: usize,
    /// Only consider top-N strongest APs for trilateration
    pub top_n: usize,
    /// Seconds between pending queue drain runs
    pub pending_interval: u64,
    /// Drop from pending after this many failed attempts
    pub pending_max_attempts: i32,
    /// Maximum WiGLE API calls per day
    pub daily_limit: u32,
    /// Days before re-checking a not-found BSSID
    pub not_found_ttl_days: i64,
    /// Include approximate street address in locate responses (via OSM Nominatim)
    pub address_approx: bool,
    /// Days before a reverse-geocoded address is resolved again
    pub address_cache_ttl_days: i64,
    /// Total timeout of an Apple or WiGLE request (seconds)
    pub http_timeout_secs: u64,
    /// Total timeout of a Nominatim request (seconds)
    pub nominatim_timeout_secs: u64,
    /// Fixes older than this many days are pruned from the history
    pub history_retention_days: i64,
    /// Stay-point clustering distance (meters)
    pub history_segment_distance_m: u32,
    /// Minimum stay-point duration (seconds)
    pub history_segment_min_duration_secs: u64,
}

impl Default for Args {
    /// The documented defaults of every flag.
    fn default() -> (r: Args)
        ensures
            r.bind@ == "127.0.0.1:4747"@,
            r.db@ == "/var/lib/whereami/aps.sqlite"@,
            r.interface@ == "wlan0"@,
            r.config@ == "~/.config/whereami/config.toml"@,
            r.scan_interval_fast == 10,
            r.scan_fast_duration == 60,
            r.scan_interval_slow == 60,
            r.debounce_window == 10,
            r.debounce_threshold == 5,
            r.top_n == 10,
            r.pending_interval == 300,
            r.pending_max_attempts == 20,
            r.daily_limit == 100,
            r.not_found_ttl_days == 30,
            !r.address_approx,
            r.address_cache_ttl_days == 7,
            r.http_timeout_secs == 15,
            r.nominatim_timeout_secs == 30,
            r.history_retention_days == 30,
            r.history_segment_distance_m == 100,
            r.history_segment_min_duration_secs == 300,
    {
        let mut bind = String::new();
        push_str(&mut bind, "127.0.0.1:4747");
        let mut db = String::new();
        push_str(&mut db, "/var/lib/whereami/aps.sqlite");
        let mut interface = String::new();
        push_str(&mut interface, "wlan0");
        let mut config = String::new();
        push_str(&mut config, "~/.config/whereami/config.toml");
        Args {
            bind,
            db,
            interface,
            config,
            scan_interval_fast: 10,
            scan_fast_duration: 60,
            scan_interval_slow: 60,
            debounce_window: 10,
            debounce_threshold: 5,
            top_n: 10,
            pending_interval: 300,
            pending_max_attempts: 20,
            daily_limit: 100,
            not_found_ttl_days: 30,
            address_approx: false,
            address_cache_ttl_days: 7,
            http_timeout_secs: 15,
            nominatim_timeout_secs: 30,
            history_retention_days: 30,
            history_segment_distance_m: 100,
            history_segment_min_duration_secs: 300,
        }
    }
}

/// A combination of settings that the daemon refuses.
#[derive(Debug, Clone, Copy, PartialEq, Eq, Structural)]
pub enum ArgsError {
    DebounceWindowZero,
    DebounceThresholdZero,
    ThresholdAboveWindow { threshold: usize, window: usize },
    ScanIntervalFastZero,
    ScanIntervalSlowZero,
    TopNZero,
    PendingIntervalZero,
    PendingMaxAttemptsNotPositive,
    NotFoundTtlNotPositive,
}

/// The first check that `a` fails, in the order the daemon makes them.
pub open spec fn args_check(a: Args) -> Result<(), ArgsError> {
    if a.debounce_window == 0 {
        Err(ArgsError::DebounceWindowZero)
    } else if a.debounce_threshold == 0 {
        Err(ArgsError::DebounceThresholdZero)
    } else if a.debounce_threshold > a.debounce_window {
        Err(ArgsError::ThresholdAboveWindow { threshold: a.debounce_threshold, window: a.debounce_window })
    } else if a.scan_interval_fast == 0 {
        Err(ArgsError::ScanIntervalFastZero)
    } else if a.scan_interval_slow == 0 {
        Err(ArgsError::ScanIntervalSlowZero)
    } else if a.top_n == 0 {
        Err(ArgsError::TopNZero)
    } else if a.pending_interval == 0 {
        Err(ArgsError::PendingIntervalZero)
    } else if a.pending_max_attempts <= 0 {
        Err(ArgsError::PendingMaxAttemptsNotPositive)
    } else if a.not_found_ttl_days <= 0 {
        Err(ArgsError::NotFoundTtlNotPositive)
    } else {
        Ok(())
    }
}

/// What the daemon says about each refused combination; each message names
/// the offending flag.
pub open spec fn args_error_text(e: ArgsError) -> Seq<char> {
    match e {
        ArgsError::DebounceWindowZero => "--debounce-window must be > 0"@,
        ArgsError::DebounceThresholdZero => "--debounce-threshold must be > 0"@,
        ArgsError::ThresholdAboveWindow { threshold, window } => "--debounce-threshold ("@ + decimal(
            threshold as nat,
        ) + ") must be <= --debounce-window ("@ + decimal(window as nat) + ")"@,
        ArgsError::ScanIntervalFastZero => "--scan-interval-fast must be > 0"@,
        ArgsError::ScanIntervalSlowZero => "--scan-interval-slow must be > 0"@,
        ArgsError::TopNZero => "--top-n must be > 0"@,
        ArgsError::PendingIntervalZero => "--pending-interval must be > 0"@,
        ArgsError::PendingMaxAttemptsNotPositive => "--pending-max-attempts must be > 0"@,
        ArgsError::NotFoundTtlNotPositive => "--not-found-ttl-days must be > 0"@,
    }
}

impl ArgsError {
    /// Human-readable description naming the offending flag.
    pub fn message(&self) -> (r: String)
        ensures
            r@ == args_error_text(*self),
    {
        let mut r = String::new();
        match self {
            ArgsError::DebounceWindowZero => push_str(&mut r, "--debounce-window must be > 0"),
            ArgsError::DebounceThresholdZero => push_str(&mut r, "--debounce-threshold must be > 0"),
            ArgsError::ThresholdAboveWindow { threshold, window } => {
                push_str(&mut r, "--debounce-threshold (");
                push_decimal(&mut r, *threshold as u64);
                push_str(&mut r, ") must be <= --debounce-window (");
                push_decimal(&mut r, *window as u64);
                push_str(&mut r, ")");
            },
            ArgsError::ScanIntervalFastZero => push_str(&mut r, "--scan-interval-fast must be > 0"),
            ArgsError::ScanIntervalSlowZero => push_str(&mut r, "--scan-interval-slow must be > 0"),
            ArgsError::TopNZero => push_str(&mut r, "--top-n must be > 0"),
            ArgsError::PendingIntervalZero => push_str(&mut r, "--pending-interval must be > 0"),
            ArgsError::PendingMaxAttemptsNotPositive => push_str(&mut r, "--pending-max-attempts must be > 0"),
            ArgsError::NotFoundTtlNotPositive => push_str(&mut r, "--not-found-ttl-days must be > 0"),
        }
        assert(r@ =~= args_error_text(*self));
        r
    }
}

impl Args {
    /// Cross-field validation that the flag parser cannot express in a
    /// single value parser. Call immediately after parsing so the daemon
    /// fails fast before any side effects (DB open, signals, threads, etc.).
    pub fn validate(&self) -> (r: Result<(), ArgsError>)
        ensures
            r == args_check(*self),
    {
        if self.debounce_window == 0 {
            return Err(ArgsError::DebounceWindowZero);
        }
        if self.debounce_threshold == 0 {
            return Err(ArgsError::DebounceThresholdZero);
        }
        if self.debounce_threshold > self.debounce_window {
            return Err(
                ArgsError::ThresholdAboveWindow {
                    threshold: self.debounce_threshold,
                    window: self.debounce_window,
                },
            );
        }
        if self.scan_interval_fast == 0 {
            return Err(ArgsError::ScanIntervalFastZero);
        }
        if self.scan_interval_slow == 0 {
            return Err(ArgsError::ScanIntervalSlowZero);
        }
        if self.top_n == 0 {
            return Err(ArgsError::TopNZero);
        }
        if self.pending_interval == 0 {
            return Err(ArgsError::PendingIntervalZero);
        }
        if self.pending_max_attempts <= 0 {
            return Err(ArgsError::PendingMaxAttemptsNotPositive);
        }
        if self.not_found_ttl_days <= 0 {
            return Err(ArgsError::NotFoundTtlNotPositive);
        }
        Ok(())
    }
}

/// Settings that pass validation are safe to build a debouncer from: the
/// window is positive and the threshold lies in `1..=window`.
pub proof fn lemma_valid_args_debounce(a: Args)
    requires
        args_check(a) is Ok,
    ensures
        0 < a.debounce_threshold <= a.debounce_window,
        a.top_n > 0,
        a.pending_max_attempts > 0,
        a.not_found_ttl_days > 0,
{
}

/// The WiGLE credentials section of the config file.
#[derive(Debug, Clone)]
pub struct WigleConfig {
    pub api_user: String,
    pub api_key: String,
}

/// TOML config file structure (secrets only).
#[derive(Debug, Clone)]
pub struct ConfigFile {
    pub wigle: WigleConfig,
}

impl Default for WigleConfig {
    /// No credentials.
    fn default() -> (r: WigleConfig)
        ensures
            r.api_user@ == Seq::<char>::empty(),
            r.api_key@ == Seq::<char>::empty(),
    {
        WigleConfig { api_user: String::new(), api_key: String::new() }
    }
}

impl Default for ConfigFile {
    /// An empty config file: no credentials.
    fn default() -> (r: ConfigFile)
        ensures
            r.wigle.api_user@ == Seq::<char>::empty(),
            r.wigle.api_key@ == Seq::<char>::empty(),
    {
        ConfigFile { wigle: WigleConfig::default() }
    }
}

/// `rest` joined onto the directory `home` as a path: an absolute `rest`
/// replaces `home`; otherwise a `/` goes between them unless `home` is empty
/// or already ends with one.
pub open spec fn path_join(home: Seq<char>, rest: Seq<char>) -> Seq<char> {
    if rest.len() > 0 && rest[0] == '/' {
        rest
    } else if home.len() > 0 && home.last() != '/' {
        home + seq!['/'] + rest
    } else {
        home + rest
    }
}

/// A path with a leading `~/` taken relative to `home` (when known).
pub open spec fn tilde_expanded(path: Seq<char>, home: Option<Seq<char>>) -> Seq<char> {
    if path.len() >= 2 && path[0] == '~' && path[1] == '/' && home is Some {
        path_join(home->0, path.skip(2))
    } else {
        path
    }
}

/// Expand `~/` at the start of `path` to the home directory `home`.
pub fn expand_tilde(path: &str, home: Option<&str>) -> (r: String)
    ensures
        r@ == tilde_expanded(path@, match home {
            Some(h) => Some(h@),
            None => None,
        }),
{
    let cs = chars_of(path);
    proof {
        reveal_strlit("~/");
    }
    let tilde = starts_with(cs.as_slice(), 0, cs.len(), "~/");
    assert(cs@.subrange(0, cs@.len() as int) =~= cs@);
    if tilde {
        assert(cs@.subrange(0, 2) =~= seq!['~', '/']);
        assert(cs@[0] == '~' && cs@[1] == '/');
    } else if cs.len() >= 2 && cs[0] == '~' && cs[1] == '/' {
        assert(cs@.subrange(0, 2) =~= "~/"@);
    }
    match home {
        Some(h) => {
            if tilde {
                let rest = string_of_range(cs.as_slice(), 2, cs.len());
                assert(rest@ =~= path@.skip(2));
                let rc = chars_of(rest.as_str());
                if rc.len() > 0 && rc[0] == '/' {
                    return rest;
                }
                let hc = chars_of(h);
                let mut r = String::new();
                push_str(&mut r, h);
                if hc.len() > 0 && hc[hc.len() - 1] != '/' {
                    push_char(&mut r, '/');
                }
                push_str(&mut r, rest.as_str());
                proof {
                    assert(Seq::<char>::empty() + h@ =~= h@);
                    if hc@.len() > 0 && hc@.last() != '/' {
                        assert(h@.push('/') + rest@ =~= h@ + seq!['/'] + rest@);
                    }
                }
                r
            } else {
                let mut r = String::new();
                push_str(&mut r, path);
                assert(Seq::<char>::empty() + path@ =~= path@);
                r
            }
        },
        None => {
            let mut r = String::new();
            push_str(&mut r, path);
            assert(Seq::<char>::empty() + path@ =~= path@);
            r
        },
    }
}

impl Args {
    /// The scan interval (seconds) when `elapsed_nanos` have passed since
    /// the scan loop started: the fast interval during the fast phase, the
    /// slow one after it.
    pub fn scan_interval_at(&self, elapsed_nanos: u128) -> (r: u64)
        ensures
            r == (if elapsed_nanos < self.scan_fast_duration as int * 1_000_000_000 {
                self.scan_interval_fast
            } else {
                self.scan_interval_slow
            }),
    {
        if elapsed_nanos < (self.scan_fast_duration as u128) * 1_000_000_000 {
            self.scan_interval_fast
        } else {
            self.scan_interval_slow
        }
    }
}

} // verus!
