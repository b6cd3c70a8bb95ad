//! The client side of the daemon's JSON-lines protocol: where the daemon
//! listens, and the shapes of the responses that hold no coordinates.

use vstd::prelude::*;
use crate::text::push_str;

verus! {

/// Client for the whereamid daemon.
#[derive(Debug)]
pub struct WhereAmIClient {
    addr: String,
}

/// Address the daemon listens on by default.
pub open spec fn default_daemon_addr() -> Seq<char> {
    "127.0.0.1:4747"@
}

impl WhereAmIClient {
    /// The address this client connects to.
    pub closed spec fn addr_view(&self) -> Seq<char> {
        self.addr@
    }

    /// Create a new client connecting to the given address (e.g. "127.0.0.1:4747").
    pub fn new(addr: &str) -> (r: WhereAmIClient)
        ensures
            r.addr_view() == addr@,
    {
        let mut a = String::new();
        push_str(&mut a, addr);
        assert(Seq::<char>::empty() + addr@ =~= addr@);
        WhereAmIClient { addr: a }
    }

    /// Create a client with the default address (127.0.0.1:4747).
    pub fn default_addr() -> (r: WhereAmIClient)
        ensures
            r.addr_view() == default_daemon_addr(),
    {
        WhereAmIClient::new("127.0.0.1:4747")
    }

    /// The address this client connects to.
    pub fn addr(&self) -> (r: &str)
        ensures
            r@ == self.addr_view(),
    {
        self.addr.as_str()
    }
}

/// Common shape of every daemon response: the `ok` flag and, when it is
/// false, the daemon's error.
pub trait DaemonResponse {
    fn is_ok(&self) -> bool;

    fn error(&self) -> Option<&str>;
}

/// The characters of an optional string.
pub open spec fn opt_view(o: Option<String>) -> Option<Seq<char>> {
    match o {
        Some(s) => Some(s@),
        None => None,
    }
}

/// A single network from the `scan` command.
#[derive(Debug, Clone)]
pub struct NetworkEntry {
    pub bssid: String,
    pub ssid: Option<String>,
    pub signal_dbm: i32,
    pub channel: Option<i32>,
}

/// Abstract network entry: BSSID, SSID, signal, channel.
pub type NetworkEntryV = (Seq<char>, Option<Seq<char>>, i32, Option<i32>);

impl View for NetworkEntry {
    type V = NetworkEntryV;

    open spec fn view(&self) -> NetworkEntryV {
        (self.bssid@, opt_view(self.ssid), self.signal_dbm, self.channel)
    }
}

/// Response from the `scan` command.
#[derive(Debug)]
pub struct ScanResponse {
    pub ok: bool,
    pub v: u32,
    pub networks: Vec<NetworkEntry>,
    /// Age of the most recent scan in milliseconds. None if no scan
    /// has completed yet.
    pub scan_age_ms: Option<u64>,
    /// RFC 3339 timestamp of the most recent scan, if any.
    pub scanned_at: Option<String>,
    pub error: Option<String>,
}

/// One BSSID's debug state, as the daemon returns it under `bssids`.
#[derive(Debug, Clone)]
pub struct DebugBssid {
    pub bssid: String,
    /// None when the BSSID is debounce-stable but missing from the most
    /// recent scan.
    pub signal_dbm: Option<i32>,
    pub seen: usize,
    pub needed: usize,
    pub is_stable: bool,
    pub db_status: String,
}

/// Response from the `debug` command.
#[derive(Debug)]
pub struct DebugResponse {
    pub ok: bool,
    pub v: u32,
    pub daemon_rev: Option<String>,
    pub scan_age_ms: Option<u64>,
    pub samples_in_buffer: usize,
    pub visible: usize,
    pub stable: usize,
    pub bssids: Vec<DebugBssid>,
    pub error: Option<String>,
}

/// Response from the `version` command.
#[derive(Debug)]
pub struct VersionResponse {
    pub ok: bool,
    pub v: u32,
    pub version: Option<String>,
    pub git_rev: Option<String>,
    pub error: Option<String>,
}

/// Response from the `stats` command.
#[derive(Debug)]
pub struct StatsResponse {
    pub ok: bool,
    pub v: u32,
    pub cached_aps: i64,
    pub pending_aps: i64,
    pub not_found_aps: i64,
    pub db_size_bytes: i64,
    pub api_calls_today: u32,
    /// Provider lookups currently in flight.
    pub inflight: u64,
    /// Best-effort database writes that failed since the daemon started.
    pub db_write_failures: u64,
    pub error: Option<String>,
}

/// The error text of a response, borrowed.
fn error_of(e: &Option<String>) -> (r: Option<&str>)
    ensures
        match r {
            Some(s) => e matches Some(x) && s@ == x@,
            None => e is None,
        },
{
    match e {
        Some(x) => Some(x.as_str()),
        None => None,
    }
}

impl DaemonResponse for ScanResponse {
    fn is_ok(&self) -> (r: bool)
        ensures
            r == self.ok,
    {
        self.ok
    }

    fn error(&self) -> (r: Option<&str>)
        ensures
            match r {
                Some(s) => self.error matches Some(x) && s@ == x@,
                None => self.error is None,
            },
    {
        error_of(&self.error)
    }
}

impl DaemonResponse for DebugResponse {
    fn is_ok(&self) -> (r: bool)
        ensures
            r == self.ok,
    {
        self.ok
    }

    fn error(&self) -> (r: Option<&str>)
        ensures
            match r {
                Some(s) => self.error matches Some(x) && s@ == x@,
                None => self.error is None,
            },
    {
        error_of(&self.error)
    }
}

impl DaemonResponse for VersionResponse {
    fn is_ok(&self) -> (r: bool)
        ensures
            r == self.ok,
    {
        self.ok
    }

    fn error(&self) -> (r: Option<&str>)
        ensures
            match r {
                Some(s) => self.error matches Some(x) && s@ == x@,
                None => self.error is None,
            },
    {
        error_of(&self.error)
    }
}

impl DaemonResponse for StatsResponse {
    fn is_ok(&self) -> (r: bool)
        ensures
            r == self.ok,
    {
        self.ok
    }

    fn error(&self) -> (r: Option<&str>)
        ensures
            match r {
                Some(s) => self.error matches Some(x) && s@ == x@,
                None => self.error is None,
            },
    {
        error_of(&self.error)
    }
}

} // verus!
