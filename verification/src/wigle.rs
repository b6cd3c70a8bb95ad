//! WiGLE lookups: the errors a lookup ends in and how each reply of the
//! API is classified. The HTTP exchange itself is done by the daemon.

use vstd::prelude::*;
use crate::provider::OutcomeKind;
use crate::text::push_str;

verus! {

/// Error variants specific to WiGLE lookups.
#[derive(Debug, Clone)]
pub enum WigleError {
    /// BSSID not found in WiGLE database (HTTP 200, zero results).
    NotFound,
    /// Rate limited (HTTP 429 or daily quota exceeded).
    RateLimited,
    /// Network or other transient error, with its description.
    Network(String),
}

/// Abstract WiGLE error: 0 not found, 1 rate limited, 2 network (with its text).
pub open spec fn wigle_error_view(e: WigleError) -> (nat, Seq<char>) {
    match e {
        WigleError::NotFound => (0, Seq::empty()),
        WigleError::RateLimited => (1, Seq::empty()),
        WigleError::Network(m) => (2, m@),
    }
}

impl WigleError {
    /// Human-readable description.
    pub fn message(&self) -> (r: String)
        ensures
            r@ == match *self {
                WigleError::NotFound => "BSSID not found in WiGLE"@,
                WigleError::RateLimited => "WiGLE rate limit exceeded"@,
                WigleError::Network(m) => "WiGLE network error: "@ + m@,
            },
    {
        let mut r = String::new();
        match self {
            WigleError::NotFound => push_str(&mut r, "BSSID not found in WiGLE"),
            WigleError::RateLimited => push_str(&mut r, "WiGLE rate limit exceeded"),
            WigleError::Network(m) => {
                push_str(&mut r, "WiGLE network error: ");
                push_str(&mut r, m.as_str());
            },
        }
        assert(Seq::<char>::empty() + "BSSID not found in WiGLE"@ =~= "BSSID not found in WiGLE"@);
        assert(Seq::<char>::empty() + "WiGLE rate limit exceeded"@ =~= "WiGLE rate limit exceeded"@);
        assert(Seq::<char>::empty() + "WiGLE network error: "@ =~= "WiGLE network error: "@);
        r
    }
}

/// A network error with the given description.
fn network(text: &str) -> (e: WigleError)
    ensures
        wigle_error_view(e) == (2nat, text@),
{
    let mut m = String::new();
    push_str(&mut m, text);
    assert(Seq::<char>::empty() + text@ =~= text@);
    WigleError::Network(m)
}

/// Returns true if credentials are configured: both the user and the key
/// are non-empty.
pub fn credentials_configured(api_user: &str, api_key: &str) -> (r: bool)
    ensures
        r == (api_user@.len() > 0 && api_key@.len() > 0),
{
    let u = crate::text::chars_of(api_user);
    let k = crate::text::chars_of(api_key);
    u.len() > 0 && k.len() > 0
}

/// The error a lookup ends in when no credentials are configured.
pub fn not_configured_error() -> (e: WigleError)
    ensures
        wigle_error_view(e) == (2nat, "WiGLE credentials not configured"@),
{
    network("WiGLE credentials not configured")
}

/// What an HTTP status means for a lookup: 429 is the rate limit, 403 a
/// credentials problem, any other status outside 200..=299 a failure
/// described by `status_text` (the status as the HTTP library prints it).
pub fn classify_status(status: u16, status_text: &str) -> (r: Result<(), WigleError>)
    ensures
        status == 429 ==> (r matches Err(e) && wigle_error_view(e).0 == 1),
        status == 403 ==> (r matches Err(e) && wigle_error_view(e) == (
            2nat,
            "WiGLE API returned 403 Forbidden - check credentials"@,
        )),
        status != 429 && status != 403 && !(200 <= status <= 299) ==> (r matches Err(e)
            && wigle_error_view(e) == (2nat, "WiGLE API returned HTTP "@ + status_text@)),
        (200 <= status <= 299) ==> r is Ok,
{
    if status == 429 {
        return Err(WigleError::RateLimited);
    }
    if status == 403 {
        return Err(network("WiGLE API returned 403 Forbidden - check credentials"));
    }
    if !(200 <= status && status <= 299) {
        let mut m = String::new();
        push_str(&mut m, "WiGLE API returned HTTP ");
        push_str(&mut m, status_text);
        assert(Seq::<char>::empty() + "WiGLE API returned HTTP "@ =~= "WiGLE API returned HTTP "@);
        return Err(WigleError::Network(m));
    }
    Ok(())
}

/// What a successfully decoded search response means: no results (by the
/// total or by the list) or a first result without both coordinates is
/// "not found"; otherwise the first result is the answer.
pub fn classify_body(total_results: i64, n_results: usize, first_has_lat: bool, first_has_lon: bool) -> (r: Result<(), WigleError>)
    ensures
        r is Ok <==> (total_results != 0 && n_results > 0 && first_has_lat && first_has_lon),
        r matches Err(e) ==> wigle_error_view(e).0 == 0,
{
    if total_results == 0 || n_results == 0 {
        return Err(WigleError::NotFound);
    }
    if !first_has_lat || !first_has_lon {
        return Err(WigleError::NotFound);
    }
    Ok(())
}

/// What a WiGLE lookup's end means for the chain, and whether the quota
/// slot reserved for it is given back: a position is `Found` and a
/// definitive miss `NotFound` (both completed lookups, which keep their
/// slot); the rate limit stops WiGLE for the rest of the pass and a
/// transient failure is a network error (both give the slot back).
pub fn wigle_outcome(reply: &Result<(), WigleError>) -> (r: (OutcomeKind, bool))
    ensures
        reply is Ok ==> r == (OutcomeKind::Found, false),
        reply matches Err(e) ==> r == (if wigle_error_view(*e).0 == 0 {
            (OutcomeKind::NotFound, false)
        } else if wigle_error_view(*e).0 == 1 {
            (OutcomeKind::HardStop, true)
        } else {
            (OutcomeKind::NetworkError, true)
        }),
{
    match reply {
        Ok(()) => (OutcomeKind::Found, false),
        Err(WigleError::NotFound) => (OutcomeKind::NotFound, false),
        Err(WigleError::RateLimited) => (OutcomeKind::HardStop, true),
        Err(WigleError::Network(_)) => (OutcomeKind::NetworkError, true),
    }
}

/// WiGLE is not asked (the provider is skipped) unless credentials are
/// configured and a quota slot was reserved.
pub fn wigle_skipped(configured: bool, reserved: bool) -> (r: bool)
    ensures
        r == !(configured && reserved),
{
    !(configured && reserved)
}

} // verus!
