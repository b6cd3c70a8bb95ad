//! The remote lookup backends and the outcome of asking one of them.

use vstd::prelude::*;

verus! {

/// Static-dispatch enum over the available providers.
#[derive(Debug, Clone, Copy, PartialEq, Eq)]
pub enum Provider {
    Apple,
    Wigle,
}

impl Provider {
    /// The provider's name as it appears in logs.
    pub fn name(&self) -> (r: &'static str)
        ensures
            r@ == provider_name(*self),
    {
        match self {
            Provider::Apple => "apple",
            Provider::Wigle => "wigle",
        }
    }
}

/// Names of the providers.
pub open spec fn provider_name(p: Provider) -> Seq<char> {
    match p {
        Provider::Apple => "apple"@,
        Provider::Wigle => "wigle"@,
    }
}

/// What one provider said about one BSSID, without its payload.
#[derive(Debug, Clone, Copy, PartialEq, Eq, Structural)]
pub enum OutcomeKind {
    /// The provider returned a position.
    Found,
    /// The provider authoritatively does not know the BSSID.
    NotFound,
    /// The provider was not consulted (not configured, quota exhausted).
    Skipped,
    /// The provider must not be asked again in this pass (rate limited).
    HardStop,
    /// A transient network failure.
    NetworkError,
}

/// What the Apple lookup's result means for the chain: a position is `Found`,
/// no position is `NotFound`, a failed request is a `NetworkError`.
pub fn apple_outcome(result_ok: bool, has_position: bool) -> (r: OutcomeKind)
    ensures
        r == (if !result_ok {
            OutcomeKind::NetworkError
        } else if has_position {
            OutcomeKind::Found
        } else {
            OutcomeKind::NotFound
        }),
{
    if !result_ok {
        OutcomeKind::NetworkError
    } else if has_position {
        OutcomeKind::Found
    } else {
        OutcomeKind::NotFound
    }
}

} // verus!
