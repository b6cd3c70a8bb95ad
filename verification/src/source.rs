//! Origin of an AP fix, with an explicit priority ranking.
//!
//! Higher numeric value = higher priority. Apple WPS is generally tightest,
//! WiGLE next, BeaconDB (read-only legacy) after it; a manual override is
//! placed lowest so authoritative sources can correct it, and anything
//! unrecognised ranks below everything.

use vstd::prelude::*;
use crate::text::str_eq;

verus! {

/// Where a stored AP position came from.
#[derive(Debug, Clone, Copy, PartialEq, Eq, Structural)]
pub enum Source {
    Apple,
    Wigle,
    /// Read-only legacy: historical rows still read back at this priority.
    BeaconDb,
    Manual,
    /// Anything read back from the database that is not recognised.
    Unknown,
}

/// Numeric priority of each source.
pub open spec fn source_priority(s: Source) -> int {
    match s {
        Source::Apple => 40,
        Source::Wigle => 30,
        Source::BeaconDb => 20,
        Source::Manual => 10,
        Source::Unknown => 0,
    }
}

/// Canonical stored spelling of each source.
pub open spec fn source_name(s: Source) -> Seq<char> {
    match s {
        Source::Apple => "apple"@,
        Source::Wigle => "wigle"@,
        Source::BeaconDb => "beacondb"@,
        Source::Manual => "manual"@,
        Source::Unknown => "unknown"@,
    }
}

/// The source a stored spelling stands for; unrecognised spellings are `Unknown`.
pub open spec fn source_of_name(s: Seq<char>) -> Source {
    if s == "apple"@ {
        Source::Apple
    } else if s == "wigle"@ {
        Source::Wigle
    } else if s == "beacondb"@ {
        Source::BeaconDb
    } else if s == "manual"@ {
        Source::Manual
    } else {
        Source::Unknown
    }
}

impl Source {
    /// Numeric priority. Higher = more trusted.
    pub fn priority(self) -> (r: i32)
        ensures
            r == source_priority(self),
    {
        match self {
            Source::Apple => 40,
            Source::Wigle => 30,
            Source::BeaconDb => 20,
            Source::Manual => 10,
            Source::Unknown => 0,
        }
    }

    /// Canonical wire-format string stored in `aps.source`.
    pub fn as_str(self) -> (r: &'static str)
        ensures
            r@ == source_name(self),
    {
        match self {
            Source::Apple => "apple",
            Source::Wigle => "wigle",
            Source::BeaconDb => "beacondb",
            Source::Manual => "manual",
            Source::Unknown => "unknown",
        }
    }

    /// Parse a stored `source` string. Unknown values map to `Source::Unknown`
    /// (lowest priority) so they cannot win against any recognised source.
    pub fn from_db_str(s: &str) -> (r: Source)
        ensures
            r == source_of_name(s@),
    {
        if str_eq(s, "apple") {
            Source::Apple
        } else if str_eq(s, "wigle") {
            Source::Wigle
        } else if str_eq(s, "beacondb") {
            Source::BeaconDb
        } else if str_eq(s, "manual") {
            Source::Manual
        } else {
            Source::Unknown
        }
    }
}

/// The priorities form a strict ladder: Apple > WiGLE > BeaconDB > Manual > Unknown.
pub proof fn lemma_priority_ladder()
    ensures
        source_priority(Source::Apple) > source_priority(Source::Wigle),
        source_priority(Source::Wigle) > source_priority(Source::BeaconDb),
        source_priority(Source::BeaconDb) > source_priority(Source::Manual),
        source_priority(Source::Manual) > source_priority(Source::Unknown),
{
}

/// Reading back the stored spelling of a source gives that source.
pub proof fn lemma_name_round_trip(s: Source)
    ensures
        source_of_name(source_name(s)) == s,
{
    reveal_strlit("apple");
    reveal_strlit("wigle");
    reveal_strlit("beacondb");
    reveal_strlit("manual");
    reveal_strlit("unknown");
    assert("apple"@ != "wigle"@) by {
        assert("apple"@[0] != "wigle"@[0]);
    }
    assert("apple"@ != "beacondb"@) by {
        assert("apple"@.len() != "beacondb"@.len());
    }
    assert("apple"@ != "manual"@) by {
        assert("apple"@.len() != "manual"@.len());
    }
    assert("wigle"@ != "beacondb"@) by {
        assert("wigle"@.len() != "beacondb"@.len());
    }
    assert("wigle"@ != "manual"@) by {
        assert("wigle"@.len() != "manual"@.len());
    }
    assert("beacondb"@ != "manual"@) by {
        assert("beacondb"@.len() != "manual"@.len());
    }
    assert("unknown"@ != "apple"@) by {
        assert("unknown"@.len() != "apple"@.len());
    }
    assert("unknown"@ != "wigle"@) by {
        assert("unknown"@.len() != "wigle"@.len());
    }
    assert("unknown"@ != "beacondb"@) by {
        assert("unknown"@.len() != "beacondb"@.len());
    }
    assert("unknown"@ != "manual"@) by {
        assert("unknown"@[0] != "manual"@[0]);
    }
}

} // verus!
