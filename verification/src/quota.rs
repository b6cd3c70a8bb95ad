//! The daily WiGLE API quota: what a reservation and a refund read from
//! the metadata table and what they write back.
//!
//! The metadata holds the day the counter belongs to (`api_calls_date`,
//! `YYYY-MM-DD`) and the counter itself (`api_calls_today`, a decimal
//! string). A new day starts the counter at zero.

use vstd::prelude::*;
use crate::text::{decimal, decimal_string, lemma_decimal_parses, parse_u32_spec, parse_u32_str, str_eq};

verus! {

/// The characters of an optional string.
pub open spec fn opt_str(o: Option<&str>) -> Option<Seq<char>> {
    match o {
        Some(s) => Some(s@),
        None => None,
    }
}

/// The counter a stored value stands for: its number, or 0 when it is
/// missing or not a `u32`.
pub open spec fn count_of(v: Option<Seq<char>>) -> nat {
    match v {
        Some(s) => match parse_u32_spec(s) {
            Some(n) => n as nat,
            None => 0,
        },
        None => 0,
    }
}

/// The stored counter belongs to `today`.
pub open spec fn same_day(stored_date: Option<Seq<char>>, today: Seq<char>) -> bool {
    stored_date == Some(today)
}

/// Today's count before a reservation: the stored one on the same day, 0 on a new day.
pub open spec fn count_before(stored_date: Option<Seq<char>>, stored_count: Option<Seq<char>>, today: Seq<char>) -> nat {
    if same_day(stored_date, today) {
        count_of(stored_count)
    } else {
        0
    }
}

/// One reservation against `limit` at count `c`: granted when `c` is below
/// the limit, and the count after it.
pub open spec fn reserve_step(c: nat, limit: nat) -> (bool, nat) {
    if c < limit {
        (true, c + 1)
    } else {
        (false, c)
    }
}

/// What a reservation writes and answers.
#[derive(Debug, Clone, Copy, PartialEq, Eq, Structural)]
pub struct Reservation {
    /// A slot was reserved; the caller may make the network call.
    pub reserved: bool,
    /// The stored day is not today: `api_calls_date` is set to today.
    pub reset_date: bool,
    /// The value written to `api_calls_today`.
    pub count: u32,
}

/// Plans `try_reserve_api_call`: reset the counter on a new day, then grant
/// a slot and count it if today's count is below `daily_limit`; a refusal
/// writes the count back unchanged.
pub fn plan_reservation(stored_date: Option<&str>, stored_count: Option<&str>, today: &str, daily_limit: u32) -> (r: Reservation)
    ensures
        r.reset_date == !same_day(opt_str(stored_date), today@),
        (r.reserved, r.count as nat) == reserve_step(
            count_before(opt_str(stored_date), opt_str(stored_count), today@),
            daily_limit as nat,
        ),
{
    let same = match stored_date {
        Some(d) => str_eq(d, today),
        None => false,
    };
    let count: u32 = if same {
        match stored_count {
            Some(v) => match parse_u32_str(v) {
                Some(n) => n,
                None => 0,
            },
            None => 0,
        }
    } else {
        0
    };
    if count >= daily_limit {
        Reservation { reserved: false, reset_date: !same, count }
    } else {
        Reservation { reserved: true, reset_date: !same, count: count + 1 }
    }
}

/// Plans `refund_api_call`: on the stored day the counter goes down by one,
/// clamped at 0 (the value to write); on another day nothing is written.
pub fn plan_refund(stored_date: Option<&str>, stored_count: Option<&str>, today: &str) -> (r: Option<u32>)
    ensures
        !same_day(opt_str(stored_date), today@) ==> r is None,
        same_day(opt_str(stored_date), today@) ==> r == Some(
            (if count_of(opt_str(stored_count)) == 0 {
                0
            } else {
                count_of(opt_str(stored_count)) - 1
            }) as u32,
        ),
{
    let same = match stored_date {
        Some(d) => str_eq(d, today),
        None => false,
    };
    if !same {
        return None;
    }
    let count: u32 = match stored_count {
        Some(v) => match parse_u32_str(v) {
            Some(n) => n,
            None => 0,
        },
        None => 0,
    };
    Some(count.saturating_sub(1))
}

/// The number of API calls made today, as `api_calls_today` stores it.
pub fn calls_today(stored: Option<&str>) -> (r: u32)
    ensures
        r == count_of(opt_str(stored)),
{
    match stored {
        Some(v) => match parse_u32_str(v) {
            Some(n) => n,
            None => 0,
        },
        None => 0,
    }
}

/// The stored spelling of a count.
pub fn count_text(n: u32) -> (r: String)
    ensures
        r@ == decimal(n as nat),
        count_of(Some(r@)) == n,
{
    let r = decimal_string(n as u64);
    proof {
        lemma_count_round_trip(n);
    }
    r
}

/// Reading back the stored spelling of a count gives that count.
pub proof fn lemma_count_round_trip(n: u32)
    ensures
        count_of(Some(decimal(n as nat))) == n,
{
    lemma_decimal_parses(n as nat);
    assert(decimal(n as nat)[0] != '-') by {
        crate::text::lemma_decimal_is_digits(n as nat);
    }
}

/// `k` reservations in a row on one day, starting at count `c`: how many
/// were granted and the count after them.
pub open spec fn reserve_run(c: nat, limit: nat, k: nat) -> (nat, nat)
    decreases k,
{
    if k == 0 {
        (0, c)
    } else {
        let (g, c1) = reserve_run(c, limit, (k - 1) as nat);
        let (ok, c2) = reserve_step(c1, limit);
        (g + if ok { 1nat } else { 0nat }, c2)
    }
}

/// Within one day the quota is never overrun: of `k` reservations starting
/// at count `c <= limit`, exactly `min(k, limit - c)` are granted, and the
/// count ends at `c` plus the grants, at most `limit`. From a fresh day
/// (`c == 0`) with at least `limit` requests, exactly `limit` are granted.
pub proof fn lemma_daily_quota(c: nat, limit: nat, k: nat)
    requires
        c <= limit,
    ensures
        reserve_run(c, limit, k).0 == (if k <= limit - c { k } else { (limit - c) as nat }),
        reserve_run(c, limit, k).1 == c + reserve_run(c, limit, k).0,
        reserve_run(c, limit, k).1 <= limit,
    decreases k,
{
    if k > 0 {
        lemma_daily_quota(c, limit, (k - 1) as nat);
    }
}

/// A refund on the same day gives back the slot that a granted reservation took.
pub proof fn lemma_refund_undoes_reservation(c: u32, limit: u32)
    requires
        c < limit,
    ensures
        reserve_step(c as nat, limit as nat) == (true, c as nat + 1),
        count_of(Some(decimal((c + 1) as nat))) - 1 == c,
{
    lemma_count_round_trip((c + 1) as u32);
}

} // verus!
