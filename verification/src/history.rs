//! Relative time ranges for the location history ("7d", "24h", "30m",
//! "1w", "300s").

use vstd::prelude::*;
use crate::clock::{now_nanos, MAX_UTC_NANOS, MIN_UTC_NANOS, NANOS_PER_SEC};
use crate::text::{chars_of, parse_i64_range, parse_i64_spec, push_char, push_str, string_of_range, trim, trim_bounds};

verus! {

/// Why a range spec was refused.
#[derive(Debug, Clone, Copy, PartialEq, Eq, Structural)]
pub enum RangeErrorKind {
    /// Nothing but whitespace.
    Empty,
    /// What precedes the unit is not an integer.
    InvalidNumber,
    /// The number is zero or negative.
    NotPositive,
    /// The last character is none of `s`, `m`, `h`, `d`, `w`.
    UnknownUnit,
    /// The range reaches beyond what the daemon's timestamps hold.
    TooLong,
}

/// A refused range spec: why, the (trimmed) spec, and its unit character.
#[derive(Debug, Clone)]
pub struct RangeError {
    pub kind: RangeErrorKind,
    pub spec: String,
    pub unit: String,
}

/// Seconds in one of each unit.
pub open spec fn unit_seconds(c: char) -> Option<int> {
    if c == 's' {
        Some(1)
    } else if c == 'm' {
        Some(60)
    } else if c == 'h' {
        Some(3600)
    } else if c == 'd' {
        Some(86400)
    } else if c == 'w' {
        Some(604800)
    } else {
        None
    }
}

/// The length in seconds that a range spec stands for: after trimming, a
/// positive integer followed by one unit character.
pub open spec fn range_spec(s: Seq<char>) -> Result<int, RangeErrorKind> {
    let t = trim(s);
    if t.len() == 0 {
        Err(RangeErrorKind::Empty)
    } else {
        match parse_i64_spec(t.drop_last()) {
            None => Err(RangeErrorKind::InvalidNumber),
            Some(n) => if n <= 0 {
                Err(RangeErrorKind::NotPositive)
            } else {
                match unit_seconds(t.last()) {
                    None => Err(RangeErrorKind::UnknownUnit),
                    Some(u) => Ok(n * u),
                }
            },
        }
    }
}

/// The longest time span the daemon's clock arithmetic holds, in seconds.
pub open spec fn max_span_seconds() -> int {
    i64::MAX / 1000
}

/// The spec is refused, or its length fits the clock arithmetic.
pub open spec fn range_fits(s: Seq<char>) -> bool {
    match range_spec(s) {
        Ok(secs) => secs <= max_span_seconds(),
        Err(_) => true,
    }
}

/// What the daemon says about a refused range spec.
pub open spec fn range_error_text(e: RangeError) -> Seq<char> {
    match e.kind {
        RangeErrorKind::Empty => "empty range spec"@,
        RangeErrorKind::InvalidNumber => "invalid range '"@ + e.spec@ + "': expected '<number><unit>' (e.g. '7d')"@,
        RangeErrorKind::NotPositive => "range '"@ + e.spec@ + "' must be > 0"@,
        RangeErrorKind::UnknownUnit => "unknown range unit '"@ + e.unit@ + "' in '"@ + e.spec@ + "': use s/m/h/d/w"@,
        RangeErrorKind::TooLong => "range '"@ + e.spec@ + "' is too long"@,
    }
}

impl RangeError {
    /// Human-readable description.
    pub fn message(&self) -> (r: String)
        ensures
            r@ == range_error_text(*self),
    {
        let mut r = String::new();
        match self.kind {
            RangeErrorKind::Empty => {
                push_str(&mut r, "empty range spec");
            },
            RangeErrorKind::InvalidNumber => {
                push_str(&mut r, "invalid range '");
                push_str(&mut r, self.spec.as_str());
                push_str(&mut r, "': expected '<number><unit>' (e.g. '7d')");
            },
            RangeErrorKind::NotPositive => {
                push_str(&mut r, "range '");
                push_str(&mut r, self.spec.as_str());
                push_str(&mut r, "' must be > 0");
            },
            RangeErrorKind::UnknownUnit => {
                push_str(&mut r, "unknown range unit '");
                push_str(&mut r, self.unit.as_str());
                push_str(&mut r, "' in '");
                push_str(&mut r, self.spec.as_str());
                push_str(&mut r, "': use s/m/h/d/w");
            },
            RangeErrorKind::TooLong => {
                push_str(&mut r, "range '");
                push_str(&mut r, self.spec.as_str());
                push_str(&mut r, "' is too long");
            },
        }
        assert(Seq::<char>::empty() + "empty range spec"@ =~= "empty range spec"@);
        assert(Seq::<char>::empty() + "invalid range '"@ =~= "invalid range '"@);
        assert(Seq::<char>::empty() + "range '"@ =~= "range '"@);
        assert(Seq::<char>::empty() + "unknown range unit '"@ =~= "unknown range unit '"@);
        r
    }
}

/// The parsed length in seconds, or the refusal, without any bound.
fn range_core(spec: &str) -> (r: Result<i128, RangeError>)
    ensures
        r matches Ok(secs) ==> range_spec(spec@) == Ok::<int, RangeErrorKind>(secs as int),
        r matches Err(e) ==> range_spec(spec@) == Err::<int, RangeErrorKind>(e.kind)
            && e.spec@ == trim(spec@)
            && (e.kind == RangeErrorKind::UnknownUnit ==> e.unit@ == seq![trim(spec@).last()]),
{
    let cs = chars_of(spec);
    let (a, b) = trim_bounds(cs.as_slice());
    let ghost t = trim(spec@);
    let t_str = string_of_range(cs.as_slice(), a, b);
    if a == b {
        return Err(RangeError { kind: RangeErrorKind::Empty, spec: t_str, unit: String::new() });
    }
    assert(t.drop_last() =~= cs@.subrange(a as int, b - 1));
    assert(t.last() == cs@[b - 1]);
    let last = cs[b - 1];
    let n = match parse_i64_range(cs.as_slice(), a, b - 1) {
        Some(n) => n,
        None => {
            return Err(RangeError { kind: RangeErrorKind::InvalidNumber, spec: t_str, unit: String::new() });
        },
    };
    if n <= 0 {
        return Err(RangeError { kind: RangeErrorKind::NotPositive, spec: t_str, unit: String::new() });
    }
    let unit: i128 = if last == 's' {
        1
    } else if last == 'm' {
        60
    } else if last == 'h' {
        3600
    } else if last == 'd' {
        86400
    } else if last == 'w' {
        604800
    } else {
        let mut u = String::new();
        push_char(&mut u, last);
        assert(Seq::<char>::empty().push(last) =~= seq![last]);
        return Err(RangeError { kind: RangeErrorKind::UnknownUnit, spec: t_str, unit: u });
    };
    assert(0 < n * unit <= 0x7fff_ffff_ffff_ffff * 604800) by (nonlinear_arith)
        requires
            0 < n <= 0x7fff_ffff_ffff_ffff,
            1 <= unit <= 604800,
    ;
    Ok((n as i128) * unit)
}

/// Whether the length of `spec` fits the clock arithmetic (or `spec` is
/// refused anyway).
pub fn range_in_bounds(spec: &str) -> (r: bool)
    ensures
        r == range_fits(spec@),
{
    match range_core(spec) {
        Ok(secs) => secs <= 9_223_372_036_854_775,
        Err(_) => true,
    }
}

/// The length of the range `spec` stands for, in seconds.
pub fn range_seconds(spec: &str) -> (r: Result<i64, RangeError>)
    requires
        range_fits(spec@),
    ensures
        r matches Ok(secs) ==> range_spec(spec@) == Ok::<int, RangeErrorKind>(secs as int),
        r matches Err(e) ==> range_spec(spec@) == Err::<int, RangeErrorKind>(e.kind) && e.spec@ == trim(spec@),
{
    match range_core(spec) {
        Ok(secs) => Ok(secs as i64),
        Err(e) => Err(e),
    }
}

/// The range `spec` stands for, ending at `now`: `(start, end)` in
/// nanoseconds since the Unix epoch, `end == now`.
pub fn parse_range_at(spec: &str, now: i128) -> (r: Result<(i128, i128), RangeError>)
    requires
        MIN_UTC_NANOS <= now <= MAX_UTC_NANOS,
        range_fits(spec@),
        range_spec(spec@) matches Ok(secs) ==> now - secs * NANOS_PER_SEC >= MIN_UTC_NANOS,
    ensures
        r matches Ok((start, end)) ==> range_spec(spec@) matches Ok(secs) && end == now && start
            == now - secs * NANOS_PER_SEC,
        r matches Err(e) ==> range_spec(spec@) == Err::<int, RangeErrorKind>(e.kind) && e.spec@ == trim(spec@),
{
    match range_core(spec) {
        Ok(secs) => Ok((now - secs * NANOS_PER_SEC, now)),
        Err(e) => Err(e),
    }
}

proof fn lemma_mul_le(a: int, b: int, c: int)
    requires
        a <= b,
        0 <= c,
    ensures
        a * c <= b * c,
{
    assert(a * c <= b * c) by (nonlinear_arith)
        requires
            a <= b,
            0 <= c,
    ;
}

/// The refusal of `spec` as too long.
fn too_long(spec: &str) -> (e: RangeError)
    ensures
        e.kind == RangeErrorKind::TooLong,
        e.spec@ == trim(spec@),
{
    let cs = chars_of(spec);
    let (a, b) = trim_bounds(cs.as_slice());
    RangeError { kind: RangeErrorKind::TooLong, spec: string_of_range(cs.as_slice(), a, b), unit: String::new() }
}

/// The longest range, in seconds, that fits whatever the clock reads: from
/// the epoch back to the earliest instant the timestamps hold.
pub open spec fn always_fitting_seconds() -> int {
    8_334_601_315_200
}

/// `s` parses to a range longer than `always_fitting_seconds`.
pub open spec fn beyond_always_fitting(s: Seq<char>) -> bool {
    match range_spec(s) {
        Ok(secs) => secs > always_fitting_seconds(),
        Err(_) => false,
    }
}

/// `s` parses to a range no longer than `always_fitting_seconds`.
pub open spec fn always_fits(s: Seq<char>) -> bool {
    match range_spec(s) {
        Ok(secs) => secs <= always_fitting_seconds(),
        Err(_) => false,
    }
}

/// Parse a relative range string like "7d", "24h", "30m" into (start, end)
/// nanosecond timestamps, where end is now and start is now minus the
/// length. A range reaching before the earliest instant the timestamps
/// hold is refused as too long. `None` when the system clock cannot be
/// read (asked only for a spec that parses).
pub fn parse_range(spec: &str) -> (r: Option<Result<(i128, i128), RangeError>>)
    ensures
        range_spec(spec@) is Err ==> (r matches Some(Err(e)) && range_spec(spec@) == Err::<int, RangeErrorKind>(e.kind)
            && e.spec@ == trim(spec@)),
        range_spec(spec@) matches Ok(secs) && secs > max_span_seconds() ==> (r matches Some(Err(e)) && e.kind
            == RangeErrorKind::TooLong && e.spec@ == trim(spec@)),
        range_spec(spec@) matches Ok(secs) && secs <= always_fitting_seconds() ==> (r is None || r matches Some(Ok(_))),
        r matches Some(Ok((start, end))) ==> (range_spec(spec@) matches Ok(secs) && end - start == secs * NANOS_PER_SEC
            && MIN_UTC_NANOS <= start && 0 <= end <= MAX_UTC_NANOS),
        r matches Some(Err(e)) ==> ((range_spec(spec@) == Err::<int, RangeErrorKind>(e.kind) || (e.kind
            == RangeErrorKind::TooLong && beyond_always_fitting(spec@))) && e.spec@ == trim(spec@)),
        r is None ==> (range_spec(spec@) matches Ok(secs) && secs <= max_span_seconds()),
{
    match range_core(spec) {
        Ok(secs) => {
            if secs > 9_223_372_036_854_775 {
                return Some(Err(too_long(spec)));
            }
            let clock = now_nanos();
            let now = match clock {
                Some(n) => n,
                None => {
                    return None;
                },
            };
            assert(0 <= now <= MAX_UTC_NANOS);
            if now - secs * NANOS_PER_SEC < MIN_UTC_NANOS {
                proof {
                    if secs <= always_fitting_seconds() {
                        lemma_mul_le(secs as int, always_fitting_seconds(), NANOS_PER_SEC as int);
                    }
                }
                return Some(Err(too_long(spec)));
            }
            Some(parse_range_at(spec, now))
        },
        Err(e) => Some(Err(e)),
    }
}

// ---------------------------------------------------------------------------
// The `history` request
// ---------------------------------------------------------------------------

/// What chrono's RFC 3339 parser gives for `s`, converted to UTC: seconds
/// since the epoch and the nanoseconds past them (at least 10^9 during a
/// leap second), or the parser's error text.
pub uninterp spec fn rfc3339_parse(s: Seq<char>) -> Result<(i64, u32), Seq<char>>;

/// Parses an RFC 3339 timestamp into UTC seconds and nanoseconds.
///
/// Trusted: calls `chrono::DateTime::parse_from_rfc3339`, converts the
/// result to UTC and reads `timestamp` and `timestamp_subsec_nanos`, or
/// prints the parse error. The result is named `rfc3339_parse(s@)`; chrono
/// documents sub-second nanoseconds below 2 * 10^9 (the upper half only for
/// a leap second).
#[verifier::external_body]
fn parse_rfc3339(s: &str) -> (r: Result<(i64, u32), String>)
    ensures
        match r {
            Ok(p) => rfc3339_parse(s@) == Ok::<(i64, u32), Seq<char>>(p) && p.1 < 2_000_000_000,
            Err(e) => rfc3339_parse(s@) == Err::<(i64, u32), Seq<char>>(e@),
        },
{
    match chrono::DateTime::parse_from_rfc3339(s) {
        Ok(d) => {
            let u = d.with_timezone(&chrono::Utc);
            Ok((u.timestamp(), u.timestamp_subsec_nanos()))
        },
        Err(e) => Err(e.to_string()),
    }
}

/// `(seconds, nanoseconds)` of an instant given in nanoseconds.
pub open spec fn split_nanos(n: int) -> (int, int) {
    (n / 1_000_000_000, n % 1_000_000_000)
}

fn split_instant(n: i128) -> (r: (i64, u32))
    requires
        MIN_UTC_NANOS <= n <= MAX_UTC_NANOS,
    ensures
        (r.0 as int, r.1 as int) == split_nanos(n as int),
{
    let q: i128 = if n >= 0 {
        n / 1_000_000_000
    } else {
        0 - ((0 - n + 999_999_999) / 1_000_000_000)
    };
    let m: i128 = n - q * 1_000_000_000;
    assert(q == n / 1_000_000_000 && m == n % 1_000_000_000) by (nonlinear_arith)
        requires
            n >= 0 ==> q == n / 1_000_000_000,
            n < 0 ==> q == 0 - ((0 - n + 999_999_999) / 1_000_000_000),
            m == n - q * 1_000_000_000,
    ;
    (q as i64, m as u32)
}

/// Instants compare by seconds, then by the nanoseconds past them.
pub open spec fn instant_before(a: (i64, u32), b: (i64, u32)) -> bool {
    a.0 < b.0 || (a.0 == b.0 && a.1 < b.1)
}

/// The error of a `history` request whose range fields do not fit
/// together, if any: `range` excludes `from` and `to`, which come as a pair.
pub open spec fn history_shape_error(has_range: bool, has_from: bool, has_to: bool) -> Option<Seq<char>> {
    if has_range && (has_from || has_to) {
        Some("history: 'range' and 'from'/'to' are mutually exclusive"@)
    } else if !has_range && (has_from != has_to) {
        Some("history: provide either 'range' or both 'from' and 'to'"@)
    } else {
        None
    }
}

fn text(s: &str) -> (r: String)
    ensures
        r@ == s@,
{
    let mut r = String::new();
    push_str(&mut r, s);
    assert(Seq::<char>::empty() + s@ =~= s@);
    r
}

fn text2(a: &str, b: &str) -> (r: String)
    ensures
        r@ == a@ + b@,
{
    let mut r = String::new();
    push_str(&mut r, a);
    push_str(&mut r, b);
    assert(Seq::<char>::empty() + a@ =~= a@);
    r
}

/// The window a `history` request asks for, `(from, to)` as UTC
/// (seconds, nanoseconds): `range` (a relative spec ending now), or `from`
/// and `to` (RFC 3339, `from` strictly before `to`), or the last 7 days when
/// none is given. Errors carry the protocol's messages. `None` when the
/// system clock cannot be read (asked only for `range` or the default).
pub fn history_window(range: Option<&str>, from: Option<&str>, to: Option<&str>) -> (r: Option<Result<((i64, u32), (i64, u32)), String>>)
    ensures
        history_shape_error(range is Some, from is Some, to is Some) matches Some(m) ==> (r matches Some(Err(e)) && e@ == m),
        range is Some && history_shape_error(true, from is Some, to is Some) is None ==> match r {
            None => range_spec(range.unwrap()@) matches Ok(secs) && secs <= max_span_seconds(),
            Some(Err(e)) => exists|re: RangeError|
                (range_spec(range.unwrap()@) == Err::<int, RangeErrorKind>(re.kind) || (re.kind == RangeErrorKind::TooLong
                    && beyond_always_fitting(range.unwrap()@)))
                && re.spec@ == trim(range.unwrap()@) && e@ == "history: invalid range: "@ + range_error_text(re),
            Some(Ok((a, b))) => (range_spec(range.unwrap()@) matches Ok(secs) && (b.0 * NANOS_PER_SEC + b.1) - (a.0 * NANOS_PER_SEC + a.1) == secs * NANOS_PER_SEC) && a.1 < 1_000_000_000 && b.1 < 1_000_000_000,
        },
        range is None && from is Some && to is Some ==> match r {
            None => false,
            Some(x) => match (rfc3339_parse(from.unwrap()@), rfc3339_parse(to.unwrap()@)) {
                (Err(m), _) => (x matches Err(e) && e@ == "history: invalid 'from' timestamp: "@ + m),
                (Ok(_), Err(m)) => (x matches Err(e) && e@ == "history: invalid 'to' timestamp: "@ + m),
                (Ok(a), Ok(b)) => if instant_before(a, b) {
                    x == Ok::<((i64, u32), (i64, u32)), String>((a, b))
                } else {
                    (x matches Err(e) && e@ == "history: 'from' must be before 'to'"@)
                },
            },
        },
        range is Some && history_shape_error(true, from is Some, to is Some) is None && always_fits(range.unwrap()@) ==> (r is None
            || r matches Some(Ok(_))),
        range is None && from is None && to is None ==> match r {
            None => true,
            Some(Err(_)) => false,
            Some(Ok((a, b))) => (b.0 * NANOS_PER_SEC + b.1) - (a.0 * NANOS_PER_SEC + a.1) == 7 * 86400 * NANOS_PER_SEC,
        },
{
    match (range, from, to) {
        (Some(_), Some(_), _) | (Some(_), _, Some(_)) => Some(Err(text("history: 'range' and 'from'/'to' are mutually exclusive"))),
        (Some(spec), None, None) => match parse_range(spec) {
            None => None,
            Some(Err(e)) => {
                let m = e.message();
                let r = text2("history: invalid range: ", m.as_str());
                assert(r@ == "history: invalid range: "@ + range_error_text(e));
                Some(Err(r))
            },
            Some(Ok((a, b))) => Some(Ok((split_instant(a), split_instant(b)))),
        },
        (None, Some(f), Some(t)) => {
            let a = match parse_rfc3339(f) {
                Ok(a) => a,
                Err(m) => {
                    return Some(Err(text2("history: invalid 'from' timestamp: ", m.as_str())));
                },
            };
            let b = match parse_rfc3339(t) {
                Ok(b) => b,
                Err(m) => {
                    return Some(Err(text2("history: invalid 'to' timestamp: ", m.as_str())));
                },
            };
            if a.0 < b.0 || (a.0 == b.0 && a.1 < b.1) {
                Some(Ok((a, b)))
            } else {
                Some(Err(text("history: 'from' must be before 'to'")))
            }
        },
        (None, None, None) => {
            proof {
                reveal_strlit("7d");
                assert("7d"@.drop_last() =~= seq!['7']);
                assert(trim("7d"@) =~= "7d"@) by {
                    assert(!crate::text::is_ws("7d"@[0]) && !crate::text::is_ws("7d"@.last()));
                }
                assert(seq!['7'].drop_last() =~= Seq::<char>::empty());
                assert(crate::text::all_digits(seq!['7']));
                assert(crate::text::digits_value(Seq::<char>::empty()) == 0);
                assert(seq!['7'].last() == '7');
                assert(('7' as u32) - ('0' as u32) == 7);
                assert(crate::text::digits_value(seq!['7']) == 10 * crate::text::digits_value(seq!['7'].drop_last()) + (('7' as u32) - ('0' as u32)) as nat);
                assert(crate::text::digits_value(seq!['7']) == 7);
                assert(crate::text::parse_int(seq!['7']) == Some(7int));
                assert(range_spec("7d"@) == Ok::<int, RangeErrorKind>(604800));
            }
            match parse_range("7d") {
                None => None,
                Some(Err(e)) => {
                    let m = e.message();
                    Some(Err(text2("history: invalid range: ", m.as_str())))
                },
                Some(Ok((a, b))) => Some(Ok((split_instant(a), split_instant(b)))),
            }
        },
        _ => Some(Err(text("history: provide either 'range' or both 'from' and 'to'"))),
    }
}

} // verus!
