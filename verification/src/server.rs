//! Decisions of the daemon's request handlers: which access points a
//! `locate` trilaterates from, what `scan` and `debug` list, how `resolve`
//! requests are checked and answered, and what the pending drain removes.

use vstd::prelude::*;
use crate::debounce::{
    distinct_keys, key_index_from, latest_signal_of, lemma_key_index, stable_set, DebouncerV,
    Debouncer, EntryV, SampleV, ScanEntry, ScanSample, count_in,
};
use crate::client::{NetworkEntry, NetworkEntryV};
use crate::scanner::{normalize_bssid, normalized};
use crate::text::{decimal, push_decimal, push_str, str_eq};
use crate::order::{
    keys_descending, lemma_sort_relabel, lemma_sorted_by_key_desc, lemma_sorted_contains,
    lemma_sorted_no_duplicates, sort_by_key_desc, sorted_by_key_desc, strip_keys,
};

verus! {

// ---------------------------------------------------------------------------
// locate: candidate access points
// ---------------------------------------------------------------------------

/// `k` is debounce-stable in `d` and has a signal in the newest scan.
pub open spec fn current_stable(d: DebouncerV, k: Seq<char>) -> bool {
    stable_set(d).contains(k) && latest_signal_of(d.ring, k) is Some
}

/// Candidate list as BSSID characters and signals.
pub open spec fn cand_view(v: Seq<(String, i32)>) -> Seq<(Seq<char>, i32)> {
    v.map_values(|p: (String, i32)| (p.0@, p.1))
}

/// `c` is a strongest-first selection of at most `n` current-stable APs
/// with their newest signals, and no current-stable AP left out is
/// stronger than the weakest one kept (a left-out AP means the list is full).
pub open spec fn is_top_stable(d: DebouncerV, n: nat, c: Seq<(Seq<char>, i32)>) -> bool {
    &&& c.len() <= n
    &&& forall|a: int, b: int| 0 <= a < b < c.len() ==> (#[trigger] c[a]).0 != (#[trigger] c[b]).0 && c[a].1 >= c[b].1
    &&& forall|a: int| 0 <= a < c.len() ==> current_stable(d, (#[trigger] c[a]).0) && latest_signal_of(d.ring, c[a].0) == Some(c[a].1)
    &&& forall|k: Seq<char>| current_stable(d, k) && !(exists|a: int| 0 <= a < c.len() && (#[trigger] c[a]).0 == k) ==> c.len() == n && (n > 0 ==> latest_signal_of(d.ring, k)->0 <= c[n - 1].1)
}

/// The newest scan's entries as (BSSID, signal) items keyed by signal.
pub open spec fn keyed_by_signal(s: SampleV) -> Seq<((Seq<char>, i32), i64)> {
    s.map_values(|e: (Seq<char>, EntryV)| ((e.0, e.1.0), e.1.0 as i64))
}

/// The cold-start fallback: every AP of the newest scan, strongest first
/// (ties in scan order), at most `n` of them.
pub open spec fn fallback_spec(d: DebouncerV, n: nat) -> Seq<(Seq<char>, i32)> {
    if d.ring.len() == 0 {
        Seq::empty()
    } else {
        let s = sorted_by_key_desc(keyed_by_signal(d.ring.last()));
        s.take(if n <= s.len() { n as int } else { s.len() as int }).map_values(|p: ((Seq<char>, i32), i64)| p.0)
    }
}

/// Number of APs in the newest scan.
pub open spec fn visible_count(d: DebouncerV) -> nat {
    if d.ring.len() == 0 {
        0
    } else {
        d.ring.last().len()
    }
}

/// The APs a `locate` works from.
#[derive(Debug)]
pub struct Candidates {
    /// (BSSID, newest signal), strongest first.
    pub list: Vec<(String, i32)>,
    /// No stable AP had a current signal, so the newest scan was used as is.
    pub using_fallback: bool,
    /// APs in the newest scan.
    pub visible: usize,
    /// Debounce-stable APs.
    pub stable: usize,
}

/// `ks` (in order) paired with their newest signals, for those that have one.
pub open spec fn with_signal(ring: Seq<SampleV>, ks: Seq<String>) -> Seq<((String, i32), i64)>
    decreases ks.len(),
{
    if ks.len() == 0 {
        Seq::empty()
    } else {
        let r = with_signal(ring, ks.drop_last());
        match latest_signal_of(ring, ks.last()@) {
            Some(sig) => r.push(((ks.last(), sig), sig as i64)),
            None => r,
        }
    }
}

proof fn lemma_with_signal(ring: Seq<SampleV>, ks: Seq<String>)
    ensures
        forall|x: ((String, i32), i64)| #[trigger] with_signal(ring, ks).contains(x) ==> (exists|a: int|
            0 <= a < ks.len() && ks[a] == x.0.0) && latest_signal_of(ring, x.0.0@) == Some(x.0.1) && x.1 == x.0.1 as i64,
        forall|a: int| 0 <= a < ks.len() && latest_signal_of(ring, (#[trigger] ks[a])@) is Some ==> with_signal(ring, ks).contains(
            ((ks[a], latest_signal_of(ring, ks[a]@)->0), latest_signal_of(ring, ks[a]@)->0 as i64),
        ),
        (forall|a: int, b: int| 0 <= a < b < ks.len() ==> (#[trigger] ks[a])@ != (#[trigger] ks[b])@) ==> (forall|i: int, j: int|
            0 <= i < j < with_signal(ring, ks).len() ==> (#[trigger] with_signal(ring, ks)[i]).0.0@ != (#[trigger] with_signal(ring, ks)[j]).0.0@),
    decreases ks.len(),
{
    if ks.len() > 0 {
        let ks1 = ks.drop_last();
        lemma_with_signal(ring, ks1);
        let r = with_signal(ring, ks1);
        assert forall|a: int| 0 <= a < ks1.len() implies ks1[a] == ks[a] by {}
        match latest_signal_of(ring, ks.last()@) {
            Some(sig) => {
                let x = ((ks.last(), sig), sig as i64);
                let w = r.push(x);
                assert forall|y: ((String, i32), i64)| #[trigger] w.contains(y) implies (exists|a: int|
                    0 <= a < ks.len() && ks[a] == y.0.0) && latest_signal_of(ring, y.0.0@) == Some(y.0.1) && y.1 == y.0.1 as i64 by {
                    let i = choose|i: int| 0 <= i < w.len() && w[i] == y;
                    if i < r.len() {
                        assert(r.contains(y));
                        let a = choose|a: int| 0 <= a < ks1.len() && ks1[a] == y.0.0;
                        assert(ks[a] == y.0.0);
                    } else {
                        assert(ks[ks.len() - 1] == y.0.0);
                    }
                }
                assert forall|a: int| 0 <= a < ks.len() && latest_signal_of(ring, (#[trigger] ks[a])@) is Some implies w.contains(
                    ((ks[a], latest_signal_of(ring, ks[a]@)->0), latest_signal_of(ring, ks[a]@)->0 as i64),
                ) by {
                    if a < ks1.len() {
                        assert(ks1[a] == ks[a]);
                        let z = ((ks[a], latest_signal_of(ring, ks[a]@)->0), latest_signal_of(ring, ks[a]@)->0 as i64);
                        assert(r.contains(z));
                        let i = choose|i: int| 0 <= i < r.len() && r[i] == z;
                        assert(w[i] == z);
                    } else {
                        assert(w[w.len() - 1] == x);
                    }
                }
                if forall|a: int, b: int| 0 <= a < b < ks.len() ==> (#[trigger] ks[a])@ != (#[trigger] ks[b])@ {
                    assert forall|a: int, b: int| 0 <= a < b < ks1.len() implies (#[trigger] ks1[a])@ != (#[trigger] ks1[b])@ by {
                        assert(ks[a] == ks1[a] && ks[b] == ks1[b]);
                    }
                    assert forall|i: int, j: int| 0 <= i < j < w.len() implies (#[trigger] w[i]).0.0@ != (#[trigger] w[j]).0.0@ by {
                        if j == w.len() - 1 {
                            assert(r.contains(w[i]));
                            let a = choose|a: int| 0 <= a < ks1.len() && ks1[a] == w[i].0.0;
                            assert(ks[a]@ != ks[ks.len() - 1]@);
                        } else {
                            assert(w[i] == r[i] && w[j] == r[j]);
                        }
                    }
                }
            },
            None => {
                assert forall|a: int| 0 <= a < ks.len() && latest_signal_of(ring, (#[trigger] ks[a])@) is Some implies r.contains(
                    ((ks[a], latest_signal_of(ring, ks[a]@)->0), latest_signal_of(ring, ks[a]@)->0 as i64),
                ) by {
                    assert(a < ks1.len());
                    assert(ks1[a] == ks[a]);
                }
                assert forall|y: ((String, i32), i64)| #[trigger] r.contains(y) implies (exists|a: int|
                    0 <= a < ks.len() && ks[a] == y.0.0) by {
                    let a = choose|a: int| 0 <= a < ks1.len() && ks1[a] == y.0.0;
                    assert(ks[a] == y.0.0);
                }
                if forall|a: int, b: int| 0 <= a < b < ks.len() ==> (#[trigger] ks[a])@ != (#[trigger] ks[b])@ {
                    assert forall|a: int, b: int| 0 <= a < b < ks1.len() implies (#[trigger] ks1[a])@ != (#[trigger] ks1[b])@ by {
                        assert(ks[a] == ks1[a] && ks[b] == ks1[b]);
                    }
                }
            },
        }
    }
}

/// Relabels a (BSSID, signal) item by the BSSID's characters.
pub open spec fn relabel_view(p: ((String, i32), i64)) -> ((Seq<char>, i32), i64) {
    ((p.0.0@, p.0.1), p.1)
}

/// The selection a list of keyed items gives after sorting and cutting to `n`.
pub open spec fn top_of<T>(s: Seq<(T, i64)>, n: nat) -> Seq<T> {
    let t = sorted_by_key_desc(s);
    t.take(if n <= t.len() { n as int } else { t.len() as int }).map_values(|p: (T, i64)| p.0)
}

proof fn lemma_primary(d: DebouncerV, n: nat, ks: Seq<String>)
    requires
        forall|a: int, b: int| 0 <= a < b < ks.len() ==> (#[trigger] ks[a])@ != (#[trigger] ks[b])@,
        forall|k: Seq<char>| (exists|a: int| 0 <= a < ks.len() && (#[trigger] ks[a])@ == k) <==> stable_set(d).contains(k),
    ensures
        is_top_stable(d, n, top_of(with_signal(d.ring, ks), n).map_values(|p: (String, i32)| (p.0@, p.1))),
        top_of(with_signal(d.ring, ks), n).len() == 0 <==> (n == 0 || !(exists|k: Seq<char>| current_stable(d, k))),
{
    let p = with_signal(d.ring, ks);
    lemma_with_signal(d.ring, ks);
    let s = sorted_by_key_desc(p);
    lemma_sorted_by_key_desc(p);
    lemma_sorted_contains(p);
    assert(p.no_duplicates()) by {
        assert forall|i: int, j: int| 0 <= i < p.len() && 0 <= j < p.len() && i != j implies p[i] != p[j] by {
            if i < j {
                assert(p[i].0.0@ != p[j].0.0@);
            } else {
                assert(p[j].0.0@ != p[i].0.0@);
            }
        }
    }
    lemma_sorted_no_duplicates(p);
    let m: int = if n <= s.len() { n as int } else { s.len() as int };
    let l = s.take(m).map_values(|q: ((String, i32), i64)| q.0);
    let c = l.map_values(|q: (String, i32)| (q.0@, q.1));
    assert(top_of(p, n) == l);
    assert forall|a: int| 0 <= a < s.len() implies #[trigger] p.contains(s[a]) by {
        assert(s.contains(s[a]));
    }
    assert forall|a: int| 0 <= a < c.len() implies c[a] == (s[a].0.0@, s[a].0.1) by {}
    assert forall|a: int, b: int| 0 <= a < b < c.len() implies (#[trigger] c[a]).0 != (#[trigger] c[b]).0 && c[a].1 >= c[b].1 by {
        assert(p.contains(s[a]) && p.contains(s[b]));
        assert(s[a] != s[b]);
        let ia = choose|i: int| 0 <= i < p.len() && p[i] == s[a];
        let ib = choose|i: int| 0 <= i < p.len() && p[i] == s[b];
        if ia < ib {
            assert(p[ia].0.0@ != p[ib].0.0@);
        } else {
            assert(p[ib].0.0@ != p[ia].0.0@);
        }
        assert(s[a].1 >= s[b].1);
    }
    assert forall|a: int| 0 <= a < c.len() implies current_stable(d, (#[trigger] c[a]).0) && latest_signal_of(d.ring, c[a].0) == Some(c[a].1) by {
        assert(p.contains(s[a]));
        let i = choose|i: int| 0 <= i < ks.len() && ks[i] == s[a].0.0;
        assert(ks[i]@ == c[a].0);
    }
    assert forall|k: Seq<char>| current_stable(d, k) && !(exists|a: int| 0 <= a < c.len() && (#[trigger] c[a]).0 == k) implies c.len() == n && (n > 0 ==> latest_signal_of(d.ring, k)->0 <= c[n - 1].1) by {
        let i = choose|i: int| 0 <= i < ks.len() && (#[trigger] ks[i])@ == k;
        let sig = latest_signal_of(d.ring, k)->0;
        let x = ((ks[i], sig), sig as i64);
        assert(p.contains(x));
        assert(s.contains(x));
        let q = choose|q: int| 0 <= q < s.len() && s[q] == x;
        if q < m {
            assert(c[q].0 == k);
        }
        assert(q >= m);
        assert(m == n);
        if n > 0 {
            assert(s[n - 1].1 >= s[q].1);
            assert(p.contains(s[n - 1]));
        }
    }
    if n > 0 && (exists|k: Seq<char>| current_stable(d, k)) {
        let k = choose|k: Seq<char>| current_stable(d, k);
        if c.len() == 0 {
            let i = choose|i: int| 0 <= i < ks.len() && (#[trigger] ks[i])@ == k;
            let sig = latest_signal_of(d.ring, k)->0;
            assert(p.contains(((ks[i], sig), sig as i64)));
        }
    }
    if n > 0 && c.len() > 0 {
        assert(current_stable(d, c[0].0));
    }
}

/// Pairs each stable BSSID with its newest signal, for those that have one.
fn signal_pairs(deb: &Debouncer, stable: &Vec<String>) -> (r: Vec<((String, i32), i64)>)
    ensures
        r@ == with_signal(deb@.ring, stable@),
{
    let mut r: Vec<((String, i32), i64)> = Vec::new();
    let mut i: usize = 0;
    assert(stable@.take(0) =~= Seq::<String>::empty());
    while i < stable.len()
        invariant
            i <= stable@.len(),
            r@ == with_signal(deb@.ring, stable@.take(i as int)),
        decreases stable.len() - i,
    {
        proof {
            assert(stable@.take(i + 1).drop_last() =~= stable@.take(i as int));
            assert(stable@.take(i + 1).last() == stable@[i as int]);
        }
        match deb.latest_signal(stable[i].as_str()) {
            Some(sig) => {
                r.push(((stable[i].clone(), sig), sig as i64));
            },
            None => {},
        }
        i = i + 1;
    }
    assert(stable@.take(stable@.len() as int) =~= stable@);
    r
}

/// The newest scan's entries as (BSSID, signal) items keyed by signal.
fn scan_pairs(sample: &ScanSample) -> (r: Vec<((String, i32), i64)>)
    ensures
        r@.map_values(|p: ((String, i32), i64)| relabel_view(p)) == keyed_by_signal(sample@),
{
    let entries = sample.entries();
    let ghost ev = entries@.map_values(|p: (String, ScanEntry)| (p.0@, p.1@));
    let mut r: Vec<((String, i32), i64)> = Vec::new();
    let mut i: usize = 0;
    while i < entries.len()
        invariant
            i <= entries@.len(),
            ev == sample@,
            ev == entries@.map_values(|p: (String, ScanEntry)| (p.0@, p.1@)),
            r@.map_values(|p: ((String, i32), i64)| relabel_view(p)) == keyed_by_signal(ev.take(i as int)),
        decreases entries.len() - i,
    {
        let e = &entries[i];
        let sig = e.1.signal_dbm;
        r.push(((e.0.clone(), sig), sig as i64));
        proof {
            assert(ev[i as int] == (e.0@, e.1@));
            assert(keyed_by_signal(ev.take(i + 1)) =~= keyed_by_signal(ev.take(i as int)).push(((e.0@, sig), sig as i64)));
            assert(r@.map_values(|p: ((String, i32), i64)| relabel_view(p)) =~= keyed_by_signal(ev.take(i + 1)));
        }
        i = i + 1;
    }
    assert(ev.take(ev.len() as int) =~= ev);
    r
}

/// Sorts keyed items strongest first and keeps at most `n`.
fn top_n_of(items: Vec<((String, i32), i64)>, n: usize) -> (r: Vec<(String, i32)>)
    ensures
        r@ == top_of(items@, n as nat),
{
    let mut sorted = sort_by_key_desc(items);
    sorted.truncate(n);
    let ghost t = sorted_by_key_desc(items@);
    assert(sorted@ =~= t.take(if n <= t.len() { n as int } else { t.len() as int }));
    strip_keys(sorted)
}

/// Build the candidate list of a `locate`: stable APs with a current
/// signal, strongest first, top `top_n`. When there are none, every AP of
/// the newest scan is used instead (cold start), strongest first, top
/// `top_n`; such a fallback list is only used for the one response.
pub fn locate_candidates(deb: &Debouncer, top_n: usize) -> (r: Candidates)
    ensures
        r.visible == visible_count(deb@),
        r.stable == stable_set(deb@).len(),
        (top_n > 0 && exists|k: Seq<char>| current_stable(deb@, k)) ==> !r.using_fallback && r.list@.len() > 0
            && is_top_stable(deb@, top_n as nat, cand_view(r.list@)),
        !(top_n > 0 && exists|k: Seq<char>| current_stable(deb@, k)) ==> cand_view(r.list@) == fallback_spec(deb@, top_n as nat)
            && r.using_fallback == (r.list@.len() > 0),
{
    let stable = deb.stable_bssids();
    let visible = match deb.latest_scan() {
        Some(s) => s.len(),
        None => 0,
    };
    let pairs = signal_pairs(deb, &stable);
    proof {
        assert forall|a: int, b: int| 0 <= a < b < stable@.len() implies (#[trigger] stable@[a])@ != (#[trigger] stable@[b])@ by {}
        lemma_primary(deb@, top_n as nat, stable@);
    }
    let primary = top_n_of(pairs, top_n);
    if primary.len() > 0 {
        return Candidates { list: primary, using_fallback: false, visible, stable: stable.len() };
    }
    let fallback = match deb.latest_scan() {
        Some(scan) => {
            let sp = scan_pairs(scan);
            proof {
                let f = |q: (String, i32)| (q.0@, q.1);
                lemma_sort_relabel(sp@, f);
                assert(sp@.map_values(|p: ((String, i32), i64)| (f(p.0), p.1)) =~= sp@.map_values(|p: ((String, i32), i64)| relabel_view(p)));
            }
            let l = top_n_of(sp, top_n);
            proof {
                let f = |q: (String, i32)| (q.0@, q.1);
                let t = sorted_by_key_desc(sp@);
                let tv = sorted_by_key_desc(keyed_by_signal(deb@.ring.last()));
                assert(tv == t.map_values(|p: ((String, i32), i64)| (f(p.0), p.1)));
                let m: int = if top_n <= t.len() { top_n as int } else { t.len() as int };
                assert(cand_view(l@) =~= tv.take(m).map_values(|p: ((Seq<char>, i32), i64)| p.0));
            }
            l
        },
        None => {
            let l: Vec<(String, i32)> = Vec::new();
            assert(cand_view(l@) =~= fallback_spec(deb@, top_n as nat));
            l
        },
    };
    let using_fallback = fallback.len() > 0;
    Candidates { list: fallback, using_fallback, visible, stable: stable.len() }
}

// ---------------------------------------------------------------------------
// debug: per-BSSID state
// ---------------------------------------------------------------------------

/// One BSSID's debounce state in a `debug` snapshot.
#[derive(Debug)]
pub struct DebugRow {
    pub bssid: String,
    /// Signal in the newest scan; None for a stable BSSID missing from it.
    pub signal_dbm: Option<i32>,
    /// Samples in the window that contain the BSSID.
    pub seen: usize,
    /// Samples needed to be stable.
    pub needed: usize,
    pub is_stable: bool,
}

/// Abstract debug row: BSSID, signal, seen, needed, stable.
pub type DebugRowV = (Seq<char>, Option<i32>, nat, nat, bool);

/// The abstract row of `r`.
pub open spec fn row_view(r: DebugRow) -> DebugRowV {
    (r.bssid@, r.signal_dbm, r.seen as nat, r.needed as nat, r.is_stable)
}

/// Sort key of a row: its signal; rows without one come after all others.
pub open spec fn row_key(sig: Option<i32>) -> i64 {
    match sig {
        Some(s) => s as i64,
        None => i64::MIN,
    }
}

/// `k` belongs in the snapshot: it is in the newest scan or it is stable.
pub open spec fn debug_listed(d: DebouncerV, k: Seq<char>) -> bool {
    latest_signal_of(d.ring, k) is Some || stable_set(d).contains(k)
}

/// A row reports what the debouncer knows of its BSSID.
pub open spec fn row_ok(d: DebouncerV, r: DebugRowV) -> bool {
    &&& debug_listed(d, r.0)
    &&& r.1 == latest_signal_of(d.ring, r.0)
    &&& r.2 == count_in(d.ring, r.0)
    &&& r.3 == d.threshold
    &&& r.4 == stable_set(d).contains(r.0)
}

/// Whether `s` is one of `v`.
fn contains_str(v: &Vec<String>, s: &str) -> (r: bool)
    ensures
        r == exists|a: int| 0 <= a < v@.len() && (#[trigger] v@[a])@ == s@,
{
    let mut i: usize = 0;
    while i < v.len()
        invariant
            i <= v@.len(),
            forall|a: int| 0 <= a < i ==> (#[trigger] v@[a])@ != s@,
        decreases v.len() - i,
    {
        if str_eq(v[i].as_str(), s) {
            return true;
        }
        i = i + 1;
    }
    false
}

/// The rows of a `debug` snapshot: every BSSID of the newest scan, with its
/// signal, and every stable BSSID missing from it, without one; each with
/// its debounce count and threshold. Strongest first; rows without a
/// signal last.
#[verifier::rlimit(40)]
pub fn debug_rows(deb: &Debouncer) -> (r: Vec<DebugRow>)
    ensures
        forall|a: int| 0 <= a < r@.len() ==> row_ok(deb@, row_view(#[trigger] r@[a])),
        forall|a: int, b: int| 0 <= a < b < r@.len() ==> (#[trigger] r@[a]).bssid@ != (#[trigger] r@[b]).bssid@
            && row_key(r@[a].signal_dbm) >= row_key(r@[b].signal_dbm),
        forall|k: Seq<char>| #[trigger] debug_listed(deb@, k) ==> exists|a: int| 0 <= a < r@.len() && (#[trigger] r@[a]).bssid@ == k,
{
    let ghost d = deb@;
    let stable = deb.stable_bssids();
    let threshold = deb.threshold();
    let mut rows: Vec<(DebugRow, i64)> = Vec::new();
    match deb.latest_scan() {
        Some(scan) => {
            let entries = scan.entries();
            let ghost sv = scan@;
            let mut i: usize = 0;
            while i < entries.len()
                invariant
                    d == deb@,
                    d.ring.len() > 0,
                    sv == d.ring.last(),
                    distinct_keys(sv),
                    threshold == d.threshold,
                    i <= entries@.len(),
                    entries@.map_values(|p: (String, ScanEntry)| (p.0@, p.1@)) == sv,
                    forall|k: Seq<char>| #![trigger stable_set(d).contains(k)] (exists|a: int| 0 <= a < stable@.len() && (#[trigger] stable@[a])@ == k) <==> stable_set(d).contains(k),
                    rows@.len() == i,
                    forall|a: int| 0 <= a < rows@.len() ==> (#[trigger] rows@[a]).0.bssid@ == sv[a].0,
                    forall|a: int| 0 <= a < rows@.len() ==> row_ok(d, row_view((#[trigger] rows@[a]).0)) && rows@[a].1 == row_key(rows@[a].0.signal_dbm) && rows@[a].0.signal_dbm is Some,
                decreases entries.len() - i,
            {
                let b = &entries[i].0;
                assert(sv[i as int].0 == b@);
                proof {
                    lemma_key_index(sv, b@, 0);
                    if key_index_from(sv, b@, 0) != i as int {
                        let j = key_index_from(sv, b@, 0);
                        assert(sv[j].0 == b@);
                    }
                }
                let signal = deb.latest_signal(b.as_str());
                let seen = deb.count(b.as_str());
                let is_stable = contains_str(&stable, b.as_str());
                let key: i64 = match signal {
                    Some(s) => s as i64,
                    None => i64::MIN,
                };
                rows.push((DebugRow { bssid: b.clone(), signal_dbm: signal, seen, needed: threshold, is_stable }, key));
                i = i + 1;
            }
        },
        None => {},
    }
    let ghost n_latest = rows@.len();
    proof {
        assert forall|k: Seq<char>| latest_signal_of(d.ring, k) is Some implies exists|a: int| 0 <= a < n_latest && (#[trigger] rows@[a]).0.bssid@ == k by {
            let sv = d.ring.last();
            lemma_key_index(sv, k, 0);
            let idx = key_index_from(sv, k, 0);
            assert(rows@[idx].0.bssid@ == sv[idx].0);
        }
        assert forall|a: int, b: int| 0 <= a < b < rows@.len() implies (#[trigger] rows@[a]).0.bssid@ != (#[trigger] rows@[b]).0.bssid@ by {
            let sv = d.ring.last();
            assert(rows@[a].0.bssid@ == sv[a].0 && rows@[b].0.bssid@ == sv[b].0);
        }
    }
    let mut j: usize = 0;
    while j < stable.len()
        invariant
            d == deb@,
            threshold == d.threshold,
            j <= stable@.len(),
            n_latest <= rows@.len(),
            forall|a: int, b: int| 0 <= a < b < stable@.len() ==> (#[trigger] stable@[a])@ != (#[trigger] stable@[b])@,
            forall|k: Seq<char>| #![trigger stable_set(d).contains(k)] (exists|a: int| 0 <= a < stable@.len() && (#[trigger] stable@[a])@ == k) <==> stable_set(d).contains(k),
            forall|a: int| 0 <= a < rows@.len() ==> row_ok(d, row_view((#[trigger] rows@[a]).0)) && rows@[a].1 == row_key(rows@[a].0.signal_dbm),
            forall|a: int| 0 <= a < n_latest ==> (#[trigger] rows@[a]).0.signal_dbm is Some,
            forall|a: int, b: int| 0 <= a < b < rows@.len() ==> (#[trigger] rows@[a]).0.bssid@ != (#[trigger] rows@[b]).0.bssid@,
            forall|k: Seq<char>| latest_signal_of(d.ring, k) is Some ==> exists|a: int| 0 <= a < n_latest && (#[trigger] rows@[a]).0.bssid@ == k,
            forall|a: int| n_latest <= a < rows@.len() ==> (#[trigger] rows@[a]).0.signal_dbm is None,
            forall|a: int| #![trigger rows@[a]] n_latest <= a < rows@.len() ==> exists|c: int| 0 <= c < j && (#[trigger] stable@[c])@ == rows@[a].0.bssid@,
            forall|c: int| 0 <= c < j && latest_signal_of(d.ring, (#[trigger] stable@[c])@) is None ==> exists|a: int| n_latest <= a < rows@.len() && (#[trigger] rows@[a]).0.bssid@ == stable@[c]@,
        decreases stable.len() - j,
    {
        let signal = deb.latest_signal(stable[j].as_str());
        if signal.is_none() {
            let seen = deb.count(stable[j].as_str());
            proof {
                assert(stable_set(d).contains(stable@[j as int]@));
            }
            let ghost before = rows@;
            rows.push((DebugRow { bssid: stable[j].clone(), signal_dbm: None, seen, needed: threshold, is_stable: true }, i64::MIN));
            proof {
                let last = rows@.len() - 1;
                assert(rows@[last].0.bssid@ == stable@[j as int]@);
                assert forall|a: int| 0 <= a < before.len() implies rows@[a] == before[a] by {}
                assert forall|k: Seq<char>| latest_signal_of(d.ring, k) is Some implies exists|a: int| 0 <= a < n_latest && (#[trigger] rows@[a]).0.bssid@ == k by {
                    let a = choose|a: int| 0 <= a < n_latest && (#[trigger] before[a]).0.bssid@ == k;
                    assert(rows@[a] == before[a]);
                }
                assert forall|c: int| 0 <= c < j + 1 && latest_signal_of(d.ring, (#[trigger] stable@[c])@) is None implies exists|a: int| n_latest <= a < rows@.len() && (#[trigger] rows@[a]).0.bssid@ == stable@[c]@ by {
                    if c < j {
                        let a = choose|a: int| n_latest <= a < before.len() && (#[trigger] before[a]).0.bssid@ == stable@[c]@;
                        assert(rows@[a] == before[a]);
                    } else {
                        assert(rows@[last].0.bssid@ == stable@[c]@);
                    }
                }
                assert forall|a: int| #![trigger rows@[a]] n_latest <= a < rows@.len() implies exists|c: int| 0 <= c < j + 1 && (#[trigger] stable@[c])@ == rows@[a].0.bssid@ by {
                    if a < last {
                        assert(rows@[a] == before[a]);
                        let c = choose|c: int| 0 <= c < j && (#[trigger] stable@[c])@ == before[a].0.bssid@;
                        assert(stable@[c]@ == rows@[a].0.bssid@);
                    } else {
                        assert(stable@[j as int]@ == rows@[a].0.bssid@);
                    }
                }
                assert forall|a: int, b: int| 0 <= a < b < rows@.len() implies (#[trigger] rows@[a]).0.bssid@ != (#[trigger] rows@[b]).0.bssid@ by {
                    if b == last {
                        assert(rows@[a] == before[a]);
                        if a >= n_latest {
                            let c = choose|c: int| 0 <= c < j && (#[trigger] stable@[c])@ == before[a].0.bssid@;
                        } else {
                            assert(before[a].0.signal_dbm is Some);
                        }
                    } else {
                        assert(rows@[a] == before[a] && rows@[b] == before[b]);
                    }
                }
            }
        }
        j = j + 1;
    }
    let ghost pv = rows@;
    let sorted = sort_by_key_desc(rows);
    let out = strip_keys(sorted);
    proof {
        let s = sorted_by_key_desc(pv);
        lemma_sorted_by_key_desc(pv);
        lemma_sorted_contains(pv);
        assert(pv.no_duplicates()) by {
            assert forall|i: int, j: int| 0 <= i < pv.len() && 0 <= j < pv.len() && i != j implies pv[i] != pv[j] by {
                if i < j {
                    assert(pv[i].0.bssid@ != pv[j].0.bssid@);
                } else {
                    assert(pv[j].0.bssid@ != pv[i].0.bssid@);
                }
            }
        }
        lemma_sorted_no_duplicates(pv);
        assert forall|a: int| 0 <= a < s.len() implies #[trigger] pv.contains(s[a]) by {
            assert(s.contains(s[a]));
        }
        assert forall|a: int| 0 <= a < out@.len() implies row_ok(deb@, row_view(#[trigger] out@[a])) by {
            assert(out@[a] == s[a].0);
            assert(pv.contains(s[a]));
        }
        assert forall|a: int, b: int| 0 <= a < b < out@.len() implies (#[trigger] out@[a]).bssid@ != (#[trigger] out@[b]).bssid@
            && row_key(out@[a].signal_dbm) >= row_key(out@[b].signal_dbm) by {
            assert(out@[a] == s[a].0 && out@[b] == s[b].0);
            assert(pv.contains(s[a]) && pv.contains(s[b]));
            assert(s[a] != s[b]);
            let ia = choose|i: int| 0 <= i < pv.len() && pv[i] == s[a];
            let ib = choose|i: int| 0 <= i < pv.len() && pv[i] == s[b];
            if ia < ib {
                assert(pv[ia].0.bssid@ != pv[ib].0.bssid@);
            } else {
                assert(pv[ib].0.bssid@ != pv[ia].0.bssid@);
            }
            assert(s[a].1 >= s[b].1);
        }
        assert forall|k: Seq<char>| #[trigger] debug_listed(deb@, k) implies exists|a: int| 0 <= a < out@.len() && (#[trigger] out@[a]).bssid@ == k by {
            let i = if latest_signal_of(d.ring, k) is Some {
                choose|a: int| 0 <= a < n_latest && (#[trigger] pv[a]).0.bssid@ == k
            } else {
                assert(stable_set(d).contains(k));
                let c = choose|c: int| 0 <= c < stable@.len() && (#[trigger] stable@[c])@ == k;
                choose|a: int| n_latest <= a < pv.len() && (#[trigger] pv[a]).0.bssid@ == stable@[c]@
            };
            assert(pv[i].0.bssid@ == k);
            assert(s.contains(pv[i]));
            let q = choose|q: int| 0 <= q < s.len() && s[q] == pv[i];
            assert(out@[q] == s[q].0);
        }
    }
    out
}

// ---------------------------------------------------------------------------
// scan: the newest scan's networks
// ---------------------------------------------------------------------------

/// A scan entry as a network item keyed by its signal.
pub open spec fn entry_item(x: (Seq<char>, EntryV)) -> (NetworkEntryV, i64) {
    ((x.0, x.1.1, x.1.0, x.1.2), x.1.0 as i64)
}

/// The abstract value of a network item.
pub open spec fn item_view(p: (NetworkEntry, i64)) -> (NetworkEntryV, i64) {
    (p.0@, p.1)
}

/// The networks of the newest scan, strongest first (ties in scan order).
pub open spec fn scan_listing(d: DebouncerV) -> Seq<NetworkEntryV> {
    if d.ring.len() == 0 {
        Seq::empty()
    } else {
        sorted_by_key_desc(d.ring.last().map_values(|x: (Seq<char>, EntryV)| entry_item(x))).map_values(
            |p: (NetworkEntryV, i64)| p.0,
        )
    }
}

/// The networks of the newest scan for a `scan` response, strongest first.
pub fn scan_networks(deb: &Debouncer) -> (r: Vec<NetworkEntry>)
    ensures
        r@.map_values(|n: NetworkEntry| n@) == scan_listing(deb@),
{
    match deb.latest_scan() {
        None => {
            let r: Vec<NetworkEntry> = Vec::new();
            assert(r@.map_values(|n: NetworkEntry| n@) =~= scan_listing(deb@));
            r
        },
        Some(scan) => {
            let entries = scan.entries();
            let ghost ev = scan@;
            let mut items: Vec<(NetworkEntry, i64)> = Vec::new();
            let mut i: usize = 0;
            while i < entries.len()
                invariant
                    i <= entries@.len(),
                    ev == entries@.map_values(|p: (String, ScanEntry)| (p.0@, p.1@)),
                    items@.len() == i,
                    forall|j: int| 0 <= j < i ==> item_view(#[trigger] items@[j]) == entry_item(ev[j]),
                decreases entries.len() - i,
            {
                let e = &entries[i];
                let ssid = match &e.1.ssid {
                    Some(x) => Some(x.clone()),
                    None => None,
                };
                let n = NetworkEntry { bssid: e.0.clone(), ssid, signal_dbm: e.1.signal_dbm, channel: e.1.channel };
                assert(ev[i as int] == (e.0@, e.1@));
                items.push((n, e.1.signal_dbm as i64));
                i = i + 1;
            }
            let ghost iv = items@;
            let sorted = sort_by_key_desc(items);
            let r = strip_keys(sorted);
            proof {
                let f = |n: NetworkEntry| n@;
                lemma_sort_relabel(iv, f);
                let m = iv.map_values(|p: (NetworkEntry, i64)| (f(p.0), p.1));
                assert forall|j: int| 0 <= j < iv.len() implies #[trigger] m[j] == entry_item(ev[j]) by {
                    assert(item_view(iv[j]) == entry_item(ev[j]));
                }
                assert(m =~= ev.map_values(|x: (Seq<char>, EntryV)| entry_item(x)));
                assert(r@.map_values(|n: NetworkEntry| n@) =~= sorted_by_key_desc(iv).map_values(|p: (NetworkEntry, i64)| (f(p.0), p.1)).map_values(|p: (NetworkEntryV, i64)| p.0));
            }
            r
        },
    }
}

// ---------------------------------------------------------------------------
// debug: cache state of a BSSID
// ---------------------------------------------------------------------------

/// Where a BSSID stands in the daemon's tables.
#[derive(Debug, Clone, Copy, PartialEq, Eq, Structural)]
pub enum DbStatus {
    Cached,
    NotFound,
    Pending,
    New,
}

/// The status of a BSSID from its table memberships: a cached position wins,
/// then a live not_found mark, then the pending queue; otherwise it is new.
pub fn db_status(cached: bool, not_found: bool, pending: bool) -> (r: DbStatus)
    ensures
        r == (if cached {
            DbStatus::Cached
        } else if not_found {
            DbStatus::NotFound
        } else if pending {
            DbStatus::Pending
        } else {
            DbStatus::New
        }),
{
    if cached {
        DbStatus::Cached
    } else if not_found {
        DbStatus::NotFound
    } else if pending {
        DbStatus::Pending
    } else {
        DbStatus::New
    }
}

impl DbStatus {
    /// The status as the `debug` response spells it.
    pub fn as_str(self) -> (r: &'static str)
        ensures
            r@ == match self {
                DbStatus::Cached => "cached"@,
                DbStatus::NotFound => "not_found"@,
                DbStatus::Pending => "pending"@,
                DbStatus::New => "new"@,
            },
    {
        match self {
            DbStatus::Cached => "cached",
            DbStatus::NotFound => "not_found",
            DbStatus::Pending => "pending",
            DbStatus::New => "new",
        }
    }
}

// ---------------------------------------------------------------------------
// resolve
// ---------------------------------------------------------------------------

/// Maximum number of BSSIDs accepted in a single `resolve` request.
pub const MAX_RESOLVE_BSSIDS: usize = 256;

/// The error of a `resolve` request that is empty or too long, if any.
pub open spec fn resolve_request_error(n: nat) -> Option<Seq<char>> {
    if n == 0 {
        Some("resolve requires non-empty bssids array"@)
    } else if n > MAX_RESOLVE_BSSIDS {
        Some("resolve accepts at most 256 BSSIDs per request (got "@ + decimal(n) + ")"@)
    } else {
        None
    }
}

/// Checks a `resolve` request and normalizes its BSSIDs: an empty request
/// and one of more than 256 BSSIDs are refused with the protocol's errors.
pub fn check_resolve_request(bssids: &[String]) -> (r: Result<Vec<String>, String>)
    ensures
        match r {
            Err(e) => resolve_request_error(bssids@.len()) == Some(e@),
            Ok(v) => resolve_request_error(bssids@.len()) is None && v@.len() == bssids@.len() && forall|i: int|
                0 <= i < v@.len() ==> (#[trigger] v@[i])@ == normalized(bssids@[i]@),
        },
{
    if bssids.len() == 0 {
        let mut e = String::new();
        push_str(&mut e, "resolve requires non-empty bssids array");
        assert(Seq::<char>::empty() + "resolve requires non-empty bssids array"@ =~= "resolve requires non-empty bssids array"@);
        return Err(e);
    }
    if bssids.len() > MAX_RESOLVE_BSSIDS {
        let mut e = String::new();
        push_str(&mut e, "resolve accepts at most 256 BSSIDs per request (got ");
        push_decimal(&mut e, bssids.len() as u64);
        push_str(&mut e, ")");
        assert(e@ =~= resolve_request_error(bssids@.len()).unwrap());
        return Err(e);
    }
    let mut v: Vec<String> = Vec::new();
    let mut i: usize = 0;
    while i < bssids.len()
        invariant
            i <= bssids@.len(),
            v@.len() == i,
            forall|k: int| 0 <= k < i ==> (#[trigger] v@[k])@ == normalized(bssids@[k]@),
        decreases bssids.len() - i,
    {
        v.push(normalize_bssid(bssids[i].as_str()));
        i = i + 1;
    }
    Ok(v)
}

/// Where a `resolve` answer came from.
#[derive(Debug, Clone, Copy, PartialEq, Eq, Structural)]
pub enum Provenance {
    /// Answered from the local cache.
    Cache,
    /// Fetched from a provider on this call.
    Api,
    /// No provider had a position.
    NotFound,
}

impl Provenance {
    /// The provenance as the `resolve` response spells it.
    pub fn as_str(self) -> (r: &'static str)
        ensures
            r@ == match self {
                Provenance::Cache => "cache"@,
                Provenance::Api => "api"@,
                Provenance::NotFound => "not_found"@,
            },
    {
        match self {
            Provenance::Cache => "cache",
            Provenance::Api => "api",
            Provenance::NotFound => "not_found",
        }
    }
}

/// Index of the first string of `v` equal to `k`, or -1.
pub open spec fn first_index(v: Seq<String>, k: Seq<char>) -> int
    decreases v.len(),
{
    if v.len() == 0 {
        -1
    } else if first_index(v.drop_last(), k) >= 0 {
        first_index(v.drop_last(), k)
    } else if v.last()@ == k {
        v.len() - 1
    } else {
        -1
    }
}

fn find_str(v: &[String], k: &str) -> (r: Option<usize>)
    ensures
        r matches Some(i) ==> i == first_index(v@, k@),
        r is None ==> first_index(v@, k@) == -1,
{
    let mut i: usize = 0;
    assert(v@.take(0) =~= Seq::<String>::empty());
    while i < v.len()
        invariant
            i <= v@.len(),
            first_index(v@.take(i as int), k@) == -1,
        decreases v.len() - i,
    {
        assert(v@.take(i + 1).drop_last() =~= v@.take(i as int));
        if str_eq(v[i].as_str(), k) {
            proof {
                lemma_first_index_prefix(v@, k@, i + 1);
            }
            return Some(i);
        }
        i = i + 1;
    }
    assert(v@.take(v@.len() as int) =~= v@);
    None
}

proof fn lemma_first_index_prefix(v: Seq<String>, k: Seq<char>, n: int)
    requires
        0 <= n <= v.len(),
        first_index(v.take(n), k) >= 0,
    ensures
        first_index(v, k) == first_index(v.take(n), k),
    decreases v.len() - n,
{
    if n < v.len() {
        assert(v.take(n + 1).drop_last() =~= v.take(n));
        lemma_first_index_prefix(v, k, n + 1);
    } else {
        assert(v.take(n) =~= v);
    }
}

/// The answer for each requested BSSID: the index of its position among
/// `positioned` (the first with that BSSID) and its provenance, `Api` when
/// it was fetched on this call, `Cache` otherwise; `NotFound` without one.
pub fn resolve_answers(requested: &[String], positioned: &[String], fetched: &[String]) -> (r: Vec<(Option<usize>, Provenance)>)
    ensures
        r@.len() == requested@.len(),
        forall|i: int| 0 <= i < r@.len() ==> (#[trigger] r@[i]) == (if first_index(positioned@, requested@[i]@) >= 0 {
            (
                Some(first_index(positioned@, requested@[i]@) as usize),
                if first_index(fetched@, requested@[i]@) >= 0 {
                    Provenance::Api
                } else {
                    Provenance::Cache
                },
            )
        } else {
            (None, Provenance::NotFound)
        }),
{
    let mut r: Vec<(Option<usize>, Provenance)> = Vec::new();
    let mut i: usize = 0;
    while i < requested.len()
        invariant
            i <= requested@.len(),
            r@.len() == i,
            forall|k: int| 0 <= k < i ==> (#[trigger] r@[k]) == (if first_index(positioned@, requested@[k]@) >= 0 {
                (
                    Some(first_index(positioned@, requested@[k]@) as usize),
                    if first_index(fetched@, requested@[k]@) >= 0 {
                        Provenance::Api
                    } else {
                        Provenance::Cache
                    },
                )
            } else {
                (None, Provenance::NotFound)
            }),
        decreases requested.len() - i,
    {
        let b = requested[i].as_str();
        let answer = match find_str(positioned, b) {
            Some(j) => {
                let prov = match find_str(fetched, b) {
                    Some(_) => Provenance::Api,
                    None => Provenance::Cache,
                };
                (Some(j), prov)
            },
            None => (None, Provenance::NotFound),
        };
        r.push(answer);
        i = i + 1;
    }
    r
}

// ---------------------------------------------------------------------------
// pending drain
// ---------------------------------------------------------------------------

/// Whether a drained BSSID was resolved in the pass (fetched, or among the
/// positions). Only unresolved BSSIDs that the pass marked not_found have
/// their pending row removed afterwards.
pub fn was_resolved(bssid: &str, fetched: &[String], positioned: &[String]) -> (r: bool)
    ensures
        r == (first_index(fetched@, bssid@) >= 0 || first_index(positioned@, bssid@) >= 0),
{
    find_str(fetched, bssid).is_some() || find_str(positioned, bssid).is_some()
}

/// Whether the drain's cleanup removes a drained BSSID from the pending
/// queue: it was not resolved in the pass, and the not_found table
/// (`not_found`, read after the pass) holds it.
pub fn drain_drops_pending(bssid: &str, fetched: &[String], positioned: &[String], not_found: bool) -> (r: bool)
    ensures
        r == (!(first_index(fetched@, bssid@) >= 0 || first_index(positioned@, bssid@) >= 0) && not_found),
{
    !was_resolved(bssid, fetched, positioned) && not_found
}

// ---------------------------------------------------------------------------
// locate: stale answers and address backfill
// ---------------------------------------------------------------------------

/// Whole seconds from `at` to `now` (ns), rounded toward zero; a clock that
/// went back reads as zero.
pub open spec fn age_seconds(now: int, at: int) -> int {
    let d = now - at;
    if d <= 0 {
        0
    } else {
        d / 1_000_000_000
    }
}

/// Age of a last-known fix taken at `at_nanos`, read at `now_nanos`.
pub fn stale_age_secs(now_nanos: i128, at_nanos: i128) -> (r: u64)
    requires
        crate::clock::MIN_UTC_NANOS <= now_nanos <= crate::clock::MAX_UTC_NANOS,
        crate::clock::MIN_UTC_NANOS <= at_nanos <= crate::clock::MAX_UTC_NANOS,
    ensures
        r == age_seconds(now_nanos as int, at_nanos as int),
{
    let d = now_nanos - at_nanos;
    if d <= 0 {
        0
    } else {
        (d / 1_000_000_000) as u64
    }
}

/// An address resolved in the background for `resolved_cell` is written
/// into the last-known fix only when that fix is still in the same grid
/// cell and has no address yet.
pub fn should_backfill(fix_cell: (i32, i32), resolved_cell: (i32, i32), fix_has_address: bool) -> (r: bool)
    ensures
        r == (fix_cell == resolved_cell && !fix_has_address),
{
    fix_cell.0 == resolved_cell.0 && fix_cell.1 == resolved_cell.1 && !fix_has_address
}

// ---------------------------------------------------------------------------
// commands
// ---------------------------------------------------------------------------

/// The commands of the protocol.
#[derive(Debug, Clone, Copy, PartialEq, Eq, Structural)]
pub enum Command {
    Locate,
    Resolve,
    Scan,
    Stats,
    Debug,
    Version,
    History,
}

/// The command a `cmd` value names.
pub open spec fn command_of(s: Seq<char>) -> Option<Command> {
    if s == "locate"@ {
        Some(Command::Locate)
    } else if s == "resolve"@ {
        Some(Command::Resolve)
    } else if s == "scan"@ {
        Some(Command::Scan)
    } else if s == "stats"@ {
        Some(Command::Stats)
    } else if s == "debug"@ {
        Some(Command::Debug)
    } else if s == "version"@ {
        Some(Command::Version)
    } else if s == "history"@ {
        Some(Command::History)
    } else {
        None
    }
}

impl Command {
    /// The command `cmd` names, or the protocol's error for an unknown one.
    pub fn parse(cmd: &str) -> (r: Result<Command, String>)
        ensures
            r matches Ok(c) ==> command_of(cmd@) == Some(c),
            r matches Err(e) ==> command_of(cmd@) is None && e@ == "unknown command: "@ + cmd@,
    {
        if str_eq(cmd, "locate") {
            Ok(Command::Locate)
        } else if str_eq(cmd, "resolve") {
            Ok(Command::Resolve)
        } else if str_eq(cmd, "scan") {
            Ok(Command::Scan)
        } else if str_eq(cmd, "stats") {
            Ok(Command::Stats)
        } else if str_eq(cmd, "debug") {
            Ok(Command::Debug)
        } else if str_eq(cmd, "version") {
            Ok(Command::Version)
        } else if str_eq(cmd, "history") {
            Ok(Command::History)
        } else {
            let mut e = String::new();
            push_str(&mut e, "unknown command: ");
            push_str(&mut e, cmd);
            assert(Seq::<char>::empty() + "unknown command: "@ =~= "unknown command: "@);
            Err(e)
        }
    }
}

} // verus!
