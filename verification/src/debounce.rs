//! Debounce: sliding-window stable AP detection.
//!
//! Maintains a ring buffer of the last N scan samples. A BSSID is "stable"
//! when it appears in >= M of those N samples.

use vstd::prelude::*;
use crate::clock::{elapsed_ms, instant_now, now_nanos, MAX_UTC_NANOS};
use crate::text::{chars_eq, chars_of};

verus! {

/// The characters of an optional string.
pub open spec fn opt_chars(o: Option<String>) -> Option<Seq<char>> {
    match o {
        Some(s) => Some(s@),
        None => None,
    }
}

/// Per-AP info stored in each scan sample.
#[derive(Debug, Clone)]
pub struct ScanEntry {
    pub signal_dbm: i32,
    pub ssid: Option<String>,
    pub channel: Option<i32>,
}

/// Abstract scan entry: signal, SSID, channel.
pub type EntryV = (i32, Option<Seq<char>>, Option<i32>);

impl View for ScanEntry {
    type V = EntryV;

    open spec fn view(&self) -> EntryV {
        (self.signal_dbm, opt_chars(self.ssid), self.channel)
    }
}

/// Abstract scan sample: (BSSID, entry) pairs with distinct BSSIDs.
pub type SampleV = Seq<(Seq<char>, EntryV)>;

/// `k` is one of the BSSIDs of `s`.
pub open spec fn has_key(s: SampleV, k: Seq<char>) -> bool {
    exists|i: int| 0 <= i < s.len() && (#[trigger] s[i]).0 == k
}

/// The BSSIDs of `s` are distinct.
pub open spec fn distinct_keys(s: SampleV) -> bool {
    forall|i: int, j: int| 0 <= i < s.len() && 0 <= j < s.len() && i != j ==> (#[trigger] s[i]).0 != (#[trigger] s[j]).0
}

/// Index of the first entry of `s` at `i` or later whose BSSID is `k`, or -1.
pub open spec fn key_index_from(s: SampleV, k: Seq<char>, i: int) -> int
    decreases s.len() - i,
{
    if i < 0 || i >= s.len() {
        -1
    } else if s[i].0 == k {
        i
    } else {
        key_index_from(s, k, i + 1)
    }
}

/// `s` with the entry of `k` set to `e`: in place when `k` is present,
/// appended otherwise (what `HashMap::insert` does to the key-value pairs).
pub open spec fn sample_insert(s: SampleV, k: Seq<char>, e: EntryV) -> SampleV {
    let i = key_index_from(s, k, 0);
    if i >= 0 {
        s.update(i, (k, e))
    } else {
        s.push((k, e))
    }
}

/// The first index of `k` at `i` or later is `-1` or an index holding `k`,
/// and no index before it holds `k`.
pub proof fn lemma_key_index(s: SampleV, k: Seq<char>, i: int)
    requires
        0 <= i,
    ensures
        key_index_from(s, k, i) == -1 || (i <= key_index_from(s, k, i) < s.len() && s[key_index_from(s, k, i)].0 == k),
        forall|j: int| i <= j < s.len() && (key_index_from(s, k, i) == -1 || j < key_index_from(s, k, i)) ==> (#[trigger] s[j]).0 != k,
    decreases s.len() - i,
{
    if i < s.len() && s[i].0 != k {
        lemma_key_index(s, k, i + 1);
    }
}

/// A single scan sample: maps BSSID -> scan entry.
#[derive(Debug)]
pub struct ScanSample {
    entries: Vec<(String, ScanEntry)>,
}

impl View for ScanSample {
    type V = SampleV;

    closed spec fn view(&self) -> SampleV {
        self.entries@.map_values(|p: (String, ScanEntry)| (p.0@, p.1@))
    }
}

impl ScanSample {
    #[verifier::type_invariant]
    closed spec fn keys_distinct(self) -> bool {
        distinct_keys(self@)
    }

    /// An empty sample.
    pub fn new() -> (s: ScanSample)
        ensures
            s@ == Seq::<(Seq<char>, EntryV)>::empty(),
    {
        let s = ScanSample { entries: Vec::new() };
        assert(s@ =~= Seq::<(Seq<char>, EntryV)>::empty());
        s
    }

    /// Number of BSSIDs.
    pub fn len(&self) -> (n: usize)
        ensures
            n == self@.len(),
    {
        self.entries.len()
    }

    /// Whether the sample is empty.
    pub fn is_empty(&self) -> (b: bool)
        ensures
            b == (self@.len() == 0),
    {
        self.entries.len() == 0
    }

    fn find(&self, bssid: &[char]) -> (r: Option<usize>)
        ensures
            r matches Some(i) ==> i < self@.len() && self@[i as int].0 == bssid@,
            r is None ==> !has_key(self@, bssid@),
    {
        let mut i: usize = 0;
        while i < self.entries.len()
            invariant
                i <= self@.len(),
                forall|j: int| 0 <= j < i ==> self@[j].0 != bssid@,
            decreases self.entries.len() - i,
        {
            let k = chars_of(self.entries[i].0.as_str());
            if chars_eq(k.as_slice(), bssid) {
                return Some(i);
            }
            i = i + 1;
        }
        None
    }

    /// Sets the entry of `bssid`, keeping its position if it is already
    /// present and appending it otherwise.
    pub fn insert(&mut self, bssid: String, entry: ScanEntry)
        ensures
            final(self)@ == sample_insert(old(self)@, bssid@, entry@),
    {
        proof {
            use_type_invariant(&*self);
            lemma_key_index(self@, bssid@, 0);
        }
        let k = chars_of(bssid.as_str());
        match self.find(k.as_slice()) {
            Some(i) => {
                let ghost before = self@;
                let ghost bv = bssid@;
                let ghost ev = entry@;
                let mut entries: Vec<(String, ScanEntry)> = Vec::new();
                std::mem::swap(&mut entries, &mut self.entries);
                entries.set(i, (bssid, entry));
                assert(entries@.map_values(|p: (String, ScanEntry)| (p.0@, p.1@)) =~= before.update(i as int, (bv, ev)));
                assert(distinct_keys(before.update(i as int, (bv, ev)))) by {
                    let u = before.update(i as int, (bv, ev));
                    assert forall|a: int, b: int| 0 <= a < u.len() && 0 <= b < u.len() && a != b implies (#[trigger] u[a]).0 != (#[trigger] u[b]).0 by {
                        assert(before[a].0 != before[b].0);
                    }
                }
                std::mem::swap(&mut entries, &mut self.entries);
                assert(self@ =~= before.update(i as int, (bv, ev)));
            },
            None => {
                let ghost before = self@;
                let ghost bv = bssid@;
                let ghost ev = entry@;
                let mut entries: Vec<(String, ScanEntry)> = Vec::new();
                std::mem::swap(&mut entries, &mut self.entries);
                entries.push((bssid, entry));
                assert(entries@.map_values(|p: (String, ScanEntry)| (p.0@, p.1@)) =~= before.push((bv, ev)));
                assert(distinct_keys(before.push((bv, ev)))) by {
                    let u = before.push((bv, ev));
                    assert forall|a: int, b: int| 0 <= a < u.len() && 0 <= b < u.len() && a != b implies (#[trigger] u[a]).0 != (#[trigger] u[b]).0 by {
                        if a < before.len() && b < before.len() {
                            assert(before[a].0 != before[b].0);
                        } else if a < before.len() {
                            assert(u[a] == before[a]);
                        } else {
                            assert(u[b] == before[b]);
                        }
                    }
                }
                std::mem::swap(&mut entries, &mut self.entries);
                assert(self@ =~= before.push((bv, ev)));
            },
        }
    }

    /// Whether `bssid` is in the sample.
    pub fn contains_key(&self, bssid: &str) -> (b: bool)
        ensures
            b == has_key(self@, bssid@),
    {
        let k = chars_of(bssid);
        self.find(k.as_slice()).is_some()
    }

    /// The entry of `bssid`, if present.
    pub fn get(&self, bssid: &str) -> (r: Option<&ScanEntry>)
        ensures
            r matches Some(e) ==> key_index_from(self@, bssid@, 0) >= 0 && self@[key_index_from(self@, bssid@, 0)] == (bssid@, e@),
            r is None ==> key_index_from(self@, bssid@, 0) == -1 && !has_key(self@, bssid@),
            distinct_keys(self@),
    {
        proof {
            use_type_invariant(self);
            lemma_key_index(self@, bssid@, 0);
        }
        let k = chars_of(bssid);
        match self.find(k.as_slice()) {
            Some(i) => {
                proof {
                    if key_index_from(self@, bssid@, 0) != i as int {
                        let j = key_index_from(self@, bssid@, 0);
                        assert(self@[j].0 == bssid@);
                    }
                }
                Some(&self.entries[i].1)
            },
            None => {
                proof {
                    if key_index_from(self@, bssid@, 0) >= 0 {
                        let j = key_index_from(self@, bssid@, 0);
                        assert(self@[j].0 == bssid@);
                    }
                }
                None
            },
        }
    }

    /// The (BSSID, entry) pairs, in insertion order.
    pub fn entries(&self) -> (r: &Vec<(String, ScanEntry)>)
        ensures
            r@.map_values(|p: (String, ScanEntry)| (p.0@, p.1@)) == self@,
            distinct_keys(self@),
    {
        proof {
            use_type_invariant(self);
        }
        &self.entries
    }
}


/// A timestamped scan sample.
#[derive(Debug)]
pub struct TimestampedScan {
    pub sample: ScanSample,
    /// Monotonic time of the scan.
    pub at: std::time::Instant,
    /// Wall-clock UTC time of the scan, in nanoseconds since the Unix epoch
    /// (`None` when the system clock could not be read).
    pub wall_clock_nanos: Option<i128>,
}

/// Abstract state of a debouncer: the ring of samples (oldest first), the
/// wall-clock stamp of each, the window and the threshold.
pub ghost struct DebouncerV {
    pub ring: Seq<SampleV>,
    pub stamps: Seq<Option<i128>>,
    pub window: nat,
    pub threshold: nat,
}

/// Number of samples in `ring` that contain `k`.
pub open spec fn count_in(ring: Seq<SampleV>, k: Seq<char>) -> nat
    decreases ring.len(),
{
    if ring.len() == 0 {
        0
    } else {
        count_in(ring.drop_last(), k) + if has_key(ring.last(), k) {
            1nat
        } else {
            0nat
        }
    }
}

/// `k` occurs in some sample of `ring`.
pub open spec fn seen_in(ring: Seq<SampleV>, k: Seq<char>) -> bool {
    exists|i: int| 0 <= i < ring.len() && has_key(#[trigger] ring[i], k)
}

/// The ring after pushing `s` with window `w`: the oldest sample is dropped
/// first when the ring is full.
pub open spec fn push_ring<A>(ring: Seq<A>, w: nat, s: A) -> Seq<A> {
    if ring.len() >= w && ring.len() > 0 {
        ring.drop_first().push(s)
    } else {
        ring.push(s)
    }
}

/// The ring after pushing each of `ss` in turn.
pub open spec fn push_all<A>(ring: Seq<A>, w: nat, ss: Seq<A>) -> Seq<A>
    decreases ss.len(),
{
    if ss.len() == 0 {
        ring
    } else {
        push_ring(push_all(ring, w, ss.drop_last()), w, ss.last())
    }
}

/// The entry of `k` in the newest sample of `ring`, if any.
pub open spec fn latest_entry_of(ring: Seq<SampleV>, k: Seq<char>) -> Option<EntryV> {
    if ring.len() == 0 {
        None
    } else {
        let i = key_index_from(ring.last(), k, 0);
        if i >= 0 {
            Some(ring.last()[i].1)
        } else {
            None
        }
    }
}

/// The signal of `k` in the newest sample of `ring`, if any.
pub open spec fn latest_signal_of(ring: Seq<SampleV>, k: Seq<char>) -> Option<i32> {
    match latest_entry_of(ring, k) {
        Some(e) => Some(e.0),
        None => None,
    }
}

/// The BSSIDs that are stable in `d`: seen in the ring at least `threshold` times.
pub open spec fn stable_set(d: DebouncerV) -> Set<Seq<char>> {
    Set::new(|k: Seq<char>| seen_in(d.ring, k) && count_in(d.ring, k) >= d.threshold)
}

/// Debounce ring buffer for stable AP detection.
#[derive(Debug)]
pub struct Debouncer {
    ring: Vec<TimestampedScan>,
    window: usize,
    threshold: usize,
}

impl View for Debouncer {
    type V = DebouncerV;

    closed spec fn view(&self) -> DebouncerV {
        DebouncerV {
            ring: self.ring@.map_values(|t: TimestampedScan| t.sample@),
            stamps: self.ring@.map_values(|t: TimestampedScan| t.wall_clock_nanos),
            window: self.window as nat,
            threshold: self.threshold as nat,
        }
    }
}

impl Debouncer {
    #[verifier::type_invariant]
    closed spec fn inv(self) -> bool {
        &&& self.threshold <= self.window
        &&& self.ring@.len() <= self.window || self.ring@.len() <= 1
    }

    /// Create a new debouncer with the given window size and threshold.
    pub fn new(window: usize, threshold: usize) -> (d: Debouncer)
        requires
            threshold <= window,
        ensures
            d@.ring == Seq::<SampleV>::empty(),
            d@.window == window,
            d@.threshold == threshold,
    {
        let d = Debouncer { ring: Vec::new(), window, threshold };
        assert(d@.ring =~= Seq::<SampleV>::empty());
        d
    }

    /// Push a sample taken at `at` (wall clock `wall_clock_nanos`). Drops
    /// the oldest if at capacity.
    pub fn push_scan_at(&mut self, sample: ScanSample, at: std::time::Instant, wall_clock_nanos: Option<i128>)
        ensures
            final(self)@.ring == push_ring(old(self)@.ring, old(self)@.window, sample@),
            final(self)@.stamps == push_ring(old(self)@.stamps, old(self)@.window, wall_clock_nanos),
            final(self)@.window == old(self)@.window,
            final(self)@.threshold == old(self)@.threshold,
            final(self)@.ring.len() <= final(self)@.window || final(self)@.ring.len() <= 1,
    {
        proof {
            use_type_invariant(&*self);
        }
        let ghost r0 = self.ring@;
        let ghost sv = sample@;
        let mut ring: Vec<TimestampedScan> = Vec::new();
        std::mem::swap(&mut ring, &mut self.ring);
        if ring.len() >= self.window && ring.len() > 0 {
            ring.remove(0);
            assert(ring@ =~= r0.drop_first());
        }
        ring.push(TimestampedScan { sample, at, wall_clock_nanos });
        std::mem::swap(&mut ring, &mut self.ring);
        assert(self@.ring =~= push_ring(r0.map_values(|t: TimestampedScan| t.sample@), self.window as nat, sv));
        assert(self@.stamps =~= push_ring(r0.map_values(|t: TimestampedScan| t.wall_clock_nanos), self.window as nat, wall_clock_nanos));
    }

    /// Push a new scan sample into the ring buffer, stamped with the current
    /// time. Drops the oldest if at capacity.
    pub fn push_scan(&mut self, sample: ScanSample)
        ensures
            final(self)@.ring == push_ring(old(self)@.ring, old(self)@.window, sample@),
            exists|w: Option<i128>| (w matches Some(n) ==> 0 <= n <= MAX_UTC_NANOS) && final(self)@.stamps == #[trigger] push_ring(old(self)@.stamps, old(self)@.window, w),
            final(self)@.window == old(self)@.window,
            final(self)@.threshold == old(self)@.threshold,
            final(self)@.ring.len() <= final(self)@.window || final(self)@.ring.len() <= 1,
    {
        let at = instant_now();
        let wall = now_nanos();
        proof {
            use_type_invariant(&*self);
        }
        let ghost st0 = self@.stamps;
        let ghost w0 = self@.window;
        self.push_scan_at(sample, at, wall);
        assert(self@.stamps == push_ring(st0, w0, wall));
    }

    /// Count how many of the last N samples contain this BSSID.
    pub fn count(&self, bssid: &str) -> (n: usize)
        ensures
            n == count_in(self@.ring, bssid@),
    {
        proof {
            use_type_invariant(self);
        }
        let mut n: usize = 0;
        let mut i: usize = 0;
        while i < self.ring.len()
            invariant
                i <= self@.ring.len(),
                n == count_in(self@.ring.take(i as int), bssid@),
                n <= i,
            decreases self.ring.len() - i,
        {
            assert(self@.ring.take(i + 1).drop_last() =~= self@.ring.take(i as int));
            if self.ring[i].sample.contains_key(bssid) {
                n = n + 1;
            }
            i = i + 1;
        }
        assert(self@.ring.take(self@.ring.len() as int) =~= self@.ring);
        n
    }

    /// Check if a specific BSSID is stable (appears in >= threshold samples).
    pub fn is_stable(&self, bssid: &str) -> (b: bool)
        ensures
            b == (count_in(self@.ring, bssid@) >= self@.threshold),
    {
        self.count(bssid) >= self.threshold
    }

    /// Return all currently stable BSSIDs (each once, in order of first
    /// appearance in the ring).
    pub fn stable_bssids(&self) -> (r: Vec<String>)
        ensures
            forall|a: int, b: int| 0 <= a < r@.len() && 0 <= b < r@.len() && a != b ==> (#[trigger] r@[a])@ != (#[trigger] r@[b])@,
            forall|k: Seq<char>| #![trigger stable_set(self@).contains(k)] (exists|a: int| 0 <= a < r@.len() && (#[trigger] r@[a])@ == k) <==> stable_set(self@).contains(k),
            r@.len() == stable_set(self@).len(),
            stable_set(self@).finite(),
    {
        let ghost ring = self@.ring;
        let mut out: Vec<String> = Vec::new();
        let mut out_chars: Vec<Vec<char>> = Vec::new();
        let mut i: usize = 0;
        while i < self.ring.len()
            invariant
                ring == self@.ring,
                i <= ring.len(),
                out@.len() == out_chars@.len(),
                forall|a: int| 0 <= a < out@.len() ==> (#[trigger] out@[a])@ == out_chars@[a]@,
                forall|a: int, b: int| 0 <= a < out@.len() && 0 <= b < out@.len() && a != b ==> (#[trigger] out@[a])@ != (#[trigger] out@[b])@,
                forall|a: int| 0 <= a < out@.len() ==> seen_in(ring, (#[trigger] out@[a])@) && count_in(ring, out@[a]@) >= self@.threshold,
                forall|i2: int, j2: int| 0 <= i2 < i && 0 <= j2 < ring[i2].len() && count_in(ring, (#[trigger] ring[i2][j2]).0) >= self@.threshold
                    ==> exists|a: int| 0 <= a < out@.len() && (#[trigger] out@[a])@ == ring[i2][j2].0,
            decreases self.ring.len() - i,
        {
            let entries = self.ring[i].sample.entries();
            let mut j: usize = 0;
            while j < entries.len()
                invariant
                    ring == self@.ring,
                    i < ring.len(),
                    j <= entries@.len(),
                    entries@.map_values(|p: (String, ScanEntry)| (p.0@, p.1@)) == ring[i as int],
                    out@.len() == out_chars@.len(),
                    forall|a: int| 0 <= a < out@.len() ==> (#[trigger] out@[a])@ == out_chars@[a]@,
                    forall|a: int, b: int| 0 <= a < out@.len() && 0 <= b < out@.len() && a != b ==> (#[trigger] out@[a])@ != (#[trigger] out@[b])@,
                    forall|a: int| 0 <= a < out@.len() ==> seen_in(ring, (#[trigger] out@[a])@) && count_in(ring, out@[a]@) >= self@.threshold,
                    forall|i2: int, j2: int| 0 <= i2 < i && 0 <= j2 < ring[i2].len() && count_in(ring, (#[trigger] ring[i2][j2]).0) >= self@.threshold
                        ==> exists|a: int| 0 <= a < out@.len() && (#[trigger] out@[a])@ == ring[i2][j2].0,
                    forall|j2: int| 0 <= j2 < j && count_in(ring, (#[trigger] ring[i as int][j2]).0) >= self@.threshold
                        ==> exists|a: int| 0 <= a < out@.len() && (#[trigger] out@[a])@ == ring[i as int][j2].0,
                decreases entries.len() - j,
            {
                let key = &entries[j].0;
                let ghost old_out = out@;
                assert(key@ == ring[i as int][j as int].0);
                let c = self.count(key.as_str());
                if c >= self.threshold {
                    let kc = chars_of(key.as_str());
                    let mut present = false;
                    let mut a: usize = 0;
                    while a < out_chars.len()
                        invariant
                            a <= out_chars@.len(),
                            out@.len() == out_chars@.len(),
                            forall|x: int| 0 <= x < out@.len() ==> (#[trigger] out@[x])@ == out_chars@[x]@,
                            kc@ == key@,
                            present ==> exists|x: int| 0 <= x < out@.len() && (#[trigger] out@[x])@ == kc@,
                            !present ==> forall|x: int| 0 <= x < a ==> (#[trigger] out@[x])@ != kc@,
                        decreases out_chars.len() - a,
                    {
                        if chars_eq(out_chars[a].as_slice(), kc.as_slice()) {
                            assert(out@[a as int]@ == kc@);
                            present = true;
                        }
                        a = a + 1;
                    }
                    if !present {
                        assert(has_key(ring[i as int], key@));
                        assert(seen_in(ring, key@));
                        out.push(key.clone());
                        out_chars.push(kc);
                    }
                }
                proof {
                    assert forall|x: int| 0 <= x < old_out.len() implies out@[x] == old_out[x] by {}
                    assert forall|i2: int, j2: int| 0 <= i2 < i && 0 <= j2 < ring[i2].len() && count_in(ring, (#[trigger] ring[i2][j2]).0) >= self@.threshold
                        implies exists|a: int| 0 <= a < out@.len() && (#[trigger] out@[a])@ == ring[i2][j2].0 by {
                        let a = choose|a: int| 0 <= a < old_out.len() && (#[trigger] old_out[a])@ == ring[i2][j2].0;
                        assert(out@[a]@ == ring[i2][j2].0);
                    }
                    assert forall|j2: int| 0 <= j2 < j + 1 && count_in(ring, (#[trigger] ring[i as int][j2]).0) >= self@.threshold
                        implies exists|a: int| 0 <= a < out@.len() && (#[trigger] out@[a])@ == ring[i as int][j2].0 by {
                        if j2 < j {
                            let a = choose|a: int| 0 <= a < old_out.len() && (#[trigger] old_out[a])@ == ring[i as int][j2].0;
                            assert(out@[a]@ == ring[i as int][j2].0);
                        } else {
                            if out@.len() > old_out.len() {
                                assert(out@[old_out.len() as int]@ == ring[i as int][j2].0);
                            } else {
                                let x = choose|x: int| 0 <= x < out@.len() && (#[trigger] out@[x])@ == key@;
                                assert(out@[x]@ == ring[i as int][j2].0);
                            }
                        }
                    }
                }
                j = j + 1;
            }
            i = i + 1;
        }
        proof {
            assert forall|k: Seq<char>| (seen_in(ring, k) && count_in(ring, k) >= self@.threshold) implies (exists|a: int|
                0 <= a < out@.len() && (#[trigger] out@[a])@ == k) by {
                let i2 = choose|i2: int| 0 <= i2 < ring.len() && has_key(#[trigger] ring[i2], k);
                let j2 = choose|j2: int| 0 <= j2 < ring[i2].len() && (#[trigger] ring[i2][j2]).0 == k;
                assert(count_in(ring, ring[i2][j2].0) >= self@.threshold);
            }
            let sv = out@.map_values(|x: String| x@);
            assert(sv.no_duplicates()) by {
                assert forall|a: int, b: int| 0 <= a < sv.len() && 0 <= b < sv.len() && a != b implies sv[a] != sv[b] by {
                    assert(out@[a]@ != out@[b]@);
                }
            }
            assert(sv.to_set() =~= stable_set(self@)) by {
                assert forall|k: Seq<char>| sv.to_set().contains(k) <==> stable_set(self@).contains(k) by {
                    if sv.to_set().contains(k) {
                        let a = choose|a: int| 0 <= a < sv.len() && sv[a] == k;
                        assert(out@[a]@ == k);
                    }
                    if stable_set(self@).contains(k) {
                        let a = choose|a: int| 0 <= a < out@.len() && (#[trigger] out@[a])@ == k;
                        assert(sv[a] == k);
                    }
                }
            }
            sv.unique_seq_to_set();
            vstd::seq_lib::seq_to_set_is_finite(sv);
        }
        out
    }

    /// Get the threshold needed for stability.
    pub fn threshold(&self) -> (t: usize)
        ensures
            t == self@.threshold,
    {
        self.threshold
    }

    /// How many samples are currently in the ring buffer.
    pub fn sample_count(&self) -> (n: usize)
        ensures
            n == self@.ring.len(),
    {
        self.ring.len()
    }

    /// Get the most recent scan sample.
    pub fn latest_scan(&self) -> (r: Option<&ScanSample>)
        ensures
            self@.ring.len() == 0 ==> r is None,
            self@.ring.len() > 0 ==> (r matches Some(s) && s@ == self@.ring.last()),
            self@.ring.len() > 0 ==> distinct_keys(self@.ring.last()),
    {
        if self.ring.len() == 0 {
            None
        } else {
            let t = &self.ring[self.ring.len() - 1].sample;
            proof {
                use_type_invariant(t);
            }
            Some(t)
        }
    }

    /// Get the signal reading for a BSSID from the most recent scan only.
    /// Returns None if the BSSID was not in the latest scan.
    pub fn latest_signal(&self, bssid: &str) -> (r: Option<i32>)
        ensures
            r == latest_signal_of(self@.ring, bssid@),
    {
        match self.latest_entry(bssid) {
            Some(e) => Some(e.signal_dbm),
            None => None,
        }
    }

    /// Get the full scan entry for a BSSID from the most recent scan.
    pub fn latest_entry(&self, bssid: &str) -> (r: Option<&ScanEntry>)
        ensures
            r matches Some(e) ==> latest_entry_of(self@.ring, bssid@) == Some(e@),
            r is None ==> latest_entry_of(self@.ring, bssid@) is None,
    {
        match self.latest_scan() {
            Some(s) => s.get(bssid),
            None => None,
        }
    }

    /// Age of the most recent scan in milliseconds. None if no scans yet.
    pub fn latest_scan_age_ms(&self) -> (r: Option<u64>)
        ensures
            r is Some <==> self@.ring.len() > 0,
    {
        if self.ring.len() == 0 {
            None
        } else {
            Some(elapsed_ms(&self.ring[self.ring.len() - 1].at))
        }
    }

    /// Wall-clock UTC time of the most recent scan, in nanoseconds since the
    /// Unix epoch (`None` without a scan, or when its time was not read).
    pub fn latest_scan_time(&self) -> (r: Option<i128>)
        ensures
            self@.ring.len() == 0 ==> r is None,
            self@.ring.len() > 0 ==> r == self@.stamps.last(),
    {
        if self.ring.len() == 0 {
            None
        } else {
            self.ring[self.ring.len() - 1].wall_clock_nanos
        }
    }
}


/// The ring after a series of pushes is the newest `w` samples of the old
/// ring followed by the pushed ones.
pub proof fn lemma_push_all_window<A>(ring: Seq<A>, w: nat, ss: Seq<A>)
    requires
        w >= 1,
        ring.len() <= w,
    ensures
        push_all(ring, w, ss) == (ring + ss).skip(
            if ring.len() + ss.len() > w { ring.len() + ss.len() - w } else { 0 },
        ),
    decreases ss.len(),
{
    if ss.len() > 0 {
        lemma_push_all_window(ring, w, ss.drop_last());
        let prev = push_all(ring, w, ss.drop_last());
        let d0 = if ring.len() + ss.len() - 1 > w { ring.len() + ss.len() - 1 - w } else { 0 };
        let d1 = if ring.len() + ss.len() > w { ring.len() + ss.len() - w } else { 0 };
        assert(prev =~= (ring + ss.drop_last()).skip(d0));
        if prev.len() >= w && prev.len() > 0 {
            assert(push_ring(prev, w, ss.last()) =~= (ring + ss).skip(d1));
        } else {
            assert(push_ring(prev, w, ss.last()) =~= (ring + ss).skip(d1));
        }
    }
}

/// Law: pushing a full window of samples replaces the whole ring.
pub proof fn lemma_window_forgets<A>(ring: Seq<A>, w: nat, ss: Seq<A>)
    requires
        w >= 1,
        ring.len() <= w,
        ss.len() == w,
    ensures
        push_all(ring, w, ss) == ss,
{
    lemma_push_all_window(ring, w, ss);
    assert((ring + ss).skip(ring.len() as int) =~= ss);
}

/// Law: up to a full window, pushes into an empty ring keep every sample.
pub proof fn lemma_fresh_ring_keeps_all<A>(w: nat, ss: Seq<A>)
    requires
        w >= 1,
        ss.len() <= w,
    ensures
        push_all(Seq::<A>::empty(), w, ss) == ss,
{
    lemma_push_all_window(Seq::<A>::empty(), w, ss);
    assert((Seq::<A>::empty() + ss).skip(0) =~= ss);
}

/// A BSSID occurs in at most as many samples as there are.
pub proof fn lemma_count_bounds(ring: Seq<SampleV>, k: Seq<char>)
    ensures
        count_in(ring, k) <= ring.len(),
        (forall|i: int| 0 <= i < ring.len() ==> has_key(#[trigger] ring[i], k)) ==> count_in(ring, k) == ring.len(),
        (forall|i: int| 0 <= i < ring.len() ==> !has_key(#[trigger] ring[i], k)) ==> count_in(ring, k) == 0,
    decreases ring.len(),
{
    if ring.len() > 0 {
        lemma_count_bounds(ring.drop_last(), k);
        assert(ring.last() == ring[ring.len() - 1]);
        assert(forall|i: int| 0 <= i < ring.drop_last().len() ==> ring.drop_last()[i] == ring[i]);
    }
}

/// Law (threshold contract): starting from an empty debouncer with
/// `threshold <= window`, after fewer than `threshold` scans no BSSID is
/// stable, and after exactly `threshold` scans every BSSID present in all of
/// them is stable.
pub proof fn lemma_threshold_contract(window: nat, threshold: nat, ss: Seq<SampleV>, k: Seq<char>)
    requires
        1 <= threshold <= window,
        ss.len() <= threshold,
    ensures
        ss.len() < threshold ==> count_in(push_all(Seq::<SampleV>::empty(), window, ss), k) < threshold,
        ss.len() == threshold && (forall|i: int| 0 <= i < ss.len() ==> has_key(#[trigger] ss[i], k))
            ==> count_in(push_all(Seq::<SampleV>::empty(), window, ss), k) >= threshold,
{
    lemma_fresh_ring_keeps_all(window, ss);
    lemma_count_bounds(ss, k);
}

/// The newest `w` of `ss` (all of them when there are fewer).
pub open spec fn newest<A>(ss: Seq<A>, w: nat) -> Seq<A> {
    ss.skip(if ss.len() > w { ss.len() - w } else { 0 })
}

/// Law (stable set): a debouncer made with window `w` and threshold
/// `1 <= t <= w`, after the scans `ss`, holds as stable exactly the BSSIDs
/// found in at least `t` of the newest `w` scans.
pub proof fn lemma_stable_after_scans(w: nat, t: nat, ss: Seq<SampleV>, stamps: Seq<Option<i128>>, k: Seq<char>)
    requires
        1 <= t <= w,
    ensures
        stable_set(DebouncerV { ring: push_all(Seq::<SampleV>::empty(), w, ss), stamps, window: w, threshold: t }).contains(k)
            <==> count_in(newest(ss, w), k) >= t,
{
    lemma_push_all_window(Seq::<SampleV>::empty(), w, ss);
    assert(Seq::<SampleV>::empty() + ss =~= ss);
    let ring = push_all(Seq::<SampleV>::empty(), w, ss);
    assert(ring == newest(ss, w));
    lemma_count_bounds(ring, k);
    if count_in(ring, k) >= t {
        if !seen_in(ring, k) {
            assert(forall|i: int| 0 <= i < ring.len() ==> !has_key(#[trigger] ring[i], k));
        }
    }
}

/// Law (forgetting): after a full window of scans that lack a BSSID, that
/// BSSID occurs in no sample and so is not stable for any positive threshold.
pub proof fn lemma_absent_window_forgets(ring: Seq<SampleV>, window: nat, ss: Seq<SampleV>, k: Seq<char>)
    requires
        window >= 1,
        ring.len() <= window,
        ss.len() == window,
        forall|i: int| 0 <= i < ss.len() ==> !has_key(#[trigger] ss[i], k),
    ensures
        count_in(push_all(ring, window, ss), k) == 0,
        !seen_in(push_all(ring, window, ss), k),
{
    lemma_window_forgets(ring, window, ss);
    lemma_count_bounds(ss, k);
}

} // verus!
