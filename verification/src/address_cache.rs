//! In-memory cache mapping a rounded (lat, lon) grid cell to its
//! reverse-geocoded address.
//!
//! Bounded: when full, the entry inserted first is evicted (insertion
//! order, not LRU; reads do not promote). Entries expire after a TTL in
//! days, checked on read, so expired entries report as misses.

use vstd::prelude::*;
use crate::clock::{now_nanos, MAX_UTC_NANOS, MIN_UTC_NANOS, NANOS_PER_DAY};

verus! {

/// Capacity of the cache.
pub const ADDRESS_CACHE_CAP: usize = 256;

/// Default TTL for an entry, in days.
pub const ADDRESS_CACHE_TTL_DAYS_DEFAULT: i64 = 7;

/// A grid cell: latitude and longitude in units of 1e-4 degree.
pub type CellKey = (i32, i32);

/// Abstract entry: cell, address, insertion time (ns since the epoch).
pub type CacheEntryV = (CellKey, Seq<char>, i128);

#[derive(Debug)]
struct AddressCacheEntry {
    key: CellKey,
    address: String,
    inserted_nanos: i128,
}

/// Tiny bounded cache mapping grid cells to resolved addresses.
#[derive(Debug)]
pub struct AddressCache {
    entries: Vec<AddressCacheEntry>,
    ttl_days: i64,
}

/// Index of the entry for `key` in `s`, or -1.
pub open spec fn cell_index(s: Seq<CacheEntryV>, key: CellKey) -> int
    decreases s.len(),
{
    if s.len() == 0 {
        -1
    } else if s.last().0 == key {
        s.len() - 1
    } else {
        cell_index(s.drop_last(), key)
    }
}

/// Whole days between `then` and `now` (ns), rounded toward zero.
pub open spec fn age_days(now: int, then: int) -> int {
    let d = now - then;
    if d >= 0 {
        d / (NANOS_PER_DAY as int)
    } else {
        -((-d) / (NANOS_PER_DAY as int))
    }
}

/// What a read of `key` at time `now` gives: the address when the cell is
/// present and younger than `ttl` days.
pub open spec fn cache_lookup(s: Seq<CacheEntryV>, ttl: int, key: CellKey, now: int) -> Option<Seq<char>> {
    let i = cell_index(s, key);
    if i < 0 {
        None
    } else if age_days(now, s[i].2 as int) >= ttl {
        None
    } else {
        Some(s[i].1)
    }
}

/// The entries after inserting `addr` for `key` at time `now`: a present
/// cell gets the new address and time in place; a new cell goes last, and
/// the first (oldest) entry is evicted when that exceeds the capacity.
pub open spec fn cache_store(s: Seq<CacheEntryV>, key: CellKey, addr: Seq<char>, now: i128) -> Seq<CacheEntryV> {
    let i = cell_index(s, key);
    if i >= 0 {
        s.update(i, (key, addr, now))
    } else if s.len() + 1 > ADDRESS_CACHE_CAP {
        s.push((key, addr, now)).drop_first()
    } else {
        s.push((key, addr, now))
    }
}

/// No cell occurs twice.
pub open spec fn cells_distinct(s: Seq<CacheEntryV>) -> bool {
    forall|a: int, b: int| 0 <= a < s.len() && 0 <= b < s.len() && a != b ==> (#[trigger] s[a]).0 != (#[trigger] s[b]).0
}

proof fn lemma_cell_index(s: Seq<CacheEntryV>, key: CellKey)
    ensures
        -1 <= cell_index(s, key) < s.len(),
        cell_index(s, key) >= 0 ==> s[cell_index(s, key)].0 == key,
        cell_index(s, key) < 0 ==> forall|j: int| 0 <= j < s.len() ==> (#[trigger] s[j]).0 != key,
    decreases s.len(),
{
    if s.len() > 0 && s.last().0 != key {
        lemma_cell_index(s.drop_last(), key);
        assert forall|j: int| 0 <= j < s.len() - 1 implies s[j] == s.drop_last()[j] by {}
    }
}

proof fn lemma_cell_index_unique(s: Seq<CacheEntryV>, key: CellKey, j: int)
    requires
        cells_distinct(s),
        0 <= j < s.len(),
        s[j].0 == key,
    ensures
        cell_index(s, key) == j,
{
    lemma_cell_index(s, key);
}

impl View for AddressCache {
    type V = (Seq<CacheEntryV>, int);

    closed spec fn view(&self) -> (Seq<CacheEntryV>, int) {
        (
            self.entries@.map_values(|e: AddressCacheEntry| (e.key, e.address@, e.inserted_nanos)),
            self.ttl_days as int,
        )
    }
}

impl AddressCache {
    #[verifier::type_invariant]
    closed spec fn inv(self) -> bool {
        &&& self@.0.len() <= ADDRESS_CACHE_CAP
        &&& cells_distinct(self@.0)
        &&& forall|i: int| 0 <= i < self@.0.len() ==> MIN_UTC_NANOS <= (#[trigger] self@.0[i]).2 <= MAX_UTC_NANOS
    }

    /// Create an address cache with the default TTL.
    pub fn new() -> (c: AddressCache)
        ensures
            c@.0 == Seq::<CacheEntryV>::empty(),
            c@.1 == ADDRESS_CACHE_TTL_DAYS_DEFAULT,
    {
        AddressCache::with_ttl_days(ADDRESS_CACHE_TTL_DAYS_DEFAULT)
    }

    /// Create an empty address cache whose entries expire after `ttl_days`.
    pub fn with_ttl_days(ttl_days: i64) -> (c: AddressCache)
        ensures
            c@.0 == Seq::<CacheEntryV>::empty(),
            c@.1 == ttl_days,
    {
        let c = AddressCache { entries: Vec::new(), ttl_days };
        assert(c@.0 =~= Seq::<CacheEntryV>::empty());
        c
    }

    /// Number of cached cells.
    pub fn len(&self) -> (n: usize)
        ensures
            n == self@.0.len(),
            n <= ADDRESS_CACHE_CAP,
    {
        proof {
            use_type_invariant(self);
        }
        self.entries.len()
    }

    fn find(&self, key: CellKey) -> (r: Option<usize>)
        ensures
            r matches Some(i) ==> i == cell_index(self@.0, key) && i < self@.0.len(),
            r is None ==> cell_index(self@.0, key) < 0,
            -1 <= cell_index(self@.0, key) < self@.0.len(),
    {
        proof {
            use_type_invariant(self);
            lemma_cell_index(self@.0, key);
        }
        let mut i: usize = 0;
        while i < self.entries.len()
            invariant
                i <= self@.0.len(),
                cells_distinct(self@.0),
                forall|j: int| 0 <= j < i ==> (#[trigger] self@.0[j]).0 != key,
            decreases self.entries.len() - i,
        {
            assert(self@.0[i as int].0 == self.entries@[i as int].key);
            if self.entries[i].key.0 == key.0 && self.entries[i].key.1 == key.1 {
                proof {
                    lemma_cell_index_unique(self@.0, key, i as int);
                }
                return Some(i);
            }
            i = i + 1;
        }
        proof {
            if cell_index(self@.0, key) >= 0 {
                let k = cell_index(self@.0, key);
                assert(self@.0[k].0 == key);
            }
        }
        None
    }

    /// The address cached for `key`, read at time `now_nanos`.
    pub fn get_at(&self, key: CellKey, now_nanos: i128) -> (r: Option<String>)
        requires
            MIN_UTC_NANOS <= now_nanos <= MAX_UTC_NANOS,
        ensures
            opt_seq(r) == cache_lookup(self@.0, self@.1, key, now_nanos as int),
    {
        match self.find(key) {
            None => None,
            Some(i) => {
                proof {
                    use_type_invariant(self);
                }
                let e = &self.entries[i];
                assert(self@.0[i as int] == (e.key, e.address@, e.inserted_nanos));
                let d: i128 = now_nanos - e.inserted_nanos;
                let days: i128 = if d >= 0 {
                    d / (NANOS_PER_DAY as i128)
                } else {
                    0 - ((0 - d) / (NANOS_PER_DAY as i128))
                };
                if days >= self.ttl_days as i128 {
                    None
                } else {
                    Some(e.address.clone())
                }
            },
        }
    }

    /// The address cached for `key`, unless absent or expired (read at the
    /// current time; `None` when the system clock cannot be read).
    pub fn get(&self, key: CellKey) -> (r: Option<String>)
        ensures
            r is None || exists|now: i128| 0 <= now <= MAX_UTC_NANOS && opt_seq(r) == #[trigger] cache_lookup(self@.0, self@.1, key, now as int),
            cell_index(self@.0, key) < 0 ==> r is None,
    {
        match now_nanos() {
            Some(now) => {
                let r = self.get_at(key, now);
                assert(opt_seq(r) == cache_lookup(self@.0, self@.1, key, now as int));
                r
            },
            None => None,
        }
    }

    /// Caches `addr` for `key`, stamped `now_nanos`.
    pub fn insert_at(&mut self, key: CellKey, addr: String, now_nanos: i128)
        requires
            MIN_UTC_NANOS <= now_nanos <= MAX_UTC_NANOS,
        ensures
            final(self)@.0 == cache_store(old(self)@.0, key, addr@, now_nanos),
            final(self)@.1 == old(self)@.1,
            final(self)@.0.len() <= ADDRESS_CACHE_CAP,
    {
        proof {
            use_type_invariant(&*self);
        }
        let ghost s = self@.0;
        let ghost av = addr@;
        let found = self.find(key);
        let mut entries: Vec<AddressCacheEntry> = Vec::new();
        std::mem::swap(&mut entries, &mut self.entries);
        match found {
            Some(i) => {
                entries.set(i, AddressCacheEntry { key, address: addr, inserted_nanos: now_nanos });
                proof {
                    lemma_cell_index(s, key);
                    let u = s.update(i as int, (key, av, now_nanos));
                    assert(entries@.map_values(|e: AddressCacheEntry| (e.key, e.address@, e.inserted_nanos)) =~= u);
                    assert forall|a: int, b: int| 0 <= a < u.len() && 0 <= b < u.len() && a != b implies (#[trigger] u[a]).0 != (#[trigger] u[b]).0 by {
                        assert(s[a].0 != s[b].0);
                    }
                }
            },
            None => {
                entries.push(AddressCacheEntry { key, address: addr, inserted_nanos: now_nanos });
                proof {
                    let u = s.push((key, av, now_nanos));
                    lemma_cell_index(s, key);
                    assert(entries@.map_values(|e: AddressCacheEntry| (e.key, e.address@, e.inserted_nanos)) =~= u);
                    assert forall|a: int, b: int| 0 <= a < u.len() && 0 <= b < u.len() && a != b implies (#[trigger] u[a]).0 != (#[trigger] u[b]).0 by {
                        if a < s.len() && b < s.len() {
                            assert(s[a].0 != s[b].0);
                        } else if a < s.len() {
                            assert(u[a] == s[a]);
                        } else {
                            assert(u[b] == s[b]);
                        }
                    }
                }
                if entries.len() > ADDRESS_CACHE_CAP {
                    let ghost before = entries@.map_values(|e: AddressCacheEntry| (e.key, e.address@, e.inserted_nanos));
                    entries.remove(0);
                    proof {
                        assert(entries@.map_values(|e: AddressCacheEntry| (e.key, e.address@, e.inserted_nanos)) =~= before.drop_first());
                        assert forall|a: int, b: int| 0 <= a < before.len() - 1 && 0 <= b < before.len() - 1 && a != b implies (#[trigger] before.drop_first()[a]).0 != (#[trigger] before.drop_first()[b]).0 by {
                            assert(before[a + 1].0 != before[b + 1].0);
                        }
                    }
                }
            },
        }
        std::mem::swap(&mut entries, &mut self.entries);
    }

    /// Caches `addr` for `key`, stamped with the current time; nothing is
    /// cached when the system clock cannot be read.
    pub fn insert(&mut self, key: CellKey, addr: String)
        ensures
            final(self)@.0 == old(self)@.0 || exists|now: i128| 0 <= now <= MAX_UTC_NANOS && final(self)@.0 == #[trigger] cache_store(old(self)@.0, key, addr@, now),
            final(self)@.1 == old(self)@.1,
            final(self)@.0.len() <= ADDRESS_CACHE_CAP,
    {
        proof {
            use_type_invariant(&*self);
        }
        match now_nanos() {
            Some(now) => {
                let ghost av = addr@;
                let ghost s0 = self@.0;
                self.insert_at(key, addr, now);
                assert(self@.0 == cache_store(s0, key, av, now));
            },
            None => {},
        }
    }
}

/// The characters of an optional string.
pub open spec fn opt_seq(o: Option<String>) -> Option<Seq<char>> {
    match o {
        Some(s) => Some(s@),
        None => None,
    }
}

/// Storing `addr` for `key` at `now` leaves distinct cells, with `key`'s
/// entry holding `addr` and `now`.
proof fn lemma_store_finds(s: Seq<CacheEntryV>, key: CellKey, addr: Seq<char>, now: i128)
    requires
        cells_distinct(s),
        s.len() <= ADDRESS_CACHE_CAP,
    ensures
        cache_store(s, key, addr, now).len() <= ADDRESS_CACHE_CAP,
        cells_distinct(cache_store(s, key, addr, now)),
        cell_index(cache_store(s, key, addr, now), key) >= 0,
        cache_store(s, key, addr, now)[cell_index(cache_store(s, key, addr, now), key)] == (key, addr, now),
{
    lemma_cell_index(s, key);
    let t = cache_store(s, key, addr, now);
    if cell_index(s, key) >= 0 {
        let i = cell_index(s, key);
        assert forall|a: int, b: int| 0 <= a < t.len() && 0 <= b < t.len() && a != b implies (#[trigger] t[a]).0 != (#[trigger] t[b]).0 by {
            assert(s[a].0 != s[b].0);
        }
        lemma_cell_index_unique(t, key, i);
    } else {
        let p = s.push((key, addr, now));
        assert forall|a: int, b: int| 0 <= a < p.len() && 0 <= b < p.len() && a != b implies (#[trigger] p[a]).0 != (#[trigger] p[b]).0 by {
            if a < s.len() && b < s.len() {
                assert(s[a].0 != s[b].0);
            } else if a < s.len() {
                assert(p[a] == s[a]);
            } else {
                assert(p[b] == s[b]);
            }
        }
        if s.len() + 1 > ADDRESS_CACHE_CAP {
            assert forall|a: int, b: int| 0 <= a < t.len() && 0 <= b < t.len() && a != b implies (#[trigger] t[a]).0 != (#[trigger] t[b]).0 by {
                assert(p[a + 1].0 != p[b + 1].0);
            }
            lemma_cell_index_unique(t, key, t.len() - 1);
        } else {
            lemma_cell_index_unique(t, key, t.len() - 1);
        }
    }
}

/// A read right after an insert of the same cell, at the same time, gives
/// the inserted address when the TTL is positive.
pub proof fn lemma_read_after_insert(s: Seq<CacheEntryV>, ttl: int, key: CellKey, addr: Seq<char>, now: i128)
    requires
        cells_distinct(s),
        s.len() <= ADDRESS_CACHE_CAP,
    ensures
        cache_lookup(cache_store(s, key, addr, now), ttl, key, now as int) == (if ttl > 0 {
            Some(addr)
        } else {
            None::<Seq<char>>
        }),
{
    lemma_store_finds(s, key, addr, now);
}

/// Law (read after insert, across time): right after `addr` is stored for
/// `key` at `then`, a read of `key` at `now` gives `addr` exactly when fewer
/// than `ttl` whole days lie between the two.
pub proof fn lemma_read_after_insert_later(s: Seq<CacheEntryV>, ttl: int, key: CellKey, addr: Seq<char>, then: i128, now: int)
    requires
        cells_distinct(s),
        s.len() <= ADDRESS_CACHE_CAP,
    ensures
        cache_lookup(cache_store(s, key, addr, then), ttl, key, now) == (if age_days(now, then as int) < ttl {
            Some(addr)
        } else {
            None::<Seq<char>>
        }),
{
    lemma_store_finds(s, key, addr, then);
}

/// With a TTL of zero or less every read is a miss, as long as the clock
/// has not gone back since the entry was stored.
pub proof fn lemma_zero_ttl_misses(s: Seq<CacheEntryV>, ttl: int, key: CellKey, now: int)
    requires
        ttl <= 0,
        cell_index(s, key) >= 0 ==> now >= s[cell_index(s, key)].2,
    ensures
        cache_lookup(s, ttl, key, now) is None,
{
}

/// An entry older than the TTL reads as a miss.
pub proof fn lemma_expired_misses(s: Seq<CacheEntryV>, ttl: int, key: CellKey, now: int)
    requires
        cell_index(s, key) >= 0,
        ttl >= 0,
        now - s[cell_index(s, key)].2 >= ttl * NANOS_PER_DAY,
    ensures
        cache_lookup(s, ttl, key, now) is None,
{
    let d = now - s[cell_index(s, key)].2;
    assert(d / (NANOS_PER_DAY as int) >= ttl) by (nonlinear_arith)
        requires
            d >= ttl * (NANOS_PER_DAY as int),
            ttl >= 0,
            NANOS_PER_DAY as int > 0,
    ;
}

/// The cache never holds more than its capacity, and a cell that was
/// present stays present (with its address) unless it is the one written;
/// it moves at most one place toward eviction, counting the free places.
pub proof fn lemma_store_bounded(s: Seq<CacheEntryV>, key: CellKey, addr: Seq<char>, now: i128, other: CellKey)
    requires
        s.len() <= ADDRESS_CACHE_CAP,
        cells_distinct(s),
        other != key,
        cell_index(s, other) >= 0,
        cell_index(s, key) >= 0 || s.len() < ADDRESS_CACHE_CAP || cell_index(s, other) > 0,
    ensures
        cache_store(s, key, addr, now).len() <= ADDRESS_CACHE_CAP,
        cells_distinct(cache_store(s, key, addr, now)),
        cell_index(cache_store(s, key, addr, now), other) >= 0,
        cache_store(s, key, addr, now)[cell_index(cache_store(s, key, addr, now), other)] == s[cell_index(s, other)],
        cell_index(cache_store(s, key, addr, now), other) + (ADDRESS_CACHE_CAP - cache_store(s, key, addr, now).len())
            >= cell_index(s, other) + (ADDRESS_CACHE_CAP - s.len()) - 1,
{
    lemma_cell_index(s, key);
    lemma_cell_index(s, other);
    let t = cache_store(s, key, addr, now);
    let j = cell_index(s, other);
    if cell_index(s, key) >= 0 {
        assert forall|a: int, b: int| 0 <= a < t.len() && 0 <= b < t.len() && a != b implies (#[trigger] t[a]).0 != (#[trigger] t[b]).0 by {
            assert(s[a].0 != s[b].0);
        }
        lemma_cell_index_unique(t, other, j);
    } else {
        let p = s.push((key, addr, now));
        assert forall|a: int, b: int| 0 <= a < p.len() && 0 <= b < p.len() && a != b implies (#[trigger] p[a]).0 != (#[trigger] p[b]).0 by {
            if a < s.len() && b < s.len() {
                assert(s[a].0 != s[b].0);
            } else if a < s.len() {
                assert(p[a] == s[a]);
            } else {
                assert(p[b] == s[b]);
            }
        }
        if s.len() + 1 > ADDRESS_CACHE_CAP {
            assert forall|a: int, b: int| 0 <= a < t.len() && 0 <= b < t.len() && a != b implies (#[trigger] t[a]).0 != (#[trigger] t[b]).0 by {
                assert(p[a + 1].0 != p[b + 1].0);
            }
            assert(t[j - 1] == s[j]);
            lemma_cell_index_unique(t, other, j - 1);
        } else {
            assert(t[j] == s[j]);
            lemma_cell_index_unique(t, other, j);
        }
    }
}

/// The entries after storing each `(key, address, time)` of `ops` in turn.
pub open spec fn store_all(s: Seq<CacheEntryV>, ops: Seq<CacheEntryV>) -> Seq<CacheEntryV>
    decreases ops.len(),
{
    if ops.len() == 0 {
        s
    } else {
        let op = ops.last();
        cache_store(store_all(s, ops.drop_last()), op.0, op.1, op.2)
    }
}

/// Writes of other cells keep `key`'s entry, as long as there are no more
/// of them than the places `key` has before eviction.
proof fn lemma_store_all_keeps(t: Seq<CacheEntryV>, key: CellKey, ops: Seq<CacheEntryV>)
    requires
        t.len() <= ADDRESS_CACHE_CAP,
        cells_distinct(t),
        cell_index(t, key) >= 0,
        forall|j: int| 0 <= j < ops.len() ==> (#[trigger] ops[j]).0 != key,
        ops.len() <= cell_index(t, key) + (ADDRESS_CACHE_CAP - t.len()),
    ensures
        store_all(t, ops).len() <= ADDRESS_CACHE_CAP,
        cells_distinct(store_all(t, ops)),
        cell_index(store_all(t, ops), key) >= 0,
        store_all(t, ops)[cell_index(store_all(t, ops), key)] == t[cell_index(t, key)],
        cell_index(store_all(t, ops), key) + (ADDRESS_CACHE_CAP - store_all(t, ops).len())
            >= cell_index(t, key) + (ADDRESS_CACHE_CAP - t.len()) - ops.len(),
    decreases ops.len(),
{
    if ops.len() > 0 {
        let rest = ops.drop_last();
        assert forall|j: int| 0 <= j < rest.len() implies (#[trigger] rest[j]).0 != key by {
            assert(rest[j] == ops[j]);
        }
        lemma_store_all_keeps(t, key, rest);
        let u = store_all(t, rest);
        let op = ops.last();
        assert(op == ops[ops.len() - 1]);
        lemma_store_bounded(u, op.0, op.1, op.2, key);
    }
}

/// Law (read after insert, across time and later writes): after `addr` is
/// stored at `then` for a cell the cache did not hold, and fewer than
/// `ADDRESS_CACHE_CAP` writes of other cells follow, a read of the cell at
/// `now` gives `addr` exactly when fewer than `ttl` whole days lie between
/// `then` and `now`.
pub proof fn lemma_read_after_later_inserts(
    s: Seq<CacheEntryV>,
    ttl: int,
    key: CellKey,
    addr: Seq<char>,
    then: i128,
    ops: Seq<CacheEntryV>,
    now: int,
)
    requires
        cells_distinct(s),
        s.len() <= ADDRESS_CACHE_CAP,
        cell_index(s, key) < 0,
        ops.len() < ADDRESS_CACHE_CAP,
        forall|j: int| 0 <= j < ops.len() ==> (#[trigger] ops[j]).0 != key,
    ensures
        cache_lookup(store_all(cache_store(s, key, addr, then), ops), ttl, key, now) == (if age_days(now, then as int) < ttl {
            Some(addr)
        } else {
            None::<Seq<char>>
        }),
{
    lemma_store_finds(s, key, addr, then);
    let t = cache_store(s, key, addr, then);
    assert(cell_index(t, key) == t.len() - 1) by {
        lemma_cell_index_unique(t, key, t.len() - 1);
    }
    lemma_store_all_keeps(t, key, ops);
}

} // verus!
