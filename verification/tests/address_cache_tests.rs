use whereami::address_cache::{AddressCache, ADDRESS_CACHE_CAP};

const DAY: i128 = 86_400_000_000_000;
const T0: i128 = 1_777_593_600 * 1_000_000_000;

fn key(lat_e4: i32, lon_e4: i32) -> (i32, i32) {
    (lat_e4, lon_e4)
}

fn get_insert_and_eviction() {
    let mut cache = AddressCache::new();
    assert!(cache.get(key(0, 0)).is_none());

    cache.insert(key(556_684, 125_541), "Copenhagen".to_string());
    assert_eq!(cache.get(key(556_684, 125_541)).as_deref(), Some("Copenhagen"));

    // Fill past capacity and verify size stays bounded.
    for i in 0..(ADDRESS_CACHE_CAP as i32 + 50) {
        // shift each insertion into a distinct grid cell
        cache.insert(key(600_000 + 10 * i, 120_000), format!("addr-{i}"));
    }
    assert!(cache.len() <= ADDRESS_CACHE_CAP, "cache must respect capacity, got {}", cache.len());
}

fn expires_after_ttl() {
    let mut cache = AddressCache::with_ttl_days(7);
    cache.insert_at(key(556_684, 125_541), "Copenhagen".to_string(), T0);
    assert_eq!(cache.get_at(key(556_684, 125_541), T0).as_deref(), Some("Copenhagen"));
    assert!(
        cache.get_at(key(556_684, 125_541), T0 + 8 * DAY).is_none(),
        "entry older than TTL must read back as None"
    );
}

fn zero_ttl_always_misses() {
    let mut cache = AddressCache::with_ttl_days(0);
    cache.insert(key(0, 0), "anywhere".to_string());
    assert!(cache.get(key(0, 0)).is_none(), "ttl_days=0 must produce always-miss behaviour");
}

#[test]
fn server_address_cache_get_insert_and_eviction() {
    get_insert_and_eviction();
}

#[test]
fn address_cache_address_cache_get_insert_and_eviction() {
    get_insert_and_eviction();
}

#[test]
fn server_address_cache_expires_after_ttl() {
    expires_after_ttl();
}

#[test]
fn address_cache_address_cache_expires_after_ttl() {
    expires_after_ttl();
}

#[test]
fn server_address_cache_zero_ttl_always_misses() {
    zero_ttl_always_misses();
}

#[test]
fn address_cache_address_cache_zero_ttl_always_misses() {
    zero_ttl_always_misses();
}

#[test]
fn eviction_drops_the_oldest_insertion() {
    let mut cache = AddressCache::with_ttl_days(7);
    for i in 0..ADDRESS_CACHE_CAP as i32 {
        cache.insert_at(key(i, 0), format!("a{i}"), T0);
    }
    // Re-inserting an existing cell does not move it or grow the cache.
    cache.insert_at(key(0, 0), "again".to_string(), T0);
    assert_eq!(cache.len(), ADDRESS_CACHE_CAP);
    cache.insert_at(key(-1, -1), "new".to_string(), T0);
    assert_eq!(cache.len(), ADDRESS_CACHE_CAP);
    assert!(cache.get_at(key(0, 0), T0).is_none());
    assert_eq!(cache.get_at(key(1, 0), T0).as_deref(), Some("a1"));
    assert_eq!(cache.get_at(key(-1, -1), T0).as_deref(), Some("new"));
}

#[test]
fn ttl_counts_whole_days() {
    let mut cache = AddressCache::with_ttl_days(1);
    cache.insert_at(key(5, 5), "x".to_string(), T0);
    assert!(cache.get_at(key(5, 5), T0 + DAY - 1).is_some());
    assert!(cache.get_at(key(5, 5), T0 + DAY).is_none());
    // A clock that went back less than a day still reads the entry.
    assert!(cache.get_at(key(5, 5), T0 - DAY + 1).is_some());
}

#[test]
fn fresh_entry_survives_fewer_than_capacity_later_inserts() {
    let mut cache = AddressCache::with_ttl_days(7);
    for i in 0..ADDRESS_CACHE_CAP as i32 {
        cache.insert_at(key(100 + i, 0), format!("old-{i}"), T0);
    }
    cache.insert_at(key(1, 1), "Copenhagen".to_string(), T0);
    for i in 0..(ADDRESS_CACHE_CAP as i32 - 1) {
        cache.insert_at(key(10_000 + i, 0), format!("new-{i}"), T0 + 1);
    }
    assert_eq!(cache.get_at(key(1, 1), T0 + 6 * DAY).as_deref(), Some("Copenhagen"));
    assert!(cache.get_at(key(1, 1), T0 + 7 * DAY).is_none());
    cache.insert_at(key(20_000, 0), "one more".to_string(), T0 + 1);
    assert!(cache.get_at(key(1, 1), T0).is_none());
}

#[test]
fn rewritten_oldest_entry_keeps_its_place_in_line() {
    let mut cache = AddressCache::with_ttl_days(7);
    for i in 0..ADDRESS_CACHE_CAP as i32 {
        cache.insert_at(key(100 + i, 0), format!("old-{i}"), T0);
    }
    cache.insert_at(key(100, 0), "rewritten".to_string(), T0 + 1);
    assert_eq!(cache.get_at(key(100, 0), T0 + 1).as_deref(), Some("rewritten"));
    cache.insert_at(key(5_000, 0), "newcomer".to_string(), T0 + 1);
    assert!(cache.get_at(key(100, 0), T0 + 1).is_none());
}
