use std::sync::Arc;

use trajecta_met::field::CapabilitySet;
use trajecta_met::model::{CellId, DomainId, LogicalFrameId, Timestamp};
use trajecta_met::query::cache::{CacheError, CacheKey, CacheMetrics, ColumnCache, MemoryBudget};

const SIZE: u64 = 64;

fn frame_id() -> LogicalFrameId {
    LogicalFrameId {
        domain: DomainId("global".into()),
        valid_time: Timestamp { seconds: 0, nanosecond: 0 },
        profile_sha256: "profile".into(),
        content_sha256: "content".into(),
    }
}

fn key(cell: u64) -> CacheKey {
    CacheKey {
        frame: frame_id(),
        domain: DomainId("global".into()),
        cell: CellId(cell),
        capabilities: CapabilitySet::new(),
        algorithm: "column/v0".into(),
    }
}

fn column(offset: u64) -> Arc<u64> {
    Arc::new(offset)
}

#[test]
fn memory_budget_applies_default_fraction_and_lower_cap() {
    assert_eq!(
        MemoryBudget::from_available_memory(1_000, 100, None).unwrap(),
        MemoryBudget { total_bytes: 500, fixed_bytes: 100 }
    );
    assert_eq!(
        MemoryBudget::from_available_memory(1_000, 100, Some(300)).unwrap(),
        MemoryBudget { total_bytes: 300, fixed_bytes: 100 }
    );
    assert_eq!(MemoryBudget::new(99, 100), Err(CacheError::InvalidBudget));
}

#[test]
fn column_cache_keeps_pins_and_uses_stable_lru_eviction() {
    let mut cache = ColumnCache::new(SIZE * 2);
    drop(cache.insert(key(0), column(0), SIZE).unwrap());
    drop(cache.insert(key(1), column(1), SIZE).unwrap());
    let pin0 = cache.get(&key(0)).unwrap();
    drop(cache.insert(key(2), column(2), SIZE).unwrap());
    assert!(cache.get(&key(1)).is_none());
    assert!(cache.get(&key(2)).is_some());
    assert_eq!(cache.invalidate_frame(&frame_id()), Err(CacheError::PinnedEntry));
    drop(pin0);
    assert_eq!(cache.invalidate_frame(&frame_id()), Ok(2));
    assert_eq!(cache.metrics().resident_bytes, 0);
}

#[test]
fn column_cache_grows_without_eviction_below_budget() {
    let mut cache = ColumnCache::new(SIZE * 4);
    for cell in 0..3 {
        drop(cache.insert(key(cell), column(cell), SIZE).unwrap());
    }
    assert_eq!(cache.len(), 3);
    assert_eq!(cache.metrics().resident_bytes, SIZE * 3);
    assert_eq!(cache.metrics().evictions, 0);
}

#[test]
fn cache_budget_failures_do_not_evict_pinned_entries_or_partially_insert() {
    let mut too_small = ColumnCache::new(SIZE - 1);
    assert!(matches!(
        too_small.insert(key(0), column(0), SIZE),
        Err(CacheError::EntryTooLarge { .. })
    ));
    assert!(too_small.is_empty());
    assert_eq!(too_small.metrics().resident_bytes, 0);

    let mut cache = ColumnCache::new(SIZE * 2);
    let first = cache.insert(key(0), column(0), SIZE).unwrap();
    let second = cache.insert(key(1), column(1), SIZE).unwrap();
    let before = cache.metrics();
    assert!(matches!(
        cache.insert(key(2), column(2), SIZE),
        Err(CacheError::InsufficientBudget { .. })
    ));
    assert_eq!(cache.len(), 2);
    assert_eq!(cache.metrics(), before);
    assert!(matches!(
        cache.trim_unpinned_to(SIZE),
        Err(CacheError::InsufficientBudget { .. })
    ));
    drop((first, second));
    assert_eq!(cache.trim_unpinned_to(SIZE).unwrap(), 1);
}

#[test]
fn dynamic_bytes_subtract_the_fixed_reservation() {
    let budget = MemoryBudget::new(500, 120).unwrap();
    assert_eq!(budget.dynamic_bytes(), 380);
    let tight = MemoryBudget { total_bytes: 10, fixed_bytes: 20 };
    assert_eq!(tight.dynamic_bytes(), 0);
    assert_eq!(MemoryBudget::from_available_memory(1_001, 0, Some(900)).unwrap().total_bytes, 500);
}

#[test]
fn inserted_value_reads_back_through_its_pin() {
    let mut cache = ColumnCache::new(SIZE * 2);
    let pin = cache.insert(key(5), column(55), SIZE).unwrap();
    assert_eq!(*pin.value(), 55);
    assert_eq!(pin.size_bytes(), SIZE);
    let again = cache.get(&key(5)).unwrap();
    assert_eq!(*again.value(), 55);
    assert_eq!(cache.metrics().hits, 1);
    assert!(cache.get(&key(6)).is_none());
    assert_eq!(cache.metrics().misses, 1);
}

#[test]
fn same_key_with_same_value_is_shared_and_different_value_is_refused() {
    let mut cache = ColumnCache::new(SIZE * 4);
    drop(cache.insert(key(1), column(10), SIZE).unwrap());
    let shared = cache.insert(key(1), column(10), SIZE).unwrap();
    assert_eq!(*shared.value(), 10);
    assert_eq!(cache.len(), 1);
    assert_eq!(cache.metrics().resident_bytes, SIZE);
    drop(shared);
    assert!(matches!(cache.insert(key(1), column(11), SIZE), Err(CacheError::DuplicateKey)));
    assert_eq!(cache.len(), 1);
}

#[test]
fn eviction_follows_least_recent_access_and_counts() {
    let mut cache = ColumnCache::new(SIZE * 3);
    for cell in 0..3 {
        drop(cache.insert(key(cell), column(cell), SIZE).unwrap());
    }
    drop(cache.get(&key(0)).unwrap());
    drop(cache.insert(key(3), column(3), SIZE).unwrap());
    assert!(cache.get(&key(1)).is_none());
    assert!(cache.get(&key(0)).is_some());
    assert!(cache.get(&key(2)).is_some());
    assert_eq!(cache.metrics().evictions, 1);
    assert_eq!(cache.metrics().resident_bytes, SIZE * 3);
}

#[test]
fn trimming_below_the_resident_bytes_evicts_in_lru_order() {
    let mut cache = ColumnCache::new(SIZE * 4);
    for cell in 0..4 {
        drop(cache.insert(key(cell), column(cell), SIZE).unwrap());
    }
    assert_eq!(cache.trim_unpinned_to(SIZE * 4), Ok(0));
    assert_eq!(cache.trim_unpinned_to(SIZE * 2 + 1), Ok(2));
    assert_eq!(cache.len(), 2);
    assert!(cache.get(&key(0)).is_none());
    assert!(cache.get(&key(3)).is_some());
    assert_eq!(cache.metrics().evictions, 2);
    let pinned = cache.get(&key(2)).unwrap();
    let held = cache.get(&key(3)).unwrap();
    assert_eq!(
        cache.trim_unpinned_to(0),
        Err(CacheError::InsufficientBudget { required_bytes: SIZE * 2, budget_bytes: 0 })
    );
    drop((pinned, held));
}

#[test]
fn invalidating_an_unknown_frame_removes_nothing() {
    let mut cache = ColumnCache::new(SIZE * 2);
    let pin = cache.insert(key(0), column(0), SIZE).unwrap();
    let mut other = frame_id();
    other.content_sha256 = "other".into();
    assert_eq!(cache.invalidate_frame(&other), Ok(0));
    assert_eq!(cache.len(), 1);
    assert_eq!(cache.metrics(), CacheMetrics { hits: 0, misses: 0, evictions: 0, resident_bytes: SIZE });
    drop(pin);
    assert_eq!(cache.budget_bytes(), SIZE * 2);
}

#[test]
fn tile_cache_starts_empty() {
    let tiles: trajecta_met::query::cache::TileCache<Vec<u8>> = trajecta_met::query::cache::TileCache::new();
    assert!(tiles.is_empty());
    assert_eq!(tiles.len(), 0);
    assert_eq!(tiles.metrics(), CacheMetrics::default());
}
