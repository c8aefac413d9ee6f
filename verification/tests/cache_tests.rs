//! Tests for cache configuration parsing and the evicting result cache.

use rustowl::cache::{CacheConfig, ResultCache, get_cache_config, get_cache_path, is_cache,
    parse_usize};
use rustowl::models::Function;

#[test]
fn test_cache_config_default() {
    let config = CacheConfig::default();
    assert_eq!(config.max_entries, 1000);
    assert_eq!(config.max_memory_bytes, 100 * 1024 * 1024);
    assert!(config.use_lru_eviction);
    assert!(config.validate_file_mtime);
    assert!(!config.enable_compression);
}

#[test]
fn test_is_cache_default() {
    // An unset toggle enables the cache.
    assert!(is_cache(None));
}

#[test]
fn test_is_cache_with_false_values() {
    assert!(!is_cache(Some("false")));
    assert!(!is_cache(Some("FALSE")));
    assert!(!is_cache(Some("0")));
    assert!(!is_cache(Some("  false  ")));
}

#[test]
fn test_is_cache_with_true_values() {
    assert!(is_cache(Some("true")));
    assert!(is_cache(Some("1")));
    assert!(is_cache(Some("yes")));
    assert!(is_cache(Some("")));
}

#[test]
fn test_get_cache_path() {
    // Unset value
    assert!(get_cache_path(None).is_none());

    // Empty value
    assert!(get_cache_path(Some("")).is_none());

    // Whitespace only
    assert!(get_cache_path(Some("   ")).is_none());

    // Valid path
    let path: String = get_cache_path(Some("/tmp/cache")).unwrap().into_iter().collect();
    assert_eq!(path, "/tmp/cache");

    // Path with surrounding whitespace
    let path: String = get_cache_path(Some("  /tmp/cache  ")).unwrap().into_iter().collect();
    assert_eq!(path, "/tmp/cache");
}

#[test]
fn test_get_cache_config_with_values() {
    // Entry count override
    let config = get_cache_config(Some("500"), None, None, None);
    assert_eq!(config.max_entries, 500);

    // Malformed values keep the default
    let config = get_cache_config(Some("invalid"), None, None, None);
    assert_eq!(config.max_entries, 1000);
    let config = get_cache_config(Some("  123  "), None, None, None);
    assert_eq!(config.max_entries, 1000);

    // Memory override, in MiB
    let config = get_cache_config(None, Some("200"), None, None);
    assert_eq!(config.max_memory_bytes, 200 * 1024 * 1024);

    // Memory override saturates instead of overflowing
    let big = usize::MAX.to_string();
    let config = get_cache_config(None, Some(&big), None, None);
    assert_eq!(config.max_memory_bytes, usize::MAX);

    // Eviction policy, case-insensitive and trimmed
    assert!(get_cache_config(None, None, Some("lru"), None).use_lru_eviction);
    assert!(get_cache_config(None, None, Some("LRU"), None).use_lru_eviction);
    assert!(!get_cache_config(None, None, Some("fifo"), None).use_lru_eviction);
    assert!(!get_cache_config(None, None, Some("FIFO"), None).use_lru_eviction);
    assert!(!get_cache_config(None, None, Some("   fIfO   "), None).use_lru_eviction);
    assert!(get_cache_config(None, None, Some("invalid"), None).use_lru_eviction);

    // File validation toggle
    assert!(!get_cache_config(None, None, None, Some("false")).validate_file_mtime);
    assert!(!get_cache_config(None, None, None, Some("0")).validate_file_mtime);
    assert!(get_cache_config(None, None, None, Some("true")).validate_file_mtime);
    assert!(get_cache_config(None, None, None, Some("1")).validate_file_mtime);
    assert!(!get_cache_config(None, None, None, Some("  FALSE  ")).validate_file_mtime);
}

#[test]
fn test_cache_config_multiple_values() {
    let config = get_cache_config(Some("750"), Some("150"), Some("fifo"), Some("false"));
    assert_eq!(config.max_entries, 750);
    assert_eq!(config.max_memory_bytes, 150 * 1024 * 1024);
    assert!(!config.use_lru_eviction);
    assert!(!config.validate_file_mtime);
}

#[test]
fn parse_usize_accepts_plain_and_plus_prefixed_digits() {
    assert_eq!(parse_usize("0"), Some(0));
    assert_eq!(parse_usize("12345"), Some(12345));
    assert_eq!(parse_usize("+42"), Some(42));
    assert_eq!(parse_usize(""), None);
    assert_eq!(parse_usize("+"), None);
    assert_eq!(parse_usize("-1"), None);
    assert_eq!(parse_usize("42.5"), None);
    assert_eq!(parse_usize(" 123 "), None);
    assert_eq!(parse_usize("999999999999999999999999999999"), None);
}

fn config(max_entries: usize, lru: bool) -> CacheConfig {
    CacheConfig {
        max_entries,
        max_memory_bytes: 100 * 1024 * 1024,
        use_lru_eviction: lru,
        validate_file_mtime: true,
        enable_compression: false,
    }
}

#[test]
fn cache_lookup_hit_and_miss_counts() {
    let mut cache = ResultCache::new(config(10, true));
    assert!(cache.lookup("f1", "m1", None).is_none());
    cache.insert("f1".to_string(), "m1".to_string(), Function::new(7), None);
    let hit = cache.lookup("f1", "m1", None).expect("hit");
    assert_eq!(hit.fn_id, 7);
    assert!(cache.lookup("f1", "other", None).is_none());
    let stats = cache.get_stats();
    assert_eq!(stats.hits, 1);
    assert_eq!(stats.misses, 2);
    assert_eq!(stats.hit_rate_percent(), 33);
}

#[test]
fn cache_mtime_validation_rejects_stale_entries() {
    let mut cache = ResultCache::new(config(10, true));
    cache.insert("f".to_string(), "m".to_string(), Function::new(1), Some(100));
    // Not modified since insertion: hit.
    assert!(cache.lookup("f", "m", Some(100)).is_some());
    // Modified after insertion: miss.
    assert!(cache.lookup("f", "m", Some(101)).is_none());

    // With validation off, staleness is ignored.
    let mut loose = ResultCache::new(CacheConfig {
        validate_file_mtime: false,
        ..config(10, true)
    });
    loose.insert("f".to_string(), "m".to_string(), Function::new(1), Some(100));
    assert!(loose.lookup("f", "m", Some(500)).is_some());
}

#[test]
fn cache_lru_evicts_least_recently_accessed_first() {
    let mut cache = ResultCache::new(config(2, true));
    cache.insert("a".to_string(), "m".to_string(), Function::new(1), None);
    cache.insert("b".to_string(), "m".to_string(), Function::new(2), None);
    // Touch "a" so "b" becomes the least recently used.
    assert!(cache.lookup("a", "m", None).is_some());
    cache.insert("c".to_string(), "m".to_string(), Function::new(3), None);
    assert_eq!(cache.len(), 2);
    assert!(cache.lookup("a", "m", None).is_some(), "recently used entry must survive");
    assert!(cache.lookup("b", "m", None).is_none(), "least recently used entry is evicted");
    assert!(cache.lookup("c", "m", None).is_some());
    assert_eq!(cache.get_stats().evictions, 1);
}

#[test]
fn cache_fifo_evicts_earliest_inserted_regardless_of_access() {
    let mut cache = ResultCache::new(config(2, false));
    cache.insert("a".to_string(), "m".to_string(), Function::new(1), None);
    cache.insert("b".to_string(), "m".to_string(), Function::new(2), None);
    // Touch "a"; under FIFO this must not save it.
    assert!(cache.lookup("a", "m", None).is_some());
    cache.insert("c".to_string(), "m".to_string(), Function::new(3), None);
    assert_eq!(cache.len(), 2);
    assert!(cache.lookup("a", "m", None).is_none(), "earliest inserted entry is evicted");
    assert!(cache.lookup("b", "m", None).is_some());
    assert!(cache.lookup("c", "m", None).is_some());
    assert_eq!(cache.get_stats().evictions, 1);
}

#[test]
fn cache_insert_replaces_entry_under_same_key() {
    let mut cache = ResultCache::new(config(10, true));
    cache.insert("f".to_string(), "m".to_string(), Function::new(1), None);
    cache.insert("f".to_string(), "m".to_string(), Function::new(2), None);
    assert_eq!(cache.len(), 1);
    let hit = cache.lookup("f", "m", None).unwrap();
    assert_eq!(hit.fn_id, 2);
}
