use nmrs::cache::{clear_cache, get_cached_results, set_cached_results, CacheData, CACHE_TTL_MS};
use nmrs::scan::NodeModulesInfo;

fn sample() -> Vec<NodeModulesInfo> {
    vec![
        NodeModulesInfo::new("/p/a/node_modules".to_string(), 10),
        NodeModulesInfo::new("/p/b/node_modules".to_string(), 20),
    ]
}

fn pairs(v: &[NodeModulesInfo]) -> Vec<(String, u64)> {
    v.iter().map(|i| (i.path.clone(), i.size)).collect()
}

#[test]
fn write_then_read_within_ttl() {
    let mut data = CacheData::new();
    set_cached_results(&mut data, "/p", &sample(), 1_000_000);
    let got = get_cached_results(&data, "/p", 1_000_000 + CACHE_TTL_MS - 1).unwrap();
    assert_eq!(pairs(&got), pairs(&sample()));
    assert!(get_cached_results(&data, "/q", 1_000_000).is_none());
}

#[test]
fn cache_key_is_base64_of_path() {
    let mut data = CacheData::new();
    set_cached_results(&mut data, "/project", &sample(), 5);
    assert_eq!(data.entries.len(), 1);
    assert_eq!(data.entries[0].key, "L3Byb2plY3Q=");
    assert_eq!(data.entries[0].entry.path, "/project");
    assert_eq!(data.entries[0].entry.timestamp, 5);
}

#[test]
fn expired_entry_is_a_miss_but_stays_stored() {
    let mut data = CacheData::new();
    set_cached_results(&mut data, "/p", &sample(), 1_000);
    assert!(get_cached_results(&data, "/p", 1_000 + CACHE_TTL_MS).is_none());
    assert!(get_cached_results(&data, "/p", 1_000 + CACHE_TTL_MS + 1).is_none());
    assert_eq!(data.entries.len(), 1);
    // the next write prunes it
    set_cached_results(&mut data, "/other", &Vec::new(), 1_000 + CACHE_TTL_MS + 1);
    assert_eq!(data.entries.len(), 1);
    assert_eq!(data.entries[0].entry.path, "/other");
}

#[test]
fn rewrite_supersedes_old_entry() {
    let mut data = CacheData::new();
    set_cached_results(&mut data, "/p", &sample(), 100);
    set_cached_results(&mut data, "/q", &sample(), 200);
    set_cached_results(&mut data, "/p", &Vec::new(), 300);
    assert_eq!(data.entries.len(), 2);
    assert_eq!(get_cached_results(&data, "/p", 400).map(|v| v.len()), Some(0));
    assert_eq!(get_cached_results(&data, "/q", 400).map(|v| v.len()), Some(2));
}

#[test]
fn clear_then_read_is_a_miss() {
    let mut data = CacheData::new();
    set_cached_results(&mut data, "/p", &sample(), 100);
    clear_cache(&mut data);
    assert!(get_cached_results(&data, "/p", 100).is_none());
    assert!(data.entries.is_empty());
}

#[test]
fn cache_file_lies_under_base() {
    assert_eq!(nmrs::cache::cache_file_in("/home/u/.cache"), "/home/u/.cache/nmrs/cache.json");
    if let Some(file) = nmrs::cache::get_cache_file() {
        assert!(file.ends_with("/nmrs/cache.json"));
    }
}

#[test]
fn entry_validity_follows_ttl() {
    let e = nmrs::cache::CacheEntry { path: "/p".to_string(), results: Vec::new(), timestamp: 1000 };
    assert!(nmrs::cache::is_entry_valid(&e, 1000));
    assert!(nmrs::cache::is_entry_valid(&e, 1000 + CACHE_TTL_MS - 1));
    assert!(!nmrs::cache::is_entry_valid(&e, 1000 + CACHE_TTL_MS));
    assert!(nmrs::cache::is_entry_valid(&e, 10));
}
