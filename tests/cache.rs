use soldr::cache::OriginCache;
use soldr::db::{NewOrigin, Origin, Store};

fn origins(pairs: &[(&str, &str)]) -> Vec<Origin> {
    let mut store = Store::new();
    for (domain, uri) in pairs {
        store
            .insert_origin(
                NewOrigin { domain: domain.to_string(), origin_uri: uri.to_string(), timeout: 5000, ..Default::default() },
                1,
            )
            .unwrap();
    }
    store.list_origins()
}

#[test]
fn cache_miss_before_refresh() {
    let cache = OriginCache::new();
    assert!(cache.get("example.wh.soldr.dev").is_none());
}

#[test]
fn refresh_replaces_whole_mapping() {
    let mut cache = OriginCache::new();
    cache.refresh(origins(&[("a.dev", "http://a"), ("b.dev", "http://b")]));
    assert_eq!(cache.get("a.dev").unwrap().origin_uri, "http://a");
    assert_eq!(cache.get("b.dev").unwrap().origin_uri, "http://b");
    cache.refresh(origins(&[("c.dev", "http://c")]));
    assert!(cache.get("a.dev").is_none());
    assert!(cache.get("b.dev").is_none());
    assert_eq!(cache.get("c.dev").unwrap().origin_uri, "http://c");
}

#[test]
fn later_origin_wins_and_match_is_case_sensitive() {
    let mut cache = OriginCache::new();
    cache.refresh(origins(&[("a.dev", "http://first"), ("a.dev", "http://second")]));
    assert_eq!(cache.get("a.dev").unwrap().origin_uri, "http://second");
    assert!(cache.get("A.dev").is_none());
}
