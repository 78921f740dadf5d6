use itools::FileInfo;
use itools::ItoolsError;
use itools::PersistedCache;
use itools::filter_files_in_cache;
use itools::pcache::should_snapshot;

fn record(name: &str, a: Option<&str>, d: Option<&str>, p: Option<&str>, s: Option<&str>) -> FileInfo {
    FileInfo {
        filename: name.to_string(),
        a_hash: a.map(|x| x.to_string()),
        d_hash: d.map(|x| x.to_string()),
        p_hash: p.map(|x| x.to_string()),
        sha2_hash: s.map(|x| x.to_string()),
    }
}

#[test]
fn cache_round_trip_reproduces_every_field_combination() {
    let mut cache = PersistedCache::new();
    // none set, some set, all set; plus fields that need escaping
    cache.ingest(record("plain.png", None, None, None, None));
    cache.ingest(record("some.png", Some("AQ=="), None, Some("/w=="), None));
    cache.ingest(record("all.png", Some("a"), Some("d"), Some("p"), Some("s")));
    cache.ingest(record("tricky\tname\nwith\\escapes", Some("v\t1"), None, None, Some("x\ny")));

    let bytes = cache.to_bytes();
    let reloaded = PersistedCache::from_bytes(&bytes).unwrap();

    assert_eq!(4, reloaded.len());
    for name in ["plain.png", "some.png", "all.png", "tricky\tname\nwith\\escapes"] {
        let key = name.to_string();
        let orig = cache.get(&key).unwrap().clone();
        let back = reloaded.get(&key).unwrap().clone();
        assert_eq!(orig, back);
    }
}

#[test]
fn cache_reingest_overwrites_instead_of_duplicating() {
    let mut cache = PersistedCache::new();
    cache.ingest(record("a.png", Some("one"), None, None, None));
    assert_eq!(1, cache.len());

    cache.ingest(record("a.png", Some("two"), Some("d"), None, None));
    assert_eq!(1, cache.len());
    let key = "a.png".to_string();
    let fi = cache.get(&key).unwrap();
    assert_eq!(Some("two".to_string()), fi.a_hash);
    assert_eq!(Some("d".to_string()), fi.d_hash);

    // loading a snapshot and re-ingesting the same paths keeps one entry each
    let bytes = cache.to_bytes();
    let mut reloaded = PersistedCache::from_bytes(&bytes).unwrap();
    reloaded.ingest(record("a.png", Some("three"), None, None, None));
    assert_eq!(1, reloaded.len());
    assert_eq!(Some("three".to_string()), reloaded.get(&key).unwrap().a_hash);
}

#[test]
fn malformed_snapshot_is_refused() {
    let bytes: Vec<u8> = b"not a snapshot".to_vec();
    match PersistedCache::from_bytes(&bytes) {
        Err(ItoolsError::CacheFormat(n)) => assert_eq!(0, n),
        other => panic!("expected a format error, got {:?}", other),
    }

    // a well-formed line followed by a bad one names the bad line
    let bytes: Vec<u8> = b"ok.png\t-\t-\t-\t-\nbadline\n".to_vec();
    match PersistedCache::from_bytes(&bytes) {
        Err(ItoolsError::CacheFormat(n)) => assert_eq!(1, n),
        other => panic!("expected a format error, got {:?}", other),
    }
}

#[test]
fn empty_snapshot_loads_as_empty_cache() {
    let cache = PersistedCache::from_bytes(&Vec::new()).unwrap();
    assert_eq!(0, cache.len());
    assert!(!cache.contains_file(&"x".to_string()));
}

#[test]
fn snapshot_cadence_fires_at_the_interval() {
    assert!(!should_snapshot(0));
    assert!(!should_snapshot(4));
    assert!(should_snapshot(5));
    assert!(should_snapshot(600));
}

#[test]
fn cached_files_are_filtered_out() {
    let mut cache = PersistedCache::new();
    cache.ingest(record("b.png", None, None, None, None));
    let files = vec!["a.png".to_string(), "b.png".to_string(), "c.png".to_string()];
    let left = filter_files_in_cache(&files, &cache);
    assert_eq!(vec!["a.png".to_string(), "c.png".to_string()], left);
}
