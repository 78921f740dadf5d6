use itools::FileInfo;
use itools::ItoolsError;
use itools::Matches;
use itools::PersistedCache;
use itools::SearchType;
use itools::base64::encode_base64;
use itools::base64::hash_distance;

fn sha_record(name: &str, sha: &str) -> FileInfo {
    FileInfo {
        filename: name.to_string(),
        a_hash: None,
        d_hash: None,
        p_hash: None,
        sha2_hash: Some(sha.to_string()),
    }
}

fn mean_record(name: &str, bits: u8) -> FileInfo {
    FileInfo {
        filename: name.to_string(),
        a_hash: Some(encode_base64(&vec![bits])),
        d_hash: None,
        p_hash: None,
        sha2_hash: None,
    }
}

#[test]
fn exact_search_pairs_shared_content_hashes() {
    let mut cache = PersistedCache::new();
    cache.ingest(sha_record("a.png", "samehash"));
    cache.ingest(sha_record("b.png", "samehash"));
    cache.ingest(sha_record("c.png", "unique"));
    let files = vec!["a.png".to_string(), "b.png".to_string(), "c.png".to_string()];

    let results = SearchType::SHA2.find_dups(files, cache.join());

    assert_eq!(2, results.len());
    assert_eq!("a.png", results[0].filename);
    assert_eq!(vec!["b.png".to_string()], results[0].matched_files);
    assert_eq!("b.png", results[1].filename);
    assert_eq!(vec!["a.png".to_string()], results[1].matched_files);
    for m in &results {
        assert_ne!("c.png", m.filename);
    }
}

#[test]
fn near_search_pairs_within_tolerance_only() {
    // X: 0b00000000, Y: 0b00000001 (distance 1), Z: 0b11111111 (distance 8)
    let mut cache = PersistedCache::new();
    cache.ingest(mean_record("x.png", 0b00000000));
    cache.ingest(mean_record("y.png", 0b00000001));
    cache.ingest(mean_record("z.png", 0b11111111));
    let files = vec!["x.png".to_string(), "y.png".to_string(), "z.png".to_string()];

    let results = SearchType::MEAN(1).find_dups(files.clone(), cache.join());

    assert_eq!(2, results.len());
    assert_eq!("x.png", results[0].filename);
    assert_eq!(vec!["y.png".to_string()], results[0].matched_files);
    assert_eq!("y.png", results[1].filename);
    assert_eq!(vec!["x.png".to_string()], results[1].matched_files);

    // tolerance 0 finds nothing among the three distinct values
    let mut cache = PersistedCache::new();
    cache.ingest(mean_record("x.png", 0b00000000));
    cache.ingest(mean_record("y.png", 0b00000001));
    cache.ingest(mean_record("z.png", 0b11111111));
    let results: Vec<Matches> = SearchType::MEAN(0).find_dups(files, cache.join());
    assert!(results.is_empty());
}

#[test]
fn hash_distance_counts_differing_bits() {
    let x = encode_base64(&vec![0b00000000u8]);
    let y = encode_base64(&vec![0b00000001u8]);
    let z = encode_base64(&vec![0b11111111u8]);
    assert_eq!(Some(0), hash_distance(&x, &x));
    assert_eq!(Some(1), hash_distance(&x, &y));
    assert_eq!(Some(8), hash_distance(&x, &z));
    assert_eq!(Some(7), hash_distance(&y, &z));
    assert_eq!(None, hash_distance(&x, &"not base64!".to_string()));
    let wide = encode_base64(&vec![0u8, 0u8]);
    assert_eq!(None, hash_distance(&x, &wide));
}

#[test]
fn search_type_from_parts_maps_flags() {
    assert_eq!(Ok(SearchType::MEAN(3)), SearchType::from_parts("mean", 3));
    assert_eq!(Ok(SearchType::GRAD(2)), SearchType::from_parts("grad", 2));
    assert_eq!(Ok(SearchType::DCT(1)), SearchType::from_parts("dct", 1));
    assert_eq!(Ok(SearchType::SHA2), SearchType::from_parts("sha2", 0));
    match SearchType::from_parts("sha2", 1) {
        Err(ItoolsError::UsageError(_)) => {},
        other => panic!("expected a usage error, got {:?}", other),
    }
    match SearchType::from_parts("md5", 0) {
        Err(ItoolsError::UsageError(_)) => {},
        other => panic!("expected a usage error, got {:?}", other),
    }
}

#[test]
fn default_search_is_exact_content() {
    assert_eq!(SearchType::SHA2, SearchType::default());
    assert_eq!(0, SearchType::default().distance());
    assert_eq!(4, SearchType::MEAN(4).distance());
}
