use rdf_glance::string_indexer::{StringCache, StringIndexer};

#[test]
fn test_sting_indexer() {
    let mut string_indexer = StringIndexer::new();
    let index1 = string_indexer.get_index("test");
    let index2 = string_indexer.get_index("test");
    assert_eq!(0, index1);
    assert_eq!(index1, index2);
    let index3 = string_indexer.get_index("test2");
    assert_ne!(index1, index3);
    assert_eq!(index1 + 1, index3);
    let s = string_indexer.index_to_str(index2);
    assert!(s.is_some());
    assert_eq!("test", s.unwrap());
    assert!(string_indexer.index_to_str(100).is_none());
}

#[test]
fn test_string_cache() {
    let mut string_cache = StringCache::new();
    let span1 = string_cache.push_str("test");
    let span2 = string_cache.push_str("test2");
    assert_eq!(span1.start, 0);
    assert_eq!(span1.len, 4);
    assert_eq!(span2.start, 4);
    assert_eq!(span2.len, 5);
    assert_eq!("test", string_cache.get_str(span1));
    assert_eq!("test2", string_cache.get_str(span2));
}

#[test]
fn indexer_len_counts_distinct_strings() {
    let mut ix = StringIndexer::new();
    assert_eq!(ix.len(), 0);
    ix.get_index("a");
    ix.get_index("b");
    ix.get_index("a");
    assert_eq!(ix.len(), 2);
    assert_eq!(ix.index_to_str(1), Some("b"));
    assert_eq!(ix.index_to_str(2), None);
}

#[test]
fn string_cache_spans_count_bytes_of_multibyte_text() {
    let mut cache = StringCache::new();
    let a = cache.push_str("zß");
    let b = cache.push_str("€");
    assert_eq!((a.start, a.len), (0, 3));
    assert_eq!((b.start, b.len), (3, 3));
    assert_eq!(cache.get_str(a), "zß");
    assert_eq!(cache.get_str(b), "€");
    assert_eq!(cache.cache, "zß€");
}
