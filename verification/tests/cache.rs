use crap_cache::cache::MemCache;

#[test]
fn gives_back_what_was_stored() {
    let mut cache = MemCache::new(2);
    assert_eq!(cache.get_key("a"), None);
    cache.store_key("a".to_string(), b"one");
    assert_eq!(cache.get_key("a"), Some(b"one".to_vec()));
    assert_eq!(cache.get_key("a"), Some(b"one".to_vec()));
    assert_eq!(cache.get_key("b"), None);
}

#[test]
fn replaces_what_was_stored() {
    let mut cache = MemCache::new(2);
    cache.store_key("a".to_string(), b"one");
    cache.store_key("b".to_string(), b"two");
    cache.store_key("a".to_string(), b"three");
    assert_eq!(cache.get_key("a"), Some(b"three".to_vec()));
    assert_eq!(cache.get_key("b"), Some(b"two".to_vec()));
}

#[test]
fn drives_out_the_oldest() {
    let mut cache = MemCache::new(2);
    cache.store_key("a".to_string(), b"one");
    cache.store_key("b".to_string(), b"two");
    cache.store_key("c".to_string(), b"three");
    assert_eq!(cache.get_key("a"), None);
    assert_eq!(cache.get_key("b"), Some(b"two".to_vec()));
    assert_eq!(cache.get_key("c"), Some(b"three".to_vec()));
}

#[test]
fn counts_a_read_as_a_use() {
    let mut cache = MemCache::new(2);
    cache.store_key("a".to_string(), b"one");
    cache.store_key("b".to_string(), b"two");
    assert_eq!(cache.get_key("a"), Some(b"one".to_vec()));
    cache.store_key("c".to_string(), b"three");
    assert_eq!(cache.get_key("b"), None);
    assert_eq!(cache.get_key("a"), Some(b"one".to_vec()));
}

#[test]
fn counts_a_missed_read_as_no_use() {
    let mut cache = MemCache::new(2);
    cache.store_key("a".to_string(), b"one");
    cache.store_key("b".to_string(), b"two");
    assert_eq!(cache.get_key("x"), None);
    cache.store_key("c".to_string(), b"three");
    assert_eq!(cache.get_key("a"), None);
    assert_eq!(cache.get_key("b"), Some(b"two".to_vec()));
}

#[test]
fn keeps_what_was_used_recently() {
    let mut cache = MemCache::new(3);
    cache.store_key("a".to_string(), b"one");
    cache.store_key("b".to_string(), b"two");
    cache.store_key("c".to_string(), b"three");
    assert_eq!(cache.get_key("a"), Some(b"one".to_vec()));
}

#[test]
fn keeps_what_was_used_recently_however_often_others_are() {
    let mut cache = MemCache::new(2);
    cache.store_key("a".to_string(), b"one");
    for _ in 0..10 {
        cache.store_key("b".to_string(), b"two");
        assert_eq!(cache.get_key("b"), Some(b"two".to_vec()));
    }
    assert_eq!(cache.get_key("a"), Some(b"one".to_vec()));
}

#[test]
fn gives_the_last_content_or_nothing() {
    let mut cache = MemCache::new(3);
    cache.store_key("a".to_string(), b"old");
    cache.store_key("a".to_string(), b"new");
    for key in ["b", "c", "d", "b", "e"] {
        cache.store_key(key.to_string(), key.as_bytes());
        let content = cache.get_key("a");
        assert!(content.is_none() || content == Some(b"new".to_vec()));
    }
}

#[test]
fn holds_the_most_recently_used_keys() {
    let mut cache = MemCache::new(3);
    for key in ["a", "b", "c", "d"] {
        cache.store_key(key.to_string(), key.as_bytes());
    }
    // Gone, so that this read counts for nothing.
    assert_eq!(cache.get_key("a"), None);
    assert_eq!(cache.get_key("b"), Some(b"b".to_vec()));
    cache.store_key("c".to_string(), b"again");
    cache.store_key("e".to_string(), b"e");
    assert_eq!(cache.get_key("a"), None);
    assert_eq!(cache.get_key("d"), None);
    assert_eq!(cache.get_key("b"), Some(b"b".to_vec()));
    assert_eq!(cache.get_key("c"), Some(b"again".to_vec()));
    assert_eq!(cache.get_key("e"), Some(b"e".to_vec()));
}

#[test]
fn holds_a_single_key() {
    let mut cache = MemCache::new(1);
    cache.store_key("a".to_string(), b"");
    assert_eq!(cache.get_key("a"), Some(vec![]));
    cache.store_key("b".to_string(), b"two");
    assert_eq!(cache.get_key("a"), None);
    assert_eq!(cache.get_key("b"), Some(b"two".to_vec()));
}
