use mdbook_translator::cache::TranslationCache;

#[test]
fn empty_cache_misses() {
    let cache = TranslationCache::new();
    assert!(cache.get(&"k".to_string()).is_none());
}

#[test]
fn put_then_get() {
    let mut cache = TranslationCache::new();
    cache.put("k".to_string(), "v".to_string());
    assert_eq!(cache.get(&"k".to_string()), Some(&"v".to_string()));
    assert!(cache.get(&"other".to_string()).is_none());
}

#[test]
fn empty_translation_is_never_cached() {
    let mut cache = TranslationCache::new();
    cache.put("k".to_string(), "".to_string());
    assert!(cache.get(&"k".to_string()).is_none());
}

#[test]
fn later_put_overrides_earlier() {
    let mut cache = TranslationCache::new();
    cache.put("k".to_string(), "first".to_string());
    cache.put("k".to_string(), "second".to_string());
    assert_eq!(cache.get(&"k".to_string()), Some(&"second".to_string()));
}

#[test]
fn json_round_trip_keeps_every_pair() {
    let mut cache = TranslationCache::new();
    cache.put("aaa".to_string(), "un texte".to_string());
    cache.put("bbb".to_string(), "emoji \u{1f600} and \"quotes\"\nnewline".to_string());
    cache.put("ccc".to_string(), "third".to_string());

    let saved = cache.to_json();
    let loaded = TranslationCache::from_json(&saved);
    assert_eq!(loaded.get(&"aaa".to_string()), Some(&"un texte".to_string()));
    assert_eq!(
        loaded.get(&"bbb".to_string()),
        Some(&"emoji \u{1f600} and \"quotes\"\nnewline".to_string())
    );
    assert_eq!(loaded.get(&"ccc".to_string()), Some(&"third".to_string()));
    assert!(loaded.get(&"ddd".to_string()).is_none());

    // Saving the loaded cache and loading again changes nothing: the
    // mapping survives save(load(save(M))) unchanged.
    let saved_again = TranslationCache::from_json(&saved).to_json();
    assert_eq!(saved, saved_again);
    let loaded_again = TranslationCache::from_json(&saved_again);
    assert_eq!(loaded_again.get(&"aaa".to_string()), Some(&"un texte".to_string()));
    assert_eq!(loaded_again.get(&"ccc".to_string()), Some(&"third".to_string()));
}

#[test]
fn corrupt_json_loads_as_empty() {
    let loaded = TranslationCache::from_json("{ this is not json");
    assert!(loaded.get(&"aaa".to_string()).is_none());
    let loaded2 = TranslationCache::from_json("[1, 2, 3]");
    assert!(loaded2.get(&"aaa".to_string()).is_none());
}

#[test]
fn serialized_form_is_a_json_object() {
    let mut cache = TranslationCache::new();
    cache.put("key".to_string(), "value".to_string());
    let saved = cache.to_json();
    let parsed: serde_json::Value = serde_json::from_str(&saved).unwrap();
    assert_eq!(parsed["key"], serde_json::Value::String("value".to_string()));
}
