use rustysoup::cache::{SelectorCache, SELECTOR_CACHE_MAX_ENTRIES};

/// What compiling through the cache does: a stored entry is reused, a missing one is compiled
/// (here: its length stands for the compiled form) and stored.
fn compile_cached(cache: &mut SelectorCache<usize>, selector: &str) -> Result<usize, ()> {
    if let Some(compiled) = cache.get(selector) {
        return Ok(*compiled);
    }
    let compiled = selector.len();
    cache.insert(selector.to_string(), compiled);
    Ok(compiled)
}

#[test]
fn selector_cache_is_bounded() {
    let mut cache = SelectorCache::new();

    for index in 0..SELECTOR_CACHE_MAX_ENTRIES {
        compile_cached(&mut cache, &format!("#cache-{index}")).unwrap();
    }
    assert_eq!(cache.len(), SELECTOR_CACHE_MAX_ENTRIES);

    compile_cached(&mut cache, "#cache-overflow").unwrap();
    assert_eq!(cache.len(), 1);
}

#[test]
fn cached_selectors_are_found_again_and_replaced() {
    let mut cache = SelectorCache::new();
    cache.insert("a".to_string(), 1);
    cache.insert("b".to_string(), 2);
    assert_eq!(cache.get("a"), Some(&1));
    assert_eq!(cache.get("c"), None);
    cache.insert("a".to_string(), 3);
    assert_eq!(cache.get("a"), Some(&3));
    assert_eq!(cache.len(), 2);
}

#[test]
fn a_failed_compile_leaves_the_cache_alone() {
    let mut cache: SelectorCache<usize> = SelectorCache::new();
    cache.remember("a".to_string(), Ok(1));
    cache.remember("b".to_string(), Err(()));
    assert_eq!(cache.len(), 1);
    assert_eq!(cache.get("a"), Some(&1));
    assert_eq!(cache.get("b"), None);
    cache.remember("a".to_string(), Ok(2));
    assert_eq!(cache.len(), 1);
    assert_eq!(cache.get("a"), Some(&2));
}
