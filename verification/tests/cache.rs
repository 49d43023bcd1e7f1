//! Caches.

use clash_prism_core::cache::{compile_cache_key, hex_text, DiskCache, MemoryCache};

#[test]
fn test_memory_cache_basic() {
    let mut cache: MemoryCache<String> = MemoryCache::new(10);
    assert!(cache.is_empty());

    cache.insert("key1".to_string(), "value1".to_string(), None);
    assert_eq!(cache.len(), 1);
    assert_eq!(cache.get("key1", None), Some("value1".to_string()));
    assert_eq!(cache.get("nonexistent", None), None);
}

#[test]
fn test_memory_cache_fifo_eviction() {
    // 容量为 2，插入 3 个条目，最早的应被淘汰
    let mut cache: MemoryCache<i32> = MemoryCache::new(2);
    cache.insert("a".to_string(), 1, None);
    cache.insert("b".to_string(), 2, None);
    cache.insert("c".to_string(), 3, None);

    assert_eq!(cache.len(), 2);
    assert_eq!(cache.get("a", None), None); // 最早插入，已被淘汰
    assert_eq!(cache.get("b", None), Some(2));
    assert_eq!(cache.get("c", None), Some(3));
}

#[test]
fn test_memory_cache_invalidate() {
    let mut cache: MemoryCache<String> = MemoryCache::new(10);
    cache.insert("key1".to_string(), "value1".to_string(), None);
    cache.invalidate("key1");
    assert_eq!(cache.get("key1", None), None);
}

#[test]
fn test_memory_cache_clear() {
    let mut cache: MemoryCache<i32> = MemoryCache::new(10);
    cache.insert("a".to_string(), 1, None);
    cache.insert("b".to_string(), 2, None);
    cache.clear();
    assert!(cache.is_empty());
}

#[test]
fn test_memory_cache_capacity_zero() {
    let mut cache: MemoryCache<String> = MemoryCache::new(0);
    cache.insert("key1".to_string(), "value1".to_string(), None);
    assert_eq!(cache.len(), 0);
    assert_eq!(cache.get("key1", None), None);

    cache.insert("key2".to_string(), "value2".to_string(), None);
    assert_eq!(cache.len(), 0);
}

#[test]
fn test_memory_cache_update_existing_key() {
    let mut cache: MemoryCache<i32> = MemoryCache::new(3);

    cache.insert("a".to_string(), 1, None);
    cache.insert("b".to_string(), 2, None);
    cache.insert("a".to_string(), 10, None); // 更新 a，FIFO 顺序重置到末尾

    // 此时 fifo_order: ["b", "a"]，容量 3，未满
    assert_eq!(cache.len(), 2);
    assert_eq!(cache.get("a", None), Some(10)); // a 被更新
    assert_eq!(cache.get("b", None), Some(2)); // b 仍在

    // 插入 c，fifo_order: ["b", "a", "c"]，满
    cache.insert("c".to_string(), 3, None);
    assert_eq!(cache.len(), 3);

    // 插入 d，应淘汰 b（fifo 队首，最早未被更新的）
    cache.insert("d".to_string(), 4, None);
    assert_eq!(cache.len(), 3);
    assert_eq!(cache.get("a", None), Some(10)); // a 被更新过，在队列中间
    assert_eq!(cache.get("b", None), None); // b 是最早的，被淘汰
    assert_eq!(cache.get("c", None), Some(3));
    assert_eq!(cache.get("d", None), Some(4));
}

#[test]
fn test_memory_cache_mtime_invalidation() {
    let file_path = std::path::PathBuf::from("test.txt");
    let mut cache: MemoryCache<String> = MemoryCache::new(10);
    cache.insert(
        "file_key".to_string(),
        "cached_value".to_string(),
        Some((file_path.clone(), Some(1000))),
    );
    assert_eq!(cache.file_path("file_key"), Some(&file_path));

    // 文件未修改，缓存应命中
    assert_eq!(cache.get("file_key", Some(1000)), Some("cached_value".to_string()));
    // 修改时间未知时，缓存也命中
    assert_eq!(cache.get("file_key", None), Some("cached_value".to_string()));

    // 文件已修改，缓存应失效
    assert_eq!(cache.get("file_key", Some(1010)), None);
    assert_eq!(cache.len(), 0);
    assert_eq!(cache.file_path("file_key"), None);
}

#[test]
fn an_item_without_a_file_is_never_outdated() {
    let mut cache: MemoryCache<i32> = MemoryCache::new(2);
    cache.insert("a".to_string(), 1, None);
    assert_eq!(cache.get("a", Some(5)), Some(1));
    cache.insert("b".to_string(), 2, Some((std::path::PathBuf::from("b"), None)));
    assert_eq!(cache.get("b", Some(5)), Some(2));
    // 重新插入时不再关联文件
    cache.insert("b".to_string(), 3, None);
    assert_eq!(cache.file_path("b"), None);
    assert!(!cache.is_empty());
}

#[test]
fn test_compile_cache_key() {
    let key1 = compile_cache_key(b"same content");
    let key2 = compile_cache_key(b"same content");

    // 相同内容应产生相同的键
    assert_eq!(key1, key2);
    assert_eq!(
        compile_cache_key(b""),
        "e3b0c44298fc1c149afbf4c8996fb92427ae41e4649b934ca495991b7852b855"
    );
}

#[test]
fn test_compile_cache_key_different_content() {
    let key1 = compile_cache_key(b"content A");
    let key2 = compile_cache_key(b"content B");

    // 不同内容应产生不同的键
    assert_ne!(key1, key2);
}

#[test]
fn names_of_cached_files() {
    assert_eq!(
        DiskCache::file_name(""),
        "e3b0c44298fc1c149afbf4c8996fb92427ae41e4649b934ca495991b7852b855.cache"
    );
    assert_eq!(
        DiskCache::temp_name("abc"),
        "ba7816bf8f01cfea414140de5dae2223b00361a396177a9cb410ff61f20015ad.tmp"
    );
    assert_eq!(hex_text(&[0x00, 0x0f, 0xa5]), "000fa5");
}
