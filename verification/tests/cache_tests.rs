use olang::ast::Value;
use olang::cache::{
    calculate_string_hash, estimate_module_memory_size, hex_lower, virtual_module_hash,
    CacheCleanupStats, PersistentCacheManager, SmartCacheConfig,
};

#[test]
fn string_hashes_are_sha256_in_lowercase_hex() {
    assert_eq!(
        calculate_string_hash(""),
        "e3b0c44298fc1c149afbf4c8996fb92427ae41e4649b934ca495991b7852b855"
    );
    assert_eq!(
        calculate_string_hash("abc"),
        "ba7816bf8f01cfea414140de5dae2223b00361a396177a9cb410ff61f20015ad"
    );
}

#[test]
fn hex_is_two_digits_per_byte() {
    assert_eq!(hex_lower(&vec![0u8, 10, 255, 16]), "000aff10");
}

#[test]
fn only_builtin_modules_hash_their_path() {
    assert_eq!(
        virtual_module_hash("__stdlib__/math"),
        Some(calculate_string_hash("__stdlib__/math"))
    );
    assert!(virtual_module_hash("__embedded__/x").is_some());
    assert!(virtual_module_hash("src/x.ol").is_none());
}

#[test]
fn memory_estimates() {
    let module = Value::Struct {
        struct_name: "M".to_string(),
        fields: vec![("a".to_string(), Value::Unit), ("b".to_string(), Value::Unit)],
    };
    assert_eq!(estimate_module_memory_size(&module, None, false), 128);
    assert_eq!(estimate_module_memory_size(&Value::Unit, Some(3), true), 64 + 768 + 1024);
}

#[test]
fn cache_file_paths_are_sanitized() {
    let m = PersistentCacheManager::new(
        SmartCacheConfig::standard(true, "/tmp/olang_cache".to_string()),
        0,
    );
    assert_eq!(
        m.get_cache_file_path("std/io.v2\\x"),
        "/tmp/olang_cache/std_io_v2_x.cache"
    );
    let m = PersistentCacheManager::new(SmartCacheConfig::standard(true, "dir/".to_string()), 0);
    assert_eq!(m.get_cache_file_path("a.b"), "dir/a_b.cache");
    let m = PersistentCacheManager::new(SmartCacheConfig::standard(true, String::new()), 0);
    assert_eq!(m.get_cache_file_path("a"), "a.cache");
}

#[test]
fn cleanup_runs_only_when_due() {
    let mut m = PersistentCacheManager::new(SmartCacheConfig::standard(true, "d".to_string()), 1000);
    assert!(!m.cleanup_due(1000 + 299_999));
    assert!(m.cleanup_due(1000 + 300_000));
    assert!(!m.cleanup_due(10));
    m.record_cleanup(400_000);
    assert!(!m.cleanup_due(400_001));
    let off = PersistentCacheManager::new(SmartCacheConfig::standard(false, "d".to_string()), 0);
    assert!(!off.cleanup_due(u64::MAX));
}

#[test]
fn removal_takes_the_oldest_files() {
    let mut config = SmartCacheConfig::standard(true, "d".to_string());
    config.max_cache_entries = 2;
    config.max_cache_size_mb = 1;
    let m = PersistentCacheManager::new(config, 0);
    let mb = 1024 * 1024u64;
    // within both limits
    assert_eq!(m.files_to_remove(&vec![Some(10), Some(10)]), 0);
    // over the count limit only
    assert_eq!(m.files_to_remove(&vec![Some(10), Some(10), Some(10), Some(10)]), 2);
    // over the size limit: oldest first until the rest fits
    assert_eq!(m.files_to_remove(&vec![Some(mb), Some(10)]), 1);
    // files removed for the count do not lower the running size
    assert_eq!(m.files_to_remove(&vec![Some(mb), Some(mb / 2), Some(mb / 2)]), 3);
    assert_eq!(m.files_to_remove(&vec![Some(mb), Some(mb), Some(10), Some(10)]), 4);
    // unreadable sizes count for nothing
    assert_eq!(m.files_to_remove(&vec![None, Some(2 * mb)]), 2);
    let s = CacheCleanupStats::default();
    assert_eq!(s.files_removed + s.bytes_freed, 0);
}

#[test]
fn bytes_hash_is_sha256_in_hex() {
    assert_eq!(
        olang::cache::calculate_bytes_hash(b"abc"),
        "ba7816bf8f01cfea414140de5dae2223b00361a396177a9cb410ff61f20015ad"
    );
    assert_eq!(
        olang::cache::calculate_bytes_hash("module x".as_bytes()),
        olang::cache::calculate_string_hash("module x")
    );
}
