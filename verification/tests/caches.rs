use std::time::{SystemTime, UNIX_EPOCH};

use skeptic::cache::{CacheEntry, PersistentCache};
use skeptic::error::Error;
use skeptic::fingerprint::Fingerprint;
use skeptic::path::FilePath;

fn time_now() -> i128 {
    SystemTime::now().duration_since(UNIX_EPOCH).unwrap().as_nanos() as i128
}

fn test_lib_list() -> Vec<Fingerprint> {
    vec![Fingerprint {
        libname: "test_lib".to_string(),
        version: Some("1.0.0".to_string()),
        rlib: FilePath::new("/path/to/test_lib.rlib"),
        mtime: time_now(),
    }]
}

#[test]
fn test_persistent_cache_new() {
    let cache = PersistentCache::new();
    assert_eq!(cache.cache_version, 1);
    assert!(cache.entries.is_empty());
}

#[test]
fn test_persistent_cache_insert_and_get() {
    let mut cache = PersistentCache::new();
    let fingerprints = test_lib_list();
    let cache_key = "test_key".to_string();
    let hash = 12345u64;

    cache.insert(cache_key.clone(), fingerprints.clone(), hash);

    let retrieved = cache.get(&cache_key, hash);
    assert!(retrieved.is_some());
    assert_eq!(retrieved.unwrap().len(), 1);
    assert_eq!(retrieved.unwrap()[0].libname, "test_lib");
}

#[test]
fn test_persistent_cache_get_with_wrong_hash() {
    let mut cache = PersistentCache::new();
    let fingerprints = test_lib_list();
    let cache_key = "test_key".to_string();
    let hash = 12345u64;
    let wrong_hash = 54321u64;

    cache.insert(cache_key.clone(), fingerprints.clone(), hash);

    let retrieved = cache.get(&cache_key, wrong_hash);
    assert!(retrieved.is_none());
}

#[test]
fn test_persistent_cache_save_and_load() {
    let mut cache = PersistentCache::new();
    let fingerprints = test_lib_list();
    let cache_key = "test_key".to_string();
    let hash = 12345u64;

    cache.insert(cache_key.clone(), fingerprints.clone(), hash);

    let saved = cache.save_to_file();
    let loaded_cache = PersistentCache::load_from_file(Some(&saved)).unwrap();

    let retrieved = loaded_cache.get(&cache_key, hash);
    assert!(retrieved.is_some());
    assert_eq!(retrieved.unwrap().len(), 1);
    assert_eq!(retrieved.unwrap()[0].libname, "test_lib");
}

#[test]
fn test_persistent_cache_generate_cache_key_hash() {
    let root_dir = "/tmp/.tmpA1b2C3";
    let target_dir = "/tmp/.tmpA1b2C3/target";

    let hash1 = PersistentCache::generate_cache_key_hash(root_dir, target_dir);
    let hash2 = PersistentCache::generate_cache_key_hash(root_dir, target_dir);
    assert_eq!(hash1, hash2);

    let different_target = "/tmp/.tmpA1b2C3/different_target";
    let hash3 = PersistentCache::generate_cache_key_hash(root_dir, different_target);
    assert_ne!(hash1, hash3);
}

#[test]
fn test_cache_key_hash_stability() {
    let root_dir = "/tmp/.tmpA1b2C3";
    let target_dir = "/tmp/.tmpA1b2C3/target";

    let hash1 = PersistentCache::generate_cache_key_hash(root_dir, target_dir);
    let hash2 = PersistentCache::generate_cache_key_hash(root_dir, target_dir);
    let hash3 = PersistentCache::generate_cache_key_hash(root_dir, target_dir);

    assert_eq!(hash1, hash2);
    assert_eq!(hash2, hash3);

    let different_root = "/tmp/.tmpA1b2C3/different";
    let hash4 = PersistentCache::generate_cache_key_hash(different_root, target_dir);

    assert_ne!(hash1, hash4);
}

#[test]
fn test_persistent_cache_file_operations() {
    let cache = PersistentCache::load_from_file(None).unwrap();
    assert_eq!(cache.cache_version, 1);
    assert!(cache.entries.is_empty());

    let mut cache = PersistentCache::new();
    cache.insert("test_key".to_string(), test_lib_list(), 12345);
    let saved = cache.save_to_file();

    let cache_file = PersistentCache::get_cache_file_path("/root");
    assert_eq!(cache_file, FilePath::new("/root").join(".skeptic-cache"));

    let loaded_cache = PersistentCache::load_from_file(Some(&saved)).unwrap();
    assert_eq!(loaded_cache.cache_version, 1);
    assert_eq!(loaded_cache.entries.len(), 1);

    let retrieved = loaded_cache.get("test_key", 12345);
    assert!(retrieved.is_some());
    assert_eq!(retrieved.unwrap().len(), 1);
}

#[test]
fn insert_replaces_what_was_there() {
    let mut cache = PersistentCache::new();
    cache.insert("a".to_string(), test_lib_list(), 1);
    cache.insert("b".to_string(), Vec::new(), 2);
    cache.insert("a".to_string(), Vec::new(), 3);
    assert_eq!(cache.entries.len(), 2);
    assert!(cache.get("a", 1).is_none());
    assert_eq!(cache.get("a", 3).unwrap().len(), 0);
    assert!(cache.get("b", 2).is_some());
    assert!(cache.get("c", 2).is_none());
}

#[test]
fn all_that_a_cache_holds_is_loaded() {
    let mut rlib = FilePath::new("/t/\u{8001}\u{864e}.json");
    rlib.pop();
    rlib.push("deps/x".to_string());
    rlib.set_extension("so".to_string());
    let list = vec![
        Fingerprint { libname: String::new(), version: None, rlib, mtime: -17 },
        Fingerprint {
            libname: "0123456789abcdef".to_string(),
            version: Some(String::new()),
            rlib: FilePath::new(""),
            mtime: i128::MIN,
        },
        Fingerprint {
            libname: "a\nb".to_string(),
            version: Some("1".to_string()),
            rlib: FilePath::new("p"),
            mtime: i128::MAX,
        },
    ];
    let mut cache = PersistentCache::new();
    cache.insert("k".to_string(), list.clone(), u64::MAX);
    cache.insert(String::new(), Vec::new(), 0);
    let loaded = PersistentCache::load_from_file(Some(&cache.save_to_file())).unwrap();
    assert_eq!(loaded.entries.len(), 2);
    let entry: &CacheEntry = &loaded.entries[0];
    assert_eq!(entry.key, "k");
    assert_eq!(entry.hash, u64::MAX);
    for (read, written) in entry.fingerprints.iter().zip(list.iter()) {
        assert_eq!(read.libname, written.libname);
        assert_eq!(read.version, written.version);
        assert_eq!(read.rlib, written.rlib);
        assert_eq!(read.mtime, written.mtime);
    }
    assert_eq!(entry.fingerprints.len(), 3);
    assert_eq!(loaded.save_to_file(), cache.save_to_file());
}

#[test]
fn saved_text_is_exact() {
    assert_eq!(PersistentCache::new().save_to_file(), "00000000000000010000000000000000");
    let mut cache = PersistentCache::new();
    cache.insert("\u{f6}k".to_string(), Vec::new(), 255);
    assert_eq!(
        cache.save_to_file(),
        "00000000000000010000000000000001\
         0000000000000002\u{f6}k00000000000000ff0000000000000000"
    );
}

#[test]
fn malformed_caches_are_refused() {
    let malformed = Error::Msg("Malformed cache file".to_string());
    let mut cache = PersistentCache::new();
    cache.insert("k".to_string(), test_lib_list(), 7);
    let saved = cache.save_to_file();
    for end in 0..saved.len() {
        assert_eq!(
            PersistentCache::load_from_file(Some(&saved[..end])).unwrap_err(),
            malformed
        );
    }
    let longer = format!("{} ", saved);
    assert_eq!(PersistentCache::load_from_file(Some(&longer)).unwrap_err(), malformed);
    assert_eq!(
        PersistentCache::load_from_file(Some("0000000000000001ffffffffffffffff")).unwrap_err(),
        malformed
    );
    assert_eq!(
        PersistentCache::load_from_file(Some("000000000000000G0000000000000000")).unwrap_err(),
        malformed
    );
}

#[test]
fn key_hash_is_exact() {
    // One step from the start: ((0xcbf29ce484222325 ^ 0) * 0x100000001b3) modulo 2^64.
    assert_eq!(
        PersistentCache::generate_cache_key_hash("", ""),
        0xcbf29ce484222325u64.wrapping_mul(0x100000001b3)
    );
    assert_eq!(PersistentCache::generate_cache_key_hash("", ""), 0xaf63bd4c8601b7df);
    assert_ne!(
        PersistentCache::generate_cache_key_hash("a", "b"),
        PersistentCache::generate_cache_key_hash("ab", "")
    );
}
