use std::collections::{HashMap, HashSet};

use skeptic::cache::PersistentCache;
use skeptic::error::Error;
use skeptic::fingerprint::Fingerprint;
use skeptic::locked::LockedDeps;
use skeptic::metadata::{edition_str, newest_edition, Edition, Metadata, Node, Package};
use skeptic::path::FilePath;

fn package_with(name: &str, version: &str, edition: Edition) -> Package {
    Package {
        name: name.to_string(),
        version: version.to_string(),
        id: format!("{}@{}", name, version),
        manifest_path: format!("/work/{}-{}/Cargo.toml", name, version),
        edition,
    }
}

fn node_with(id: &str, dependencies: &[&str]) -> Node {
    Node {
        id: id.to_string(),
        dependencies: dependencies.iter().map(|d| d.to_string()).collect(),
    }
}

/// What is known of a package `test_package` in `/work` that depends on `rand`.
fn rand_project() -> Metadata {
    let mut root = package_with("test_package", "0.1.0", Edition::E2021);
    root.manifest_path = "/work/Cargo.toml".to_string();
    Metadata {
        packages: vec![
            package_with("autocfg", "1.1.0", Edition::E2015),
            package_with("cfg-if", "1.0.0", Edition::E2018),
            package_with("getrandom", "0.2.8", Edition::E2018),
            package_with("libc", "0.2.139", Edition::E2015),
            package_with("ppv-lite86", "0.2.17", Edition::E2018),
            package_with("rand", "0.8.5", Edition::E2018),
            package_with("rand_chacha", "0.3.1", Edition::E2018),
            package_with("rand_core", "0.6.4", Edition::E2018),
            root,
        ],
        resolve: Some(vec![
            node_with("autocfg@1.1.0", &[]),
            node_with("cfg-if@1.0.0", &[]),
            node_with("getrandom@0.2.8", &["cfg-if@1.0.0", "libc@0.2.139"]),
            node_with("libc@0.2.139", &[]),
            node_with("ppv-lite86@0.2.17", &[]),
            node_with("rand@0.8.5", &["libc@0.2.139", "rand_chacha@0.3.1", "rand_core@0.6.4"]),
            node_with("rand_chacha@0.3.1", &["ppv-lite86@0.2.17", "rand_core@0.6.4"]),
            node_with("rand_core@0.6.4", &["getrandom@0.2.8"]),
            node_with("test_package@0.1.0", &["rand@0.8.5"]),
        ]),
    }
}

fn manifest_text() -> String {
    "/work/Cargo.toml".to_string()
}

/// Takes the packages out one by one.
fn drain(mut lock: LockedDeps) -> HashMap<String, String> {
    let mut map = HashMap::new();
    while let Some((name, version)) = lock.next() {
        map.insert(name, version);
    }
    map
}

#[test]
fn test_locked_deps_parsing() {
    let locked_deps = LockedDeps::from_path(&manifest_text(), Ok(rand_project())).unwrap();
    let deps: HashMap<String, String> = drain(locked_deps);

    assert!(deps.contains_key("rand"));
    assert_eq!(deps.get("rand"), Some(&"0.8.5".to_string()));
    assert!(deps.contains_key("test_package"));
    assert_eq!(deps.get("test_package"), Some(&"0.1.0".to_string()));

    // What is reached by way of others is there too.
    assert!(deps.contains_key("rand_core"));
    assert!(deps.contains_key("cfg_if"));
}

#[test]
fn test_locked_deps_direct_dependencies() {
    let locked_deps = LockedDeps::from_path(&manifest_text(), Ok(rand_project())).unwrap();
    let direct_deps: HashMap<String, String> =
        locked_deps.get_direct_dependencies().into_iter().collect();

    assert!(direct_deps.contains_key("rand"));
    assert_eq!(direct_deps.get("rand"), Some(&"0.8.5".to_string()));

    // Reached only by way of another package.
    assert!(!direct_deps.contains_key("rand_core"));
}

#[test]
fn test_locked_deps_error_handling() {
    let result = LockedDeps::from_path(
        &"/work/nonexistent/Cargo.toml".to_string(),
        Err("manifest path does not exist".to_string()),
    );
    assert!(result.is_err());
    assert_eq!(
        result.unwrap_err(),
        Error::Metadata("manifest path does not exist".to_string())
    );
}

#[test]
fn lock_lists_the_project_first_and_nothing_unreached() {
    let lock = LockedDeps::from_path(&manifest_text(), Ok(rand_project())).unwrap();
    assert_eq!(lock.dependencies.len(), 8);
    assert_eq!(lock.dependencies[0], ("test_package".to_string(), "0.1.0".to_string()));
    assert_eq!(lock.dependencies[1], ("rand".to_string(), "0.8.5".to_string()));
    assert_eq!(lock.locked_version(&"autocfg".to_string()), None);
    assert_eq!(lock.locked_version(&"ppv_lite86".to_string()), Some("0.2.17".to_string()));
    assert_eq!(lock.locked_version(&"ppv-lite86".to_string()), None);
}

#[test]
fn direct_version_goes_before_others() {
    let mut project = rand_project();
    project.packages.insert(0, package_with("rand", "0.7.3", Edition::E2018));
    project.packages.push(package_with("criterion", "0.3.0", Edition::E2018));
    let nodes = project.resolve.as_mut().unwrap();
    nodes.insert(0, node_with("rand@0.7.3", &[]));
    nodes.push(node_with("criterion@0.3.0", &["rand@0.7.3"]));
    let last = nodes.len() - 2;
    nodes[last].dependencies =
        vec!["criterion@0.3.0".to_string(), "rand@0.8.5".to_string()];

    let lock = LockedDeps::from_path(&manifest_text(), Ok(project)).unwrap();
    assert_eq!(lock.locked_version(&"rand".to_string()), Some("0.8.5".to_string()));
    assert!(lock.dependencies.contains(&("rand".to_string(), "0.7.3".to_string())));
    assert_eq!(drain(lock).get("rand"), Some(&"0.8.5".to_string()));
}

#[test]
fn cycles_end() {
    let mut project = rand_project();
    let nodes = project.resolve.as_mut().unwrap();
    nodes[7].dependencies.push("rand@0.8.5".to_string());
    nodes[5].dependencies.push("test_package@0.1.0".to_string());
    let lock = LockedDeps::from_path(&manifest_text(), Ok(project)).unwrap();
    assert_eq!(lock.dependencies.len(), 8);
}

#[test]
fn lock_needs_a_graph_and_the_project() {
    let mut project = rand_project();
    project.resolve = None;
    assert_eq!(
        LockedDeps::from_path(&manifest_text(), Ok(project)).unwrap_err(),
        Error::Msg("Missing dependency metadata".to_string())
    );
    assert_eq!(
        LockedDeps::from_path(&"/work//Cargo.toml".to_string(), Ok(rand_project())).unwrap_err(),
        Error::Msg("Root package not found".to_string())
    );
}

#[test]
fn project_without_a_node_is_locked_to_nothing() {
    let mut project = rand_project();
    project.resolve.as_mut().unwrap().pop();
    let lock = LockedDeps::from_path(&manifest_text(), Ok(project)).unwrap();
    assert!(lock.dependencies.is_empty());
    assert!(lock.get_direct_dependencies().is_empty());
}

#[test]
fn identifier_without_a_package_is_passed_over() {
    let mut project = rand_project();
    project.packages.remove(5);
    let lock = LockedDeps::from_path(&manifest_text(), Ok(project)).unwrap();
    assert_eq!(lock.locked_version(&"rand".to_string()), None);
    assert_eq!(lock.locked_version(&"rand_core".to_string()), Some("0.6.4".to_string()));
}

#[test]
fn next_takes_from_the_end() {
    let mut lock = LockedDeps {
        dependencies: vec![
            ("a".to_string(), "1".to_string()),
            ("b".to_string(), "2".to_string()),
        ],
        direct: Vec::new(),
    };
    assert_eq!(lock.next(), Some(("b".to_string(), "2".to_string())));
    assert_eq!(lock.next(), Some(("a".to_string(), "1".to_string())));
    assert_eq!(lock.next(), None);
}

#[test]
fn editions_have_names() {
    assert_eq!(edition_str(&Edition::E2015), Some("2015"));
    assert_eq!(edition_str(&Edition::E2018), Some("2018"));
    assert_eq!(edition_str(&Edition::E2021), Some("2021"));
    assert_eq!(edition_str(&Edition::Other), None);
}

#[test]
fn newest_named_edition_is_taken() {
    let of = |editions: &[Edition]| {
        let packages: Vec<Package> =
            editions.iter().map(|e| package_with("p", "1", *e)).collect();
        newest_edition(&packages)
    };
    assert_eq!(of(&[]), None);
    assert_eq!(of(&[Edition::Other]), None);
    assert_eq!(of(&[Edition::E2015, Edition::Other]), Some("2015"));
    assert_eq!(of(&[Edition::E2018, Edition::E2015]), Some("2018"));
    assert_eq!(of(&[Edition::E2018, Edition::E2021, Edition::E2018]), Some("2021"));
}

#[test]
fn test_locked_deps_malformed_cargo_lock() {
    let result = LockedDeps::from_path(
        &manifest_text(),
        Err("expected `.`, `=` after a key".to_string()),
    );
    assert!(result.is_err());
}

/// What is known of a package `test_package` in `/work` that depends on these.
fn project_on(dependencies: &[(&str, &str)]) -> Metadata {
    let mut root = package_with("test_package", "0.1.0", Edition::E2021);
    root.manifest_path = manifest_text();
    let ids: Vec<String> = dependencies.iter().map(|(n, v)| format!("{}@{}", n, v)).collect();
    let mut packages = vec![root];
    let mut nodes = vec![Node {
        id: "test_package@0.1.0".to_string(),
        dependencies: ids.clone(),
    }];
    for ((name, version), id) in dependencies.iter().zip(ids.iter()) {
        packages.push(package_with(name, version, Edition::E2018));
        nodes.push(node_with(id, &[]));
    }
    Metadata { packages, resolve: Some(nodes) }
}

/// Writes the cache and reads it back.
fn kept(cache: &PersistentCache) -> PersistentCache {
    PersistentCache::load_from_file(Some(&cache.save_to_file())).unwrap()
}

#[test]
fn test_cache_invalidation_with_missing_dependencies() {
    let root_dir = "/work";
    let mut cache = PersistentCache::new();
    let incomplete_fingerprints = vec![Fingerprint {
        libname: "rand-0.8.5".to_string(),
        version: Some("0.8.5".to_string()),
        rlib: FilePath::new("/path/to/rand.rlib"),
        mtime: 0,
    }];

    let target_dir = "/work/target";
    let cache_key = format!("{}:{}", root_dir, target_dir);
    let cache_key_hash = PersistentCache::generate_cache_key_hash(root_dir, target_dir);

    cache.insert(cache_key.clone(), incomplete_fingerprints.clone(), cache_key_hash);

    let loaded_cache = kept(&cache);
    let cached_deps = loaded_cache.get(&cache_key, cache_key_hash);
    assert!(cached_deps.is_some());

    let project = project_on(&[("rand", "0.8.5"), ("ndarray", "0.15.6")]);
    let locked_deps = LockedDeps::from_path(&manifest_text(), Ok(project)).unwrap();
    let expected_deps: HashMap<String, String> = drain(locked_deps);

    let cached_dep_names: HashSet<String> =
        cached_deps.unwrap().iter().map(|d| d.name().to_string()).collect();

    let missing_deps: Vec<&String> = expected_deps
        .keys()
        .filter(|dep_name| !cached_dep_names.contains(*dep_name))
        .collect();

    assert!(!missing_deps.is_empty());
    assert!(missing_deps.contains(&&"ndarray".to_string()));
    assert!(!missing_deps.contains(&&"rand".to_string()));
}

#[test]
fn test_cache_validation_with_complete_dependencies() {
    let root_dir = "/work";
    let project = project_on(&[("rand", "0.8.5")]);
    let locked_deps = LockedDeps::from_path(&manifest_text(), Ok(project)).unwrap();
    let expected_deps: HashMap<String, String> = drain(locked_deps);

    let mut cache = PersistentCache::new();
    let complete_fingerprints: Vec<Fingerprint> = expected_deps
        .iter()
        .map(|(name, version)| Fingerprint {
            libname: format!("{}-{}", name, version),
            version: Some(version.clone()),
            rlib: FilePath::new(&format!("/path/to/{}.rlib", name)),
            mtime: 0,
        })
        .collect();

    let target_dir = "/work/target";
    let cache_key = format!("{}:{}", root_dir, target_dir);
    let cache_key_hash = PersistentCache::generate_cache_key_hash(root_dir, target_dir);

    cache.insert(cache_key.clone(), complete_fingerprints.clone(), cache_key_hash);

    let loaded_cache = kept(&cache);
    let cached_deps = loaded_cache.get(&cache_key, cache_key_hash);
    assert!(cached_deps.is_some());

    let cached_dep_names: HashSet<String> =
        cached_deps.unwrap().iter().map(|d| d.name().to_string()).collect();

    let missing_deps: Vec<&String> = expected_deps
        .keys()
        .filter(|dep_name| !cached_dep_names.contains(*dep_name))
        .collect();

    assert!(missing_deps.is_empty());
}
