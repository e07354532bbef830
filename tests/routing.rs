use std::sync::Arc;

use cnidarium::multistore::{MultistoreCache, MultistoreConfig, RoutingError};
use cnidarium::storage::Storage;
use cnidarium::substore::SubstoreConfig;

fn config() -> MultistoreConfig {
    MultistoreConfig {
        main_store: Arc::new(SubstoreConfig::new("")),
        substores: vec![
            Arc::new(SubstoreConfig::new("ibc/")),
            Arc::new(SubstoreConfig::new("dex/")),
        ],
    }
}

#[test]
fn routes_by_first_matching_prefix() {
    let cfg = config();
    let (key, store) = cfg.route_key_bytes(b"ibc/channel");
    assert_eq!(key, b"channel");
    assert_eq!(store.prefix, "ibc/");
    let (key, store) = cfg.route_key_str("dex/pool");
    assert_eq!(key, "pool");
    assert_eq!(store.prefix, "dex/");
}

#[test]
fn unclaimed_key_goes_to_main() {
    let cfg = config();
    let (key, store) = cfg.route_key_str("staking/x");
    assert_eq!(key, "staking/x");
    assert_eq!(store.prefix, "");
    assert_eq!(cfg.find_substore(b"ib").prefix, "");
}

#[test]
fn exact_prefix_routes_to_main() {
    let cfg = config();
    let (key, store) = cfg.route_key_str("ibc/");
    assert_eq!(key, "ibc/");
    assert_eq!(store.prefix, "");
    let (key, store) = cfg.route_key_bytes(b"dex/");
    assert_eq!(key, b"dex/");
    assert!(Arc::ptr_eq(&store, &cfg.main_store));
}

#[test]
fn first_prefix_wins() {
    let cfg = MultistoreConfig {
        main_store: Arc::new(SubstoreConfig::new("")),
        substores: vec![Arc::new(SubstoreConfig::new("a")), Arc::new(SubstoreConfig::new("ab"))],
    };
    let (key, store) = cfg.route_key_str("ab");
    assert_eq!(key, "b");
    assert_eq!(store.prefix, "a");
    assert_eq!(cfg.iter().len(), 2);
    assert_eq!(cfg.iter()[1].prefix, "ab");
}

#[test]
fn multibyte_prefix_strips_whole_characters() {
    let cfg = MultistoreConfig {
        main_store: Arc::new(SubstoreConfig::new("")),
        substores: vec![Arc::new(SubstoreConfig::new("é/"))],
    };
    let (key, store) = cfg.route_key_str("é/ü");
    assert_eq!(key, "ü");
    assert_eq!(store.prefix, "é/");
}

#[test]
fn default_config_has_only_main() {
    let cfg = MultistoreConfig::default();
    assert_eq!(cfg.iter().len(), 0);
    let (key, store) = cfg.route_key_bytes(b"anything");
    assert_eq!(key, b"anything");
    assert_eq!(store.prefix, "");
}

#[test]
fn cache_tracks_versions_by_prefix() {
    let mut cache = MultistoreCache::from_config(config());
    let ibc = cache.config.substores[0].clone();
    assert_eq!(cache.get_version(&ibc), None);
    cache.set_version(ibc.clone(), 3);
    assert_eq!(cache.get_version(&ibc), Some(3));
    cache.set_version(Arc::new(SubstoreConfig::new("ibc/")), 4);
    assert_eq!(cache.get_version(&ibc), Some(4));
    assert_eq!(cache.substores.len(), 1);
    let main = cache.config.main_store.clone();
    assert_eq!(cache.get_version(&main), None);
    let (key, store) = cache.route_key_str("ibc/x");
    assert_eq!((key, store.prefix.as_str()), ("x", "ibc/"));
    let (key, _) = cache.route_key_bytes(b"other");
    assert_eq!(key, b"other");
}

#[test]
fn default_cache_is_empty() {
    let cache = MultistoreCache::default();
    assert_eq!(cache.substores.len(), 0);
    assert_eq!(cache.config.iter().len(), 0);
}

#[test]
fn config_construction_rejects_collisions() {
    let ok = MultistoreConfig::new(vec![Arc::new(SubstoreConfig::new("a/")), Arc::new(SubstoreConfig::new("b/"))]);
    assert!(ok.is_ok());
    assert_eq!(ok.unwrap().main_store.prefix, "");
    let dup = MultistoreConfig::new(vec![Arc::new(SubstoreConfig::new("a/")), Arc::new(SubstoreConfig::new("a/"))]);
    assert_eq!(dup.err(), Some(RoutingError::DuplicatePrefix));
    let empty = MultistoreConfig::new(vec![Arc::new(SubstoreConfig::new("a/")), Arc::new(SubstoreConfig::new(""))]);
    assert_eq!(empty.err(), Some(RoutingError::EmptyPrefix));
}

#[test]
fn commit_advances_only_written_substores() {
    let cfg = MultistoreConfig::new(vec![Arc::new(SubstoreConfig::new("ibc/")), Arc::new(SubstoreConfig::new("dex/"))]).unwrap();
    let ibc = cfg.substores[0].clone();
    let dex = cfg.substores[1].clone();
    let main = cfg.main_store.clone();
    let mut storage = Storage::with_config(cfg);
    assert_eq!(storage.substore_version(&ibc), None);

    let mut d = storage.state().delta();
    d.put_raw(b"ibc/a".to_vec(), b"1".to_vec()).unwrap();
    assert_eq!(storage.commit(d), Ok(0));
    assert_eq!(storage.substore_version(&ibc), Some(0));
    assert_eq!(storage.substore_version(&dex), None);
    assert_eq!(storage.substore_version(&main), Some(0));

    let mut d = storage.state().delta();
    d.put_raw(b"ibc/b".to_vec(), b"2".to_vec()).unwrap();
    d.delete(b"dex/x".to_vec()).unwrap();
    assert_eq!(storage.commit(d), Ok(1));
    assert_eq!(storage.substore_version(&ibc), Some(1));
    assert_eq!(storage.substore_version(&dex), Some(0));
    assert_eq!(storage.substore_version(&main), Some(1));

    // A key equal to a prefix belongs to the main store.
    let mut d = storage.state().delta();
    d.put_raw(b"ibc/".to_vec(), b"3".to_vec()).unwrap();
    assert_eq!(storage.commit(d), Ok(2));
    assert_eq!(storage.substore_version(&ibc), Some(1));
    assert_eq!(storage.substore_version(&main), Some(2));

    // An empty delta moves only the main store.
    let d = storage.state().delta();
    assert_eq!(storage.commit(d), Ok(3));
    assert_eq!(storage.substore_version(&ibc), Some(1));
    assert_eq!(storage.substore_version(&dex), Some(0));
    assert_eq!(storage.substore_version(&main), Some(3));
}
