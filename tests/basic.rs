use cnidarium::state::{Snapshot, StateDelta, StorageError};
use cnidarium::storage::Storage;

fn b(s: &str) -> Vec<u8> {
    s.as_bytes().to_vec()
}

fn entries(list: &[(&str, &str)]) -> Vec<(Vec<u8>, Vec<u8>)> {
    list.iter().map(|(k, v)| (b(k), b(v))).collect()
}

fn check_delta(d: &StateDelta, key: &str, expected: Option<&str>) {
    assert_eq!(d.get_raw(key.as_bytes()), expected.map(b));
}

fn check_snapshot(s: &Snapshot, key: &str, expected: Option<&str>) {
    assert_eq!(s.get_raw(key.as_bytes()), expected.map(b));
}

#[test]
fn simple_flow() {
    let mut storage = Storage::new();

    let mut state_init = storage.state().delta();
    check_delta(&state_init, "test", None);
    check_delta(&state_init, "a/aa", None);

    let mut tx00 = state_init.begin_transaction();
    tx00.put_raw(b("test"), b("test")).unwrap();
    check_delta(&tx00, "test", Some("test"));
    check_delta(&tx00, "a/aa", None);
    state_init = tx00.apply();
    check_delta(&state_init, "test", Some("test"));
    check_delta(&state_init, "a/aa", None);

    let mut tx01 = state_init.begin_transaction();
    tx01.put_raw(b("a/aa"), b("aa")).unwrap();
    tx01.put_raw(b("a/aaa"), b("aaa")).unwrap();
    tx01.put_raw(b("a/ab"), b("ab")).unwrap();
    tx01.put_raw(b("a/z"), b("z")).unwrap();
    check_delta(&tx01, "test", Some("test"));
    check_delta(&tx01, "a/aa", Some("aa"));
    check_delta(&tx01, "a/aaa", Some("aaa"));
    check_delta(&tx01, "a/ab", Some("ab"));
    check_delta(&tx01, "a/z", Some("z"));
    check_delta(&tx01, "a/c", None);
    let v0_listing = entries(&[("a/aa", "aa"), ("a/aaa", "aaa"), ("a/ab", "ab"), ("a/z", "z")]);
    assert_eq!(tx01.prefix_raw(b"a/"), v0_listing);
    state_init = tx01.apply();

    check_delta(&state_init, "test", Some("test"));
    check_delta(&state_init, "a/aa", Some("aa"));
    check_delta(&state_init, "a/aaa", Some("aaa"));
    check_delta(&state_init, "a/ab", Some("ab"));
    check_delta(&state_init, "a/z", Some("z"));
    check_delta(&state_init, "a/c", None);
    assert_eq!(state_init.prefix_raw(b"a/"), v0_listing);

    assert_eq!(storage.commit(state_init), Ok(0));

    let state0_snapshot = storage.state();
    assert_eq!(state0_snapshot.version(), Some(0));
    let mut state0 = state0_snapshot.delta();
    check_delta(&state0, "test", Some("test"));
    check_delta(&state0, "a/aa", Some("aa"));
    check_delta(&state0, "a/aaa", Some("aaa"));
    check_delta(&state0, "a/ab", Some("ab"));
    check_delta(&state0, "a/z", Some("z"));
    check_delta(&state0, "a/c", None);
    assert_eq!(state0.prefix_raw(b"a/"), v0_listing);

    let mut tx10 = state0.begin_transaction();
    tx10.delete(b("test")).unwrap();
    tx10.delete(b("a/aaa")).unwrap();
    tx10.put_raw(b("a/c"), b("c")).unwrap();
    check_delta(&tx10, "test", None);
    check_delta(&tx10, "a/aaa", None);
    check_delta(&tx10, "a/aa", Some("aa"));
    check_delta(&tx10, "a/ab", Some("ab"));
    check_delta(&tx10, "a/z", Some("z"));
    check_delta(&tx10, "a/c", Some("c"));
    let v1_before = entries(&[("a/aa", "aa"), ("a/ab", "ab"), ("a/c", "c"), ("a/z", "z")]);
    assert_eq!(tx10.prefix_raw(b"a/"), v1_before);
    state0 = tx10.apply();

    check_delta(&state0, "test", None);
    check_delta(&state0, "a/aaa", None);
    check_delta(&state0, "a/aa", Some("aa"));
    check_delta(&state0, "a/ab", Some("ab"));
    check_delta(&state0, "a/z", Some("z"));
    check_delta(&state0, "a/c", Some("c"));
    assert_eq!(state0.prefix_raw(b"a/"), v1_before);

    let mut tx11 = state0.begin_transaction();
    tx11.put_raw(b("a/ab"), b("ab2")).unwrap();
    check_delta(&tx11, "a/ab", Some("ab2"));
    check_delta(&tx11, "test", None);
    check_delta(&tx11, "a/aaa", None);
    check_delta(&tx11, "a/aa", Some("aa"));
    check_delta(&tx11, "a/z", Some("z"));
    check_delta(&tx11, "a/c", Some("c"));
    let v1_listing = entries(&[("a/aa", "aa"), ("a/ab", "ab2"), ("a/c", "c"), ("a/z", "z")]);
    assert_eq!(tx11.prefix_raw(b"a/"), v1_listing);
    state0 = tx11.apply();

    check_delta(&state0, "test", None);
    check_delta(&state0, "a/aaa", None);
    check_delta(&state0, "a/aa", Some("aa"));
    check_delta(&state0, "a/z", Some("z"));
    check_delta(&state0, "a/c", Some("c"));
    check_delta(&state0, "a/ab", Some("ab2"));
    assert_eq!(state0.prefix_raw(b"a/"), v1_listing);

    let state0a = storage.state();
    assert_eq!(state0a.version(), Some(0));

    assert_eq!(storage.commit(state0), Ok(1));

    let state1 = storage.state();
    assert_eq!(state1.version(), Some(1));
    check_snapshot(&state1, "test", None);
    check_snapshot(&state1, "a/aaa", None);
    check_snapshot(&state1, "a/aa", Some("aa"));
    check_snapshot(&state1, "a/ab", Some("ab2"));
    check_snapshot(&state1, "a/z", Some("z"));
    check_snapshot(&state1, "a/c", Some("c"));
    assert_eq!(state1.prefix_raw(b"a/"), v1_listing);

    check_snapshot(&state0a, "test", Some("test"));
    check_snapshot(&state0a, "a/aa", Some("aa"));
    check_snapshot(&state0a, "a/aaa", Some("aaa"));
    check_snapshot(&state0a, "a/ab", Some("ab"));
    check_snapshot(&state0a, "a/z", Some("z"));
    check_snapshot(&state0a, "a/c", None);
    assert_eq!(state0a.prefix_raw(b"a/"), v0_listing);
}

/// Commits the five keys of the first version.
fn version_zero() -> Storage {
    let mut storage = Storage::new();
    let mut d = storage.state().delta();
    for (k, v) in [("test", "test"), ("a/aa", "aa"), ("a/aaa", "aaa"), ("a/ab", "ab"), ("a/z", "z")] {
        d.put_raw(b(k), b(v)).unwrap();
    }
    assert_eq!(storage.commit(d), Ok(0));
    storage
}

#[test]
fn basic_put_read_commit() {
    let mut storage = Storage::new();
    assert_eq!(storage.version(), None);
    assert_eq!(storage.state().version(), None);
    let mut d0 = storage.state().delta();
    d0.put_raw(b("test"), b("test")).unwrap();
    assert_eq!(storage.commit(d0), Ok(0));
    let s = storage.state();
    check_snapshot(&s, "test", Some("test"));
    assert_eq!(s.version(), Some(0));
}

#[test]
fn delete_masks_backing() {
    let mut storage = version_zero();
    let mut d1 = storage.state().delta();
    d1.delete(b("test")).unwrap();
    d1.delete(b("a/aaa")).unwrap();
    d1.put_raw(b("a/c"), b("c")).unwrap();
    assert_eq!(storage.commit(d1), Ok(1));
    let s1 = storage.state();
    check_snapshot(&s1, "test", None);
    check_snapshot(&s1, "a/aaa", None);
    check_snapshot(&s1, "a/c", Some("c"));
    check_snapshot(&s1, "a/aa", Some("aa"));
    assert_eq!(
        s1.prefix_raw(b"a/"),
        entries(&[("a/aa", "aa"), ("a/ab", "ab"), ("a/c", "c"), ("a/z", "z")])
    );
}

#[test]
fn fork_isolation() {
    let mut storage = version_zero();
    let s0a = storage.state();
    let mut d1 = storage.state().delta();
    d1.delete(b("test")).unwrap();
    d1.delete(b("a/aaa")).unwrap();
    d1.put_raw(b("a/c"), b("c")).unwrap();
    assert_eq!(storage.commit(d1), Ok(1));
    check_snapshot(&s0a, "test", Some("test"));
    check_snapshot(&s0a, "a/aaa", Some("aaa"));
    check_snapshot(&s0a, "a/c", None);
    let again = storage.state_at(0).unwrap();
    check_snapshot(&again, "test", Some("test"));
    assert!(storage.state_at(2).is_none());
}

#[test]
fn nested_transaction_abort_and_apply() {
    let storage = version_zero();
    let d = storage.state().delta();
    let mut t = d.begin_transaction();
    t.put_raw(b("k"), b("1")).unwrap();
    check_delta(&t, "k", Some("1"));
    let d = t.abort();
    check_delta(&d, "k", None);

    let mut t = d.begin_transaction();
    t.put_raw(b("k"), b("1")).unwrap();
    let d = t.apply();
    check_delta(&d, "k", Some("1"));
}

#[test]
fn child_overlay_wins() {
    let storage = Storage::new();
    let mut d = storage.state().delta();
    d.put_raw(b("a/ab"), b("ab")).unwrap();
    let mut t = d.begin_transaction();
    t.put_raw(b("a/ab"), b("ab2")).unwrap();
    let d = t.apply();
    check_delta(&d, "a/ab", Some("ab2"));
    assert_eq!(d.prefix_raw(b"a/"), entries(&[("a/ab", "ab2")]));
}

#[test]
fn put_then_delete_reads_none() {
    let storage = Storage::new();
    let mut d = storage.state().delta();
    d.put_raw(b("x"), b("1")).unwrap();
    check_delta(&d, "x", Some("1"));
    d.delete(b("x")).unwrap();
    check_delta(&d, "x", None);
    assert_eq!(d.prefix_raw(b""), Vec::<(Vec<u8>, Vec<u8>)>::new());
}

#[test]
fn empty_key_rejected() {
    let storage = Storage::new();
    let mut d = storage.state().delta();
    assert_eq!(d.put_raw(Vec::new(), b("v")), Err(StorageError::EmptyKey));
    assert_eq!(d.delete(Vec::new()), Err(StorageError::EmptyKey));
    assert_eq!(d.prefix_raw(b""), Vec::<(Vec<u8>, Vec<u8>)>::new());
}

#[test]
fn empty_prefix_lists_everything_in_order() {
    let storage = version_zero();
    let s = storage.state();
    assert_eq!(
        s.prefix_raw(b""),
        entries(&[("a/aa", "aa"), ("a/aaa", "aaa"), ("a/ab", "ab"), ("a/z", "z"), ("test", "test")])
    );
}

#[test]
fn prefix_listing_excludes_other_keys() {
    let storage = Storage::new();
    let mut d = storage.state().delta();
    for k in ["b", "a", "ab", "a\u{7f}", "aa", "abc", "ac"] {
        d.put_raw(b(k), b(k)).unwrap();
    }
    assert_eq!(d.prefix_raw(b"ab"), entries(&[("ab", "ab"), ("abc", "abc")]));
    assert_eq!(
        d.prefix_raw(b"a"),
        entries(&[("a", "a"), ("aa", "aa"), ("ab", "ab"), ("abc", "abc"), ("ac", "ac"), ("a\u{7f}", "a\u{7f}")])
    );
}

#[test]
fn empty_commit_makes_new_version_with_same_contents() {
    let mut storage = version_zero();
    let d = storage.state().delta();
    assert_eq!(storage.commit(d), Ok(1));
    let s = storage.state();
    assert_eq!(s.version(), Some(1));
    assert_eq!(s.prefix_raw(b""), storage.state_at(0).unwrap().prefix_raw(b""));
}

#[test]
fn stale_commit_rejected() {
    let mut storage = version_zero();
    let stale = storage.state_at(0).unwrap().delta();
    let d = storage.state().delta();
    assert_eq!(storage.commit(d), Ok(1));
    assert_eq!(storage.commit(stale), Err(StorageError::StaleCommit));
    assert_eq!(storage.version(), Some(1));
}

#[test]
fn outstanding_transaction_rejected() {
    let mut storage = Storage::new();
    let d = storage.state().delta();
    let t = d.begin_transaction();
    assert_eq!(storage.commit(t), Err(StorageError::OutstandingTransaction));
    assert_eq!(storage.version(), None);
}

#[test]
fn reads_are_repeatable() {
    let storage = version_zero();
    let s = storage.state_at(0).unwrap();
    assert_eq!(s.get_raw(b"a/ab"), s.get_raw(b"a/ab"));
    assert_eq!(s.get_raw(b"a/ab"), storage.state_at(0).unwrap().get_raw(b"a/ab"));
}

#[test]
fn side_store_is_separate_and_committed() {
    let mut storage = Storage::new();
    let mut d = storage.state().delta();
    d.nonverifiable_put_raw(b("blob/1"), b("one")).unwrap();
    d.nonverifiable_put_raw(b("blob/2"), b("two")).unwrap();
    d.put_raw(b("blob/1"), b("tree")).unwrap();
    assert_eq!(d.nonverifiable_get_raw(b"blob/1"), Some(b("one")));
    assert_eq!(d.get_raw(b"blob/1"), Some(b("tree")));
    assert_eq!(d.get_raw(b"blob/2"), None);
    assert_eq!(d.nonverifiable_put_raw(Vec::new(), b("x")), Err(StorageError::EmptyKey));

    let mut t = d.begin_transaction();
    t.nonverifiable_delete(b("blob/2")).unwrap();
    assert_eq!(t.nonverifiable_get_raw(b"blob/2"), None);
    let d = t.abort();
    assert_eq!(d.nonverifiable_get_raw(b"blob/2"), Some(b("two")));

    let mut t = d.begin_transaction();
    t.nonverifiable_delete(b("blob/2")).unwrap();
    let d = t.apply();
    assert_eq!(d.nonverifiable_prefix_raw(b"blob/"), entries(&[("blob/1", "one")]));

    assert_eq!(storage.commit(d), Ok(0));
    let s = storage.state();
    assert_eq!(s.nonverifiable_get_raw(b"blob/1"), Some(b("one")));
    assert_eq!(s.nonverifiable_get_raw(b"blob/2"), None);
    assert_eq!(s.get_raw(b"blob/1"), Some(b("tree")));
    assert_eq!(s.nonverifiable_prefix_raw(b""), entries(&[("blob/1", "one")]));
    assert_eq!(s.prefix_raw(b""), entries(&[("blob/1", "tree")]));
}
