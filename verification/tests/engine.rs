//! Tests of the storage engine: the stage/commit protocol, version-pinned
//! reads, scans, root hashes and the protocol errors.

use memdb::batch::{Batch, Op, Order};
use memdb::db::{CommitmentUpdate, DbError, MemDb};

fn b(s: &str) -> Vec<u8> {
    s.as_bytes().to_vec()
}

fn batch_of(entries: &[(&str, Option<&str>)]) -> Batch {
    let mut batch = Batch::new();
    for (k, v) in entries {
        let op = match v {
            Some(v) => Op::Insert(b(v)),
            None => Op::Delete,
        };
        batch.insert(b(k), op);
    }
    batch
}

fn update_of(root: &[u8], delta: &[(&str, Option<&str>)]) -> CommitmentUpdate {
    CommitmentUpdate { root_hash: Some(root.to_vec()), delta: batch_of(delta) }
}

#[test]
fn fresh_engine_is_empty() {
    let db = MemDb::new();
    assert_eq!(db.latest_version(), None);
    assert_eq!(db.state_storage(None).read(&b("a")), None);
    assert_eq!(db.state_commitment().read(&b("a")), None);
    assert_eq!(db.root_hash(None), Ok(None));
}

#[test]
fn first_commit_is_version_zero_then_increments() {
    let mut db = MemDb::new();
    let (v0, _) = db
        .flush_but_not_commit(batch_of(&[("a", Some("1"))]), update_of(b"h0", &[]))
        .unwrap();
    assert_eq!(v0, 0);
    db.commit().unwrap();
    assert_eq!(db.latest_version(), Some(0));

    let (v1, _) = db
        .flush_but_not_commit(batch_of(&[("b", Some("2"))]), update_of(b"h1", &[]))
        .unwrap();
    assert_eq!(v1, 1);
    db.commit().unwrap();
    assert_eq!(db.latest_version(), Some(1));
}

#[test]
fn version_pinning_is_exact_for_inserts() {
    let mut db = MemDb::new();
    db.flush_but_not_commit(batch_of(&[("k", Some("old"))]), update_of(b"h0", &[]))
        .unwrap();
    db.commit().unwrap();
    db.flush_but_not_commit(batch_of(&[("k", Some("new"))]), update_of(b"h1", &[]))
        .unwrap();
    db.commit().unwrap();

    assert_eq!(db.state_storage(Some(1)).read(&b("k")), Some(b("new")));
    assert_eq!(db.state_storage(Some(0)).read(&b("k")), Some(b("old")));
    assert_eq!(db.state_storage(None).read(&b("k")), Some(b("new")));
}

#[test]
fn tombstones_do_not_rewrite_history() {
    let mut db = MemDb::new();
    db.flush_but_not_commit(batch_of(&[("k", Some("v"))]), update_of(b"h0", &[]))
        .unwrap();
    db.commit().unwrap();
    db.flush_but_not_commit(batch_of(&[("k", None)]), update_of(b"h1", &[]))
        .unwrap();
    db.commit().unwrap();

    assert_eq!(db.state_storage(Some(1)).read(&b("k")), None);
    assert_eq!(db.state_storage(Some(0)).read(&b("k")), Some(b("v")));
}

#[test]
fn scan_descending_is_reverse_of_ascending() {
    let mut db = MemDb::new();
    db.flush_but_not_commit(
        batch_of(&[("a", Some("1")), ("c", Some("3")), ("b", Some("2")), ("d", Some("4"))]),
        update_of(b"h0", &[]),
    )
    .unwrap();
    db.commit().unwrap();

    let view = db.state_storage(None);
    let asc = view.scan(None, None, Order::Ascending);
    let desc = view.scan(None, None, Order::Descending);
    assert_eq!(
        asc,
        vec![(b("a"), b("1")), (b("b"), b("2")), (b("c"), b("3")), (b("d"), b("4"))]
    );
    let mut rev = desc.clone();
    rev.reverse();
    assert_eq!(asc, rev);
}

#[test]
fn scan_bounds_are_min_inclusive_max_exclusive() {
    let mut db = MemDb::new();
    db.flush_but_not_commit(
        batch_of(&[("a", Some("1")), ("b", Some("2")), ("c", Some("3"))]),
        update_of(b"h0", &[]),
    )
    .unwrap();
    db.commit().unwrap();

    let view = db.state_storage(None);
    let min = b("b");
    let max = b("c");
    let got = view.scan(Some(&min), Some(&max), Order::Ascending);
    assert_eq!(got, vec![(b("b"), b("2"))]);
}

#[test]
fn scan_skips_tombstones_and_honors_version() {
    let mut db = MemDb::new();
    db.flush_but_not_commit(
        batch_of(&[("a", Some("1")), ("b", Some("2"))]),
        update_of(b"h0", &[]),
    )
    .unwrap();
    db.commit().unwrap();
    db.flush_but_not_commit(batch_of(&[("a", None)]), update_of(b"h1", &[]))
        .unwrap();
    db.commit().unwrap();

    let now = db.state_storage(None).scan(None, None, Order::Ascending);
    assert_eq!(now, vec![(b("b"), b("2"))]);
    let before = db.state_storage(Some(0)).scan(None, None, Order::Ascending);
    assert_eq!(before, vec![(b("a"), b("1")), (b("b"), b("2"))]);
}

#[test]
fn second_flush_without_commit_is_rejected() {
    let mut db = MemDb::new();
    db.flush_but_not_commit(batch_of(&[("a", Some("1"))]), update_of(b"h0", &[]))
        .unwrap();
    let second = db.flush_but_not_commit(batch_of(&[("b", Some("2"))]), update_of(b"h1", &[]));
    assert_eq!(second, Err(DbError::ChangeSetAlreadySet));
    // Committed state is untouched by either flush.
    assert_eq!(db.latest_version(), None);
    assert_eq!(db.state_storage(None).read(&b("a")), None);
}

#[test]
fn commit_without_flush_is_rejected() {
    let mut db = MemDb::new();
    assert_eq!(db.commit(), Err(DbError::ChangeSetNotSet));
}

#[test]
fn staged_root_hash_becomes_queryable_after_commit() {
    let mut db = MemDb::new();
    let (version, root) = db
        .flush_but_not_commit(batch_of(&[("a", Some("1"))]), update_of(b"h0", &[]))
        .unwrap();
    assert_eq!(version, 0);
    assert_eq!(root, Some(b"h0".to_vec()));
    db.commit().unwrap();
    assert_eq!(db.root_hash(None), Ok(Some(b"h0".to_vec())));
    assert_eq!(db.state_storage(None).read(&b("a")), Some(b("1")));
}

#[test]
fn staged_but_not_committed_is_invisible_to_readers() {
    let mut db = MemDb::new();
    db.flush_but_not_commit(batch_of(&[("a", Some("1"))]), update_of(b"h0", &[]))
        .unwrap();
    db.commit().unwrap();

    let (version, root) = db
        .flush_but_not_commit(
            batch_of(&[("a", Some("2")), ("b", None)]),
            update_of(b"h1", &[]),
        )
        .unwrap();
    assert_eq!(version, 1);
    assert_ne!(root, Some(b"h0".to_vec()));
    // Before commit, readers still see the old state, and the recorded
    // root hash is still the old one.
    assert_eq!(db.state_storage(None).read(&b("a")), Some(b("1")));
    assert_eq!(db.root_hash(None), Ok(Some(b"h0".to_vec())));

    db.commit().unwrap();
    assert_eq!(db.state_storage(None).read(&b("a")), Some(b("2")));
    assert_eq!(db.root_hash(None), Ok(Some(b"h1".to_vec())));
}

#[test]
fn commitment_store_applies_delta_on_commit() {
    let mut db = MemDb::new();
    db.flush_but_not_commit(
        Batch::new(),
        update_of(b"h0", &[("node1", Some("x")), ("node2", Some("y"))]),
    )
    .unwrap();
    db.commit().unwrap();
    assert_eq!(db.state_commitment().read(&b("node1")), Some(b("x")));
    assert_eq!(db.state_commitment().read(&b("node2")), Some(b("y")));

    db.flush_but_not_commit(
        Batch::new(),
        update_of(b"h1", &[("node1", None), ("node2", Some("z"))]),
    )
    .unwrap();
    // The delta is invisible until commit.
    assert_eq!(db.state_commitment().read(&b("node1")), Some(b("x")));
    db.commit().unwrap();
    assert_eq!(db.state_commitment().read(&b("node1")), None);
    assert_eq!(db.state_commitment().read(&b("node2")), Some(b("z")));
}

#[test]
fn root_hash_of_unknown_version_is_absent() {
    let mut db = MemDb::new();
    db.flush_but_not_commit(batch_of(&[("a", Some("1"))]), update_of(b"h0", &[]))
        .unwrap();
    db.commit().unwrap();
    assert_eq!(db.root_hash(Some(0)), Ok(Some(b"h0".to_vec())));
    assert_eq!(db.root_hash(Some(7)), Ok(None));
}

#[test]
fn absent_root_hash_can_be_staged() {
    let mut db = MemDb::new();
    let (_, root) = db
        .flush_but_not_commit(
            Batch::new(),
            CommitmentUpdate { root_hash: None, delta: Batch::new() },
        )
        .unwrap();
    assert_eq!(root, None);
    db.commit().unwrap();
    assert_eq!(db.root_hash(None), Ok(None));
    assert_eq!(db.latest_version(), Some(0));
}

#[test]
fn default_engine_equals_fresh_engine() {
    let db = MemDb::default();
    assert_eq!(db.latest_version(), None);
    assert_eq!(db.root_hash(None), Ok(None));
}

#[test]
fn bounded_descending_scan() {
    let mut db = MemDb::new();
    db.flush_but_not_commit(
        batch_of(&[("a", Some("1")), ("b", Some("2")), ("c", Some("3")), ("d", Some("4"))]),
        update_of(b"h0", &[]),
    )
    .unwrap();
    db.commit().unwrap();

    let view = db.state_storage(None);
    let min = b("b");
    let max = b("d");
    let got = view.scan(Some(&min), Some(&max), Order::Descending);
    assert_eq!(got, vec![(b("c"), b("3")), (b("b"), b("2"))]);
}

#[test]
fn batch_tracks_its_keys() {
    let mut batch = Batch::new();
    assert!(!batch.contains_key(&b("a")));
    batch.insert(b("a"), Op::Insert(b("1")));
    assert!(batch.contains_key(&b("a")));
    assert!(!batch.contains_key(&b("b")));
    assert_eq!(batch.len(), 1);
}
