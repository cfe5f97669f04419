use optikv::Db;
use optikv::Error;
use optikv::OptimisticTransactionOptions;
use optikv::WriteBatch;
use optikv::WriteOptions;

// A transaction's own reads reflect its most recent local write of a key,
// whatever has been committed to the store meanwhile.
#[test]
fn local_write_wins_over_concurrent_commits() {
    let mut db = Db::open_default();
    db.put(b"k", b"stored").unwrap();

    let mut txn = db.transaction_default();
    txn.put(&db, b"k", b"one").unwrap();
    txn.delete(&db, b"k").unwrap();
    txn.put(&db, b"k", b"two").unwrap();
    assert_eq!(txn.get(&db, b"k").unwrap().unwrap(), b"two".to_vec());

    // someone else commits the same key; the local view does not move
    db.put(b"k", b"other").unwrap();
    assert_eq!(txn.get(&db, b"k").unwrap().unwrap(), b"two".to_vec());

    txn.delete(&db, b"k").unwrap();
    assert!(txn.get(&db, b"k").unwrap().is_none());
}

// Transactions with no key overlap both commit.
#[test]
fn disjoint_transactions_both_commit() {
    let mut db = Db::open_default();
    let mut t1 = db.transaction_default();
    let mut t2 = db.transaction_default();
    t1.put(&db, b"a", b"1").unwrap();
    t2.put(&db, b"b", b"2").unwrap();
    assert!(t1.commit(&mut db).is_ok());
    assert!(t2.commit(&mut db).is_ok());
    assert_eq!(db.get(b"a").unwrap().unwrap(), b"1".to_vec());
    assert_eq!(db.get(b"b").unwrap().unwrap(), b"2".to_vec());
}

// Two transactions begun on the same snapshot racing on one key: the first
// commit wins, the second fails with Conflict.
#[test]
fn snapshot_race_second_commit_conflicts() {
    let mut db = Db::open_default();
    let wo = WriteOptions::default();
    let mut with_snap = OptimisticTransactionOptions::new();
    with_snap.set_snapshot(true);

    let mut t1 = db.transaction(&wo, &with_snap);
    let mut t2 = db.transaction(&wo, &with_snap);
    t1.put(&db, b"k", b"v1").unwrap();
    t2.put(&db, b"k", b"v2").unwrap();

    assert!(t1.commit(&mut db).is_ok());
    let err = t2.commit(&mut db).unwrap_err();
    assert!(err.is_conflict());
    assert!(matches!(err, Error::Conflict));
    // the losing commit changed nothing
    assert_eq!(db.get(b"k").unwrap().unwrap(), b"v1".to_vec());
    // the handle is aborted afterwards
    assert!(matches!(t2.get(&db, b"k").unwrap_err(), Error::InvalidState));
}

// Savepoints nest; each rollback discards exactly what came after its mark.
#[test]
fn nested_savepoints_roll_back_in_order() {
    let mut db = Db::open_default();
    let mut txn = db.transaction_default();
    txn.put(&db, b"a", b"1").unwrap();
    txn.set_savepoint();
    txn.put(&db, b"b", b"2").unwrap();
    txn.set_savepoint();
    txn.put(&db, b"c", b"3").unwrap();

    txn.rollback_to_savepoint().unwrap();
    assert!(txn.get(&db, b"c").unwrap().is_none());
    assert_eq!(txn.get(&db, b"b").unwrap().unwrap(), b"2".to_vec());

    txn.rollback_to_savepoint().unwrap();
    assert!(txn.get(&db, b"b").unwrap().is_none());
    assert_eq!(txn.get(&db, b"a").unwrap().unwrap(), b"1".to_vec());

    // no savepoint is left
    assert!(matches!(txn.rollback_to_savepoint().unwrap_err(), Error::InvalidState));

    // the transaction is still usable
    txn.commit(&mut db).unwrap();
    assert_eq!(db.get(b"a").unwrap().unwrap(), b"1".to_vec());
    assert!(db.get(b"b").unwrap().is_none());
}

// Merge operands without a base value concatenate from nothing.
#[test]
fn merge_without_base_concatenates_operands() {
    let mut db = Db::open_default();
    let mut txn = db.transaction_default();
    txn.merge(&db, b"k", b"b").unwrap();
    txn.merge(&db, b"k", b"c").unwrap();
    assert_eq!(txn.get(&db, b"k").unwrap().unwrap(), b"bc".to_vec());
    txn.commit(&mut db).unwrap();
    assert_eq!(db.get(b"k").unwrap().unwrap(), b"bc".to_vec());
}

// Merge against a committed base value, through the store itself.
#[test]
fn db_merge_appends_to_stored_value() {
    let mut db = Db::open_default();
    db.put(b"k", b"ab").unwrap();
    db.merge(b"k", b"cd").unwrap();
    assert_eq!(db.get(b"k").unwrap().unwrap(), b"abcd".to_vec());
}

// A batch applies its writes in order, atomically.
#[test]
fn write_batch_applies_in_order() {
    let mut db = Db::open_default();
    let mut batch = WriteBatch::default();
    batch.put(b"k", b"a");
    batch.merge(b"k", b"b");
    batch.put(b"x", b"1");
    batch.delete(b"x");
    db.write(&batch).unwrap();
    assert_eq!(db.get(b"k").unwrap().unwrap(), b"ab".to_vec());
    assert!(db.get(b"x").unwrap().is_none());
}

// The batch's byte count is exactly keys plus payloads.
#[test]
fn write_batch_size_is_exact() {
    let mut batch = WriteBatch::default();
    assert_eq!(batch.size_in_bytes(), 0);
    batch.put(b"k1", b"v1");
    assert_eq!(batch.size_in_bytes(), 4);
    batch.delete(b"k1");
    assert_eq!(batch.size_in_bytes(), 6);
    batch.merge(b"k1", b"xyz");
    assert_eq!(batch.size_in_bytes(), 11);
}

// A snapshot keeps showing the state it was taken at.
#[test]
fn snapshot_ignores_later_commits() {
    let mut db = Db::open_default();
    db.put(b"k", b"v1").unwrap();
    let mut snap = db.snapshot();
    db.put(b"k", b"v2").unwrap();
    db.delete(b"k").unwrap();

    assert_eq!(snap.get(&db, b"k").unwrap().unwrap(), b"v1".to_vec());
    assert!(db.get(b"k").unwrap().is_none());

    // a released snapshot refuses reads
    snap.release();
    assert!(matches!(snap.get(&db, b"k").unwrap_err(), Error::InvalidState));
}

// A transaction iterator overlays local writes: puts win, deletes suppress.
#[test]
fn txn_iterator_reflects_overlay() {
    let mut db = Db::open_default();
    db.put(b"a", b"1").unwrap();
    db.put(b"b", b"2").unwrap();
    db.put(b"d", b"4").unwrap();

    let mut txn = db.transaction_default();
    txn.delete(&db, b"b").unwrap();
    txn.put(&db, b"c", b"3").unwrap();
    txn.put(&db, b"a", b"9").unwrap();

    let mut iter = txn.raw_iterator(&db);
    iter.seek_to_first();
    assert_eq!(iter.key(), Some(b"a".to_vec()));
    assert_eq!(iter.value(), Some(b"9".to_vec()));
    iter.next();
    assert_eq!(iter.key(), Some(b"c".to_vec()));
    iter.next();
    assert_eq!(iter.key(), Some(b"d".to_vec()));
    iter.next();
    assert!(!iter.valid());
}

// Seeking around the ends keeps the documented validity behavior.
#[test]
fn iterator_ends_stay_invalid() {
    let mut db = Db::open_default();
    let mut iter = db.raw_iterator();
    // an empty keyspace never validates
    iter.seek_to_first();
    assert!(!iter.valid());
    iter.seek_to_last();
    assert!(!iter.valid());

    db.put(b"m", b"1").unwrap();
    let mut iter = db.raw_iterator();
    // seeking past every key is invalid, and stays so through next/prev
    iter.seek(b"z");
    assert!(!iter.valid());
    iter.next();
    assert!(!iter.valid());
    iter.prev();
    assert!(!iter.valid());
    // seeking before every key from the other side
    iter.seek_for_prev(b"a");
    assert!(!iter.valid());
    iter.prev();
    assert!(!iter.valid());
}

// Dropping a column family invalidates its handle, with the right error.
#[test]
fn dropped_family_is_unknown() {
    let mut opts = optikv::Options::default();
    opts.create_missing_column_families(true);
    let mut db = Db::open_cf(&opts, &["cf1"]).unwrap();
    let h = db.cf_handle("cf1").unwrap();
    db.drop_cf("cf1").unwrap();
    let err = db.get_cf(&h, b"k").unwrap_err();
    assert!(matches!(err, Error::UnknownColumnFamily(n) if n == "cf1"));
    assert!(db.cf_handle("cf1").is_none());
    // "default" cannot be dropped
    assert!(matches!(db.drop_cf("default").unwrap_err(), Error::InvalidState));
}

// An iterator over a snapshot walks the entries as the snapshot saw them.
#[test]
fn snapshot_iterator_sees_old_entries() {
    let mut db = Db::open_default();
    db.put(b"a", b"1").unwrap();
    db.put(b"b", b"2").unwrap();
    let mut snap = db.snapshot();
    db.delete(b"a").unwrap();
    db.put(b"c", b"3").unwrap();

    let mut iter = db.raw_iterator_at(&snap).unwrap();
    iter.seek_to_first();
    assert_eq!(iter.key(), Some(b"a".to_vec()));
    iter.next();
    assert_eq!(iter.key(), Some(b"b".to_vec()));
    iter.next();
    assert!(!iter.valid());

    snap.release();
    assert!(matches!(db.raw_iterator_at(&snap).unwrap_err(), Error::InvalidState));
}

// Families can be added while the store runs, once each.
#[test]
fn create_cf_adds_a_family_once() {
    let mut db = Db::open_default();
    let opts = optikv::Options::default();
    assert!(db.cf_handle("logs").is_none());
    db.create_cf("logs", &opts).unwrap();
    let h = db.cf_handle("logs").unwrap();
    let mut txn = db.transaction_default();
    txn.put_cf(&db, &h, b"k", b"v").unwrap();
    txn.commit(&mut db).unwrap();
    assert_eq!(db.get_cf(&h, b"k").unwrap().unwrap(), b"v".to_vec());
    assert!(matches!(db.create_cf("logs", &opts).unwrap_err(), Error::InvalidState));
}
