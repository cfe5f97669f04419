use optikv::Db;
use optikv::Error;
use optikv::OptimisticTransactionOptions;
use optikv::Options;
use optikv::WriteBatch;
use optikv::WriteOptions;

#[test]
fn test_optimistic_transactiondb() {
    let mut db = Db::open_default();
    db.put(b"k1", b"v1").unwrap();
    assert_eq!(db.get(b"k1").unwrap().unwrap(), b"v1".to_vec());
    assert_eq!(db.get_pinned(b"k1").unwrap().unwrap(), b"v1".to_vec());
}

#[test]
fn write_batch_works() {
    let mut db = Db::open_default();
    {
        // test put
        let mut batch = WriteBatch::default();
        assert!(db.get(b"k1").unwrap().is_none());
        assert_eq!(batch.len(), 0);
        assert!(batch.is_empty());
        batch.put(b"k1", b"v1111");
        assert_eq!(batch.len(), 1);
        assert!(!batch.is_empty());
        assert!(db.get(b"k1").unwrap().is_none());
        assert!(db.write(&batch).is_ok());
        let r: Result<Option<Vec<u8>>, Error> = db.get(b"k1");
        assert!(r.unwrap().unwrap() == b"v1111".to_vec());
    }
    {
        // test delete
        let mut batch = WriteBatch::default();
        batch.delete(b"k1");
        assert_eq!(batch.len(), 1);
        assert!(!batch.is_empty());
        assert!(db.write(&batch).is_ok());
        assert!(db.get(b"k1").unwrap().is_none());
    }
    {
        // test size_in_bytes
        let mut batch = WriteBatch::default();
        let before = batch.size_in_bytes();
        batch.put(b"k1", b"v1234567890");
        let after = batch.size_in_bytes();
        assert!(before + 10 <= after);
    }
}

#[test]
pub fn test_optimistic_transaction() {
    let mut db = Db::open_default();

    let mut trans = db.transaction_default();

    trans.put(&db, b"k1", b"v1").unwrap();
    trans.put(&db, b"k2", b"v2").unwrap();
    trans.put(&db, b"k3", b"v3").unwrap();
    trans.put(&db, b"k4", b"v4").unwrap();

    let trans_result = trans.commit(&mut db);

    assert!(trans_result.is_ok());

    let mut trans2 = db.transaction_default();

    let mut iter = trans2.raw_iterator(&db);

    iter.seek_to_first();

    assert!(iter.valid());
    assert_eq!(iter.key(), Some(b"k1".to_vec()));
    assert_eq!(iter.value(), Some(b"v1".to_vec()));

    iter.next();

    assert!(iter.valid());
    assert_eq!(iter.key(), Some(b"k2".to_vec()));
    assert_eq!(iter.value(), Some(b"v2".to_vec()));

    iter.next(); // k3
    iter.next(); // k4
    iter.next(); // invalid!

    assert!(!iter.valid());
    assert_eq!(iter.key(), None);
    assert_eq!(iter.value(), None);

    let mut trans3 = db.transaction_default();

    trans2.put(&db, b"k2", b"v5").unwrap();
    trans3.put(&db, b"k2", b"v6").unwrap();

    trans3.commit(&mut db).unwrap();

    trans2.commit(&mut db).unwrap_err();
}

#[test]
pub fn test_optimistic_transaction_rollback_savepoint() {
    let mut opts = Options::default();
    opts.create_if_missing(true);

    let mut db = Db::open(&opts);
    let write_options = WriteOptions::default();
    let optimistic_transaction_options = OptimisticTransactionOptions::new();

    let mut trans1 = db.transaction(&write_options, &optimistic_transaction_options);
    let mut trans2 = db.transaction(&write_options, &optimistic_transaction_options);

    trans1.put(&db, b"k1", b"v1").unwrap();

    let k1_2 = trans2.get(&db, b"k1").unwrap();
    assert!(k1_2.is_none());

    trans1.commit(&mut db).unwrap();

    let k1_2 = trans2.get(&db, b"k1").unwrap().unwrap();
    assert_eq!(k1_2, b"v1".to_vec());

    trans1.delete(&db, b"k1").unwrap();

    let k1_2 = trans2.get(&db, b"k1").unwrap().unwrap();
    assert_eq!(k1_2, b"v1".to_vec());

    trans1.rollback(&db).unwrap();

    let k1_2 = trans2.get(&db, b"k1").unwrap().unwrap();
    assert_eq!(k1_2, b"v1".to_vec());

    trans1.delete(&db, b"k1").unwrap();
    trans1.set_savepoint();
    trans1.put(&db, b"k2", b"v2").unwrap();
    trans1.rollback_to_savepoint().unwrap();
    trans1.commit(&mut db).unwrap();

    let k1_2 = trans2.get(&db, b"k1").unwrap();
    assert!(k1_2.is_none());

    let k2_2 = trans2.get(&db, b"k2").unwrap();
    assert!(k2_2.is_none());

    trans2.commit(&mut db).unwrap();
}

#[test]
pub fn test_optimistic_transaction_cf() {
    let mut opts = Options::default();
    opts.create_if_missing(true);
    opts.create_missing_column_families(true);
    let mut db = Db::open_cf(&opts, &["cf1"]).unwrap();
    {
        let cf_handle = db.cf_handle("cf1").unwrap();
        let write_options = WriteOptions::default();
        let optimistic_transaction_options = OptimisticTransactionOptions::new();

        let mut trans = db.transaction(&write_options, &optimistic_transaction_options);

        trans.put_cf(&db, &cf_handle, b"k1", b"v1").unwrap();
        trans.commit(&mut db).unwrap();

        let k1 = trans.get_cf(&db, &cf_handle, b"k1").unwrap().unwrap();
        assert_eq!(k1, b"v1".to_vec());

        let k1 = trans.get_pinned_cf(&db, &cf_handle, b"k1").unwrap().unwrap();
        assert_eq!(k1, b"v1".to_vec());

        trans.delete_cf(&db, &cf_handle, b"k1").unwrap();
        trans.commit(&mut db).unwrap();
    }

    db.drop_cf("cf1").unwrap();
}

#[test]
pub fn test_optimistic_transaction_snapshot() {
    let mut opts = Options::default();
    opts.create_if_missing(true);
    let mut db = Db::open(&opts);

    let write_options = WriteOptions::default();
    let optimistic_transaction_options = OptimisticTransactionOptions::new();
    let mut trans1 = db.transaction(&write_options, &optimistic_transaction_options);

    let mut optimistic_transaction_options_snapshot = OptimisticTransactionOptions::new();
    optimistic_transaction_options_snapshot.set_snapshot(true);
    // create transaction with snapshot
    let mut trans2 = db.transaction(&write_options, &optimistic_transaction_options_snapshot);

    trans1.put(&db, b"k1", b"v1").unwrap();

    let k1_2 = trans2.get(&db, b"k1").unwrap();
    assert!(k1_2.is_none());

    {
        let k1_3 = trans2.get_pinned(&db, b"k1").unwrap();
        assert!(k1_3.is_none());
    }

    trans1.commit(&mut db).unwrap();

    trans2.commit(&mut db).unwrap();
    drop(trans2);

    let mut trans3 = db.transaction(&write_options, &optimistic_transaction_options_snapshot);

    trans1.delete(&db, b"k1").unwrap();
    trans1.commit(&mut db).unwrap();

    // trans3 was begun with a snapshot taken while k1 was still committed,
    // so its reads keep seeing that fixed view after the delete commits
    let k1_3 = trans3.get(&db, b"k1").unwrap().unwrap();
    assert_eq!(k1_3, b"v1".to_vec());

    {
        let snapshot = trans3.snapshot().unwrap();
        let k1_3 = snapshot.get(&db, b"k1").unwrap().unwrap();
        assert_eq!(k1_3, b"v1".to_vec());

        let k1_4 = snapshot.get_pinned(&db, b"k1").unwrap().unwrap();
        assert_eq!(k1_4, b"v1".to_vec());
    }

    trans3.commit(&mut db).unwrap();
    drop(trans3);

    let mut trans4 = db.transaction(&write_options, &optimistic_transaction_options_snapshot);

    let k1_4 = trans4.snapshot().unwrap().get(&db, b"k1").unwrap();
    assert!(k1_4.is_none());

    trans4.commit(&mut db).unwrap();
}

#[test]
pub fn test_optimistic_transaction_merge() {
    let mut opts = Options::default();
    opts.create_if_missing(true);
    opts.set_merge_operator_associative("test operator");
    let mut db = Db::open(&opts);
    let mut trans = db.transaction_default();

    trans.put(&db, b"k1", b"a").unwrap();
    trans.merge(&db, b"k1", b"b").unwrap();
    trans.merge(&db, b"k1", b"c").unwrap();
    trans.merge(&db, b"k1", b"d").unwrap();
    trans.merge(&db, b"k1", b"efg").unwrap();
    assert_eq!(trans.get(&db, b"k1").unwrap().unwrap(), b"abcdefg".to_vec());
    trans.commit(&mut db).unwrap();

    let k1 = trans.get(&db, b"k1").unwrap().unwrap();
    assert_eq!(k1, b"abcdefg".to_vec());

    trans.commit(&mut db).unwrap();
}
