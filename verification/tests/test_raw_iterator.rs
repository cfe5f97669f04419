use optikv::Db;

#[test]
pub fn test_forwards_iteration() {
    let mut db = Db::open_default();
    db.put(b"k1", b"v1").unwrap();
    db.put(b"k2", b"v2").unwrap();
    db.put(b"k3", b"v3").unwrap();
    db.put(b"k4", b"v4").unwrap();

    let mut iter = db.raw_iterator();
    iter.seek_to_first();

    assert!(iter.valid());
    assert_eq!(iter.key(), Some(b"k1".to_vec()));
    assert_eq!(iter.value(), Some(b"v1".to_vec()));

    iter.next();

    assert!(iter.valid());
    assert_eq!(iter.key(), Some(b"k2".to_vec()));
    assert_eq!(iter.value(), Some(b"v2".to_vec()));

    iter.next(); // k3
    iter.next(); // k4
    iter.next(); // invalid!

    assert!(!iter.valid());
    assert_eq!(iter.key(), None);
    assert_eq!(iter.value(), None);
}

#[test]
pub fn test_seek_last() {
    let mut db = Db::open_default();
    db.put(b"k1", b"v1").unwrap();
    db.put(b"k2", b"v2").unwrap();
    db.put(b"k3", b"v3").unwrap();
    db.put(b"k4", b"v4").unwrap();

    let mut iter = db.raw_iterator();
    iter.seek_to_last();

    assert!(iter.valid());
    assert_eq!(iter.key(), Some(b"k4".to_vec()));
    assert_eq!(iter.value(), Some(b"v4".to_vec()));

    iter.prev();

    assert!(iter.valid());
    assert_eq!(iter.key(), Some(b"k3".to_vec()));
    assert_eq!(iter.value(), Some(b"v3".to_vec()));

    iter.prev(); // k2
    iter.prev(); // k1
    iter.prev(); // invalid!

    assert!(!iter.valid());
    assert_eq!(iter.key(), None);
    assert_eq!(iter.value(), None);
}

#[test]
pub fn test_seek() {
    let mut db = Db::open_default();
    db.put(b"k1", b"v1").unwrap();
    db.put(b"k2", b"v2").unwrap();
    db.put(b"k4", b"v4").unwrap();

    let mut iter = db.raw_iterator();
    iter.seek(b"k2");

    assert!(iter.valid());
    assert_eq!(iter.key(), Some(b"k2".to_vec()));
    assert_eq!(iter.value(), Some(b"v2".to_vec()));

    // Check it gets the next key when the key doesn't exist
    iter.seek(b"k3");

    assert!(iter.valid());
    assert_eq!(iter.key(), Some(b"k4".to_vec()));
    assert_eq!(iter.value(), Some(b"v4".to_vec()));
}

#[test]
pub fn test_seek_to_nonexistant() {
    let mut db = Db::open_default();
    db.put(b"k1", b"v1").unwrap();
    db.put(b"k3", b"v3").unwrap();
    db.put(b"k4", b"v4").unwrap();

    let mut iter = db.raw_iterator();
    iter.seek(b"k2");

    assert!(iter.valid());
    assert_eq!(iter.key(), Some(b"k3".to_vec()));
    assert_eq!(iter.value(), Some(b"v3".to_vec()));
}

#[test]
pub fn test_seek_for_prev() {
    let mut db = Db::open_default();
    db.put(b"k1", b"v1").unwrap();
    db.put(b"k2", b"v2").unwrap();
    db.put(b"k4", b"v4").unwrap();

    let mut iter = db.raw_iterator();
    iter.seek(b"k2");

    assert!(iter.valid());
    assert_eq!(iter.key(), Some(b"k2".to_vec()));
    assert_eq!(iter.value(), Some(b"v2".to_vec()));

    // Check it gets the previous key when the key doesn't exist
    iter.seek_for_prev(b"k3");

    assert!(iter.valid());
    assert_eq!(iter.key(), Some(b"k2".to_vec()));
    assert_eq!(iter.value(), Some(b"v2".to_vec()));
}

#[test]
fn iterator_test_past_end() {
    let mut db = Db::open_default();
    db.put(b"k1", b"v1111").unwrap();
    let mut iter = db.iterator();
    assert!(iter.next().is_some());
    assert!(iter.next().is_none());
    assert!(iter.next().is_none());
}
