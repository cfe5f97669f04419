use optikv::ColumnFamilyDescriptor;
use optikv::Error;
use optikv::FullOptions;
use optikv::Options;

fn names(full: &FullOptions) -> Vec<String> {
    full.cf_descriptors.iter().map(|cfd| cfd.name.clone()).collect()
}

#[test]
fn complete_column_families_adds_missing() {
    let mut full = FullOptions {
        db_opts: Options::default(),
        cf_descriptors: vec![ColumnFamilyDescriptor::new("cf_A", Options::default())],
    };
    full.complete_column_families(&["cf_A", "cf_B"], false).unwrap();
    // a "default" descriptor is put at the front, cf_B is appended
    assert_eq!(names(&full), vec!["default".to_string(), "cf_A".to_string(), "cf_B".to_string()]);

    // a second run changes nothing
    full.complete_column_families(&["cf_A", "cf_B"], false).unwrap();
    assert_eq!(names(&full), vec!["default".to_string(), "cf_A".to_string(), "cf_B".to_string()]);
}

#[test]
fn complete_column_families_keeps_existing_default() {
    let mut full = FullOptions {
        db_opts: Options::default(),
        cf_descriptors: vec![ColumnFamilyDescriptor::new("default", Options::default())],
    };
    full.complete_column_families(&["cf_X"], false).unwrap();
    assert_eq!(names(&full), vec!["default".to_string(), "cf_X".to_string()]);
}

#[test]
fn complete_column_families_rejects_unknown() {
    let mut full = FullOptions {
        db_opts: Options::default(),
        cf_descriptors: vec![ColumnFamilyDescriptor::new("stray", Options::default())],
    };
    let err = full.complete_column_families(&["cf_A"], false).unwrap_err();
    assert!(matches!(err, Error::UnknownColumnFamily(n) if n == "stray"));
    // nothing was changed
    assert_eq!(names(&full), vec!["stray".to_string()]);

    // the same descriptors pass when unknown families are ignored
    full.complete_column_families(&["cf_A"], true).unwrap();
    assert_eq!(names(&full), vec!["default".to_string(), "stray".to_string(), "cf_A".to_string()]);
}

#[test]
fn complete_column_families_rejects_reserved_name() {
    let mut full = FullOptions { db_opts: Options::default(), cf_descriptors: Vec::new() };
    let err = full.complete_column_families(&["cf_A", "default"], false).unwrap_err();
    assert!(matches!(err, Error::InvalidState));
    // the names before the reserved one were processed
    assert_eq!(names(&full), vec!["default".to_string(), "cf_A".to_string()]);
}

#[test]
fn options_flags_round_trip() {
    let mut opts = Options::default();
    assert!(!opts.create_missing);
    assert!(!opts.create_missing_cfs);
    assert!(opts.merge_operator.is_none());
    opts.create_if_missing(true);
    opts.create_missing_column_families(true);
    opts.set_merge_operator_associative("concat");
    assert!(opts.create_missing);
    assert!(opts.create_missing_cfs);
    assert_eq!(opts.merge_operator.as_deref(), Some("concat"));
    let copy = opts.clone();
    assert!(copy.create_missing);
    assert_eq!(copy.merge_operator.as_deref(), Some("concat"));
}
