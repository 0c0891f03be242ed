//! Lifecycle, column family and transaction behaviour of the engine.

use tidesdb::ColumnFamilyConfig;
use tidesdb::CompressionAlgorithm;
use tidesdb::Config;
use tidesdb::Database;
use tidesdb::Error;
use tidesdb::IsolationLevel;

fn setup_test_db(name: &str) -> Database {
    let db_path = format!("/tmp/tidesdb_test_{}", name);
    let config = Config::new(&db_path).unwrap();
    Database::open(config).unwrap()
}

#[test]
fn test_database_open() {
    let _db = setup_test_db("open");
}

#[test]
fn test_create_column_family() {
    let mut db = setup_test_db("create_cf");
    let config = ColumnFamilyConfig::new();
    db.create_column_family("test_cf", &config).unwrap();
}

#[test]
fn test_list_column_families() {
    let mut db = setup_test_db("list_cf");
    let config = ColumnFamilyConfig::new();
    db.create_column_family("cf1", &config).unwrap();
    db.create_column_family("cf2", &config).unwrap();

    let cfs = db.list_column_families().unwrap();
    assert!(cfs.contains(&"cf1".to_string()));
    assert!(cfs.contains(&"cf2".to_string()));
}

#[test]
fn test_put_get_delete() {
    let mut db = setup_test_db("put_get");
    let cf_config = ColumnFamilyConfig::new();
    db.create_column_family("test_cf", &cf_config).unwrap();
    let cf = db.get_column_family("test_cf").unwrap();

    let mut txn = db.begin_transaction().unwrap();

    txn.put(&mut db, &cf, b"key1", b"value1").unwrap();
    txn.put(&mut db, &cf, b"key2", b"value2").unwrap();

    txn.commit(&mut db).unwrap();

    let mut txn2 = db.begin_transaction().unwrap();
    let value = txn2.get(&mut db, &cf, b"key1").unwrap();
    assert_eq!(value, Some(b"value1".to_vec()));

    let value = txn2.get(&mut db, &cf, b"key2").unwrap();
    assert_eq!(value, Some(b"value2".to_vec()));

    let value = txn2.get(&mut db, &cf, b"key3").unwrap();
    assert_eq!(value, None);
}

#[test]
fn test_delete() {
    let mut db = setup_test_db("delete");
    let cf_config = ColumnFamilyConfig::new();
    db.create_column_family("test_cf", &cf_config).unwrap();
    let cf = db.get_column_family("test_cf").unwrap();

    let mut txn = db.begin_transaction().unwrap();
    txn.put(&mut db, &cf, b"key1", b"value1").unwrap();
    txn.commit(&mut db).unwrap();

    let mut txn2 = db.begin_transaction().unwrap();
    let value = txn2.get(&mut db, &cf, b"key1").unwrap();
    assert_eq!(value, Some(b"value1".to_vec()));

    txn2.delete(&mut db, &cf, b"key1").unwrap();
    txn2.commit(&mut db).unwrap();

    let mut txn3 = db.begin_transaction().unwrap();
    let value = txn3.get(&mut db, &cf, b"key1").unwrap();
    assert_eq!(value, None);
}

#[test]
fn test_transaction_rollback() {
    let mut db = setup_test_db("rollback");
    let cf_config = ColumnFamilyConfig::new();
    db.create_column_family("test_cf", &cf_config).unwrap();
    let cf = db.get_column_family("test_cf").unwrap();

    let mut txn = db.begin_transaction().unwrap();
    txn.put(&mut db, &cf, b"key1", b"value1").unwrap();
    txn.rollback(&mut db).unwrap();

    let mut txn2 = db.begin_transaction().unwrap();
    let value = txn2.get(&mut db, &cf, b"key1").unwrap();
    assert_eq!(value, None);
}

#[test]
fn test_isolation_levels() {
    let mut db = setup_test_db("isolation");
    let cf_config = ColumnFamilyConfig::new();
    db.create_column_family("test_cf", &cf_config).unwrap();
    let cf = db.get_column_family("test_cf").unwrap();

    let mut txn = db
        .begin_transaction_with_isolation(IsolationLevel::Serializable)
        .unwrap();
    txn.put(&mut db, &cf, b"key1", b"value1").unwrap();
    txn.commit(&mut db).unwrap();
}

#[test]
fn test_compression() {
    let mut db = setup_test_db("compression");
    let cf_config = ColumnFamilyConfig::new().with_compression(CompressionAlgorithm::Lz4);
    db.create_column_family("test_cf", &cf_config).unwrap();
    let cf = db.get_column_family("test_cf").unwrap();

    let mut txn = db.begin_transaction().unwrap();
    txn.put(&mut db, &cf, b"key1", b"value1").unwrap();
    txn.commit(&mut db).unwrap();
}

#[test]
fn test_bloom_filter() {
    let mut db = setup_test_db("bloom");
    let cf_config = ColumnFamilyConfig::new().with_bloom_filter(true, 10);
    db.create_column_family("test_cf", &cf_config).unwrap();
}

#[test]
fn test_drop_column_family() {
    let mut db = setup_test_db("drop_cf");
    let cf_config = ColumnFamilyConfig::new();
    db.create_column_family("test_cf", &cf_config).unwrap();
    db.drop_column_family("test_cf").unwrap();

    let result = db.get_column_family("test_cf");
    assert!(result.is_err());
}

#[test]
fn drop_succeeds_while_unrelated_transaction_is_live() {
    let mut db = setup_test_db("drop_unrelated");
    let config = ColumnFamilyConfig::new();
    db.create_column_family("doomed", &config).unwrap();
    db.create_column_family("other", &config).unwrap();
    let other = db.get_column_family("other").unwrap();

    // a live transaction that has touched only the other family must not
    // block the drop
    let mut bystander = db.begin_transaction().unwrap();
    bystander.put(&mut db, &other, b"k", b"v").unwrap();
    db.drop_column_family("doomed").unwrap();
    assert!(db.get_column_family("doomed").is_err());
    bystander.commit(&mut db).unwrap();
}

#[test]
fn drop_refused_while_referencing_transaction_is_live() {
    let mut db = setup_test_db("drop_referenced");
    let config = ColumnFamilyConfig::new();
    db.create_column_family("held", &config).unwrap();
    let held = db.get_column_family("held").unwrap();

    let mut writer = db.begin_transaction().unwrap();
    writer.put(&mut db, &held, b"k", b"v").unwrap();
    match db.drop_column_family("held") {
        Err(Error::Conflict) => {},
        other => panic!("expected the referenced family to be retained, got {:?}", other),
    }
    // the family is retained unchanged and usable
    writer.commit(&mut db).unwrap();
    let mut reader = db.begin_transaction().unwrap();
    assert_eq!(reader.get(&mut db, &held, b"k").unwrap(), Some(b"v".to_vec()));
    reader.rollback(&mut db).unwrap();
    // once nothing references it, the drop goes through
    db.drop_column_family("held").unwrap();
}

#[test]
fn test_create_duplicate_column_family_fails() {
    let mut db = setup_test_db("dup_cf");
    let config = ColumnFamilyConfig::new();
    db.create_column_family("twice", &config).unwrap();
    match db.create_column_family("twice", &config) {
        Err(Error::Exists) => {},
        other => panic!("expected the duplicate to be refused, got {:?}", other),
    }
}

#[test]
fn test_empty_key_rejected() {
    let mut db = setup_test_db("empty_key");
    let config = ColumnFamilyConfig::new();
    db.create_column_family("test_cf", &config).unwrap();
    let cf = db.get_column_family("test_cf").unwrap();
    let mut txn = db.begin_transaction().unwrap();
    match txn.put(&mut db, &cf, b"", b"value") {
        Err(Error::InvalidArgs) => {},
        other => panic!("expected an empty key to be refused, got {:?}", other),
    }
}

#[test]
fn test_oversize_key_rejected() {
    let mut db = setup_test_db("big_key");
    let config = ColumnFamilyConfig::new();
    db.create_column_family("test_cf", &config).unwrap();
    let cf = db.get_column_family("test_cf").unwrap();
    let mut txn = db.begin_transaction().unwrap();
    let big = vec![7u8; 65537];
    match txn.put(&mut db, &cf, &big, b"value") {
        Err(Error::TooLarge) => {},
        other => panic!("expected an oversize key to be refused, got {:?}", other),
    }
}

#[test]
fn test_error_from_code() {
    assert_eq!(Error::from_code(-1), Error::Memory);
    assert_eq!(Error::from_code(-2), Error::InvalidArgs);
    assert_eq!(Error::from_code(-3), Error::NotFound);
    assert_eq!(Error::from_code(-4), Error::Io);
    assert_eq!(Error::from_code(-5), Error::Corruption);
    assert_eq!(Error::from_code(-6), Error::Exists);
    assert_eq!(Error::from_code(-7), Error::Conflict);
    assert_eq!(Error::from_code(-8), Error::TooLarge);
    assert_eq!(Error::from_code(-9), Error::MemoryLimit);
    assert_eq!(Error::from_code(-10), Error::InvalidDb);
    assert_eq!(Error::from_code(7), Error::Unknown(7));
}

#[test]
fn test_config_builders() {
    let config = Config::new("somewhere")
        .unwrap()
        .with_flush_threads(4)
        .with_compaction_threads(3)
        .with_block_cache_size(1024)
        .with_max_open_sstables(32);
    assert_eq!(config.num_flush_threads, 4);
    assert_eq!(config.num_compaction_threads, 3);
    assert_eq!(config.block_cache_size, 1024);
    assert_eq!(config.max_open_sstables, 32);
    assert_eq!(Config::new("").unwrap().db_path, "");
}

#[test]
fn test_comparator_registry() {
    let mut db = setup_test_db("comparators");
    db.register_comparator("reverse", tidesdb::Comparator::ReverseLexicographic)
        .unwrap();
    assert_eq!(
        db.get_comparator("reverse").unwrap(),
        tidesdb::Comparator::ReverseLexicographic
    );
    match db.register_comparator("reverse", tidesdb::Comparator::Lexicographic) {
        Err(Error::Exists) => {},
        other => panic!("expected the duplicate name to be refused, got {:?}", other),
    }
    let mut cf_config = ColumnFamilyConfig::new();
    cf_config.comparator_name = "reverse".to_string();
    db.create_column_family("reversed", &cf_config).unwrap();
    let mut missing = ColumnFamilyConfig::new();
    missing.comparator_name = "unknown".to_string();
    match db.create_column_family("broken", &missing) {
        Err(Error::NotFound) => {},
        other => panic!("expected the unknown comparator to be refused, got {:?}", other),
    }
}
