//! Multi-version behaviour: snapshots, conflicts, expiration, savepoints,
//! and column family isolation.

use tidesdb::ColumnFamilyConfig;
use tidesdb::CompressionAlgorithm;
use tidesdb::Config;
use tidesdb::Database;
use tidesdb::Error;
use tidesdb::IsolationLevel;

fn setup_test_db(name: &str) -> Database {
    let db_path = format!("/tmp/tidesdb_test_{}", name);
    let config = Config::new(&db_path).unwrap();
    Database::open(config).unwrap()
}

#[test]
fn serializable_write_write_conflict_loses() {
    let mut db = setup_test_db("ww_conflict");
    let config = ColumnFamilyConfig::new();
    db.create_column_family("test_cf", &config).unwrap();
    let cf = db.get_column_family("test_cf").unwrap();

    let mut t1 = db
        .begin_transaction_with_isolation(IsolationLevel::Serializable)
        .unwrap();
    let mut t2 = db
        .begin_transaction_with_isolation(IsolationLevel::Serializable)
        .unwrap();
    t1.put(&mut db, &cf, b"contested", b"first").unwrap();
    t2.put(&mut db, &cf, b"contested", b"second").unwrap();

    t1.commit(&mut db).unwrap();
    match t2.commit(&mut db) {
        Err(Error::Conflict) => {},
        other => panic!("expected the loser to conflict, got {:?}", other),
    }

    let mut reader = db.begin_transaction().unwrap();
    let value = reader.get(&mut db, &cf, b"contested").unwrap();
    assert_eq!(value, Some(b"first".to_vec()));
}

#[test]
fn serializable_read_write_conflict_loses() {
    let mut db = setup_test_db("rw_conflict");
    let config = ColumnFamilyConfig::new();
    db.create_column_family("test_cf", &config).unwrap();
    let cf = db.get_column_family("test_cf").unwrap();

    let mut seed = db.begin_transaction().unwrap();
    seed.put(&mut db, &cf, b"watched", b"original").unwrap();
    seed.commit(&mut db).unwrap();

    let mut reader = db
        .begin_transaction_with_isolation(IsolationLevel::Serializable)
        .unwrap();
    let _ = reader.get(&mut db, &cf, b"watched").unwrap();
    reader.put(&mut db, &cf, b"other", b"x").unwrap();

    let mut writer = db.begin_transaction().unwrap();
    writer.put(&mut db, &cf, b"watched", b"changed").unwrap();
    writer.commit(&mut db).unwrap();

    match reader.commit(&mut db) {
        Err(Error::Conflict) => {},
        other => panic!("expected the stale reader to conflict, got {:?}", other),
    }
}

#[test]
fn repeatable_read_sees_old_value() {
    let mut db = setup_test_db("rr_snapshot");
    let cf_config = ColumnFamilyConfig::new().with_compression(CompressionAlgorithm::NoCompression);
    db.create_column_family("a", &cf_config).unwrap();
    let cf = db.get_column_family("a").unwrap();

    let mut w1 = db.begin_transaction().unwrap();
    w1.put(&mut db, &cf, b"k", b"v1").unwrap();
    w1.commit(&mut db).unwrap();

    let mut old_reader = db
        .begin_transaction_with_isolation(IsolationLevel::RepeatableRead)
        .unwrap();

    let mut w2 = db.begin_transaction().unwrap();
    w2.put(&mut db, &cf, b"k", b"v2").unwrap();
    w2.commit(&mut db).unwrap();

    let old_value = old_reader.get(&mut db, &cf, b"k").unwrap();
    assert_eq!(old_value, Some(b"v1".to_vec()));

    let mut fresh = db.begin_transaction().unwrap();
    let new_value = fresh.get(&mut db, &cf, b"k").unwrap();
    assert_eq!(new_value, Some(b"v2".to_vec()));
}

#[test]
fn ttl_expires_after_deadline() {
    let mut db = setup_test_db("ttl");
    let config = ColumnFamilyConfig::new();
    db.create_column_family("sessions", &config).unwrap();
    let cf = db.get_column_family("sessions").unwrap();

    let mut txn = db.begin_transaction().unwrap();
    txn.put_with_ttl_at(&mut db, &cf, b"session", b"data", 2, 1000).unwrap();
    txn.commit(&mut db).unwrap();

    let mut reader = db.begin_transaction().unwrap();
    assert_eq!(
        reader.get_at(&mut db, &cf, b"session", 1000).unwrap(),
        Some(b"data".to_vec())
    );
    assert_eq!(
        reader.get_at(&mut db, &cf, b"session", 1001).unwrap(),
        Some(b"data".to_vec())
    );
    assert_eq!(reader.get_at(&mut db, &cf, b"session", 1002).unwrap(), None);
    assert_eq!(reader.get_at(&mut db, &cf, b"session", 1003).unwrap(), None);
}

#[test]
fn ttl_with_wall_clock_is_present_before_deadline() {
    let mut db = setup_test_db("ttl_clock");
    let config = ColumnFamilyConfig::new();
    db.create_column_family("sessions", &config).unwrap();
    let cf = db.get_column_family("sessions").unwrap();

    let mut txn = db.begin_transaction().unwrap();
    txn.put_with_ttl(&mut db, &cf, b"long_session", b"data", 3600).unwrap();
    txn.commit(&mut db).unwrap();

    let mut reader = db.begin_transaction().unwrap();
    assert_eq!(
        reader.get(&mut db, &cf, b"long_session").unwrap(),
        Some(b"data".to_vec())
    );
}

#[test]
fn column_families_are_isolated() {
    let mut db = setup_test_db("cf_isolation");
    let config = ColumnFamilyConfig::new();
    db.create_column_family("left", &config).unwrap();
    db.create_column_family("right", &config).unwrap();
    let left = db.get_column_family("left").unwrap();
    let right = db.get_column_family("right").unwrap();

    let mut txn = db.begin_transaction().unwrap();
    txn.put(&mut db, &left, b"same_key", b"left_value").unwrap();
    txn.put(&mut db, &right, b"same_key", b"right_value").unwrap();

    // read-your-writes inside the transaction
    assert_eq!(
        txn.get(&mut db, &left, b"same_key").unwrap(),
        Some(b"left_value".to_vec())
    );
    assert_eq!(
        txn.get(&mut db, &right, b"same_key").unwrap(),
        Some(b"right_value".to_vec())
    );
    txn.commit(&mut db).unwrap();

    let mut reader = db.begin_transaction().unwrap();
    assert_eq!(
        reader.get(&mut db, &left, b"same_key").unwrap(),
        Some(b"left_value".to_vec())
    );
    assert_eq!(
        reader.get(&mut db, &right, b"same_key").unwrap(),
        Some(b"right_value".to_vec())
    );
}

#[test]
fn release_savepoint_leaves_writes_intact() {
    let mut db = setup_test_db("sp_release");
    let config = ColumnFamilyConfig::new();
    db.create_column_family("test_cf", &config).unwrap();
    let cf = db.get_column_family("test_cf").unwrap();

    let mut txn = db.begin_transaction().unwrap();
    txn.put(&mut db, &cf, b"before", b"1").unwrap();
    txn.savepoint("mark").unwrap();
    txn.put(&mut db, &cf, b"after", b"2").unwrap();
    txn.release_savepoint("mark").unwrap();
    txn.commit(&mut db).unwrap();

    let mut reader = db.begin_transaction().unwrap();
    assert_eq!(reader.get(&mut db, &cf, b"before").unwrap(), Some(b"1".to_vec()));
    assert_eq!(reader.get(&mut db, &cf, b"after").unwrap(), Some(b"2".to_vec()));
}

#[test]
fn savepoint_errors() {
    let mut db = setup_test_db("sp_errors");
    let config = ColumnFamilyConfig::new();
    db.create_column_family("test_cf", &config).unwrap();

    let mut txn = db.begin_transaction().unwrap();
    txn.savepoint("once").unwrap();
    match txn.savepoint("once") {
        Err(Error::Exists) => {},
        other => panic!("expected the duplicate savepoint to be refused, got {:?}", other),
    }
    match txn.rollback_to_savepoint("unknown") {
        Err(Error::NotFound) => {},
        other => panic!("expected the unknown savepoint to be refused, got {:?}", other),
    }
    match txn.release_savepoint("unknown") {
        Err(Error::NotFound) => {},
        other => panic!("expected the unknown savepoint to be refused, got {:?}", other),
    }
}

#[test]
fn rollback_to_savepoint_discards_exactly_the_suffix() {
    let mut db = setup_test_db("sp_rollback");
    let config = ColumnFamilyConfig::new();
    db.create_column_family("game_state", &config).unwrap();
    let cf = db.get_column_family("game_state").unwrap();

    let mut txn = db.begin_transaction().unwrap();
    txn.put(&mut db, &cf, b"score", b"0").unwrap();
    txn.put(&mut db, &cf, b"level", b"1").unwrap();
    txn.savepoint("checkpoint1").unwrap();
    txn.put(&mut db, &cf, b"score", b"500").unwrap();
    txn.put(&mut db, &cf, b"level", b"2").unwrap();
    txn.rollback_to_savepoint("checkpoint1").unwrap();
    txn.commit(&mut db).unwrap();

    let mut reader = db.begin_transaction().unwrap();
    assert_eq!(reader.get(&mut db, &cf, b"score").unwrap(), Some(b"0".to_vec()));
    assert_eq!(reader.get(&mut db, &cf, b"level").unwrap(), Some(b"1".to_vec()));
}

#[test]
fn nested_savepoints_interleaved() {
    let mut db = setup_test_db("sp_nested");
    let config = ColumnFamilyConfig::new();
    db.create_column_family("test_cf", &config).unwrap();
    let cf = db.get_column_family("test_cf").unwrap();

    let mut txn = db.begin_transaction().unwrap();
    txn.put(&mut db, &cf, b"k", b"1").unwrap();
    txn.savepoint("outer").unwrap();
    txn.put(&mut db, &cf, b"k", b"2").unwrap();
    txn.savepoint("inner").unwrap();
    txn.put(&mut db, &cf, b"k", b"3").unwrap();
    txn.release_savepoint("outer").unwrap();
    txn.rollback_to_savepoint("inner").unwrap();
    txn.commit(&mut db).unwrap();

    let mut reader = db.begin_transaction().unwrap();
    assert_eq!(reader.get(&mut db, &cf, b"k").unwrap(), Some(b"2".to_vec()));
}

#[test]
fn read_your_writes_and_buffered_delete() {
    let mut db = setup_test_db("ryw");
    let config = ColumnFamilyConfig::new();
    db.create_column_family("test_cf", &config).unwrap();
    let cf = db.get_column_family("test_cf").unwrap();

    let mut seed = db.begin_transaction().unwrap();
    seed.put(&mut db, &cf, b"k", b"committed").unwrap();
    seed.commit(&mut db).unwrap();

    let mut txn = db.begin_transaction().unwrap();
    assert_eq!(txn.get(&mut db, &cf, b"k").unwrap(), Some(b"committed".to_vec()));
    txn.put(&mut db, &cf, b"k", b"buffered").unwrap();
    assert_eq!(txn.get(&mut db, &cf, b"k").unwrap(), Some(b"buffered".to_vec()));
    txn.delete(&mut db, &cf, b"k").unwrap();
    assert_eq!(txn.get(&mut db, &cf, b"k").unwrap(), None);
    txn.rollback(&mut db).unwrap();

    let mut reader = db.begin_transaction().unwrap();
    assert_eq!(reader.get(&mut db, &cf, b"k").unwrap(), Some(b"committed".to_vec()));
}

#[test]
fn flush_and_compact_preserve_reads() {
    let mut db = setup_test_db("flush_compact");
    let config = ColumnFamilyConfig::new();
    db.create_column_family("test_cf", &config).unwrap();
    let cf = db.get_column_family("test_cf").unwrap();

    let mut w1 = db.begin_transaction().unwrap();
    w1.put(&mut db, &cf, b"stays", b"v1").unwrap();
    w1.put(&mut db, &cf, b"goes", b"tmp").unwrap();
    w1.commit(&mut db).unwrap();

    cf.flush(&mut db).unwrap();
    let mut r1 = db.begin_transaction().unwrap();
    assert_eq!(r1.get(&mut db, &cf, b"stays").unwrap(), Some(b"v1".to_vec()));
    r1.rollback(&mut db).unwrap();

    let mut w2 = db.begin_transaction().unwrap();
    w2.put(&mut db, &cf, b"stays", b"v2").unwrap();
    w2.delete(&mut db, &cf, b"goes").unwrap();
    w2.commit(&mut db).unwrap();

    cf.compact(&mut db).unwrap();

    let mut r2 = db.begin_transaction().unwrap();
    assert_eq!(r2.get(&mut db, &cf, b"stays").unwrap(), Some(b"v2".to_vec()));
    assert_eq!(r2.get(&mut db, &cf, b"goes").unwrap(), None);
}

#[test]
fn delete_survives_compaction() {
    let mut db = setup_test_db("tombstone_gc");
    let config = ColumnFamilyConfig::new();
    db.create_column_family("test_cf", &config).unwrap();
    let cf = db.get_column_family("test_cf").unwrap();

    let mut w = db.begin_transaction().unwrap();
    w.put(&mut db, &cf, b"k", b"v").unwrap();
    w.commit(&mut db).unwrap();

    let mut d = db.begin_transaction().unwrap();
    d.delete(&mut db, &cf, b"k").unwrap();
    d.commit(&mut db).unwrap();

    cf.compact(&mut db).unwrap();

    let mut reader = db.begin_transaction().unwrap();
    assert_eq!(reader.get(&mut db, &cf, b"k").unwrap(), None);
}
