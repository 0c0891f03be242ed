//! The standalone storage components: bloom filter, clock cache, manifest.

use tidesdb::BloomFilter;
use tidesdb::ClockCache;
use tidesdb::Manifest;
use tidesdb::ManifestEntry;

#[test]
fn bloom_filter_never_forgets() {
    let mut filter = BloomFilter::new(100, 10);
    let keys: Vec<Vec<u8>> = (0..50u32).map(|i| format!("key-{}", i).into_bytes()).collect();
    for k in &keys {
        filter.insert(k);
    }
    // no false negatives, ever
    for k in &keys {
        assert!(filter.contains(k));
    }
}

#[test]
fn bloom_filter_rejects_most_absent_keys() {
    let mut filter = BloomFilter::new(1000, 10);
    for i in 0..100u32 {
        filter.insert(format!("present-{}", i).as_bytes());
    }
    let mut false_positives = 0;
    for i in 0..1000u32 {
        if filter.contains(format!("absent-{}", i).as_bytes()) {
            false_positives += 1;
        }
    }
    // a membership filter that says yes to everything is no filter
    assert!(false_positives < 500);
}

#[test]
fn clock_cache_hits_return_inserted_bytes() {
    let mut cache = ClockCache::new(64 * 4096);
    assert_eq!(cache.lookup(1, 0), None);
    cache.insert(1, 0, b"block one".to_vec());
    cache.insert(1, 4096, b"block two".to_vec());
    cache.insert(2, 0, b"other file".to_vec());
    assert_eq!(cache.lookup(1, 0), Some(b"block one".to_vec()));
    assert_eq!(cache.lookup(1, 4096), Some(b"block two".to_vec()));
    assert_eq!(cache.lookup(2, 0), Some(b"other file".to_vec()));
    assert_eq!(cache.lookup(3, 0), None);
    // overwriting a key replaces its bytes
    cache.insert(1, 0, b"replaced".to_vec());
    assert_eq!(cache.lookup(1, 0), Some(b"replaced".to_vec()));
}

#[test]
fn clock_cache_evicts_at_most_one_per_insert() {
    // a tiny cache: two slots
    let mut cache = ClockCache::new(2 * 4096);
    cache.insert(1, 0, b"a".to_vec());
    cache.insert(1, 1, b"b".to_vec());
    cache.insert(1, 2, b"c".to_vec());
    // the new block is present; at most one of the old ones was displaced
    assert_eq!(cache.lookup(1, 2), Some(b"c".to_vec()));
    let survivors = [cache.lookup(1, 0).is_some(), cache.lookup(1, 1).is_some()];
    assert!(survivors.iter().filter(|s| **s).count() >= 1);
}

#[test]
fn manifest_replay_returns_entries_in_order() {
    let mut m = Manifest::new();
    m.append(&ManifestEntry::AddFile { cf_id: 0, level: 0, file_id: 1 });
    m.append(&ManifestEntry::RegisterComparator { cf_id: 0, name: b"reverse".to_vec() });
    m.append(&ManifestEntry::RemoveFile { cf_id: 0, level: 0, file_id: 1 });
    m.append(&ManifestEntry::AddFile { cf_id: 0, level: 1, file_id: 2 });

    let replayed = Manifest::replay(m.log_bytes());
    assert_eq!(replayed.len(), 4);
    match &replayed[0] {
        ManifestEntry::AddFile { cf_id, level, file_id } => {
            assert_eq!((*cf_id, *level, *file_id), (0, 0, 1));
        },
        _ => panic!("wrong first entry"),
    }
    match &replayed[1] {
        ManifestEntry::RegisterComparator { cf_id, name } => {
            assert_eq!(*cf_id, 0);
            assert_eq!(name, b"reverse");
        },
        _ => panic!("wrong second entry"),
    }
    match &replayed[2] {
        ManifestEntry::RemoveFile { file_id, .. } => assert_eq!(*file_id, 1),
        _ => panic!("wrong third entry"),
    }
    match &replayed[3] {
        ManifestEntry::AddFile { level, file_id, .. } => {
            assert_eq!((*level, *file_id), (1, 2));
        },
        _ => panic!("wrong fourth entry"),
    }
}

#[test]
fn manifest_replay_drops_torn_tail() {
    let mut m = Manifest::new();
    m.append(&ManifestEntry::AddFile { cf_id: 3, level: 0, file_id: 7 });
    m.append(&ManifestEntry::AddFile { cf_id: 3, level: 0, file_id: 8 });
    let whole = m.log_bytes().to_vec();

    // a crash mid-append leaves a partial entry: replay must act as if the
    // cut-off append never happened
    let mut torn = whole.clone();
    m.append(&ManifestEntry::RegisterComparator { cf_id: 3, name: b"custom".to_vec() });
    let full = m.log_bytes();
    torn.extend_from_slice(&full[whole.len()..full.len() - 3]);

    let replayed = Manifest::replay(&torn);
    assert_eq!(replayed.len(), 2);
    match &replayed[1] {
        ManifestEntry::AddFile { file_id, .. } => assert_eq!(*file_id, 8),
        _ => panic!("wrong surviving entry"),
    }
}

#[test]
fn live_files_fold_add_and_remove() {
    let entries = vec![
        ManifestEntry::AddFile { cf_id: 0, level: 0, file_id: 1 },
        ManifestEntry::AddFile { cf_id: 0, level: 0, file_id: 2 },
        ManifestEntry::RegisterComparator { cf_id: 0, name: b"reverse".to_vec() },
        ManifestEntry::RemoveFile { cf_id: 0, level: 0, file_id: 1 },
        ManifestEntry::AddFile { cf_id: 1, level: 2, file_id: 3 },
    ];
    let live = Manifest::live_files(&entries);
    assert_eq!(live.len(), 2);
    assert_eq!(live[0], tidesdb::LiveFile { cf_id: 0, level: 0, file_id: 2 });
    assert_eq!(live[1], tidesdb::LiveFile { cf_id: 1, level: 2, file_id: 3 });
}

#[test]
fn flushed_files_are_registered_and_reconstructible() {
    let mut db = tidesdb::Database::open(
        tidesdb::Config::new("/tmp/tidesdb_test_reconstruct").unwrap(),
    )
    .unwrap();
    db.create_column_family("test_cf", &tidesdb::ColumnFamilyConfig::new()).unwrap();
    let cf = db.get_column_family("test_cf").unwrap();

    let mut txn = db.begin_transaction().unwrap();
    txn.put(&mut db, &cf, b"k", b"v").unwrap();
    txn.commit(&mut db).unwrap();
    cf.flush(&mut db).unwrap();

    // the flush registered its level-0 file; folding the log reconstructs it
    let entries = Manifest::replay(db.manifest_log());
    let live = Manifest::live_files(&entries);
    assert_eq!(live.len(), 1);
    assert_eq!(live[0].level, 0);

    // compaction strikes the superseded file and registers the merged one
    cf.compact(&mut db).unwrap();
    let live2 = Manifest::live_files(&Manifest::replay(db.manifest_log()));
    assert_eq!(live2.len(), 1);
    assert!(live2[0].file_id != live[0].file_id);
}

#[test]
fn restore_table_reopens_a_persisted_family() {
    // persist: build a table, serialize it
    let records = vec![
        tidesdb::Record {
            key: b"alpha".to_vec(),
            value: Some(b"one".to_vec()),
            seq: 1,
            expires_at: None,
        },
        tidesdb::Record {
            key: b"alpha".to_vec(),
            value: Some(b"two".to_vec()),
            seq: 5,
            expires_at: None,
        },
        tidesdb::Record { key: b"beta".to_vec(), value: None, seq: 3, expires_at: None },
    ];
    let image = tidesdb::TableFile::from_records(7, records)
        .serialize(tidesdb::CompressionAlgorithm::Zstd)
        .unwrap();

    // reopen: read the image back and install it into a fresh family
    let mut db = tidesdb::Database::open(
        tidesdb::Config::new("/tmp/tidesdb_test_restore").unwrap(),
    )
    .unwrap();
    db.create_column_family("restored", &tidesdb::ColumnFamilyConfig::new()).unwrap();
    let cf = db.get_column_family("restored").unwrap();
    let table = tidesdb::TableFile::deserialize(7, &image).unwrap();
    db.restore_table(&cf, table).unwrap();

    // later transactions read the restored state: the newest version wins,
    // the tombstone reads as absent, and new commits allocate above
    let mut reader = db.begin_transaction().unwrap();
    assert_eq!(reader.get(&mut db, &cf, b"alpha").unwrap(), Some(b"two".to_vec()));
    assert_eq!(reader.get(&mut db, &cf, b"beta").unwrap(), None);
    reader.rollback(&mut db).unwrap();

    let mut writer = db.begin_transaction().unwrap();
    writer.put(&mut db, &cf, b"alpha", b"three").unwrap();
    writer.commit(&mut db).unwrap();
    let mut reader2 = db.begin_transaction().unwrap();
    assert_eq!(reader2.get(&mut db, &cf, b"alpha").unwrap(), Some(b"three".to_vec()));

    // a second restore into the now non-empty family is refused
    let again = tidesdb::TableFile::deserialize(8, &image).unwrap();
    match db.restore_table(&cf, again) {
        Err(tidesdb::Error::InvalidArgs) => {},
        other => panic!("expected the non-empty family to refuse, got {:?}", other),
    }
}

#[test]
fn flush_and_compact_append_to_the_manifest() {
    let mut db = tidesdb::Database::open(
        tidesdb::Config::new("/tmp/tidesdb_test_manifest").unwrap(),
    )
    .unwrap();
    db.create_column_family("test_cf", &tidesdb::ColumnFamilyConfig::new()).unwrap();
    let cf = db.get_column_family("test_cf").unwrap();

    let mut txn = db.begin_transaction().unwrap();
    txn.put(&mut db, &cf, b"k", b"v").unwrap();
    txn.commit(&mut db).unwrap();

    assert_eq!(Manifest::replay(db.manifest_log()).len(), 0);
    cf.flush(&mut db).unwrap();
    let after_flush = Manifest::replay(db.manifest_log()).len();
    assert!(after_flush >= 1);
    cf.compact(&mut db).unwrap();
    let after_compact = Manifest::replay(db.manifest_log()).len();
    assert!(after_compact > after_flush);
}
