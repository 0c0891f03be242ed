//! The table-file image: round trips through every codec, and corruption
//! detection.

use tidesdb::CompressionAlgorithm;
use tidesdb::Error;
use tidesdb::Record;
use tidesdb::TableFile;

fn sample_records() -> Vec<Record> {
    vec![
        Record { key: b"alpha".to_vec(), value: Some(b"one".to_vec()), seq: 1, expires_at: None },
        Record {
            key: b"beta".to_vec(),
            value: Some(vec![0u8; 300]),
            seq: 2,
            expires_at: Some(123456),
        },
        Record { key: b"gamma".to_vec(), value: None, seq: 3, expires_at: None },
        Record { key: b"delta".to_vec(), value: Some(Vec::new()), seq: 4, expires_at: Some(7) },
    ]
}

fn assert_round_trip(algo: CompressionAlgorithm) {
    let table = TableFile::from_records(9, sample_records());
    let bytes = table.serialize(algo).unwrap();
    let back = TableFile::deserialize(9, &bytes).unwrap();
    let original = table.records_slice();
    let restored = back.records_slice();
    assert_eq!(restored.len(), original.len());
    for i in 0..original.len() {
        assert_eq!(restored[i].key, original[i].key);
        assert_eq!(restored[i].value, original[i].value);
        assert_eq!(restored[i].seq, original[i].seq);
        assert_eq!(restored[i].expires_at, original[i].expires_at);
    }
}

#[test]
fn round_trip_uncompressed() {
    assert_round_trip(CompressionAlgorithm::NoCompression);
}

#[test]
fn round_trip_snappy() {
    assert_round_trip(CompressionAlgorithm::Snappy);
}

#[test]
fn round_trip_zlib() {
    assert_round_trip(CompressionAlgorithm::Zlib);
}

#[test]
fn round_trip_zstd() {
    assert_round_trip(CompressionAlgorithm::Zstd);
}

#[test]
fn round_trip_lz4() {
    assert_round_trip(CompressionAlgorithm::Lz4);
}

#[test]
fn compression_actually_shrinks_repetitive_data() {
    let records = vec![Record {
        key: b"blob".to_vec(),
        value: Some(vec![42u8; 10000]),
        seq: 1,
        expires_at: None,
    }];
    let table = TableFile::from_records(1, records);
    let plain = table.serialize(CompressionAlgorithm::NoCompression).unwrap();
    let packed = table.serialize(CompressionAlgorithm::Lz4).unwrap();
    assert!(packed.len() < plain.len());
}

#[test]
fn corrupt_image_is_rejected() {
    let table = TableFile::from_records(3, sample_records());
    let mut bytes = table.serialize(CompressionAlgorithm::Snappy).unwrap();
    // flip a payload byte: the checksum or the codec must catch it
    let last = bytes.len() - 1;
    bytes[last] ^= 0xff;
    match TableFile::deserialize(3, &bytes) {
        Err(e) => assert_eq!(e, Error::Corruption),
        Ok(_) => panic!("tampered image was accepted"),
    }

    // an image with an unknown codec tag is rejected outright
    let mut bad_tag = table.serialize(CompressionAlgorithm::NoCompression).unwrap();
    bad_tag[0] = 99;
    match TableFile::deserialize(3, &bad_tag) {
        Err(e) => assert_eq!(e, Error::Corruption),
        Ok(_) => panic!("an unknown codec tag was accepted"),
    }

    // a truncated image is rejected
    match TableFile::deserialize(3, &[1, 2, 3]) {
        Err(e) => assert_eq!(e, Error::Corruption),
        Ok(_) => panic!("a truncated image was accepted"),
    }
}
