use dbc_patch::dbc::{decode_dbc, encode_dbc, DbcError, DbcHeader};
use dbc_patch::engine::patch_table;
use dbc_patch::patch::{PatchEntry, ValueType};

fn le(v: u32) -> [u8; 4] {
    [
        (v & 0xff) as u8,
        ((v >> 8) & 0xff) as u8,
        ((v >> 16) & 0xff) as u8,
        ((v >> 24) & 0xff) as u8,
    ]
}

fn sample_bytes() -> Vec<u8> {
    // two records of three fields, pool "A\0BB\0"
    let mut b = Vec::new();
    b.extend_from_slice(b"WDBC");
    b.extend_from_slice(&le(2)); // record_count
    b.extend_from_slice(&le(3)); // field_count
    b.extend_from_slice(&le(12)); // record_size
    b.extend_from_slice(&le(5)); // string_block_size
    for w in [1u32, 100, 0, 2, 200, 7] {
        b.extend_from_slice(&le(w));
    }
    b.extend_from_slice(b"A\0BB\0");
    b
}

#[test]
fn decode_reads_header_records_pool() {
    let bytes = sample_bytes();
    let (h, records, pool) = decode_dbc(&bytes).unwrap();
    assert_eq!(&h.magic, b"WDBC");
    assert_eq!(h.record_count, 2);
    assert_eq!(h.field_count, 3);
    assert_eq!(h.record_size, 12);
    assert_eq!(h.string_block_size, 5);
    assert_eq!(records, vec![vec![1, 100, 0], vec![2, 200, 7]]);
    assert_eq!(pool, b"A\0BB\0".to_vec());
}

#[test]
fn round_trip_reproduces_bytes() {
    let bytes = sample_bytes();
    let (h, records, pool) = decode_dbc(&bytes).unwrap();
    let out = encode_dbc(&h, &records, &pool).unwrap();
    assert_eq!(out, bytes);
}

#[test]
fn decode_rejects_bad_magic() {
    let mut bytes = sample_bytes();
    bytes[0] = b'X';
    assert!(matches!(decode_dbc(&bytes), Err(DbcError::BadMagic)));
}

#[test]
fn decode_rejects_short_header() {
    let bytes = b"WDBC\x01\x00".to_vec();
    assert!(matches!(decode_dbc(&bytes), Err(DbcError::TruncatedHeader)));
}

#[test]
fn decode_rejects_truncated_records() {
    let mut bytes = sample_bytes();
    bytes.truncate(24); // header plus one word
    assert!(matches!(decode_dbc(&bytes), Err(DbcError::TruncatedRecords)));
}

#[test]
fn decode_rejects_truncated_pool() {
    let mut bytes = sample_bytes();
    bytes.truncate(bytes.len() - 2);
    assert!(matches!(decode_dbc(&bytes), Err(DbcError::TruncatedPool)));
}

#[test]
fn decode_rejects_record_size_below_fields() {
    let mut bytes = sample_bytes();
    // record_size 8 cannot hold 3 fields
    bytes[12..16].copy_from_slice(&le(8));
    assert!(matches!(decode_dbc(&bytes), Err(DbcError::RecordSizeTooSmall)));
}

#[test]
fn decode_ignores_trailing_bytes() {
    let mut bytes = sample_bytes();
    bytes.extend_from_slice(b"JUNK");
    let (_, records, pool) = decode_dbc(&bytes).unwrap();
    assert_eq!(records.len(), 2);
    assert_eq!(pool.len(), 5);
}

#[test]
fn encode_rejects_record_length_mismatch() {
    let bytes = sample_bytes();
    let (h, mut records, pool) = decode_dbc(&bytes).unwrap();
    records[1].pop();
    assert!(matches!(
        encode_dbc(&h, &records, &pool),
        Err(DbcError::RecordLengthMismatch)
    ));
}

#[test]
fn encode_recomputes_counts_from_data() {
    let h = DbcHeader {
        magic: *b"WDBC",
        record_count: 99, // stale, must be ignored
        field_count: 2,
        record_size: 8,
        string_block_size: 77, // stale, must be ignored
    };
    let records = vec![vec![5u32, 6u32]];
    let pool = b"X\0".to_vec();
    let out = encode_dbc(&h, &records, &pool).unwrap();
    assert_eq!(&out[4..8], &le(1)); // actual record count
    assert_eq!(&out[16..20], &le(2)); // actual pool size
    assert_eq!(out.len(), 20 + 8 + 2);
    assert_eq!(&out[20..24], &le(5));
    assert_eq!(&out[28..30], b"X\0");
}

#[test]
fn full_pass_produces_expected_bytes() {
    let bytes = sample_bytes();
    let (h, mut records, mut pool) = decode_dbc(&bytes).unwrap();
    let entries = vec![PatchEntry::Update {
        key: 2,
        key_column: None,
        updates: vec![(b"2".to_vec(), ValueType::Str(b"BB".to_vec()))],
    }];
    let warns = patch_table(h.field_count as usize, &mut records, &mut pool, &entries, &None);
    assert!(warns.is_empty());
    let out = encode_dbc(&h, &records, &pool).unwrap();
    // only record 2's third word changed, to the offset of the pooled "BB"
    let mut expected = bytes.clone();
    expected[40..44].copy_from_slice(&le(2));
    assert_eq!(out, expected);
}
