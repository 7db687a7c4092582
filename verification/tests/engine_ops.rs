use dbc_patch::engine::{
    find_first_match, patch_table, resolve_field_index, resolve_key_column_index,
};
use dbc_patch::patch::{PatchEntry, Schema, ValueType, Warning};

fn assigns(pairs: &[(&str, ValueType)]) -> Vec<(Vec<u8>, ValueType)> {
    pairs
        .iter()
        .map(|(n, v)| (n.as_bytes().to_vec(), v.clone()))
        .collect()
}

#[test]
fn update_modifies_only_the_matching_record() {
    let mut records = vec![vec![1u32, 100, 0], vec![2u32, 200, 0]];
    let mut pool = Vec::new();
    let entries = vec![PatchEntry::Update {
        key: 1,
        key_column: None,
        updates: assigns(&[("1", ValueType::UInt(999))]),
    }];
    let warns = patch_table(3, &mut records, &mut pool, &entries, &None);
    assert_eq!(records, vec![vec![1, 999, 0], vec![2, 200, 0]]);
    assert!(warns.is_empty());
}

#[test]
fn update_without_match_warns_and_changes_nothing() {
    let mut records = vec![vec![1u32, 100, 0]];
    let mut pool = Vec::new();
    let entries = vec![PatchEntry::Update {
        key: 7,
        key_column: None,
        updates: assigns(&[("1", ValueType::UInt(999))]),
    }];
    let warns = patch_table(3, &mut records, &mut pool, &entries, &None);
    assert_eq!(records, vec![vec![1, 100, 0]]);
    assert!(matches!(warns[0], Warning::NoMatch { key: 7 }));
}

#[test]
fn update_hits_first_of_duplicate_keys() {
    let mut records = vec![vec![5u32, 1], vec![5u32, 2]];
    let mut pool = Vec::new();
    let entries = vec![PatchEntry::Update {
        key: 5,
        key_column: None,
        updates: assigns(&[("1", ValueType::UInt(9))]),
    }];
    patch_table(2, &mut records, &mut pool, &entries, &None);
    assert_eq!(records, vec![vec![5, 9], vec![5, 2]]);
}

#[test]
fn insert_appends_then_rejects_duplicate() {
    let mut records = vec![vec![1u32, 999, 0], vec![2u32, 200, 0]];
    let mut pool = Vec::new();
    let entries = vec![
        PatchEntry::Insert {
            key: Some(3),
            key_column: None,
            values: assigns(&[("1", ValueType::UInt(300))]),
        },
        PatchEntry::Insert {
            key: Some(3),
            key_column: None,
            values: assigns(&[("1", ValueType::UInt(301))]),
        },
    ];
    let warns = patch_table(3, &mut records, &mut pool, &entries, &None);
    assert_eq!(records.len(), 3);
    assert_eq!(records[2], vec![3, 300, 0]);
    assert!(matches!(warns[0], Warning::DuplicateKey { key: 3 }));
}

#[test]
fn insert_key_not_written_when_assignment_targets_key_column() {
    let mut records: Vec<Vec<u32>> = Vec::new();
    let mut pool = Vec::new();
    let entries = vec![PatchEntry::Insert {
        key: Some(9),
        key_column: None,
        values: assigns(&[("0", ValueType::UInt(4))]),
    }];
    patch_table(2, &mut records, &mut pool, &entries, &None);
    assert_eq!(records, vec![vec![4, 0]]);
}

#[test]
fn copy_appends_modified_clone_without_touching_source() {
    let mut records = vec![vec![1u32, 999, 0], vec![2u32, 200, 0]];
    let mut pool = Vec::new();
    let entries = vec![PatchEntry::Copy {
        key: 1,
        key_column: None,
        updates: assigns(&[("0", ValueType::UInt(10))]),
    }];
    let warns = patch_table(3, &mut records, &mut pool, &entries, &None);
    assert_eq!(
        records,
        vec![vec![1, 999, 0], vec![2, 200, 0], vec![10, 999, 0]]
    );
    assert!(warns.is_empty());
}

#[test]
fn copy_with_unchanged_key_is_rejected_as_duplicate() {
    let mut records = vec![vec![1u32, 999]];
    let mut pool = Vec::new();
    let entries = vec![PatchEntry::Copy {
        key: 1,
        key_column: None,
        updates: assigns(&[("1", ValueType::UInt(5))]),
    }];
    let warns = patch_table(2, &mut records, &mut pool, &entries, &None);
    assert_eq!(records, vec![vec![1, 999]]);
    assert!(matches!(warns[0], Warning::DuplicateKey { key: 1 }));
}

#[test]
fn coercion_boundaries() {
    assert_eq!(ValueType::Int(-1).as_u32(), None);
    assert_eq!(ValueType::Int(4294967295).as_u32(), Some(4294967295));
    assert_eq!(ValueType::Int(4294967296).as_u32(), None);
    assert_eq!(ValueType::Int(0).as_u32(), Some(0));
    assert_eq!(ValueType::UInt(4294967295).as_u32(), Some(4294967295));
    assert_eq!(ValueType::UInt(4294967296).as_u32(), None);
    assert_eq!(ValueType::Bool(true).as_u32(), Some(1));
    assert_eq!(ValueType::Bool(false).as_u32(), Some(0));
    assert_eq!(ValueType::FloatBits(0x3f80_0000).as_u32(), Some(0x3f80_0000));
    assert_eq!(ValueType::Str(b"x".to_vec()).as_u32(), None);
}

#[test]
fn out_of_range_signed_assignment_keeps_prior_value() {
    let mut records = vec![vec![1u32, 100]];
    let mut pool = Vec::new();
    let entries = vec![PatchEntry::Update {
        key: 1,
        key_column: None,
        updates: assigns(&[("1", ValueType::Int(-1))]),
    }];
    let warns = patch_table(2, &mut records, &mut pool, &entries, &None);
    assert_eq!(records, vec![vec![1, 100]]);
    assert!(warns.is_empty()); // dropped silently, no warning
}

#[test]
fn string_values_are_interned_as_offsets() {
    let mut records = vec![vec![1u32, 0, 0]];
    let mut pool = b"HI\0".to_vec();
    let entries = vec![
        PatchEntry::Update {
            key: 1,
            key_column: None,
            updates: assigns(&[("1", ValueType::Str(b"HI".to_vec()))]),
        },
        PatchEntry::Update {
            key: 1,
            key_column: None,
            updates: assigns(&[("2", ValueType::Str(b"YO".to_vec()))]),
        },
    ];
    let warns = patch_table(3, &mut records, &mut pool, &entries, &None);
    assert_eq!(records, vec![vec![1, 0, 3]]); // "HI" reused at 0, "YO" appended at 3
    assert_eq!(pool, b"HI\0YO\0".to_vec());
    assert!(warns.is_empty());
}

#[test]
fn unknown_field_is_skipped_with_warning() {
    let mut records = vec![vec![1u32, 100]];
    let mut pool = Vec::new();
    let entries = vec![PatchEntry::Update {
        key: 1,
        key_column: None,
        updates: assigns(&[("bogus", ValueType::UInt(5))]),
    }];
    let warns = patch_table(2, &mut records, &mut pool, &entries, &None);
    assert_eq!(records, vec![vec![1, 100]]);
    assert!(matches!(warns[0], Warning::UnknownField { .. }));
}

#[test]
fn out_of_range_field_is_skipped_with_warning() {
    let mut records = vec![vec![1u32, 100]];
    let mut pool = Vec::new();
    let entries = vec![PatchEntry::Update {
        key: 1,
        key_column: None,
        updates: assigns(&[("9", ValueType::UInt(5))]),
    }];
    let warns = patch_table(2, &mut records, &mut pool, &entries, &None);
    assert_eq!(records, vec![vec![1, 100]]);
    assert!(matches!(warns[0], Warning::FieldOutOfRange { index: 9, key: 1 }));
}

#[test]
fn schema_resolves_names_case_insensitively() {
    let schema = Some(Schema {
        entries: vec![(b"id".to_vec(), 0usize), (b"value".to_vec(), 1usize)],
    });
    assert_eq!(resolve_field_index(&b"Value".to_vec(), &schema), Some(1));
    assert_eq!(resolve_field_index(&b"VALUE".to_vec(), &schema), Some(1));
    assert_eq!(resolve_field_index(&b"missing".to_vec(), &schema), None);
    assert_eq!(resolve_field_index(&b"7".to_vec(), &schema), Some(7));
    assert_eq!(resolve_field_index(&b"+7".to_vec(), &schema), Some(7));
    assert_eq!(resolve_field_index(&b"99999999999999999999999".to_vec(), &schema), None);
    assert_eq!(resolve_field_index(&b"name".to_vec(), &None), None);
}

#[test]
fn unresolved_key_column_defaults_to_zero_with_warning() {
    let mut warns = Vec::new();
    let kc = resolve_key_column_index(&Some(b"mystery".to_vec()), &None, &mut warns);
    assert_eq!(kc, 0);
    assert!(matches!(warns[0], Warning::UnresolvedKeyColumn { .. }));
    let mut warns2 = Vec::new();
    assert_eq!(resolve_key_column_index(&None, &None, &mut warns2), 0);
    assert_eq!(resolve_key_column_index(&Some(b"3".to_vec()), &None, &mut warns2), 3);
    assert!(warns2.is_empty());
}

#[test]
fn first_match_skips_short_records() {
    let records = vec![vec![9u32], vec![1u32, 5], vec![1u32, 6]];
    assert_eq!(find_first_match(&records, 1, 5), Some(1));
    assert_eq!(find_first_match(&records, 1, 6), Some(2));
    assert_eq!(find_first_match(&records, 3, 5), None);
}

#[test]
fn key_column_resolved_through_schema() {
    let schema = Some(Schema {
        entries: vec![(b"id".to_vec(), 1usize)],
    });
    let mut records = vec![vec![0u32, 7, 0], vec![0u32, 8, 0]];
    let mut pool = Vec::new();
    let entries = vec![PatchEntry::Update {
        key: 8,
        key_column: Some(b"Id".to_vec()),
        updates: assigns(&[("2", ValueType::UInt(44))]),
    }];
    let warns = patch_table(3, &mut records, &mut pool, &entries, &schema);
    assert_eq!(records, vec![vec![0, 7, 0], vec![0, 8, 44]]);
    assert!(warns.is_empty());
}

#[test]
fn interned_strings_persist_when_insert_is_rejected() {
    // staged strings stay in the pool even when the new record is discarded
    let mut records = vec![vec![1u32, 0]];
    let mut pool = Vec::new();
    let entries = vec![PatchEntry::Insert {
        key: Some(1),
        key_column: None,
        values: assigns(&[("1", ValueType::Str(b"GONE".to_vec()))]),
    }];
    let warns = patch_table(2, &mut records, &mut pool, &entries, &None);
    assert_eq!(records, vec![vec![1, 0]]);
    assert!(matches!(warns[0], Warning::DuplicateKey { key: 1 }));
    assert_eq!(pool, b"GONE\0".to_vec());
}
