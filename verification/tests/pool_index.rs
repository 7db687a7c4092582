use dbc_patch::pool::{build_string_map, PoolManager};

#[test]
fn index_of_sample_pool() {
    let block = b"A\0BB\0".to_vec();
    let idx = build_string_map(&block);
    assert_eq!(idx.get(&b"".to_vec()), Some(0));
    assert_eq!(idx.get(&b"A".to_vec()), Some(0));
    assert_eq!(idx.get(&b"BB".to_vec()), Some(2));
    assert_eq!(idx.get(&b"C".to_vec()), None);
}

#[test]
fn index_first_occurrence_wins() {
    let block = b"A\0A\0".to_vec();
    let idx = build_string_map(&block);
    assert_eq!(idx.get(&b"A".to_vec()), Some(0));
}

#[test]
fn index_ignores_unterminated_tail() {
    let block = b"A\0BB".to_vec();
    let idx = build_string_map(&block);
    assert_eq!(idx.get(&b"A".to_vec()), Some(0));
    assert_eq!(idx.get(&b"BB".to_vec()), None);
}

#[test]
fn index_of_empty_pool_has_empty_string() {
    let idx = build_string_map(&Vec::new());
    assert_eq!(idx.get(&b"".to_vec()), Some(0));
}

#[test]
fn intern_reuses_existing_and_stages_once() {
    let block = b"A\0".to_vec();
    let mut pm = PoolManager::new(&block);
    assert_eq!(pm.intern(b"A".to_vec()), Some(0));
    let first = pm.intern(b"NEW".to_vec());
    assert_eq!(first, Some(2));
    // interning the same content again returns the same offset
    assert_eq!(pm.intern(b"NEW".to_vec()), Some(2));
    // and the string is appended only once
    let mut out = block.clone();
    pm.append_staged(&mut out);
    assert_eq!(out, b"A\0NEW\0".to_vec());
}

#[test]
fn intern_offsets_accumulate_in_staging_order() {
    let block = b"A\0".to_vec();
    let mut pm = PoolManager::new(&block);
    assert_eq!(pm.intern(b"BB".to_vec()), Some(2));
    assert_eq!(pm.intern(b"CCC".to_vec()), Some(5));
    let mut out = block.clone();
    pm.append_staged(&mut out);
    assert_eq!(out, b"A\0BB\0CCC\0".to_vec());
}

#[test]
fn intern_into_empty_pool_starts_at_zero() {
    // the first interned string shares offset 0 with the conventional
    // empty-string sentinel; the scanned source behaves the same way
    let block = Vec::new();
    let mut pm = PoolManager::new(&block);
    assert_eq!(pm.intern(b"X".to_vec()), Some(0));
    let mut out = block.clone();
    pm.append_staged(&mut out);
    assert_eq!(out, b"X\0".to_vec());
}
