use dbc_patch::engine::patch_table;
use dbc_patch::order::{changes_for_table, sort_documents, PatchDocument};
use dbc_patch::patch::{PatchEntry, PatchFile, ValueType};

fn doc(name: &str, dbc: &str, key: u32, value: u32) -> PatchDocument {
    PatchDocument {
        name: name.as_bytes().to_vec(),
        files: vec![PatchFile {
            dbc: dbc.as_bytes().to_vec(),
            changes: vec![PatchEntry::Update {
                key,
                key_column: None,
                updates: vec![(b"1".to_vec(), ValueType::UInt(value as u64))],
            }],
        }],
    }
}

fn run(docs: Vec<PatchDocument>) -> (Vec<Vec<u32>>, Vec<u8>) {
    let sorted = sort_documents(docs);
    let entries = changes_for_table(&sorted, &b"spell.dbc".to_vec());
    let mut records = vec![vec![1u32, 0], vec![2u32, 0]];
    let mut pool = Vec::new();
    patch_table(2, &mut records, &mut pool, &entries, &None);
    (records, pool)
}

#[test]
fn sort_orders_documents_by_name() {
    let sorted = sort_documents(vec![
        doc("b.yaml", "Spell.dbc", 1, 10),
        doc("a.yaml", "Spell.dbc", 1, 20),
        doc("c.yaml", "Spell.dbc", 1, 30),
    ]);
    let names: Vec<Vec<u8>> = sorted.iter().map(|d| d.name.clone()).collect();
    assert_eq!(names, vec![b"a.yaml".to_vec(), b"b.yaml".to_vec(), b"c.yaml".to_vec()]);
}

#[test]
fn enumeration_order_does_not_change_output() {
    // the same two documents, seen in different directory orders
    let forward = vec![
        doc("10-base.yaml", "Spell.dbc", 1, 111),
        doc("20-extra.yaml", "Spell.dbc", 1, 222),
    ];
    let backward = vec![
        doc("20-extra.yaml", "Spell.dbc", 1, 222),
        doc("10-base.yaml", "Spell.dbc", 1, 111),
    ];
    let a = run(forward);
    let b = run(backward);
    assert_eq!(a, b);
    // later documents win: both orders apply 20-extra last
    assert_eq!(a.0, vec![vec![1, 222], vec![2, 0]]);
}

#[test]
fn changes_match_tables_case_insensitively() {
    let docs = vec![
        doc("a.yaml", "SPELL.DBC", 1, 5),
        doc("b.yaml", "Other.dbc", 1, 6),
    ];
    let entries = changes_for_table(&docs, &b"spell.dbc".to_vec());
    assert_eq!(entries.len(), 1);
    let entries_other = changes_for_table(&docs, &b"other.dbc".to_vec());
    assert_eq!(entries_other.len(), 1);
    let entries_none = changes_for_table(&docs, &b"nothing.dbc".to_vec());
    assert_eq!(entries_none.len(), 0);
}

#[test]
fn sections_of_one_document_stay_in_order() {
    let d = PatchDocument {
        name: b"a.yaml".to_vec(),
        files: vec![
            PatchFile {
                dbc: b"Spell.dbc".to_vec(),
                changes: vec![PatchEntry::Insert {
                    key: Some(3),
                    key_column: None,
                    values: vec![(b"1".to_vec(), ValueType::UInt(30))],
                }],
            },
            PatchFile {
                dbc: b"Spell.dbc".to_vec(),
                changes: vec![PatchEntry::Update {
                    key: 3,
                    key_column: None,
                    updates: vec![(b"1".to_vec(), ValueType::UInt(31))],
                }],
            },
        ],
    };
    let entries = changes_for_table(&vec![d], &b"spell.dbc".to_vec());
    let mut records: Vec<Vec<u32>> = Vec::new();
    let mut pool = Vec::new();
    let warns = patch_table(2, &mut records, &mut pool, &entries, &None);
    assert_eq!(records, vec![vec![3, 31]]);
    assert!(warns.is_empty());
}
