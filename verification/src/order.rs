//! Deterministic ordering of patch documents: documents are sorted by
//! name, and one table's operations are the concatenation, in that order,
//! of every matching section's operations.  This order is load-bearing:
//! duplicate-key checks and update tie-breaks depend on it.

use crate::patch::{EntryV, PatchEntry, PatchFile, PatchFileV, ValueType};
use crate::util::{bytes_eq, clone_bytes};
use crate::engine::{lower, lower_bytes};
use vstd::multiset::Multiset;
use vstd::prelude::*;

verus! {

/// A patch document as loaded from one source: its name (used only for
/// ordering) and its parsed sections.
#[derive(Debug, Clone)]
pub struct PatchDocument {
    pub name: Vec<u8>,
    pub files: Vec<PatchFile>,
}

/// Mathematical model of a `PatchDocument`.
pub ghost struct DocumentV {
    pub name: Seq<u8>,
    pub files: Seq<PatchFileV>,
}

impl View for PatchDocument {
    type V = DocumentV;

    open spec fn view(&self) -> DocumentV {
        DocumentV { name: self.name@, files: self.files.deep_view() }
    }
}

impl DeepView for PatchDocument {
    type V = DocumentV;

    open spec fn deep_view(&self) -> DocumentV {
        self.view()
    }
}

/// Byte-wise lexicographic order, as the standard library orders byte
/// strings: a proper prefix comes first.
pub open spec fn lex_le(a: Seq<u8>, b: Seq<u8>) -> bool
    decreases a.len(),
{
    if a.len() == 0 {
        true
    } else if b.len() == 0 {
        false
    } else if a[0] < b[0] {
        true
    } else if a[0] > b[0] {
        false
    } else {
        lex_le(a.drop_first(), b.drop_first())
    }
}

/// Any two byte strings compare, one way or the other.
pub proof fn lemma_lex_total(a: Seq<u8>, b: Seq<u8>)
    ensures
        lex_le(a, b) || lex_le(b, a),
    decreases a.len(),
{
    if a.len() > 0 && b.len() > 0 && a[0] == b[0] {
        lemma_lex_total(a.drop_first(), b.drop_first());
    }
}

/// Byte strings that compare below each other are equal.
pub proof fn lemma_lex_antisym(a: Seq<u8>, b: Seq<u8>)
    requires
        lex_le(a, b),
        lex_le(b, a),
    ensures
        a == b,
    decreases a.len(),
{
    if a.len() > 0 && b.len() > 0 && a[0] == b[0] {
        lemma_lex_antisym(a.drop_first(), b.drop_first());
        assert(a =~= seq![a[0]] + a.drop_first());
        assert(b =~= seq![b[0]] + b.drop_first());
    } else {
        if a.len() == 0 {
            assert(b.len() == 0);
            assert(a =~= b);
        }
    }
}

/// The lexicographic order is transitive.
pub proof fn lemma_lex_trans(a: Seq<u8>, b: Seq<u8>, c: Seq<u8>)
    requires
        lex_le(a, b),
        lex_le(b, c),
    ensures
        lex_le(a, c),
    decreases a.len(),
{
    if a.len() > 0 && b.len() > 0 && c.len() > 0 && a[0] == b[0] && b[0] == c[0] {
        lemma_lex_trans(a.drop_first(), b.drop_first(), c.drop_first());
    }
}

/// Compares two byte strings lexicographically.
pub fn bytes_le(a: &Vec<u8>, b: &Vec<u8>) -> (r: bool)
    ensures
        r == lex_le(a@, b@),
{
    let n = if a.len() < b.len() {
        a.len()
    } else {
        b.len()
    };
    proof {
        assert(a@.skip(0) =~= a@);
        assert(b@.skip(0) =~= b@);
    }
    for i in 0..n
        invariant
            n == if a@.len() < b@.len() {
                a@.len()
            } else {
                b@.len()
            },
            forall|p: int| 0 <= p < i ==> a@[p] == b@[p],
            lex_le(a@, b@) == lex_le(a@.skip(i as int), b@.skip(i as int)),
    {
        proof {
            assert(a@.skip(i as int)[0] == a@[i as int]);
            assert(b@.skip(i as int)[0] == b@[i as int]);
            assert(a@.skip(i as int).drop_first() =~= a@.skip(i + 1));
            assert(b@.skip(i as int).drop_first() =~= b@.skip(i + 1));
        }
        if a[i] < b[i] {
            return true;
        }
        if a[i] > b[i] {
            return false;
        }
    }
    proof {
        assert(a@.skip(n as int).len() == 0 || b@.skip(n as int).len() == 0);
    }
    a.len() <= b.len()
}

/// Documents in non-descending name order.
pub open spec fn sorted_by_name(docs: Seq<DocumentV>) -> bool {
    forall|i: int, j: int|
        0 <= i < j < docs.len() ==> lex_le((#[trigger] docs[i]).name, (#[trigger] docs[j]).name)
}

/// No two documents share a name.
pub open spec fn distinct_names(docs: Seq<DocumentV>) -> bool {
    forall|i: int, j: int|
        0 <= i < j < docs.len() ==> (#[trigger] docs[i]).name != (#[trigger] docs[j]).name
}

/// Sorts the documents by name: the result is in non-descending name
/// order and holds exactly the given documents.
pub fn sort_documents(docs: Vec<PatchDocument>) -> (r: Vec<PatchDocument>)
    ensures
        sorted_by_name(r.deep_view()),
        r.deep_view().to_multiset() == docs.deep_view().to_multiset(),
{
    broadcast use vstd::seq_lib::group_to_multiset_ensures;

    let ghost total = docs.deep_view().to_multiset();
    let mut rest = docs;
    let mut out: Vec<PatchDocument> = Vec::new();
    proof {
        assert(out.deep_view() =~~= Seq::<DocumentV>::empty());
        assert(out.deep_view().to_multiset().add(rest.deep_view().to_multiset()) =~= total);
    }
    while rest.len() > 0
        invariant
            sorted_by_name(out.deep_view()),
            out.deep_view().to_multiset().add(rest.deep_view().to_multiset()) == total,
        decreases rest.len(),
    {
        let ghost rest_pre = rest.deep_view();
        let ghost out_pre = out.deep_view();
        let d = rest.remove(0);
        let ghost dv = d.deep_view();
        proof {
            assert(rest.deep_view() =~~= rest_pre.remove(0));
            vstd::seq_lib::to_multiset_remove(rest_pre, 0);
            assert(rest_pre[0] == dv);
            vstd::seq_lib::to_multiset_contains(rest_pre, dv);
            assert(rest_pre.contains(dv));
        }
        let mut pos: usize = 0;
        while pos < out.len() && bytes_le(&out[pos].name, &d.name)
            invariant
                pos <= out.len(),
                out.deep_view() == out_pre,
                d.deep_view() == dv,
                forall|jj: int| 0 <= jj < pos ==> lex_le((#[trigger] out_pre[jj]).name, dv.name),
            decreases out.len() - pos,
        {
            proof {
                assert(out_pre[pos as int].name == out@[pos as int].name@);
            }
            pos = pos + 1;
        }
        proof {
            if (pos as int) < out_pre.len() {
                assert(!lex_le(out_pre[pos as int].name, dv.name));
                lemma_lex_total(out_pre[pos as int].name, dv.name);
            }
        }
        out.insert(pos, d);
        proof {
            assert(out.deep_view() =~~= out_pre.insert(pos as int, dv));
            let inserted = out_pre.insert(pos as int, dv);
            vstd::seq_lib::to_multiset_insert(out_pre, pos as int, dv);
            assert(inserted.to_multiset() == out_pre.to_multiset().insert(dv));
            assert(out.deep_view().to_multiset().add(rest.deep_view().to_multiset()) =~= total);
            assert forall|i: int, j: int|
                0 <= i < j < inserted.len() implies lex_le(
                (#[trigger] inserted[i]).name,
                (#[trigger] inserted[j]).name,
            ) by {
                if j == pos {
                    // everything before the insertion point compares below
                } else if i == pos {
                    // the element right of the insertion point compares
                    // above, and order is transitive beyond it
                    assert(inserted[j] == out_pre[j - 1]);
                    assert(lex_le(dv.name, out_pre[pos as int].name));
                    if pos < j - 1 {
                        assert(lex_le(out_pre[pos as int].name, out_pre[j - 1].name));
                        lemma_lex_trans(dv.name, out_pre[pos as int].name, out_pre[j - 1].name);
                    }
                } else if i < pos && j > pos {
                    assert(inserted[i] == out_pre[i]);
                    assert(inserted[j] == out_pre[j - 1]);
                }
            }
        }
    }
    proof {
        assert(rest.deep_view().len() == 0);
        vstd::seq_lib::to_multiset_len(rest.deep_view());
        assert(rest.deep_view().to_multiset() =~= Multiset::<DocumentV>::empty());
        assert(out.deep_view().to_multiset() =~= total);
    }
    out
}

/// Ordering determinism: documents with pairwise distinct names have one
/// sorted order.  Two loads of the same document set, however the sources
/// were enumerated, therefore hand the engine the same operation sequence,
/// and the engine's output is a function of that sequence.
pub proof fn lemma_order_deterministic(a: Seq<DocumentV>, b: Seq<DocumentV>)
    requires
        sorted_by_name(a),
        sorted_by_name(b),
        distinct_names(a),
        a.to_multiset() == b.to_multiset(),
    ensures
        a == b,
    decreases a.len(),
{
    broadcast use vstd::seq_lib::group_to_multiset_ensures;
    broadcast use vstd::multiset::group_multiset_axioms;

    vstd::seq_lib::to_multiset_len(a);
    vstd::seq_lib::to_multiset_len(b);
    if a.len() == 0 {
        assert(b.to_multiset().len() == 0);
        assert(a =~= b);
    } else {
        assert(b.len() > 0);
        vstd::seq_lib::to_multiset_contains(a, a[0]);
        vstd::seq_lib::to_multiset_contains(b, b[0]);
        vstd::seq_lib::to_multiset_contains(a, b[0]);
        vstd::seq_lib::to_multiset_contains(b, a[0]);
        assert(a.to_multiset().contains(a[0]));
        assert(b.to_multiset().contains(b[0]));
        assert(a.contains(b[0]));
        assert(b.contains(a[0]));
        let i = choose|i: int| 0 <= i < a.len() && a[i] == b[0];
        let j = choose|j: int| 0 <= j < b.len() && b[j] == a[0];
        if i == 0 || j == 0 {
            assert(a[0] == b[0]);
        } else {
            assert(lex_le(a[0].name, a[i].name));
            assert(lex_le(b[0].name, b[j].name));
            lemma_lex_antisym(a[0].name, b[0].name);
            assert(a[i].name == a[0].name);
            assert(false);
        }
        assert(a[0] == b[0]);
        assert(a.drop_first() =~= a.remove(0));
        assert(b.drop_first() =~= b.remove(0));
        vstd::seq_lib::to_multiset_remove(a, 0);
        vstd::seq_lib::to_multiset_remove(b, 0);
        assert(a.drop_first().to_multiset() =~= a.to_multiset().remove(a[0]));
        assert(b.drop_first().to_multiset() =~= b.to_multiset().remove(b[0]));
        assert(forall|p: int|
            0 <= p < a.len() - 1 ==> #[trigger] a.drop_first()[p] == a[p + 1]);
        assert(forall|p: int|
            0 <= p < b.len() - 1 ==> #[trigger] b.drop_first()[p] == b[p + 1]);
        assert(sorted_by_name(a.drop_first()));
        assert(sorted_by_name(b.drop_first()));
        assert(distinct_names(a.drop_first()));
        lemma_order_deterministic(a.drop_first(), b.drop_first());
        assert(a =~= seq![a[0]] + a.drop_first());
        assert(b =~= seq![b[0]] + b.drop_first());
    }
}

/// Copies a patch value.
pub fn clone_value(v: &ValueType) -> (r: ValueType)
    ensures
        r@ == v@,
{
    match v {
        ValueType::Int(x) => ValueType::Int(*x),
        ValueType::UInt(x) => ValueType::UInt(*x),
        ValueType::FloatBits(x) => ValueType::FloatBits(*x),
        ValueType::Bool(x) => ValueType::Bool(*x),
        ValueType::Str(s) => ValueType::Str(clone_bytes(s)),
    }
}

/// Copies a field-assignment list.
pub fn clone_assignments(values: &Vec<(Vec<u8>, ValueType)>) -> (r: Vec<(Vec<u8>, ValueType)>)
    ensures
        r.deep_view() == values.deep_view(),
{
    let mut r: Vec<(Vec<u8>, ValueType)> = Vec::new();
    for i in 0..values.len()
        invariant
            r@.len() == i,
            forall|p: int|
                0 <= p < i ==> #[trigger] r.deep_view()[p] == values.deep_view()[p],
    {
        let e = &values[i];
        let ghost pre = r.deep_view();
        r.push((clone_bytes(&e.0), clone_value(&e.1)));
        proof {
            assert(values.deep_view()[i as int] == (e.0@, e.1.deep_view()));
            assert forall|p: int| 0 <= p < i + 1 implies #[trigger] r.deep_view()[p]
                == values.deep_view()[p] by {
                if p < i {
                    assert(r.deep_view()[p] == pre[p]);
                }
            }
        }
    }
    proof {
        assert(r.deep_view() =~= values.deep_view());
    }
    r
}

/// Copies an optional reference.
pub fn clone_opt_bytes(v: &Option<Vec<u8>>) -> (r: Option<Vec<u8>>)
    ensures
        r.deep_view() == v.deep_view(),
{
    match v {
        Some(b) => Some(clone_bytes(b)),
        None => None,
    }
}

/// Copies a patch operation.
pub fn clone_entry(e: &PatchEntry) -> (r: PatchEntry)
    ensures
        r@ == e@,
{
    match e {
        PatchEntry::Update { key, key_column, updates } => PatchEntry::Update {
            key: *key,
            key_column: clone_opt_bytes(key_column),
            updates: clone_assignments(updates),
        },
        PatchEntry::Insert { key, key_column, values } => PatchEntry::Insert {
            key: *key,
            key_column: clone_opt_bytes(key_column),
            values: clone_assignments(values),
        },
        PatchEntry::Copy { key, key_column, updates } => PatchEntry::Copy {
            key: *key,
            key_column: clone_opt_bytes(key_column),
            updates: clone_assignments(updates),
        },
    }
}

/// The operations of one section when it targets `table`
/// (case-insensitively), else nothing.
pub open spec fn file_changes(file: PatchFileV, table: Seq<u8>) -> Seq<EntryV> {
    if lower(file.dbc) == lower(table) {
        file.changes
    } else {
        Seq::empty()
    }
}

/// The operations of a document list that target `table`: each document's
/// matching sections in order, documents in list order.
pub open spec fn table_changes(docs: Seq<DocumentV>, table: Seq<u8>) -> Seq<EntryV>
    decreases docs.len(),
{
    if docs.len() == 0 {
        Seq::empty()
    } else {
        files_changes(docs[0].files, table) + table_changes(docs.drop_first(), table)
    }
}

/// The matching operations of one document's sections, in order.
pub open spec fn files_changes(files: Seq<PatchFileV>, table: Seq<u8>) -> Seq<EntryV>
    decreases files.len(),
{
    if files.len() == 0 {
        Seq::empty()
    } else {
        file_changes(files[0], table) + files_changes(files.drop_first(), table)
    }
}

/// Collects, in document order, the operations of every section that
/// targets `table`, compared case-insensitively.  Run this on documents
/// sorted by `sort_documents`: the result is then the table's
/// deterministic operation order.
pub fn changes_for_table(docs: &Vec<PatchDocument>, table: &Vec<u8>) -> (r: Vec<PatchEntry>)
    ensures
        r.deep_view() == table_changes(docs.deep_view(), table@),
{
    let ghost dv = docs.deep_view();
    let mut r: Vec<PatchEntry> = Vec::new();
    proof {
        assert(r.deep_view() =~= Seq::<EntryV>::empty());
        assert(dv.skip(0) =~= dv);
    }
    let nd = docs.len();
    for i in 0..nd
        invariant
            nd == docs.len(),
            dv == docs.deep_view(),
            r.deep_view() + table_changes(dv.skip(i as int), table@) == table_changes(dv, table@),
    {
        let doc = &docs[i];
        proof {
            assert(dv[i as int] == doc@);
            assert(dv.skip(i as int)[0] == dv[i as int]);
            assert(dv.skip(i as int).drop_first() =~= dv.skip(i + 1));
        }
        let ghost fv = doc@.files;
        proof {
            assert(fv.skip(0) =~= fv);
            assert(r.deep_view() + (files_changes(fv, table@) + table_changes(
                dv.skip(i + 1),
                table@,
            )) =~= (r.deep_view() + files_changes(fv, table@)) + table_changes(
                dv.skip(i + 1),
                table@,
            ));
        }
        let nf = doc.files.len();
        for f in 0..nf
            invariant
                nd == docs.len(),
                dv == docs.deep_view(),
                nf == doc.files.len(),
                fv == doc@.files,
                doc@ == dv[i as int],
                0 <= i < nd,
                dv.skip(i as int)[0] == dv[i as int],
                dv.skip(i as int).drop_first() == dv.skip(i + 1),
                r.deep_view() + files_changes(fv.skip(f as int), table@) + table_changes(
                    dv.skip(i + 1),
                    table@,
                ) == table_changes(dv, table@),
        {
            let file = &doc.files[f];
            proof {
                assert(fv[f as int] == file@);
                assert(fv.skip(f as int)[0] == fv[f as int]);
                assert(fv.skip(f as int).drop_first() =~= fv.skip(f + 1));
            }
            let ghost r_pre = r.deep_view();
            let dbc_low = lower_bytes(&file.dbc);
            let table_low = lower_bytes(table);
            if bytes_eq(&dbc_low, &table_low) {
                let nc = file.changes.len();
                proof {
                    assert(file@.changes.take(0) =~= Seq::<EntryV>::empty());
                    assert(r.deep_view() + Seq::<EntryV>::empty() =~= r.deep_view());
                }
                for c in 0..nc
                    invariant
                        nc == file.changes.len(),
                        file@ == fv[f as int],
                        r.deep_view() == r_pre + file@.changes.take(c as int),
                    {
                    let e = clone_entry(&file.changes[c]);
                    proof {
                        assert(file@.changes[c as int] == file.changes[c as int]@);
                    }
                    let ghost rd_pre = r.deep_view();
                    r.push(e);
                    proof {
                        assert(r.deep_view() =~= rd_pre.push(file@.changes[c as int]));
                        assert(file@.changes.take(c + 1) =~= file@.changes.take(c as int).push(
                            file@.changes[c as int],
                        ));
                        assert(rd_pre.push(file@.changes[c as int]) =~= r_pre + file@.changes.take(
                            c + 1,
                        ));
                    }
                }
                proof {
                    assert(file@.changes.take(nc as int) =~= file@.changes);
                    assert(r.deep_view() == r_pre + file_changes(file@, table@));
                }
            } else {
                proof {
                    assert(r.deep_view() =~= r_pre + file_changes(file@, table@));
                }
            }
            proof {
                assert((r_pre + file_changes(fv[f as int], table@)) + files_changes(
                    fv.skip(f + 1),
                    table@,
                ) =~= r_pre + (file_changes(fv[f as int], table@) + files_changes(
                    fv.skip(f + 1),
                    table@,
                )));
            }
        }
        proof {
            assert(fv.skip(nf as int).len() == 0);
            assert(r.deep_view() + Seq::<EntryV>::empty() =~= r.deep_view());
        }
    }
    proof {
        assert(dv.skip(nd as int).len() == 0);
        assert(r.deep_view() + Seq::<EntryV>::empty() =~= r.deep_view());
    }
    r
}

} // verus!
