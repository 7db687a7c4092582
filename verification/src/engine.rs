//! The patch engine: reference resolution, value application and the
//! update/insert/copy operations over one table's records, string index
//! and staging list.

use crate::patch::{
    coerce_word, schema_view, EntryV, PatchEntry, Schema, ValueType, ValueV, WarnV, Warning,
};
use crate::pool::{assoc_lookup, intern_spec, staged_bytes, PoolManager, PoolState};
use crate::util::{bytes_eq, clone_bytes};
use vstd::prelude::*;

verus! {

/// An ASCII decimal digit.
pub open spec fn is_ascii_digit(b: u8) -> bool {
    48 <= b <= 57
}

/// The number denoted by a sequence of decimal digits, most significant
/// first.
pub open spec fn digits_value(s: Seq<u8>) -> int
    decreases s.len(),
{
    if s.len() == 0 {
        0
    } else {
        digits_value(s.drop_last()) * 10 + (s.last() - 48)
    }
}

/// Whether every byte is a decimal digit.
pub open spec fn all_digits(s: Seq<u8>) -> bool {
    forall|i: int| 0 <= i < s.len() ==> is_ascii_digit(#[trigger] s[i])
}

/// The column index a reference denotes when it is written as a number:
/// an optional plus sign, then at least one decimal digit, with a value
/// that fits the machine's index type.
pub open spec fn index_digits(s: Seq<u8>) -> Seq<u8> {
    if s.len() > 0 && s[0] == 43 {
        s.drop_first()
    } else {
        s
    }
}

pub open spec fn parse_index(s: Seq<u8>) -> Option<int> {
    let t = index_digits(s);
    if t.len() > 0 && all_digits(t) && digits_value(t) <= usize::MAX {
        Some(digits_value(t))
    } else {
        None
    }
}

/// ASCII lowercasing of one byte.
pub open spec fn lower_byte(b: u8) -> u8 {
    if 65 <= b <= 90 {
        (b + 32) as u8
    } else {
        b
    }
}

/// ASCII lowercasing of a byte string.
pub open spec fn lower(s: Seq<u8>) -> Seq<u8> {
    s.map_values(|b: u8| lower_byte(b))
}

/// Resolution of a field reference: a numeric reference is the index
/// itself; any other reference is looked up, lowercased, in the name
/// table, when one is supplied.  Failure means the one assignment carrying
/// the reference is skipped.
pub open spec fn resolve_field_spec(name: Seq<u8>, schema: Option<Seq<(Seq<u8>, usize)>>) -> Option<
    int,
> {
    match parse_index(name) {
        Some(i) => Some(i),
        None => match schema {
            Some(tbl) => match assoc_lookup(tbl, lower(name)) {
                Some(i) => Some(i as int),
                None => None,
            },
            None => None,
        },
    }
}

/// Resolution of a key-column reference: an absent reference means column
/// 0; a present one resolves as a field reference, except that failure
/// warns and defaults to column 0.
pub open spec fn resolve_key_spec(
    key_column: Option<Seq<u8>>,
    schema: Option<Seq<(Seq<u8>, usize)>>,
) -> (int, Seq<WarnV>) {
    match key_column {
        None => (0, Seq::empty()),
        Some(name) => match resolve_field_spec(name, schema) {
            Some(i) => (i, Seq::empty()),
            None => (0, seq![WarnV::UnresolvedKeyColumn { name }]),
        },
    }
}

/// Digit values only grow as more digits follow.
proof fn lemma_digits_nonneg(s: Seq<u8>)
    requires
        all_digits(s),
    ensures
        digits_value(s) >= 0,
    decreases s.len(),
{
    if s.len() > 0 {
        assert(all_digits(s.drop_last())) by {
            assert(forall|i: int| 0 <= i < s.len() - 1 ==> s.drop_last()[i] == s[i]);
        }
        lemma_digits_nonneg(s.drop_last());
    }
}

/// The value of a prefix never exceeds the value of the whole digit
/// string.
proof fn lemma_digits_prefix(s: Seq<u8>, j: int)
    requires
        all_digits(s),
        0 <= j <= s.len(),
    ensures
        digits_value(s.take(j)) <= digits_value(s),
    decreases s.len() - j,
{
    if j == s.len() {
        assert(s.take(j) =~= s);
    } else {
        lemma_digits_prefix(s, j + 1);
        assert(s.take(j + 1).drop_last() =~= s.take(j));
        assert(all_digits(s.take(j))) by {
            assert(forall|i: int| 0 <= i < j ==> s.take(j)[i] == s[i]);
        }
        lemma_digits_nonneg(s.take(j));
        assert(digits_value(s.take(j + 1)) == digits_value(s.take(j)) * 10 + (s[j] - 48));
        assert(digits_value(s.take(j)) * 10 >= digits_value(s.take(j))) by (nonlinear_arith)
            requires
                digits_value(s.take(j)) >= 0,
        ;
    }
}

/// Parses a reference as a decimal column index, accepting exactly what
/// `parse_index` describes.
pub fn parse_index_exec(s: &Vec<u8>) -> (r: Option<usize>)
    ensures
        match r {
            Some(i) => parse_index(s@) == Some(i as int),
            None => parse_index(s@) is None,
        },
{
    let start: usize = if s.len() > 0 && s[0] == 43 {
        1
    } else {
        0
    };
    let ghost t = index_digits(s@);
    proof {
        assert(t.len() == s@.len() - start);
        assert(forall|i: int| 0 <= i < t.len() ==> t[i] == s@[i + start]);
    }
    if s.len() == start {
        return None;
    }
    let mut acc: usize = 0;
    let mut i: usize = start;
    while i < s.len()
        invariant
            start <= i <= s.len(),
            t == index_digits(s@),
            t.len() == s@.len() - start,
            forall|p: int| 0 <= p < t.len() ==> t[p] == s@[p + start],
            all_digits(t.take(i - start)),
            acc == digits_value(t.take(i - start)),
        decreases s.len() - i,
    {
        let b = s[i];
        if b < 48 || b > 57 {
            proof {
                assert(t[i - start] == s@[i as int]);
                assert(!is_ascii_digit(t[i - start]));
                assert(!all_digits(t));
                assert(parse_index(s@) is None);
            }
            return None;
        }
        let d = (b - 48) as usize;
        proof {
            assert(t.take(i - start + 1).drop_last() =~= t.take(i - start));
            assert(t.take(i - start + 1).last() == s@[i as int]);
        }
        if acc > (usize::MAX - d) / 10 {
            proof {
                vstd::arithmetic::div_mod::lemma_fundamental_div_mod(
                    (usize::MAX - d) as int,
                    10,
                );
                vstd::arithmetic::div_mod::lemma_mod_bound((usize::MAX - d) as int, 10);
                assert(acc * 10 + d > usize::MAX) by (nonlinear_arith)
                    requires
                        acc > ((usize::MAX - d) as int) / 10,
                        (usize::MAX - d) as int == 10 * (((usize::MAX - d) as int) / 10) + ((
                        usize::MAX - d) as int) % 10,
                        0 <= ((usize::MAX - d) as int) % 10 < 10,
                ;
                assert(digits_value(t.take(i - start + 1)) == acc * 10 + d);
                assert(all_digits(t.take(i - start + 1))) by {
                    assert(forall|p: int|
                        0 <= p < i - start + 1 ==> t.take(i - start + 1)[p] == t[p]);
                }
                if all_digits(t) {
                    lemma_digits_prefix(t, i - start + 1);
                }
                assert(parse_index(s@) is None);
            }
            return None;
        }
        proof {
            assert(acc * 10 + d <= usize::MAX) by (nonlinear_arith)
                requires
                    acc <= ((usize::MAX - d) as int) / 10,
                    acc >= 0,
                    (usize::MAX - d) as int == 10 * (((usize::MAX - d) as int) / 10) + ((usize::MAX
                        - d) as int) % 10,
                    0 <= ((usize::MAX - d) as int) % 10 < 10,
            ;
        }
        acc = acc * 10 + d;
        i = i + 1;
    }
    proof {
        assert(t.take(s@.len() - start) =~= t);
    }
    Some(acc)
}

/// ASCII-lowercases a byte string.
pub fn lower_bytes(s: &Vec<u8>) -> (r: Vec<u8>)
    ensures
        r@ == lower(s@),
{
    let mut r: Vec<u8> = Vec::new();
    for i in 0..s.len()
        invariant
            r@.len() == i,
            forall|p: int| 0 <= p < i ==> r@[p] == lower_byte(s@[p]),
    {
        let b = s[i];
        if b >= 65 && b <= 90 {
            r.push(b + 32);
        } else {
            r.push(b);
        }
    }
    proof {
        assert(r@ =~= lower(s@));
    }
    r
}

impl Schema {
    /// The column recorded first for a lowercase name, if any.
    pub fn get(&self, key: &Vec<u8>) -> (r: Option<usize>)
        ensures
            r == assoc_lookup(self@, key@),
    {
        let n = self.entries.len();
        proof {
            assert(self@.skip(0) =~= self@);
        }
        for i in 0..n
            invariant
                n == self.entries.len(),
                assoc_lookup(self@, key@) == assoc_lookup(self@.skip(i as int), key@),
        {
            proof {
                assert(self@.skip(i as int)[0] == self@[i as int]);
                assert(self@.skip(i as int).drop_first() =~= self@.skip(i + 1));
                assert(self@[i as int] == (self.entries@[i as int].0@, self.entries@[i as int].1));
            }
            let e = &self.entries[i];
            if bytes_eq(&e.0, key) {
                return Some(e.1);
            }
        }
        proof {
            assert(self@.skip(n as int).len() == 0);
        }
        None
    }
}

/// Resolves a field reference to a column index, as `resolve_field_spec`
/// says; `None` means the one assignment carrying it is skipped.
pub fn resolve_field_index(field_name: &Vec<u8>, schema: &Option<Schema>) -> (r: Option<usize>)
    ensures
        match r {
            Some(i) => resolve_field_spec(field_name@, schema_view(schema)) == Some(i as int),
            None => resolve_field_spec(field_name@, schema_view(schema)) is None,
        },
{
    match parse_index_exec(field_name) {
        Some(i) => Some(i),
        None => match schema {
            Some(tbl) => {
                let lowered = lower_bytes(field_name);
                tbl.get(&lowered)
            },
            None => None,
        },
    }
}

/// Resolves a key-column reference, appending any warning, as
/// `resolve_key_spec` says: an absent or unresolved reference means
/// column 0, the latter with a warning.
pub fn resolve_key_column_index(
    key_column: &Option<Vec<u8>>,
    schema: &Option<Schema>,
    warns: &mut Vec<Warning>,
) -> (r: usize)
    ensures
        ({
            let (kc, w) = resolve_key_spec(key_column.deep_view(), schema_view(schema));
            &&& r as int == kc
            &&& final(warns).deep_view() == old(warns).deep_view() + w
        }),
{
    let ghost pre = warns.deep_view();
    match key_column {
        None => {
            proof {
                assert(pre + Seq::<WarnV>::empty() =~= pre);
            }
            0
        },
        Some(name) => {
            match resolve_field_index(name, schema) {
                Some(i) => {
                    proof {
                        assert(pre + Seq::<WarnV>::empty() =~= pre);
                        assert(key_column.deep_view() == Some(name@));
                        assert(resolve_field_spec(name@, schema_view(schema)) == Some(i as int));
                    }
                    i
                },
                None => {
                    warns.push(Warning::UnresolvedKeyColumn { name: clone_bytes(name) });
                    proof {
                        assert(key_column.deep_view() == Some(name@));
                        assert(resolve_field_spec(name@, schema_view(schema)) is None);
                        assert(warns.deep_view() =~~= pre + seq![
                            WarnV::UnresolvedKeyColumn { name: name@ },
                        ]);
                    }
                    0
                },
            }
        },
    }
}

/// Index of the first record whose key column holds `key`; records too
/// short to have the key column never match.
pub open spec fn first_match(recs: Seq<Seq<u32>>, kc: int, key: u32) -> Option<int>
    decreases recs.len(),
{
    if recs.len() == 0 {
        None
    } else if 0 <= kc < recs[0].len() && recs[0][kc] == key {
        Some(0)
    } else {
        match first_match(recs.drop_first(), kc, key) {
            Some(i) => Some(i + 1),
            None => None,
        }
    }
}

/// A scan that has ruled the first `i` records out reduces the search to
/// the rest.
proof fn lemma_first_match_skip(recs: Seq<Seq<u32>>, kc: int, key: u32, i: int)
    requires
        0 <= i <= recs.len(),
        forall|ii: int|
            0 <= ii < i ==> !(0 <= kc < (#[trigger] recs[ii]).len() && recs[ii][kc] == key),
    ensures
        first_match(recs, kc, key) == match first_match(recs.skip(i), kc, key) {
            Some(j) => Some(i + j),
            None => None::<int>,
        },
    decreases i,
{
    if i == 0 {
        assert(recs.skip(0) =~= recs);
    } else {
        lemma_first_match_skip(recs.drop_first(), kc, key, i - 1);
        assert(recs.drop_first().skip(i - 1) =~= recs.skip(i));
        assert(forall|ii: int|
            0 <= ii < i - 1 ==> recs.drop_first()[ii] == #[trigger] recs[ii + 1]);
    }
}

/// Finds the first record whose key column holds `key`.
pub fn find_first_match(records: &Vec<Vec<u32>>, kc: usize, key: u32) -> (r: Option<usize>)
    ensures
        match r {
            Some(i) => first_match(records.deep_view(), kc as int, key) == Some(i as int) && i
                < records.len(),
            None => first_match(records.deep_view(), kc as int, key) is None,
        },
{
    let n = records.len();
    for i in 0..n
        invariant
            n == records.len(),
            forall|ii: int|
                0 <= ii < i ==> !(kc < (#[trigger] records.deep_view()[ii]).len()
                    && records.deep_view()[ii][kc as int] == key),
    {
        let rec = &records[i];
        proof {
            assert(records.deep_view()[i as int] =~= rec.deep_view());
            assert(rec.deep_view() =~= rec@);
        }
        if kc < rec.len() && rec[kc] == key {
            proof {
                lemma_first_match_skip(records.deep_view(), kc as int, key, i as int);
                assert(records.deep_view().skip(i as int)[0] == records.deep_view()[i as int]);
            }
            return Some(i);
        }
    }
    proof {
        lemma_first_match_skip(records.deep_view(), kc as int, key, n as int);
        assert(records.deep_view().skip(n as int).len() == 0);
    }
    None
}

/// Copies a record.
pub fn clone_words(a: &Vec<u32>) -> (r: Vec<u32>)
    ensures
        r@ == a@,
{
    let mut r: Vec<u32> = Vec::new();
    for i in 0..a.len()
        invariant
            r@.len() == i,
            forall|p: int| 0 <= p < i ==> r@[p] == a@[p],
    {
        r.push(a[i]);
    }
    proof {
        assert(r@ =~= a@);
    }
    r
}

/// One field assignment: resolve the reference (skipping the assignment
/// with a warning when it fails or lands outside the record), then store
/// the interned string offset for a string value, or the coerced word for
/// any other value, dropping the assignment silently when the value has no
/// word or the pool is full.
pub open spec fn apply_one_spec(
    name: Seq<u8>,
    v: ValueV,
    rec: Seq<u32>,
    schema: Option<Seq<(Seq<u8>, usize)>>,
    pool: PoolState,
    key: u32,
) -> (Seq<u32>, PoolState, Seq<WarnV>) {
    match resolve_field_spec(name, schema) {
        None => (rec, pool, seq![WarnV::UnknownField { name }]),
        Some(idx) => {
            if idx >= rec.len() {
                (rec, pool, seq![WarnV::FieldOutOfRange { index: idx as usize, key }])
            } else {
                match v {
                    ValueV::Str(sv) => {
                        let (off, pool2) = intern_spec(pool, sv);
                        match off {
                            Some(o) => (rec.update(idx, o), pool2, Seq::empty()),
                            None => (rec, pool2, Seq::empty()),
                        }
                    },
                    _ => match coerce_word(v) {
                        Some(w) => (rec.update(idx, w), pool, Seq::empty()),
                        None => (rec, pool, Seq::empty()),
                    },
                }
            }
        },
    }
}

/// Field assignments applied in listed order, threading the record and the
/// pool state and concatenating the warnings.
pub open spec fn apply_values_spec(
    values: Seq<(Seq<u8>, ValueV)>,
    rec: Seq<u32>,
    schema: Option<Seq<(Seq<u8>, usize)>>,
    pool: PoolState,
    key: u32,
) -> (Seq<u32>, PoolState, Seq<WarnV>)
    decreases values.len(),
{
    if values.len() == 0 {
        (rec, pool, Seq::empty())
    } else {
        let (r1, p1, w1) = apply_one_spec(values[0].0, values[0].1, rec, schema, pool, key);
        let (r2, p2, w2) = apply_values_spec(values.drop_first(), r1, schema, p1, key);
        (r2, p2, w1 + w2)
    }
}

/// Applies each field assignment of `values` to `record` in listed order:
/// exactly `apply_values_spec` over the views, with the warnings appended
/// to `warns`.
pub fn apply_values_to_record(
    values: &Vec<(Vec<u8>, ValueType)>,
    record: &mut Vec<u32>,
    schema: &Option<Schema>,
    pool: &mut PoolManager,
    warns: &mut Vec<Warning>,
    record_key: u32,
)
    requires
        old(pool).wf(),
    ensures
        final(pool).wf(),
        ({
            let (r2, p2, w2) = apply_values_spec(
                values.deep_view(),
                old(record)@,
                schema_view(schema),
                old(pool)@,
                record_key,
            );
            &&& final(record)@ == r2
            &&& final(pool)@ == p2
            &&& final(warns).deep_view() == old(warns).deep_view() + w2
        }),
{
    let ghost vs = values.deep_view();
    let ghost sv = schema_view(schema);
    let ghost goal = apply_values_spec(vs, record@, sv, pool@, record_key);
    let ghost w0 = warns.deep_view();
    proof {
        assert(vs.skip(0) =~= vs);
        assert(w0 + Seq::<WarnV>::empty() =~= w0);
    }
    let n = values.len();
    for i in 0..n
        invariant
            n == values.len(),
            vs == values.deep_view(),
            sv == schema_view(schema),
            goal == apply_values_spec(vs, old(record)@, sv, old(pool)@, record_key),
            w0 == old(warns).deep_view(),
            pool.wf(),
            ({
                let (r2, p2, w2) = apply_values_spec(
                    vs.skip(i as int),
                    record@,
                    sv,
                    pool@,
                    record_key,
                );
                &&& r2 == goal.0
                &&& p2 == goal.1
                &&& warns.deep_view() + w2 == w0 + goal.2
            }),
    {
        let ghost pre_rec = record@;
        let ghost pre_pool = pool@;
        let ghost pre_warns = warns.deep_view();
        let ghost one = apply_one_spec(
            vs[i as int].0,
            vs[i as int].1,
            pre_rec,
            sv,
            pre_pool,
            record_key,
        );
        let entry = &values[i];
        proof {
            assert(vs[i as int] == (entry.0@, entry.1.deep_view()));
        }
        let name = &entry.0;
        let value = &entry.1;
        match resolve_field_index(name, schema) {
            None => {
                warns.push(Warning::UnknownField { name: clone_bytes(name) });
                proof {
                    assert(warns.deep_view() =~~= pre_warns + seq![
                        WarnV::UnknownField { name: name@ },
                    ]);
                    assert(one == (pre_rec, pre_pool, seq![WarnV::UnknownField { name: name@ }]));
                }
            },
            Some(idx) => {
                if idx >= record.len() {
                    warns.push(Warning::FieldOutOfRange { index: idx, key: record_key });
                    proof {
                        assert(warns.deep_view() =~~= pre_warns + seq![
                            WarnV::FieldOutOfRange { index: idx, key: record_key },
                        ]);
                        assert(one == (
                            pre_rec,
                            pre_pool,
                            seq![WarnV::FieldOutOfRange { index: idx, key: record_key }],
                        ));
                    }
                } else {
                    match value {
                        ValueType::Str(sval) => {
                            let off = pool.intern(clone_bytes(sval));
                            match off {
                                Some(o) => {
                                    record[idx] = o;
                                },
                                None => {},
                            }
                            proof {
                                assert(warns.deep_view() =~= pre_warns + Seq::<WarnV>::empty());
                                assert(one == (record@, pool@, Seq::<WarnV>::empty()));
                            }
                        },
                        _ => {
                            let w = value.as_u32();
                            match w {
                                Some(x) => {
                                    record[idx] = x;
                                },
                                None => {},
                            }
                            proof {
                                assert(warns.deep_view() =~= pre_warns + Seq::<WarnV>::empty());
                                assert(one == (record@, pool@, Seq::<WarnV>::empty()));
                            }
                        },
                    }
                }
            },
        }
        proof {
            assert(one == (record@, pool@, one.2));
            assert(warns.deep_view() == pre_warns + one.2);
            assert(vs.skip(i as int)[0] == vs[i as int]);
            assert(vs.skip(i as int).drop_first() =~= vs.skip(i + 1));
            let (rr, pp, ww) = apply_values_spec(vs.skip(i + 1), record@, sv, pool@, record_key);
            assert((pre_warns + one.2) + ww =~= pre_warns + (one.2 + ww));
        }
    }
    proof {
        assert(vs.skip(n as int).len() == 0);
        assert(warns.deep_view() + Seq::<WarnV>::empty() =~= warns.deep_view());
    }
}

/// Whether some record already holds `key` in its key column; records too
/// short to have the key column never count.
pub open spec fn dup_exists(recs: Seq<Seq<u32>>, kc: int, key: u32) -> bool {
    exists|i: int|
        0 <= i < recs.len() && 0 <= kc < (#[trigger] recs[i]).len() && recs[i][kc] == key
}

/// Whether some assignment of `values` resolves to the key column.
pub open spec fn key_targeted(
    values: Seq<(Seq<u8>, ValueV)>,
    kc: int,
    schema: Option<Seq<(Seq<u8>, usize)>>,
) -> bool {
    exists|i: int|
        0 <= i < values.len() && resolve_field_spec((#[trigger] values[i]).0, schema) == Some(kc)
}

/// The record an insert starts from: all-zero words, with the key written
/// into the key column when a key is given, the column is in range, and no
/// assignment targets that column itself.
pub open spec fn insert_base(fc: int, key: Option<u32>, kc: int, targeted: bool) -> Seq<u32> {
    let zeros = Seq::new(fc as nat, |j: int| 0u32);
    match key {
        Some(k) => if 0 <= kc < fc && !targeted {
            zeros.update(kc, k)
        } else {
            zeros
        },
        None => zeros,
    }
}

/// Duplicate-key policy for a finished new record: when the key column is
/// in range and some existing record already holds the new record's key
/// there, the new record is discarded with a warning; otherwise it is
/// appended.  An out-of-range key column skips the check and appends.
pub open spec fn finish_append(
    recs: Seq<Seq<u32>>,
    kc: int,
    rec1: Seq<u32>,
    p1: PoolState,
    w1: Seq<WarnV>,
) -> (Seq<Seq<u32>>, PoolState, Seq<WarnV>) {
    if 0 <= kc < rec1.len() {
        let nk = rec1[kc];
        if dup_exists(recs, kc, nk) {
            (recs, p1, w1.push(WarnV::DuplicateKey { key: nk }))
        } else {
            (recs.push(rec1), p1, w1)
        }
    } else {
        (recs.push(rec1), p1, w1)
    }
}

/// Update: apply the assignments to the first record whose key column
/// holds `key`, in place; with no match, warn and change nothing.
pub open spec fn apply_update_spec(
    key: u32,
    kc: int,
    values: Seq<(Seq<u8>, ValueV)>,
    recs: Seq<Seq<u32>>,
    schema: Option<Seq<(Seq<u8>, usize)>>,
    pool: PoolState,
) -> (Seq<Seq<u32>>, PoolState, Seq<WarnV>) {
    match first_match(recs, kc, key) {
        None => (recs, pool, seq![WarnV::NoMatch { key }]),
        Some(i) => {
            let (r2, p2, w) = apply_values_spec(values, recs[i], schema, pool, key);
            (recs.update(i, r2), p2, w)
        },
    }
}

/// Insert: build a fresh record from `insert_base`, apply the
/// assignments, then append it under the duplicate-key policy.  Interned
/// strings stay staged even when the record is discarded.
pub open spec fn apply_insert_spec(
    key: Option<u32>,
    kc: int,
    values: Seq<(Seq<u8>, ValueV)>,
    recs: Seq<Seq<u32>>,
    schema: Option<Seq<(Seq<u8>, usize)>>,
    pool: PoolState,
    fc: int,
) -> (Seq<Seq<u32>>, PoolState, Seq<WarnV>) {
    let rec0 = insert_base(fc, key, kc, key_targeted(values, kc, schema));
    let key_val = match key {
        Some(k) => k,
        None => 0u32,
    };
    let (rec1, p1, w1) = apply_values_spec(values, rec0, schema, pool, key_val);
    finish_append(recs, kc, rec1, p1, w1)
}

/// Copy: clone the first record whose key column holds `key`, apply the
/// assignments to the clone, then append it under the duplicate-key
/// policy, checked against all records present at that moment; with no
/// match, warn and change nothing.
pub open spec fn apply_copy_spec(
    key: u32,
    kc: int,
    values: Seq<(Seq<u8>, ValueV)>,
    recs: Seq<Seq<u32>>,
    schema: Option<Seq<(Seq<u8>, usize)>>,
    pool: PoolState,
) -> (Seq<Seq<u32>>, PoolState, Seq<WarnV>) {
    match first_match(recs, kc, key) {
        None => (recs, pool, seq![WarnV::NoMatch { key }]),
        Some(i) => {
            let (rec1, p1, w1) = apply_values_spec(values, recs[i], schema, pool, key);
            finish_append(recs, kc, rec1, p1, w1)
        },
    }
}

/// One patch operation: resolve its key column (possibly warning), then
/// run the operation.
pub open spec fn apply_entry_spec(
    e: EntryV,
    recs: Seq<Seq<u32>>,
    schema: Option<Seq<(Seq<u8>, usize)>>,
    pool: PoolState,
    fc: int,
) -> (Seq<Seq<u32>>, PoolState, Seq<WarnV>) {
    match e {
        EntryV::Update { key, key_column, updates } => {
            let (kc, w0) = resolve_key_spec(key_column, schema);
            let (r, p, w) = apply_update_spec(key, kc, updates, recs, schema, pool);
            (r, p, w0 + w)
        },
        EntryV::Insert { key, key_column, values } => {
            let (kc, w0) = resolve_key_spec(key_column, schema);
            let (r, p, w) = apply_insert_spec(key, kc, values, recs, schema, pool, fc);
            (r, p, w0 + w)
        },
        EntryV::Copy { key, key_column, updates } => {
            let (kc, w0) = resolve_key_spec(key_column, schema);
            let (r, p, w) = apply_copy_spec(key, kc, updates, recs, schema, pool);
            (r, p, w0 + w)
        },
    }
}

/// Patch operations applied in listed order, threading records and pool
/// state and concatenating the warnings.  This order is the deterministic
/// order fixed before the pass begins.
pub open spec fn apply_entries_spec(
    es: Seq<EntryV>,
    recs: Seq<Seq<u32>>,
    schema: Option<Seq<(Seq<u8>, usize)>>,
    pool: PoolState,
    fc: int,
) -> (Seq<Seq<u32>>, PoolState, Seq<WarnV>)
    decreases es.len(),
{
    if es.len() == 0 {
        (recs, pool, Seq::empty())
    } else {
        let (r1, p1, w1) = apply_entry_spec(es[0], recs, schema, pool, fc);
        let (r2, p2, w2) = apply_entries_spec(es.drop_first(), r1, schema, p1, fc);
        (r2, p2, w1 + w2)
    }
}

/// Whether some record already holds `key` in its key column.
pub fn has_key(records: &Vec<Vec<u32>>, kc: usize, key: u32) -> (r: bool)
    ensures
        r == dup_exists(records.deep_view(), kc as int, key),
{
    let n = records.len();
    for i in 0..n
        invariant
            n == records.len(),
            forall|ii: int|
                0 <= ii < i ==> !(kc < (#[trigger] records.deep_view()[ii]).len()
                    && records.deep_view()[ii][kc as int] == key),
    {
        let rec = &records[i];
        proof {
            assert(records.deep_view()[i as int] =~= rec@);
        }
        if kc < rec.len() && rec[kc] == key {
            return true;
        }
    }
    false
}

/// Applies one patch operation to the records, exactly as
/// `apply_entry_spec` says, appending its warnings to `warns`.
pub fn apply_entry(
    entry: &PatchEntry,
    records: &mut Vec<Vec<u32>>,
    field_count: usize,
    schema: &Option<Schema>,
    pool: &mut PoolManager,
    warns: &mut Vec<Warning>,
)
    requires
        old(pool).wf(),
    ensures
        final(pool).wf(),
        ({
            let (r, p, w) = apply_entry_spec(
                entry@,
                old(records).deep_view(),
                schema_view(schema),
                old(pool)@,
                field_count as int,
            );
            &&& final(records).deep_view() == r
            &&& final(pool)@ == p
            &&& final(warns).deep_view() == old(warns).deep_view() + w
        }),
{
    let ghost recs0 = records.deep_view();
    let ghost sv = schema_view(schema);
    let ghost pool0 = pool@;
    let ghost w_orig = warns.deep_view();
    match entry {
        PatchEntry::Update { key, key_column, updates } => {
            let ghost (kcs, w0) = resolve_key_spec(key_column.deep_view(), sv);
            let ghost (gr, gp, gw) = apply_update_spec(*key, kcs, updates.deep_view(), recs0, sv, pool0);
            let kc = resolve_key_column_index(key_column, schema, warns);
            match find_first_match(records, kc, *key) {
                None => {
                    warns.push(Warning::NoMatch { key: *key });
                    proof {
                        assert(warns.deep_view() =~~= (w_orig + w0) + seq![
                            WarnV::NoMatch { key: *key },
                        ]);
                        assert((w_orig + w0) + seq![WarnV::NoMatch { key: *key }] =~= w_orig + (w0
                            + seq![WarnV::NoMatch { key: *key }]));
                    }
                },
                Some(i) => {
                    let mut rec = clone_words(&records[i]);
                    proof {
                        assert(recs0[i as int] =~= rec@);
                    }
                    apply_values_to_record(updates, &mut rec, schema, pool, warns, *key);
                    let ghost rv = rec@;
                    records[i] = rec;
                    proof {
                        assert(records.deep_view() =~~= recs0.update(i as int, rv));
                        let (r2, p2, wv) = apply_values_spec(
                            updates.deep_view(),
                            recs0[i as int],
                            sv,
                            pool0,
                            *key,
                        );
                        assert((w_orig + w0) + wv =~= w_orig + (w0 + wv));
                    }
                },
            }
        },
        PatchEntry::Insert { key, key_column, values } => {
            let ghost (kcs, w0) = resolve_key_spec(key_column.deep_view(), sv);
            let ghost vs = values.deep_view();
            let kc = resolve_key_column_index(key_column, schema, warns);
            let mut rec: Vec<u32> = vec![0u32; field_count];
            proof {
                assert(rec@ =~= Seq::new(field_count as nat, |j: int| 0u32));
            }
            let key_val: u32 = match key {
                Some(k) => *k,
                None => 0,
            };
            match key {
                Some(k) => {
                    let mut targeted = false;
                    let nv = values.len();
                    for t in 0..nv
                        invariant
                            nv == values.len(),
                            vs == values.deep_view(),
                            sv == schema_view(schema),
                            targeted ==> key_targeted(vs, kc as int, sv),
                            !targeted ==> forall|tt: int|
                                0 <= tt < t ==> resolve_field_spec(
                                    (#[trigger] vs[tt]).0,
                                    sv,
                                ) != Some(kc as int),
                    {
                        let entry_t = &values[t];
                        proof {
                            assert(vs[t as int] == (entry_t.0@, entry_t.1.deep_view()));
                        }
                        match resolve_field_index(&entry_t.0, schema) {
                            Some(x) => {
                                if x == kc {
                                    targeted = true;
                                }
                            },
                            None => {},
                        }
                    }
                    proof {
                        if !targeted {
                            assert(!key_targeted(vs, kc as int, sv));
                        }
                    }
                    if kc < field_count && !targeted {
                        rec[kc] = *k;
                    }
                    proof {
                        assert(rec@ =~= insert_base(
                            field_count as int,
                            key.deep_view(),
                            kc as int,
                            key_targeted(vs, kc as int, sv),
                        ));
                    }
                },
                None => {
                    proof {
                        assert(rec@ =~= insert_base(
                            field_count as int,
                            key.deep_view(),
                            kc as int,
                            key_targeted(vs, kc as int, sv),
                        ));
                    }
                },
            }
            apply_values_to_record(values, &mut rec, schema, pool, warns, key_val);
            let ghost (rec1, p1, w1) = apply_values_spec(
                vs,
                insert_base(field_count as int, key.deep_view(), kc as int, key_targeted(vs, kc as int, sv)),
                sv,
                pool0,
                key_val,
            );
            proof {
                assert(rec@ == rec1);
            }
            if kc < rec.len() {
                let nk = rec[kc];
                if has_key(records, kc, nk) {
                    warns.push(Warning::DuplicateKey { key: nk });
                    proof {
                        assert(warns.deep_view() =~~= ((w_orig + w0) + w1).push(
                            WarnV::DuplicateKey { key: nk },
                        ));
                        assert(((w_orig + w0) + w1).push(WarnV::DuplicateKey { key: nk }) =~= w_orig
                            + (w0 + w1.push(WarnV::DuplicateKey { key: nk })));
                    }
                } else {
                    let ghost rv = rec@;
                    records.push(rec);
                    proof {
                        assert(records.deep_view() =~~= recs0.push(rv));
                        assert((w_orig + w0) + w1 =~= w_orig + (w0 + w1));
                    }
                }
            } else {
                let ghost rv = rec@;
                records.push(rec);
                proof {
                    assert(records.deep_view() =~~= recs0.push(rv));
                    assert((w_orig + w0) + w1 =~= w_orig + (w0 + w1));
                }
            }
        },
        PatchEntry::Copy { key, key_column, updates } => {
            let ghost (kcs, w0) = resolve_key_spec(key_column.deep_view(), sv);
            let ghost vs = updates.deep_view();
            let kc = resolve_key_column_index(key_column, schema, warns);
            match find_first_match(records, kc, *key) {
                None => {
                    warns.push(Warning::NoMatch { key: *key });
                    proof {
                        assert(warns.deep_view() =~~= (w_orig + w0) + seq![
                            WarnV::NoMatch { key: *key },
                        ]);
                        assert((w_orig + w0) + seq![WarnV::NoMatch { key: *key }] =~= w_orig + (w0
                            + seq![WarnV::NoMatch { key: *key }]));
                    }
                },
                Some(i) => {
                    let mut rec = clone_words(&records[i]);
                    proof {
                        assert(recs0[i as int] =~= rec@);
                    }
                    apply_values_to_record(updates, &mut rec, schema, pool, warns, *key);
                    let ghost (rec1, p1, w1) = apply_values_spec(
                        vs,
                        recs0[i as int],
                        sv,
                        pool0,
                        *key,
                    );
                    proof {
                        assert(rec@ == rec1);
                    }
                    if kc < rec.len() {
                        let nk = rec[kc];
                        if has_key(records, kc, nk) {
                            warns.push(Warning::DuplicateKey { key: nk });
                            proof {
                                assert(warns.deep_view() =~~= ((w_orig + w0) + w1).push(
                                    WarnV::DuplicateKey { key: nk },
                                ));
                                assert(((w_orig + w0) + w1).push(WarnV::DuplicateKey { key: nk })
                                    =~= w_orig + (w0 + w1.push(WarnV::DuplicateKey { key: nk })));
                            }
                        } else {
                            let ghost rv = rec@;
                            records.push(rec);
                            proof {
                                assert(records.deep_view() =~~= recs0.push(rv));
                                assert((w_orig + w0) + w1 =~= w_orig + (w0 + w1));
                            }
                        }
                    } else {
                        let ghost rv = rec@;
                        records.push(rec);
                        proof {
                            assert(records.deep_view() =~~= recs0.push(rv));
                            assert((w_orig + w0) + w1 =~= w_orig + (w0 + w1));
                        }
                    }
                },
            }
        },
    }
}

/// Applies the patch operations in listed order, exactly as
/// `apply_entries_spec` says, appending their warnings to `warns`.
pub fn apply_entries(
    entries: &Vec<PatchEntry>,
    records: &mut Vec<Vec<u32>>,
    field_count: usize,
    schema: &Option<Schema>,
    pool: &mut PoolManager,
    warns: &mut Vec<Warning>,
)
    requires
        old(pool).wf(),
    ensures
        final(pool).wf(),
        ({
            let (r, p, w) = apply_entries_spec(
                entries.deep_view(),
                old(records).deep_view(),
                schema_view(schema),
                old(pool)@,
                field_count as int,
            );
            &&& final(records).deep_view() == r
            &&& final(pool)@ == p
            &&& final(warns).deep_view() == old(warns).deep_view() + w
        }),
{
    let ghost es = entries.deep_view();
    let ghost sv = schema_view(schema);
    let ghost goal = apply_entries_spec(
        es,
        records.deep_view(),
        sv,
        pool@,
        field_count as int,
    );
    let ghost w0 = warns.deep_view();
    proof {
        assert(es.skip(0) =~= es);
        assert(w0 + Seq::<WarnV>::empty() =~= w0);
    }
    let n = entries.len();
    for i in 0..n
        invariant
            n == entries.len(),
            es == entries.deep_view(),
            sv == schema_view(schema),
            goal == apply_entries_spec(
                es,
                old(records).deep_view(),
                sv,
                old(pool)@,
                field_count as int,
            ),
            w0 == old(warns).deep_view(),
            pool.wf(),
            ({
                let (r, p, w) = apply_entries_spec(
                    es.skip(i as int),
                    records.deep_view(),
                    sv,
                    pool@,
                    field_count as int,
                );
                &&& r == goal.0
                &&& p == goal.1
                &&& warns.deep_view() + w == w0 + goal.2
            }),
    {
        let ghost pre_warns = warns.deep_view();
        let ghost one = apply_entry_spec(
            es[i as int],
            records.deep_view(),
            sv,
            pool@,
            field_count as int,
        );
        let e = &entries[i];
        proof {
            assert(es[i as int] == e@);
        }
        apply_entry(e, records, field_count, schema, pool, warns);
        proof {
            assert(es.skip(i as int)[0] == es[i as int]);
            assert(es.skip(i as int).drop_first() =~= es.skip(i + 1));
            let (rr, pp, ww) = apply_entries_spec(
                es.skip(i + 1),
                records.deep_view(),
                sv,
                pool@,
                field_count as int,
            );
            assert((pre_warns + one.2) + ww =~= pre_warns + (one.2 + ww));
        }
    }
    proof {
        assert(es.skip(n as int).len() == 0);
        assert(warns.deep_view() + Seq::<WarnV>::empty() =~= warns.deep_view());
    }
}

/// One table-processing pass: builds the string index of the pool, applies
/// the patch operations in listed order, and appends the strings staged by
/// interning to the pool bytes.  Returns the pass's warnings.
pub fn patch_table(
    field_count: usize,
    records: &mut Vec<Vec<u32>>,
    pool_bytes: &mut Vec<u8>,
    entries: &Vec<PatchEntry>,
    schema: &Option<Schema>,
) -> (warns: Vec<Warning>)
    requires
        old(pool_bytes).len() <= u32::MAX,
    ensures
        ({
            let (r, p, w) = apply_entries_spec(
                entries.deep_view(),
                old(records).deep_view(),
                schema_view(schema),
                PoolState::of_pool(old(pool_bytes)@),
                field_count as int,
            );
            &&& final(records).deep_view() == r
            &&& final(pool_bytes)@ == old(pool_bytes)@ + staged_bytes(p.staged)
            &&& warns.deep_view() == w
        }),
{
    let mut pm = PoolManager::new(pool_bytes);
    let mut warns: Vec<Warning> = Vec::new();
    proof {
        assert(warns.deep_view() =~= Seq::<WarnV>::empty());
    }
    apply_entries(entries, records, field_count, schema, &mut pm, &mut warns);
    proof {
        let (r, p, w) = apply_entries_spec(
            entries.deep_view(),
            old(records).deep_view(),
            schema_view(schema),
            PoolState::of_pool(old(pool_bytes)@),
            field_count as int,
        );
        assert(Seq::<WarnV>::empty() + w =~= w);
    }
    pm.append_staged(pool_bytes);
    warns
}

} // verus!
