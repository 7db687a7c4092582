//! String pool management: an index from string content to pool offset,
//! built by scanning an existing pool, and staging of newly interned
//! strings that are appended to the pool once a processing pass is done.

use crate::util::{bytes_eq, bytes_range, clone_bytes};
use vstd::prelude::*;

verus! {

/// First-match lookup in an association list keyed by byte strings.
pub open spec fn assoc_lookup<V>(entries: Seq<(Seq<u8>, V)>, key: Seq<u8>) -> Option<V>
    decreases entries.len(),
{
    if entries.len() == 0 {
        None
    } else if entries[0].0 == key {
        Some(entries[0].1)
    } else {
        assoc_lookup(entries.drop_first(), key)
    }
}

/// Appending an entry under a fresh key makes it the one that lookup finds.
pub proof fn lemma_assoc_push_same<V>(entries: Seq<(Seq<u8>, V)>, key: Seq<u8>, v: V)
    requires
        assoc_lookup(entries, key) is None,
    ensures
        assoc_lookup(entries.push((key, v)), key) == Some(v),
    decreases entries.len(),
{
    if entries.len() == 0 {
        assert(entries.push((key, v))[0] == (key, v));
    } else {
        assert(entries.push((key, v)).drop_first() =~= entries.drop_first().push((key, v)));
        lemma_assoc_push_same(entries.drop_first(), key, v);
    }
}

/// Index from string content to its first-seen byte offset in the pool.
pub struct StringIndex {
    pub entries: Vec<(Vec<u8>, u32)>,
}

impl View for StringIndex {
    type V = Seq<(Seq<u8>, u32)>;

    open spec fn view(&self) -> Seq<(Seq<u8>, u32)> {
        self.entries.deep_view()
    }
}

impl StringIndex {
    /// The offset recorded first for `key`, if any.
    pub fn get(&self, key: &Vec<u8>) -> (r: Option<u32>)
        ensures
            r == assoc_lookup(self@, key@),
    {
        let n = self.entries.len();
        proof {
            assert(self@.skip(0) =~= self@);
        }
        for i in 0..n
            invariant
                n == self.entries.len(),
                assoc_lookup(self@, key@) == assoc_lookup(self@.skip(i as int), key@),
        {
            proof {
                assert(self@.skip(i as int)[0] == self@[i as int]);
                assert(self@.skip(i as int).drop_first() =~= self@.skip(i + 1));
                assert(self@[i as int] == (self.entries@[i as int].0@, self.entries@[i as int].1));
            }
            let e = &self.entries[i];
            if bytes_eq(&e.0, key) {
                return Some(e.1);
            }
        }
        proof {
            assert(self@.skip(n as int).len() == 0);
        }
        None
    }
}

/// Length of the run of non-null bytes starting at `from`.
pub open spec fn run_len(block: Seq<u8>, from: int) -> nat
    decreases block.len() - from,
{
    if from < 0 || from >= block.len() {
        0
    } else if block[from] == 0 {
        0
    } else {
        1 + run_len(block, from + 1)
    }
}

/// The index that scanning a pool from offset `from` adds to `acc`: each
/// null-terminated segment becomes one entry at the offset it starts at,
/// except segments whose content was already indexed (first occurrence
/// wins).  Bytes after the last null terminator are ignored.
pub open spec fn scan_index(block: Seq<u8>, from: int, acc: Seq<(Seq<u8>, u32)>) -> Seq<
    (Seq<u8>, u32),
>
    decreases block.len() - from,
{
    if from < 0 || from >= block.len() {
        acc
    } else {
        let end = from + run_len(block, from);
        if end >= block.len() {
            acc
        } else {
            let content = block.subrange(from, end);
            let acc2 = if assoc_lookup(acc, content) is Some {
                acc
            } else {
                acc.push((content, from as u32))
            };
            scan_index(block, end + 1, acc2)
        }
    }
}

/// The full index of a pool: its scan, with the empty string at offset 0
/// added when no scanned segment already supplied the empty content.
pub open spec fn pool_index(block: Seq<u8>) -> Seq<(Seq<u8>, u32)> {
    let m = scan_index(block, 0, Seq::empty());
    if assoc_lookup(m, Seq::<u8>::empty()) is Some {
        m
    } else {
        m.push((Seq::empty(), 0u32))
    }
}

/// Builds the content-to-offset index of an existing string pool.
///
/// Scans left to right splitting on null bytes; the first occurrence of a
/// content wins on duplicates, and the empty string is always present,
/// mapped to offset 0 unless a scanned segment already supplied it.
pub fn build_string_map(block: &Vec<u8>) -> (r: StringIndex)
    requires
        block.len() <= u32::MAX,
    ensures
        r@ == pool_index(block@),
{
    let mut entries: Vec<(Vec<u8>, u32)> = Vec::new();
    proof {
        assert(entries.deep_view() =~= Seq::<(Seq<u8>, u32)>::empty());
    }
    let mut start: usize = 0;
    while start < block.len()
        invariant
            block.len() <= u32::MAX,
            start <= block.len(),
            scan_index(block@, 0, Seq::empty()) == scan_index(
                block@,
                start as int,
                entries.deep_view(),
            ),
        decreases block.len() - start,
    {
        let mut end = start;
        while end < block.len() && block[end] != 0
            invariant
                start <= end <= block.len(),
                forall|t: int| start <= t < end ==> block@[t] != 0,
            decreases block.len() - end,
        {
            end = end + 1;
        }
        proof {
            lemma_run_len(block@, start as int, end as int);
        }
        if end >= block.len() {
            start = block.len();
        } else {
            let content = bytes_range(block, start, end);
            let idx = StringIndex { entries };
            let existing = idx.get(&content);
            entries = idx.entries;
            let ghost pre = entries.deep_view();
            if existing.is_none() {
                entries.push((content, start as u32));
                proof {
                    assert(entries.deep_view() =~~= pre.push((content@, start as u32)));
                }
            }
            start = end + 1;
        }
    }
    let empty: Vec<u8> = Vec::new();
    let idx = StringIndex { entries };
    let existing = idx.get(&empty);
    let mut entries = idx.entries;
    let ghost pre = entries.deep_view();
    if existing.is_none() {
        proof {
            assert(empty@ =~= Seq::<u8>::empty());
        }
        entries.push((empty, 0));
        proof {
            assert(entries.deep_view() =~~= pre.push((Seq::<u8>::empty(), 0u32)));
        }
    }
    StringIndex { entries }
}

/// Total byte length of staged strings, each with its null terminator.
pub open spec fn staged_size(staged: Seq<Seq<u8>>) -> int
    decreases staged.len(),
{
    if staged.len() == 0 {
        0
    } else {
        staged_size(staged.drop_last()) + staged.last().len() + 1
    }
}

/// The bytes that appending the staged strings adds to the pool: each
/// string's content followed by a single null terminator, in staging order.
pub open spec fn staged_bytes(staged: Seq<Seq<u8>>) -> Seq<u8>
    decreases staged.len(),
{
    if staged.len() == 0 {
        Seq::empty()
    } else {
        staged_bytes(staged.drop_last()) + staged.last() + seq![0u8]
    }
}

/// The interning state of one table-processing pass.
pub ghost struct PoolState {
    /// Length of the original pool.
    pub base: int,
    /// Content-to-offset index over the original pool and staged strings.
    pub index: Seq<(Seq<u8>, u32)>,
    /// Newly interned strings, in staging order.
    pub staged: Seq<Seq<u8>>,
}

impl PoolState {
    /// The pool a pass starts from: the index of the original pool bytes
    /// and nothing staged.
    pub open spec fn of_pool(block: Seq<u8>) -> PoolState {
        PoolState { base: block.len() as int, index: pool_index(block), staged: Seq::empty() }
    }

    /// Offsets stay within the 32-bit words that records store.
    pub open spec fn wf(self) -> bool {
        &&& 0 <= self.base
        &&& self.base + staged_size(self.staged) <= u32::MAX
    }
}

/// What one interning step returns and leaves behind.  Content already
/// indexed (from the original pool or staged earlier in the pass) reuses
/// its existing offset and changes nothing.  New content is staged for
/// append: its offset is the original pool length plus the bytes staged
/// before it, and the index learns it so later requests reuse it.  Content
/// that would push the pool past the largest 32-bit offset is refused and
/// changes nothing.
pub open spec fn intern_spec(p: PoolState, content: Seq<u8>) -> (Option<u32>, PoolState) {
    match assoc_lookup(p.index, content) {
        Some(off) => (Some(off), p),
        None => {
            if p.base + staged_size(p.staged) + content.len() + 1 <= u32::MAX {
                let off = (p.base + staged_size(p.staged)) as u32;
                (
                    Some(off),
                    PoolState {
                        base: p.base,
                        index: p.index.push((content, off)),
                        staged: p.staged.push(content),
                    },
                )
            } else {
                (None, p)
            }
        },
    }
}

/// Intern idempotence: a second interning of the same content within one
/// pass returns the same outcome as the first and changes nothing more; in
/// particular the content is staged for append at most once.
pub proof fn lemma_intern_idempotent(p: PoolState, content: Seq<u8>)
    ensures
        ({
            let (r1, p1) = intern_spec(p, content);
            intern_spec(p1, content) == (r1, p1)
        }),
{
    let (r1, p1) = intern_spec(p, content);
    if assoc_lookup(p.index, content) is None {
        if p.base + staged_size(p.staged) + content.len() + 1 <= u32::MAX {
            let off = (p.base + staged_size(p.staged)) as u32;
            lemma_assoc_push_same(p.index, content, off);
        }
    }
}

/// String pool manager for one pass: the index of the original pool plus
/// the strings staged for append.
pub struct PoolManager {
    /// Length of the original pool.
    pub base: usize,
    /// Content-to-offset index over the pool and the staged strings.
    pub index: StringIndex,
    /// Newly interned strings, in staging order.
    pub staged: Vec<Vec<u8>>,
    /// Total byte length of the staged strings with their terminators.
    pub staged_len: usize,
}

impl View for PoolManager {
    type V = PoolState;

    open spec fn view(&self) -> PoolState {
        PoolState { base: self.base as int, index: self.index@, staged: self.staged.deep_view() }
    }
}

impl PoolManager {
    /// The cached staged length is honest and offsets fit in 32 bits.
    pub open spec fn wf(&self) -> bool {
        &&& self.staged_len == staged_size(self@.staged)
        &&& self@.wf()
    }

    /// Starts a pass over a table whose pool is `block`: builds the index
    /// and stages nothing.
    pub fn new(block: &Vec<u8>) -> (r: PoolManager)
        requires
            block.len() <= u32::MAX,
        ensures
            r.wf(),
            r@ == PoolState::of_pool(block@),
    {
        let index = build_string_map(block);
        let r = PoolManager { base: block.len(), index, staged: Vec::new(), staged_len: 0 };
        proof {
            assert(r.staged.deep_view() =~= Seq::<Seq<u8>>::empty());
        }
        r
    }

    /// Interns `content`: returns its offset in the final pool, staging it
    /// for append when it is new, exactly as `intern_spec` says.  Refuses
    /// (returns `None` and changes nothing) only when the content is new
    /// and would push the pool past the largest 32-bit offset.
    pub fn intern(&mut self, content: Vec<u8>) -> (r: Option<u32>)
        requires
            old(self).wf(),
        ensures
            final(self).wf(),
            (r, final(self)@) == intern_spec(old(self)@, content@),
    {
        let found = self.index.get(&content);
        match found {
            Some(off) => Some(off),
            None => {
                if (content.len() as u64) > 0xffff_ffffu64 || (self.base as u64) + (
                self.staged_len as u64) + (content.len() as u64) + 1 > 0xffff_ffffu64 {
                    return None;
                }
                let off = (self.base + self.staged_len) as u32;
                let copy = clone_bytes(&content);
                let ghost cv = content@;
                let ghost pre_index = self.index@;
                let ghost pre_staged = self.staged.deep_view();
                self.index.entries.push((copy, off));
                let new_len = self.staged_len + content.len() + 1;
                self.staged.push(content);
                self.staged_len = new_len;
                proof {
                    assert(self.index@ =~~= pre_index.push((cv, off)));
                    assert(self.staged.deep_view() =~~= pre_staged.push(cv));
                    assert(pre_staged.push(cv).drop_last() =~= pre_staged);
                    assert(staged_size(pre_staged.push(cv)) == staged_size(pre_staged) + cv.len()
                        + 1);
                }
                Some(off)
            },
        }
    }

    /// Appends the staged strings to the pool bytes, each followed by its
    /// null terminator, in staging order.
    pub fn append_staged(&self, pool: &mut Vec<u8>)
        ensures
            final(pool)@ == old(pool)@ + staged_bytes(self@.staged),
    {
        let ghost orig = old(pool)@;
        let n = self.staged.len();
        proof {
            assert(self@.staged.take(0) =~= Seq::<Seq<u8>>::empty());
            assert(orig + staged_bytes(self@.staged.take(0)) =~= orig);
        }
        for i in 0..n
            invariant
                n == self.staged.len(),
                pool@ == orig + staged_bytes(self@.staged.take(i as int)),
        {
            let s = &self.staged[i];
            let ghost seg_start = pool@;
            for j in 0..s.len()
                invariant
                    pool@ == seg_start + s@.subrange(0, j as int),
            {
                pool.push(s[j]);
                proof {
                    assert(pool@ =~= seg_start + s@.subrange(0, j + 1));
                }
            }
            pool.push(0);
            proof {
                assert(self@.staged.take(i + 1).drop_last() =~= self@.staged.take(i as int));
                assert(self@.staged.take(i + 1).last() == self@.staged[i as int]);
                assert(s@.subrange(0, s@.len() as int) =~= s@);
                assert(self@.staged[i as int] == s@);
                assert(pool@ =~= orig + staged_bytes(self@.staged.take(i + 1)));
            }
        }
        proof {
            assert(self@.staged.take(n as int) =~= self@.staged);
        }
    }
}

/// A run of non-null bytes from `from` to `end` (exclusive), stopped by a
/// null byte or the end of the pool, has length `end - from`.
proof fn lemma_run_len(block: Seq<u8>, from: int, end: int)
    requires
        0 <= from <= end <= block.len(),
        forall|t: int| from <= t < end ==> block[t] != 0,
        end == block.len() || block[end] == 0,
    ensures
        run_len(block, from) == end - from,
    decreases end - from,
{
    if from == end {
    } else {
        lemma_run_len(block, from + 1, end);
    }
}

} // verus!
