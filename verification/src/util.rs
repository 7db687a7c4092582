//! Small verified helpers on byte vectors.

use vstd::prelude::*;

verus! {

/// Copies `bytes[from..to]` into a fresh vector.
pub fn bytes_range(bytes: &Vec<u8>, from: usize, to: usize) -> (r: Vec<u8>)
    requires
        from <= to <= bytes.len(),
    ensures
        r@ == bytes@.subrange(from as int, to as int),
{
    let mut r: Vec<u8> = Vec::new();
    for t in from..to
        invariant
            from <= t <= to <= bytes.len(),
            r@.len() == t - from,
            forall|p: int| 0 <= p < r@.len() ==> r@[p] == bytes@[from + p],
    {
        r.push(bytes[t]);
    }
    proof {
        assert(r@ =~= bytes@.subrange(from as int, to as int));
    }
    r
}

/// Byte-for-byte equality of two vectors.
pub fn bytes_eq(a: &Vec<u8>, b: &Vec<u8>) -> (r: bool)
    ensures
        r == (a@ == b@),
{
    if a.len() != b.len() {
        return false;
    }
    for i in 0..a.len()
        invariant
            a@.len() == b@.len(),
            forall|p: int| 0 <= p < i ==> a@[p] == b@[p],
    {
        if a[i] != b[i] {
            return false;
        }
    }
    proof {
        assert(a@ =~= b@);
    }
    true
}

/// Copies a byte vector.
pub fn clone_bytes(a: &Vec<u8>) -> (r: Vec<u8>)
    ensures
        r@ == a@,
{
    let mut r: Vec<u8> = Vec::new();
    for i in 0..a.len()
        invariant
            r@.len() == i,
            forall|p: int| 0 <= p < i ==> r@[p] == a@[p],
    {
        r.push(a[i]);
    }
    proof {
        assert(r@ =~= a@);
    }
    r
}

} // verus!
