//! Small verified helpers shared across the crate.

use vstd::prelude::*;

verus! {

/// Byte-wise equality of two slices.
pub fn bytes_eq(a: &[u8], b: &[u8]) -> (r: bool)
    ensures
        r <==> a@ == b@,
{
    if a.len() != b.len() {
        assert(a@.len() != b@.len());
        return false;
    }
    let n = a.len();
    let mut i: usize = 0;
    while i < n
        invariant
            n == a@.len() == b@.len(),
            i <= n,
            forall|j: int| 0 <= j < i ==> a@[j] == b@[j],
        decreases n - i,
    {
        if a[i] != b[i] {
            return false;
        }
        i += 1;
    }
    assert(a@ =~= b@);
    true
}

/// Equality of two 32 byte digests.
pub fn eq32(a: &[u8; 32], b: &[u8; 32]) -> (r: bool)
    ensures
        r <==> a@ == b@,
{
    bytes_eq(a.as_slice(), b.as_slice())
}

/// Equality of two 64 byte secret keys.
pub fn eq64(a: &[u8; 64], b: &[u8; 64]) -> (r: bool)
    ensures
        r <==> a@ == b@,
{
    bytes_eq(a.as_slice(), b.as_slice())
}

/// Copies a 32 byte slice into an array; refuses other lengths.
pub fn to_array32(s: &[u8]) -> (r: Option<[u8; 32]>)
    ensures
        r matches Some(a) ==> a@ == s@,
        r is Some <==> s@.len() == 32,
{
    broadcast use vstd::array::group_array_axioms;

    if s.len() != 32 {
        return None;
    }
    let mut a = [0u8; 32];
    let mut i: usize = 0;
    while i < 32
        invariant
            s@.len() == 32,
            i <= 32,
            forall|j: int| 0 <= j < i ==> a@[j] == s@[j],
        decreases 32 - i,
    {
        a[i] = s[i];
        i += 1;
    }
    assert(a@ =~= s@);
    Some(a)
}

/// Copies a 64 byte slice into an array; refuses other lengths.
pub fn to_array64(s: &[u8]) -> (r: Option<[u8; 64]>)
    ensures
        r matches Some(a) ==> a@ == s@,
        r is Some <==> s@.len() == 64,
{
    broadcast use vstd::array::group_array_axioms;

    if s.len() != 64 {
        return None;
    }
    let mut a = [0u8; 64];
    let mut i: usize = 0;
    while i < 64
        invariant
            s@.len() == 64,
            i <= 64,
            forall|j: int| 0 <= j < i ==> a@[j] == s@[j],
        decreases 64 - i,
    {
        a[i] = s[i];
        i += 1;
    }
    assert(a@ =~= s@);
    Some(a)
}

/// Copies a slice into a fresh vector.
pub fn copy_bytes(a: &[u8]) -> (r: Vec<u8>)
    ensures
        r@ == a@,
{
    let mut out: Vec<u8> = Vec::new();
    let n = a.len();
    let mut i: usize = 0;
    while i < n
        invariant
            n == a@.len(),
            i <= n,
            out@ == a@.subrange(0, i as int),
        decreases n - i,
    {
        out.push(a[i]);
        i += 1;
    }
    assert(out@ =~= a@);
    out
}

} // verus!
