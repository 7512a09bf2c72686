//! Small verified helpers on byte vectors.

use vstd::prelude::*;

verus! {

/// Copies `v[lo..hi]` out as a new vector.
pub fn copy_range(v: &Vec<u8>, lo: usize, hi: usize) -> (r: Vec<u8>)
    requires
        lo <= hi <= v@.len(),
    ensures
        r@ == v@.subrange(lo as int, hi as int),
{
    let mut out: Vec<u8> = Vec::new();
    let mut i: usize = lo;
    while i < hi
        invariant
            lo <= i <= hi <= v@.len(),
            out@ == v@.subrange(lo as int, i as int),
        decreases hi - i,
    {
        out.push(v[i]);
        proof {
            assert(out@ =~= v@.subrange(lo as int, i + 1));
        }
        i = i + 1;
    }
    out
}

/// Copies a whole byte vector.
pub fn copy_bytes(v: &Vec<u8>) -> (r: Vec<u8>)
    ensures
        r@ == v@,
{
    let r = copy_range(v, 0, v.len());
    proof {
        assert(v@.subrange(0, v@.len() as int) =~= v@);
    }
    r
}

/// Overwrites `dst[dst_at .. dst_at + n]` with `src[src_at .. src_at + n]`.
pub fn splice_bytes(dst: &mut Vec<u8>, dst_at: usize, src: &Vec<u8>, src_at: usize, n: usize)
    requires
        dst_at + n <= old(dst)@.len(),
        src_at + n <= src@.len(),
    ensures
        final(dst)@.len() == old(dst)@.len(),
        forall|i: int|
            0 <= i < old(dst)@.len() ==> final(dst)@[i] == if dst_at <= i < dst_at + n {
                src@[i - dst_at + src_at]
            } else {
                old(dst)@[i]
            },
{
    proof {
        assert(old(dst)@.len() <= usize::MAX) by {
            assert(dst.len() == dst@.len());
        }
        assert(src@.len() <= usize::MAX) by {
            assert(src.len() == src@.len());
        }
    }
    let mut k: usize = 0;
    while k < n
        invariant
            k <= n,
            dst_at + n <= old(dst)@.len() == dst@.len(),
            src_at + n <= src@.len(),
            old(dst)@.len() <= usize::MAX,
            src@.len() <= usize::MAX,
            forall|i: int|
                0 <= i < dst@.len() ==> dst@[i] == if dst_at <= i < dst_at + k {
                    src@[i - dst_at + src_at]
                } else {
                    old(dst)@[i]
                },
        decreases n - k,
    {
        dst.set(dst_at + k, src[src_at + k]);
        k = k + 1;
    }
}

} // verus!
