//! Small verified helpers that move bytes between slices and vectors.

use vstd::prelude::*;

verus! {

/// Overwrites `dst[at..at + len]` with `src[from..from + len]`.
pub fn copy_into(dst: &mut Vec<u8>, at: usize, src: &[u8], from: usize, len: usize)
    requires
        at + len <= old(dst)@.len(),
        from + len <= src@.len(),
    ensures
        final(dst)@ == old(dst)@.subrange(0, at as int) + src@.subrange(from as int, from + len)
            + old(dst)@.subrange(at + len, old(dst)@.len() as int),
{
    let dst_len = dst.len();
    let src_len = src.len();
    let mut i: usize = 0;
    while i < len
        invariant
            i <= len,
            at + len <= dst_len,
            from + len <= src_len,
            src_len == src@.len(),
            at + len <= old(dst)@.len(),
            from + len <= src@.len(),
            dst@.len() == old(dst)@.len(),
            forall|j: int| 0 <= j < at ==> dst@[j] == old(dst)@[j],
            forall|j: int| at + len <= j < dst@.len() ==> dst@[j] == old(dst)@[j],
            forall|j: int| at <= j < at + i ==> dst@[j] == src@[from + j - at],
        decreases len - i,
    {
        dst[at + i] = src[from + i];
        i = i + 1;
    }
    assert(dst@ =~= old(dst)@.subrange(0, at as int) + src@.subrange(from as int, from + len)
        + old(dst)@.subrange(at + len, old(dst)@.len() as int));
}

/// A fresh vector holding `src[from..from + len]`.
pub fn sub_vec(src: &[u8], from: usize, len: usize) -> (r: Vec<u8>)
    requires
        from + len <= src@.len(),
    ensures
        r@ == src@.subrange(from as int, from + len),
{
    let src_len = src.len();
    let mut r: Vec<u8> = Vec::with_capacity(len);
    let mut i: usize = 0;
    while i < len
        invariant
            i <= len,
            from + len <= src_len,
            src_len == src@.len(),
            r@ == src@.subrange(from as int, from + i),
        decreases len - i,
    {
        r.push(src[from + i]);
        i = i + 1;
        assert(r@ =~= src@.subrange(from as int, from + i));
    }
    r
}

/// A vector of `len` zero bytes.
pub fn zero_vec(len: usize) -> (r: Vec<u8>)
    ensures
        r@ == Seq::new(len as nat, |_i: int| 0u8),
{
    let mut r: Vec<u8> = Vec::with_capacity(len);
    let mut i: usize = 0;
    while i < len
        invariant
            i <= len,
            r@ == Seq::new(i as nat, |_i: int| 0u8),
        decreases len - i,
    {
        r.push(0u8);
        i = i + 1;
        assert(r@ =~= Seq::new(i as nat, |_i: int| 0u8));
    }
    r
}

} // verus!
