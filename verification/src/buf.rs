//! Small verified helpers on byte buffers.

use vstd::prelude::*;

verus! {

/// `s` with `sub` overlaid starting at index `at`.
pub open spec fn overlay(s: Seq<u8>, at: int, sub: Seq<u8>) -> Seq<u8> {
    Seq::new(s.len(), |i: int| if at <= i < at + sub.len() { sub[i - at] } else { s[i] })
}

/// Append `count` zero bytes to `dst`.
pub(crate) fn push_zeros(dst: &mut Vec<u8>, count: usize)
    requires
        old(dst)@.len() + count <= usize::MAX,
    ensures
        final(dst)@ == old(dst)@ + Seq::new(count as nat, |i: int| 0u8),
{
    let ghost orig = dst@;
    let mut i: usize = 0;
    while i < count
        invariant
            i <= count,
            orig.len() + count <= usize::MAX,
            dst@ == orig + Seq::new(i as nat, |j: int| 0u8),
        decreases count - i,
    {
        dst.push(0u8);
        i = i + 1;
        assert(dst@ =~= orig + Seq::new(i as nat, |j: int| 0u8));
    }
}

/// Append all of `src` to `dst`.
pub(crate) fn append_slice(dst: &mut Vec<u8>, src: &[u8])
    requires
        old(dst)@.len() + src@.len() <= usize::MAX,
    ensures
        final(dst)@ == old(dst)@ + src@,
{
    let ghost orig = dst@;
    let mut i: usize = 0;
    while i < src.len()
        invariant
            i <= src@.len(),
            orig.len() + src@.len() <= usize::MAX,
            dst@ == orig + src@.subrange(0, i as int),
        decreases src@.len() - i,
    {
        let b = src[i];
        dst.push(b);
        i = i + 1;
        assert(dst@ =~= orig + src@.subrange(0, i as int));
    }
    assert(dst@ =~= orig + src@);
}

/// Overwrite `dst[at .. at + src.len()]` with `src`.
pub(crate) fn splice(dst: &mut Vec<u8>, at: usize, src: &[u8])
    requires
        at + src@.len() <= old(dst)@.len(),
    ensures
        final(dst)@ == overlay(old(dst)@, at as int, src@),
{
    let ghost orig = dst@;
    // a vector's length is a usize, which bounds the view's length
    let _dst_len: usize = dst.len();
    assert(orig.len() <= usize::MAX);
    let mut i: usize = 0;
    while i < src.len()
        invariant
            i <= src@.len(),
            at + src@.len() <= orig.len(),
            orig.len() <= usize::MAX,
            dst@.len() == orig.len(),
            forall|k: int| 0 <= k < orig.len() && !(at <= k < at + i) ==> dst@[k] == orig[k],
            forall|k: int| at <= k < at + i ==> dst@[k] == src@[k - at],
        decreases src@.len() - i,
    {
        let b = src[i];
        dst[at + i] = b;
        i = i + 1;
    }
    assert(dst@ =~= overlay(orig, at as int, src@));
}

/// A copy of `src[start .. start + count]`.
pub(crate) fn sub_vec(src: &Vec<u8>, start: usize, count: usize) -> (r: Vec<u8>)
    requires
        start + count <= src@.len(),
    ensures
        r@ == src@.subrange(start as int, start as int + count),
{
    let mut out: Vec<u8> = Vec::new();
    // a vector's length is a usize, which bounds the view's length
    let _src_len: usize = src.len();
    assert(src@.len() <= usize::MAX);
    let mut i: usize = 0;
    while i < count
        invariant
            i <= count,
            start + count <= src@.len(),
            src@.len() <= usize::MAX,
            out@ == src@.subrange(start as int, start as int + i),
        decreases count - i,
    {
        let b = src[start + i];
        out.push(b);
        i = i + 1;
        assert(out@ =~= src@.subrange(start as int, start as int + i));
    }
    out
}

/// Whether two byte spans hold the same bytes.
pub(crate) fn bytes_eq(a: &[u8], b: &[u8]) -> (r: bool)
    ensures
        r == (a@ == b@),
{
    if a.len() != b.len() {
        return false;
    }
    let mut i: usize = 0;
    while i < a.len()
        invariant
            i <= a@.len(),
            a@.len() == b@.len(),
            forall|k: int| 0 <= k < i ==> a@[k] == b@[k],
        decreases a@.len() - i,
    {
        if a[i] != b[i] {
            return false;
        }
        i = i + 1;
    }
    assert(a@ =~= b@);
    true
}

} // verus!
