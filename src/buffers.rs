//! Whole-buffer operations on vectors of plain values.
use vstd::prelude::*;

verus! {

/// Copies `src` onto the end of `dst`.
pub fn push_all<T: Copy>(dst: &mut Vec<T>, src: &[T])
    ensures
        final(dst)@ == old(dst)@ + src@,
{
    let ghost orig = dst@;
    let mut k: usize = 0;
    while k < src.len()
        invariant
            k <= src@.len(),
            dst@ =~= orig + src@.subrange(0, k as int),
        decreases src@.len() - k,
    {
        dst.push(src[k]);
        k = k + 1;
    }
    assert(src@.subrange(0, src@.len() as int) =~= src@);
}

/// `v` with the elements in `[s, e)` replaced by `mid`.
pub open spec fn spliced<T>(v: Seq<T>, s: int, e: int, mid: Seq<T>) -> Seq<T> {
    v.subrange(0, s) + mid + v.subrange(e, v.len() as int)
}

/// Returns `v` with the elements in `[s, e)` replaced by `mid`.
pub fn splice_vec<T: Copy>(v: &Vec<T>, s: usize, e: usize, mid: &[T]) -> (r: Vec<T>)
    requires
        s <= e <= v@.len(),
    ensures
        r@ == spliced(v@, s as int, e as int, mid@),
{
    let mut r: Vec<T> = Vec::new();
    push_all(&mut r, &v.as_slice()[0..s]);
    push_all(&mut r, mid);
    push_all(&mut r, &v.as_slice()[e..v.len()]);
    r
}

} // verus!
