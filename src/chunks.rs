//! Index arithmetic on chunks, and the mathematical view of a chunk buffer.
use core::ops::Range;
use vstd::prelude::*;

verus! {

/// The number of complete chunks in `b`.
pub open spec fn num_chunks(b: Seq<u8>) -> int {
    (b.len() / 32) as int
}

/// The `i`th chunk of `b`.
pub open spec fn chunk_of(b: Seq<u8>, i: int) -> Seq<u8> {
    b.subrange(i * 32, i * 32 + 32)
}

/// `b` with its `i`th chunk replaced by `v`.
pub open spec fn set_chunk(b: Seq<u8>, i: int, v: Seq<u8>) -> Seq<u8> {
    b.subrange(0, i * 32) + v + b.subrange(i * 32 + 32, b.len() as int)
}

/// `k` zero chunks.
pub open spec fn zero_chunks(k: nat) -> Seq<u8> {
    Seq::new(k * 32, |j: int| 0u8)
}

/// Two chunks side by side.
pub open spec fn concat_chunks(b: Seq<u8>, i: int, j: int) -> Seq<u8> {
    chunk_of(b, i) + chunk_of(b, j)
}

/// `2` to the power `k`.
pub open spec fn pow2(k: nat) -> nat
    decreases k,
{
    if k == 0 {
        1
    } else {
        2 * pow2((k - 1) as nat)
    }
}

/// The number of halvings, rounding up, that take `n` down to one.
pub open spec fn ceil_log2(n: nat) -> nat
    decreases n,
{
    if n <= 1 {
        0
    } else {
        1 + ceil_log2(((n + 1) / 2) as nat)
    }
}

/// The least power of two that is at least `n` (one for zero).
pub open spec fn next_pow2(n: nat) -> nat {
    pow2(ceil_log2(n))
}

/// The largest leaf count that a subtree may have: with it, every byte offset of a tree stays
/// within a 32-bit `usize`.
pub const MAX_LEAVES: usize = 0x100_0000;

pub proof fn lemma_pow2_24()
    ensures
        pow2(24) == 0x100_0000,
{
    reveal_with_fuel(pow2, 25);
}

pub proof fn lemma_pow2_pos(k: nat)
    ensures
        pow2(k) >= 1,
    decreases k,
{
    if k > 0 {
        lemma_pow2_pos((k - 1) as nat);
    }
}

pub proof fn lemma_pow2_mono(a: nat, b: nat)
    requires
        a <= b,
    ensures
        pow2(a) <= pow2(b),
    decreases b,
{
    if a < b {
        lemma_pow2_mono(a, (b - 1) as nat);
        lemma_pow2_pos((b - 1) as nat);
    }
}

/// A power of two that is at least `n`, whose half is below `n`, is `next_pow2(n)`.
pub proof fn lemma_ceil_log2_unique(n: nat, k: nat)
    requires
        n >= 1,
        pow2(k) >= n,
        k == 0 || pow2((k - 1) as nat) < n,
    ensures
        k == ceil_log2(n),
    decreases k,
{
    if k > 0 {
        let m = ((n + 1) / 2) as nat;
        assert(pow2(k) == 2 * pow2((k - 1) as nat));
        if k >= 2 {
            assert(pow2((k - 1) as nat) == 2 * pow2((k - 2) as nat));
        }
        lemma_ceil_log2_unique(m, (k - 1) as nat);
    } else {
        assert(n == 1);
    }
}

pub proof fn lemma_next_pow2_ge(n: nat)
    ensures
        next_pow2(n) >= n,
        next_pow2(n) >= 1,
    decreases n,
{
    lemma_pow2_pos(ceil_log2(n));
    if n > 1 {
        lemma_next_pow2_ge(((n + 1) / 2) as nat);
    }
}

pub proof fn lemma_next_pow2_bound(n: nat)
    requires
        n <= MAX_LEAVES,
    ensures
        next_pow2(n) <= MAX_LEAVES,
        ceil_log2(n) <= 24,
{
    if ceil_log2(n) > 24 {
        lemma_pow2_mono(24, (ceil_log2(n) - 1) as nat);
        lemma_ceil_log2_unique_lower(n);
        lemma_pow2_24();
    }
    lemma_pow2_mono(ceil_log2(n), 24);
    lemma_pow2_24();
}

/// Below `next_pow2(n)` by half lies a value below `n`.
pub proof fn lemma_ceil_log2_unique_lower(n: nat)
    ensures
        ceil_log2(n) == 0 || pow2((ceil_log2(n) - 1) as nat) < n,
    decreases n,
{
    if n > 1 {
        let m = ((n + 1) / 2) as nat;
        lemma_ceil_log2_unique_lower(m);
        let k = ceil_log2(m);
        if k > 0 {
            assert(pow2(k) == 2 * pow2((k - 1) as nat));
        }
    }
}

/// The least power of two that is at least `n`, and one for zero.
pub fn next_power_of_two(n: usize) -> (r: usize)
    requires
        n <= MAX_LEAVES,
    ensures
        r as nat == next_pow2(n as nat),
        r >= n,
        r >= 1,
        r <= MAX_LEAVES,
{
    let mut p: usize = 1;
    let ghost mut k: nat = 0;
    proof {
        lemma_next_pow2_bound(n as nat);
        lemma_next_pow2_ge(n as nat);
        lemma_ceil_log2_unique_lower(n as nat);
    }
    while p < n
        invariant
            p as nat == pow2(k),
            k <= ceil_log2(n as nat),
            k == 0 || pow2((k - 1) as nat) < n,
            n <= MAX_LEAVES,
            ceil_log2(n as nat) <= 24,
        decreases 64 - k,
    {
        proof {
            if k == ceil_log2(n as nat) {
                lemma_next_pow2_ge(n as nat);
            }
            lemma_pow2_mono(k + 1, 24);
            lemma_pow2_24();
        }
        p = p * 2;
        proof {
            k = k + 1;
        }
    }
    proof {
        if n == 0 {
            assert(k == 0);
            assert(ceil_log2(0) == 0);
        } else {
            lemma_ceil_log2_unique(n as nat, k);
        }
        lemma_next_pow2_ge(n as nat);
        lemma_next_pow2_bound(n as nat);
    }
    p
}

/// The number of halvings, rounding up, that take `n` down to one: the height of a tree over `n`
/// leaves, leaves excluded.
pub fn ceil_log2_of(n: usize) -> (r: usize)
    requires
        n <= MAX_LEAVES,
    ensures
        r == ceil_log2(n as nat),
        r <= 24,
{
    proof {
        lemma_next_pow2_bound(n as nat);
    }
    let mut p: usize = 1;
    let mut k: usize = 0;
    proof {
        lemma_ceil_log2_unique_lower(n as nat);
    }
    while p < n
        invariant
            p as nat == pow2(k as nat),
            k <= ceil_log2(n as nat),
            k == 0 || pow2((k - 1) as nat) < n,
            n <= MAX_LEAVES,
            ceil_log2(n as nat) <= 24,
        decreases 64 - k,
    {
        proof {
            if k == ceil_log2(n as nat) {
                lemma_next_pow2_ge(n as nat);
            }
            lemma_pow2_mono((k + 1) as nat, 24);
            lemma_pow2_24();
        }
        p = p * 2;
        k = k + 1;
    }
    proof {
        if n >= 1 {
            lemma_ceil_log2_unique(n as nat, k as nat);
        }
    }
    k
}

/// The byte range that the chunks of `node_range` occupy.
pub fn node_range_to_byte_range(node_range: &Range<usize>) -> (r: Range<usize>)
    requires
        node_range.end * 32 <= usize::MAX,
        node_range.start <= node_range.end,
    ensures
        r.start == node_range.start * 32,
        r.end == node_range.end * 32,
{
    node_range.start * 32..node_range.end * 32
}

/// Chunk `j` of `set_chunk(b, i, v)` is `v` where `j == i`, and as in `b` elsewhere.
pub proof fn lemma_set_chunk(b: Seq<u8>, i: int, v: Seq<u8>, j: int)
    requires
        b.len() % 32 == 0,
        0 <= i < num_chunks(b),
        0 <= j < num_chunks(b),
        v.len() == 32,
    ensures
        set_chunk(b, i, v).len() == b.len(),
        chunk_of(set_chunk(b, i, v), j) == if j == i {
            v
        } else {
            chunk_of(b, j)
        },
{
    let s = set_chunk(b, i, v);
    assert(i * 32 + 32 <= b.len()) by (nonlinear_arith)
        requires
            i < b.len() / 32,
            b.len() % 32 == 0,
            0 <= i,
    ;
    assert(j * 32 + 32 <= b.len()) by (nonlinear_arith)
        requires
            j < b.len() / 32,
            b.len() % 32 == 0,
            0 <= j,
    ;
    if j < i {
        assert(j * 32 + 32 <= i * 32) by (nonlinear_arith)
            requires
                j < i,
        ;
        assert(chunk_of(s, j) =~= chunk_of(b, j));
    } else if j > i {
        assert(i * 32 + 32 <= j * 32) by (nonlinear_arith)
            requires
                j > i,
        ;
        assert(chunk_of(s, j) =~= chunk_of(b, j));
    } else {
        assert(chunk_of(s, j) =~= v);
    }
}

/// A chunk index below `num_chunks(b)` addresses bytes within `b`.
pub proof fn lemma_chunk_in_bounds(b: Seq<u8>, i: int)
    requires
        b.len() % 32 == 0,
        0 <= i < num_chunks(b),
    ensures
        i * 32 + 32 <= b.len(),
        0 <= i * 32,
{
    assert(i * 32 + 32 <= b.len()) by (nonlinear_arith)
        requires
            i < b.len() / 32,
            b.len() % 32 == 0,
            0 <= i,
    ;
}

} // verus!

verus! {

/// Two neighbouring chunks read as one range of 64 bytes.
pub proof fn lemma_concat_chunks(b: Seq<u8>, i: int)
    requires
        0 <= i,
        i * 32 + 64 <= b.len(),
    ensures
        b.subrange(i * 32, i * 32 + 64) == concat_chunks(b, i, i + 1),
{
    assert((i + 1) * 32 == i * 32 + 32) by (nonlinear_arith);
    assert(b.subrange(i * 32, i * 32 + 64) =~= concat_chunks(b, i, i + 1));
}

/// Overwrites chunk `c` of `b` with `to`.
pub fn write_chunk(b: &mut Vec<u8>, c: usize, to: &[u8])
    requires
        to@.len() == 32,
        old(b)@.len() % 32 == 0,
        c < num_chunks(old(b)@),
    ensures
        final(b)@ == set_chunk(old(b)@, c as int, to@),
        final(b)@.len() == old(b)@.len(),
{
    proof {
        lemma_chunk_in_bounds(b@, c as int);
    }
    // The buffer's length bounds the index arithmetic below.
    let _len: usize = b.len();
    let start: usize = c * 32;
    let ghost orig = b@;
    let mut k: usize = 0;
    while k < 32
        invariant
            k <= 32,
            start == c * 32,
            start + 32 <= orig.len(),
            to@.len() == 32,
            b@.len() == orig.len(),
            forall|x: int|
                0 <= x < orig.len() ==> #[trigger] b@[x] == if start <= x < start + k {
                    to@[x - start]
                } else {
                    orig[x]
                },
        decreases 32 - k,
    {
        b.set(start + k, to[k]);
        k = k + 1;
    }
    assert(b@ =~= set_chunk(orig, c as int, to@));
}

} // verus!
