//! Building whole binary Merkle trees from their leaves.
use crate::chunks::{
    chunk_of, concat_chunks, lemma_chunk_in_bounds, lemma_concat_chunks, lemma_set_chunk, next_pow2,
    next_power_of_two, num_chunks, write_chunk, zero_chunks, MAX_LEAVES,
};
use crate::hashing::{hash, sha256_of};
use vstd::prelude::*;

verus! {

/// `r` is the level-order image of a complete tree over the `n` chunks of `leaves`: its last
/// `n` chunks are the leaves, and each of the `n - 1` chunks before them is the digest of its
/// two children.
pub open spec fn is_merkle_image(r: Seq<u8>, leaves: Seq<u8>) -> bool {
    let n = num_chunks(leaves);
    &&& r.len() == if n == 0 {
        0
    } else {
        (2 * n - 1) * 32
    }
    &&& forall|j: int| 0 <= j < n ==> #[trigger] chunk_of(r, n - 1 + j) == chunk_of(leaves, j)
    &&& forall|i: int|
        0 <= i < n - 1 ==> #[trigger] chunk_of(r, i) == sha256_of(concat_chunks(r, 2 * i + 1, 2 * i + 2))
}

/// Returns the internal nodes of the tree over `leaves` (root first, in level order), followed
/// by the leaves themselves. No leaves give an empty buffer.
pub fn merkleize(leaves: Vec<u8>) -> (r: Vec<u8>)
    requires
        leaves@.len() % 32 == 0,
        leaves@.len() <= 32 * MAX_LEAVES,
    ensures
        is_merkle_image(r@, leaves@),
{
    let n: usize = leaves.len() / 32;
    if n == 0 {
        return Vec::new();
    }
    let mut r: Vec<u8> = Vec::new();
    let internal_bytes: usize = (n - 1) * 32;
    let mut k: usize = 0;
    while k < internal_bytes
        invariant
            k <= internal_bytes,
            r@.len() == k,
        decreases internal_bytes - k,
    {
        r.push(0u8);
        k = k + 1;
    }
    let mut k: usize = 0;
    while k < leaves.len()
        invariant
            k <= leaves@.len(),
            r@.len() == internal_bytes + k,
            forall|x: int| 0 <= x < k ==> #[trigger] r@[internal_bytes + x] == leaves@[x],
        decreases leaves@.len() - k,
    {
        r.push(leaves[k]);
        k = k + 1;
    }
    assert(r@.len() == (2 * n - 1) * 32);
    assert forall|j: int| 0 <= j < n implies #[trigger] chunk_of(r@, n - 1 + j) == chunk_of(
        leaves@,
        j,
    ) by {
        assert((n - 1 + j) * 32 == internal_bytes + j * 32) by (nonlinear_arith)
            requires
                internal_bytes == (n - 1) * 32,
        ;
        lemma_chunk_in_bounds(leaves@, j);
        assert forall|t: int| 0 <= t < 32 implies chunk_of(r@, n - 1 + j)[t] == chunk_of(
            leaves@,
            j,
        )[t] by {
            assert(r@[internal_bytes + (j * 32 + t)] == leaves@[j * 32 + t]);
        }
        assert(chunk_of(r@, n - 1 + j) =~= chunk_of(leaves@, j));
    }
    let mut i: usize = n - 1;
    while i > 0
        invariant
            1 <= n <= MAX_LEAVES,
            i <= n - 1,
            r@.len() == (2 * n - 1) * 32,
            forall|j: int|
                0 <= j < n ==> #[trigger] chunk_of(r@, n - 1 + j) == chunk_of(leaves@, j),
            forall|j: int|
                i <= j < n - 1 ==> #[trigger] chunk_of(r@, j) == sha256_of(
                    concat_chunks(r@, 2 * j + 1, 2 * j + 2),
                ),
        decreases i,
    {
        i = i - 1;
        let left: usize = 2 * i + 1;
        proof {
            assert(left * 32 + 64 <= r@.len()) by (nonlinear_arith)
                requires
                    left == 2 * i + 1,
                    i < n - 1,
                    r@.len() == (2 * n - 1) * 32,
            ;
            lemma_concat_chunks(r@, left as int);
        }
        let h = hash(&r.as_slice()[left * 32..left * 32 + 64]);
        let ghost prev = r@;
        write_chunk(&mut r, i, h.as_slice());
        proof {
            assert(num_chunks(prev) == 2 * n - 1) by (nonlinear_arith)
                requires
                    prev.len() == (2 * n - 1) * 32,
            ;
            assert forall|j: int| 0 <= j < n implies #[trigger] chunk_of(r@, n - 1 + j)
                == chunk_of(leaves@, j) by {
                lemma_set_chunk(prev, i as int, h@, n - 1 + j);
            }
            assert forall|j: int| i <= j < n - 1 implies #[trigger] chunk_of(r@, j) == sha256_of(
                concat_chunks(r@, 2 * j + 1, 2 * j + 2),
            ) by {
                lemma_set_chunk(prev, i as int, h@, j);
                lemma_set_chunk(prev, i as int, h@, 2 * j + 1);
                lemma_set_chunk(prev, i as int, h@, 2 * j + 2);
            }
        }
    }
    r
}

/// Appends zero chunks to `bytes` so that `num_leaves` leaves fill a power of two.
pub fn pad_for_leaf_count(num_leaves: usize, bytes: &mut Vec<u8>)
    requires
        num_leaves <= MAX_LEAVES,
        old(bytes)@.len() <= usize::MAX - 32 * MAX_LEAVES,
    ensures
        final(bytes)@ == old(bytes)@ + zero_chunks((next_pow2(num_leaves as nat) - num_leaves) as nat),
{
    let required: usize = next_power_of_two(num_leaves);
    let extra: usize = (required - num_leaves) * 32;
    let ghost orig = bytes@;
    let mut k: usize = 0;
    while k < extra
        invariant
            k <= extra,
            extra == (required - num_leaves) * 32,
            extra <= 32 * MAX_LEAVES,
            orig.len() <= usize::MAX - 32 * MAX_LEAVES,
            bytes@ =~= orig + Seq::new(k as nat, |j: int| 0u8),
        decreases extra - k,
    {
        bytes.push(0u8);
        k = k + 1;
    }
    assert(bytes@ =~= orig + zero_chunks((next_pow2(num_leaves as nat) - num_leaves) as nat));
}

} // verus!

verus! {

/// Node `j` of the tree whose internal nodes are the chunks of `internal` and whose leaves
/// follow them.
pub open spec fn tree_node(internal: Seq<u8>, leaves: Seq<u8>, j: int) -> Seq<u8> {
    let m = num_chunks(internal);
    if j < m {
        chunk_of(internal, j)
    } else {
        chunk_of(leaves, j - m)
    }
}

/// `internal` holds the internal nodes, in level order, of the binary Merkle tree over the chunks
/// of `leaves`: each is the digest of its two children.
pub open spec fn is_internal_image(internal: Seq<u8>, leaves: Seq<u8>) -> bool {
    &&& internal.len() == 32 * (num_chunks(leaves) - 1)
    &&& forall|i: int|
        0 <= i < num_chunks(internal) ==> #[trigger] chunk_of(internal, i) == sha256_of(
            tree_node(internal, leaves, 2 * i + 1) + tree_node(internal, leaves, 2 * i + 2),
        )
}

/// The internal part of a full tree image is an internal image over the same leaves.
pub proof fn lemma_internal_part(m: Seq<u8>, leaves: Seq<u8>)
    requires
        is_merkle_image(m, leaves),
        num_chunks(leaves) >= 1,
        leaves.len() % 32 == 0,
    ensures
        is_internal_image(m.subrange(0, 32 * (num_chunks(leaves) - 1)), leaves),
{
    let n = num_chunks(leaves);
    let internal = m.subrange(0, 32 * (n - 1));
    assert(num_chunks(internal) == n - 1);
    assert forall|j: int| 0 <= j < 2 * n - 1 implies tree_node(internal, leaves, j) == chunk_of(m, j) by {
        if j < n - 1 {
            assert(j * 32 + 32 <= 32 * (n - 1)) by (nonlinear_arith)
                requires
                    j < n - 1,
            ;
            assert(chunk_of(internal, j) =~= chunk_of(m, j));
        } else {
            assert(chunk_of(m, n - 1 + (j - (n - 1))) == chunk_of(leaves, j - (n - 1)));
        }
    }
    assert forall|i: int| 0 <= i < num_chunks(internal) implies #[trigger] chunk_of(internal, i)
        == sha256_of(
        tree_node(internal, leaves, 2 * i + 1) + tree_node(internal, leaves, 2 * i + 2),
    ) by {
        assert(tree_node(internal, leaves, i) == chunk_of(m, i));
        assert(tree_node(internal, leaves, 2 * i + 1) == chunk_of(m, 2 * i + 1));
        assert(tree_node(internal, leaves, 2 * i + 2) == chunk_of(m, 2 * i + 2));
    }
}

} // verus!

verus! {

/// Over given leaves there is one internal image: the tree is determined by its leaves.
pub proof fn lemma_internal_image_unique(a: Seq<u8>, b: Seq<u8>, leaves: Seq<u8>)
    requires
        is_internal_image(a, leaves),
        is_internal_image(b, leaves),
    ensures
        a == b,
{
    let m = num_chunks(a);
    lemma_same_nodes_from(a, b, leaves, 0);
    assert forall|x: int| 0 <= x < a.len() implies a[x] == b[x] by {
        let q = x / 32;
        let r = x % 32;
        assert(0 <= q < m);
        assert(q * 32 + r == x);
        assert(chunk_of(a, q)[r] == a[x]);
        assert(chunk_of(b, q)[r] == b[x]);
    }
    assert(a =~= b);
}

proof fn lemma_same_nodes_from(a: Seq<u8>, b: Seq<u8>, leaves: Seq<u8>, i: int)
    requires
        is_internal_image(a, leaves),
        is_internal_image(b, leaves),
        0 <= i,
    ensures
        forall|j: int| i <= j < num_chunks(a) ==> #[trigger] chunk_of(a, j) == chunk_of(b, j),
    decreases num_chunks(a) - i,
{
    let m = num_chunks(a);
    if i < m {
        lemma_same_nodes_from(a, b, leaves, i + 1);
        assert(tree_node(a, leaves, 2 * i + 1) == tree_node(b, leaves, 2 * i + 1));
        assert(tree_node(a, leaves, 2 * i + 2) == tree_node(b, leaves, 2 * i + 2));
        assert(chunk_of(a, i) == chunk_of(b, i));
    }
}

/// Chunk `i` of the bytes of chunks `[s, e)` of `b` is chunk `s + i` of `b`.
pub proof fn lemma_chunk_of_subrange(b: Seq<u8>, s: int, e: int, i: int)
    requires
        0 <= s <= e,
        32 * e <= b.len(),
        0 <= i < e - s,
    ensures
        chunk_of(b.subrange(32 * s, 32 * e), i) == chunk_of(b, s + i),
        num_chunks(b.subrange(32 * s, 32 * e)) == e - s,
{
    assert(chunk_of(b.subrange(32 * s, 32 * e), i) =~= chunk_of(b, s + i));
}

} // verus!
