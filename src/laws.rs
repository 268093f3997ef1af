//! Laws of the cache: what its operations achieve together.
use crate::chunks::{
    chunk_of, concat_chunks, lemma_next_pow2_ge, lemma_set_chunk, next_pow2, num_chunks,
    zero_chunks,
};
use crate::hashing::sha256_of;
use crate::int_bytes::le32;
use crate::merkleize::{
    is_internal_image, is_merkle_image, lemma_chunk_of_subrange, lemma_internal_image_unique,
    lemma_internal_part, tree_node,
};
use crate::schema::BTreeOverlay;
use crate::tree_hash_cache::{
    built_from_subtrees, clean_nodes_hashed, components_valid, flat_bytes, flat_roots,
    hashed_at, internal_nodes_updated, maybe_updated, mixed, overlay_fits, rehashed_at,
    with_length_flags, with_length_nodes, TreeHashCache,
};
use vstd::prelude::*;

verus! {

/// After a walk over `o`, every internal node of `o` holds the digest of its children, provided
/// that before it every node with two clean children did.
pub proof fn lemma_walk_hashes_every_node(old: TreeHashCache, new: TreeHashCache, o: BTreeOverlay)
    requires
        o.wf(),
        overlay_fits(o, old.n()),
        internal_nodes_updated(old, new, o),
        clean_nodes_hashed(old, o),
    ensures
        forall|i: int| 0 <= i < o.spec_num_internal_nodes() ==> hashed_at(new, #[trigger] o.walk_step(i)),
{
    crate::schema::lemma_walk_order(o);
    let n = o.spec_num_internal_nodes() as int;
    assert forall|i: int| 0 <= i < n implies hashed_at(new, #[trigger] o.walk_step(i)) by {
        let s = o.walk_step(i);
        if !(new.flag(s.1.0) || new.flag(s.1.1)) {
            lemma_clean_child_unchanged(old, new, o, s.1.0);
            lemma_clean_child_unchanged(old, new, o, s.1.1);
            assert(rehashed_at(old, new, s));
            assert(concat_chunks(new.bytes@, s.1.0, s.1.1) == concat_chunks(old.bytes@, s.1.0, s.1.1));
        }
    }
}

/// After a walk over `o`, provided that before it every node with two clean children held their
/// digest, the internal chunks of `o` are the internal image of the Merkle tree over its leaf
/// chunks: the very chunks that `merkleize` computes from those leaves, since that image is
/// unique.
pub proof fn lemma_walk_yields_merkle_image(old: TreeHashCache, new: TreeHashCache, o: BTreeOverlay)
    requires
        o.wf(),
        old.inv(),
        o.offset + 2 * o.spec_num_internal_nodes() < old.n(),
        internal_nodes_updated(old, new, o),
        clean_nodes_hashed(old, o),
    ensures
        is_internal_image(
            new.bytes@.subrange(32 * o.offset, 32 * (o.offset + o.spec_num_internal_nodes())),
            new.bytes@.subrange(
                32 * (o.offset + o.spec_num_internal_nodes()),
                32 * (o.offset + 2 * o.spec_num_internal_nodes() + 1),
            ),
        ),
{
    lemma_walk_hashes_every_node(old, new, o);
    crate::schema::lemma_walk_order(o);
    let off = o.offset as int;
    let n = o.spec_num_internal_nodes() as int;
    let b = new.bytes@;
    let internal = b.subrange(32 * off, 32 * (off + n));
    let leaves = b.subrange(32 * (off + n), 32 * (off + 2 * n + 1));
    assert(b.len() == 32 * new.n());
    if n > 0 {
        lemma_chunk_of_subrange(b, off, off + n, 0);
    }
    lemma_chunk_of_subrange(b, off + n, off + 2 * n + 1, 0);
    assert(num_chunks(internal) == n);
    assert(num_chunks(leaves) == n + 1);
    assert forall|c: int| 0 <= c <= 2 * n implies tree_node(internal, leaves, c) == chunk_of(b, off + c) by {
        if c < n {
            lemma_chunk_of_subrange(b, off, off + n, c);
        } else {
            lemma_chunk_of_subrange(b, off + n, off + 2 * n + 1, c - n);
        }
    }
    assert forall|i: int| 0 <= i < num_chunks(internal) implies #[trigger] chunk_of(internal, i)
        == sha256_of(tree_node(internal, leaves, 2 * i + 1) + tree_node(internal, leaves, 2 * i + 2)) by {
        lemma_chunk_of_subrange(b, off, off + n, i);
        let j = n - 1 - i;
        assert(o.walk_step(j) == (off + i, (off + 2 * i + 1, off + 2 * i + 2)));
        assert(hashed_at(new, o.walk_step(j)));
    }
}

/// The root of a cache built from subtrees is the root that `merkleize` computes, without any
/// cache, over the subtrees' roots padded with zero leaves to a power of two.
pub proof fn lemma_built_root_is_merkle_root(
    c: TreeHashCache,
    s: Seq<TreeHashCache>,
    depth: usize,
    mixes_in_length: bool,
    m: Seq<u8>,
)
    requires
        forall|i: int| 0 <= i < s.len() ==> (#[trigger] s[i]).inv() && s[i].n() > 0,
        built_from_subtrees(c, s, depth, mixes_in_length),
        is_merkle_image(m, flat_roots(s) + zero_chunks((next_pow2(s.len() as nat) - s.len()) as nat)),
    ensures
        c.chunk(0) == chunk_of(m, 0),
{
    let k = s.len();
    let l = next_pow2(k as nat);
    lemma_next_pow2_ge(k as nat);
    let pad = zero_chunks((l - k) as nat);
    let leaves = flat_roots(s) + pad;
    lemma_flat_roots_len(s);
    assert(leaves.len() == 32 * l);
    assert(num_chunks(leaves) == l);
    let internal = c.bytes@.subrange(0, 32 * (l - 1));
    if l > 1 {
        lemma_internal_part(m, leaves);
        lemma_internal_image_unique(internal, m.subrange(0, 32 * (l - 1)), leaves);
        assert(chunk_of(internal, 0) =~= c.chunk(0));
        assert(chunk_of(m.subrange(0, 32 * (l - 1)), 0) =~= chunk_of(m, 0));
    } else {
        assert(chunk_of(m, num_chunks(leaves) - 1 + 0) == chunk_of(leaves, 0));
        assert(c.bytes@ =~= flat_bytes(s) + pad);
        if k == 1 {
            assert(s.drop_last() =~= Seq::<TreeHashCache>::empty());
            assert(flat_bytes(s.drop_last()) == Seq::<u8>::empty());
            assert(flat_roots(s.drop_last()) == Seq::<u8>::empty());
            assert(s.last() == s[0]);
            assert(flat_bytes(s) =~= s[0].bytes@);
            assert(flat_roots(s) =~= s[0].chunk(0));
            assert(s[0].bytes@.len() >= 32);
            assert(c.chunk(0) =~= s[0].chunk(0));
            assert(chunk_of(leaves, 0) =~= s[0].chunk(0));
        } else {
            assert(k == 0);
            assert(c.chunk(0) =~= chunk_of(leaves, 0));
        }
    }
}

proof fn lemma_flat_roots_len(s: Seq<TreeHashCache>)
    requires
        forall|i: int| 0 <= i < s.len() ==> (#[trigger] s[i]).inv() && s[i].n() > 0,
    ensures
        flat_roots(s).len() == 32 * s.len(),
    decreases s.len(),
{
    if s.len() > 0 {
        lemma_flat_roots_len(s.drop_last());
        assert(s.last() == s[s.len() - 1]);
        assert(s.last().bytes@.len() >= 32);
    }
}

/// A child that is clean after a walk was clean before it and kept its bytes.
proof fn lemma_clean_child_unchanged(old: TreeHashCache, new: TreeHashCache, o: BTreeOverlay, c: int)
    requires
        o.wf(),
        overlay_fits(o, old.n()),
        internal_nodes_updated(old, new, o),
        o.offset < c < old.n(),
        !new.flag(c),
    ensures
        !old.flag(c),
        new.chunk(c) == old.chunk(c),
{
    crate::schema::lemma_walk_order(o);
    if c < o.offset + o.spec_num_internal_nodes() {
        let j = o.walk_index(c);
        assert(rehashed_at(old, new, o.walk_step(j)));
    }
}

/// A walk over `o` where no chunk of `o` is dirty changes nothing there.
pub proof fn lemma_clean_walk_changes_nothing(old: TreeHashCache, new: TreeHashCache, o: BTreeOverlay)
    requires
        o.wf(),
        overlay_fits(o, old.n()),
        internal_nodes_updated(old, new, o),
        forall|c: int| o.offset <= c <= o.offset + 2 * o.spec_num_internal_nodes() ==> !old.flag(c),
    ensures
        forall|c: int|
            0 <= c < old.n() ==> !#[trigger] new.flag(c) || old.flag(c),
        forall|c: int| 0 <= c < old.n() ==> #[trigger] new.chunk(c) == old.chunk(c),
{
    crate::schema::lemma_walk_order(o);
    let n = o.spec_num_internal_nodes() as int;
    lemma_clean_prefix(old, new, o, n);
    assert forall|c: int| 0 <= c < old.n() implies !#[trigger] new.flag(c) || old.flag(c) by {
        if o.offset <= c < o.offset + n {
            assert(o.walk_step(o.walk_index(c)).0 == c);
        }
    }
    assert forall|c: int| 0 <= c < old.n() implies #[trigger] new.chunk(c) == old.chunk(c) by {
        if o.offset <= c < o.offset + n {
            let j = o.walk_index(c);
            assert(o.walk_step(j).0 == c);
            assert(rehashed_at(old, new, o.walk_step(j)));
        }
    }
}

proof fn lemma_clean_prefix(old: TreeHashCache, new: TreeHashCache, o: BTreeOverlay, k: int)
    requires
        o.wf(),
        0 <= k <= o.spec_num_internal_nodes(),
        overlay_fits(o, old.n()),
        internal_nodes_updated(old, new, o),
        forall|c: int| o.offset <= c <= o.offset + 2 * o.spec_num_internal_nodes() ==> !old.flag(c),
    ensures
        forall|j: int| 0 <= j < k ==> !new.flag(#[trigger] o.walk_step(j).0),
    decreases k,
{
    crate::schema::lemma_walk_order(o);
    if k > 0 {
        lemma_clean_prefix(old, new, o, k - 1);
        let s = o.walk_step(k - 1);
        let n = o.spec_num_internal_nodes() as int;
        assert(rehashed_at(old, new, s));
        if s.1.0 < o.offset + n {
            let j = o.walk_index(s.1.0);
            assert(o.walk_step(j).0 == s.1.0);
        }
        if s.1.1 < o.offset + n {
            let j = o.walk_index(s.1.1);
            assert(o.walk_step(j).0 == s.1.1);
        }
    }
}

/// The parts of every well-formed cache are accepted back: taking a cache apart with
/// `into_components` and rebuilding it with `from_components` gives the same chunks, flags and
/// schemas.
pub proof fn lemma_components_round_trip(c: TreeHashCache)
    requires
        c.inv(),
    ensures
        components_valid(c.bytes@, c.chunk_modified@, c.schemas@),
{
}

/// After `add_length_nodes` on the chunks `[s, e)`, the inserted root holds the digest of the
/// data root and the inserted length chunk, which holds the little-endian length, and the root
/// is dirty. Digests are taken to be 32 bytes long, as `hash` ensures of each one it returns.
pub proof fn lemma_length_mixed_root(b: Seq<u8>, f: Seq<bool>, s: int, e: int, len: nat)
    requires
        forall|x: Seq<u8>| #[trigger] sha256_of(x).len() == 32,
        b.len() == 32 * f.len(),
        0 <= s < e <= f.len(),
    ensures
        ({
            let m = mixed(with_length_nodes(b, s, e), with_length_flags(f, s, e), s + 1, e + 1, len);
            &&& m.0.len() == b.len() + 64
            &&& chunk_of(m.0, e + 1) == le32(len)
            &&& chunk_of(m.0, s) == sha256_of(chunk_of(m.0, s + 1) + chunk_of(m.0, e + 1))
            &&& m.1[s]
        }),
{
    let b0 = with_length_nodes(b, s, e);
    let f0 = with_length_flags(f, s, e);
    let n = f.len() + 2;
    assert(f0.len() == n);
    assert(b0.len() == 32 * n);
    assert(f0[s + 1]);
    crate::int_bytes::lemma_le32_len(len);
    assert(num_chunks(b0) == n) by (nonlinear_arith)
        requires
            b0.len() == 32 * n,
    ;
    let (b1, f1) = maybe_updated(b0, f0, e + 1, le32(len));
    if chunk_of(b0, e + 1) != le32(len) {
        lemma_set_chunk(b0, e + 1, le32(len), e + 1);
        lemma_set_chunk(b0, e + 1, le32(len), s + 1);
    }
    assert(b1.len() == 32 * n);
    assert(chunk_of(b1, e + 1) == le32(len));
    assert(f1[s + 1]);
    let h = sha256_of(concat_chunks(b1, s + 1, e + 1));
    assert(num_chunks(b1) == n) by (nonlinear_arith)
        requires
            b1.len() == 32 * n,
    ;
    lemma_set_chunk(b1, s, h, s);
    lemma_set_chunk(b1, s, h, s + 1);
    lemma_set_chunk(b1, s, h, e + 1);
}

} // verus!

verus! {

/// A cache whose internal nodes of `o` all hold the digests of their children meets the premise
/// of the walk laws, whatever its dirty flags: in particular after `reset_modifications`, which
/// keeps the bytes.
pub proof fn lemma_hashed_nodes_meet_walk_premise(c: TreeHashCache, o: BTreeOverlay)
    requires
        forall|i: int| 0 <= i < o.spec_num_internal_nodes() ==> hashed_at(c, #[trigger] o.walk_step(i)),
    ensures
        clean_nodes_hashed(c, o),
{
}

/// Writing a leaf with `maybe_update_chunk` keeps the premise of the walk laws: a leaf that
/// changes is marked dirty, and one that does not leaves the cache as it was.
pub proof fn lemma_leaf_write_keeps_walk_premise(
    c: TreeHashCache,
    d: TreeHashCache,
    o: BTreeOverlay,
    chunk: int,
    to: Seq<u8>,
)
    requires
        c.inv(),
        o.wf(),
        clean_nodes_hashed(c, o),
        0 <= chunk < c.n(),
        to.len() == 32,
        o.offset + 2 * o.spec_num_internal_nodes() < c.n(),
        !(o.offset <= chunk < o.offset + o.spec_num_internal_nodes()),
        (d.bytes@, d.chunk_modified@) == maybe_updated(c.bytes@, c.chunk_modified@, chunk, to),
    ensures
        clean_nodes_hashed(d, o),
{
    crate::schema::lemma_walk_order(o);
    let n = o.spec_num_internal_nodes() as int;
    assert(num_chunks(c.bytes@) == c.n());
    if chunk_of(c.bytes@, chunk) != to {
        assert forall|i: int| 0 <= i < n implies {
            let s = #[trigger] o.walk_step(i);
            !d.flag(s.1.0) && !d.flag(s.1.1) ==> hashed_at(d, s)
        } by {
            let s = o.walk_step(i);
            if !d.flag(s.1.0) && !d.flag(s.1.1) {
                assert(s.1.0 != chunk && s.1.1 != chunk);
                lemma_set_chunk(c.bytes@, chunk, to, s.0);
                lemma_set_chunk(c.bytes@, chunk, to, s.1.0);
                lemma_set_chunk(c.bytes@, chunk, to, s.1.1);
                assert(hashed_at(c, s));
            }
        }
    }
}

} // verus!
