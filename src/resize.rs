//! Growing and shrinking the internal nodes of a tree while keeping the subtrees that both trees
//! share.
//!
//! The internal nodes of a tree are stored level by level, root first: a tree of `h` internal
//! levels has `2^h - 1` of them, and node `t` of level `j` sits at `2^j - 1 + t`. The leaves
//! stay where they are, so when a tree gains `d` levels its old tree becomes the leftmost
//! subtree of the new one: node `t` of old level `j` covers the same leaves as node `t` of new
//! level `j + d`. Shrinking by `d` levels keeps that leftmost subtree the other way round.
use crate::buffers::push_all;
use crate::chunks::{
    chunk_of, lemma_pow2_24, lemma_pow2_mono, lemma_pow2_pos, pow2, zero_chunks, MAX_LEAVES,
};
use vstd::prelude::*;

verus! {

/// The most internal levels that a tree of this library has.
pub const MAX_INTERNAL_LEVELS: usize = 24;

/// The number of nodes in a complete tree of `h` levels.
pub open spec fn spec_nodes_in_tree_of_height(h: nat) -> nat {
    (pow2(h) - 1) as nat
}

/// Returns the number of nodes in a complete tree of `h` levels.
pub fn nodes_in_tree_of_height(h: usize) -> (r: usize)
    requires
        h <= MAX_INTERNAL_LEVELS,
    ensures
        r == spec_nodes_in_tree_of_height(h as nat),
        r < MAX_LEAVES,
{
    let mut p: usize = 1;
    let mut k: usize = 0;
    while k < h
        invariant
            k <= h <= MAX_INTERNAL_LEVELS,
            p == pow2(k as nat),
        decreases h - k,
    {
        proof {
            lemma_pow2_mono((k + 1) as nat, 24);
            lemma_pow2_24();
        }
        p = p * 2;
        k = k + 1;
    }
    proof {
        lemma_pow2_mono(h as nat, 24);
        lemma_pow2_24();
        lemma_pow2_pos(h as nat);
    }
    p - 1
}

/// The inputs that describe the internal nodes of a tree of `h` levels.
pub open spec fn is_tree_of_height(nodes: Seq<u8>, flags: Seq<bool>, h: nat) -> bool {
    &&& h <= MAX_INTERNAL_LEVELS
    &&& flags.len() == spec_nodes_in_tree_of_height(h)
    &&& nodes.len() == 32 * spec_nodes_in_tree_of_height(h)
}

/// The index of node `t` of level `j`.
pub open spec fn node_index(j: int, t: int) -> int {
    pow2(j as nat) - 1 + t
}

/// The level of a tree of `from` levels whose nodes cover the same leaves as the nodes of level
/// `j` of a tree of `to` levels, where it is not negative.
pub open spec fn source_level(from: nat, to: nat, j: int) -> int {
    j + from - to
}

/// Node `t` of level `j` of the tree of `to` levels (`r`, `rf`) is the node of the tree of `from`
/// levels (`nodes`, `flags`) that covers the same leaves, bytes and flag, where there is one;
/// otherwise it is zero and dirty.
pub open spec fn relevelled_node(
    r: Seq<u8>,
    rf: Seq<bool>,
    nodes: Seq<u8>,
    flags: Seq<bool>,
    from: nat,
    to: nat,
    j: int,
    t: int,
) -> bool {
    let i = node_index(j, t);
    let sl = source_level(from, to, j);
    if 0 <= sl && t < pow2(sl as nat) {
        chunk_of(r, i) == chunk_of(nodes, node_index(sl, t)) && rf[i] == flags[node_index(sl, t)]
    } else {
        chunk_of(r, i) == zero_chunks(1) && rf[i]
    }
}

/// `r` and `rf` are the internal nodes and flags of a tree of `to` levels over the same leaves
/// as the tree of `from` levels given by `nodes` and `flags`.
pub open spec fn is_relevelled(r: Seq<u8>, rf: Seq<bool>, nodes: Seq<u8>, flags: Seq<bool>, from: nat, to: nat) -> bool {
    &&& r.len() == 32 * spec_nodes_in_tree_of_height(to)
    &&& rf.len() == spec_nodes_in_tree_of_height(to)
    &&& forall|j: int, t: int|
        0 <= j < to && 0 <= t < pow2(j as nat) ==> #[trigger] relevelled_node(
            r,
            rf,
            nodes,
            flags,
            from,
            to,
            j,
            t,
        )
}

/// A node of a level below `h` has an index below `2^h - 1`.
pub proof fn lemma_node_index_bound(j: int, t: int, h: int)
    requires
        0 <= j < h,
        0 <= t < pow2(j as nat),
    ensures
        node_index(j, t) < pow2(h as nat) - 1,
        node_index(j, t) + 1 <= node_index(j + 1, 0),
{
    assert(pow2((j + 1) as nat) == 2 * pow2(j as nat));
    lemma_pow2_mono((j + 1) as nat, h as nat);
}

/// Pushing onto `r` and `rf` keeps the nodes already in them.
proof fn lemma_push_keeps_node(
    r: Seq<u8>,
    rf: Seq<bool>,
    x: Seq<u8>,
    y: Seq<bool>,
    nodes: Seq<u8>,
    flags: Seq<bool>,
    from: nat,
    to: nat,
    j: int,
    t: int,
)
    requires
        relevelled_node(r, rf, nodes, flags, from, to, j, t),
        0 <= node_index(j, t) < rf.len(),
        r.len() == 32 * rf.len(),
    ensures
        relevelled_node(r + x, rf + y, nodes, flags, from, to, j, t),
{
    let i = node_index(j, t);
    assert(chunk_of(r + x, i) =~= chunk_of(r, i));
    assert((rf + y)[i] == rf[i]);
}

/// Builds the internal nodes of a tree of `to_height` levels over the leaves of the tree of
/// `from_height` levels given: each node that covers the same leaves as an old node takes its
/// bytes and flag, and every other node is zero and dirty.
fn relevel(nodes: &[u8], flags: &[bool], from_height: usize, to_height: usize) -> (r: (Vec<u8>, Vec<bool>))
    requires
        is_tree_of_height(nodes@, flags@, from_height as nat),
        to_height <= MAX_INTERNAL_LEVELS,
    ensures
        is_relevelled(r.0@, r.1@, nodes@, flags@, from_height as nat, to_height as nat),
{
    let ghost from = from_height as nat;
    let ghost to = to_height as nat;
    let zero: Vec<u8> = vec![0u8; 32];
    assert(zero@ =~= zero_chunks(1));
    let mut b: Vec<u8> = Vec::new();
    let mut f: Vec<bool> = Vec::new();
    let mut j: usize = 0;
    proof {
        lemma_pow2_pos(0);
    }
    while j < to_height
        invariant
            from == from_height as nat,
            to == to_height as nat,
            j <= to_height <= MAX_INTERNAL_LEVELS,
            is_tree_of_height(nodes@, flags@, from),
            zero@ == zero_chunks(1),
            f@.len() == pow2(j as nat) - 1,
            b@.len() == 32 * f@.len(),
            forall|jj: int, t: int|
                0 <= jj < j && 0 <= t < pow2(jj as nat) ==> #[trigger] relevelled_node(
                    b@,
                    f@,
                    nodes@,
                    flags@,
                    from,
                    to,
                    jj,
                    t,
                ),
        decreases to_height - j,
    {
        proof {
            lemma_pow2_pos(j as nat);
            lemma_pow2_mono(j as nat, 24);
            lemma_pow2_24();
        }
        let p: usize = nodes_in_tree_of_height(j) + 1;
        proof {
            assert(from_height <= MAX_INTERNAL_LEVELS);
        }
        let has_source = j + from_height >= to_height;
        let sp: usize = if has_source {
            proof {
                lemma_pow2_pos((j + from_height - to_height) as nat);
            }
            nodes_in_tree_of_height(j + from_height - to_height) + 1
        } else {
            0
        };
        let mut t: usize = 0;
        while t < p
            invariant
                from == from_height as nat,
                to == to_height as nat,
                from_height <= MAX_INTERNAL_LEVELS,
                j < to_height <= MAX_INTERNAL_LEVELS,
                p == pow2(j as nat),
                has_source == (source_level(from, to, j as int) >= 0),
                has_source ==> sp == pow2(source_level(from, to, j as int) as nat),
                t <= p,
                is_tree_of_height(nodes@, flags@, from),
                zero@ == zero_chunks(1),
                f@.len() == pow2(j as nat) - 1 + t,
                b@.len() == 32 * f@.len(),
                forall|jj: int, tt: int|
                    0 <= jj < j && 0 <= tt < pow2(jj as nat) ==> #[trigger] relevelled_node(
                        b@,
                        f@,
                        nodes@,
                        flags@,
                        from,
                        to,
                        jj,
                        tt,
                    ),
                forall|tt: int|
                    0 <= tt < t ==> #[trigger] relevelled_node(
                        b@,
                        f@,
                        nodes@,
                        flags@,
                        from,
                        to,
                        j as int,
                        tt,
                    ),
            decreases p - t,
        {
            let ghost b0 = b@;
            let ghost f0 = f@;
            if has_source && t < sp {
                proof {
                    let sl = source_level(from, to, j as int);
                    lemma_pow2_pos(sl as nat);
                    lemma_node_index_bound(sl, t as int, from as int);
                    lemma_pow2_pos(from);
                }
                // The buffer's length bounds the index arithmetic below.
                let _len: usize = nodes.len();
                let k: usize = sp - 1 + t;
                let src = &nodes[32 * k..32 * k + 32];
                push_all(&mut b, src);
                f.push(flags[k]);
                proof {
                    assert(b@.subrange(b0.len() as int, b@.len() as int) =~= src@);
                    assert(src@ =~= chunk_of(nodes@, k as int));
                    assert(k as int == node_index(source_level(from, to, j as int), t as int));
                }
            } else {
                push_all(&mut b, zero.as_slice());
                f.push(true);
                proof {
                    assert(b@.subrange(b0.len() as int, b@.len() as int) =~= zero@);
                }
            }
            proof {
                let i = node_index(j as int, t as int);
                assert(i == f0.len());
                assert(chunk_of(b@, i) =~= b@.subrange(32 * i, 32 * i + 32));
                assert(b@.subrange(32 * i, 32 * i + 32) =~= b@.subrange(b0.len() as int, b@.len() as int));
                assert forall|jj: int, tt: int|
                    0 <= jj < j && 0 <= tt < pow2(jj as nat) implies #[trigger] relevelled_node(
                    b@,
                    f@,
                    nodes@,
                    flags@,
                    from,
                    to,
                    jj,
                    tt,
                ) by {
                    lemma_node_index_bound(jj, tt, j as int);
                    lemma_push_keeps_node(b0, f0, b@.subrange(b0.len() as int, b@.len() as int), f@.subrange(f0.len() as int, f@.len() as int), nodes@, flags@, from, to, jj, tt);
                    assert(b0 + b@.subrange(b0.len() as int, b@.len() as int) =~= b@);
                    assert(f0 + f@.subrange(f0.len() as int, f@.len() as int) =~= f@);
                }
                assert forall|tt: int| 0 <= tt < t + 1 implies #[trigger] relevelled_node(
                    b@,
                    f@,
                    nodes@,
                    flags@,
                    from,
                    to,
                    j as int,
                    tt,
                ) by {
                    if tt < t {
                        lemma_push_keeps_node(b0, f0, b@.subrange(b0.len() as int, b@.len() as int), f@.subrange(f0.len() as int, f@.len() as int), nodes@, flags@, from, to, j as int, tt);
                        assert(b0 + b@.subrange(b0.len() as int, b@.len() as int) =~= b@);
                        assert(f0 + f@.subrange(f0.len() as int, f@.len() as int) =~= f@);
                    }
                }
            }
            t = t + 1;
        }
        proof {
            assert(pow2((j + 1) as nat) == 2 * pow2(j as nat));
        }
        j = j + 1;
    }
    (b, f)
}

/// Returns the internal nodes and flags of a tree of `to_height` levels whose leftmost subtree is
/// the tree of `from_height` levels given: its nodes keep their bytes and flags, and the nodes
/// added are zero and dirty. `None` where the inputs are not a tree of `from_height` levels or
/// the new tree is not at least as tall.
pub fn grow_merkle_tree(
    from_nodes: &[u8],
    from_flags: &[bool],
    from_height: usize,
    to_height: usize,
) -> (r: Option<(Vec<u8>, Vec<bool>)>)
    ensures
        r is Some <==> is_tree_of_height(from_nodes@, from_flags@, from_height as nat) && from_height
            <= to_height <= MAX_INTERNAL_LEVELS,
        r matches Some(v) ==> is_relevelled(
            v.0@,
            v.1@,
            from_nodes@,
            from_flags@,
            from_height as nat,
            to_height as nat,
        ),
{
    if to_height > MAX_INTERNAL_LEVELS || from_height > to_height {
        return None;
    }
    let from_n = nodes_in_tree_of_height(from_height);
    if from_flags.len() != from_n || from_nodes.len() != 32 * from_n {
        return None;
    }
    Some(relevel(from_nodes, from_flags, from_height, to_height))
}

/// Returns the internal nodes and flags of a tree of `to_height` levels that is the leftmost
/// subtree of the tree of `from_height` levels given, with their bytes and flags. `None` where
/// the inputs are not a tree of `from_height` levels or the new tree is taller.
pub fn shrink_merkle_tree(
    from_nodes: &[u8],
    from_flags: &[bool],
    from_height: usize,
    to_height: usize,
) -> (r: Option<(Vec<u8>, Vec<bool>)>)
    ensures
        r is Some <==> is_tree_of_height(from_nodes@, from_flags@, from_height as nat) && to_height
            <= from_height,
        r matches Some(v) ==> is_relevelled(
            v.0@,
            v.1@,
            from_nodes@,
            from_flags@,
            from_height as nat,
            to_height as nat,
        ),
{
    if from_height > MAX_INTERNAL_LEVELS || to_height > from_height {
        return None;
    }
    let from_n = nodes_in_tree_of_height(from_height);
    if from_flags.len() != from_n || from_nodes.len() != 32 * from_n {
        return None;
    }
    Some(relevel(from_nodes, from_flags, from_height, to_height))
}

} // verus!
