//! The shape of a subtree (`BTreeSchema`) and that shape placed at a chunk offset
//! (`BTreeOverlay`).
use crate::chunks::{
    ceil_log2, ceil_log2_of, next_pow2, next_power_of_two, MAX_LEAVES,
};
use core::ops::Range;
use vstd::prelude::*;

verus! {

/// How a value takes part in tree hashing.
#[derive(Debug, Clone, Copy, PartialEq, Eq, Structural)]
pub enum TreeHashType {
    Basic,
    Vector,
    List,
    Container,
}

/// The shape of one subtree of the cache: its depth in the object, how many logical leaves it
/// has and whether its root is mixed with its length.
#[derive(Debug, Clone, Copy, PartialEq, Eq, Structural)]
pub struct BTreeSchema {
    pub depth: usize,
    pub num_leaves: usize,
    pub mixes_in_length: bool,
}

/// A `BTreeSchema` placed at chunk `offset` of a cache.
#[derive(Debug, Clone, Copy, PartialEq, Eq, Structural)]
pub struct BTreeOverlay {
    pub offset: usize,
    pub depth: usize,
    pub num_leaves: usize,
    pub mixes_in_length: bool,
}

/// The largest chunk offset at which an overlay may be placed: past it, the chunk indices of a
/// largest subtree would not fit in a 32-bit `usize`.
pub const MAX_OFFSET: usize = 0x8000_0000;

impl BTreeSchema {
    pub open spec fn wf(&self) -> bool {
        self.num_leaves <= MAX_LEAVES
    }

    /// This schema placed at chunk `chunk_index`.
    pub open spec fn into_overlay_spec(self, chunk_index: usize) -> BTreeOverlay {
        BTreeOverlay {
            offset: chunk_index,
            depth: self.depth,
            num_leaves: self.num_leaves,
            mixes_in_length: self.mixes_in_length,
        }
    }

    /// Places this schema at chunk `chunk_index`.
    pub fn into_overlay(self, chunk_index: usize) -> (r: BTreeOverlay)
        ensures
            r == self.into_overlay_spec(chunk_index),
            r.offset == chunk_index,
            r.depth == self.depth,
            r.num_leaves == self.num_leaves,
            r.mixes_in_length == self.mixes_in_length,
    {
        BTreeOverlay {
            offset: chunk_index,
            depth: self.depth,
            num_leaves: self.num_leaves,
            mixes_in_length: self.mixes_in_length,
        }
    }
}

impl BTreeOverlay {
    pub open spec fn wf(&self) -> bool {
        &&& self.num_leaves <= MAX_LEAVES
        &&& self.offset <= MAX_OFFSET
    }

    /// The schema that this overlay places.
    pub open spec fn schema(&self) -> BTreeSchema {
        BTreeSchema {
            depth: self.depth,
            num_leaves: self.num_leaves,
            mixes_in_length: self.mixes_in_length,
        }
    }

    pub open spec fn spec_num_leaf_nodes(&self) -> nat {
        next_pow2(self.num_leaves as nat)
    }

    pub open spec fn spec_num_internal_nodes(&self) -> nat {
        (next_pow2(self.num_leaves as nat) - 1) as nat
    }

    /// The number of levels of the tree, leaves included.
    pub open spec fn spec_height(&self) -> nat {
        ceil_log2(self.num_leaves as nat) + 1
    }

    /// The parent that the `i`th step of a bottom-up walk visits, as a chunk index.
    pub open spec fn walk_parent(&self, i: int) -> int {
        self.offset + (self.spec_num_internal_nodes() - 1 - i)
    }

    /// The step of a bottom-up walk that visits chunk `c`.
    pub open spec fn walk_index(&self, c: int) -> int {
        self.offset + self.spec_num_internal_nodes() - 1 - c
    }

    /// The `i`th step of a bottom-up walk: a parent and its two children, as chunk indices.
    pub open spec fn walk_step(&self, i: int) -> (int, (int, int)) {
        let p = self.spec_num_internal_nodes() - 1 - i;
        (self.offset + p, (self.offset + 2 * p + 1, self.offset + 2 * p + 2))
    }

    /// Returns the schema that this overlay places.
    pub fn into_schema(self) -> (r: BTreeSchema)
        ensures
            r == self.schema(),
    {
        BTreeSchema {
            depth: self.depth,
            num_leaves: self.num_leaves,
            mixes_in_length: self.mixes_in_length,
        }
    }

    /// The number of leaf chunks, padding included: a power of two.
    pub fn num_leaf_nodes(&self) -> (r: usize)
        requires
            self.wf(),
        ensures
            r == self.spec_num_leaf_nodes(),
            1 <= r <= MAX_LEAVES,
    {
        next_power_of_two(self.num_leaves)
    }

    /// The number of internal chunks.
    pub fn num_internal_nodes(&self) -> (r: usize)
        requires
            self.wf(),
        ensures
            r == self.spec_num_internal_nodes(),
            r < MAX_LEAVES,
    {
        next_power_of_two(self.num_leaves) - 1
    }

    /// The number of levels of the tree, leaves included.
    pub fn height(&self) -> (r: usize)
        requires
            self.wf(),
        ensures
            r == self.spec_height(),
            1 <= r <= 25,
    {
        ceil_log2_of(self.num_leaves) + 1
    }

    /// The chunk of the subtree's root.
    pub fn root(&self) -> (r: usize)
        ensures
            r == self.offset,
    {
        self.offset
    }

    /// The chunks of the internal nodes.
    pub fn internal_chunk_range(&self) -> (r: Range<usize>)
        requires
            self.wf(),
        ensures
            r.start == self.offset,
            r.end == self.offset + self.spec_num_internal_nodes(),
    {
        self.offset..self.offset + self.num_internal_nodes()
    }

    /// The chunks of the leaves, padding included.
    pub fn leaf_chunk_range(&self) -> (r: Range<usize>)
        requires
            self.wf(),
        ensures
            r.start == self.offset + self.spec_num_internal_nodes(),
            r.end == self.offset + self.spec_num_internal_nodes() + self.spec_num_leaf_nodes(),
    {
        let start = self.offset + self.num_internal_nodes();
        start..start + self.num_leaf_nodes()
    }

    /// The chunk that follows the last chunk of this subtree.
    pub fn next_node(&self) -> (r: usize)
        requires
            self.wf(),
        ensures
            r == self.offset + self.spec_num_internal_nodes() + self.spec_num_leaf_nodes(),
    {
        self.offset + self.num_internal_nodes() + self.num_leaf_nodes()
    }

    /// Every internal chunk with its two children, deepest parents first.
    pub fn internal_parents_and_children(&self) -> (r: Vec<(usize, (usize, usize))>)
        requires
            self.wf(),
        ensures
            r@.len() == self.spec_num_internal_nodes(),
            forall|i: int|
                0 <= i < r@.len() ==> {
                    let s = #[trigger] r@[i];
                    (s.0 as int, (s.1.0 as int, s.1.1 as int)) == self.walk_step(i)
                },
    {
        let n = self.num_internal_nodes();
        let mut r: Vec<(usize, (usize, usize))> = Vec::new();
        let mut p: usize = n;
        while p > 0
            invariant
                p <= n,
                n == self.spec_num_internal_nodes(),
                n < MAX_LEAVES,
                self.wf(),
                r@.len() == n - p,
                forall|i: int|
                    0 <= i < r@.len() ==> {
                        let s = #[trigger] r@[i];
                        (s.0 as int, (s.1.0 as int, s.1.1 as int)) == self.walk_step(i)
                    },
            decreases p,
        {
            p = p - 1;
            let o = self.offset;
            r.push((o + p, (o + 2 * p + 1, o + 2 * p + 2)));
        }
        r
    }
}

/// A bottom-up walk over an overlay visits each internal chunk exactly once, and reaches a
/// parent only after both of its children wherever they are internal chunks themselves.
pub proof fn lemma_walk_order(o: BTreeOverlay)
    ensures
        forall|c: int|
            o.offset <= c < o.offset + o.spec_num_internal_nodes() ==> {
                &&& 0 <= #[trigger] o.walk_index(c) < o.spec_num_internal_nodes()
                &&& o.walk_step(o.walk_index(c)).0 == c
            },
        forall|i: int|
            0 <= i < o.spec_num_internal_nodes() ==> o.offset <= #[trigger] o.walk_step(i).0
                < o.offset + o.spec_num_internal_nodes(),
        forall|i: int, j: int|
            0 <= i < o.spec_num_internal_nodes() && 0 <= j < o.spec_num_internal_nodes()
                && #[trigger] o.walk_step(i).0 == #[trigger] o.walk_step(j).0 ==> i == j,
        forall|i: int, j: int|
            0 <= i < o.spec_num_internal_nodes() && 0 <= j < o.spec_num_internal_nodes() && (
            #[trigger] o.walk_step(j).0 == #[trigger] o.walk_step(i).1.0 || o.walk_step(j).0
                == o.walk_step(i).1.1) ==> j < i,
{
}

} // verus!
