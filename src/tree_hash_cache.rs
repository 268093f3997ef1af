//! The cache: a flat buffer of chunks with a dirty flag for each.
use crate::buffers::{push_all, splice_vec, spliced};
use crate::chunks::{
    ceil_log2, chunk_of, concat_chunks, lemma_chunk_in_bounds, lemma_concat_chunks,
    lemma_next_pow2_bound, lemma_next_pow2_ge, lemma_pow2_mono, lemma_set_chunk, next_pow2,
    node_range_to_byte_range, num_chunks, set_chunk, write_chunk, zero_chunks, MAX_LEAVES,
};
use crate::hashing::{hash, sha256_of};
use crate::int_bytes::{int_to_bytes32, le32};
use crate::merkleize::{is_internal_image, lemma_internal_part, merkleize, pad_for_leaf_count};
use crate::resize::{grow_merkle_tree, is_relevelled, shrink_merkle_tree};
use crate::schema::{BTreeOverlay, BTreeSchema, TreeHashType, MAX_OFFSET};
use crate::Error;
use core::ops::Range;
use vstd::prelude::*;

verus! {

/// `f` after a write of `to` into chunk `c` of `b` that happens only where the chunk differs.
pub open spec fn maybe_updated(b: Seq<u8>, f: Seq<bool>, c: int, to: Seq<u8>) -> (Seq<u8>, Seq<bool>) {
    if chunk_of(b, c) == to {
        (b, f)
    } else {
        (set_chunk(b, c, to), f.update(c, true))
    }
}

/// The chunk buffer of a Merkle tree, a dirty flag for each chunk, the shapes of the
/// variable-length subtrees it holds, and the cursors of an update in progress.
#[derive(Debug, Clone, PartialEq, Eq)]
pub struct TreeHashCache {
    /// The tree, in 32-byte chunks.
    pub bytes: Vec<u8>,
    /// For each chunk of `bytes`, whether it is dirty.
    pub chunk_modified: Vec<bool>,
    /// A schema for each variable-length subtree, in pre-order.
    pub schemas: Vec<BTreeSchema>,
    /// The chunk that an update has reached.
    pub chunk_index: usize,
    /// The schema that an update has reached.
    pub schema_index: usize,
}

impl Default for TreeHashCache {
    /// An empty cache, which holds no tree.
    fn default() -> (r: TreeHashCache)
        ensures
            r.bytes@.len() == 0,
            r.chunk_modified@.len() == 0,
            r.schemas@.len() == 0,
            r.chunk_index == 0,
            r.schema_index == 0,
    {
        TreeHashCache {
            bytes: Vec::new(),
            chunk_modified: Vec::new(),
            schemas: Vec::new(),
            chunk_index: 0,
            schema_index: 0,
        }
    }
}

impl TreeHashCache {
    /// One dirty flag per chunk, and well-formed schemas.
    pub open spec fn inv(&self) -> bool {
        &&& self.bytes@.len() == 32 * self.chunk_modified@.len()
        &&& forall|i: int| 0 <= i < self.schemas@.len() ==> (#[trigger] self.schemas@[i]).wf()
    }

    /// The number of chunks.
    pub open spec fn n(&self) -> int {
        self.chunk_modified@.len() as int
    }

    /// Chunk `i`.
    pub open spec fn chunk(&self, i: int) -> Seq<u8> {
        chunk_of(self.bytes@, i)
    }

    /// Whether chunk `i` is dirty.
    pub open spec fn flag(&self, i: int) -> bool {
        self.chunk_modified@[i]
    }

    /// Instantiates a cache from the chunks in `bytes`, with each dirty flag set to
    /// `initial_modified_state` and `schema` as its only schema, if any.
    pub fn from_bytes(bytes: Vec<u8>, initial_modified_state: bool, schema: Option<BTreeSchema>) -> (r:
        Result<Self, Error>)
        requires
            schema matches Some(s) ==> s.wf(),
        ensures
            bytes@.len() % 32 != 0 <==> r == Err::<Self, Error>(
                Error::BytesAreNotEvenChunks(bytes@.len() as usize),
            ),
            r is Ok <==> bytes@.len() % 32 == 0,
            r matches Ok(c) ==> {
                &&& c.inv()
                &&& c.bytes@ == bytes@
                &&& c.chunk_modified@ == Seq::new(bytes@.len() / 32, |i: int| initial_modified_state)
                &&& c.schemas@ == match schema {
                    Some(s) => seq![s],
                    None => Seq::<BTreeSchema>::empty(),
                }
                &&& c.chunk_index == 0
                &&& c.schema_index == 0
            },
    {
        if bytes.len() % 32 > 0 {
            return Err(Error::BytesAreNotEvenChunks(bytes.len()));
        }
        let mut schemas: Vec<BTreeSchema> = Vec::new();
        match schema {
            Some(s) => schemas.push(s),
            None => {},
        }
        let n: usize = bytes.len() / 32;
        let mut chunk_modified: Vec<bool> = Vec::new();
        let mut k: usize = 0;
        while k < n
            invariant
                k <= n,
                chunk_modified@ =~= Seq::new(k as nat, |i: int| initial_modified_state),
            decreases n - k,
        {
            chunk_modified.push(initial_modified_state);
            k = k + 1;
        }
        assert(schemas@ =~= match schema {
            Some(s) => seq![s],
            None => Seq::<BTreeSchema>::empty(),
        });
        Ok(TreeHashCache { bytes, chunk_modified, schemas, chunk_index: 0, schema_index: 0 })
    }

    /// Returns `true` if this cache holds no chunk: it was never built.
    pub fn is_empty(&self) -> (r: bool)
        ensures
            r == (self.chunk_modified@.len() == 0),
    {
        self.chunk_modified.len() == 0
    }

    /// Returns the schema at `schema_index` placed at chunk `chunk_index`.
    pub fn get_overlay(&self, schema_index: usize, chunk_index: usize) -> (r: Result<BTreeOverlay, Error>)
        ensures
            schema_index >= self.schemas@.len() <==> r == Err::<BTreeOverlay, Error>(
                Error::NoSchemaForIndex(schema_index),
            ),
            r is Ok <==> schema_index < self.schemas@.len(),
            r matches Ok(o) ==> o.schema() == self.schemas@[schema_index as int] && o.offset
                == chunk_index,
    {
        if schema_index >= self.schemas.len() {
            return Err(Error::NoSchemaForIndex(schema_index));
        }
        Ok(self.schemas[schema_index].into_overlay(chunk_index))
    }

    /// Clears every dirty flag and both cursors; the chunks are kept.
    pub fn reset_modifications(&mut self)
        ensures
            final(self).chunk_modified@ == Seq::new(old(self).chunk_modified@.len(), |i: int| false),
            old(self).inv() ==> final(self).inv(),
            final(self).bytes@ == old(self).bytes@,
            final(self).schemas@ == old(self).schemas@,
            final(self).chunk_index == 0,
            final(self).schema_index == 0,
    {
        self.chunk_index = 0;
        self.schema_index = 0;
        let n = self.chunk_modified.len();
        let mut k: usize = 0;
        while k < n
            invariant
                k <= n == self.chunk_modified@.len(),
                n == old(self).chunk_modified@.len(),
                self.bytes@ == old(self).bytes@,
                self.schemas@ == old(self).schemas@,
                self.chunk_index == 0,
                self.schema_index == 0,
                forall|i: int| 0 <= i < k ==> !#[trigger] self.chunk_modified@[i],
            decreases n - k,
        {
            self.chunk_modified.set(k, false);
            k = k + 1;
        }
        assert(self.chunk_modified@ =~= Seq::new(old(self).chunk_modified@.len(), |i: int| false));
    }

    /// Removes the schemas of the subtrees nested below the one at `schema_index`: those that
    /// follow from `schema_index` on and are deeper than `depth`.
    pub fn remove_proceeding_child_schemas(&mut self, schema_index: usize, depth: usize)
        requires
            schema_index <= old(self).schemas@.len(),
            old(self).inv(),
        ensures
            final(self).schemas@ == spliced(
                old(self).schemas@,
                schema_index as int,
                child_run_end(old(self).schemas@, schema_index as int, depth),
                Seq::empty(),
            ),
            final(self).bytes@ == old(self).bytes@,
            final(self).chunk_modified@ == old(self).chunk_modified@,
            final(self).chunk_index == old(self).chunk_index,
            final(self).schema_index == old(self).schema_index,
            final(self).inv(),
    {
        let mut end: usize = schema_index;
        while end < self.schemas.len() && self.schemas[end].depth > depth
            invariant
                schema_index <= end <= self.schemas@.len(),
                child_run_end(self.schemas@, end as int, depth) == child_run_end(
                    self.schemas@,
                    schema_index as int,
                    depth,
                ),
            decreases self.schemas@.len() - end,
        {
            end = end + 1;
        }
        let empty: Vec<BTreeSchema> = Vec::new();
        let kept = splice_vec(&self.schemas, schema_index, end, empty.as_slice());
        self.schemas = kept;
        assert forall|i: int| 0 <= i < self.schemas@.len() implies (#[trigger] self.schemas@[i]).wf() by {
            if i < schema_index {
                assert(self.schemas@[i] == old(self).schemas@[i]);
            } else {
                assert(self.schemas@[i] == old(self).schemas@[i + end - schema_index]);
            }
        }
    }

    /// Returns the dirty flag of `chunk`.
    pub fn changed(&self, chunk: usize) -> (r: Result<bool, Error>)
        ensures
            chunk >= self.chunk_modified@.len() <==> r == Err::<bool, Error>(
                Error::NoModifiedFieldForChunk(chunk),
            ),
            chunk < self.chunk_modified@.len() ==> r == Ok::<bool, Error>(self.flag(chunk as int)),
    {
        if chunk >= self.chunk_modified.len() {
            return Err(Error::NoModifiedFieldForChunk(chunk));
        }
        Ok(self.chunk_modified[chunk])
    }

    /// Returns `true` if either of the `children` chunks is dirty.
    fn either_modified(&self, children: (usize, usize)) -> (r: Result<bool, Error>)
        ensures
            children.0 >= self.n() ==> r == Err::<bool, Error>(
                Error::NoModifiedFieldForChunk(children.0),
            ),
            children.0 < self.n() && children.1 >= self.n() ==> r == Err::<bool, Error>(
                Error::NoModifiedFieldForChunk(children.1),
            ),
            children.0 < self.n() && children.1 < self.n() ==> r == Ok::<bool, Error>(
                self.flag(children.0 as int) || self.flag(children.1 as int),
            ),
    {
        let a = match self.changed(children.0) {
            Ok(v) => v,
            Err(e) => return Err(e),
        };
        let b = match self.changed(children.1) {
            Ok(v) => v,
            Err(e) => return Err(e),
        };
        Ok(a || b)
    }

    /// Returns the bytes of `chunk`.
    fn get_chunk(&self, chunk: usize) -> (r: Result<&[u8], Error>)
        requires
            self.inv(),
        ensures
            chunk >= self.n() <==> r == Err::<&[u8], Error>(Error::NoModifiedFieldForChunk(chunk)),
            r is Ok <==> chunk < self.n(),
            r matches Ok(s) ==> s@ == self.chunk(chunk as int) && s@.len() == 32,
    {
        if chunk >= self.chunk_modified.len() {
            return Err(Error::NoModifiedFieldForChunk(chunk));
        }
        proof {
            assert(num_chunks(self.bytes@) == self.n()) by (nonlinear_arith)
                requires
                    self.bytes@.len() == 32 * self.n(),
            ;
            lemma_chunk_in_bounds(self.bytes@, chunk as int);
        }
        // The buffer's length bounds the index arithmetic below.
        let _len: usize = self.bytes.len();
        let start: usize = chunk * 32;
        Ok(&self.bytes.as_slice()[start..start + 32])
    }

    /// Returns `true` if the bytes of `chunk` equal `other`.
    fn chunk_equals(&self, chunk: usize, other: &[u8]) -> (r: Result<bool, Error>)
        requires
            self.inv(),
        ensures
            chunk >= self.n() <==> r == Err::<bool, Error>(Error::NoModifiedFieldForChunk(chunk)),
            chunk < self.n() ==> r == Ok::<bool, Error>(self.chunk(chunk as int) == other@),
    {
        let current = match self.get_chunk(chunk) {
            Ok(v) => v,
            Err(e) => return Err(e),
        };
        if current.len() != other.len() {
            return Ok(false);
        }
        let mut k: usize = 0;
        while k < current.len()
            invariant
                k <= current@.len() == other@.len(),
                chunk < self.n(),
                current@ == self.chunk(chunk as int),
                forall|j: int| 0 <= j < k ==> current@[j] == other@[j],
            decreases current@.len() - k,
        {
            if current[k] != other[k] {
                assert(current@[k as int] != other@[k as int]);
                return Ok(false);
            }
            k = k + 1;
        }
        assert(current@ =~= other@);
        Ok(true)
    }

    /// Returns the bytes and the flags of the chunks in `chunk_range`, where they exist.
    fn slices(&self, chunk_range: Range<usize>) -> (r: Option<(&[u8], &[bool])>)
        requires
            self.inv(),
        ensures
            r is Some <==> chunk_range.start <= chunk_range.end <= self.n(),
            r matches Some(v) ==> {
                &&& v.0@ == self.bytes@.subrange(32 * chunk_range.start, 32 * chunk_range.end)
                &&& v.1@ == self.chunk_modified@.subrange(
                    chunk_range.start as int,
                    chunk_range.end as int,
                )
            },
    {
        if chunk_range.start > chunk_range.end || chunk_range.end > self.chunk_modified.len() {
            return None;
        }
        // The buffer's length bounds the index arithmetic below.
        let _len: usize = self.bytes.len();
        Some((
            &self.bytes.as_slice()[32 * chunk_range.start..32 * chunk_range.end],
            &self.chunk_modified.as_slice()[chunk_range.start..chunk_range.end],
        ))
    }

    /// Writes `to` into `chunk` and marks it dirty.
    fn write_and_mark(&mut self, chunk: usize, to: &[u8])
        requires
            old(self).inv(),
            chunk < old(self).n(),
            to@.len() == 32,
        ensures
            final(self).inv(),
            final(self).bytes@ == set_chunk(old(self).bytes@, chunk as int, to@),
            final(self).chunk_modified@ == old(self).chunk_modified@.update(chunk as int, true),
            final(self).schemas@ == old(self).schemas@,
            final(self).chunk_index == old(self).chunk_index,
            final(self).schema_index == old(self).schema_index,
    {
        proof {
            assert(num_chunks(self.bytes@) == self.n()) by (nonlinear_arith)
                requires
                    self.bytes@.len() == 32 * self.n(),
            ;
            assert(self.bytes@.len() % 32 == 0) by (nonlinear_arith)
                requires
                    self.bytes@.len() == 32 * self.n(),
            ;
        }
        write_chunk(&mut self.bytes, chunk, to);
        self.chunk_modified.set(chunk, true);
    }

    /// Writes `to` into `chunk` and marks it dirty, where its bytes differ from `to`.
    pub fn maybe_update_chunk(&mut self, chunk: usize, to: &[u8]) -> (r: Result<(), Error>)
        requires
            old(self).inv(),
            to@.len() == 32,
        ensures
            final(self).inv(),
            chunk >= old(self).n() <==> r == Err::<(), Error>(Error::NoModifiedFieldForChunk(chunk)),
            r is Ok <==> chunk < old(self).n(),
            r is Err ==> *final(self) == *old(self),
            r is Ok ==> (final(self).bytes@, final(self).chunk_modified@) == maybe_updated(
                old(self).bytes@,
                old(self).chunk_modified@,
                chunk as int,
                to@,
            ),
            final(self).schemas@ == old(self).schemas@,
            final(self).chunk_index == old(self).chunk_index,
            final(self).schema_index == old(self).schema_index,
    {
        let same = match self.chunk_equals(chunk, to) {
            Ok(v) => v,
            Err(e) => return Err(e),
        };
        if !same {
            self.write_and_mark(chunk, to);
        }
        Ok(())
    }

    /// Writes `to` into `chunk` and marks it dirty.
    pub fn modify_chunk(&mut self, chunk: usize, to: &[u8]) -> (r: Result<(), Error>)
        requires
            old(self).inv(),
            to@.len() == 32,
        ensures
            final(self).inv(),
            chunk >= old(self).n() <==> r == Err::<(), Error>(Error::NoBytesForChunk(chunk)),
            r is Ok <==> chunk < old(self).n(),
            r is Err ==> *final(self) == *old(self),
            r is Ok ==> final(self).bytes@ == set_chunk(old(self).bytes@, chunk as int, to@)
                && final(self).chunk_modified@ == old(self).chunk_modified@.update(chunk as int, true),
            final(self).schemas@ == old(self).schemas@,
            final(self).chunk_index == old(self).chunk_index,
            final(self).schema_index == old(self).schema_index,
    {
        if chunk >= self.chunk_modified.len() {
            return Err(Error::NoBytesForChunk(chunk));
        }
        self.write_and_mark(chunk, to);
        Ok(())
    }

    /// Returns the digest of the two `children` chunks side by side.
    pub fn hash_children(&self, children: (usize, usize)) -> (r: Result<Vec<u8>, Error>)
        requires
            self.inv(),
        ensures
            children.0 >= self.n() ==> r == Err::<Vec<u8>, Error>(
                Error::NoModifiedFieldForChunk(children.0),
            ),
            children.0 < self.n() && children.1 >= self.n() ==> r == Err::<Vec<u8>, Error>(
                Error::NoModifiedFieldForChunk(children.1),
            ),
            r is Ok <==> children.0 < self.n() && children.1 < self.n(),
            r matches Ok(h) ==> h@ == sha256_of(
                concat_chunks(self.bytes@, children.0 as int, children.1 as int),
            ) && h@.len() == 32,
    {
        let mut child_bytes: Vec<u8> = Vec::new();
        let left = match self.get_chunk(children.0) {
            Ok(v) => v,
            Err(e) => return Err(e),
        };
        let right = match self.get_chunk(children.1) {
            Ok(v) => v,
            Err(e) => return Err(e),
        };
        push_all(&mut child_bytes, left);
        push_all(&mut child_bytes, right);
        Ok(hash(child_bytes.as_slice()))
    }

    /// Returns the root: the first chunk.
    pub fn tree_hash_root(&self) -> (r: Result<&[u8], Error>)
        requires
            self.inv(),
        ensures
            self.n() == 0 <==> r == Err::<&[u8], Error>(Error::CacheNotInitialized),
            r is Ok <==> self.n() > 0,
            r matches Ok(s) ==> s@ == self.chunk(0),
    {
        if self.is_empty() {
            return Err(Error::CacheNotInitialized);
        }
        if self.bytes.len() < 32 {
            return Err(Error::NoBytesForRoot);
        }
        Ok(&self.bytes.as_slice()[0..32])
    }

    /// Replaces the chunks in `chunk_range` by those of `bytes`, and their flags by `bools`.
    pub fn splice(&mut self, chunk_range: Range<usize>, bytes: Vec<u8>, bools: Vec<bool>)
        requires
            old(self).inv(),
            chunk_range.start <= chunk_range.end <= old(self).n(),
            bytes@.len() == 32 * bools@.len(),
        ensures
            final(self).inv(),
            final(self).chunk_modified@ == spliced(
                old(self).chunk_modified@,
                chunk_range.start as int,
                chunk_range.end as int,
                bools@,
            ),
            final(self).bytes@ == spliced(
                old(self).bytes@,
                32 * chunk_range.start,
                32 * chunk_range.end,
                bytes@,
            ),
            final(self).schemas@ == old(self).schemas@,
            final(self).chunk_index == old(self).chunk_index,
            final(self).schema_index == old(self).schema_index,
    {
        let flags = splice_vec(&self.chunk_modified, chunk_range.start, chunk_range.end, bools.as_slice());
        // The buffer's length bounds the index arithmetic below.
        let _len: usize = self.bytes.len();
        let byte_range = node_range_to_byte_range(&chunk_range);
        let b = splice_vec(&self.bytes, byte_range.start, byte_range.end, bytes.as_slice());
        self.chunk_modified = flags;
        self.bytes = b;
    }

    /// Walks the internal nodes of `overlay` bottom-up, hashing again each parent that has a
    /// dirty child and marking it dirty in turn.
    pub fn update_internal_nodes(&mut self, overlay: &BTreeOverlay) -> (r: Result<(), Error>)
        requires
            old(self).inv(),
            overlay.wf(),
        ensures
            r is Ok <==> overlay_fits(*overlay, old(self).n()),
            r is Err ==> *final(self) == *old(self),
            r is Err ==> r == Err::<(), Error>(Error::NoModifiedFieldForChunk(
                if overlay.offset + 2 * overlay.spec_num_internal_nodes() - 1 >= old(self).n() {
                    (overlay.offset + 2 * overlay.spec_num_internal_nodes() - 1) as usize
                } else {
                    (overlay.offset + 2 * overlay.spec_num_internal_nodes()) as usize
                },
            )),
            r is Ok ==> internal_nodes_updated(*old(self), *final(self), *overlay),
    {
        let n = overlay.num_internal_nodes();
        let num = self.chunk_modified.len();
        let off = overlay.offset;
        if n > 0 && off + 2 * n >= num {
            if off + 2 * n - 1 >= num {
                return Err(Error::NoModifiedFieldForChunk(off + 2 * n - 1));
            }
            return Err(Error::NoModifiedFieldForChunk(off + 2 * n));
        }
        let walk = overlay.internal_parents_and_children();
        proof {
            assert(num_chunks(self.bytes@) == self.n()) by (nonlinear_arith)
                requires
                    self.bytes@.len() == 32 * self.n(),
            ;
            assert(self.bytes@.len() % 32 == 0) by (nonlinear_arith)
                requires
                    self.bytes@.len() == 32 * self.n(),
            ;
        }
        let mut i: usize = 0;
        while i < walk.len()
            invariant
                0 <= i <= walk@.len() == n,
                n == overlay.spec_num_internal_nodes(),
                n == 0 || off + 2 * n < num,
                off == overlay.offset,
                overlay.wf(),
                num == old(self).n(),
                self.inv(),
                self.n() == num,
                self.bytes@.len() % 32 == 0,
                num_chunks(self.bytes@) == num,
                self.schemas@ == old(self).schemas@,
                self.chunk_index == old(self).chunk_index,
                self.schema_index == old(self).schema_index,
                forall|j: int|
                    0 <= j < walk@.len() ==> {
                        let s = #[trigger] walk@[j];
                        (s.0 as int, (s.1.0 as int, s.1.1 as int)) == overlay.walk_step(j)
                    },
                forall|c: int|
                    0 <= c < num && !(off + n - i <= c < off + n) ==> #[trigger] self.chunk(c)
                        == old(self).chunk(c),
                forall|c: int|
                    0 <= c < num && !(off + n - i <= c < off + n) ==> #[trigger] self.flag(c)
                        == old(self).flag(c),
                forall|j: int| 0 <= j < i ==> rehashed_at(*old(self), *self, #[trigger] overlay.walk_step(j)),
            decreases walk@.len() - i,
        {
            let (parent, children) = walk[i];
            let (left, right) = children;
            assert(walk@[i as int] == (parent, children));
            let ghost prev = *self;
            let dirty = self.chunk_modified[left] || self.chunk_modified[right];
            if dirty {
                proof {
                    assert(left + 1 == right);
                    assert(left * 32 + 64 <= self.bytes@.len()) by (nonlinear_arith)
                        requires
                            right < num,
                            left + 1 == right,
                            self.bytes@.len() == 32 * num,
                    ;
                    lemma_concat_chunks(self.bytes@, left as int);
                }
                // The buffer's length bounds the index arithmetic below.
                let _len: usize = self.bytes.len();
                let h = hash(&self.bytes.as_slice()[left * 32..left * 32 + 64]);
                self.write_and_mark(parent, h.as_slice());
                proof {
                    assert forall|c: int| 0 <= c < num implies (#[trigger] self.chunk(c) == if c
                        == parent {
                        h@
                    } else {
                        prev.chunk(c)
                    }) by {
                        lemma_set_chunk(prev.bytes@, parent as int, h@, c);
                    }
                    assert forall|c: int| 0 <= c < num implies (#[trigger] self.flag(c) == if c
                        == parent {
                        true
                    } else {
                        prev.flag(c)
                    }) by {}
                    assert(concat_chunks(self.bytes@, left as int, right as int) == concat_chunks(
                        prev.bytes@,
                        left as int,
                        right as int,
                    ));
                }
            }
            proof {
                crate::schema::lemma_walk_order(*overlay);
                assert forall|j: int| 0 <= j < i + 1 implies rehashed_at(
                    *old(self),
                    *self,
                    #[trigger] overlay.walk_step(j),
                ) by {
                    let s = overlay.walk_step(j);
                    if j < i {
                        assert(rehashed_at(*old(self), prev, s));
                        assert(concat_chunks(self.bytes@, s.1.0, s.1.1) == concat_chunks(
                            prev.bytes@,
                            s.1.0,
                            s.1.1,
                        ));
                    }
                }
            }
            i = i + 1;
        }
        Ok(())
    }

    /// Replaces the schema at `schema_index` by that of `new_overlay`, growing or shrinking the
    /// internal nodes of the subtree at `chunk_index` to suit, and returns the overlay that it
    /// replaced. The leaves are left as they are.
    pub fn replace_overlay(&mut self, schema_index: usize, chunk_index: usize, new_overlay: BTreeOverlay) -> (r:
        Result<BTreeOverlay, Error>)
        requires
            old(self).inv(),
            new_overlay.wf(),
            chunk_index <= MAX_OFFSET,
        ensures
            final(self).inv(),
            schema_index >= old(self).schemas@.len() <==> r == Err::<BTreeOverlay, Error>(
                Error::NoSchemaForIndex(schema_index),
            ),
            ({
                let old_o = old(self).schemas@[schema_index as int].into_overlay_spec(chunk_index);
                let on = old_o.spec_num_internal_nodes();
                let nn = new_overlay.spec_num_internal_nodes();
                &&& r is Ok <==> schema_index < old(self).schemas@.len() && (on == nn || chunk_index + on
                    <= old(self).n())
                &&& schema_index < old(self).schemas@.len() && on != nn && chunk_index + on > old(self).n()
                    ==> r == Err::<BTreeOverlay, Error>(Error::UnableToObtainSlices)
                &&& r matches Ok(o) ==> {
                    &&& o == old_o
                    &&& final(self).schemas@ == old(self).schemas@.update(
                        schema_index as int,
                        new_overlay.schema(),
                    )
                    &&& on == nn ==> final(self).bytes@ == old(self).bytes@ && final(self).chunk_modified@
                        == old(self).chunk_modified@
                    &&& on != nn ==> {
                        let nb = final(self).bytes@.subrange(32 * chunk_index, 32 * (chunk_index + nn));
                        let nf = final(self).chunk_modified@.subrange(chunk_index as int, chunk_index + nn);
                        &&& final(self).bytes@ == spliced(
                            old(self).bytes@,
                            32 * chunk_index,
                            32 * (chunk_index + on),
                            nb,
                        )
                        &&& final(self).chunk_modified@ == spliced(
                            old(self).chunk_modified@,
                            chunk_index as int,
                            chunk_index + on,
                            nf,
                        )
                        &&& is_relevelled(
                            nb,
                            nf,
                            old(self).bytes@.subrange(32 * chunk_index, 32 * (chunk_index + on)),
                            old(self).chunk_modified@.subrange(chunk_index as int, chunk_index + on),
                            ceil_log2(old_o.num_leaves as nat),
                            ceil_log2(new_overlay.num_leaves as nat),
                        )
                    }
                }
            }),
            r is Err ==> *final(self) == *old(self),
            final(self).chunk_index == old(self).chunk_index,
            final(self).schema_index == old(self).schema_index,
    {
        let old_overlay = match self.get_overlay(schema_index, chunk_index) {
            Ok(o) => o,
            Err(e) => return Err(e),
        };
        proof {
            assert(self.schemas@[schema_index as int].wf());
        }
        let on = old_overlay.num_internal_nodes();
        let nn = new_overlay.num_internal_nodes();
        if nn != on {
            let (old_bytes, old_flags) = match self.slices(chunk_index..chunk_index + on) {
                Some(v) => v,
                None => return Err(Error::UnableToObtainSlices),
            };
            proof {
                lemma_next_pow2_bound(old_overlay.num_leaves as nat);
                lemma_next_pow2_bound(new_overlay.num_leaves as nat);
                crate::chunks::lemma_pow2_pos(ceil_log2(old_overlay.num_leaves as nat));
                crate::chunks::lemma_pow2_pos(ceil_log2(new_overlay.num_leaves as nat));
            }
            let from_h = old_overlay.height() - 1;
            let to_h = new_overlay.height() - 1;
            let (new_bytes, new_flags) = if nn > on {
                // The old tree becomes the leftmost subtree of the new one.
                proof {
                    if ceil_log2(new_overlay.num_leaves as nat) <= ceil_log2(old_overlay.num_leaves as nat) {
                        lemma_pow2_mono(
                            ceil_log2(new_overlay.num_leaves as nat),
                            ceil_log2(old_overlay.num_leaves as nat),
                        );
                    }
                }
                match grow_merkle_tree(old_bytes, old_flags, from_h, to_h) {
                    Some(v) => v,
                    None => return Err(Error::UnableToGrowMerkleTree),
                }
            } else {
                // The new tree is the leftmost subtree of the old one.
                proof {
                    if ceil_log2(new_overlay.num_leaves as nat) > ceil_log2(old_overlay.num_leaves as nat) {
                        lemma_pow2_mono(
                            ceil_log2(old_overlay.num_leaves as nat),
                            ceil_log2(new_overlay.num_leaves as nat),
                        );
                    }
                }
                match shrink_merkle_tree(old_bytes, old_flags, from_h, to_h) {
                    Some(v) => v,
                    None => return Err(Error::UnableToShrinkMerkleTree),
                }
            };
            self.splice(chunk_index..chunk_index + on, new_bytes, new_flags);
            proof {
                assert(new_bytes@.len() == 32 * nn);
                assert(self.bytes@.subrange(32 * chunk_index, 32 * (chunk_index + nn)) =~= new_bytes@);
                assert(self.chunk_modified@.subrange(chunk_index as int, chunk_index + nn) =~= new_flags@);
            }
        }
        let replaced = self.schemas[schema_index];
        self.schemas.set(schema_index, new_overlay.into_schema());
        proof {
            assert forall|i: int| 0 <= i < self.schemas@.len() implies (#[trigger] self.schemas@[i]).wf() by {
                if i != schema_index {
                    assert(self.schemas@[i] == old(self).schemas@[i]);
                }
            }
        }
        Ok(replaced.into_overlay(chunk_index))
    }

    /// Writes the little-endian `length` into chunk `chunk_range.end`, then, where that chunk or
    /// chunk `chunk_range.start` is dirty, sets chunk `chunk_range.start - 1` to their digest.
    pub fn mix_in_length(&mut self, chunk_range: Range<usize>, length: usize) -> (r: Result<(), Error>)
        requires
            old(self).inv(),
            1 <= chunk_range.start <= chunk_range.end,
        ensures
            final(self).inv(),
            chunk_range.end >= old(self).n() <==> r == Err::<(), Error>(
                Error::NoModifiedFieldForChunk(chunk_range.end),
            ),
            r is Ok <==> chunk_range.end < old(self).n(),
            r is Err ==> *final(self) == *old(self),
            r is Ok ==> (final(self).bytes@, final(self).chunk_modified@) == mixed(
                old(self).bytes@,
                old(self).chunk_modified@,
                chunk_range.start as int,
                chunk_range.end as int,
                length as nat,
            ),
            final(self).schemas@ == old(self).schemas@,
            final(self).chunk_index == old(self).chunk_index,
            final(self).schema_index == old(self).schema_index,
    {
        let start = chunk_range.start;
        let end = chunk_range.end;
        let len_bytes = int_to_bytes32(length as u64);
        match self.maybe_update_chunk(end, len_bytes.as_slice()) {
            Ok(()) => {},
            Err(e) => return Err(e),
        }
        if self.chunk_modified[start] || self.chunk_modified[end] {
            let h = match self.hash_children((start, end)) {
                Ok(h) => h,
                Err(e) => return Err(e),
            };
            self.write_and_mark(start - 1, h.as_slice());
        }
        Ok(())
    }

    /// Inserts a clean zero chunk before chunk `chunk_range.start` and another before chunk
    /// `chunk_range.end`, marks the first chunk of the range dirty, and mixes `length` into the
    /// two new chunks: the first becomes the root, the second the length.
    pub fn add_length_nodes(&mut self, chunk_range: Range<usize>, length: usize) -> (r: Result<(), Error>)
        requires
            old(self).inv(),
            chunk_range.start <= chunk_range.end <= old(self).n(),
            chunk_range.start < old(self).n(),
        ensures
            r is Ok,
            final(self).inv(),
            (final(self).bytes@, final(self).chunk_modified@) == mixed(
                with_length_nodes(old(self).bytes@, chunk_range.start as int, chunk_range.end as int),
                with_length_flags(old(self).chunk_modified@, chunk_range.start as int, chunk_range.end as int),
                chunk_range.start + 1,
                chunk_range.end + 1,
                length as nat,
            ),
            final(self).schemas@ == old(self).schemas@,
            final(self).chunk_index == old(self).chunk_index,
            final(self).schema_index == old(self).schema_index,
    {
        let start = chunk_range.start;
        let end = chunk_range.end;
        self.chunk_modified.set(start, true);
        // The buffer's length bounds the index arithmetic below.
        let _len: usize = self.bytes.len();
        let zero: Vec<u8> = vec![0u8; 32];
        let b1 = splice_vec(&self.bytes, 32 * end, 32 * end, zero.as_slice());
        let b2 = splice_vec(&b1, 32 * start, 32 * start, zero.as_slice());
        let clean: Vec<bool> = vec![false];
        let f1 = splice_vec(&self.chunk_modified, end, end, clean.as_slice());
        let f2 = splice_vec(&f1, start, start, clean.as_slice());
        proof {
            assert(zero@ =~= zero_chunks(1));
            assert(b2@ =~= with_length_nodes(old(self).bytes@, start as int, end as int));
            assert(f2@ =~= with_length_flags(old(self).chunk_modified@, start as int, end as int));
        }
        self.bytes = b2;
        self.chunk_modified = f2;
        self.mix_in_length(start + 1..end + 1, length)
    }

    /// Builds the cache of a value whose fields or elements have the caches `subtrees`: their
    /// roots become the leaves of a new tree, whose internal nodes come first, followed by the
    /// subtrees' chunks. A list (`mixes_in_length`) records its own schema first.
    pub fn from_subtree_caches(mixes_in_length: bool, subtrees: Vec<Self>, depth: usize) -> (r: Result<Self, Error>)
        requires
            forall|i: int| 0 <= i < subtrees@.len() ==> (#[trigger] subtrees@[i]).inv(),
            subtrees@.len() <= MAX_LEAVES,
            flat_bytes(subtrees@).len() <= usize::MAX - 64 * MAX_LEAVES,
        ensures
            r is Ok <==> forall|i: int| 0 <= i < subtrees@.len() ==> (#[trigger] subtrees@[i]).n() > 0,
            r is Err ==> r == Err::<Self, Error>(Error::CacheNotInitialized),
            r matches Ok(c) ==> built_from_subtrees(c, subtrees@, depth, mixes_in_length),
    {
        let k = subtrees.len();
        let overlay = BTreeOverlay { offset: 0, depth, num_leaves: k, mixes_in_length };
        let n_int = overlay.num_internal_nodes();
        let mut bytes: Vec<u8> = vec![0u8; 32 * n_int];
        let mut leaves: Vec<u8> = Vec::new();
        let mut schemas: Vec<BTreeSchema> = Vec::new();
        if mixes_in_length {
            schemas.push(overlay.into_schema());
        }
        let ghost head = schemas@;
        let ghost mut cnt: int = n_int as int;
        let mut i: usize = 0;
        while i < k
            invariant
                k == subtrees@.len() <= MAX_LEAVES,
                i <= k,
                forall|j: int| 0 <= j < subtrees@.len() ==> (#[trigger] subtrees@[j]).inv(),
                forall|j: int| 0 <= j < i ==> (#[trigger] subtrees@[j]).n() > 0,
                flat_bytes(subtrees@).len() <= usize::MAX - 64 * MAX_LEAVES,
                bytes@ == Seq::new(32 * n_int as nat, |x: int| 0u8) + flat_bytes(subtrees@.take(i as int)),
                bytes@.len() == 32 * cnt,
                leaves@ == flat_roots(subtrees@.take(i as int)),
                leaves@.len() == 32 * i,
                schemas@ == head + flat_schemas(subtrees@.take(i as int)),
            decreases k - i,
        {
            let t = &subtrees[i];
            let root = match t.tree_hash_root() {
                Ok(root) => root,
                Err(e) => {
                    return Err(e);
                },
            };
            proof {
                let s1 = subtrees@.take(i + 1);
                assert(s1.drop_last() =~= subtrees@.take(i as int));
                assert(s1.last() == subtrees@[i as int]);
            }
            push_all(&mut leaves, root);
            push_all(&mut bytes, t.bytes.as_slice());
            push_all(&mut schemas, t.schemas.as_slice());
            proof {
                cnt = cnt + t.n();
                assert(bytes@ =~= Seq::new(32 * n_int as nat, |x: int| 0u8) + flat_bytes(subtrees@.take(i + 1)));
                assert(schemas@ =~= head + flat_schemas(subtrees@.take(i + 1)));
                lemma_flat_bytes_take_len(subtrees@, i as int + 1);
            }
            i = i + 1;
        }
        proof {
            assert(subtrees@.take(k as int) =~= subtrees@);
            lemma_flat_bytes_take_len(subtrees@, k as int);
            lemma_next_pow2_ge(k as nat);
        }
        pad_for_leaf_count(k, &mut bytes);
        pad_for_leaf_count(k, &mut leaves);
        let ghost padded = leaves@;
        let merkleized = merkleize(leaves);
        proof {
            lemma_internal_part(merkleized@, padded);
        }
        let internal = &merkleized.as_slice()[0..32 * n_int];
        let bytes = splice_vec(&bytes, 0, 32 * n_int, internal);
        let num = bytes.len() / 32;
        let chunk_modified: Vec<bool> = vec![true; num];
        let c = TreeHashCache { bytes, chunk_modified, schemas, chunk_index: 0, schema_index: 0 };
        proof {
            assert(c.chunk_modified@ =~= Seq::new(c.chunk_modified@.len(), |i: int| true));
            assert(c.bytes@.subrange(0, 32 * n_int) =~= internal@);
            assert(c.bytes@.subrange(32 * n_int, c.bytes@.len() as int) =~= flat_bytes(subtrees@) + zero_chunks((next_pow2(k as nat) - k) as nat));
            assert forall|j: int| 0 <= j < c.schemas@.len() implies (#[trigger] c.schemas@[j]).wf() by {
                lemma_flat_schemas_wf(subtrees@);
                if mixes_in_length && j == 0 {
                } else if mixes_in_length {
                    assert(c.schemas@[j] == flat_schemas(subtrees@)[j - 1]);
                } else {
                    assert(c.schemas@[j] == flat_schemas(subtrees@)[j]);
                }
            }
        }
        Ok(c)
    }

    /// Rebuilds a cache from the parts that `into_components` returns, with both cursors at
    /// zero. The parts are refused where `bytes` is not one chunk per flag, or where a schema has
    /// more leaves than the library accepts.
    pub fn from_components(bytes: Vec<u8>, chunk_modified: Vec<bool>, schemas: Vec<BTreeSchema>) -> (r:
        Result<Self, Error>)
        ensures
            !chunks_match(bytes@, chunk_modified@) ==> r == Err::<Self, Error>(
                Error::BytesAreNotEvenChunks(bytes@.len() as usize),
            ),
            r is Ok <==> components_valid(bytes@, chunk_modified@, schemas@),
            r matches Ok(c) ==> {
                &&& c.inv()
                &&& c.bytes@ == bytes@
                &&& c.chunk_modified@ == chunk_modified@
                &&& c.schemas@ == schemas@
                &&& c.chunk_index == 0
                &&& c.schema_index == 0
            },
    {
        let len = bytes.len();
        if len % 32 != 0 || len / 32 != chunk_modified.len() {
            return Err(Error::BytesAreNotEvenChunks(len));
        }
        let mut i: usize = 0;
        while i < schemas.len()
            invariant
                i <= schemas@.len(),
                chunks_match(bytes@, chunk_modified@),
                forall|j: int| 0 <= j < i ==> (#[trigger] schemas@[j]).wf(),
            decreases schemas@.len() - i,
        {
            if schemas[i].num_leaves > MAX_LEAVES {
                return Err(Error::NoSchemaForIndex(i));
            }
            i = i + 1;
        }
        Ok(TreeHashCache { bytes, chunk_modified, schemas, chunk_index: 0, schema_index: 0 })
    }

    /// Returns `(self.bytes, self.chunk_modified, self.schemas)`.
    pub fn into_components(self) -> (r: (Vec<u8>, Vec<bool>, Vec<BTreeSchema>))
        ensures
            r.0@ == self.bytes@,
            r.1@ == self.chunk_modified@,
            r.2@ == self.schemas@,
    {
        (self.bytes, self.chunk_modified, self.schemas)
    }
}

/// Step `s` of a bottom-up walk (a parent and its two children) took `old` to `new`: the parent
/// is dirty where it was or a child is, holds the digest of its children where a child is
/// dirty, and is unchanged otherwise.
pub open spec fn rehashed_at(old: TreeHashCache, new: TreeHashCache, s: (int, (int, int))) -> bool {
    let dirty_child = new.flag(s.1.0) || new.flag(s.1.1);
    &&& new.flag(s.0) == (old.flag(s.0) || dirty_child)
    &&& dirty_child ==> new.chunk(s.0) == sha256_of(concat_chunks(new.bytes@, s.1.0, s.1.1))
    &&& !dirty_child ==> new.chunk(s.0) == old.chunk(s.0)
}

/// Chunk `p` holds the digest of chunks `l` and `r`.
pub open spec fn hashed_at(c: TreeHashCache, s: (int, (int, int))) -> bool {
    c.chunk(s.0) == sha256_of(concat_chunks(c.bytes@, s.1.0, s.1.1))
}

/// The chunks of `o` lie within a cache of `n` chunks.
pub open spec fn overlay_fits(o: BTreeOverlay, n: int) -> bool {
    o.spec_num_internal_nodes() == 0 || o.offset + 2 * o.spec_num_internal_nodes() < n
}

/// `new` is `old` after a bottom-up walk over the internal nodes of `o`.
pub open spec fn internal_nodes_updated(old: TreeHashCache, new: TreeHashCache, o: BTreeOverlay) -> bool {
    &&& new.inv()
    &&& new.n() == old.n()
    &&& new.schemas@ == old.schemas@
    &&& new.chunk_index == old.chunk_index
    &&& new.schema_index == old.schema_index
    &&& forall|c: int|
        0 <= c < old.n() && !(o.offset <= c < o.offset + o.spec_num_internal_nodes()) ==> #[trigger] new.chunk(c)
            == old.chunk(c)
    &&& forall|c: int|
        0 <= c < old.n() && !(o.offset <= c < o.offset + o.spec_num_internal_nodes()) ==> #[trigger] new.flag(c)
            == old.flag(c)
    &&& forall|i: int|
        0 <= i < o.spec_num_internal_nodes() ==> rehashed_at(old, new, #[trigger] o.walk_step(i))
}

/// Every internal node of `o` whose children are both clean holds their digest.
pub open spec fn clean_nodes_hashed(c: TreeHashCache, o: BTreeOverlay) -> bool {
    forall|i: int|
        0 <= i < o.spec_num_internal_nodes() ==> {
            let s = #[trigger] o.walk_step(i);
            !c.flag(s.1.0) && !c.flag(s.1.1) ==> hashed_at(c, s)
        }
}

/// The buffer and flags after the length `len` is written into chunk `e` (where it differs) and
/// chunk `s - 1` is set to the digest of chunks `s` and `e` (where either of them is dirty).
pub open spec fn mixed(b: Seq<u8>, f: Seq<bool>, s: int, e: int, len: nat) -> (Seq<u8>, Seq<bool>) {
    let (b1, f1) = maybe_updated(b, f, e, le32(len));
    if f1[s] || f1[e] {
        (set_chunk(b1, s - 1, sha256_of(concat_chunks(b1, s, e))), f1.update(s - 1, true))
    } else {
        (b1, f1)
    }
}

/// `b` with a zero chunk inserted before chunk `s` and another before chunk `e`.
pub open spec fn with_length_nodes(b: Seq<u8>, s: int, e: int) -> Seq<u8> {
    b.subrange(0, 32 * s) + zero_chunks(1) + b.subrange(32 * s, 32 * e) + zero_chunks(1) + b.subrange(
        32 * e,
        b.len() as int,
    )
}

/// `f`, with flag `s` set, and a clean flag inserted before flag `s` and another before flag `e`.
pub open spec fn with_length_flags(f: Seq<bool>, s: int, e: int) -> Seq<bool> {
    let g = f.update(s, true);
    g.subrange(0, s) + seq![false] + g.subrange(s, e) + seq![false] + g.subrange(e, g.len() as int)
}

/// The bytes of the caches in `s`, one after another.
pub open spec fn flat_bytes(s: Seq<TreeHashCache>) -> Seq<u8>
    decreases s.len(),
{
    if s.len() == 0 {
        Seq::empty()
    } else {
        flat_bytes(s.drop_last()) + s.last().bytes@
    }
}

/// The roots of the caches in `s`, one after another.
pub open spec fn flat_roots(s: Seq<TreeHashCache>) -> Seq<u8>
    decreases s.len(),
{
    if s.len() == 0 {
        Seq::empty()
    } else {
        flat_roots(s.drop_last()) + s.last().chunk(0)
    }
}

/// The schemas of the caches in `s`, one after another.
pub open spec fn flat_schemas(s: Seq<TreeHashCache>) -> Seq<BTreeSchema>
    decreases s.len(),
{
    if s.len() == 0 {
        Seq::empty()
    } else {
        flat_schemas(s.drop_last()) + s.last().schemas@
    }
}

/// `c` is the cache built over the subtrees `s` at `depth`: the internal nodes of the tree over
/// their roots (padded with zero leaves to a power of two), then their chunks, then the padding
/// leaves, every chunk dirty.
pub open spec fn built_from_subtrees(c: TreeHashCache, s: Seq<TreeHashCache>, depth: usize, mixes_in_length: bool) -> bool {
    let k = s.len();
    let l = next_pow2(k as nat);
    let pad = zero_chunks((l - k) as nat);
    let internal = 32 * (l - 1);
    &&& c.inv()
    &&& c.bytes@.len() == internal + flat_bytes(s).len() + pad.len()
    &&& c.bytes@.subrange(internal, c.bytes@.len() as int) == flat_bytes(s) + pad
    &&& is_internal_image(c.bytes@.subrange(0, internal), flat_roots(s) + pad)
    &&& c.chunk_modified@ == Seq::new(c.chunk_modified@.len(), |i: int| true)
    &&& c.schemas@ == if mixes_in_length {
        seq![BTreeSchema { depth, num_leaves: k as usize, mixes_in_length: true }] + flat_schemas(s)
    } else {
        flat_schemas(s)
    }
    &&& c.chunk_index == 0
    &&& c.schema_index == 0
}

/// `b` is made of one chunk for each flag of `f`.
pub open spec fn chunks_match(b: Seq<u8>, f: Seq<bool>) -> bool {
    b.len() % 32 == 0 && b.len() / 32 == f.len()
}

/// The parts of a cache that `from_components` accepts.
pub open spec fn components_valid(b: Seq<u8>, f: Seq<bool>, s: Seq<BTreeSchema>) -> bool {
    &&& chunks_match(b, f)
    &&& forall|i: int| 0 <= i < s.len() ==> (#[trigger] s[i]).wf()
}

/// The index of the first schema from `i` on that is not deeper than `depth`, or the length of
/// `s` where there is none.
pub open spec fn child_run_end(s: Seq<BTreeSchema>, i: int, depth: usize) -> int
    decreases s.len() - i,
{
    if i >= s.len() || i < 0 {
        s.len() as int
    } else if s[i].depth <= depth {
        i
    } else {
        child_run_end(s, i + 1, depth)
    }
}

proof fn lemma_flat_bytes_take_len(s: Seq<TreeHashCache>, i: int)
    requires
        0 <= i <= s.len(),
    ensures
        flat_bytes(s.take(i)).len() <= flat_bytes(s).len(),
    decreases s.len() - i,
{
    if i < s.len() {
        lemma_flat_bytes_take_len(s, i + 1);
        assert(s.take(i + 1).drop_last() =~= s.take(i));
    } else {
        assert(s.take(i) =~= s);
    }
}

proof fn lemma_flat_schemas_wf(s: Seq<TreeHashCache>)
    requires
        forall|j: int| 0 <= j < s.len() ==> (#[trigger] s[j]).inv(),
    ensures
        forall|j: int| 0 <= j < flat_schemas(s).len() ==> (#[trigger] flat_schemas(s)[j]).wf(),
    decreases s.len(),
{
    if s.len() > 0 {
        lemma_flat_schemas_wf(s.drop_last());
        let a = flat_schemas(s.drop_last());
        let b = s.last().schemas@;
        assert(s.last().inv());
        assert forall|j: int| 0 <= j < flat_schemas(s).len() implies (#[trigger] flat_schemas(s)[j]).wf() by {
            if j >= a.len() {
                assert(flat_schemas(s)[j] == b[j - a.len()]);
            } else {
                assert(s.drop_last()[0].inv() || s.drop_last().len() == 0);
            }
        }
    }
}

/// The capability of a value to keep its tree hash in a `TreeHashCache`.
pub trait CachedTreeHash {
    /// How values of this type take part in tree hashing.
    spec fn spec_tree_hash_type() -> TreeHashType;

    /// The root of the Merkle tree of `self`, computed without a cache.
    spec fn spec_tree_hash_root(&self) -> Seq<u8>;

    /// `r` is what building the cache of `self` at `depth` gives.
    spec fn spec_new_cache(&self, depth: usize, r: Result<TreeHashCache, Error>) -> bool;

    /// Walking `self` over the cache `before` gives the cache `after` and the result `r`.
    spec fn spec_updated(&self, before: TreeHashCache, after: TreeHashCache, r: Result<(), Error>) -> bool;

    /// How values of this type take part in tree hashing.
    fn tree_hash_type() -> (r: TreeHashType)
        ensures
            r == Self::spec_tree_hash_type(),
    ;

    /// How many values of this type are packed into one chunk.
    fn tree_hash_packing_factor() -> usize;

    /// Builds a complete cache for `self`, as a value nested `depth` levels down.
    fn new_tree_hash_cache(&self, depth: usize) -> (r: Result<TreeHashCache, Error>)
        ensures
            self.spec_new_cache(depth, r),
            r matches Ok(c) ==> c.inv() && c.n() > 0 && c.chunk(0) == self.spec_tree_hash_root(),
    ;

    /// Walks `self` over `cache` from its cursors on, writing the leaves that changed and
    /// hashing again the paths above them.
    fn update_tree_hash_cache(&self, cache: &mut TreeHashCache) -> (r: Result<(), Error>)
        requires
            old(cache).inv(),
        ensures
            final(cache).inv(),
            self.spec_updated(*old(cache), *final(cache), r),
    ;
}

/// A 32-byte value is a single leaf chunk: its cache is that chunk, clean, and an update writes
/// it at the chunk cursor where it differs and moves the cursor on.
impl CachedTreeHash for [u8; 32] {
    open spec fn spec_tree_hash_type() -> TreeHashType {
        TreeHashType::Basic
    }

    open spec fn spec_tree_hash_root(&self) -> Seq<u8> {
        self@
    }

    open spec fn spec_new_cache(&self, depth: usize, r: Result<TreeHashCache, Error>) -> bool {
        r matches Ok(c) && c.bytes@ == self@ && c.chunk_modified@ == seq![false] && c.schemas@.len()
            == 0 && c.chunk_index == 0 && c.schema_index == 0
    }

    open spec fn spec_updated(&self, before: TreeHashCache, after: TreeHashCache, r: Result<(), Error>) -> bool {
        let ci = before.chunk_index;
        if ci < before.n() {
            &&& r is Ok
            &&& (after.bytes@, after.chunk_modified@) == maybe_updated(
                before.bytes@,
                before.chunk_modified@,
                ci as int,
                self@,
            )
            &&& after.chunk_index == ci + 1
            &&& after.schemas@ == before.schemas@
            &&& after.schema_index == before.schema_index
        } else {
            r == Err::<(), Error>(Error::NoModifiedFieldForChunk(ci)) && after == before
        }
    }

    fn tree_hash_type() -> (r: TreeHashType) {
        TreeHashType::Basic
    }

    fn tree_hash_packing_factor() -> usize {
        1
    }

    fn new_tree_hash_cache(&self, depth: usize) -> (r: Result<TreeHashCache, Error>) {
        let mut b: Vec<u8> = Vec::new();
        push_all(&mut b, self.as_slice());
        let r = TreeHashCache::from_bytes(b, false, None);
        proof {
            if r is Ok {
                assert(r->Ok_0.chunk_modified@ =~= seq![false]);
                assert(r->Ok_0.chunk(0) =~= self@);
            }
        }
        r
    }

    fn update_tree_hash_cache(&self, cache: &mut TreeHashCache) -> (r: Result<(), Error>) {
        let c = cache.chunk_index;
        // The buffer's length bounds the index arithmetic below.
        let _len: usize = cache.bytes.len();
        match cache.maybe_update_chunk(c, self.as_slice()) {
            Ok(()) => {},
            Err(e) => return Err(e),
        }
        cache.chunk_index = c + 1;
        Ok(())
    }
}

impl TreeHashCache {
    /// Builds the cache of `item` at depth zero.
    pub fn new<T: CachedTreeHash>(item: &T) -> (r: Result<Self, Error>)
        ensures
            item.spec_new_cache(0, r),
            r matches Ok(c) ==> c.inv() && c.n() > 0 && c.chunk(0) == item.spec_tree_hash_root(),
    {
        Self::new_at_depth(item, 0)
    }

    /// Builds the cache of `item` at `depth`.
    pub fn new_at_depth<T: CachedTreeHash>(item: &T, depth: usize) -> (r: Result<Self, Error>)
        ensures
            item.spec_new_cache(depth, r),
            r matches Ok(c) ==> c.inv() && c.n() > 0 && c.chunk(0) == item.spec_tree_hash_root(),
    {
        item.new_tree_hash_cache(depth)
    }

    /// Brings the cache up to date with `item`, a value of the type that the cache was built
    /// for: the dirty flags and cursors are cleared and `item` walks the cache.
    pub fn update<T: CachedTreeHash>(&mut self, item: &T) -> (r: Result<(), Error>)
        requires
            old(self).inv(),
        ensures
            final(self).inv(),
            old(self).n() == 0 ==> r == Err::<(), Error>(Error::CacheNotInitialized) && *final(self)
                == *old(self),
            old(self).n() > 0 ==> exists|m: TreeHashCache|
                {
                    &&& m.bytes@ == old(self).bytes@
                    &&& m.chunk_modified@ == Seq::new(old(self).chunk_modified@.len(), |i: int| false)
                    &&& m.schemas@ == old(self).schemas@
                    &&& m.chunk_index == 0
                    &&& m.schema_index == 0
                    &&& #[trigger] item.spec_updated(m, *final(self), r)
                },
    {
        if self.is_empty() {
            return Err(Error::CacheNotInitialized);
        }
        self.reset_modifications();
        let ghost m = *self;
        let r = item.update_tree_hash_cache(self);
        proof {
            assert(item.spec_updated(m, *self, r));
        }
        r
    }

    /// Builds the cache of `item` from `subtrees`, the caches of its fields or elements.
    pub fn from_subtrees<T: CachedTreeHash>(item: &T, subtrees: Vec<Self>, depth: usize) -> (r: Result<Self, Error>)
        requires
            forall|i: int| 0 <= i < subtrees@.len() ==> (#[trigger] subtrees@[i]).inv(),
            subtrees@.len() <= MAX_LEAVES,
            flat_bytes(subtrees@).len() <= usize::MAX - 64 * MAX_LEAVES,
        ensures
            r is Ok <==> forall|i: int| 0 <= i < subtrees@.len() ==> (#[trigger] subtrees@[i]).n() > 0,
            r is Err ==> r == Err::<Self, Error>(Error::CacheNotInitialized),
            r matches Ok(c) ==> built_from_subtrees(
                c,
                subtrees@,
                depth,
                T::spec_tree_hash_type() == TreeHashType::List,
            ),
    {
        let is_list = match T::tree_hash_type() {
            TreeHashType::List => true,
            _ => false,
        };
        Self::from_subtree_caches(is_list, subtrees, depth)
    }
}

} // verus!
