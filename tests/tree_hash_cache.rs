use cached_tree_hash::int_bytes::int_to_bytes32;
use cached_tree_hash::merkleize::{merkleize, pad_for_leaf_count};
use cached_tree_hash::resize::{grow_merkle_tree, nodes_in_tree_of_height, shrink_merkle_tree};
use cached_tree_hash::schema::{BTreeOverlay, BTreeSchema, TreeHashType};
use cached_tree_hash::tree_hash_cache::{CachedTreeHash, TreeHashCache};
use cached_tree_hash::Error;
use sha2::Digest;

fn sha(a: &[u8], b: &[u8]) -> Vec<u8> {
    let mut v = a.to_vec();
    v.extend_from_slice(b);
    sha2::Sha256::digest(&v).to_vec()
}

fn le32(n: u64) -> Vec<u8> {
    let mut v = n.to_le_bytes().to_vec();
    v.resize(32, 0);
    v
}

const Z: [u8; 32] = [0u8; 32];

fn well_formed(c: &TreeHashCache) -> bool {
    c.bytes.len() % 32 == 0 && c.chunk_modified.len() * 32 == c.bytes.len()
}

/// A list cache laid out as a list's own update would lay it out.
fn list_cache(leaves: &[[u8; 32]]) -> TreeHashCache {
    let mut data = Vec::new();
    for l in leaves {
        data.extend_from_slice(l);
    }
    pad_for_leaf_count(leaves.len(), &mut data);
    let tree = merkleize(data);
    let schema = BTreeSchema { depth: 0, num_leaves: leaves.len(), mixes_in_length: true };
    let mut c = TreeHashCache::from_bytes(tree, false, Some(schema)).unwrap();
    let n = c.chunk_modified.len();
    c.add_length_nodes(0..n, leaves.len()).unwrap();
    c
}

struct Pair {
    a: [u8; 32],
    b: [u8; 32],
}

/// Builds the cache of a two-field container from its fields' caches.
fn pair_cache(x: &Pair) -> TreeHashCache {
    let subtrees =
        vec![x.a.new_tree_hash_cache(1).unwrap(), x.b.new_tree_hash_cache(1).unwrap()];
    TreeHashCache::from_subtree_caches(false, subtrees, 0).unwrap()
}

/// Updates the cache of a two-field container, as `TreeHashCache::update` does for an item.
fn pair_update(x: &Pair, cache: &mut TreeHashCache) -> Result<(), Error> {
    if cache.is_empty() {
        return Err(Error::CacheNotInitialized);
    }
    cache.reset_modifications();
    let overlay =
        BTreeOverlay { offset: cache.chunk_index, depth: 0, num_leaves: 2, mixes_in_length: false };
    cache.chunk_index += overlay.num_internal_nodes();
    x.a.update_tree_hash_cache(cache)?;
    x.b.update_tree_hash_cache(cache)?;
    cache.update_internal_nodes(&overlay)
}

#[test]
fn leaf_new_and_update() {
    let mut c = TreeHashCache::new(&[7u8; 32]).unwrap();
    assert_eq!(c.tree_hash_root().unwrap(), &[7u8; 32][..]);
    assert_eq!(c.chunk_modified, vec![false]);
    c.update(&[8u8; 32]).unwrap();
    assert_eq!(c.tree_hash_root().unwrap(), &[8u8; 32][..]);
    assert_eq!(c.chunk_modified, vec![true]);
    assert_eq!(c.chunk_index, 1);
    c.update(&[8u8; 32]).unwrap();
    assert_eq!(c.chunk_modified, vec![false]);
    let d = TreeHashCache::new_at_depth(&[9u8; 32], 3).unwrap();
    assert_eq!(d.bytes, vec![9u8; 32]);
}

#[test]
fn fixed_container_single_field_flip() {
    let mut x = Pair { a: [0x00; 32], b: [0x00; 32] };
    let mut c = pair_cache(&x);
    assert_eq!(c.tree_hash_root().unwrap(), &sha(&x.a, &x.b)[..]);
    x.b = [0x11; 32];
    pair_update(&x, &mut c).unwrap();
    assert_eq!(c.tree_hash_root().unwrap(), &sha(&[0x00; 32], &[0x11; 32])[..]);
    assert_eq!(c.chunk_modified, vec![true, false, true]);
    assert!(well_formed(&c));
}

#[test]
fn update_matches_fresh_build() {
    let x = Pair { a: [0x01; 32], b: [0x02; 32] };
    let mut c = pair_cache(&x);
    let y = Pair { a: [0x03; 32], b: [0x02; 32] };
    pair_update(&y, &mut c).unwrap();
    let fresh = pair_cache(&y);
    assert_eq!(c.tree_hash_root().unwrap(), fresh.tree_hash_root().unwrap());
    assert_eq!(c.bytes, fresh.bytes);
}

#[test]
fn update_is_idempotent_and_noop_leaves_flags_clean() {
    let x = Pair { a: [0x05; 32], b: [0x06; 32] };
    let mut c = pair_cache(&x);
    pair_update(&x, &mut c).unwrap();
    let r1 = c.tree_hash_root().unwrap().to_vec();
    pair_update(&x, &mut c).unwrap();
    let r2 = c.tree_hash_root().unwrap().to_vec();
    assert_eq!(r1, r2);
    assert!(c.chunk_modified.iter().all(|f| !f));
    assert_eq!(c.chunk_index, 3);
}

#[test]
fn fresh_build_root_is_direct_merkle_root() {
    let leaves = [[0x01u8; 32], [0x02u8; 32], [0x03u8; 32]];
    let subtrees: Vec<TreeHashCache> =
        leaves.iter().map(|l| l.new_tree_hash_cache(1).unwrap()).collect();
    let c = TreeHashCache::from_subtree_caches(false, subtrees, 0).unwrap();
    let expected = sha(&sha(&leaves[0], &leaves[1]), &sha(&leaves[2], &Z));
    assert_eq!(c.tree_hash_root().unwrap(), &expected[..]);
    assert_eq!(c.chunk_modified.len(), 7);
    assert!(c.chunk_modified.iter().all(|f| *f));
    assert_eq!(&c.bytes[3 * 32..6 * 32], &[leaves[0], leaves[1], leaves[2]].concat()[..]);
    assert_eq!(&c.bytes[6 * 32..], &Z[..]);
    assert!(c.schemas.is_empty());
}

#[test]
fn leaf_capability() {
    assert_eq!(<[u8; 32]>::tree_hash_type(), TreeHashType::Basic);
    assert_eq!(<[u8; 32]>::tree_hash_packing_factor(), 1);
    let c = [0x0fu8; 32].new_tree_hash_cache(0).unwrap();
    assert_eq!(c.bytes, vec![0x0fu8; 32]);
    assert_eq!(c.chunk_modified, vec![false]);
}

#[test]
fn from_subtrees_records_list_schema() {
    let subtrees = vec![[0x01u8; 32].new_tree_hash_cache(1).unwrap()];
    let c = TreeHashCache::from_subtree_caches(true, subtrees, 4).unwrap();
    assert_eq!(c.schemas, vec![BTreeSchema { depth: 4, num_leaves: 1, mixes_in_length: true }]);
}

#[test]
fn from_subtrees_rejects_empty_subtree() {
    let subtrees = vec![TreeHashCache::default()];
    assert_eq!(TreeHashCache::from_subtree_caches(false, subtrees, 0), Err(Error::CacheNotInitialized));
}

#[test]
fn list_root_mixes_in_length() {
    let leaves = [[0x01u8; 32], [0x02u8; 32], [0x03u8; 32]];
    let c = list_cache(&leaves);
    let data_root = sha(&sha(&leaves[0], &leaves[1]), &sha(&leaves[2], &Z));
    assert_eq!(c.tree_hash_root().unwrap(), &sha(&data_root, &le32(3))[..]);
    assert!(well_formed(&c));
}

#[test]
fn list_grow() {
    let l0 = [0x01u8; 32];
    let l1 = [0x02u8; 32];
    let l2 = [0x03u8; 32];
    let mut c = list_cache(&[l0, l1]);
    assert_eq!(c.tree_hash_root().unwrap(), &sha(&sha(&l0, &l1), &le32(2))[..]);
    c.reset_modifications();
    let new_overlay = BTreeOverlay { offset: 1, depth: 0, num_leaves: 3, mixes_in_length: true };
    let old = c.replace_overlay(0, 1, new_overlay.clone()).unwrap();
    assert_eq!(old.num_leaves, 2);
    let mut fresh = l2.to_vec();
    fresh.extend_from_slice(&Z);
    c.splice(6..6, fresh, vec![true, true]);
    assert_eq!(&c.chunk_modified[4..6], &[false, false]);
    c.update_internal_nodes(&new_overlay).unwrap();
    c.mix_in_length(1..8, 3).unwrap();
    let expected = sha(&sha(&sha(&l0, &l1), &sha(&l2, &Z)), &le32(3));
    assert_eq!(c.tree_hash_root().unwrap(), &expected[..]);
    assert!(well_formed(&c));
}

#[test]
fn list_shrink_keeps_left_subtree() {
    let l = [[1u8; 32], [2u8; 32], [3u8; 32]];
    let mut c = list_cache(&l);
    c.reset_modifications();
    let two = BTreeOverlay { offset: 1, depth: 0, num_leaves: 2, mixes_in_length: true };
    c.replace_overlay(0, 1, two.clone()).unwrap();
    // The leaves now start at chunk 2: drop the third leaf and its padding.
    c.splice(4..6, vec![], vec![]);
    c.update_internal_nodes(&two).unwrap();
    c.mix_in_length(1..4, 2).unwrap();
    assert_eq!(c.tree_hash_root().unwrap(), &sha(&sha(&l[0], &l[1]), &le32(2))[..]);
}

#[test]
fn list_shrink_to_empty() {
    let mut c = list_cache(&[[0x01u8; 32]]);
    c.reset_modifications();
    let new_overlay = BTreeOverlay { offset: 1, depth: 0, num_leaves: 0, mixes_in_length: true };
    c.replace_overlay(0, 1, new_overlay).unwrap();
    c.maybe_update_chunk(1, &Z).unwrap();
    c.mix_in_length(1..2, 0).unwrap();
    assert_eq!(c.tree_hash_root().unwrap(), &sha(&Z, &le32(0))[..]);
}

#[test]
fn empty_list_root() {
    let c = list_cache(&[]);
    assert_eq!(c.tree_hash_root().unwrap(), &sha(&Z, &Z)[..]);
    assert_eq!(c.chunk_modified.len(), 3);
}

#[test]
fn single_leaf_list_grow_marks_root_dirty() {
    let l0 = [0x07u8; 32];
    let overlay = BTreeOverlay { offset: 1, depth: 0, num_leaves: 1, mixes_in_length: true };
    assert_eq!(overlay.num_internal_nodes(), 0);
    assert_eq!(overlay.num_leaf_nodes(), 1);
    assert_eq!(overlay.height(), 1);
    let mut c = list_cache(&[]);
    c.reset_modifications();
    c.replace_overlay(0, 1, overlay).unwrap();
    c.maybe_update_chunk(1, &l0).unwrap();
    c.mix_in_length(1..2, 1).unwrap();
    assert!(c.chunk_modified[0]);
    assert_eq!(c.tree_hash_root().unwrap(), &sha(&l0, &le32(1))[..]);
}

#[test]
fn power_of_two_transitions_keep_shared_nodes() {
    let ch = |c: &TreeHashCache, i: usize| c.bytes[32 * i..32 * i + 32].to_vec();
    // Two leaves to three: the old root becomes the new root's left child.
    let mut c = list_cache(&[[1u8; 32], [2u8; 32]]);
    c.reset_modifications();
    let old_root = ch(&c, 1);
    let three = BTreeOverlay { offset: 1, depth: 0, num_leaves: 3, mixes_in_length: true };
    c.replace_overlay(0, 1, three.clone()).unwrap();
    assert_eq!(ch(&c, 2), old_root);
    assert_eq!(ch(&c, 1), Z.to_vec());
    assert_eq!(ch(&c, 3), Z.to_vec());
    assert_eq!(&c.chunk_modified[1..4], &[true, false, true]);
    // And back: the left child becomes the root again.
    let two = BTreeOverlay { offset: 1, depth: 0, num_leaves: 2, mixes_in_length: true };
    let old = c.replace_overlay(0, 1, two).unwrap();
    assert_eq!(old, three);
    assert_eq!(ch(&c, 1), old_root);
    assert!(!c.chunk_modified[1]);
    assert_eq!(c.chunk_modified.len(), 5);
    // Four leaves to five: the three old nodes go to 1, 3 and 4 of the seven.
    let mut c = list_cache(&[[1u8; 32], [2u8; 32], [3u8; 32], [4u8; 32]]);
    c.reset_modifications();
    let before = c.bytes[32..128].to_vec();
    let five = BTreeOverlay { offset: 1, depth: 0, num_leaves: 5, mixes_in_length: true };
    c.replace_overlay(0, 1, five).unwrap();
    assert_eq!(ch(&c, 2), before[0..32].to_vec());
    assert_eq!(ch(&c, 4), before[32..64].to_vec());
    assert_eq!(ch(&c, 5), before[64..96].to_vec());
    for i in [1, 3, 6, 7] {
        assert_eq!(ch(&c, i), Z.to_vec());
        assert!(c.chunk_modified[i]);
    }
    for i in [2, 4, 5] {
        assert!(!c.chunk_modified[i]);
    }
    assert_eq!(c.schemas[0].num_leaves, 5);
    // Five back to four.
    let four = BTreeOverlay { offset: 1, depth: 0, num_leaves: 4, mixes_in_length: true };
    c.replace_overlay(0, 1, four).unwrap();
    assert_eq!(&c.bytes[32..128], &before[..]);
}

#[test]
fn nested_composition_keeps_list_clean() {
    let list = list_cache(&[[0x01u8; 32], [0x02u8; 32]]);
    let list_root = list.tree_hash_root().unwrap().to_vec();
    let leaf = [0x09u8; 32].new_tree_hash_cache(1).unwrap();
    let mut c = TreeHashCache::from_subtree_caches(false, vec![list, leaf], 0).unwrap();
    assert_eq!(c.tree_hash_root().unwrap(), &sha(&list_root, &[0x09u8; 32])[..]);
    c.reset_modifications();
    c.maybe_update_chunk(6, &[0x0au8; 32]).unwrap();
    if c.changed(1).unwrap() || c.changed(6).unwrap() {
        let h = c.hash_children((1, 6)).unwrap();
        c.modify_chunk(0, &h).unwrap();
    }
    assert!(c.chunk_modified[1..6].iter().all(|f| !f));
    assert_eq!(c.tree_hash_root().unwrap(), &sha(&list_root, &[0x0au8; 32])[..]);
}

#[test]
fn length_mixin_change_only() {
    let l0 = [0x01u8; 32];
    let mut c = list_cache(&[l0]);
    let root = c.tree_hash_root().unwrap().to_vec();
    c.reset_modifications();
    c.mix_in_length(1..2, 1).unwrap();
    assert!(c.chunk_modified.iter().all(|f| !f));
    c.modify_chunk(2, &[0xffu8; 32]).unwrap();
    c.reset_modifications();
    c.mix_in_length(1..2, 1).unwrap();
    assert_eq!(c.chunk_modified, vec![true, false, true]);
    assert_eq!(c.tree_hash_root().unwrap(), &root[..]);
}

#[test]
fn resize_preserves_shared_nodes() {
    let nodes: Vec<u8> = (0..3u8).flat_map(|i| [i + 1; 32]).collect();
    let flags = vec![false, true, false];
    // Height 3 to height 4: the old tree is the new tree's left subtree.
    let (b, f) = grow_merkle_tree(&nodes, &flags, 2, 3).unwrap();
    assert_eq!(b.len(), 7 * 32);
    assert_eq!(&b[32..64], &nodes[0..32]);
    assert_eq!(&b[96..128], &nodes[32..64]);
    assert_eq!(&b[128..160], &nodes[64..96]);
    for i in [0usize, 2, 5, 6] {
        assert_eq!(&b[32 * i..32 * i + 32], &Z[..]);
    }
    assert_eq!(f, vec![true, false, true, true, false, true, true]);
    // Back down two levels: the leftmost node of level two is the new root.
    let (sb, sf) = shrink_merkle_tree(&b, &f, 3, 1).unwrap();
    assert_eq!(sb, nodes[32..64].to_vec());
    assert_eq!(sf, vec![true]);
    let (same, same_flags) = shrink_merkle_tree(&b, &f, 3, 2).unwrap();
    assert_eq!(same, nodes);
    assert_eq!(same_flags, flags);
    assert_eq!(grow_merkle_tree(&nodes, &flags, 3, 4), None);
    assert_eq!(grow_merkle_tree(&nodes, &flags, 2, 1), None);
    assert_eq!(shrink_merkle_tree(&nodes, &flags, 2, 3), None);
    assert_eq!(nodes_in_tree_of_height(3), 7);
    assert_eq!(nodes_in_tree_of_height(0), 0);
}

#[test]
fn walk_visits_each_internal_node_once_children_first() {
    let o = BTreeOverlay { offset: 3, depth: 0, num_leaves: 5, mixes_in_length: false };
    let walk = o.internal_parents_and_children();
    assert_eq!(walk.len(), 7);
    let mut seen = vec![];
    for (p, (l, r)) in &walk {
        assert!(!seen.contains(p));
        assert_eq!(*l, 3 + 2 * (p - 3) + 1);
        assert_eq!(*r, l + 1);
        for child in [l, r] {
            if *child < 3 + 7 {
                assert!(seen.contains(child));
            }
        }
        seen.push(*p);
    }
    seen.sort();
    assert_eq!(seen, (3..10).collect::<Vec<usize>>());
    assert_eq!(walk[0], (9, (16, 17)));
    assert_eq!(o.internal_chunk_range(), 3..10);
    assert_eq!(o.leaf_chunk_range(), 10..18);
    assert_eq!(o.next_node(), 18);
    assert_eq!(o.height(), 4);
}

#[test]
fn components_round_trip() {
    let x = Pair { a: [0x0cu8; 32], b: [0x0du8; 32] };
    let c = pair_cache(&x);
    let root = c.tree_hash_root().unwrap().to_vec();
    let (b, f, s) = c.into_components();
    let mut back = TreeHashCache::from_components(b, f, s).unwrap();
    assert_eq!(back.tree_hash_root().unwrap(), &root[..]);
    pair_update(&x, &mut back).unwrap();
    assert_eq!(back.tree_hash_root().unwrap(), &root[..]);
}

#[test]
fn from_components_rejects_mismatch() {
    assert_eq!(
        TreeHashCache::from_components(vec![0u8; 64], vec![true], vec![]),
        Err(Error::BytesAreNotEvenChunks(64))
    );
    assert_eq!(
        TreeHashCache::from_components(vec![0u8; 33], vec![true], vec![]),
        Err(Error::BytesAreNotEvenChunks(33))
    );
}

#[test]
fn from_bytes_builds_leaf_cache() {
    let c = TreeHashCache::from_bytes(vec![1u8; 64], true, None).unwrap();
    assert_eq!(c.chunk_modified, vec![true, true]);
    assert!(!c.is_empty());
    assert_eq!(TreeHashCache::from_bytes(vec![1u8; 31], true, None), Err(Error::BytesAreNotEvenChunks(31)));
}

#[test]
fn empty_cache_errors() {
    let mut c = TreeHashCache::default();
    assert!(c.is_empty());
    assert_eq!(c.tree_hash_root(), Err(Error::CacheNotInitialized));
    assert_eq!(c.update(&[0u8; 32]), Err(Error::CacheNotInitialized));
}

#[test]
fn chunk_index_errors() {
    let mut c = TreeHashCache::from_bytes(vec![0u8; 64], false, None).unwrap();
    assert_eq!(c.get_overlay(5, 0), Err(Error::NoSchemaForIndex(5)));
    assert_eq!(c.modify_chunk(10, &Z), Err(Error::NoBytesForChunk(10)));
    assert_eq!(c.maybe_update_chunk(10, &Z), Err(Error::NoModifiedFieldForChunk(10)));
    assert_eq!(c.changed(2), Err(Error::NoModifiedFieldForChunk(2)));
    assert_eq!(c.hash_children((0, 2)), Err(Error::NoModifiedFieldForChunk(2)));
    let o = BTreeOverlay { offset: 0, depth: 0, num_leaves: 2, mixes_in_length: false };
    assert_eq!(c.update_internal_nodes(&o), Err(Error::NoModifiedFieldForChunk(2)));
    assert_eq!(c.replace_overlay(0, 0, o), Err(Error::NoSchemaForIndex(0)));
}

#[test]
fn replace_overlay_out_of_range() {
    let schema = BTreeSchema { depth: 0, num_leaves: 4, mixes_in_length: false };
    let mut c = TreeHashCache::from_bytes(vec![0u8; 64], false, Some(schema)).unwrap();
    let o = BTreeOverlay { offset: 0, depth: 0, num_leaves: 8, mixes_in_length: false };
    assert_eq!(c.replace_overlay(0, 0, o), Err(Error::UnableToObtainSlices));
    assert_eq!(c.bytes.len(), 64);
}

#[test]
fn maybe_update_only_marks_real_changes() {
    let mut c = TreeHashCache::from_bytes(vec![3u8; 64], false, None).unwrap();
    c.maybe_update_chunk(1, &[3u8; 32]).unwrap();
    assert_eq!(c.chunk_modified, vec![false, false]);
    c.maybe_update_chunk(1, &[4u8; 32]).unwrap();
    assert_eq!(c.chunk_modified, vec![false, true]);
    assert_eq!(&c.bytes[32..], &[4u8; 32][..]);
    c.modify_chunk(0, &[3u8; 32]).unwrap();
    assert_eq!(c.chunk_modified, vec![true, true]);
}

#[test]
fn hash_children_is_sha256_of_both() {
    let mut bytes = vec![1u8; 32];
    bytes.extend_from_slice(&[2u8; 32]);
    let c = TreeHashCache::from_bytes(bytes, false, None).unwrap();
    assert_eq!(c.hash_children((0, 1)).unwrap(), sha(&[1u8; 32], &[2u8; 32]));
    assert_eq!(c.hash_children((1, 0)).unwrap(), sha(&[2u8; 32], &[1u8; 32]));
}

#[test]
fn remove_child_schemas() {
    let s = |d: usize| BTreeSchema { depth: d, num_leaves: 1, mixes_in_length: true };
    let mut c = TreeHashCache::from_bytes(vec![0u8; 32], false, None).unwrap();
    c.schemas = vec![s(0), s(1), s(2), s(1), s(0)];
    c.remove_proceeding_child_schemas(1, 0);
    assert_eq!(c.schemas, vec![s(0), s(0)]);
    c.schemas = vec![s(0), s(1), s(2)];
    c.remove_proceeding_child_schemas(1, 1);
    assert_eq!(c.schemas.len(), 3);
    c.remove_proceeding_child_schemas(2, 1);
    assert_eq!(c.schemas, vec![s(0), s(1)]);
}

#[test]
fn reset_clears_flags_and_cursors() {
    let mut c = TreeHashCache::from_bytes(vec![0u8; 96], true, None).unwrap();
    c.chunk_index = 2;
    c.schema_index = 1;
    c.reset_modifications();
    assert_eq!(c.chunk_modified, vec![false; 3]);
    assert_eq!((c.chunk_index, c.schema_index), (0, 0));
}

#[test]
fn merkleize_and_padding() {
    let mut leaves = vec![5u8; 32];
    pad_for_leaf_count(1, &mut leaves);
    assert_eq!(leaves.len(), 32);
    pad_for_leaf_count(3, &mut leaves);
    assert_eq!(leaves.len(), 64);
    let tree = merkleize(leaves);
    assert_eq!(&tree[..32], &sha(&[5u8; 32], &Z)[..]);
    assert_eq!(tree.len(), 96);
    assert!(merkleize(vec![]).is_empty());
}

#[test]
fn length_encoding_is_little_endian() {
    assert_eq!(int_to_bytes32(258), le32(258));
    assert_eq!(int_to_bytes32(0), vec![0u8; 32]);
    assert_eq!(int_to_bytes32(u64::MAX)[..8], [0xffu8; 8]);
}

#[test]
fn add_length_nodes_inserts_root_and_length() {
    let mut c = TreeHashCache::from_bytes(vec![7u8; 32], false, None).unwrap();
    c.add_length_nodes(0..1, 9).unwrap();
    assert_eq!(c.chunk_modified, vec![true, true, true]);
    assert_eq!(&c.bytes[64..], &le32(9)[..]);
    assert_eq!(&c.bytes[..32], &sha(&[7u8; 32], &le32(9))[..]);
}
