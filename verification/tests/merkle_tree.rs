use merkle::merkle::{somehow_hash, Digest, MerkleTree, Plaintext};

use sha2::Digest as ShaDigest;

fn records(strs: &[&str]) -> Vec<Vec<u8>> {
    strs.iter().map(|s| s.as_bytes().to_vec()).collect()
}

fn sha(bytes: &[u8]) -> Vec<u8> {
    let mut hasher = sha2::Sha256::new();
    hasher.update(bytes);
    hasher.finalize().to_vec()
}

fn build(strs: &[&str]) -> MerkleTree {
    MerkleTree::new(records(strs)).expect("power-of-two record count")
}

#[test]
fn hash_of_a_has_known_hex() {
    let d = somehow_hash(b"a");
    assert_eq!(
        d.to_hex(),
        "ca978112ca1bbdcafac231b39a23dc4da786eff8147c4e72b9807785afee48bb"
    );
}

#[test]
fn hash_matches_outside_hasher() {
    let d = somehow_hash(b"some record");
    assert_eq!(d.0, sha(b"some record"));
}

#[test]
fn to_hex_matches_outside_encoder() {
    let d = Digest(vec![0u8, 1, 0x0f, 0x10, 0xab, 0xff]);
    assert_eq!(d.to_hex(), hex::encode(vec![0u8, 1, 0x0f, 0x10, 0xab, 0xff]));
    assert_eq!(d.to_hex(), "00010f10abff");
}

#[test]
fn from_bytes_conversions_keep_bytes() {
    let p = Plaintext::from(vec![1u8, 2, 3]);
    assert_eq!(p.0, vec![1u8, 2, 3]);
    let d = Digest::from(vec![4u8, 5]);
    assert_eq!(d.0, vec![4u8, 5]);
}

#[test]
fn render_shows_nested_hex_digests() {
    let tree = build(&["a", "b"]);
    let expected = format!("({}, {})", hex::encode(sha(b"a")), hex::encode(sha(b"b")));
    assert_eq!(tree.render(), expected);
}

#[test]
fn render_of_leaf_is_its_hex_digest() {
    let tree = build(&["a"]);
    assert_eq!(tree.render(), hex::encode(sha(b"a")));
}

#[test]
fn digest_equality_is_byte_wise() {
    assert!(Digest(vec![1, 2, 3]) == Digest(vec![1, 2, 3]));
    assert!(Digest(vec![1, 2, 3]) != Digest(vec![1, 2, 4]));
    assert!(Digest(vec![1, 2]) != Digest(vec![1, 2, 3]));
}

#[test]
fn concat_digests_keeps_order() {
    let p = merkle::merkle::concat_digests(Digest(vec![1, 2]), Digest(vec![3]));
    assert_eq!(p.0, vec![1, 2, 3]);
}

#[test]
fn concat_trees_concatenates_roots() {
    let left = build(&["a"]);
    let right = build(&["b"]);
    let p = merkle::merkle::concat_trees(&left, &right);
    let mut expected = sha(b"a");
    expected.extend(sha(b"b"));
    assert_eq!(p.0, expected);
}

#[test]
fn two_record_root_is_hash_of_concatenated_leaf_hashes() {
    let tree = build(&["a", "b"]);
    let mut cat = sha(b"a");
    cat.extend(sha(b"b"));
    assert_eq!(tree.root().0, sha(&cat));
}

#[test]
fn build_is_deterministic() {
    let t1 = build(&["a", "b", "c", "d"]);
    let t2 = build(&["a", "b", "c", "d"]);
    assert_eq!(t1.root().0, t2.root().0);
}

#[test]
fn single_byte_change_changes_root() {
    let base = build(&["aa", "bb"]).root();
    assert_ne!(base.0, build(&["ab", "bb"]).root().0);
    assert_ne!(base.0, build(&["aa", "bc"]).root().0);
}

#[test]
fn height_is_log2_of_record_count() {
    assert_eq!(build(&["a"]).height(), 0);
    assert_eq!(build(&["a", "b"]).height(), 1);
    assert_eq!(build(&["a", "b", "c", "d"]).height(), 2);
    assert_eq!(build(&["a", "b", "c", "d", "e", "f", "g", "h"]).height(), 3);
}

#[test]
fn flatten_lists_all_nodes_in_pre_order() {
    let nodes = MerkleTree::flatten(build(&["a", "b", "c", "d"]));
    assert_eq!(nodes.len(), 7);
    let tree = build(&["a", "b", "c", "d"]);
    assert_eq!(nodes[0].root().0, tree.root().0);
    assert_eq!(nodes[2].root().0, sha(b"a"));
    assert_eq!(nodes[3].root().0, sha(b"b"));
    assert_eq!(nodes[5].root().0, sha(b"c"));
    assert_eq!(nodes[6].root().0, sha(b"d"));
}

#[test]
fn flatten_of_single_leaf_is_one_node() {
    let nodes = MerkleTree::flatten(build(&["a"]));
    assert_eq!(nodes.len(), 1);
    assert_eq!(nodes[0].root().0, sha(b"a"));
}

#[test]
fn leaves_are_record_hashes_in_order() {
    let tree = build(&["a", "b", "c", "d"]);
    let leaves = tree.leaves();
    assert_eq!(leaves.len(), 4);
    assert_eq!(leaves[0].0, sha(b"a"));
    assert_eq!(leaves[1].0, sha(b"b"));
    assert_eq!(leaves[2].0, sha(b"c"));
    assert_eq!(leaves[3].0, sha(b"d"));
    assert_eq!(tree.leaf_count(), 4);
}

#[test]
fn duplicate_preserves_root() {
    let tree = build(&["a", "b"]);
    assert_eq!(tree.duplicate().root().0, tree.root().0);
}

#[test]
fn verify_two_records_with_correct_sibling() {
    let tree = build(&["a", "b"]);
    let proof = vec![somehow_hash(b"b")];
    assert!(tree.verify(&Plaintext(b"a".to_vec()), &proof));
}

#[test]
fn verify_two_records_with_wrong_sibling() {
    let tree = build(&["a", "b"]);
    let proof = vec![somehow_hash(b"a")];
    assert!(!tree.verify(&Plaintext(b"a".to_vec()), &proof));
}

#[test]
fn verify_rejects_non_member() {
    let tree = build(&["a", "b"]);
    let proof = vec![somehow_hash(b"b")];
    assert!(!tree.verify(&Plaintext(b"c".to_vec()), &proof));
}

#[test]
fn verify_right_positioned_leaf() {
    let tree = build(&["a", "b"]);
    let proof = vec![somehow_hash(b"a")];
    assert!(tree.verify(&Plaintext(b"b".to_vec()), &proof));
}

#[test]
fn four_record_proof_for_c_has_expected_entries() {
    let tree = build(&["a", "b", "c", "d"]);
    assert_eq!(tree.height(), 2);
    let proof = tree.proof_for(2);
    assert_eq!(proof.len(), 2);
    assert_eq!(proof[0].0, sha(b"d"));
    let mut cat = sha(b"a");
    cat.extend(sha(b"b"));
    assert_eq!(proof[1].0, sha(&cat));
    assert!(tree.verify(&Plaintext(b"c".to_vec()), &proof));
}

#[test]
fn derived_proofs_verify_at_every_position() {
    let names = ["a", "b", "c", "d", "e", "f", "g", "h"];
    let tree = build(&names);
    for (i, name) in names.iter().enumerate() {
        let proof = tree.proof_for(i);
        assert!(tree.verify(&Plaintext(name.as_bytes().to_vec()), &proof));
    }
}

#[test]
fn altered_proof_digest_is_rejected() {
    let tree = build(&["a", "b", "c", "d"]);
    let mut proof = tree.proof_for(2);
    proof[0].0[0] ^= 1;
    assert!(!tree.verify(&Plaintext(b"c".to_vec()), &proof));
}

#[test]
fn proof_for_other_leaf_is_rejected() {
    let tree = build(&["a", "b", "c", "d"]);
    let proof_for_a = tree.proof_for(0);
    assert!(!tree.verify(&Plaintext(b"c".to_vec()), &proof_for_a));
}

#[test]
fn wrong_length_proof_is_rejected() {
    let tree = build(&["a", "b"]);
    let empty: Vec<Digest> = Vec::new();
    assert!(!tree.verify(&Plaintext(b"a".to_vec()), &empty));
    let long = vec![somehow_hash(b"b"), somehow_hash(b"b")];
    assert!(!tree.verify(&Plaintext(b"a".to_vec()), &long));
}
