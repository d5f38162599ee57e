use akd::azks::Azks;
use akd::errors::{AzksError, VerificationError};
use akd::label::NodeLabel;
use akd::tree::Node;
use akd::verify::{verify_append_only, verify_membership, verify_nonmembership};

fn content_hash(seed: u8) -> [u8; 32] {
    *blake3::hash(&[seed, 0x5a, seed]).as_bytes()
}

fn label_from(seed: u8) -> NodeLabel {
    NodeLabel::new(*blake3::hash(&[seed]).as_bytes())
}

fn leaf(seed: u8) -> Node {
    Node { label: label_from(seed), hash: content_hash(seed) }
}

#[test]
fn scenario_two_epochs() {
    let mut azks = Azks::new();
    let low = NodeLabel::new([0x00u8; 32]);
    let high = NodeLabel::new([0xFFu8; 32]);
    let h1 = content_hash(1);
    let h2 = content_hash(2);
    assert_eq!(azks.batch_insert_leaves(vec![Node { label: low, hash: h1 }]), Ok(1));
    let r1 = azks.get_root_hash(1).unwrap();
    assert_eq!(azks.batch_insert_leaves(vec![Node { label: high, hash: h2 }]), Ok(2));
    let r2 = azks.get_root_hash(2).unwrap();
    assert_ne!(r1, r2);
    let p_low = azks.get_membership_proof(low, 1).unwrap();
    assert!(verify_membership(&r1, &p_low).is_ok());
    let p_high = azks.get_membership_proof(high, 2).unwrap();
    assert!(verify_membership(&r2, &p_high).is_ok());
    assert!(matches!(
        verify_membership(&r1, &p_high),
        Err(VerificationError::MembershipProof(_))
    ));
}

#[test]
fn round_trip_every_inserted_label() {
    let mut azks = Azks::new();
    let nodes: Vec<Node> = (0u8..40).map(leaf).collect();
    assert_eq!(azks.batch_insert_leaves(nodes.clone()), Ok(1));
    let root = azks.get_root_hash(1).unwrap();
    for n in &nodes {
        let p = azks.get_membership_proof(n.label, 1).unwrap();
        assert_eq!(p.label, n.label);
        assert_eq!(p.hash_val, n.hash);
        assert!(verify_membership(&root, &p).is_ok());
    }
    assert_eq!(azks.get_membership_proof(label_from(200), 1), Err(AzksError::LabelNotFound));
}

#[test]
fn append_only_across_epochs() {
    let mut azks = Azks::new();
    let first: Vec<Node> = (0u8..10).map(leaf).collect();
    let second: Vec<Node> = (10u8..25).map(leaf).collect();
    assert_eq!(azks.batch_insert_leaves(first.clone()), Ok(1));
    assert_eq!(azks.batch_insert_leaves(second), Ok(2));
    let r1 = azks.get_root_hash(1).unwrap();
    let r2 = azks.get_root_hash(2).unwrap();
    for n in &first {
        let p1 = azks.get_membership_proof(n.label, 1).unwrap();
        assert!(verify_membership(&r1, &p1).is_ok());
        let p2 = azks.get_membership_proof(n.label, 2).unwrap();
        assert_eq!(p2.hash_val, n.hash);
        assert!(verify_membership(&r2, &p2).is_ok());
    }
    // the old snapshot is untouched by the later epoch
    assert_eq!(azks.get_membership_proof(label_from(12), 1), Err(AzksError::LabelNotFound));
}

#[test]
fn nonmembership_for_existing_label_fails() {
    let mut azks = Azks::new();
    azks.batch_insert_leaves((0u8..5).map(leaf).collect()).unwrap();
    assert_eq!(
        azks.get_non_membership_proof(label_from(3), 1),
        Err(AzksError::LabelExists)
    );
}

#[test]
fn membership_for_missing_label_fails() {
    let mut azks = Azks::new();
    azks.batch_insert_leaves((0u8..5).map(leaf).collect()).unwrap();
    assert_eq!(azks.get_membership_proof(label_from(9), 1), Err(AzksError::LabelNotFound));
    assert_eq!(azks.get_membership_proof(label_from(1), 0), Err(AzksError::LabelNotFound));
    let short = NodeLabel { label_val: [0u8; 32], label_len: 8 };
    assert_eq!(azks.get_membership_proof(short, 1), Err(AzksError::LabelNotFound));
}

#[test]
fn tampered_sibling_digest_fails() {
    let mut azks = Azks::new();
    azks.batch_insert_leaves((0u8..8).map(leaf).collect()).unwrap();
    let root = azks.get_root_hash(1).unwrap();
    let mut p = azks.get_membership_proof(label_from(4), 1).unwrap();
    assert!(!p.sibling_proofs.is_empty());
    p.sibling_proofs[0].sibling_digest[0] ^= 1;
    assert!(matches!(
        verify_membership(&root, &p),
        Err(VerificationError::MembershipProof(_))
    ));
}

#[test]
fn tampered_content_hash_fails() {
    let mut azks = Azks::new();
    azks.batch_insert_leaves((0u8..8).map(leaf).collect()).unwrap();
    let root = azks.get_root_hash(1).unwrap();
    let mut p = azks.get_membership_proof(label_from(4), 1).unwrap();
    p.hash_val[31] ^= 0x80;
    assert!(verify_membership(&root, &p).is_err());
}

#[test]
fn nonmembership_proof_verifies() {
    let mut azks = Azks::new();
    azks.batch_insert_leaves((0u8..30).map(leaf).collect()).unwrap();
    let root = azks.get_root_hash(1).unwrap();
    for seed in 100u8..120 {
        let p = azks.get_non_membership_proof(label_from(seed), 1).unwrap();
        assert!(verify_nonmembership(&root, &p).is_ok());
    }
}

#[test]
fn nonmembership_in_empty_tree() {
    let azks = Azks::new();
    let root = azks.get_root_hash(0).unwrap();
    assert_eq!(root, *blake3::hash(&[]).as_bytes());
    let p = azks.get_non_membership_proof(label_from(1), 0).unwrap();
    assert!(p.divergent.is_none());
    assert!(verify_nonmembership(&root, &p).is_ok());
}

#[test]
fn nonmembership_single_leaf() {
    let mut azks = Azks::new();
    azks.batch_insert_leaves(vec![leaf(1)]).unwrap();
    let root = azks.get_root_hash(1).unwrap();
    let p = azks.get_non_membership_proof(label_from(2), 1).unwrap();
    assert!(p.sibling_proofs.is_empty());
    assert!(verify_nonmembership(&root, &p).is_ok());
}

#[test]
fn nonmembership_against_wrong_root_fails() {
    let mut azks = Azks::new();
    azks.batch_insert_leaves((0u8..6).map(leaf).collect()).unwrap();
    azks.batch_insert_leaves((6u8..12).map(leaf).collect()).unwrap();
    let r1 = azks.get_root_hash(1).unwrap();
    let p = azks.get_non_membership_proof(label_from(9), 1).unwrap();
    assert!(verify_nonmembership(&r1, &p).is_ok());
    let r2 = azks.get_root_hash(2).unwrap();
    assert!(matches!(
        verify_nonmembership(&r2, &p),
        Err(VerificationError::NonMembershipProof(_))
    ));
}

#[test]
fn nonmembership_with_redirected_path_fails() {
    let mut azks = Azks::new();
    azks.batch_insert_leaves((0u8..16).map(leaf).collect()).unwrap();
    let root = azks.get_root_hash(1).unwrap();
    let mut p = azks.get_non_membership_proof(label_from(77), 1).unwrap();
    assert!(!p.sibling_proofs.is_empty());
    let last = p.sibling_proofs.len() - 1;
    p.sibling_proofs[last].direction = !p.sibling_proofs[last].direction;
    assert!(verify_nonmembership(&root, &p).is_err());
}

#[test]
fn duplicate_in_batch_is_rejected() {
    let mut azks = Azks::new();
    azks.batch_insert_leaves(vec![leaf(1)]).unwrap();
    let before = azks.get_root_hash(1).unwrap();
    assert_eq!(
        azks.batch_insert_leaves(vec![leaf(2), leaf(3), leaf(2)]),
        Err(AzksError::InvalidBatch)
    );
    assert_eq!(azks.get_latest_epoch(), 1);
    assert_eq!(azks.get_root_hash(1).unwrap(), before);
    assert_eq!(azks.get_root_hash(2), Err(AzksError::EpochNotFound));
}

#[test]
fn existing_label_is_rejected() {
    let mut azks = Azks::new();
    azks.batch_insert_leaves(vec![leaf(1), leaf(2)]).unwrap();
    let again = Node { label: label_from(2), hash: content_hash(9) };
    assert_eq!(azks.batch_insert_leaves(vec![leaf(3), again]), Err(AzksError::InvalidBatch));
    assert_eq!(azks.get_latest_epoch(), 1);
    assert_eq!(azks.get_membership_proof(label_from(3), 1), Err(AzksError::LabelNotFound));
}

#[test]
fn short_label_is_rejected() {
    let mut azks = Azks::new();
    let short = NodeLabel { label_val: [0u8; 32], label_len: 100 };
    assert_eq!(
        azks.batch_insert_leaves(vec![Node { label: short, hash: content_hash(1) }]),
        Err(AzksError::InvalidBatch)
    );
    let noisy = NodeLabel { label_val: [0xFFu8; 32], label_len: 100 };
    assert!(!noisy.is_valid());
    assert_eq!(azks.get_latest_epoch(), 0);
}

#[test]
fn empty_batch_seals_an_epoch() {
    let mut azks = Azks::new();
    assert_eq!(azks.batch_insert_leaves(vec![]), Ok(1));
    assert_eq!(azks.get_root_hash(1).unwrap(), azks.get_root_hash(0).unwrap());
}

#[test]
fn epoch_not_found() {
    let azks = Azks::new();
    assert_eq!(azks.get_root_hash(1), Err(AzksError::EpochNotFound));
    assert_eq!(azks.get_membership_proof(label_from(1), 3), Err(AzksError::EpochNotFound));
    assert_eq!(azks.get_non_membership_proof(label_from(1), 3), Err(AzksError::EpochNotFound));
}

#[test]
fn single_leaf_root_digest() {
    let mut azks = Azks::new();
    let label = NodeLabel::new([0xABu8; 32]);
    let h = content_hash(7);
    azks.batch_insert_leaves(vec![Node { label, hash: h }]).unwrap();
    let mut input = Vec::new();
    input.extend_from_slice(&h);
    input.extend_from_slice(&256u32.to_be_bytes());
    input.extend_from_slice(&[0xABu8; 32]);
    assert_eq!(azks.get_root_hash(1).unwrap(), *blake3::hash(&input).as_bytes());
}

#[test]
fn two_leaf_root_digest() {
    let mut azks = Azks::new();
    let low = NodeLabel::new([0x00u8; 32]);
    let high = NodeLabel::new([0xFFu8; 32]);
    let (h1, h2) = (content_hash(1), content_hash(2));
    azks.batch_insert_leaves(vec![Node { label: high, hash: h2 }, Node { label: low, hash: h1 }])
        .unwrap();
    let leaf_digest = |h: &[u8; 32], v: u8| {
        let mut input = Vec::new();
        input.extend_from_slice(h);
        input.extend_from_slice(&256u32.to_be_bytes());
        input.extend_from_slice(&[v; 32]);
        *blake3::hash(&input).as_bytes()
    };
    let mut input = Vec::new();
    input.extend_from_slice(&leaf_digest(&h1, 0x00));
    input.extend_from_slice(&256u32.to_be_bytes());
    input.extend_from_slice(&[0x00u8; 32]);
    input.extend_from_slice(&leaf_digest(&h2, 0xFF));
    input.extend_from_slice(&256u32.to_be_bytes());
    input.extend_from_slice(&[0xFFu8; 32]);
    assert_eq!(azks.get_root_hash(1).unwrap(), *blake3::hash(&input).as_bytes());
}

#[test]
fn audit_proof_verifies() {
    let mut azks = Azks::new();
    azks.batch_insert_leaves((0u8..12).map(leaf).collect()).unwrap();
    azks.batch_insert_leaves((12u8..20).map(leaf).collect()).unwrap();
    azks.batch_insert_leaves((20u8..23).map(leaf).collect()).unwrap();
    let r1 = azks.get_root_hash(1).unwrap();
    let r3 = azks.get_root_hash(3).unwrap();
    let p = azks.get_audit_proof(1, 3).unwrap();
    assert_eq!(p.start_leaves.len(), 12);
    assert_eq!(p.end_leaves.len(), 23);
    assert!(verify_append_only(&r1, &r3, &p).is_ok());
    let p0 = azks.get_audit_proof(0, 2).unwrap();
    assert!(p0.start_leaves.is_empty());
    let r0 = azks.get_root_hash(0).unwrap();
    let r2 = azks.get_root_hash(2).unwrap();
    assert!(verify_append_only(&r0, &r2, &p0).is_ok());
    assert!(matches!(
        verify_append_only(&r3, &r1, &p),
        Err(VerificationError::HistoryProof(_))
    ));
}

#[test]
fn audit_proof_range_errors() {
    let mut azks = Azks::new();
    azks.batch_insert_leaves(vec![leaf(1)]).unwrap();
    assert_eq!(azks.get_audit_proof(1, 0), Err(AzksError::EpochNotFound));
    assert_eq!(azks.get_audit_proof(0, 2), Err(AzksError::EpochNotFound));
}

#[test]
fn audit_proof_with_dropped_leaf_fails() {
    let mut azks = Azks::new();
    azks.batch_insert_leaves((0u8..6).map(leaf).collect()).unwrap();
    azks.batch_insert_leaves((6u8..9).map(leaf).collect()).unwrap();
    let r1 = azks.get_root_hash(1).unwrap();
    let r2 = azks.get_root_hash(2).unwrap();
    let mut p = azks.get_audit_proof(1, 2).unwrap();
    let idx = p.end_leaves.iter().position(|n| n.label == label_from(3)).unwrap();
    p.end_leaves[idx].hash = content_hash(99);
    assert!(verify_append_only(&r1, &r2, &p).is_err());
    let mut q = azks.get_audit_proof(1, 2).unwrap();
    let first = q.start_leaves[0];
    q.start_leaves.push(first);
    assert!(matches!(
        verify_append_only(&r1, &r2, &q),
        Err(VerificationError::HistoryProof(_))
    ));
}

#[test]
fn root_does_not_depend_on_insertion_order() {
    let mut a = Azks::new();
    let mut b = Azks::new();
    let forward: Vec<Node> = (0u8..30).map(leaf).collect();
    let mut backward = forward.clone();
    backward.reverse();
    a.batch_insert_leaves(forward).unwrap();
    b.batch_insert_leaves(backward[..10].to_vec()).unwrap();
    b.batch_insert_leaves(backward[10..].to_vec()).unwrap();
    assert_eq!(a.get_root_hash(1).unwrap(), b.get_root_hash(2).unwrap());
}
