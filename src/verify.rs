//! Proof objects and their verification. Verification is pure: it recomputes
//! digests from a proof and compares them with a trusted root digest.
use vstd::prelude::*;
use vstd::string::*;
use crate::errors::VerificationError;
use crate::hash::{empty_root_digest, empty_root_hash, hash_children, hash_leaf, leaf_digest, Digest};
use crate::label::{is_prefix_seq, NodeLabel, LABEL_BITS};
use crate::tree::{collect_membership, fold_path, Node, SiblingProof};
use crate::azks::{
    apply_batch, batch_valid, digest_of_content, insert_batch, lemma_apply_batch_keys,
    lemma_apply_batch_value, lemma_tree_digest, tree_content, tree_root_hash,
};

verus! {

/// Evidence that a leaf with `label` and content hash `hash_val` is in the
/// tree: the siblings along its path, from its parent up to the root.
#[derive(Clone, Debug, PartialEq, Eq)]
pub struct MembershipProof {
    pub label: NodeLabel,
    pub hash_val: Digest,
    pub sibling_proofs: Vec<SiblingProof>,
}

/// Evidence that no leaf has `label`: the first node on the way down towards
/// `label` whose label is not a prefix of it (its label and digest), and the
/// siblings along the path from that node up to the root. `divergent` is
/// `None` for the empty tree.
#[derive(Clone, Debug, PartialEq, Eq)]
pub struct NonMembershipProof {
    pub label: NodeLabel,
    pub divergent: Option<(NodeLabel, Digest)>,
    pub sibling_proofs: Vec<SiblingProof>,
}

/// Evidence that one epoch extends another: the leaves of each.
#[derive(Clone, Debug, PartialEq, Eq)]
pub struct AuditProof {
    pub start_leaves: Vec<Node>,
    pub end_leaves: Vec<Node>,
}

/// Both leaf sets are valid batches whose trees have the given roots, and
/// every leaf of the first is in the second with the same content hash.
pub open spec fn audit_valid(start_root: Seq<u8>, end_root: Seq<u8>, proof: AuditProof) -> bool {
    let s = apply_batch(Map::empty(), proof.start_leaves@);
    let e = apply_batch(Map::empty(), proof.end_leaves@);
    &&& batch_valid(Map::empty(), proof.start_leaves@)
    &&& batch_valid(Map::empty(), proof.end_leaves@)
    &&& digest_of_content(s) == start_root
    &&& digest_of_content(e) == end_root
    &&& s.submap_of(e)
}

/// The proof's path climbs to `root`.
pub open spec fn membership_valid(root: Seq<u8>, proof: MembershipProof) -> bool {
    fold_path(leaf_digest(proof.hash_val@, proof.label), proof.label, proof.sibling_proofs@).0
        == root
}

/// A step of a non-membership path: a parent whose label is a prefix of
/// `target`, left towards the side that `target` takes.
pub open spec fn step_towards(s: SiblingProof, target: NodeLabel) -> bool {
    &&& s.label.wf()
    &&& s.label.label_len < LABEL_BITS
    &&& is_prefix_seq(s.label@, target@)
    &&& s.direction == target@[s.label.label_len as int]
}

/// The proof shows that `root` holds no leaf labelled `proof.label`.
pub open spec fn nonmembership_valid(root: Seq<u8>, proof: NonMembershipProof) -> bool {
    match proof.divergent {
        None => proof.sibling_proofs@.len() == 0 && root == empty_root_digest(),
        Some(d) => {
            &&& proof.label.wf()
            &&& proof.label.is_full()
            &&& d.0.wf()
            &&& !is_prefix_seq(d.0@, proof.label@)
            &&& forall|i: int|
                0 <= i < proof.sibling_proofs@.len() ==> step_towards(
                    #[trigger] proof.sibling_proofs@[i],
                    proof.label,
                )
            &&& fold_path(d.1@, d.0, proof.sibling_proofs@).0 == root
        },
    }
}

/// Byte-wise equality of two digests.
pub fn digests_equal(a: &Digest, b: &Digest) -> (r: bool)
    ensures
        r == (a@ == b@),
{
    let mut i: usize = 0;
    while i < 32
        invariant
            i <= 32,
            forall|j: int| 0 <= j < i ==> a@[j] == b@[j],
        decreases 32 - i,
    {
        if a[i] != b[i] {
            return false;
        }
        i = i + 1;
    }
    assert(a@ =~= b@);
    true
}

/// Climbs `path` from a node with digest `d` and label `l`.
fn climb(d: Digest, l: NodeLabel, path: &Vec<SiblingProof>) -> (r: (Digest, NodeLabel))
    ensures
        (r.0@, r.1) == fold_path(d@, l, path@),
{
    let mut cur = d;
    let mut cur_label = l;
    let mut i: usize = 0;
    while i < path.len()
        invariant
            i <= path@.len(),
            (cur@, cur_label) == fold_path(d@, l, path@.take(i as int)),
        decreases path@.len() - i,
    {
        let s = path[i];
        let next = if s.direction {
            hash_children(&s.sibling_digest, &s.sibling_label, &cur, &cur_label)
        } else {
            hash_children(&cur, &cur_label, &s.sibling_digest, &s.sibling_label)
        };
        assert(path@.take(i + 1).drop_last() =~= path@.take(i as int));
        cur = next;
        cur_label = s.label;
        i = i + 1;
    }
    assert(path@.take(path@.len() as int) =~= path@);
    (cur, cur_label)
}

/// Verifies a membership proof against a root digest.
pub fn verify_membership(root_hash: &Digest, proof: &MembershipProof) -> (r: Result<
    (),
    VerificationError,
>)
    ensures
        r is Ok <==> membership_valid(root_hash@, *proof),
        r matches Err(e) ==> e is MembershipProof,
{
    let leaf = hash_leaf(&proof.hash_val, &proof.label);
    let (computed, _) = climb(leaf, proof.label, &proof.sibling_proofs);
    if digests_equal(&computed, root_hash) {
        Ok(())
    } else {
        Err(
            VerificationError::MembershipProof(
                String::from_str("the computed root digest does not match the given root"),
            ),
        )
    }
}

/// Verifies a non-membership proof against a root digest.
pub fn verify_nonmembership(root_hash: &Digest, proof: &NonMembershipProof) -> (r: Result<
    (),
    VerificationError,
>)
    ensures
        r is Ok <==> nonmembership_valid(root_hash@, *proof),
        r matches Err(e) ==> e is NonMembershipProof,
{
    match proof.divergent {
        None => {
            let empty = empty_root_hash();
            if proof.sibling_proofs.len() == 0 && digests_equal(&empty, root_hash) {
                Ok(())
            } else {
                Err(
                    VerificationError::NonMembershipProof(
                        String::from_str("the tree is not empty"),
                    ),
                )
            }
        },
        Some((dl, dd)) => {
            let target = proof.label;
            if !target.is_valid() || target.label_len != LABEL_BITS || !dl.is_valid() {
                return Err(
                    VerificationError::NonMembershipProof(String::from_str("malformed label")),
                );
            }
            if dl.is_prefix_of(&target) {
                return Err(
                    VerificationError::NonMembershipProof(
                        String::from_str("the divergent node is an ancestor of the label"),
                    ),
                );
            }
            let path = &proof.sibling_proofs;
            let mut i: usize = 0;
            while i < path.len()
                invariant
                    i <= path@.len(),
                    path@ == proof.sibling_proofs@,
                    target == proof.label,
                    target.wf(),
                    target.is_full(),
                    forall|j: int| 0 <= j < i ==> step_towards(#[trigger] path@[j], target),
                decreases path@.len() - i,
            {
                let s = path[i];
                if !s.label.is_valid() || s.label.label_len >= LABEL_BITS || !s.label.is_prefix_of(
                    &target,
                ) || s.direction != target.get_bit(s.label.label_len) {
                    assert(!step_towards(path@[i as int], target));
                    return Err(
                        VerificationError::NonMembershipProof(
                            String::from_str("a step of the path leaves the label's way"),
                        ),
                    );
                }
                i = i + 1;
            }
            let (computed, _) = climb(dd, dl, path);
            if digests_equal(&computed, root_hash) {
                Ok(())
            } else {
                Err(
                    VerificationError::NonMembershipProof(
                        String::from_str("the computed root digest does not match the given root"),
                    ),
                )
            }
        },
    }
}

/// Verifies that the tree with root `end_root` extends the one with root
/// `start_root`: it keeps every leaf, with its content hash.
pub fn verify_append_only(start_root: &Digest, end_root: &Digest, proof: &AuditProof) -> (r:
    Result<(), VerificationError>)
    ensures
        r is Ok <==> audit_valid(start_root@, end_root@, *proof),
        r matches Err(e) ==> e is HistoryProof,
{
    let t1 = match insert_batch(None, &proof.start_leaves) {
        None => {
            return Err(
                VerificationError::HistoryProof(String::from_str("the start leaves are not a valid batch")),
            );
        },
        Some(t) => t,
    };
    let t2 = match insert_batch(None, &proof.end_leaves) {
        None => {
            return Err(
                VerificationError::HistoryProof(String::from_str("the end leaves are not a valid batch")),
            );
        },
        Some(t) => t,
    };
    proof {
        lemma_tree_digest(t1);
        lemma_tree_digest(t2);
        assert(tree_content(None) == Map::<Seq<bool>, Seq<u8>>::empty());
    }
    let d1 = tree_root_hash(&t1);
    if !digests_equal(&d1, start_root) {
        return Err(
            VerificationError::HistoryProof(String::from_str("the start root does not match")),
        );
    }
    let d2 = tree_root_hash(&t2);
    if !digests_equal(&d2, end_root) {
        return Err(VerificationError::HistoryProof(String::from_str("the end root does not match")));
    }
    let ghost ms = apply_batch(Map::empty(), proof.start_leaves@);
    let ghost me = apply_batch(Map::empty(), proof.end_leaves@);
    let leaves = &proof.start_leaves;
    let mut j: usize = 0;
    while j < leaves.len()
        invariant
            leaves@ == proof.start_leaves@,
            ms == apply_batch(Map::empty(), leaves@),
            me == apply_batch(Map::empty(), proof.end_leaves@),
            batch_valid(Map::empty(), leaves@),
            tree_content(t2) == me,
            crate::azks::tree_wf(t2),
            j <= leaves@.len(),
            forall|i: int|
                0 <= i < j ==> me.contains_key((#[trigger] leaves@[i]).label@) && me[leaves@[
                    i
                ].label@] == leaves@[i].hash@,
        decreases leaves@.len() - j,
    {
        let leaf = leaves[j];
        proof {
            lemma_apply_batch_value(Map::empty(), leaves@, j as int);
        }
        let found = match &t2 {
            None => None,
            Some(root) => {
                let mut scratch: Vec<SiblingProof> = Vec::new();
                collect_membership(root, &leaf.label, &mut scratch)
            },
        };
        let kept = match found {
            None => false,
            Some((_, h)) => digests_equal(&h, &leaf.hash),
        };
        if !kept {
            assert(!ms.submap_of(me)) by {
                assert(leaf == leaves@[j as int]);
                assert(ms.contains_key(leaf.label@));
                if me.contains_key(leaf.label@) {
                    assert(me[leaf.label@] != ms[leaf.label@]);
                }
            }

            return Err(
                VerificationError::HistoryProof(String::from_str("a leaf of the start epoch is missing")),
            );
        }
        j = j + 1;
    }
    proof {
        assert forall|k: Seq<bool>| #[trigger] ms.dom().contains(k) implies me.dom().contains(k)
            && ms[k] == me[k] by {
            lemma_apply_batch_keys(Map::empty(), leaves@, k);
            let i = choose|i: int| 0 <= i < leaves@.len() && (#[trigger] leaves@[i]).label@ == k;
            lemma_apply_batch_value(Map::empty(), leaves@, i);
        }
    }
    Ok(())
}

} // verus!
