//! The compressed binary trie. Nodes are immutable and shared through `Rc`:
//! an insertion copies only the path from the root to the new leaf, so every
//! earlier root stays a complete snapshot of its epoch.
use vstd::prelude::*;
use std::rc::Rc;
use crate::hash::{hash_children, hash_leaf, leaf_digest, parent_digest, Digest};
use crate::label::{is_prefix_seq, lemma_common_prefix_len, lemma_label_view_eq, NodeLabel, LABEL_BITS};

verus! {

/// A leaf to insert: a full-length label and the hash of its content.
#[derive(Clone, Copy, Debug, PartialEq, Eq)]
pub struct Node {
    pub label: NodeLabel,
    pub hash: Digest,
}

/// A trie node. `digest` is the node's own digest: for a leaf, that of its
/// label and content hash; for an interior node, that of its two children.
pub enum TreeNode {
    Leaf { label: NodeLabel, hash: Digest, digest: Digest },
    Interior { label: NodeLabel, digest: Digest, left: Rc<TreeNode>, right: Rc<TreeNode> },
}

/// One step of a path towards the root: the parent's label, the other
/// child's label and digest, and whether the path comes up through the
/// parent's right child.
#[derive(Clone, Copy, Debug, PartialEq, Eq)]
pub struct SiblingProof {
    pub label: NodeLabel,
    pub sibling_label: NodeLabel,
    pub sibling_digest: Digest,
    pub direction: bool,
}

/// Digest of the parent reached by `step` from a child with digest `d` and label `l`.
pub open spec fn step_digest(d: Seq<u8>, l: NodeLabel, step: SiblingProof) -> Seq<u8> {
    if step.direction {
        parent_digest(step.sibling_digest@, step.sibling_label, d, l)
    } else {
        parent_digest(d, l, step.sibling_digest@, step.sibling_label)
    }
}

/// Digest and label reached by climbing `path` (nearest the start first) from
/// a node with digest `d` and label `l`.
pub open spec fn fold_path(d: Seq<u8>, l: NodeLabel, path: Seq<SiblingProof>) -> (Seq<u8>, NodeLabel)
    decreases path.len(),
{
    if path.len() == 0 {
        (d, l)
    } else {
        let below = fold_path(d, l, path.drop_last());
        (step_digest(below.0, below.1, path.last()), path.last().label)
    }
}

impl TreeNode {
    pub open spec fn label(&self) -> NodeLabel {
        match self {
            TreeNode::Leaf { label, .. } => *label,
            TreeNode::Interior { label, .. } => *label,
        }
    }

    pub open spec fn digest(&self) -> Seq<u8> {
        match self {
            TreeNode::Leaf { digest, .. } => digest@,
            TreeNode::Interior { digest, .. } => digest@,
        }
    }

    /// The leaves below this node: label bits to content hash.
    pub open spec fn content(&self) -> Map<Seq<bool>, Seq<u8>>
        decreases self,
    {
        match self {
            TreeNode::Leaf { label, hash, .. } => map![label@ => hash@],
            TreeNode::Interior { left, right, .. } => left.content().union_prefer_right(
                right.content(),
            ),
        }
    }

    /// Leaves carry full labels; an interior node's label is a prefix of every
    /// leaf below it, its left leaves have a zero and its right leaves a one at
    /// the bit right after it; every stored digest is the one its node should have.
    pub open spec fn wf(&self) -> bool
        decreases self,
    {
        match self {
            TreeNode::Leaf { label, hash, digest } => {
                &&& label.wf()
                &&& label.is_full()
                &&& digest@ == leaf_digest(hash@, *label)
            },
            TreeNode::Interior { label, digest, left, right } => {
                &&& label.wf()
                &&& label.label_len < LABEL_BITS
                &&& left.wf()
                &&& right.wf()
                &&& digest@ == parent_digest(left.digest(), left.label(), right.digest(), right.label())
                &&& forall|k: Seq<bool>| #[trigger]
                    left.content().contains_key(k) ==> is_prefix_seq(label@, k) && k.len()
                        == 256 && !k[label.label_len as int]
                &&& forall|k: Seq<bool>| #[trigger]
                    right.content().contains_key(k) ==> is_prefix_seq(label@, k) && k.len()
                        == 256 && k[label.label_len as int]
            },
        }
    }

    /// The path that a membership proof for `lab` records, from the leaf's
    /// parent up to this node.
    pub open spec fn path_of(&self, lab: Seq<bool>) -> Seq<SiblingProof>
        decreases self,
    {
        match self {
            TreeNode::Leaf { .. } => Seq::empty(),
            TreeNode::Interior { label, digest, left, right } => {
                if lab[label.label_len as int] {
                    right.path_of(lab).push(
                        SiblingProof {
                            label: *label,
                            sibling_label: left.label(),
                            sibling_digest: left.digest_bytes(),
                            direction: true,
                        },
                    )
                } else {
                    left.path_of(lab).push(
                        SiblingProof {
                            label: *label,
                            sibling_label: right.label(),
                            sibling_digest: right.digest_bytes(),
                            direction: false,
                        },
                    )
                }
            },
        }
    }

    pub open spec fn digest_bytes(&self) -> Digest {
        match self {
            TreeNode::Leaf { digest, .. } => *digest,
            TreeNode::Interior { digest, .. } => *digest,
        }
    }

    /// The first node on the way down towards `lab` whose label is not a
    /// prefix of `lab`, if the way ends at no leaf.
    pub open spec fn divergent_of(&self, lab: Seq<bool>) -> Option<NodeLabel>
        decreases self,
    {
        if !is_prefix_seq(self.label()@, lab) {
            Some(self.label())
        } else {
            match self {
                TreeNode::Leaf { .. } => None,
                TreeNode::Interior { label, left, right, .. } => if lab[label.label_len as int] {
                    right.divergent_of(lab)
                } else {
                    left.divergent_of(lab)
                },
            }
        }
    }

    /// The path that a non-membership proof for `lab` records, from the
    /// divergent node's parent up to this node.
    pub open spec fn divergent_path_of(&self, lab: Seq<bool>) -> Seq<SiblingProof>
        decreases self,
    {
        if !is_prefix_seq(self.label()@, lab) {
            Seq::empty()
        } else {
            match self {
                TreeNode::Leaf { .. } => Seq::empty(),
                TreeNode::Interior { label, left, right, .. } => {
                    if lab[label.label_len as int] {
                        right.divergent_path_of(lab).push(
                            SiblingProof {
                                label: *label,
                                sibling_label: left.label(),
                                sibling_digest: left.digest_bytes(),
                                direction: true,
                            },
                        )
                    } else {
                        left.divergent_path_of(lab).push(
                            SiblingProof {
                                label: *label,
                                sibling_label: right.label(),
                                sibling_digest: right.digest_bytes(),
                                direction: false,
                            },
                        )
                    }
                },
            }
        }
    }

    /// Label of the leaf that the way down towards `lab` ends at.
    pub open spec fn leaf_label_of(&self, lab: Seq<bool>) -> NodeLabel
        decreases self,
    {
        match self {
            TreeNode::Leaf { label, .. } => *label,
            TreeNode::Interior { label, left, right, .. } => if lab[label.label_len as int] {
                right.leaf_label_of(lab)
            } else {
                left.leaf_label_of(lab)
            },
        }
    }

    pub fn get_label(&self) -> (r: NodeLabel)
        ensures
            r == self.label(),
    {
        match self {
            TreeNode::Leaf { label, .. } => *label,
            TreeNode::Interior { label, .. } => *label,
        }
    }

    pub fn get_digest(&self) -> (r: Digest)
        ensures
            r == self.digest_bytes(),
            r@ == self.digest(),
    {
        match self {
            TreeNode::Leaf { digest, .. } => *digest,
            TreeNode::Interior { digest, .. } => *digest,
        }
    }
}

/// Every leaf below a well-formed node has a full label that extends the node's label.
pub proof fn lemma_content_under_label(n: &TreeNode)
    requires
        n.wf(),
    ensures
        forall|k: Seq<bool>| #[trigger]
            n.content().contains_key(k) ==> is_prefix_seq(n.label()@, k) && k.len() == 256,
        n.label().wf(),
    decreases n,
{
    match n {
        TreeNode::Leaf { label, .. } => {
            assert forall|k: Seq<bool>| #[trigger]
                n.content().contains_key(k) implies is_prefix_seq(n.label()@, k) && k.len()
                == 256 by {
                assert(k == label@);
            }
        },
        TreeNode::Interior { left, right, .. } => {
            assert forall|k: Seq<bool>| #[trigger]
                n.content().contains_key(k) implies is_prefix_seq(n.label()@, k) && k.len()
                == 256 by {
                if left.content().contains_key(k) {
                } else {
                    assert(right.content().contains_key(k));
                }
            }
        },
    }
}

/// A well-formed node has at least one leaf.
pub proof fn lemma_content_nonempty(n: &TreeNode)
    requires
        n.wf(),
    ensures
        exists|k: Seq<bool>| #[trigger] n.content().contains_key(k),
    decreases n,
{
    match n {
        TreeNode::Leaf { label, .. } => {
            assert(n.content().contains_key(label@));
        },
        TreeNode::Interior { left, .. } => {
            lemma_content_nonempty(left);
            let k = choose|k: Seq<bool>| #[trigger] left.content().contains_key(k);
            assert(n.content().contains_key(k));
        },
    }
}

/// Two leaves of an interior node, one on each side.
proof fn lemma_two_sides(n: &TreeNode) -> (r: (Seq<bool>, Seq<bool>))
    requires
        n.wf(),
        n is Interior,
    ensures
        n.content().contains_key(r.0),
        n.content().contains_key(r.1),
        !r.0[n.label().label_len as int],
        r.1[n.label().label_len as int],
        is_prefix_seq(n.label()@, r.0),
        is_prefix_seq(n.label()@, r.1),
{
    match n {
        TreeNode::Leaf { .. } => arbitrary(),
        TreeNode::Interior { left, right, .. } => {
            lemma_content_nonempty(left);
            lemma_content_nonempty(right);
            let kl = choose|k: Seq<bool>| #[trigger] left.content().contains_key(k);
            let kr = choose|k: Seq<bool>| #[trigger] right.content().contains_key(k);
            (kl, kr)
        },
    }
}

/// The trie is canonical: two well-formed nodes with the same leaves have the
/// same label and the same digest, whatever order the leaves came in.
pub proof fn lemma_digest_canonical(t1: &TreeNode, t2: &TreeNode)
    requires
        t1.wf(),
        t2.wf(),
        t1.content() == t2.content(),
    ensures
        t1.label() == t2.label(),
        t1.digest() == t2.digest(),
    decreases t1,
{
    lemma_content_under_label(t1);
    lemma_content_under_label(t2);
    match (t1, t2) {
        (TreeNode::Leaf { label: l1, hash: h1, .. }, TreeNode::Leaf { label: l2, hash: h2, .. }) => {
            assert(t1.content().contains_key(l1@));
            assert(t2.content().contains_key(l1@));
            assert(l1@ == l2@);
            lemma_label_view_eq(*l1, *l2);
            assert(h1@ == t1.content()[l1@]);
        },
        (TreeNode::Leaf { label: l1, .. }, TreeNode::Interior { .. }) => {
            let (a, b) = lemma_two_sides(t2);
            assert(t1.content().contains_key(a) && t1.content().contains_key(b));
            assert(a == l1@ && b == l1@);
        },
        (TreeNode::Interior { .. }, TreeNode::Leaf { label: l2, .. }) => {
            let (a, b) = lemma_two_sides(t1);
            assert(t2.content().contains_key(a) && t2.content().contains_key(b));
            assert(a == l2@ && b == l2@);
        },
        (
            TreeNode::Interior { label: la, left: left1, right: right1, .. },
            TreeNode::Interior { label: lb, left: left2, right: right2, .. },
        ) => {
            let (a1, b1) = lemma_two_sides(t1);
            let (a2, b2) = lemma_two_sides(t2);
            let n1 = la.label_len as int;
            let n2 = lb.label_len as int;
            if n1 < n2 {
                assert(t2.content().contains_key(a1) && t2.content().contains_key(b1));
                assert(a1[n1] == lb@[n1] && b1[n1] == lb@[n1]);
            }
            if n2 < n1 {
                assert(t1.content().contains_key(a2) && t1.content().contains_key(b2));
                assert(a2[n2] == la@[n2] && b2[n2] == la@[n2]);
            }
            assert(n1 == n2);
            assert(t2.content().contains_key(a1));
            assert(la@ =~= lb@) by {
                assert forall|i: int| 0 <= i < n1 implies la@[i] == lb@[i] by {
                    assert(la@[i] == a1[i] && lb@[i] == a1[i]);
                }
            }
            lemma_label_view_eq(*la, *lb);
            let c = t1.content();
            assert(left1.content() =~= left2.content()) by {
                assert forall|k: Seq<bool>| #[trigger]
                    left1.content().contains_key(k) implies left2.content().contains_key(k)
                    && left1.content()[k] == left2.content()[k] by {
                    assert(!right1.content().contains_key(k));
                    assert(c.contains_key(k));
                    assert(c[k] == left1.content()[k]);
                    if right2.content().contains_key(k) {
                        assert(k[n1]);
                    }
                    assert(!right2.content().contains_key(k));
                    assert(t2.content().contains_key(k));
                    assert(left2.content().contains_key(k));
                    assert(t2.content()[k] == left2.content()[k]);
                }
                assert forall|k: Seq<bool>| #[trigger]
                    left2.content().contains_key(k) implies left1.content().contains_key(k) by {
                    assert(t2.content().contains_key(k));
                    if right1.content().contains_key(k) {
                        assert(k[n1]);
                    }
                }
            }
            assert(right1.content() =~= right2.content()) by {
                assert forall|k: Seq<bool>| #[trigger]
                    right1.content().contains_key(k) implies right2.content().contains_key(k)
                    && right1.content()[k] == right2.content()[k] by {
                    assert(c.contains_key(k));
                    assert(c[k] == right1.content()[k]);
                    if left2.content().contains_key(k) {
                        assert(!k[n1]);
                    }
                    assert(t2.content().contains_key(k));
                    assert(right2.content().contains_key(k));
                    assert(t2.content()[k] == right2.content()[k]);
                }
                assert forall|k: Seq<bool>| #[trigger]
                    right2.content().contains_key(k) implies right1.content().contains_key(k) by {
                    assert(t2.content().contains_key(k));
                    if left1.content().contains_key(k) {
                        assert(!k[n1]);
                    }
                }
            }
            lemma_digest_canonical(left1, left2);
            lemma_digest_canonical(right1, right2);
        },
    }
}

/// Climbing the path that a well-formed node records for one of its leaves,
/// from that leaf's digest, gives the node's digest and label.
pub proof fn lemma_path_of_folds(n: &TreeNode, lab: Seq<bool>)
    requires
        n.wf(),
        n.content().contains_key(lab),
    ensures
        n.leaf_label_of(lab)@ == lab,
        fold_path(
            leaf_digest(n.content()[lab], n.leaf_label_of(lab)),
            n.leaf_label_of(lab),
            n.path_of(lab),
        ) == (n.digest(), n.label()),
    decreases n,
{
    match n {
        TreeNode::Leaf { .. } => {},
        TreeNode::Interior { label, left, right, .. } => {
            let b = lab[label.label_len as int];
            let c = if b {
                right
            } else {
                left
            };
            if b {
                assert(!left.content().contains_key(lab));
            } else {
                assert(!right.content().contains_key(lab));
            }
            assert(c.content().contains_key(lab));
            assert(n.content()[lab] == c.content()[lab]);
            lemma_path_of_folds(c, lab);
            let p = c.path_of(lab);
            assert(n.path_of(lab).drop_last() =~= p);
        },
    }
}

/// Collects the membership path for `lab` below `node` onto `path`, and
/// returns the label and content hash of its leaf if it is there.
pub fn collect_membership(node: &TreeNode, lab: &NodeLabel, path: &mut Vec<SiblingProof>) -> (r:
    Option<(NodeLabel, Digest)>)
    requires
        node.wf(),
        lab.wf(),
        lab.is_full(),
    ensures
        r is Some <==> node.content().contains_key(lab@),
        r matches Some(p) ==> p.0 == node.leaf_label_of(lab@) && p.1@ == node.content()[lab@],
        final(path)@ == old(path)@ + node.path_of(lab@),
    decreases node,
{
    proof {
        lemma_content_under_label(node);
    }
    match node {
        TreeNode::Leaf { label, hash, .. } => {
            assert(old(path)@ + node.path_of(lab@) =~= old(path)@);
            if label.is_prefix_of(lab) {
                assert(label@ =~= lab@);
                Some((*label, *hash))
            } else {
                None
            }
        },
        TreeNode::Interior { label, left, right, .. } => {
            let ghost pre = path@;
            let r = if lab.get_bit(label.label_len) {
                assert(!left.content().contains_key(lab@));
                let r = collect_membership(right, lab, path);
                path.push(
                    SiblingProof {
                        label: *label,
                        sibling_label: left.get_label(),
                        sibling_digest: left.get_digest(),
                        direction: true,
                    },
                );
                r
            } else {
                assert(!right.content().contains_key(lab@));
                let r = collect_membership(left, lab, path);
                path.push(
                    SiblingProof {
                        label: *label,
                        sibling_label: right.get_label(),
                        sibling_digest: right.get_digest(),
                        direction: false,
                    },
                );
                r
            };
            assert(path@ =~= pre + node.path_of(lab@));
            r
        },
    }
}

/// Collects the non-membership path for `lab` below `node` onto `path`, and
/// returns the label and digest of the first node on the way down whose
/// label is not a prefix of `lab`; `None` when the way ends at the leaf `lab`.
pub fn collect_divergent(node: &TreeNode, lab: &NodeLabel, path: &mut Vec<SiblingProof>) -> (r:
    Option<(NodeLabel, Digest)>)
    requires
        node.wf(),
        lab.wf(),
        lab.is_full(),
    ensures
        r is None <==> node.content().contains_key(lab@),
        final(path)@ == old(path)@ + node.divergent_path_of(lab@),
        r matches Some(p) ==> {
            &&& p.0.wf()
            &&& !is_prefix_seq(p.0@, lab@)
            &&& fold_path(p.1@, p.0, node.divergent_path_of(lab@)) == (node.digest(), node.label())
            &&& forall|i: int|
                0 <= i < node.divergent_path_of(lab@).len() ==> {
                    let s = #[trigger] node.divergent_path_of(lab@)[i];
                    &&& s.label.wf()
                    &&& s.label.label_len < LABEL_BITS
                    &&& is_prefix_seq(s.label@, lab@)
                    &&& s.direction == lab@[s.label.label_len as int]
                }
        },
    decreases node,
{
    proof {
        lemma_content_under_label(node);
    }
    let nl = node.get_label();
    if !nl.is_prefix_of(lab) {
        assert(old(path)@ + node.divergent_path_of(lab@) =~= old(path)@);
        return Some((nl, node.get_digest()));
    }
    match node {
        TreeNode::Leaf { label, .. } => {
            assert(old(path)@ + node.divergent_path_of(lab@) =~= old(path)@);
            assert(label@ =~= lab@);
            None
        },
        TreeNode::Interior { label, left, right, .. } => {
            let ghost pre = path@;
            let bit = lab.get_bit(label.label_len);
            let r = if bit {
                assert(!left.content().contains_key(lab@));
                let r = collect_divergent(right, lab, path);
                path.push(
                    SiblingProof {
                        label: *label,
                        sibling_label: left.get_label(),
                        sibling_digest: left.get_digest(),
                        direction: true,
                    },
                );
                r
            } else {
                assert(!right.content().contains_key(lab@));
                let r = collect_divergent(left, lab, path);
                path.push(
                    SiblingProof {
                        label: *label,
                        sibling_label: right.get_label(),
                        sibling_digest: right.get_digest(),
                        direction: false,
                    },
                );
                r
            };
            let ghost dp = node.divergent_path_of(lab@);
            assert(path@ =~= pre + dp);
            let ghost c = if bit {
                right
            } else {
                left
            };
            assert(dp.drop_last() =~= c.divergent_path_of(lab@));
            proof {
                if r is Some {
                assert forall|i: int| 0 <= i < dp.len() implies {
                    let s = #[trigger] dp[i];
                    &&& s.label.wf()
                    &&& s.label.label_len < LABEL_BITS
                    &&& is_prefix_seq(s.label@, lab@)
                    &&& s.direction == lab@[s.label.label_len as int]
                } by {
                    if i < dp.len() - 1 {
                        assert(dp[i] == c.divergent_path_of(lab@)[i]);
                    }
                }
                }
            }
            r
        },
    }
}

/// A leaf node for `label` holding `hash`.
pub fn make_leaf(label: NodeLabel, hash: Digest) -> (r: TreeNode)
    requires
        label.wf(),
        label.is_full(),
    ensures
        r.wf(),
        r.label() == label,
        r.content() == map![label@ => hash@],
{
    let digest = hash_leaf(&hash, &label);
    TreeNode::Leaf { label, hash, digest }
}

/// An interior node under `label` over two well-formed children.
fn make_interior(label: NodeLabel, left: Rc<TreeNode>, right: Rc<TreeNode>) -> (r: TreeNode)
    requires
        label.wf(),
        label.label_len < LABEL_BITS,
        left.wf(),
        right.wf(),
        forall|k: Seq<bool>| #[trigger]
            left.content().contains_key(k) ==> is_prefix_seq(label@, k) && k.len() == 256
                && !k[label.label_len as int],
        forall|k: Seq<bool>| #[trigger]
            right.content().contains_key(k) ==> is_prefix_seq(label@, k) && k.len() == 256
                && k[label.label_len as int],
    ensures
        r.wf(),
        r.label() == label,
        r.content() == left.content().union_prefer_right(right.content()),
{
    let ll = left.get_label();
    let ld = left.get_digest();
    let rl = right.get_label();
    let rd = right.get_digest();
    let digest = hash_children(&ld, &ll, &rd, &rl);
    TreeNode::Interior { label, digest, left, right }
}

/// Inserts a leaf below `node`. `None` when a leaf with that label is there already.
pub fn insert_leaf(node: &Rc<TreeNode>, label: NodeLabel, hash: Digest) -> (r: Option<
    Rc<TreeNode>,
>)
    requires
        node.wf(),
        label.wf(),
        label.is_full(),
    ensures
        r is None <==> node.content().contains_key(label@),
        r matches Some(n) ==> n.wf() && n.content() == node.content().insert(label@, hash@),
    decreases node,
{
    let nl = node.get_label();
    proof {
        lemma_content_under_label(node);
        lemma_common_prefix_len(nl@, label@);
    }
    if nl.is_prefix_of(&label) {
        match &**node {
            TreeNode::Leaf { .. } => {
                assert(nl@ =~= label@);
                None
            },
            TreeNode::Interior { label: il, left, right, .. } => {
                let il = *il;
                if label.get_bit(il.label_len) {
                    proof {
                        assert(!left.content().contains_key(label@));
                    }
                    match insert_leaf(right, label, hash) {
                        None => None,
                        Some(nr) => {
                            let n = make_interior(il, left.clone(), nr);
                            proof {
                                assert(n.content() =~= node.content().insert(label@, hash@));
                            }
                            Some(Rc::new(n))
                        },
                    }
                } else {
                    proof {
                        assert(!right.content().contains_key(label@));
                    }
                    match insert_leaf(left, label, hash) {
                        None => None,
                        Some(nl2) => {
                            let n = make_interior(il, nl2, right.clone());
                            proof {
                                assert(n.content() =~= node.content().insert(label@, hash@));
                            }
                            Some(Rc::new(n))
                        },
                    }
                }
            },
        }
    } else {
        let p = nl.get_longest_common_prefix_len(&label);
        let plabel = label.get_prefix(p);
        let leaf = Rc::new(make_leaf(label, hash));
        assert(!node.content().contains_key(label@));
        let bit = label.get_bit(p);
        proof {
            assert(p < nl.label_len);
            assert forall|k: Seq<bool>| #[trigger] node.content().contains_key(k) implies is_prefix_seq(
                plabel@,
                k,
            ) && k.len() == 256 && k[p as int] != bit by {
                assert(k[p as int] == nl@[p as int]);
            }
            assert(is_prefix_seq(plabel@, label@));
            assert forall|k: Seq<bool>| #[trigger] leaf.content().contains_key(k) implies k
                == label@ by {}
            assert(is_prefix_seq(plabel@, nl@));
        }
        let n = if bit {
            make_interior(plabel, node.clone(), leaf)
        } else {
            make_interior(plabel, leaf, node.clone())
        };
        proof {
            assert(n.content() =~= node.content().insert(label@, hash@));
        }
        Some(Rc::new(n))
    }
}

} // verus!
