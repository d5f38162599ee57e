//! The append-only authenticated tree: one trie root per sealed epoch.
use vstd::prelude::*;
use std::rc::Rc;
use crate::errors::AzksError;
use crate::hash::{empty_root_digest, empty_root_hash, leaf_digest, Digest};
use crate::label::NodeLabel;
use crate::tree::{
    collect_divergent, collect_membership, fold_path, insert_leaf, lemma_content_nonempty,
    lemma_digest_canonical, lemma_path_of_folds, make_leaf, Node, SiblingProof, TreeNode,
};
use crate::verify::{
    audit_valid, membership_valid, nonmembership_valid, AuditProof, MembershipProof,
    NonMembershipProof,
};

verus! {

/// The leaves of a tree that may be empty.
pub open spec fn tree_content(t: Option<Rc<TreeNode>>) -> Map<Seq<bool>, Seq<u8>> {
    match t {
        None => Map::empty(),
        Some(n) => n.content(),
    }
}

/// The root digest of a tree that may be empty.
pub open spec fn tree_digest(t: Option<Rc<TreeNode>>) -> Seq<u8> {
    match t {
        None => empty_root_digest(),
        Some(n) => n.digest(),
    }
}

pub open spec fn tree_wf(t: Option<Rc<TreeNode>>) -> bool {
    match t {
        None => true,
        Some(n) => n.wf(),
    }
}

/// The leaves of `m` after inserting `nodes` one after the other.
pub open spec fn apply_batch(m: Map<Seq<bool>, Seq<u8>>, nodes: Seq<Node>) -> Map<
    Seq<bool>,
    Seq<u8>,
>
    decreases nodes.len(),
{
    if nodes.len() == 0 {
        m
    } else {
        apply_batch(m, nodes.drop_last()).insert(nodes.last().label@, nodes.last().hash@)
    }
}

/// Every label of the batch is a well-formed full-length label, none is
/// repeated, and none is already a leaf of `m`.
pub open spec fn batch_valid(m: Map<Seq<bool>, Seq<u8>>, nodes: Seq<Node>) -> bool {
    &&& forall|i: int|
        0 <= i < nodes.len() ==> {
            &&& (#[trigger] nodes[i]).label.wf()
            &&& nodes[i].label.is_full()
            &&& !m.contains_key(nodes[i].label@)
        }
    &&& forall|i: int, j: int|
        0 <= i < j < nodes.len() ==> (#[trigger] nodes[i]).label@ != (#[trigger] nodes[j]).label@
}

/// After a batch, a label is a leaf exactly when it was one before or the
/// batch holds it.
pub proof fn lemma_apply_batch_keys(m: Map<Seq<bool>, Seq<u8>>, nodes: Seq<Node>, k: Seq<bool>)
    ensures
        apply_batch(m, nodes).contains_key(k) <==> (m.contains_key(k) || exists|i: int|
            0 <= i < nodes.len() && (#[trigger] nodes[i]).label@ == k),
    decreases nodes.len(),
{
    if nodes.len() > 0 {
        let init = nodes.drop_last();
        lemma_apply_batch_keys(m, init, k);
        if exists|i: int| 0 <= i < nodes.len() && (#[trigger] nodes[i]).label@ == k {
            let i = choose|i: int| 0 <= i < nodes.len() && (#[trigger] nodes[i]).label@ == k;
            if i < nodes.len() - 1 {
                assert(init[i] == nodes[i]);
            }
        }
        if exists|i: int| 0 <= i < init.len() && (#[trigger] init[i]).label@ == k {
            let i = choose|i: int| 0 <= i < init.len() && (#[trigger] init[i]).label@ == k;
            assert(nodes[i] == init[i]);
        }
    }
}

/// A batch only adds leaves: what was there keeps its content hash.
pub proof fn lemma_apply_batch_grows(m: Map<Seq<bool>, Seq<u8>>, nodes: Seq<Node>)
    requires
        batch_valid(m, nodes),
    ensures
        m.submap_of(apply_batch(m, nodes)),
    decreases nodes.len(),
{
    if nodes.len() > 0 {
        let init = nodes.drop_last();
        assert(batch_valid(m, init)) by {
            assert forall|i: int| 0 <= i < init.len() implies (#[trigger] init[i]).label.wf() by {
                assert(init[i] == nodes[i]);
            }
            assert forall|i: int, j: int| 0 <= i < j < init.len() implies (#[trigger] init[
                i
            ]).label@ != (#[trigger] init[j]).label@ by {
                assert(init[i] == nodes[i] && init[j] == nodes[j]);
            }
        }
        lemma_apply_batch_grows(m, init);
        let k = nodes.last().label@;
        lemma_apply_batch_keys(m, init, k);
        assert(!apply_batch(m, init).contains_key(k)) by {
            if exists|i: int| 0 <= i < init.len() && (#[trigger] init[i]).label@ == k {
                let i = choose|i: int| 0 <= i < init.len() && (#[trigger] init[i]).label@ == k;
                assert(nodes[i] == init[i]);
            }
        }
        assert forall|x: Seq<bool>| #[trigger] m.contains_key(x) implies apply_batch(
            m,
            nodes,
        ).contains_key(x) && apply_batch(m, nodes)[x] == m[x] by {
            assert(apply_batch(m, init).contains_key(x));
        }
    }
}

/// A prefix of a valid batch is valid.
pub proof fn lemma_batch_valid_prefix(m: Map<Seq<bool>, Seq<u8>>, nodes: Seq<Node>, n: int)
    requires
        batch_valid(m, nodes),
        0 <= n <= nodes.len(),
    ensures
        batch_valid(m, nodes.take(n)),
{
    let p = nodes.take(n);
    assert forall|i: int| 0 <= i < p.len() implies (#[trigger] p[i]).label.wf() by {
        assert(p[i] == nodes[i]);
    }
    assert forall|i: int, j: int| 0 <= i < j < p.len() implies (#[trigger] p[i]).label@ != (
    #[trigger] p[j]).label@ by {
        assert(p[i] == nodes[i] && p[j] == nodes[j]);
    }
}

/// In the result of a valid batch, each label of the batch holds its hash.
pub proof fn lemma_apply_batch_value(m: Map<Seq<bool>, Seq<u8>>, nodes: Seq<Node>, j: int)
    requires
        batch_valid(m, nodes),
        0 <= j < nodes.len(),
    ensures
        apply_batch(m, nodes).contains_key(nodes[j].label@),
        apply_batch(m, nodes)[nodes[j].label@] == nodes[j].hash@,
    decreases nodes.len(),
{
    let init = nodes.drop_last();
    if j < nodes.len() - 1 {
        lemma_batch_valid_prefix(m, nodes, nodes.len() - 1);
        assert(init =~= nodes.take(nodes.len() - 1));
        assert(init[j] == nodes[j]);
        lemma_apply_batch_value(m, init, j);
        assert(nodes[j].label@ != nodes[nodes.len() - 1].label@);
    }
}

/// Applying two batches in turn is applying their concatenation.
pub proof fn lemma_apply_batch_concat(m: Map<Seq<bool>, Seq<u8>>, a: Seq<Node>, b: Seq<Node>)
    ensures
        apply_batch(m, a + b) == apply_batch(apply_batch(m, a), b),
    decreases b.len(),
{
    if b.len() == 0 {
        assert(a + b =~= a);
    } else {
        assert((a + b).drop_last() =~= a + b.drop_last());
        lemma_apply_batch_concat(m, a, b.drop_last());
    }
}

/// Two batches valid in turn make a valid concatenation.
pub proof fn lemma_batch_valid_concat(m: Map<Seq<bool>, Seq<u8>>, a: Seq<Node>, b: Seq<Node>)
    requires
        batch_valid(m, a),
        batch_valid(apply_batch(m, a), b),
    ensures
        batch_valid(m, a + b),
{
    let c = a + b;
    assert forall|i: int| 0 <= i < c.len() implies {
        &&& (#[trigger] c[i]).label.wf()
        &&& c[i].label.is_full()
        &&& !m.contains_key(c[i].label@)
    } by {
        if i < a.len() {
            assert(c[i] == a[i]);
        } else {
            assert(c[i] == b[i - a.len()]);
            lemma_apply_batch_keys(m, a, c[i].label@);
        }
    }
    assert forall|i: int, j: int| 0 <= i < j < c.len() implies (#[trigger] c[i]).label@ != (
    #[trigger] c[j]).label@ by {
        if j < a.len() {
            assert(c[i] == a[i] && c[j] == a[j]);
        } else if i >= a.len() {
            assert(c[i] == b[i - a.len()] && c[j] == b[j - a.len()]);
        } else {
            assert(c[i] == a[i] && c[j] == b[j - a.len()]);
            lemma_apply_batch_keys(m, a, a[i].label@);
        }
    }
}

/// The leaves of a node, left to right, as a batch.
pub open spec fn leaves_of(n: &TreeNode) -> Seq<Node>
    decreases n,
{
    match n {
        TreeNode::Leaf { label, hash, .. } => seq![Node { label: *label, hash: *hash }],
        TreeNode::Interior { left, right, .. } => leaves_of(left) + leaves_of(right),
    }
}

/// The leaves of a well-formed node form a valid batch that rebuilds its leaves.
pub proof fn lemma_leaves_of(n: &TreeNode, m: Map<Seq<bool>, Seq<u8>>)
    requires
        n.wf(),
        forall|k: Seq<bool>| #[trigger] n.content().contains_key(k) ==> !m.contains_key(k),
    ensures
        batch_valid(m, leaves_of(n)),
        apply_batch(m, leaves_of(n)) == m.union_prefer_right(n.content()),
    decreases n,
{
    match n {
        TreeNode::Leaf { label, hash, .. } => {
            let b = leaves_of(n);
            assert(b.drop_last() =~= Seq::<Node>::empty());
            assert(apply_batch(m, b.drop_last()) == m);
            assert(b.last() == Node { label: *label, hash: *hash });
            assert(n.content().contains_key(label@));
            assert(apply_batch(m, b) =~= m.union_prefer_right(n.content()));
        },
        TreeNode::Interior { left, right, .. } => {
            assert forall|k: Seq<bool>| #[trigger] left.content().contains_key(k) implies !m.contains_key(k) by {
                assert(n.content().contains_key(k));
            }
            lemma_leaves_of(left, m);
            let ml = m.union_prefer_right(left.content());
            assert forall|k: Seq<bool>| #[trigger] right.content().contains_key(k) implies !ml.contains_key(k) by {
                assert(n.content().contains_key(k));
                if left.content().contains_key(k) {
                    crate::tree::lemma_content_under_label(n);
                }
            }
            lemma_leaves_of(right, ml);
            lemma_apply_batch_concat(m, leaves_of(left), leaves_of(right));
            lemma_batch_valid_concat(m, leaves_of(left), leaves_of(right));
            assert(ml.union_prefer_right(right.content()) =~= m.union_prefer_right(n.content()));
        },
    }
}

/// Appends the leaves of `n`, left to right, to `out`.
pub fn collect_leaves(n: &TreeNode, out: &mut Vec<Node>)
    ensures
        final(out)@ == old(out)@ + leaves_of(n),
    decreases n,
{
    match n {
        TreeNode::Leaf { label, hash, .. } => {
            out.push(Node { label: *label, hash: *hash });
            assert(final(out)@ =~= old(out)@ + leaves_of(n));
        },
        TreeNode::Interior { left, right, .. } => {
            collect_leaves(left, out);
            collect_leaves(right, out);
            assert(final(out)@ =~= old(out)@ + leaves_of(n));
        },
    }
}

/// The root digest of the well-formed tree whose leaves are `m`; well
/// defined because such a tree has one digest only.
pub open spec fn digest_of_content(m: Map<Seq<bool>, Seq<u8>>) -> Seq<u8> {
    if m == Map::<Seq<bool>, Seq<u8>>::empty() {
        empty_root_digest()
    } else {
        (choose|t: TreeNode| t.wf() && t.content() == m).digest()
    }
}

/// The digest of a well-formed tree is the digest of its leaves.
pub proof fn lemma_tree_digest(t: Option<Rc<TreeNode>>)
    requires
        tree_wf(t),
    ensures
        tree_digest(t) == digest_of_content(tree_content(t)),
{
    match t {
        None => {},
        Some(n) => {
            lemma_content_nonempty(&*n);
            let k = choose|k: Seq<bool>| #[trigger] n.content().contains_key(k);
            assert(!Map::<Seq<bool>, Seq<u8>>::empty().contains_key(k));
            assert(n.content() != Map::<Seq<bool>, Seq<u8>>::empty());
            let c = choose|c: TreeNode| c.wf() && c.content() == n.content();
            assert(exists|c: TreeNode| c.wf() && c.content() == n.content()) by {
                assert((*n).wf() && (*n).content() == n.content());
            }
            lemma_digest_canonical(&*n, &c);
        },
    }
}

/// The root digest of a tree that may be empty.
pub fn tree_root_hash(t: &Option<Rc<TreeNode>>) -> (r: Digest)
    ensures
        r@ == tree_digest(*t),
{
    match t {
        None => empty_root_hash(),
        Some(n) => n.get_digest(),
    }
}

/// Inserts `nodes` one after the other into the tree `start`, sharing its
/// nodes; `None` when the batch is not valid for it.
pub fn insert_batch(start: Option<Rc<TreeNode>>, nodes: &Vec<Node>) -> (r: Option<
    Option<Rc<TreeNode>>,
>)
    requires
        tree_wf(start),
    ensures
        r is Some <==> batch_valid(tree_content(start), nodes@),
        r matches Some(t) ==> tree_wf(t) && tree_content(t) == apply_batch(
            tree_content(start),
            nodes@,
        ),
{
    let ghost last = tree_content(start);
    let mut cur = start;
    assert(nodes@.take(0) =~= Seq::<Node>::empty());
    let mut i: usize = 0;
    while i < nodes.len()
        invariant
            last == tree_content(start),
            i <= nodes@.len(),
            tree_wf(cur),
            tree_content(cur) == apply_batch(last, nodes@.take(i as int)),
            batch_valid(last, nodes@.take(i as int)),
        decreases nodes@.len() - i,
    {
        let ghost before = nodes@.take(i as int);
        let ghost after = nodes@.take(i + 1);
        assert(after.drop_last() =~= before);
        let node = nodes[i];
        proof {
            lemma_apply_batch_keys(last, before, node.label@);
        }
        if !node.label.is_valid() || node.label.label_len != 256 {
            assert(!batch_valid(last, nodes@)) by {
                assert(nodes@[i as int] == node);
            }
            return None;
        }
        let next = match &cur {
            None => Some(Rc::new(make_leaf(node.label, node.hash))),
            Some(root) => insert_leaf(root, node.label, node.hash),
        };
        match next {
            None => {
                assert(!batch_valid(last, nodes@)) by {
                    if last.contains_key(node.label@) {
                        assert(nodes@[i as int] == node);
                    } else {
                        let j = choose|j: int|
                            0 <= j < before.len() && (#[trigger] before[j]).label@
                                == node.label@;
                        assert(nodes@[j] == before[j]);
                        assert(nodes@[i as int] == node);
                    }
                }
                return None;
            },
            Some(t) => {
                proof {
                    assert(tree_content(Some(t)) =~= apply_batch(last, after));
                    assert(batch_valid(last, after)) by {
                        assert forall|a: int, b: int| 0 <= a < b < after.len() implies (
                        #[trigger] after[a]).label@ != (#[trigger] after[b]).label@ by {
                            if b < i {
                                assert(after[a] == before[a] && after[b] == before[b]);
                            } else {
                                assert(after[a] == before[a]);
                                assert(after[b] == node);
                                assert(!apply_batch(last, before).contains_key(
                                    node.label@,
                                ));
                            }
                        }
                        assert forall|a: int| 0 <= a < after.len() implies {
                            &&& (#[trigger] after[a]).label.wf()
                            &&& after[a].label.is_full()
                            &&& !last.contains_key(after[a].label@)
                        } by {
                            if a < i {
                                assert(after[a] == before[a]);
                            } else {
                                assert(after[a] == node);
                            }
                        }
                    }
                }
                cur = Some(t);
            },
        }
        i = i + 1;
    }
    assert(nodes@.take(nodes@.len() as int) =~= nodes@);
    Some(cur)
}

/// The directory's tree: the root of every sealed epoch, epoch 0 being the
/// empty tree. Roots share the nodes that later epochs did not change.
pub struct Azks {
    roots: Vec<Option<Rc<TreeNode>>>,
}

impl Azks {
    /// The leaves at each epoch.
    pub closed spec fn contents(&self) -> Seq<Map<Seq<bool>, Seq<u8>>> {
        self.roots@.map_values(|t: Option<Rc<TreeNode>>| tree_content(t))
    }

    /// The root digest at each epoch.
    pub closed spec fn root_digests(&self) -> Seq<Seq<u8>> {
        self.roots@.map_values(|t: Option<Rc<TreeNode>>| tree_digest(t))
    }

    /// Path that the membership proof of `lab` at `epoch` records.
    pub closed spec fn path_at(&self, epoch: int, lab: Seq<bool>) -> Seq<SiblingProof> {
        match self.roots@[epoch] {
            None => Seq::empty(),
            Some(n) => n.path_of(lab),
        }
    }

    /// Label of the leaf that the membership proof of `lab` at `epoch` starts from.
    pub closed spec fn leaf_label_at(&self, epoch: int, lab: Seq<bool>) -> NodeLabel {
        match self.roots@[epoch] {
            None => arbitrary(),
            Some(n) => n.leaf_label_of(lab),
        }
    }

    pub closed spec fn inv(&self) -> bool {
        &&& self.roots@.len() >= 1
        &&& self.roots@[0] is None
        &&& forall|e: int| 0 <= e < self.roots@.len() ==> tree_wf(#[trigger] self.roots@[e])
    }

    /// Every sealed tree is well formed, epoch 0 is empty, and each epoch
    /// keeps every leaf of the one before it.
    pub open spec fn wf(&self) -> bool {
        &&& self.inv()
        &&& 1 <= self.contents().len() <= u64::MAX
        &&& self.root_digests().len() == self.contents().len()
        &&& self.contents()[0] == Map::<Seq<bool>, Seq<u8>>::empty()
        &&& forall|e: int|
            0 <= e < self.contents().len() - 1 ==> (#[trigger] self.contents()[e]).submap_of(
                self.contents()[e + 1],
            )
    }

    /// An empty tree at epoch 0.
    pub fn new() -> (r: Azks)
        ensures
            r.wf(),
            r.contents() == seq![Map::<Seq<bool>, Seq<u8>>::empty()],
            r.root_digests() == seq![empty_root_digest()],
    {
        let mut roots: Vec<Option<Rc<TreeNode>>> = Vec::new();
        roots.push(None);
        let r = Azks { roots };
        assert(r.contents() =~= seq![Map::<Seq<bool>, Seq<u8>>::empty()]);
        assert(r.root_digests() =~= seq![empty_root_digest()]);
        r
    }

    /// The latest sealed epoch.
    pub fn get_latest_epoch(&self) -> (r: u64)
        requires
            self.wf(),
        ensures
            r == self.contents().len() - 1,
    {
        (self.roots.len() - 1) as u64
    }

    /// Inserts a batch of leaves as one new epoch, and returns that epoch.
    /// The batch is rejected as a whole, with the tree unchanged, when a label
    /// is malformed, repeated, or already a leaf.
    pub fn batch_insert_leaves(&mut self, nodes: Vec<Node>) -> (r: Result<u64, AzksError>)
        requires
            old(self).wf(),
            old(self).contents().len() < u64::MAX,
        ensures
            final(self).wf(),
            r is Ok <==> batch_valid(old(self).contents().last(), nodes@),
            r matches Ok(e) ==> {
                &&& e == old(self).contents().len()
                &&& final(self).contents() == old(self).contents().push(
                    apply_batch(old(self).contents().last(), nodes@),
                )
                &&& final(self).root_digests().drop_last() == old(self).root_digests()
            },
            r matches Err(e) ==> {
                &&& e == AzksError::InvalidBatch
                &&& final(self).contents() == old(self).contents()
                &&& final(self).root_digests() == old(self).root_digests()
            },
    {
        let ghost last = old(self).contents().last();
        let n = self.roots.len();
        assert(tree_wf(self.roots@[n - 1]));
        let cur = match &self.roots[n - 1] {
            None => None,
            Some(root) => Some(root.clone()),
        };
        let cur = match insert_batch(cur, &nodes) {
            None => return Err(AzksError::InvalidBatch),
            Some(t) => t,
        };
        proof {
            lemma_apply_batch_grows(last, nodes@);
        }
        let ghost old_roots = self.roots@;
        self.roots.push(cur);
        proof {
            assert(self.roots@.drop_last() =~= old_roots);
            assert(self.contents() =~= old(self).contents().push(apply_batch(last, nodes@)));
            assert(self.root_digests().drop_last() =~= old(self).root_digests());
            assert forall|e: int| 0 <= e < self.roots@.len() implies tree_wf(
                #[trigger] self.roots@[e],
            ) by {
                if e < n {
                    assert(self.roots@[e] == old_roots[e]);
                }
            }
            assert forall|e: int| 0 <= e < self.contents().len() - 1 implies (
            #[trigger] self.contents()[e]).submap_of(self.contents()[e + 1]) by {
                if e < n - 1 {
                    assert(old(self).contents()[e].submap_of(old(self).contents()[e + 1]));
                }
            }
        }
        Ok(n as u64)
    }

    /// The root digest sealed at `epoch`.
    pub fn get_root_hash(&self, epoch: u64) -> (r: Result<Digest, AzksError>)
        requires
            self.wf(),
        ensures
            r is Ok <==> epoch < self.contents().len(),
            r matches Ok(d) ==> d@ == self.root_digests()[epoch as int],
            r matches Err(e) ==> e == AzksError::EpochNotFound,
    {
        if epoch as usize >= self.roots.len() || epoch >= self.roots.len() as u64 {
            return Err(AzksError::EpochNotFound);
        }
        match &self.roots[epoch as usize] {
            None => Ok(empty_root_hash()),
            Some(n) => Ok(n.get_digest()),
        }
    }

    /// A membership proof for the leaf `label` at `epoch`.
    pub fn get_membership_proof(&self, label: NodeLabel, epoch: u64) -> (r: Result<
        MembershipProof,
        AzksError,
    >)
        requires
            self.wf(),
        ensures
            epoch >= self.contents().len() ==> r == Err::<MembershipProof, AzksError>(
                AzksError::EpochNotFound,
            ),
            epoch < self.contents().len() ==> {
                &&& r is Ok <==> label.wf() && label.is_full() && self.contents()[epoch as int].contains_key(label@)
                &&& r matches Err(e) ==> e == AzksError::LabelNotFound
            },
            r matches Ok(p) ==> {
                &&& p.label@ == label@
                &&& p.label == self.leaf_label_at(epoch as int, label@)
                &&& p.hash_val@ == self.contents()[epoch as int][label@]
                &&& p.sibling_proofs@ == self.path_at(epoch as int, label@)
                &&& membership_valid(self.root_digests()[epoch as int], p)
            },
    {
        if epoch as usize >= self.roots.len() || epoch >= self.roots.len() as u64 {
            return Err(AzksError::EpochNotFound);
        }
        if !label.is_valid() || label.label_len != 256 {
            return Err(AzksError::LabelNotFound);
        }
        assert(tree_wf(self.roots@[epoch as int]));
        match &self.roots[epoch as usize] {
            None => Err(AzksError::LabelNotFound),
            Some(root) => {
                let mut path: Vec<SiblingProof> = Vec::new();
                match collect_membership(root, &label, &mut path) {
                    None => Err(AzksError::LabelNotFound),
                    Some((leaf_label, hash_val)) => {
                        proof {
                            lemma_path_of_folds(root, label@);
                            assert(path@ =~= root.path_of(label@));
                        }
                        Ok(MembershipProof { label: leaf_label, hash_val, sibling_proofs: path })
                    },
                }
            },
        }
    }

    /// A non-membership proof for `label` at `epoch`.
    pub fn get_non_membership_proof(&self, label: NodeLabel, epoch: u64) -> (r: Result<
        NonMembershipProof,
        AzksError,
    >)
        requires
            self.wf(),
            label.wf(),
            label.is_full(),
        ensures
            epoch >= self.contents().len() ==> r == Err::<NonMembershipProof, AzksError>(
                AzksError::EpochNotFound,
            ),
            epoch < self.contents().len() ==> {
                &&& r is Ok <==> !self.contents()[epoch as int].contains_key(label@)
                &&& r matches Err(e) ==> e == AzksError::LabelExists
            },
            r matches Ok(p) ==> p.label == label && nonmembership_valid(
                self.root_digests()[epoch as int],
                p,
            ),
    {
        if epoch as usize >= self.roots.len() || epoch >= self.roots.len() as u64 {
            return Err(AzksError::EpochNotFound);
        }
        assert(tree_wf(self.roots@[epoch as int]));
        let mut path: Vec<SiblingProof> = Vec::new();
        match &self.roots[epoch as usize] {
            None => Ok(NonMembershipProof { label, divergent: None, sibling_proofs: path }),
            Some(root) => {
                match collect_divergent(root, &label, &mut path) {
                    None => Err(AzksError::LabelExists),
                    Some(d) => {
                        assert(path@ =~= root.divergent_path_of(label@));
                        Ok(NonMembershipProof { label, divergent: Some(d), sibling_proofs: path })
                    },
                }
            },
        }
    }
}

impl Azks {
    /// Evidence that epoch `end` extends epoch `start`: the leaves of both.
    pub fn get_audit_proof(&self, start: u64, end: u64) -> (r: Result<AuditProof, AzksError>)
        requires
            self.wf(),
        ensures
            r is Ok <==> start <= end < self.contents().len(),
            r matches Err(e) ==> e == AzksError::EpochNotFound,
            r matches Ok(p) ==> {
                &&& apply_batch(Map::empty(), p.start_leaves@) == self.contents()[start as int]
                &&& apply_batch(Map::empty(), p.end_leaves@) == self.contents()[end as int]
                &&& audit_valid(
                    self.root_digests()[start as int],
                    self.root_digests()[end as int],
                    p,
                )
            },
    {
        if start > end || end as usize >= self.roots.len() || end >= self.roots.len() as u64 {
            return Err(AzksError::EpochNotFound);
        }
        let start_leaves = self.leaves_at(start as usize);
        let end_leaves = self.leaves_at(end as usize);
        proof {
            lemma_append_only(self, start as int, end as int);
            lemma_tree_digest(self.roots@[start as int]);
            lemma_tree_digest(self.roots@[end as int]);
        }
        Ok(AuditProof { start_leaves, end_leaves })
    }

    /// The leaves at `epoch`, as a batch that rebuilds them.
    fn leaves_at(&self, epoch: usize) -> (r: Vec<Node>)
        requires
            self.wf(),
            epoch < self.contents().len(),
        ensures
            batch_valid(Map::empty(), r@),
            apply_batch(Map::empty(), r@) == self.contents()[epoch as int],
    {
        let mut out: Vec<Node> = Vec::new();
        assert(tree_wf(self.roots@[epoch as int]));
        match &self.roots[epoch] {
            None => {},
            Some(n) => {
                collect_leaves(n, &mut out);
                proof {
                    assert(out@ =~= leaves_of(n));
                    lemma_leaves_of(n, Map::empty());
                    assert(Map::<Seq<bool>, Seq<u8>>::empty().union_prefer_right(n.content())
                        =~= n.content());
                }
            },
        }
        out
    }
}

/// Round trip: at every sealed epoch, the membership path recorded for a
/// leaf climbs from that leaf's digest to the epoch's root digest.
pub proof fn lemma_membership_round_trip(t: &Azks, epoch: int, lab: Seq<bool>)
    requires
        t.wf(),
        0 <= epoch < t.contents().len(),
        t.contents()[epoch].contains_key(lab),
    ensures
        t.leaf_label_at(epoch, lab)@ == lab,
        fold_path(
            leaf_digest(t.contents()[epoch][lab], t.leaf_label_at(epoch, lab)),
            t.leaf_label_at(epoch, lab),
            t.path_at(epoch, lab),
        ).0 == t.root_digests()[epoch],
{
    assert(tree_wf(t.roots@[epoch]));
    match t.roots@[epoch] {
        None => {},
        Some(n) => {
            lemma_path_of_folds(&*n, lab);
        },
    }
}

/// Append-only: every leaf of an epoch is a leaf, with the same content
/// hash, of every later epoch.
pub proof fn lemma_append_only(t: &Azks, e1: int, e2: int)
    requires
        t.wf(),
        0 <= e1 <= e2 < t.contents().len(),
    ensures
        t.contents()[e1].submap_of(t.contents()[e2]),
    decreases e2 - e1,
{
    if e1 < e2 {
        lemma_append_only(t, e1, e2 - 1);
        vstd::map_lib::lemma_submap_of_trans(t.contents()[e1], t.contents()[e2 - 1], t.contents()[e2]);
    }
}

/// Append-only, for membership: a leaf of an earlier epoch is a leaf of every
/// later epoch with the same content hash, and its membership path there
/// climbs to that later epoch's root.
pub proof fn lemma_membership_persists(t: &Azks, e1: int, e2: int, lab: Seq<bool>)
    requires
        t.wf(),
        0 <= e1 <= e2 < t.contents().len(),
        t.contents()[e1].contains_key(lab),
    ensures
        t.contents()[e2].contains_key(lab),
        t.contents()[e2][lab] == t.contents()[e1][lab],
        t.leaf_label_at(e2, lab)@ == lab,
        fold_path(
            leaf_digest(t.contents()[e1][lab], t.leaf_label_at(e2, lab)),
            t.leaf_label_at(e2, lab),
            t.path_at(e2, lab),
        ).0 == t.root_digests()[e2],
{
    lemma_append_only(t, e1, e2);
    assert(t.contents()[e1].dom().contains(lab) ==> t.contents()[e2].dom().contains(lab)
        && t.contents()[e1][lab] == t.contents()[e2][lab]);
    lemma_membership_round_trip(t, e2, lab);
}

} // verus!
