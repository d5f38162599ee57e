//! Node digests. Every digest in the tree is a BLAKE3 hash of a byte string
//! laid out by the functions below.
use vstd::prelude::*;
use crate::label::NodeLabel;

verus! {

/// A 32-byte digest.
pub type Digest = [u8; 32];

/// The BLAKE3 digest of a byte string.
pub uninterp spec fn blake3_of(data: Seq<u8>) -> Seq<u8>;

/// Relies on `blake3::hash`: the 32-byte BLAKE3 digest of the input, which
/// depends on the input bytes alone.
#[verifier::external_body]
fn blake3_hash(data: &[u8]) -> (r: Digest)
    ensures
        r@ == blake3_of(data@),
{
    *blake3::hash(data).as_bytes()
}

/// Big-endian bytes of a 32-bit length.
pub open spec fn u32_be(n: u32) -> Seq<u8> {
    seq![(n >> 24u32) as u8, (n >> 16u32) as u8, (n >> 8u32) as u8, n as u8]
}

/// The bytes that stand for a label inside a hash input: its length, then
/// its 32 value bytes.
pub open spec fn label_bytes(l: NodeLabel) -> Seq<u8> {
    u32_be(l.label_len) + l.label_val@
}

/// Digest of a leaf holding content hash `hash` under `label`.
pub open spec fn leaf_digest(hash: Seq<u8>, label: NodeLabel) -> Seq<u8> {
    blake3_of(hash + label_bytes(label))
}

/// Digest of an interior node from its two children's digests and labels.
pub open spec fn parent_digest(
    left: Seq<u8>,
    left_label: NodeLabel,
    right: Seq<u8>,
    right_label: NodeLabel,
) -> Seq<u8> {
    blake3_of(left + label_bytes(left_label) + right + label_bytes(right_label))
}

/// Root digest of the tree without any leaf.
pub open spec fn empty_root_digest() -> Seq<u8> {
    blake3_of(Seq::empty())
}

fn push_bytes(v: &mut Vec<u8>, b: &[u8])
    ensures
        final(v)@ == old(v)@ + b@,
{
    let mut i: usize = 0;
    while i < b.len()
        invariant
            i <= b@.len(),
            v@ == old(v)@ + b@.take(i as int),
        decreases b@.len() - i,
    {
        v.push(b[i]);
        i = i + 1;
        assert(b@.take(i as int) =~= b@.take(i - 1) + seq![b@[i - 1]]);
    }
    assert(b@.take(b@.len() as int) =~= b@);
}

fn push_label(v: &mut Vec<u8>, l: &NodeLabel)
    ensures
        final(v)@ == old(v)@ + label_bytes(*l),
{
    let n = l.label_len;
    let head: [u8; 4] = [(n >> 24u32) as u8, (n >> 16u32) as u8, (n >> 8u32) as u8, n as u8];
    push_bytes(v, &head);
    push_bytes(v, &l.label_val);
    assert(head@ =~= u32_be(n));
    assert(old(v)@ + head@ + l.label_val@ =~= old(v)@ + label_bytes(*l));
}

/// Digest of a leaf.
pub fn hash_leaf(hash: &Digest, label: &NodeLabel) -> (r: Digest)
    ensures
        r@ == leaf_digest(hash@, *label),
{
    let mut v: Vec<u8> = Vec::new();
    push_bytes(&mut v, hash);
    push_label(&mut v, label);
    assert(v@ =~= hash@ + label_bytes(*label));
    blake3_hash(v.as_slice())
}

/// Digest of an interior node from its children.
pub fn hash_children(
    left: &Digest,
    left_label: &NodeLabel,
    right: &Digest,
    right_label: &NodeLabel,
) -> (r: Digest)
    ensures
        r@ == parent_digest(left@, *left_label, right@, *right_label),
{
    let mut v: Vec<u8> = Vec::new();
    push_bytes(&mut v, left);
    push_label(&mut v, left_label);
    push_bytes(&mut v, right);
    push_label(&mut v, right_label);
    assert(v@ =~= left@ + label_bytes(*left_label) + right@ + label_bytes(*right_label));
    blake3_hash(v.as_slice())
}

/// Root digest of the empty tree.
pub fn empty_root_hash() -> (r: Digest)
    ensures
        r@ == empty_root_digest(),
{
    let v: Vec<u8> = Vec::new();
    assert(v@ =~= Seq::<u8>::empty());
    blake3_hash(v.as_slice())
}

} // verus!
