//! Tree labels: a 256-bit string together with the number of its leading
//! bits that are significant. A label of length `n` names the trie node that
//! covers every full-length label sharing those `n` bits.
use vstd::prelude::*;

verus! {

/// Number of bits in a full-length (leaf) label.
pub const LABEL_BITS: u32 = 256;

/// Bit `k` (0 = most significant) of a byte.
pub open spec fn byte_bit(b: u8, k: u8) -> bool {
    ((b >> ((7 - k) as u8)) & 1u8) == 1u8
}

/// Bit `i` (0 = most significant bit of the first byte) of a byte string.
pub open spec fn val_bit(v: Seq<u8>, i: int) -> bool {
    byte_bit(v[i / 8], (i % 8) as u8)
}

/// `a` is a prefix of `b`.
pub open spec fn is_prefix_seq(a: Seq<bool>, b: Seq<bool>) -> bool {
    a.len() <= b.len() && forall|i: int| 0 <= i < a.len() ==> a[i] == b[i]
}

/// Length of the longest common prefix of `a` and `b`.
pub open spec fn common_prefix_len(a: Seq<bool>, b: Seq<bool>) -> nat
    decreases a.len(),
{
    if a.len() == 0 || b.len() == 0 || a[0] != b[0] {
        0
    } else {
        1 + common_prefix_len(a.drop_first(), b.drop_first())
    }
}

pub proof fn lemma_common_prefix_len(a: Seq<bool>, b: Seq<bool>)
    ensures
        common_prefix_len(a, b) <= a.len(),
        common_prefix_len(a, b) <= b.len(),
        forall|i: int| 0 <= i < common_prefix_len(a, b) ==> a[i] == b[i],
        common_prefix_len(a, b) < a.len() && common_prefix_len(a, b) < b.len() ==> a[
            common_prefix_len(a, b) as int
        ] != b[common_prefix_len(a, b) as int],
    decreases a.len(),
{
    if a.len() == 0 || b.len() == 0 || a[0] != b[0] {
    } else {
        lemma_common_prefix_len(a.drop_first(), b.drop_first());
        assert forall|i: int| 0 <= i < common_prefix_len(a, b) implies a[i] == b[i] by {
            if i > 0 {
                assert(a.drop_first()[i - 1] == b.drop_first()[i - 1]);
            }
        }
    }
}

/// The bits of a full 256-bit value, beyond any length.
pub open spec fn full_bits(v: Seq<u8>) -> Seq<bool> {
    Seq::new(256, |i: int| val_bit(v, i))
}

proof fn lemma_mask_bits()
    ensures
        forall|b: u8, s: u8, k: u8|
            #![trigger byte_bit(b & (0xFFu8 << ((8 - s) as u8)), k)]
            1 <= s < 8 && k < 8 ==> (byte_bit(b & (0xFFu8 << ((8 - s) as u8)), k) <==> (k < s
                && byte_bit(b, k))),
        forall|k: u8| k < 8 ==> !#[trigger] byte_bit(0u8, k),
{
    assert forall|b: u8, s: u8, k: u8| 1 <= s < 8 && k < 8 implies (#[trigger] byte_bit(
        b & (0xFFu8 << ((8 - s) as u8)),
        k,
    ) <==> (k < s && byte_bit(b, k))) by {
        assert(1 <= s < 8 && k < 8 ==> ((((b & (0xFFu8 << ((8 - s) as u8))) >> ((7 - k) as u8))
            & 1u8) == 1u8 <==> (k < s && ((b >> ((7 - k) as u8)) & 1u8) == 1u8))) by (bit_vector);
    }
    assert forall|k: u8| k < 8 implies !byte_bit(0u8, k) by {
        assert(k < 8 ==> ((0u8 >> ((7 - k) as u8)) & 1u8) != 1u8) by (bit_vector);
    }
}

proof fn lemma_byte_from_bits(x: u8, y: u8)
    requires
        forall|k: u8| k < 8 ==> byte_bit(x, k) == byte_bit(y, k),
    ensures
        x == y,
{
    assert(byte_bit(x, 0) == byte_bit(y, 0));
    assert(byte_bit(x, 1) == byte_bit(y, 1));
    assert(byte_bit(x, 2) == byte_bit(y, 2));
    assert(byte_bit(x, 3) == byte_bit(y, 3));
    assert(byte_bit(x, 4) == byte_bit(y, 4));
    assert(byte_bit(x, 5) == byte_bit(y, 5));
    assert(byte_bit(x, 6) == byte_bit(y, 6));
    assert(byte_bit(x, 7) == byte_bit(y, 7));
    assert(((((x >> 7u8) & 1u8) == 1u8) == (((y >> 7u8) & 1u8) == 1u8) && (((x >> 6u8) & 1u8)
        == 1u8) == (((y >> 6u8) & 1u8) == 1u8) && (((x >> 5u8) & 1u8) == 1u8) == (((y >> 5u8)
        & 1u8) == 1u8) && (((x >> 4u8) & 1u8) == 1u8) == (((y >> 4u8) & 1u8) == 1u8) && (((x
        >> 3u8) & 1u8) == 1u8) == (((y >> 3u8) & 1u8) == 1u8) && (((x >> 2u8) & 1u8) == 1u8)
        == (((y >> 2u8) & 1u8) == 1u8) && (((x >> 1u8) & 1u8) == 1u8) == (((y >> 1u8) & 1u8)
        == 1u8) && (((x >> 0u8) & 1u8) == 1u8) == (((y >> 0u8) & 1u8) == 1u8)) ==> x == y)
        by (bit_vector);
}

/// Two well-formed labels with the same significant bits are the same label.
pub proof fn lemma_label_view_eq(a: NodeLabel, b: NodeLabel)
    requires
        a.wf(),
        b.wf(),
        a@ == b@,
    ensures
        a == b,
{
    assert(a@.len() == a.label_len && b@.len() == b.label_len);
    assert forall|i: int| 0 <= i < 256 implies val_bit(a.label_val@, i) == val_bit(
        b.label_val@,
        i,
    ) by {
        if i < a.label_len {
            assert(a@[i] == full_bits(a.label_val@)[i]);
            assert(b@[i] == full_bits(b.label_val@)[i]);
            assert(a@[i] == b@[i]);
        }
    }
    assert forall|m: int| 0 <= m < 32 implies a.label_val@[m] == b.label_val@[m] by {
        assert forall|k: u8| k < 8 implies byte_bit(a.label_val@[m], k) == byte_bit(
            b.label_val@[m],
            k,
        ) by {
            let i = 8 * m + k;
            assert(i / 8 == m && i % 8 == k as int);
            assert(val_bit(a.label_val@, i) == val_bit(b.label_val@, i));
        }
        lemma_byte_from_bits(a.label_val@[m], b.label_val@[m]);
    }
    assert(a.label_val =~= b.label_val);
}

/// A trie label: `label_val` holds the bits, of which the first `label_len`
/// are significant.
#[derive(Clone, Copy, Debug, PartialEq, Eq)]
pub struct NodeLabel {
    pub label_val: [u8; 32],
    pub label_len: u32,
}

impl View for NodeLabel {
    type V = Seq<bool>;

    /// The significant bits.
    open spec fn view(&self) -> Seq<bool> {
        full_bits(self.label_val@).take(self.label_len as int)
    }
}

impl NodeLabel {
    /// At most 256 significant bits, and every bit beyond them is zero, so
    /// that equal bit strings have equal representations.
    pub open spec fn wf(&self) -> bool {
        &&& self.label_len <= LABEL_BITS
        &&& forall|i: int| self.label_len <= i < 256 ==> !val_bit(self.label_val@, i)
    }

    /// A leaf label: all 256 bits significant.
    pub open spec fn is_full(&self) -> bool {
        self.label_len == LABEL_BITS
    }

    /// A full-length label with the given bits.
    pub fn new(label_val: [u8; 32]) -> (r: NodeLabel)
        ensures
            r.wf(),
            r.is_full(),
            r.label_val == label_val,
            r@ == full_bits(label_val@),
    {
        let r = NodeLabel { label_val, label_len: LABEL_BITS };
        assert(r@ =~= full_bits(label_val@));
        r
    }

    /// The label of the whole tree: no significant bit.
    pub fn root() -> (r: NodeLabel)
        ensures
            r.wf(),
            r@.len() == 0,
    {
        let r = NodeLabel { label_val: [0u8; 32], label_len: 0 };
        proof {
            lemma_mask_bits();
            assert forall|i: int| 0 <= i < 256 implies !val_bit(r.label_val@, i) by {
                assert(r.label_val@[i / 8] == 0u8);
            }
        }
        r
    }

    /// Whether the label is well formed: at most 256 significant bits, and
    /// zero bits beyond them.
    pub fn is_valid(&self) -> (r: bool)
        ensures
            r == self.wf(),
    {
        if self.label_len > LABEL_BITS {
            return false;
        }
        let mut i: u32 = self.label_len;
        while i < LABEL_BITS
            invariant
                self.label_len <= i <= LABEL_BITS,
                forall|j: int| self.label_len <= j < i ==> !val_bit(self.label_val@, j),
            decreases LABEL_BITS - i,
        {
            if self.get_bit(i) {
                return false;
            }
            i = i + 1;
        }
        true
    }

    /// Bit `i` of the value (significant or not).
    pub fn get_bit(&self, i: u32) -> (r: bool)
        requires
            i < LABEL_BITS,
        ensures
            r == val_bit(self.label_val@, i as int),
            i < self.label_len <= LABEL_BITS ==> r == self@[i as int],
    {
        let k: u8 = (i % 8) as u8;
        let b: u8 = self.label_val[(i / 8) as usize];
        proof {
            if i < self.label_len <= LABEL_BITS {
                assert(self@[i as int] == full_bits(self.label_val@)[i as int]);
            }
        }
        ((b >> (7 - k)) & 1u8) == 1u8
    }

    /// Length of the longest common prefix of the two labels' significant bits.
    pub fn get_longest_common_prefix_len(&self, other: &NodeLabel) -> (r: u32)
        requires
            self.wf(),
            other.wf(),
        ensures
            r == common_prefix_len(self@, other@),
    {
        let n: u32 = if self.label_len < other.label_len {
            self.label_len
        } else {
            other.label_len
        };
        let mut i: u32 = 0;
        while i < n && self.get_bit(i) == other.get_bit(i)
            invariant
                n <= self.label_len,
                n <= other.label_len,
                n == self.label_len || n == other.label_len,
                i <= n,
                self.label_len <= LABEL_BITS,
                other.label_len <= LABEL_BITS,
                forall|j: int| 0 <= j < i ==> self@[j] == other@[j],
            decreases n - i,
        {
            i = i + 1;
        }
        proof {
            lemma_common_prefix_len(self@, other@);
            let c = common_prefix_len(self@, other@);
            if c < i {
                assert(self@[c as int] == other@[c as int]);
            }
            if i < c {
                assert(self@[i as int] == other@[i as int]);
            }
        }
        i
    }

    /// The significant bits of `self` are a prefix of those of `other`.
    pub fn is_prefix_of(&self, other: &NodeLabel) -> (r: bool)
        requires
            self.wf(),
            other.wf(),
        ensures
            r == is_prefix_seq(self@, other@),
    {
        let c = self.get_longest_common_prefix_len(other);
        proof {
            lemma_common_prefix_len(self@, other@);
        }
        if self.label_len <= other.label_len && c >= self.label_len {
            true
        } else {
            proof {
                if is_prefix_seq(self@, other@) {
                    if c < self.label_len {
                        assert(self@[c as int] == other@[c as int]);
                    }
                }
            }
            false
        }
    }

    /// The label made of the first `len` significant bits of `self`.
    pub fn get_prefix(&self, len: u32) -> (r: NodeLabel)
        requires
            self.wf(),
            len <= self.label_len,
        ensures
            r.wf(),
            r@ == self@.take(len as int),
    {
        let mut out: [u8; 32] = [0u8; 32];
        let mut j: usize = 0;
        while j < 32
            invariant
                j <= 32,
                len <= LABEL_BITS,
                forall|m: int|
                    0 <= m < j ==> #[trigger] out@[m] == if 8 * m + 8 <= len {
                        self.label_val@[m]
                    } else if 8 * m >= len {
                        0u8
                    } else {
                        self.label_val@[m] & (0xFFu8 << ((8 - (len - 8 * m)) as u8))
                    },
            decreases 32 - j,
        {
            let lo: u32 = 8 * (j as u32);
            let b: u8 = if lo + 8 <= len {
                self.label_val[j]
            } else if lo >= len {
                0u8
            } else {
                let s: u8 = (len - lo) as u8;
                self.label_val[j] & (0xFFu8 << (8 - s))
            };
            out[j] = b;
            j = j + 1;
        }
        let r = NodeLabel { label_val: out, label_len: len };
        proof {
            lemma_mask_bits();
            assert forall|i: int| 0 <= i < 256 implies val_bit(out@, i) == (i < len && val_bit(
                self.label_val@,
                i,
            )) by {
                let m = i / 8;
                let k = (i % 8) as u8;
                assert(0 <= m < 32);
                assert(i == 8 * m + k);
                if 8 * m + 8 <= len {
                } else if 8 * m >= len {
                } else {
                    let s = (len - 8 * m) as u8;
                    assert(byte_bit(self.label_val@[m] & (0xFFu8 << ((8 - s) as u8)), k) <==> (k
                        < s && byte_bit(self.label_val@[m], k)));
                }
            }
            assert(r@ =~= self@.take(len as int));
        }
        r
    }
}

} // verus!
