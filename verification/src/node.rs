use vstd::prelude::*;
use crate::bits::{byte_bits, byte_bit};

verus! {

/// A node of the prefix-code tree: a leaf carries a byte value, an internal
/// node owns exactly two children.
pub enum HuffmanNode {
    Leaf { byte: u8 },
    Internal { left: Box<HuffmanNode>, right: Box<HuffmanNode> },
}

/// The pre-order bit serialization of a node: a leaf is `1` followed by the
/// byte's eight bits, most significant first; an internal node is `0`
/// followed by its left then right child.
pub open spec fn ser_bits(n: HuffmanNode) -> Seq<bool>
    decreases n,
{
    match n {
        HuffmanNode::Leaf { byte } => seq![true] + byte_bits(byte),
        HuffmanNode::Internal { left, right } => seq![false] + ser_bits(*left) + ser_bits(*right),
    }
}

/// The code of byte `b` in the tree under `n`: the root-to-leaf path, `false`
/// for left and `true` for right, to the last leaf in depth-first order that
/// carries `b`; `None` when no leaf does.
pub open spec fn code_in(n: HuffmanNode, b: u8) -> Option<Seq<bool>>
    decreases n,
{
    match n {
        HuffmanNode::Leaf { byte } => if byte == b {
            Some(Seq::<bool>::empty())
        } else {
            None
        },
        HuffmanNode::Internal { left, right } => match code_in(*right, b) {
            Some(c) => Some(seq![true] + c),
            None => match code_in(*left, b) {
                Some(c) => Some(seq![false] + c),
                None => None,
            },
        },
    }
}

/// The code table entry for byte `b`: its code, or the empty sequence when
/// the byte has no leaf.
pub open spec fn code_of(n: HuffmanNode, b: u8) -> Seq<bool> {
    match code_in(n, b) {
        Some(c) => c,
        None => Seq::<bool>::empty(),
    }
}

/// Every byte of `data` has a leaf in the tree under `n`.
pub open spec fn covers(n: HuffmanNode, data: Seq<u8>) -> bool {
    forall|i: int| 0 <= i < data.len() ==> (#[trigger] code_in(n, data[i])) is Some
}

/// The number of leaves under `n`.
pub open spec fn leaf_count(n: HuffmanNode) -> nat
    decreases n,
{
    match n {
        HuffmanNode::Leaf { .. } => 1,
        HuffmanNode::Internal { left, right } => leaf_count(*left) + leaf_count(*right),
    }
}

/// One step of the decode automaton from internal node `n`: each bit from
/// `pos` on selects the left (`false`) or right (`true`) child; reaching a
/// leaf yields its byte and the position after the consumed bits. `None`
/// when the bits run out first.
pub open spec fn walk(n: HuffmanNode, bits: Seq<bool>, pos: int) -> Option<(u8, int)>
    decreases n,
{
    match n {
        HuffmanNode::Leaf { .. } => None,
        HuffmanNode::Internal { left, right } => if !(0 <= pos < bits.len()) {
            None
        } else {
            let child = if bits[pos] {
                *right
            } else {
                *left
            };
            match child {
                HuffmanNode::Leaf { byte } => Some((byte, pos + 1)),
                HuffmanNode::Internal { .. } => walk(child, bits, pos + 1),
            }
        },
    }
}

/// A serialized node takes `10 * leaf_count(n) - 1` bits.
pub proof fn lemma_ser_bits_len(n: HuffmanNode)
    ensures
        ser_bits(n).len() == 10 * leaf_count(n) - 1,
    decreases n,
{
    match n {
        HuffmanNode::Leaf { .. } => {}
        HuffmanNode::Internal { left, right } => {
            lemma_ser_bits_len(*left);
            lemma_ser_bits_len(*right);
        }
    }
}

/// Every node has at least one leaf under it.
pub proof fn lemma_leaf_count_pos(n: HuffmanNode)
    ensures
        leaf_count(n) >= 1,
    decreases n,
{
    match n {
        HuffmanNode::Leaf { .. } => {}
        HuffmanNode::Internal { left, right } => {
            lemma_leaf_count_pos(*left);
            lemma_leaf_count_pos(*right);
        }
    }
}

/// A code is strictly shorter than the tree's leaf count.
pub proof fn lemma_code_len(n: HuffmanNode, b: u8)
    requires
        code_in(n, b) is Some,
    ensures
        code_in(n, b)->0.len() < leaf_count(n),
    decreases n,
{
    match n {
        HuffmanNode::Leaf { .. } => {}
        HuffmanNode::Internal { left, right } => {
            lemma_leaf_count_pos(*left);
            lemma_leaf_count_pos(*right);
            match code_in(*right, b) {
                Some(c) => lemma_code_len(*right, b),
                None => lemma_code_len(*left, b),
            }
        }
    }
}

/// Codes of distinct byte values are prefix-free: neither code is a prefix
/// of the other, whatever tree both were read from.
pub proof fn lemma_prefix_free(n: HuffmanNode, b1: u8, b2: u8)
    requires
        b1 != b2,
        code_in(n, b1) is Some,
        code_in(n, b2) is Some,
    ensures
        !code_in(n, b1)->0.is_prefix_of(code_in(n, b2)->0),
        !code_in(n, b2)->0.is_prefix_of(code_in(n, b1)->0),
    decreases n,
{
    match n {
        HuffmanNode::Leaf { .. } => {}
        HuffmanNode::Internal { left, right } => {
            let c1 = code_in(n, b1)->0;
            let c2 = code_in(n, b2)->0;
            assert(c1.len() >= 1);
            assert(c2.len() >= 1);
            if code_in(*right, b1) is Some && code_in(*right, b2) is Some {
                lemma_prefix_free(*right, b1, b2);
                let d1 = code_in(*right, b1)->0;
                let d2 = code_in(*right, b2)->0;
                assert(c1.skip(1) =~= d1);
                assert(c2.skip(1) =~= d2);
                if c1.is_prefix_of(c2) {
                    assert(d1.is_prefix_of(d2));
                }
                if c2.is_prefix_of(c1) {
                    assert(d2.is_prefix_of(d1));
                }
            } else if code_in(*right, b1) is None && code_in(*right, b2) is None {
                lemma_prefix_free(*left, b1, b2);
                let d1 = code_in(*left, b1)->0;
                let d2 = code_in(*left, b2)->0;
                assert(c1.skip(1) =~= d1);
                assert(c2.skip(1) =~= d2);
                if c1.is_prefix_of(c2) {
                    assert(d1.is_prefix_of(d2));
                }
                if c2.is_prefix_of(c1) {
                    assert(d2.is_prefix_of(d1));
                }
            } else {
                assert(c1[0] != c2[0]);
                if c1.is_prefix_of(c2) {
                    assert(c2[0] == c1[0]);
                }
                if c2.is_prefix_of(c1) {
                    assert(c1[0] == c2[0]);
                }
            }
        }
    }
}

/// Following a byte's code from an internal node reaches that byte's leaf,
/// consuming exactly the code's bits.
pub proof fn lemma_walk_code(n: HuffmanNode, b: u8, bits: Seq<bool>, pos: int)
    requires
        n is Internal,
        code_in(n, b) is Some,
        0 <= pos,
        pos + code_in(n, b)->0.len() <= bits.len(),
        bits.subrange(pos, pos + code_in(n, b)->0.len()) == code_in(n, b)->0,
    ensures
        walk(n, bits, pos) == Some((b, pos + code_in(n, b)->0.len())),
    decreases n,
{
    let c = code_in(n, b)->0;
    match n {
        HuffmanNode::Leaf { .. } => {}
        HuffmanNode::Internal { left, right } => {
            assert(c.len() >= 1);
            assert(bits[pos] == c[0]);
            let (sub, d) = if c[0] {
                (*right, code_in(*right, b)->0)
            } else {
                (*left, code_in(*left, b)->0)
            };
            if c[0] {
                assert(code_in(*right, b) is Some);
                assert(c =~= seq![true] + code_in(*right, b)->0);
            } else {
                assert(code_in(*right, b) is None);
                assert(code_in(*left, b) is Some);
                assert(c =~= seq![false] + code_in(*left, b)->0);
            }
            assert(d =~= c.skip(1));
            assert(bits.subrange(pos + 1, pos + c.len()) =~= d);
            match sub {
                HuffmanNode::Leaf { byte } => {
                    assert(d.len() == 0);
                    assert(byte == b);
                    assert(walk(n, bits, pos) == Some((b, pos + 1)));
                }
                HuffmanNode::Internal { .. } => {
                    assert(bits.subrange(pos + 1, pos + 1 + d.len()) =~= d);
                    lemma_walk_code(sub, b, bits, pos + 1);
                }
            }
        }
    }
}

} // verus!
