use vstd::prelude::*;
use vstd::seq_lib::*;
use crate::node::{HuffmanNode, ser_bits, code_in, code_of, covers, leaf_count, lemma_leaf_count_pos};
use crate::bits::byte_from_8;
use crate::bitbuf::{BitBuf, bits_of, MAX_BITS};
use crate::archive::HuffmanError;

verus! {

/// How many times byte `b` occurs in `data`.
pub open spec fn occurrences(data: Seq<u8>, b: u8) -> nat
    decreases data.len(),
{
    if data.len() == 0 {
        0
    } else {
        occurrences(data.drop_last(), b) + if data.last() == b {
            1nat
        } else {
            0nat
        }
    }
}

/// The 256-entry frequency table of a byte sequence.
pub open spec fn freq_seq(data: Seq<u8>) -> Seq<u64> {
    Seq::new(256, |b: int| occurrences(data, b as u8) as u64)
}

/// A pending node of the merge queue, weighted by its frequency.
pub struct QItem {
    pub freq: u64,
    pub node: HuffmanNode,
}

/// The initial merge queue: one leaf per byte value below `b` with a nonzero
/// count, in ascending byte order.
pub open spec fn init_prefix(freqs: Seq<u64>, b: int) -> Seq<QItem>
    decreases b,
{
    if b <= 0 {
        Seq::empty()
    } else {
        init_prefix(freqs, b - 1) + if freqs[b - 1] > 0 {
            seq![QItem { freq: freqs[b - 1], node: HuffmanNode::Leaf { byte: (b - 1) as u8 } }]
        } else {
            Seq::empty()
        }
    }
}

/// The degenerate cases: an empty alphabet becomes one dummy leaf; a single
/// node is paired with a dummy leaf under an internal root, so the one real
/// byte still gets a nonempty code.
pub open spec fn adjusted(q: Seq<QItem>) -> Seq<QItem> {
    if q.len() == 0 {
        seq![QItem { freq: 0, node: HuffmanNode::Leaf { byte: 0 } }]
    } else if q.len() == 1 {
        seq![
            QItem {
                freq: q[0].freq,
                node: HuffmanNode::Internal {
                    left: Box::new(q[0].node),
                    right: Box::new(HuffmanNode::Leaf { byte: 0 }),
                },
            },
        ]
    } else {
        q
    }
}

/// The first position of least frequency: a later item wins only when its
/// frequency is strictly lower, so equal frequencies keep the earlier item,
/// which is the lower byte value among the initial leaves.
pub open spec fn min_idx(q: Seq<QItem>) -> int
    decreases q.len(),
{
    if q.len() <= 1 {
        0
    } else {
        let m = min_idx(q.drop_last());
        if q.last().freq < q[m].freq {
            q.len() - 1
        } else {
            m
        }
    }
}

pub proof fn lemma_min_idx_bounds(q: Seq<QItem>)
    requires
        q.len() >= 1,
    ensures
        0 <= min_idx(q) < q.len(),
    decreases q.len(),
{
    if q.len() > 1 {
        lemma_min_idx_bounds(q.drop_last());
    }
}

/// What the merge order picks: an item of least frequency, and among equal
/// frequencies the earliest one. The initial queue lists leaves in ascending
/// byte order, so two byte values of equal frequency always merge in
/// ascending-byte-value order.
pub proof fn lemma_min_idx_first_min(q: Seq<QItem>)
    requires
        q.len() >= 1,
    ensures
        forall|k: int| 0 <= k < q.len() ==> q[min_idx(q)].freq <= (#[trigger] q[k]).freq,
        forall|k: int| 0 <= k < min_idx(q) ==> (#[trigger] q[k]).freq > q[min_idx(q)].freq,
    decreases q.len(),
{
    lemma_min_idx_bounds(q);
    if q.len() > 1 {
        lemma_min_idx_bounds(q.drop_last());
        lemma_min_idx_first_min(q.drop_last());
        let m = min_idx(q.drop_last());
        assert forall|k: int| 0 <= k < q.len() - 1 implies q[k] == q.drop_last()[k] by {}
        assert(q.last() == q[q.len() - 1]);
        if q.last().freq < q[m].freq {
            assert(min_idx(q) == q.len() - 1);
        } else {
            assert(min_idx(q) == m);
        }
    }
}

/// Frequency addition, saturating at the top of the range.
pub open spec fn sat_add(a: u64, b: u64) -> u64 {
    if a + b > u64::MAX {
        u64::MAX
    } else {
        (a + b) as u64
    }
}

/// One greedy merge: the two lowest-ordered items leave the queue, first pop
/// left and second pop right, and their merged internal node joins the end.
pub open spec fn merge_step(q: Seq<QItem>) -> Seq<QItem> {
    let i = min_idx(q);
    let l = q[i];
    let q1 = q.remove(i);
    let j = min_idx(q1);
    let r = q1[j];
    let q2 = q1.remove(j);
    q2.push(
        QItem {
            freq: sat_add(l.freq, r.freq),
            node: HuffmanNode::Internal { left: Box::new(l.node), right: Box::new(r.node) },
        },
    )
}

/// The greedy merge run to completion: the single remaining node.
pub open spec fn run_merge(q: Seq<QItem>) -> HuffmanNode
    decreases q.len() when q.len() >= 1 via run_merge_decreases
{
    if q.len() == 1 {
        q[0].node
    } else {
        run_merge(merge_step(q))
    }
}

#[via_fn]
proof fn run_merge_decreases(q: Seq<QItem>) {
    if q.len() > 1 {
        lemma_min_idx_bounds(q);
        lemma_min_idx_bounds(q.remove(min_idx(q)));
    }
}

/// The tree built for a byte sequence: a pure function of its frequency table.
pub open spec fn build_spec(data: Seq<u8>) -> HuffmanNode {
    run_merge(adjusted(init_prefix(freq_seq(data), 256)))
}

pub proof fn lemma_occurrences_le(data: Seq<u8>, b: u8)
    ensures
        occurrences(data, b) <= data.len(),
    decreases data.len(),
{
    if data.len() > 0 {
        lemma_occurrences_le(data.drop_last(), b);
    }
}

/// Tabulates how often each of the 256 byte values occurs in the input.
pub fn count_frequencies(data: &[u8]) -> (freq: Vec<u64>)
    ensures
        freq@.len() == 256,
        forall|b: int| 0 <= b < 256 ==> freq@[b] == occurrences(data@, b as u8),
{
    let mut freq: Vec<u64> = Vec::new();
    let mut k: usize = 0;
    while k < 256
        invariant
            k <= 256,
            freq@.len() == k,
            forall|b: int| 0 <= b < k ==> freq@[b] == 0,
        decreases 256 - k,
    {
        freq.push(0);
        k += 1;
    }
    let mut i: usize = 0;
    while i < data.len()
        invariant
            i <= data@.len(),
            freq@.len() == 256,
            forall|b: int| 0 <= b < 256 ==> freq@[b] == occurrences(data@.take(i as int), b as u8),
        decreases data@.len() - i,
    {
        let b = data[i];
        proof {
            assert(data@.take(i + 1).drop_last() =~= data@.take(i as int));
            assert(data@.take(i + 1).last() == data@[i as int]);
            lemma_occurrences_le(data@.take(i as int), b);
        }
        let c = freq[b as usize];
        freq.set(b as usize, c + 1);
        proof {
            assert forall|v: int| 0 <= v < 256 implies freq@[v] == occurrences(
                data@.take(i + 1),
                v as u8,
            ) by {
                assert(occurrences(data@.take(i + 1), v as u8) == occurrences(
                    data@.take(i as int),
                    v as u8,
                ) + if data@[i as int] == v as u8 {
                    1nat
                } else {
                    0nat
                });
            }
        }
        i += 1;
    }
    proof {
        assert(data@.take(data@.len() as int) =~= data@);
    }
    freq
}

/// The prefix-code tree: a single root node.
pub struct HuffmanTree {
    pub root: Box<HuffmanNode>,
}

impl HuffmanTree {
    /// Builds the tree for `data`: one leaf per occurring byte value, merged
    /// greedily by ascending frequency with ascending-byte tie-break, plus
    /// the dummy-leaf adjustments for empty and single-byte alphabets.
    pub fn build(data: &[u8]) -> (r: HuffmanTree)
        ensures
            *r.root == build_spec(data@),
    {
        let freq = count_frequencies(data);
        let mut queue: Vec<QItem> = Vec::new();
        let mut b: usize = 0;
        while b < 256
            invariant
                b <= 256,
                freq@.len() == 256,
                forall|v: int| 0 <= v < 256 ==> freq@[v] == occurrences(data@, v as u8),
                queue@ == init_prefix(freq@, b as int),
            decreases 256 - b,
        {
            let f = freq[b];
            if f > 0 {
                queue.push(QItem { freq: f, node: HuffmanNode::Leaf { byte: b as u8 } });
                proof {
                    assert(queue@ =~= init_prefix(freq@, b as int) + seq![
                        QItem { freq: freq@[b as int], node: HuffmanNode::Leaf { byte: b as u8 } },
                    ]);
                }
            } else {
                proof {
                    assert(queue@ =~= init_prefix(freq@, b as int) + Seq::<QItem>::empty());
                }
            }
            b += 1;
        }
        proof {
            assert(freq@ =~= freq_seq(data@));
        }
        if queue.len() == 0 {
            queue.push(QItem { freq: 0, node: HuffmanNode::Leaf { byte: 0 } });
        } else if queue.len() == 1 {
            let it = queue.remove(0);
            queue.push(
                QItem {
                    freq: it.freq,
                    node: HuffmanNode::Internal {
                        left: Box::new(it.node),
                        right: Box::new(HuffmanNode::Leaf { byte: 0 }),
                    },
                },
            );
        }
        proof {
            assert(queue@ =~= adjusted(init_prefix(freq_seq(data@), 256)));
        }
        let ghost q0 = queue@;
        while queue.len() > 1
            invariant
                queue@.len() >= 1,
                run_merge(queue@) == run_merge(q0),
            decreases queue@.len(),
        {
            let ghost qcur = queue@;
            let best = min_position(&queue);
            let l = queue.remove(best);
            let best2 = min_position(&queue);
            let r = queue.remove(best2);
            let f = if u64::MAX - l.freq < r.freq {
                u64::MAX
            } else {
                l.freq + r.freq
            };
            proof {
                assert(f == sat_add(l.freq, r.freq));
            }
            queue.push(
                QItem {
                    freq: f,
                    node: HuffmanNode::Internal {
                        left: Box::new(l.node),
                        right: Box::new(r.node),
                    },
                },
            );
            proof {
                assert(queue@ == merge_step(qcur));
                assert(run_merge(qcur) == run_merge(merge_step(qcur)));
            }
        }
        let top = queue.remove(0);
        proof {
            assert(run_merge(q0) == top.node);
        }
        HuffmanTree { root: Box::new(top.node) }
    }
}

impl HuffmanTree {
    /// Emits the tree shape as bits, depth-first pre-order.
    pub fn serialize(&self) -> (r: BitBuf)
        requires
            ser_bits(*self.root).len() <= MAX_BITS,
        ensures
            bits_of(r) == ser_bits(*self.root),
    {
        let mut bitstream = BitBuf::new();
        serialize_recursive(&self.root, &mut bitstream);
        proof {
            assert(Seq::<bool>::empty() + ser_bits(*self.root) =~= ser_bits(*self.root));
        }
        bitstream
    }

    /// Walks the tree to produce, per byte value, its bit-sequence code;
    /// byte values without a leaf map to the empty sequence.
    pub fn get_encoding_table(&self) -> (table: Vec<BitBuf>)
        requires
            leaf_count(*self.root) + 1 <= MAX_BITS,
        ensures
            table@.len() == 256,
            forall|b: int|
                0 <= b < 256 ==> bits_of(#[trigger] table@[b]) == code_of(*self.root, b as u8),
    {
        let mut table: Vec<BitBuf> = Vec::new();
        let mut k: usize = 0;
        while k < 256
            invariant
                k <= 256,
                table@.len() == k,
                forall|b: int| 0 <= b < k ==> bits_of(#[trigger] table@[b]) == Seq::<bool>::empty(),
            decreases 256 - k,
        {
            table.push(BitBuf::new());
            k += 1;
        }
        let mut path = BitBuf::new();
        build_table_recursive(&self.root, &mut table, &mut path);
        proof {
            assert forall|b: int| 0 <= b < 256 implies bits_of(#[trigger] table@[b]) == code_of(
                *self.root,
                b as u8,
            ) by {
                if code_in(*self.root, b as u8) is Some {
                    assert(Seq::<bool>::empty() + code_in(*self.root, b as u8)->0 =~= code_of(
                        *self.root,
                        b as u8,
                    ));
                }
            }
        }
        table
    }

    /// Reads a tree shape back from a bit source, starting at `pos`; fails
    /// when the bits run out before the grammar completes.
    pub fn deserialize_shape(bits: &BitBuf, pos: usize) -> (r: Result<
        (HuffmanTree, usize),
        HuffmanError,
    >)
        ensures
            match r {
                Ok(p) => parse_at(bits_of(*bits), pos as int) == Some((*p.0.root, p.1 as int))
                    && pos < p.1 <= bits_of(*bits).len(),
                Err(e) => parse_at(bits_of(*bits), pos as int) is None
                    && e == HuffmanError::TruncatedArchiveError,
            },
    {
        match deserialize_recursive(bits, pos) {
            Ok((node, p)) => Ok((HuffmanTree { root: Box::new(node) }, p)),
            Err(e) => Err(e),
        }
    }
}

fn serialize_recursive(node: &HuffmanNode, bitstream: &mut BitBuf)
    requires
        bits_of(*old(bitstream)).len() + ser_bits(*node).len() <= MAX_BITS,
    ensures
        bits_of(*final(bitstream)) == bits_of(*old(bitstream)) + ser_bits(*node),
    decreases *node,
{
    match node {
        HuffmanNode::Leaf { byte } => {
            bitstream.push(true);
            bitstream.push_byte(*byte);
            proof {
                assert(bits_of(*bitstream) =~= bits_of(*old(bitstream)) + ser_bits(*node));
            }
        }
        HuffmanNode::Internal { left, right } => {
            proof {
                assert(ser_bits(*node) == seq![false] + ser_bits(**left) + ser_bits(**right));
            }
            bitstream.push(false);
            proof {
                assert(bits_of(*bitstream) =~= bits_of(*old(bitstream)) + seq![false]);
            }
            serialize_recursive(left, bitstream);
            serialize_recursive(right, bitstream);
            proof {
                assert(bits_of(*bitstream) =~= bits_of(*old(bitstream)) + ser_bits(*node));
            }
        }
    }
}

fn build_table_recursive(node: &HuffmanNode, table: &mut Vec<BitBuf>, path: &mut BitBuf)
    requires
        old(table)@.len() == 256,
        bits_of(*old(path)).len() + leaf_count(*node) <= MAX_BITS,
    ensures
        final(table)@.len() == 256,
        bits_of(*final(path)) == bits_of(*old(path)),
        forall|b: int|
            0 <= b < 256 ==> #[trigger] bits_of(final(table)@[b]) == if code_in(
                *node,
                b as u8,
            ) is Some {
                bits_of(*old(path)) + code_in(*node, b as u8)->0
            } else {
                bits_of(old(table)@[b])
            },
    decreases *node,
{
    match node {
        HuffmanNode::Leaf { byte } => {
            let code = path.duplicate();
            table.set(*byte as usize, code);
            proof {
                assert(bits_of(*path) + Seq::<bool>::empty() =~= bits_of(*path));
            }
        }
        HuffmanNode::Internal { left, right } => {
            proof {
                lemma_leaf_count_pos(**left);
                lemma_leaf_count_pos(**right);
            }
            let ghost path0 = bits_of(*path);
            let ghost table0 = table@;
            path.push(false);
            build_table_recursive(left, table, path);
            let r = path.pop();
            proof {
                assert(bits_of(*path) =~= path0);
            }
            let ghost table1 = table@;
            path.push(true);
            build_table_recursive(right, table, path);
            let r2 = path.pop();
            proof {
                assert(bits_of(*path) =~= path0);
                assert forall|b: int| 0 <= b < 256 implies #[trigger] bits_of(table@[b]) == if code_in(
                    *node,
                    b as u8,
                ) is Some {
                    path0 + code_in(*node, b as u8)->0
                } else {
                    bits_of(table0[b])
                } by {
                    if code_in(**right, b as u8) is Some {
                        assert(code_in(*node, b as u8)->0 =~= seq![true] + code_in(
                            **right,
                            b as u8,
                        )->0);
                        assert(path0.push(true) + code_in(**right, b as u8)->0 =~= path0 + (
                        seq![true] + code_in(**right, b as u8)->0));
                    } else if code_in(**left, b as u8) is Some {
                        assert(code_in(*node, b as u8)->0 =~= seq![false] + code_in(
                            **left,
                            b as u8,
                        )->0);
                        assert(path0.push(false) + code_in(**left, b as u8)->0 =~= path0 + (
                        seq![false] + code_in(**left, b as u8)->0));
                        assert(bits_of(table@[b]) == bits_of(table1[b]));
                    } else {
                        assert(code_in(*node, b as u8) is None);
                        assert(bits_of(table@[b]) == bits_of(table1[b]));
                        assert(bits_of(table1[b]) == bits_of(table0[b]));
                    }
                }
            }
        }
    }
}

/// Some item of the queue holds a leaf for byte `v`.
pub open spec fn queue_has(q: Seq<QItem>, v: u8) -> bool {
    exists|i: int| 0 <= i < q.len() && (#[trigger] code_in(q[i].node, v)) is Some
}

/// The total leaf count of a queue.
pub open spec fn qleaves(q: Seq<QItem>) -> nat
    decreases q.len(),
{
    if q.len() == 0 {
        0
    } else {
        qleaves(q.drop_last()) + leaf_count(q.last().node)
    }
}

proof fn lemma_qleaves_remove(q: Seq<QItem>, i: int)
    requires
        0 <= i < q.len(),
    ensures
        qleaves(q.remove(i)) == qleaves(q) - leaf_count(q[i].node),
    decreases q.len(),
{
    if i == q.len() - 1 {
        assert(q.remove(i) =~= q.drop_last());
    } else {
        assert(q.remove(i).drop_last() =~= q.drop_last().remove(i));
        assert(q.remove(i).last() == q.last());
        lemma_qleaves_remove(q.drop_last(), i);
        assert(q.drop_last()[i] == q[i]);
    }
}

proof fn lemma_qleaves_push(q: Seq<QItem>, x: QItem)
    ensures
        qleaves(q.push(x)) == qleaves(q) + leaf_count(x.node),
{
    assert(q.push(x).drop_last() =~= q);
    assert(q.push(x).last() == x);
}

/// The merged tree has exactly the leaves the queue held.
pub proof fn lemma_run_merge_leaves(q: Seq<QItem>)
    requires
        q.len() >= 1,
    ensures
        leaf_count(run_merge(q)) == qleaves(q),
    decreases q.len(),
{
    if q.len() == 1 {
        assert(q.drop_last() =~= Seq::<QItem>::empty());
        assert(qleaves(Seq::<QItem>::empty()) == 0);
        assert(q.last() == q[0]);
        assert(qleaves(q) == leaf_count(q[0].node));
        assert(run_merge(q) == q[0].node);
    } else {
        lemma_min_idx_bounds(q);
        let i = min_idx(q);
        let q1 = q.remove(i);
        lemma_min_idx_bounds(q1);
        let j = min_idx(q1);
        lemma_qleaves_remove(q, i);
        lemma_qleaves_remove(q1, j);
        let merged = QItem {
            freq: sat_add(q[i].freq, q1[j].freq),
            node: HuffmanNode::Internal {
                left: Box::new(q[i].node),
                right: Box::new(q1[j].node),
            },
        };
        lemma_qleaves_push(q1.remove(j), merged);
        assert(leaf_count(merged.node) == leaf_count(q[i].node) + leaf_count(q1[j].node));
        assert(qleaves(merge_step(q)) == qleaves(q));
        lemma_run_merge_leaves(merge_step(q));
        assert(run_merge(q) == run_merge(merge_step(q)));
    }
}

proof fn lemma_merge_keeps_has(q: Seq<QItem>, v: u8)
    requires
        q.len() >= 2,
        queue_has(q, v),
    ensures
        queue_has(merge_step(q), v),
{
    lemma_min_idx_bounds(q);
    let i = min_idx(q);
    let q1 = q.remove(i);
    lemma_min_idx_bounds(q1);
    let j = min_idx(q1);
    let q2 = q1.remove(j);
    let merged = QItem {
        freq: sat_add(q[i].freq, q1[j].freq),
        node: HuffmanNode::Internal { left: Box::new(q[i].node), right: Box::new(q1[j].node) },
    };
    assert(code_in(merged.node, v) is Some <==> (code_in(q[i].node, v) is Some || code_in(
        q1[j].node,
        v,
    ) is Some));
    let i0 = choose|i0: int| 0 <= i0 < q.len() && (#[trigger] code_in(q[i0].node, v)) is Some;
    if i0 == i {
        assert(merge_step(q)[q2.len() as int] == merged);
        assert(queue_has(merge_step(q), v));
    } else {
        let i1: int = if i0 < i {
            i0
        } else {
            i0 - 1
        };
        assert(q1[i1] == q[i0]);
        if i1 == j {
            assert(merge_step(q)[q2.len() as int] == merged);
            assert(queue_has(merge_step(q), v));
        } else {
            let i2: int = if i1 < j {
                i1
            } else {
                i1 - 1
            };
            assert(q2[i2] == q1[i1]);
            assert(merge_step(q)[i2] == q2[i2]);
            assert(queue_has(merge_step(q), v));
        }
    }
}

/// Every byte the queue covers ends with a code in the merged tree.
pub proof fn lemma_run_merge_has(q: Seq<QItem>, v: u8)
    requires
        q.len() >= 1,
        queue_has(q, v),
    ensures
        code_in(run_merge(q), v) is Some,
    decreases q.len(),
{
    if q.len() == 1 {
        let i0 = choose|i0: int| 0 <= i0 < q.len() && (#[trigger] code_in(q[i0].node, v)) is Some;
        assert(i0 == 0);
    } else {
        lemma_merge_keeps_has(q, v);
        lemma_min_idx_bounds(q);
        lemma_min_idx_bounds(q.remove(min_idx(q)));
        lemma_run_merge_has(merge_step(q), v);
    }
}

/// A merged queue of two or more items yields an internal root.
pub proof fn lemma_run_merge_internal(q: Seq<QItem>)
    requires
        q.len() >= 2,
    ensures
        run_merge(q) is Internal,
    decreases q.len(),
{
    lemma_min_idx_bounds(q);
    lemma_min_idx_bounds(q.remove(min_idx(q)));
    if q.len() == 2 {
        let m = merge_step(q);
        assert(m.len() == 1);
        assert(m[0].node is Internal);
        assert(run_merge(q) == run_merge(m));
        assert(run_merge(m) == m[0].node);
    } else {
        lemma_run_merge_internal(merge_step(q));
    }
}

proof fn lemma_init_prefix_has(freqs: Seq<u64>, b: int, v: u8)
    requires
        0 <= v < b <= 256,
        freqs[v as int] > 0,
    ensures
        queue_has(init_prefix(freqs, b), v),
    decreases b,
{
    let q = init_prefix(freqs, b);
    if v == b - 1 {
        assert(code_in(q[q.len() - 1].node, v) is Some);
    } else {
        lemma_init_prefix_has(freqs, b - 1, v);
        let qp = init_prefix(freqs, b - 1);
        let i0 = choose|i0: int| 0 <= i0 < qp.len() && (#[trigger] code_in(qp[i0].node, v)) is Some;
        assert(q[i0] == qp[i0]);
    }
}

proof fn lemma_init_prefix_leaves(freqs: Seq<u64>, b: int)
    requires
        b >= 0,
    ensures
        qleaves(init_prefix(freqs, b)) <= b,
        init_prefix(freqs, b).len() <= b,
    decreases b,
{
    if b > 0 {
        lemma_init_prefix_leaves(freqs, b - 1);
        let qp = init_prefix(freqs, b - 1);
        if freqs[b - 1] > 0 {
            lemma_qleaves_push(
                qp,
                QItem { freq: freqs[b - 1], node: HuffmanNode::Leaf { byte: (b - 1) as u8 } },
            );
            assert(qp + seq![
                QItem { freq: freqs[b - 1], node: HuffmanNode::Leaf { byte: (b - 1) as u8 } },
            ] =~= qp.push(
                QItem { freq: freqs[b - 1], node: HuffmanNode::Leaf { byte: (b - 1) as u8 } },
            ));
        } else {
            assert(qp + Seq::<QItem>::empty() =~= qp);
        }
    }
}

/// Byte `i` of `data` occurs in it.
pub proof fn lemma_occurrences_mem(data: Seq<u8>, i: int)
    requires
        0 <= i < data.len(),
    ensures
        occurrences(data, data[i]) > 0,
    decreases data.len(),
{
    if i == data.len() - 1 {
    } else {
        lemma_occurrences_mem(data.drop_last(), i);
    }
}

/// The built tree covers every byte of the data it was built for.
pub proof fn lemma_build_covers(data: Seq<u8>)
    requires
        data.len() <= u64::MAX,
    ensures
        covers(build_spec(data), data),
    decreases data.len(),
{
    let freqs = freq_seq(data);
    let q = init_prefix(freqs, 256);
    assert forall|i: int| 0 <= i < data.len() implies (#[trigger] code_in(
        build_spec(data),
        data[i],
    )) is Some by {
        let v = data[i];
        lemma_occurrences_mem(data, i);
        lemma_occurrences_le(data, v);
        assert(freqs[v as int] == occurrences(data, v) as u64);
        assert(freqs[v as int] > 0);
        lemma_init_prefix_has(freqs, 256, v);
        let a = adjusted(q);
        if q.len() == 1 {
            let i0 = choose|i0: int|
                0 <= i0 < q.len() && (#[trigger] code_in(q[i0].node, v)) is Some;
            assert(i0 == 0);
            assert(code_in(a[0].node, v) is Some);
            assert(queue_has(a, v));
        } else {
            assert(a == q);
        }
        lemma_run_merge_has(a, v);
    }
}

/// The built tree has at most 257 leaves.
pub proof fn lemma_build_leaf_count(data: Seq<u8>)
    ensures
        leaf_count(build_spec(data)) <= 257,
{
    let freqs = freq_seq(data);
    let q = init_prefix(freqs, 256);
    lemma_init_prefix_leaves(freqs, 256);
    let a = adjusted(q);
    if q.len() == 0 {
        assert(a.drop_last() =~= Seq::<QItem>::empty());
        assert(qleaves(a) == 1);
    } else if q.len() == 1 {
        assert(a.drop_last() =~= Seq::<QItem>::empty());
        assert(q.drop_last() =~= Seq::<QItem>::empty());
        assert(a[0].node == HuffmanNode::Internal {
            left: Box::new(q[0].node),
            right: Box::new(HuffmanNode::Leaf { byte: 0 }),
        });
        assert(leaf_count(HuffmanNode::Leaf { byte: 0 }) == 1);
        assert(leaf_count(a[0].node) == leaf_count(q[0].node) + 1);
        assert(qleaves(a) == qleaves(q) + 1);
    } else {
        assert(a == q);
    }
    lemma_run_merge_leaves(a);
}

/// Data with at least one byte gets an internal root.
pub proof fn lemma_build_internal(data: Seq<u8>)
    requires
        0 < data.len() <= u64::MAX,
    ensures
        build_spec(data) is Internal,
{
    let freqs = freq_seq(data);
    let q = init_prefix(freqs, 256);
    lemma_occurrences_mem(data, 0);
    lemma_occurrences_le(data, data[0]);
    assert(freqs[data[0] as int] == occurrences(data, data[0]) as u64);
    lemma_init_prefix_has(freqs, 256, data[0]);
    assert(q.len() >= 1);
    let a = adjusted(q);
    if q.len() == 1 {
        assert(a[0].node is Internal);
    } else {
        lemma_run_merge_internal(a);
    }
}

/// The mirror-image parse of the serialization grammar, reading from `pos`
/// with a recursion allowance of `fuel`: `None` when the bits run out first.
pub open spec fn parse_node(bits: Seq<bool>, pos: int, fuel: nat) -> Option<(HuffmanNode, int)>
    decreases fuel,
{
    if fuel == 0 {
        None
    } else if !(0 <= pos < bits.len()) {
        None
    } else if bits[pos] {
        if pos + 9 <= bits.len() {
            Some(
                (
                    HuffmanNode::Leaf {
                        byte: byte_from_8(
                            bits[pos + 1], bits[pos + 2], bits[pos + 3], bits[pos + 4],
                            bits[pos + 5], bits[pos + 6], bits[pos + 7], bits[pos + 8],
                        ),
                    },
                    pos + 9,
                ),
            )
        } else {
            None
        }
    } else {
        match parse_node(bits, pos + 1, (fuel - 1) as nat) {
            None => None,
            Some((l, p1)) => match parse_node(bits, p1, (fuel - 1) as nat) {
                None => None,
                Some((r, p2)) => Some(
                    (HuffmanNode::Internal { left: Box::new(l), right: Box::new(r) }, p2),
                ),
            },
        }
    }
}

/// The parse with fuel enough for any well-formed input.
pub open spec fn parse_at(bits: Seq<bool>, pos: int) -> Option<(HuffmanNode, int)> {
    parse_node(bits, pos, (bits.len() + 1) as nat)
}

/// A successful parse moves the position strictly forward and stays in bounds.
pub proof fn lemma_parse_pos(bits: Seq<bool>, pos: int, fuel: nat)
    requires
        parse_node(bits, pos, fuel) is Some,
    ensures
        pos < (parse_node(bits, pos, fuel)->0).1 <= bits.len(),
        0 <= pos,
    decreases fuel,
{
    if !(0 <= pos < bits.len()) {
    } else if bits[pos] {
    } else {
        match parse_node(bits, pos + 1, (fuel - 1) as nat) {
            None => {}
            Some((l, p1)) => {
                lemma_parse_pos(bits, pos + 1, (fuel - 1) as nat);
                lemma_parse_pos(bits, p1, (fuel - 1) as nat);
            }
        }
    }
}

/// Once the fuel covers the remaining bits, more fuel does not change the parse.
pub proof fn lemma_parse_stable(bits: Seq<bool>, pos: int, f1: nat, f2: nat)
    requires
        f1 >= bits.len() - pos + 1,
        f2 >= bits.len() - pos + 1,
    ensures
        parse_node(bits, pos, f1) == parse_node(bits, pos, f2),
    decreases bits.len() - pos,
{
    if !(0 <= pos < bits.len()) {
    } else if bits[pos] {
    } else {
        lemma_parse_stable(bits, pos + 1, (f1 - 1) as nat, (f2 - 1) as nat);
        match parse_node(bits, pos + 1, (f1 - 1) as nat) {
            None => {}
            Some((l, p1)) => {
                lemma_parse_pos(bits, pos + 1, (f1 - 1) as nat);
                lemma_parse_stable(bits, p1, (f1 - 1) as nat, (f2 - 1) as nat);
            }
        }
    }
}

/// Parsing a serialized node back from the bit stream yields that node and
/// consumes exactly its serialization.
pub proof fn lemma_parse_ser(n: HuffmanNode, bits: Seq<bool>, pos: int)
    requires
        0 <= pos,
        pos + ser_bits(n).len() <= bits.len(),
        bits.subrange(pos, pos + ser_bits(n).len() as int) == ser_bits(n),
    ensures
        parse_at(bits, pos) == Some((n, pos + ser_bits(n).len())),
    decreases n,
{
    let len = bits.len() as int;
    let sn = ser_bits(n);
    match n {
        HuffmanNode::Leaf { byte } => {
            assert(sn.len() == 9);
            assert(sn[0]);
            assert(bits[pos] == sn[0]);
            assert forall|k: int| 0 <= k < 8 implies bits[pos + 1 + k] == crate::bits::byte_bit(
                byte,
                k,
            ) by {
                assert(bits[pos + 1 + k] == sn[1 + k]);
                assert(sn[1 + k] == crate::bits::byte_bits(byte)[k]);
            }
            crate::bits::lemma_byte_bits_inverse(byte);
            assert(byte_from_8(
                bits[pos + 1], bits[pos + 2], bits[pos + 3], bits[pos + 4], bits[pos + 5],
                bits[pos + 6], bits[pos + 7], bits[pos + 8],
            ) == byte);
        }
        HuffmanNode::Internal { left, right } => {
            let sl = ser_bits(*left);
            let sr = ser_bits(*right);
            assert(sn == seq![false] + sl + sr);
            assert(!sn[0]);
            assert(bits[pos] == sn[0]);
            assert forall|i: int| 0 <= i < sn.len() implies bits[pos + i] == sn[i] by {
                assert(bits.subrange(pos, pos + sn.len() as int)[i] == bits[pos + i]);
            }
            assert forall|k: int| 0 <= k < sl.len() implies #[trigger] bits[pos + 1 + k]
                == sl[k] by {
                assert(bits[pos + 1 + k] == sn[1 + k]);
                assert((seq![false] + sl)[1 + k] == sl[k]);
                assert(sn[1 + k] == sl[k]);
            }
            assert_seqs_equal!(bits.subrange(pos + 1, pos + 1 + sl.len() as int) == sl, k => {
                assert(bits[pos + 1 + k] == sn[1 + k]);
                assert((seq![false] + sl)[1 + k] == sl[k]);
                assert(sn[1 + k] == sl[k]);
            });
            lemma_parse_ser(*left, bits, pos + 1);
            lemma_parse_stable(bits, pos + 1, len as nat, (len + 1) as nat);
            let p1 = pos + 1 + sl.len() as int;
            assert forall|k: int| 0 <= k < sr.len() implies #[trigger] bits[p1 + k] == sr[k] by {
                assert(bits[p1 + k] == sn[1 + sl.len() + k]);
                assert(sn[1 + sl.len() + k] == sr[k]);
            }
            assert_seqs_equal!(bits.subrange(p1, p1 + sr.len() as int) == sr, k => {
                assert(bits[p1 + k] == sn[1 + sl.len() + k]);
                assert(sn[1 + sl.len() + k] == sr[k]);
            });
            lemma_parse_ser(*right, bits, p1);
            lemma_parse_stable(bits, p1, len as nat, (len + 1) as nat);
            assert(parse_node(bits, pos + 1, len as nat) == Some((*left, p1)));
            assert(parse_node(bits, p1, len as nat) == Some((*right, p1 + sr.len())));
            assert(parse_at(bits, pos) == Some(
                (
                    HuffmanNode::Internal { left: Box::new(*left), right: Box::new(*right) },
                    p1 + sr.len(),
                ),
            ));
        }
    }
}

fn deserialize_recursive(bits: &BitBuf, pos: usize) -> (r: Result<
    (HuffmanNode, usize),
    HuffmanError,
>)
    ensures
        match r {
            Ok(p) => parse_at(bits_of(*bits), pos as int) == Some((p.0, p.1 as int)) && pos < p.1
                <= bits_of(*bits).len(),
            Err(e) => parse_at(bits_of(*bits), pos as int) is None
                && e == HuffmanError::TruncatedArchiveError,
        },
    decreases bits_of(*bits).len() - pos,
{
    let ghost bs = bits_of(*bits);
    let ghost len = bs.len() as int;
    let n = bits.len();
    if pos >= n {
        return Err(HuffmanError::TruncatedArchiveError);
    }
    let is_leaf = bits.get(pos);
    if is_leaf {
        if n - pos < 9 {
            proof {
                assert(parse_at(bs, pos as int) is None);
            }
            return Err(HuffmanError::TruncatedArchiveError);
        }
        let b0 = bits.get(pos + 1);
        let b1 = bits.get(pos + 2);
        let b2 = bits.get(pos + 3);
        let b3 = bits.get(pos + 4);
        let b4 = bits.get(pos + 5);
        let b5 = bits.get(pos + 6);
        let b6 = bits.get(pos + 7);
        let b7 = bits.get(pos + 8);
        let byte = (if b0 { 0x80u8 } else { 0u8 }) | (if b1 { 0x40u8 } else { 0u8 })
            | (if b2 { 0x20u8 } else { 0u8 }) | (if b3 { 0x10u8 } else { 0u8 })
            | (if b4 { 0x08u8 } else { 0u8 }) | (if b5 { 0x04u8 } else { 0u8 })
            | (if b6 { 0x02u8 } else { 0u8 }) | (if b7 { 0x01u8 } else { 0u8 });
        proof {
            assert(byte == byte_from_8(b0, b1, b2, b3, b4, b5, b6, b7));
        }
        Ok((HuffmanNode::Leaf { byte }, pos + 9))
    } else {
        proof {
            lemma_parse_stable(bs, pos + 1, (len + 1 - 1) as nat, (len + 1) as nat);
        }
        match deserialize_recursive(bits, pos + 1) {
            Err(e) => Err(e),
            Ok((l, p1)) => {
                proof {
                    lemma_parse_pos(bs, pos as int + 1, (len + 1) as nat);
                    lemma_parse_stable(bs, p1 as int, (len + 1 - 1) as nat, (len + 1) as nat);
                }
                match deserialize_recursive(bits, p1) {
                    Err(e) => Err(e),
                    Ok((rn, p2)) => Ok(
                        (HuffmanNode::Internal { left: Box::new(l), right: Box::new(rn) }, p2),
                    ),
                }
            }
        }
    }
}

/// The position `min_idx` names: the first item of least frequency.
fn min_position(queue: &Vec<QItem>) -> (best: usize)
    requires
        queue@.len() >= 1,
    ensures
        best as int == min_idx(queue@),
        best < queue@.len(),
{
    let mut best: usize = 0;
    let mut k: usize = 1;
    while k < queue.len()
        invariant
            1 <= k <= queue@.len(),
            best < k,
            best as int == min_idx(queue@.take(k as int)),
        decreases queue@.len() - k,
    {
        proof {
            assert(queue@.take(k + 1).drop_last() =~= queue@.take(k as int));
            assert(queue@.take(k + 1).last() == queue@[k as int]);
            lemma_min_idx_bounds(queue@.take(k as int));
            assert(queue@.take(k + 1)[best as int] == queue@[best as int]);
        }
        if queue[k].freq < queue[best].freq {
            best = k;
        }
        k += 1;
    }
    proof {
        assert(queue@.take(queue@.len() as int) =~= queue@);
    }
    best
}

} // verus!
