use vstd::prelude::*;
use crate::bits::{
    byte_bits, bytes_to_bits, padded, pad_len, be64_bytes, be64_byte, be64_from_8,
    lemma_bytes_to_bits_push, lemma_bytes_to_bits_append, lemma_bytes_to_bits_len,
};
use crate::bitbuf::{BitBuf, bits_of, MAX_BITS};
use crate::node::{
    HuffmanNode, ser_bits, code_of, code_in, covers, walk, leaf_count, lemma_ser_bits_len,
    lemma_code_len,
};
use crate::tree::{
    HuffmanTree, build_spec, parse_at, lemma_build_covers, lemma_build_leaf_count,
};

verus! {

/// Why a decompression was rejected.
#[derive(Clone, Copy, Debug, PartialEq, Eq, Structural)]
pub enum HuffmanError {
    /// The archive is shorter than the fixed header or its magic value is wrong.
    FormatError,
    /// The bit stream ran out during tree deserialization or payload decoding.
    TruncatedArchiveError,
    /// A traversal bit asked for a child of a leaf.
    MalformedTreeError,
}

/// The 18-byte header: the magic value, then the serialized tree's bit
/// length and the original data's byte length, both big-endian.
pub open spec fn hdr_bytes(tree_len: u64, data_len: u64) -> Seq<u8> {
    seq![0x4Au8, 0x50u8] + be64_bytes(tree_len) + be64_bytes(data_len)
}

/// The payload: each data byte's code, concatenated in order.
pub open spec fn payload_bits(t: HuffmanNode, d: Seq<u8>) -> Seq<bool>
    decreases d.len(),
{
    if d.len() == 0 {
        Seq::empty()
    } else {
        code_of(t, d[0]) + payload_bits(t, d.drop_first())
    }
}

/// The whole archive as bits: header, tree shape, payload.
pub open spec fn archive_bits(t: HuffmanNode, d: Seq<u8>) -> Seq<bool> {
    bytes_to_bits(hdr_bytes(ser_bits(t).len() as u64, d.len() as u64)) + ser_bits(t)
        + payload_bits(t, d)
}

pub open spec fn total_bits(t: HuffmanNode, d: Seq<u8>) -> int {
    144 + ser_bits(t).len() as int + payload_bits(t, d).len() as int
}

/// `a` is the archive that compressing `d` produces: the padded archive bits
/// of the tree built for `d`, packed into bytes.
pub open spec fn is_archive_for(a: Seq<u8>, d: Seq<u8>) -> bool {
    &&& 8 * a.len() == padded(archive_bits(build_spec(d), d)).len()
    &&& bytes_to_bits(a) == padded(archive_bits(build_spec(d), d))
}

/// The decode automaton run to `remaining` output bytes: each walk from the
/// root emits one byte; the bits running out is a truncation, a walk asked
/// of a leaf root is a malformed tree.
pub open spec fn decode_all(root: HuffmanNode, bits: Seq<bool>, pos: int, remaining: nat)
    -> Result<Seq<u8>, HuffmanError>
    decreases remaining,
{
    if remaining == 0 {
        Ok(Seq::empty())
    } else if !(root is Internal) {
        Err(HuffmanError::MalformedTreeError)
    } else {
        match walk(root, bits, pos) {
            None => Err(HuffmanError::TruncatedArchiveError),
            Some((b, p2)) => match decode_all(root, bits, p2, (remaining - 1) as nat) {
                Ok(s) => Ok(seq![b] + s),
                Err(e) => Err(e),
            },
        }
    }
}

/// What decompression returns on any byte sequence: the header checks, the
/// tree parse, then the decode automaton.
pub open spec fn decompress_spec(bytes: Seq<u8>) -> Result<Seq<u8>, HuffmanError> {
    if bytes.len() < 18 {
        Err(HuffmanError::FormatError)
    } else if bytes[0] != 0x4Au8 || bytes[1] != 0x50u8 {
        Err(HuffmanError::FormatError)
    } else {
        let bits = bytes_to_bits(bytes);
        let dlen = be64_from_8(
            bytes[10], bytes[11], bytes[12], bytes[13], bytes[14], bytes[15], bytes[16],
            bytes[17],
        );
        match parse_at(bits, 144) {
            None => Err(HuffmanError::TruncatedArchiveError),
            Some((root, p)) => decode_all(root, bits, p, dlen as nat),
        }
    }
}

pub proof fn lemma_payload_push(t: HuffmanNode, d: Seq<u8>, x: u8)
    ensures
        payload_bits(t, d.push(x)) == payload_bits(t, d) + code_of(t, x),
    decreases d.len(),
{
    if d.len() == 0 {
        assert(d.push(x).drop_first() =~= Seq::<u8>::empty());
        assert(d.push(x)[0] == x);
        assert(payload_bits(t, Seq::<u8>::empty()) == Seq::<bool>::empty());
        assert(payload_bits(t, d.push(x)) == code_of(t, x) + Seq::<bool>::empty());
        assert(payload_bits(t, d) == Seq::<bool>::empty());
        assert(code_of(t, x) + Seq::<bool>::empty() =~= code_of(t, x));
        assert(Seq::<bool>::empty() + code_of(t, x) =~= code_of(t, x));
    } else {
        lemma_payload_push(t, d.drop_first(), x);
        assert(d.push(x).drop_first() =~= d.drop_first().push(x));
        assert(d.push(x)[0] == d[0]);
        assert(payload_bits(t, d.push(x)) == code_of(t, d[0]) + payload_bits(
            t,
            d.drop_first().push(x),
        ));
        assert(payload_bits(t, d) == code_of(t, d[0]) + payload_bits(t, d.drop_first()));
        assert(code_of(t, d[0]) + (payload_bits(t, d.drop_first()) + code_of(t, x)) =~= (code_of(
            t,
            d[0],
        ) + payload_bits(t, d.drop_first())) + code_of(t, x));
    }
}

pub proof fn lemma_payload_take_step(t: HuffmanNode, d: Seq<u8>, i: int)
    requires
        0 <= i < d.len(),
    ensures
        payload_bits(t, d.take(i + 1)) == payload_bits(t, d.take(i)) + code_of(t, d[i]),
{
    assert(d.take(i + 1) =~= d.take(i).push(d[i]));
    lemma_payload_push(t, d.take(i), d[i]);
}

pub proof fn lemma_payload_take_le(t: HuffmanNode, d: Seq<u8>, i: int)
    requires
        0 <= i <= d.len(),
    ensures
        payload_bits(t, d.take(i)).len() <= payload_bits(t, d).len(),
    decreases d.len() - i,
{
    if i == d.len() {
        assert(d.take(i) =~= d);
    } else {
        lemma_payload_take_step(t, d, i);
        lemma_payload_take_le(t, d, i + 1);
    }
}

/// When every code is at most `c` bits, the payload is at most `c` bits per byte.
pub proof fn lemma_payload_len_bound(t: HuffmanNode, d: Seq<u8>, c: int)
    requires
        forall|b: u8| (#[trigger] code_in(t, b)) is Some ==> (code_in(t, b)->0).len() <= c,
        c >= 0,
    ensures
        payload_bits(t, d).len() <= c * d.len(),
    decreases d.len(),
{
    if d.len() == 0 {
    } else {
        lemma_payload_len_bound(t, d.drop_first(), c);
        assert(code_of(t, d[0]).len() <= c);
        assert(c * (d.len() - 1) + c == c * d.len()) by (nonlinear_arith);
    }
}

/// The unit archive type: compression and decompression live on it.
pub struct HuffmanArchive;

fn push_u64_be(buf: &mut BitBuf, n: u64)
    requires
        bits_of(*old(buf)).len() + 64 <= MAX_BITS,
    ensures
        bits_of(*final(buf)) == bits_of(*old(buf)) + bytes_to_bits(be64_bytes(n)),
{
    let b0 = ((n >> 56u64) & 0xFFu64) as u8;
    let b1 = ((n >> 48u64) & 0xFFu64) as u8;
    let b2 = ((n >> 40u64) & 0xFFu64) as u8;
    let b3 = ((n >> 32u64) & 0xFFu64) as u8;
    let b4 = ((n >> 24u64) & 0xFFu64) as u8;
    let b5 = ((n >> 16u64) & 0xFFu64) as u8;
    let b6 = ((n >> 8u64) & 0xFFu64) as u8;
    let b7 = (n & 0xFFu64) as u8;
    buf.push_byte(b0);
    buf.push_byte(b1);
    buf.push_byte(b2);
    buf.push_byte(b3);
    buf.push_byte(b4);
    buf.push_byte(b5);
    buf.push_byte(b6);
    buf.push_byte(b7);
    proof {
        assert((n & 0xFFu64) as u8 == ((n >> 0u64) & 0xFFu64) as u8) by (bit_vector);
        assert(b0 == be64_byte(n, 0));
        assert(b1 == be64_byte(n, 1));
        assert(b2 == be64_byte(n, 2));
        assert(b3 == be64_byte(n, 3));
        assert(b4 == be64_byte(n, 4));
        assert(b5 == be64_byte(n, 5));
        assert(b6 == be64_byte(n, 6));
        assert(b7 == be64_byte(n, 7));
        lemma_bytes8_bits(b0, b1, b2, b3, b4, b5, b6, b7);
        assert(be64_bytes(n) =~= seq![b0, b1, b2, b3, b4, b5, b6, b7]);
        assert(bits_of(*buf) =~= bits_of(*old(buf)) + bytes_to_bits(be64_bytes(n)));
    }
}

proof fn lemma_bytes8_bits(b0: u8, b1: u8, b2: u8, b3: u8, b4: u8, b5: u8, b6: u8, b7: u8)
    ensures
        bytes_to_bits(seq![b0, b1, b2, b3, b4, b5, b6, b7]) == byte_bits(b0) + byte_bits(b1)
            + byte_bits(b2) + byte_bits(b3) + byte_bits(b4) + byte_bits(b5) + byte_bits(b6)
            + byte_bits(b7),
{
    let e = Seq::<u8>::empty();
    lemma_bytes_to_bits_push(e, b0);
    assert(e.push(b0) =~= seq![b0]);
    assert(bytes_to_bits(e) + byte_bits(b0) =~= byte_bits(b0));
    lemma_bytes_to_bits_push(seq![b0], b1);
    assert(seq![b0].push(b1) =~= seq![b0, b1]);
    lemma_bytes_to_bits_push(seq![b0, b1], b2);
    assert(seq![b0, b1].push(b2) =~= seq![b0, b1, b2]);
    lemma_bytes_to_bits_push(seq![b0, b1, b2], b3);
    assert(seq![b0, b1, b2].push(b3) =~= seq![b0, b1, b2, b3]);
    lemma_bytes_to_bits_push(seq![b0, b1, b2, b3], b4);
    assert(seq![b0, b1, b2, b3].push(b4) =~= seq![b0, b1, b2, b3, b4]);
    lemma_bytes_to_bits_push(seq![b0, b1, b2, b3, b4], b5);
    assert(seq![b0, b1, b2, b3, b4].push(b5) =~= seq![b0, b1, b2, b3, b4, b5]);
    lemma_bytes_to_bits_push(seq![b0, b1, b2, b3, b4, b5], b6);
    assert(seq![b0, b1, b2, b3, b4, b5].push(b6) =~= seq![b0, b1, b2, b3, b4, b5, b6]);
    lemma_bytes_to_bits_push(seq![b0, b1, b2, b3, b4, b5, b6], b7);
    assert(seq![b0, b1, b2, b3, b4, b5, b6].push(b7) =~= seq![b0, b1, b2, b3, b4, b5, b6, b7]);
}

impl HuffmanArchive {
    /// Assembles the archive bits for `data` under `tree`: header, serialized
    /// tree shape, then each data byte's code in order.
    pub fn compress(data: &[u8], tree: &HuffmanTree) -> (r: BitBuf)
        requires
            covers(*tree.root, data@),
            total_bits(*tree.root, data@) <= MAX_BITS,
        ensures
            bits_of(r) == archive_bits(*tree.root, data@),
    {
        let ghost t = *tree.root;
        proof {
            lemma_ser_bits_len(t);
        }
        let tree_bits = tree.serialize();
        let table = tree.get_encoding_table();
        let tree_len = tree_bits.len();
        let data_len = data.len();

        let mut archive = BitBuf::new();
        archive.push_byte(0x4A);
        archive.push_byte(0x50);
        proof {
            lemma_bytes_to_bits_len(be64_bytes(tree_len as u64));
            lemma_bytes_to_bits_len(be64_bytes(data_len as u64));
        }
        push_u64_be(&mut archive, tree_len as u64);
        push_u64_be(&mut archive, data_len as u64);
        proof {
            let e = Seq::<u8>::empty();
            lemma_bytes_to_bits_push(e, 0x4Au8);
            assert(e.push(0x4Au8) =~= seq![0x4Au8]);
            assert(Seq::<bool>::empty() + byte_bits(0x4Au8) =~= byte_bits(0x4Au8));
            assert(bytes_to_bits(e) + byte_bits(0x4Au8) =~= byte_bits(0x4Au8));
            lemma_bytes_to_bits_push(seq![0x4Au8], 0x50u8);
            assert(seq![0x4Au8].push(0x50u8) =~= seq![0x4Au8, 0x50u8]);
            lemma_bytes_to_bits_append(seq![0x4Au8, 0x50u8], be64_bytes(tree_len as u64));
            lemma_bytes_to_bits_append(
                seq![0x4Au8, 0x50u8] + be64_bytes(tree_len as u64),
                be64_bytes(data_len as u64),
            );
            assert(hdr_bytes(tree_len as u64, data_len as u64) =~= (seq![0x4Au8, 0x50u8]
                + be64_bytes(tree_len as u64)) + be64_bytes(data_len as u64));
            assert(bits_of(archive) =~= bytes_to_bits(
                hdr_bytes(ser_bits(t).len() as u64, data@.len() as u64),
            ));
        }
        let ghost hdr = bits_of(archive);
        archive.extend(&tree_bits);
        let ghost pre = bits_of(archive);
        proof {
            assert(pre == hdr + ser_bits(t));
            assert(hdr.len() == 144) by {
                lemma_bytes_to_bits_len(hdr_bytes(ser_bits(t).len() as u64, data@.len() as u64));
            }
        }
        let mut i: usize = 0;
        while i < data.len()
            invariant
                i <= data@.len(),
                covers(t, data@),
                total_bits(t, data@) <= MAX_BITS,
                pre.len() == 144 + ser_bits(t).len(),
                table@.len() == 256,
                forall|b: int| 0 <= b < 256 ==> bits_of(#[trigger] table@[b]) == code_of(t, b as u8),
                bits_of(archive) == pre + payload_bits(t, data@.take(i as int)),
            decreases data@.len() - i,
        {
            let b = data[i];
            proof {
                lemma_payload_take_step(t, data@, i as int);
                lemma_payload_take_le(t, data@, i + 1);
                assert(bits_of(table@[b as int]) == code_of(t, b as u8));
                assert((b as u8) == data@[i as int]);
            }
            archive.extend(&table[b as usize]);
            proof {
                assert(bits_of(archive) =~= pre + payload_bits(t, data@.take(i + 1)));
            }
            i += 1;
        }
        proof {
            assert(data@.take(data@.len() as int) =~= data@);
            assert(bits_of(archive) =~= archive_bits(t, data@));
        }
        archive
    }

    /// Compresses `data` into archive bytes: builds the tree, assembles the
    /// archive bits, pads them with zero bits to a byte boundary, and packs
    /// them into bytes. The length bound keeps the archive, at up to 256
    /// code bits per byte plus header and tree, within the bit buffer's
    /// capacity.
    pub fn compress_to_bytes(data: &[u8]) -> (r: Vec<u8>)
        requires
            data@.len() <= (MAX_BITS - 2736) / 256,
        ensures
            is_archive_for(r@, data@),
    {
        let ghost d = data@;
        let ghost t = build_spec(d);
        proof {
            lemma_build_covers(d);
            lemma_build_leaf_count(d);
            lemma_ser_bits_len(t);
            assert(ser_bits(t).len() <= 2569);
            assert forall|b: u8| (#[trigger] code_in(t, b)) is Some implies (code_in(t, b)->0).len()
                <= 256 by {
                lemma_code_len(t, b);
            }
            lemma_payload_len_bound(t, d, 256);
            assert(256 * ((MAX_BITS - 2736) / 256) <= MAX_BITS - 2736) by (nonlinear_arith)
                requires MAX_BITS >= 2736,
            ;
            assert(payload_bits(t, d).len() <= 256 * d.len());
            assert(total_bits(t, d) + 16 <= MAX_BITS);
        }
        let tree = HuffmanTree::build(data);
        let mut archive = HuffmanArchive::compress(data, &tree);
        let ghost base = bits_of(archive);
        proof {
            lemma_bytes_to_bits_len(hdr_bytes(ser_bits(t).len() as u64, d.len() as u64));
            assert(base.len() == total_bits(t, d));
            assert(base + Seq::new(0nat, |j: int| false) =~= base);
        }
        while archive.len() % 8 != 0
            invariant
                bits_of(archive).len() - base.len() <= pad_len(base.len() as int),
                base.len() + 16 <= MAX_BITS,
                bits_of(archive) == base + Seq::new(
                    (bits_of(archive).len() - base.len()) as nat,
                    |j: int| false,
                ),
            decreases pad_len(base.len() as int) - (bits_of(archive).len() - base.len()),
        {
            proof {
                let k = bits_of(archive).len() - base.len();
                assert(k < pad_len(base.len() as int));
            }
            archive.push(false);
            proof {
                assert(bits_of(archive) =~= base + Seq::new(
                    (bits_of(archive).len() - base.len()) as nat,
                    |j: int| false,
                ));
            }
        }
        proof {
            let k = bits_of(archive).len() - base.len();
            assert(bits_of(archive).len() % 8 == 0);
            assert(k == pad_len(base.len() as int));
            assert(bits_of(archive) =~= padded(base));
        }
        let out = archive.to_bytes();
        out
    }

    /// Decompresses an archive back to the original bytes: validates the
    /// header, reconstructs the tree shape, then walks the tree per payload
    /// bit until the declared length is produced. The length bound keeps the
    /// archive's bits within the bit buffer's capacity.
    #[verifier::loop_isolation(false)]
    pub fn decompress(archive_bytes: &[u8]) -> (r: Result<Vec<u8>, HuffmanError>)
        requires
            8 * archive_bytes@.len() <= MAX_BITS,
        ensures
            (match r {
                Ok(v) => decompress_spec(archive_bytes@) == Result::<Seq<u8>, HuffmanError>::Ok(
                    v@,
                ),
                Err(e) => decompress_spec(archive_bytes@) == Result::<Seq<u8>, HuffmanError>::Err(
                    e,
                ),
            }),
    {
        let ghost ab = archive_bytes@;
        if archive_bytes.len() < 18 {
            return Err(HuffmanError::FormatError);
        }
        if archive_bytes[0] != 0x4A || archive_bytes[1] != 0x50 {
            return Err(HuffmanError::FormatError);
        }
        let d0 = archive_bytes[10];
        let d1 = archive_bytes[11];
        let d2 = archive_bytes[12];
        let d3 = archive_bytes[13];
        let d4 = archive_bytes[14];
        let d5 = archive_bytes[15];
        let d6 = archive_bytes[16];
        let d7 = archive_bytes[17];
        let dlen: u64 = ((d0 as u64) << 56u64) | ((d1 as u64) << 48u64) | ((d2 as u64) << 40u64)
            | ((d3 as u64) << 32u64) | ((d4 as u64) << 24u64) | ((d5 as u64) << 16u64) | ((
        d6 as u64) << 8u64) | (d7 as u64);
        proof {
            assert(dlen == be64_from_8(ab[10], ab[11], ab[12], ab[13], ab[14], ab[15], ab[16], ab[17]));
        }
        let bits = BitBuf::from_bytes(archive_bytes);
        let ghost bs = bits_of(bits);
        let tree = match HuffmanTree::deserialize_shape(&bits, 144) {
            Ok((tree, p)) => {
                let ghost target = decode_all(*tree.root, bs, p as int, dlen as nat);
                proof {
                    assert(decompress_spec(ab) == target);
                }
                let mut out: Vec<u8> = Vec::new();
                let mut pos: usize = p;
                if dlen == 0 {
                    return Ok(out);
                }
                match &*tree.root {
                    HuffmanNode::Leaf { .. } => {
                        return Err(HuffmanError::MalformedTreeError);
                    }
                    HuffmanNode::Internal { .. } => {}
                }
                while (out.len() as u64) < dlen
                    invariant
                        *tree.root is Internal,
                        out@.len() <= dlen,
                        target == decompress_spec(ab),
                        (match decode_all(
                            *tree.root,
                            bs,
                            pos as int,
                            (dlen - out@.len()) as nat,
                        ) {
                            Ok(s) => target == Result::<Seq<u8>, HuffmanError>::Ok(out@ + s),
                            Err(e) => target == Result::<Seq<u8>, HuffmanError>::Err(e),
                        }),
                    decreases dlen - out@.len(),
                {
                    let ghost rem = (dlen - out@.len()) as nat;
                    match walk_step(&*tree.root, &bits, pos) {
                        Err(e) => {
                            proof {
                                assert(decode_all(*tree.root, bs, pos as int, rem) == Result::<
                                    Seq<u8>,
                                    HuffmanError,
                                >::Err(HuffmanError::TruncatedArchiveError));
                            }
                            return Err(e);
                        }
                        Ok((byte, p2)) => {
                            proof {
                                let s2 = decode_all(*tree.root, bs, p2 as int, (rem - 1) as nat);
                                match s2 {
                                    Ok(s) => {
                                        assert(decode_all(*tree.root, bs, pos as int, rem)
                                            == Result::<Seq<u8>, HuffmanError>::Ok(seq![byte] + s));
                                        assert(out@.push(byte) + s =~= out@ + (seq![byte] + s));
                                    }
                                    Err(e) => {
                                        assert(decode_all(*tree.root, bs, pos as int, rem)
                                            == Result::<Seq<u8>, HuffmanError>::Err(e));
                                    }
                                }
                            }
                            out.push(byte);
                            pos = p2;
                        }
                    }
                }
                proof {
                    assert(out@.len() == dlen);
                    assert(decode_all(*tree.root, bs, pos as int, 0) == Result::<
                        Seq<u8>,
                        HuffmanError,
                    >::Ok(Seq::<u8>::empty()));
                    assert(out@ + Seq::<u8>::empty() =~= out@);
                }
                return Ok(out);
            }
            Err(e) => {
                return Err(e);
            }
        };
    }
}

/// One decode step: descends from an internal node by the bits at `pos`
/// until a leaf is reached, returning its byte and the next position.
fn walk_step(node: &HuffmanNode, bits: &BitBuf, pos: usize) -> (r: Result<
    (u8, usize),
    HuffmanError,
>)
    requires
        *node is Internal,
    ensures
        (match r {
            Ok(p) => walk(*node, bits_of(*bits), pos as int) == Some((p.0, p.1 as int)) && pos
                < p.1 <= bits_of(*bits).len(),
            Err(e) => walk(*node, bits_of(*bits), pos as int) is None && e
                == HuffmanError::TruncatedArchiveError,
        }),
    decreases *node,
{
    match node {
        HuffmanNode::Leaf { .. } => {
            proof {
                assert(false);
            }
            Err(HuffmanError::TruncatedArchiveError)
        }
        HuffmanNode::Internal { left, right } => {
            let n = bits.len();
            if pos >= n {
                return Err(HuffmanError::TruncatedArchiveError);
            }
            let bit = bits.get(pos);
            let child: &HuffmanNode = if bit {
                &**right
            } else {
                &**left
            };
            match child {
                HuffmanNode::Leaf { byte } => Ok((*byte, pos + 1)),
                HuffmanNode::Internal { .. } => walk_step(child, bits, pos + 1),
            }
        }
    }
}

} // verus!
