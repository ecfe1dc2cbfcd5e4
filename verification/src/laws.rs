use vstd::prelude::*;
use vstd::seq_lib::*;
use crate::bits::{
    bytes_to_bits, byte_bits, padded, be64_bytes, be64_byte, be64_from_8, lemma_byte_bits_injective,
    lemma_bytes_to_bits_len, lemma_bytes_to_bits_index, lemma_bytes_to_bits_injective,
    lemma_be64_inverse,
};
use crate::node::{
    HuffmanNode, ser_bits, code_in, code_of, covers, lemma_leaf_count_pos, lemma_ser_bits_len,
    lemma_walk_code,
};
use crate::tree::{
    build_spec, freq_seq, occurrences, lemma_build_covers, lemma_build_internal,
    lemma_build_leaf_count, lemma_parse_ser,
};
use crate::archive::{
    HuffmanError, archive_bits, hdr_bytes, payload_bits, decode_all, decompress_spec,
    is_archive_for,
};

verus! {

/// Decoding the concatenated codes of `data` from an internal-rooted tree
/// that covers it yields `data` back, one byte per walk.
pub proof fn lemma_decode_payload(t: HuffmanNode, d: Seq<u8>, bits: Seq<bool>, pos: int)
    requires
        covers(t, d),
        d.len() > 0 ==> t is Internal,
        0 <= pos,
        pos + payload_bits(t, d).len() <= bits.len(),
        bits.subrange(pos, pos + payload_bits(t, d).len() as int) == payload_bits(t, d),
    ensures
        decode_all(t, bits, pos, d.len()) == Result::<Seq<u8>, HuffmanError>::Ok(d),
    decreases d.len(),
{
    if d.len() == 0 {
        assert(Seq::<u8>::empty() =~= d);
    } else {
        let b = d[0];
        assert(code_in(t, b) is Some);
        let c = code_in(t, b)->0;
        let p = payload_bits(t, d);
        let d2 = d.drop_first();
        let p2 = payload_bits(t, d2);
        assert(p == c + p2);
        assert forall|i: int| 0 <= i < p.len() implies bits[pos + i] == p[i] by {
            assert(bits.subrange(pos, pos + p.len() as int)[i] == bits[pos + i]);
        }
        assert_seqs_equal!(bits.subrange(pos, pos + c.len() as int) == c, k => {
            assert(bits[pos + k] == p[k]);
            assert(p[k] == c[k]);
        });
        lemma_walk_code(t, b, bits, pos);
        assert forall|i: int| 0 <= i < d2.len() implies (#[trigger] code_in(t, d2[i])) is Some by {
            assert(d2[i] == d[i + 1]);
            assert(code_in(t, d[i + 1]) is Some);
        }
        let pos2 = pos + c.len() as int;
        assert_seqs_equal!(bits.subrange(pos2, pos2 + p2.len() as int) == p2, k => {
            assert(bits[pos2 + k] == p[c.len() + k]);
            assert(p[c.len() + k] == p2[k]);
        });
        lemma_decode_payload(t, d2, bits, pos2);
        assert(seq![b] + d2 =~= d);
    }
}

/// The first eighteen bytes of a compressed archive are exactly its header.
proof fn lemma_archive_header_bytes(d: Seq<u8>, a: Seq<u8>)
    requires
        is_archive_for(a, d),
        d.len() < 0x10000000000000000,
    ensures
        a.len() >= 19,
        forall|j: int|
            0 <= j < 18 ==> a[j] == hdr_bytes(
                ser_bits(build_spec(d)).len() as u64,
                d.len() as u64,
            )[j],
{
    let t = build_spec(d);
    let tl = ser_bits(t).len() as int;
    let hb = hdr_bytes(ser_bits(t).len() as u64, d.len() as u64);
    let hbits = bytes_to_bits(hb);
    let abits = archive_bits(t, d);
    let pbits = padded(abits);
    lemma_bytes_to_bits_len(hb);
    assert(hb.len() == 18);
    assert(hbits.len() == 144);
    lemma_leaf_count_pos(t);
    lemma_ser_bits_len(t);
    assert(tl >= 9);
    assert(abits.len() >= 153);
    assert(pbits.len() >= 153);
    assert(a.len() >= 19);
    assert forall|i: int| 0 <= i < 144 implies pbits[i] == hbits[i] by {
        assert(abits[i] == hbits[i]);
        assert(pbits[i] == abits[i]);
    }
    assert forall|j: int| 0 <= j < 18 implies a[j] == hb[j] by {
        lemma_bytes_to_bits_index(a, j);
        lemma_bytes_to_bits_index(hb, j);
        assert_seqs_equal!(bytes_to_bits(a).subrange(8 * j, 8 * j + 8)
            == hbits.subrange(8 * j, 8 * j + 8), k => {
            assert(bytes_to_bits(a)[8 * j + k] == pbits[8 * j + k]);
            assert(pbits[8 * j + k] == hbits[8 * j + k]);
        });
        assert(byte_bits(a[j]) == byte_bits(hb[j]));
        lemma_byte_bits_injective(a[j], hb[j]);
    }
}

/// Round-trip: decompressing the archive that compression produces for any
/// byte sequence gives that sequence back, whatever its content or length
/// (as long as the length fits the 64-bit header field).
pub proof fn lemma_round_trip(d: Seq<u8>, a: Seq<u8>)
    requires
        is_archive_for(a, d),
        d.len() < 0x10000000000000000,
    ensures
        decompress_spec(a) == Result::<Seq<u8>, HuffmanError>::Ok(d),
{
    let t = build_spec(d);
    let tl = ser_bits(t).len() as int;
    let hb = hdr_bytes(ser_bits(t).len() as u64, d.len() as u64);
    let abits = archive_bits(t, d);
    let pbits = padded(abits);
    let pay = payload_bits(t, d);
    lemma_archive_header_bytes(d, a);
    lemma_bytes_to_bits_len(hb);
    lemma_build_covers(d);
    if d.len() > 0 {
        lemma_build_internal(d);
    }
    // Header fields: magic and data length.
    assert(hb[0] == 0x4Au8);
    assert(hb[1] == 0x50u8);
    assert(a[0] == 0x4Au8);
    assert(a[1] == 0x50u8);
    let dlu = d.len() as u64;
    assert forall|i: int| 0 <= i < 8 implies a[10 + i] == be64_byte(dlu, i) by {
        assert(hb[10 + i] == be64_bytes(dlu)[i]);
        assert(be64_bytes(dlu)[i] == be64_byte(dlu, i));
    }
    lemma_be64_inverse(dlu);
    assert(be64_from_8(a[10], a[11], a[12], a[13], a[14], a[15], a[16], a[17]) == dlu);
    // The bit stream under the header: tree shape, then payload, then padding.
    assert(bytes_to_bits(a) == pbits);
    assert forall|i: int| 0 <= i < abits.len() implies pbits[i] == abits[i] by {}
    assert_seqs_equal!(pbits.subrange(144, 144 + tl) == ser_bits(t), k => {
        assert(pbits[144 + k] == abits[144 + k]);
        assert(abits[144 + k] == ser_bits(t)[k]);
    });
    lemma_parse_ser(t, pbits, 144);
    assert_seqs_equal!(pbits.subrange(144 + tl, 144 + tl + pay.len() as int) == pay, k => {
        assert(pbits[144 + tl + k] == abits[144 + tl + k]);
        assert(abits[144 + tl + k] == pay[k]);
    });
    lemma_decode_payload(t, d, pbits, 144 + tl);
    assert((dlu as nat) == d.len());
    assert(decompress_spec(a) == decode_all(t, pbits, 144 + tl, d.len()));
}

/// Determinism: compression is a function of its input; two archives for the
/// same data are byte-identical.
pub proof fn lemma_compress_deterministic(d: Seq<u8>, a1: Seq<u8>, a2: Seq<u8>)
    requires
        is_archive_for(a1, d),
        is_archive_for(a2, d),
    ensures
        a1 == a2,
{
    lemma_bytes_to_bits_injective(a1, a2);
}

/// Tie-break determinism: the tree shape is a pure function of the frequency
/// table, so inputs with identical byte counts build identical trees.
pub proof fn lemma_tree_from_frequencies(d1: Seq<u8>, d2: Seq<u8>)
    requires
        forall|b: u8| #[trigger] occurrences(d1, b) == occurrences(d2, b),
    ensures
        build_spec(d1) == build_spec(d2),
{
    assert forall|b: int| 0 <= b < 256 implies freq_seq(d1)[b] == freq_seq(d2)[b] by {
        assert(occurrences(d1, b as u8) == occurrences(d2, b as u8));
    }
    assert(freq_seq(d1) =~= freq_seq(d2));
}

/// Header integrity: archive bytes 0 and 1 are the magic value, and the
/// length field holds exactly the input's length.
pub proof fn lemma_header_integrity(d: Seq<u8>, a: Seq<u8>)
    requires
        is_archive_for(a, d),
        d.len() < 0x10000000000000000,
    ensures
        a.len() >= 18,
        a[0] == 0x4Au8,
        a[1] == 0x50u8,
        be64_from_8(a[10], a[11], a[12], a[13], a[14], a[15], a[16], a[17]) == d.len(),
{
    let t = build_spec(d);
    let hb = hdr_bytes(ser_bits(t).len() as u64, d.len() as u64);
    lemma_archive_header_bytes(d, a);
    assert(a[0] == hb[0]);
    assert(hb[0] == 0x4Au8);
    assert(a[1] == hb[1]);
    assert(hb[1] == 0x50u8);
    let dlu = d.len() as u64;
    assert forall|i: int| 0 <= i < 8 implies a[10 + i] == be64_byte(dlu, i) by {
        assert(hb[10 + i] == be64_bytes(dlu)[i]);
        assert(be64_bytes(dlu)[i] == be64_byte(dlu, i));
    }
    lemma_be64_inverse(dlu);
}

} // verus!
