use vstd::prelude::*;

verus! {

/// True when bit `k` of `b` is set, counting from the most significant bit
/// (`k == 0` is the highest bit, `k == 7` the lowest).
pub open spec fn byte_bit(b: u8, k: int) -> bool {
    ((b >> ((7 - k) as u8)) & 1u8) == 1u8
}

/// The eight bits of a byte, most significant first.
pub open spec fn byte_bits(b: u8) -> Seq<bool> {
    Seq::new(8, |k: int| byte_bit(b, k))
}

/// A byte assembled from eight bits, most significant first.
pub open spec fn byte_from_8(
    b0: bool, b1: bool, b2: bool, b3: bool,
    b4: bool, b5: bool, b6: bool, b7: bool,
) -> u8 {
    (if b0 { 0x80u8 } else { 0u8 }) | (if b1 { 0x40u8 } else { 0u8 })
        | (if b2 { 0x20u8 } else { 0u8 }) | (if b3 { 0x10u8 } else { 0u8 })
        | (if b4 { 0x08u8 } else { 0u8 }) | (if b5 { 0x04u8 } else { 0u8 })
        | (if b6 { 0x02u8 } else { 0u8 }) | (if b7 { 0x01u8 } else { 0u8 })
}

/// A byte sequence seen as a bit sequence, each byte most significant first.
pub open spec fn bytes_to_bits(s: Seq<u8>) -> Seq<bool>
    decreases s.len(),
{
    if s.len() == 0 {
        Seq::empty()
    } else {
        byte_bits(s[0]) + bytes_to_bits(s.drop_first())
    }
}

/// Zero bits appended to reach the next byte boundary.
pub open spec fn pad_len(n: int) -> int {
    if n % 8 == 0 { 0 } else { 8 - (n % 8) }
}

/// A bit sequence padded with zero bits to a whole number of bytes.
pub open spec fn padded(bits: Seq<bool>) -> Seq<bool> {
    bits + Seq::new(pad_len(bits.len() as int) as nat, |i: int| false)
}

proof fn lemma_byte_from_shifts(b: u8)
    by (bit_vector)
    ensures
        byte_from_8(
            ((b >> 7u8) & 1u8) == 1u8,
            ((b >> 6u8) & 1u8) == 1u8,
            ((b >> 5u8) & 1u8) == 1u8,
            ((b >> 4u8) & 1u8) == 1u8,
            ((b >> 3u8) & 1u8) == 1u8,
            ((b >> 2u8) & 1u8) == 1u8,
            ((b >> 1u8) & 1u8) == 1u8,
            ((b >> 0u8) & 1u8) == 1u8,
        ) == b,
{
}

/// Reassembling the eight bits of a byte, most significant first, gives the byte back.
pub proof fn lemma_byte_bits_inverse(b: u8)
    ensures
        byte_from_8(
            byte_bit(b, 0), byte_bit(b, 1), byte_bit(b, 2), byte_bit(b, 3),
            byte_bit(b, 4), byte_bit(b, 5), byte_bit(b, 6), byte_bit(b, 7),
        ) == b,
{
    lemma_byte_from_shifts(b);
}

/// Distinct bytes have distinct bit sequences.
pub proof fn lemma_byte_bits_injective(a: u8, b: u8)
    requires
        byte_bits(a) == byte_bits(b),
    ensures
        a == b,
{
    assert forall|k: int| 0 <= k < 8 implies byte_bit(a, k) == byte_bit(b, k) by {
        assert(byte_bits(a)[k] == byte_bit(a, k));
        assert(byte_bits(b)[k] == byte_bit(b, k));
        assert(byte_bits(a)[k] == byte_bits(b)[k]);
    }
    lemma_byte_bits_inverse(a);
    lemma_byte_bits_inverse(b);
}

pub proof fn lemma_bytes_to_bits_len(s: Seq<u8>)
    ensures
        bytes_to_bits(s).len() == 8 * s.len(),
    decreases s.len(),
{
    if s.len() > 0 {
        lemma_bytes_to_bits_len(s.drop_first());
    }
}

pub proof fn lemma_bytes_to_bits_append(s: Seq<u8>, t: Seq<u8>)
    ensures
        bytes_to_bits(s + t) == bytes_to_bits(s) + bytes_to_bits(t),
    decreases s.len(),
{
    if s.len() == 0 {
        assert(s + t == t);
        assert(bytes_to_bits(s) + bytes_to_bits(t) == bytes_to_bits(t));
    } else {
        lemma_bytes_to_bits_append(s.drop_first(), t);
        assert((s + t).drop_first() == s.drop_first() + t);
        assert(byte_bits((s + t)[0]) == byte_bits(s[0]));
        assert(byte_bits(s[0]) + (bytes_to_bits(s.drop_first()) + bytes_to_bits(t))
            == (byte_bits(s[0]) + bytes_to_bits(s.drop_first())) + bytes_to_bits(t));
    }
}

pub proof fn lemma_bytes_to_bits_push(s: Seq<u8>, b: u8)
    ensures
        bytes_to_bits(s.push(b)) == bytes_to_bits(s) + byte_bits(b),
{
    assert(s.push(b) == s + seq![b]);
    lemma_bytes_to_bits_append(s, seq![b]);
    assert(seq![b].drop_first() =~= Seq::<u8>::empty());
    assert(seq![b].len() == 1);
    assert(seq![b][0] == b);
    assert(bytes_to_bits(Seq::<u8>::empty()) == Seq::<bool>::empty());
    assert(bytes_to_bits(seq![b]) == byte_bits(seq![b][0]) + bytes_to_bits(seq![b].drop_first()));
    assert(byte_bits(b) + Seq::<bool>::empty() =~= byte_bits(b));
}

/// The bits of byte `j` of `s` stand at positions `8 * j .. 8 * j + 8`.
pub proof fn lemma_bytes_to_bits_index(s: Seq<u8>, j: int)
    requires
        0 <= j < s.len(),
    ensures
        bytes_to_bits(s).subrange(8 * j, 8 * j + 8) == byte_bits(s[j]),
    decreases j,
{
    lemma_bytes_to_bits_len(s);
    lemma_bytes_to_bits_len(s.drop_first());
    if j == 0 {
        assert(bytes_to_bits(s).subrange(0, 8) =~= byte_bits(s[0]));
    } else {
        lemma_bytes_to_bits_index(s.drop_first(), j - 1);
        assert(bytes_to_bits(s).subrange(8 * j, 8 * j + 8)
            =~= bytes_to_bits(s.drop_first()).subrange(8 * (j - 1), 8 * (j - 1) + 8));
    }
}

/// Byte sequences of equal length with equal bit views are equal.
pub proof fn lemma_bytes_to_bits_injective(s: Seq<u8>, t: Seq<u8>)
    requires
        s.len() == t.len(),
        bytes_to_bits(s) == bytes_to_bits(t),
    ensures
        s == t,
{
    assert forall|j: int| 0 <= j < s.len() implies s[j] == t[j] by {
        lemma_bytes_to_bits_index(s, j);
        lemma_bytes_to_bits_index(t, j);
        lemma_byte_bits_injective(s[j], t[j]);
    }
    assert(s =~= t);
}

/// A 64-bit value laid out as eight bytes, most significant first.
pub open spec fn be64_byte(n: u64, i: int) -> u8 {
    ((n >> ((56 - 8 * i) as u64)) & 0xFFu64) as u8
}

pub open spec fn be64_bytes(n: u64) -> Seq<u8> {
    Seq::new(8, |i: int| be64_byte(n, i))
}

/// A 64-bit value assembled from eight bytes, most significant first.
pub open spec fn be64_from_8(
    b0: u8, b1: u8, b2: u8, b3: u8, b4: u8, b5: u8, b6: u8, b7: u8,
) -> u64 {
    ((b0 as u64) << 56u64) | ((b1 as u64) << 48u64) | ((b2 as u64) << 40u64)
        | ((b3 as u64) << 32u64) | ((b4 as u64) << 24u64) | ((b5 as u64) << 16u64)
        | ((b6 as u64) << 8u64) | (b7 as u64)
}

proof fn lemma_be64_shifts(n: u64)
    by (bit_vector)
    ensures
        be64_from_8(
            ((n >> 56u64) & 0xFFu64) as u8,
            ((n >> 48u64) & 0xFFu64) as u8,
            ((n >> 40u64) & 0xFFu64) as u8,
            ((n >> 32u64) & 0xFFu64) as u8,
            ((n >> 24u64) & 0xFFu64) as u8,
            ((n >> 16u64) & 0xFFu64) as u8,
            ((n >> 8u64) & 0xFFu64) as u8,
            ((n >> 0u64) & 0xFFu64) as u8,
        ) == n,
{
}

/// Reassembling the eight big-endian bytes of a 64-bit value gives it back.
pub proof fn lemma_be64_inverse(n: u64)
    ensures
        be64_from_8(
            be64_byte(n, 0), be64_byte(n, 1), be64_byte(n, 2), be64_byte(n, 3),
            be64_byte(n, 4), be64_byte(n, 5), be64_byte(n, 6), be64_byte(n, 7),
        ) == n,
{
    lemma_be64_shifts(n);
}

} // verus!
