//! Single-bit views of bytes and byte sequences, and the bit-twiddling
//! lemmas the reader and writer are proved against.

use vstd::prelude::*;

verus! {

/// Bit `i` of `v`, where `i` counts from the least significant bit.
pub open spec fn bit_of(v: u8, i: int) -> bool {
    v >> (i as u8) & 1u8 == 1u8
}

/// Bit `i` of `v` in transmission order: most significant bit first.
pub open spec fn msb_bit(v: u8, i: int) -> bool {
    bit_of(v, 7 - i)
}

/// Bit `j` of a byte sequence in transmission order: byte `j / 8`,
/// most significant bit first within each byte.
pub open spec fn seq_bit(s: Seq<u8>, j: int) -> bool {
    msb_bit(s[j / 8], j % 8)
}

/// Setting or clearing bit `k` leaves every other bit alone and makes
/// bit `k` equal to the chosen value.
pub proof fn lemma_set_bit(v: u8, k: u8, b: bool)
    by (bit_vector)
    requires
        k < 8,
    ensures
        bit_of(if b { v | (1u8 << k) } else { v & !(1u8 << k) }, k as int) == b,
        forall|j: u8| j < 8 && j != k ==> bit_of(
            if b { v | (1u8 << k) } else { v & !(1u8 << k) },
            j as int,
        ) == bit_of(v, j as int),
{
}

/// Two bytes that agree on all eight bits are equal.
pub proof fn lemma_byte_from_bits(a: u8, b: u8)
    by (bit_vector)
    requires
        bit_of(a, 0) == bit_of(b, 0),
        bit_of(a, 1) == bit_of(b, 1),
        bit_of(a, 2) == bit_of(b, 2),
        bit_of(a, 3) == bit_of(b, 3),
        bit_of(a, 4) == bit_of(b, 4),
        bit_of(a, 5) == bit_of(b, 5),
        bit_of(a, 6) == bit_of(b, 6),
        bit_of(a, 7) == bit_of(b, 7),
    ensures
        a == b,
{
}

/// Reading bit `k` with a mask that starts at the most significant bit
/// yields the transmission-order bit `k`.
pub proof fn lemma_msb_mask(v: u8, k: u8)
    by (bit_vector)
    requires
        k < 8,
    ensures
        ((v & (0x80u8 >> k)) != 0) == msb_bit(v, k as int),
{
}


/// The zero byte has no bit set.
pub proof fn lemma_zero_byte()
    ensures
        forall|j: int| 0 <= j < 8 ==> !bit_of(0u8, j),
{
    assert forall|j: int| 0 <= j < 8 implies !bit_of(0u8, j) by {
        let jq = j as u8;
        assert(!bit_of(0u8, jq as int)) by (bit_vector)
            requires
                jq < 8,
        ;
    }
}

/// `lemma_set_bit` restated with the untouched bits quantified over `int`
/// indices, the form the reader's and writer's invariants use.
pub proof fn lemma_set_bit_int(v: u8, k: u8, b: bool)
    requires
        k < 8,
    ensures
        bit_of(if b { v | (1u8 << k) } else { v & !(1u8 << k) }, k as int) == b,
        forall|j: int| 0 <= j < 8 && j != k ==> bit_of(
            if b { v | (1u8 << k) } else { v & !(1u8 << k) },
            j,
        ) == bit_of(v, j),
{
    lemma_set_bit(v, k, b);
    let nv = if b { v | (1u8 << k) } else { v & !(1u8 << k) };
    assert forall|j: int| 0 <= j < 8 && j != k implies bit_of(nv, j) == bit_of(v, j) by {
        let jq = j as u8;
        assert(bit_of(nv, jq as int) == bit_of(v, jq as int));
    }
}


/// The byte whose bits, most significant first, are the eight given values.
pub open spec fn byte_from_bits(
    b0: bool,
    b1: bool,
    b2: bool,
    b3: bool,
    b4: bool,
    b5: bool,
    b6: bool,
    b7: bool,
) -> u8 {
    (((if b0 { 128int } else { 0int }) + (if b1 { 64int } else { 0int }) + (if b2 { 32int } else { 0int })
        + (if b3 { 16int } else { 0int }) + (if b4 { 8int } else { 0int }) + (if b5 { 4int } else { 0int })
        + (if b6 { 2int } else { 0int }) + (if b7 { 1int } else { 0int })) as u8)
}

/// `byte_from_bits` really has the eight given bits, in transmission
/// order.
pub proof fn lemma_byte_from_bits_bits(
    b0: bool,
    b1: bool,
    b2: bool,
    b3: bool,
    b4: bool,
    b5: bool,
    b6: bool,
    b7: bool,
)
    by (bit_vector)
    ensures
        msb_bit(byte_from_bits(b0, b1, b2, b3, b4, b5, b6, b7), 0) == b0,
        msb_bit(byte_from_bits(b0, b1, b2, b3, b4, b5, b6, b7), 1) == b1,
        msb_bit(byte_from_bits(b0, b1, b2, b3, b4, b5, b6, b7), 2) == b2,
        msb_bit(byte_from_bits(b0, b1, b2, b3, b4, b5, b6, b7), 3) == b3,
        msb_bit(byte_from_bits(b0, b1, b2, b3, b4, b5, b6, b7), 4) == b4,
        msb_bit(byte_from_bits(b0, b1, b2, b3, b4, b5, b6, b7), 5) == b5,
        msb_bit(byte_from_bits(b0, b1, b2, b3, b4, b5, b6, b7), 6) == b6,
        msb_bit(byte_from_bits(b0, b1, b2, b3, b4, b5, b6, b7), 7) == b7,
{
}

} // verus!
