//! Hiding one byte in the least significant bits of eight carrier bytes, and
//! reading it back.
use vstd::prelude::*;

verus! {

/// The bit of `c` at `position`, counting from the most significant bit
/// (position 0) down to the least significant one (position 7).
pub open spec fn spec_bit_at(c: u8, position: int) -> u8 {
    ((c >> ((7 - position) as u8)) & 1u8) as u8
}

/// `b` with its least significant bit set to 1 when `bit` holds and to 0 otherwise.
pub open spec fn with_lsb(b: u8, bit: bool) -> u8 {
    if bit {
        b | 1u8
    } else {
        b & 0xfeu8
    }
}

/// The least significant bit of `b`, as a number.
pub open spec fn lsb_of(b: u8) -> u8 {
    b & 1u8
}

/// The eight carrier bytes that hide `c`: byte `i` of `bytes` keeps its upper
/// seven bits and takes bit `i` of `c` (most significant first) as its lowest
/// bit. Positions past the end of `bytes` hold 0.
pub open spec fn spec_encode_character(c: u8, bytes: Seq<u8>) -> Seq<u8> {
    Seq::new(
        8,
        |i: int|
            if i < bytes.len() {
                with_lsb(bytes[i], spec_bit_at(c, i) == 1)
            } else {
                0u8
            },
    )
}

/// The byte whose bits, most significant first, are the lowest bits of the
/// eight bytes of `s`.
pub open spec fn spec_decode_character(s: Seq<u8>) -> u8 {
    (lsb_of(s[0]) << 7u8) | (lsb_of(s[1]) << 6u8) | (lsb_of(s[2]) << 5u8) | (lsb_of(s[3]) << 4u8)
        | (lsb_of(s[4]) << 3u8) | (lsb_of(s[5]) << 2u8) | (lsb_of(s[6]) << 1u8) | lsb_of(s[7])
}

/// The value built from the lowest bits of the first `n` bytes of `s`, placed
/// from the most significant bit downwards.
pub open spec fn decoded_prefix(s: Seq<u8>, n: nat) -> u8
    decreases n,
{
    if n == 0 {
        0u8
    } else {
        decoded_prefix(s, (n - 1) as nat) | (lsb_of(s[n - 1]) << ((8 - n) as u8))
    }
}

/// Returns the bit of `c` at `position`, counting from the most significant bit.
pub fn bit_at(c: u8, position: usize) -> (r: u8)
    requires
        position <= 7,
    ensures
        r == spec_bit_at(c, position as int),
        r <= 1,
{
    let shift: u8 = (7 - position) as u8;
    let r = (c >> shift) & 0b0000_0001;
    assert(r <= 1) by (bit_vector)
        requires
            r == (c >> shift) & 1u8,
    ;
    r
}

/// Tells whether the bit of `c` at `position` (most significant first) is set.
pub fn bit_set_at(c: u8, position: usize) -> (r: bool)
    requires
        position <= 7,
    ensures
        r == (spec_bit_at(c, position as int) == 1),
{
    bit_at(c, position) == 1
}

/// Tells whether the least significant bit of `byte` is set.
pub fn lsb(byte: u8) -> (r: bool)
    ensures
        r == (lsb_of(byte) == 1),
{
    let r = (0b0000_0001 & byte) == 1;
    assert(0b0000_0001u8 & byte == byte & 1u8) by (bit_vector);
    r
}

/// Hides the low byte of `c` in the lowest bits of `bytes`, one bit per byte,
/// most significant bit first.
pub fn encode_character(c: char, bytes: &[u8]) -> (ret: [u8; 8])
    requires
        bytes@.len() <= 8,
    ensures
        ret@ == spec_encode_character(c as u8, bytes@),
{
    let c = c as u8;
    let mut ret = [0u8; 8];
    let mut i: usize = 0;
    while i < bytes.len()
        invariant
            bytes@.len() <= 8,
            i <= bytes@.len(),
            ret@.len() == 8,
            forall|j: int|
                0 <= j < 8 ==> #[trigger] ret@[j] == if j < i {
                    with_lsb(bytes@[j], spec_bit_at(c, j) == 1)
                } else {
                    0u8
                },
        decreases bytes@.len() - i,
    {
        if bit_set_at(c, i) {
            ret[i] = bytes[i] | 0000_0001;
        } else {
            ret[i] = bytes[i] & 0b1111_1110;
        }
        i = i + 1;
    }
    assert(ret@ =~= spec_encode_character(c, bytes@));
    ret
}

proof fn lemma_decoded_prefix_step(acc: u8, b: u8, i: u8)
    requires
        i < 8,
        acc & (0xffu8 >> i) == 0,
    ensures
        (acc | ((b & 1u8) << (7 - i) as u8)) & (0xffu8 >> ((i + 1) as u8)) == 0,
        (b & 1u8) == 1 ==> acc ^ (1u8 << (7 - i) as u8) == acc | ((b & 1u8) << (7 - i) as u8),
        (b & 1u8) != 1 ==> acc == acc | ((b & 1u8) << (7 - i) as u8),
{
    assert((acc | ((b & 1u8) << (7 - i) as u8)) & (0xffu8 >> ((i + 1) as u8)) == 0) by (bit_vector)
        requires
            i < 8,
            acc & (0xffu8 >> i) == 0,
    ;
    assert((b & 1u8) == 1 ==> acc ^ (1u8 << (7 - i) as u8) == acc | ((b & 1u8) << (7 - i) as u8))
        by (bit_vector)
        requires
            i < 8,
            acc & (0xffu8 >> i) == 0,
    ;
    assert((b & 1u8) != 1 ==> acc == acc | ((b & 1u8) << (7 - i) as u8)) by (bit_vector);
}

proof fn lemma_decoded_prefix_full(s: Seq<u8>)
    requires
        s.len() == 8,
    ensures
        decoded_prefix(s, 8) == spec_decode_character(s),
{
    reveal_with_fuel(decoded_prefix, 9);
    let (b0, b1, b2, b3, b4, b5, b6, b7) = (
        lsb_of(s[0]),
        lsb_of(s[1]),
        lsb_of(s[2]),
        lsb_of(s[3]),
        lsb_of(s[4]),
        lsb_of(s[5]),
        lsb_of(s[6]),
        lsb_of(s[7]),
    );
    assert(0u8 | (b0 << 7u8) | (b1 << 6u8) | (b2 << 5u8) | (b3 << 4u8) | (b4 << 3u8) | (b5
        << 2u8) | (b6 << 1u8) | (b7 << 0u8) == (b0 << 7u8) | (b1 << 6u8) | (b2 << 5u8) | (b3
        << 4u8) | (b4 << 3u8) | (b5 << 2u8) | (b6 << 1u8) | b7) by (bit_vector);
}

/// Reads back the byte hidden in the lowest bits of eight carrier bytes, most
/// significant bit first.
pub fn decode_character(bytes: &[u8]) -> (character: u8)
    requires
        bytes@.len() == 8,
    ensures
        character == spec_decode_character(bytes@),
{
    let mut character: u8 = 0b0000_0000;
    let mut i: usize = 0;
    assert(0u8 & (0xffu8 >> 0u8) == 0) by (bit_vector);
    while i < 8
        invariant
            bytes@.len() == 8,
            i <= 8,
            character == decoded_prefix(bytes@, i as nat),
            character & (0xffu8 >> (i as u8)) == 0,
        decreases 8 - i,
    {
        let byte = bytes[i];
        proof {
            lemma_decoded_prefix_step(character, byte, i as u8);
        }
        if lsb(byte) {
            let mask: u8 = match i {
                0 => 0b1000_0000,
                1 => 0b0100_0000,
                2 => 0b0010_0000,
                3 => 0b0001_0000,
                4 => 0b0000_1000,
                5 => 0b0000_0100,
                6 => 0b0000_0010,
                _ => 0b0000_0001,
            };
            assert(mask == 1u8 << (7 - i) as u8) by {
                let k = i as u8;
                assert(k < 8);
                assert(k == 0 ==> 1u8 << (7 - k) as u8 == 0x80u8) by (bit_vector);
                assert(k == 1 ==> 1u8 << (7 - k) as u8 == 0x40u8) by (bit_vector);
                assert(k == 2 ==> 1u8 << (7 - k) as u8 == 0x20u8) by (bit_vector);
                assert(k == 3 ==> 1u8 << (7 - k) as u8 == 0x10u8) by (bit_vector);
                assert(k == 4 ==> 1u8 << (7 - k) as u8 == 0x08u8) by (bit_vector);
                assert(k == 5 ==> 1u8 << (7 - k) as u8 == 0x04u8) by (bit_vector);
                assert(k == 6 ==> 1u8 << (7 - k) as u8 == 0x02u8) by (bit_vector);
                assert(k == 7 ==> 1u8 << (7 - k) as u8 == 0x01u8) by (bit_vector);
            }
            character ^= mask;
        }
        i = i + 1;
    }
    proof {
        lemma_decoded_prefix_full(bytes@);
    }
    character
}

/// Reading back what was hidden gives the hidden byte: for every byte `c` and
/// every eight carrier bytes, decoding the encoding of `c` yields `c`.
pub proof fn lemma_decode_encode_character(c: u8, bytes: Seq<u8>)
    requires
        bytes.len() == 8,
    ensures
        spec_decode_character(spec_encode_character(c, bytes)) == c,
{
    let e = spec_encode_character(c, bytes);
    assert forall|i: int| 0 <= i < 8 implies #[trigger] lsb_of(e[i]) == spec_bit_at(c, i) by {
        let b = bytes[i];
        let bit = spec_bit_at(c, i);
        let k = (7 - i) as u8;
        assert(bit <= 1) by (bit_vector)
            requires
                bit == ((c >> k) & 1u8),
        ;
        assert((b | 1u8) & 1u8 == 1u8) by (bit_vector);
        assert((b & 0xfeu8) & 1u8 == 0u8) by (bit_vector);
    }
    let (b0, b1, b2, b3, b4, b5, b6, b7) = (
        lsb_of(e[0]),
        lsb_of(e[1]),
        lsb_of(e[2]),
        lsb_of(e[3]),
        lsb_of(e[4]),
        lsb_of(e[5]),
        lsb_of(e[6]),
        lsb_of(e[7]),
    );
    assert((b0 << 7u8) | (b1 << 6u8) | (b2 << 5u8) | (b3 << 4u8) | (b4 << 3u8) | (b5 << 2u8) | (
    b6 << 1u8) | b7 == c) by (bit_vector)
        requires
            b0 == ((c >> 7u8) & 1u8),
            b1 == ((c >> 6u8) & 1u8),
            b2 == ((c >> 5u8) & 1u8),
            b3 == ((c >> 4u8) & 1u8),
            b4 == ((c >> 3u8) & 1u8),
            b5 == ((c >> 2u8) & 1u8),
            b6 == ((c >> 1u8) & 1u8),
            b7 == ((c >> 0u8) & 1u8),
    ;
}

/// Hiding a byte changes each carrier byte in its lowest bit only, so each
/// carrier byte moves by at most one.
pub proof fn lemma_encode_character_keeps_upper_bits(c: u8, bytes: Seq<u8>, i: int)
    requires
        bytes.len() <= 8,
        0 <= i < bytes.len(),
    ensures
        spec_encode_character(c, bytes)[i] & 0xfeu8 == bytes[i] & 0xfeu8,
        bytes[i] - 1 <= spec_encode_character(c, bytes)[i] <= bytes[i] + 1,
{
    let b = bytes[i];
    assert((b | 1u8) & 0xfeu8 == b & 0xfeu8) by (bit_vector);
    assert((b & 0xfeu8) & 0xfeu8 == b & 0xfeu8) by (bit_vector);
    assert(b - 1 <= (b | 1u8) <= b + 1) by (bit_vector);
    assert(b - 1 <= (b & 0xfeu8) <= b + 1) by (bit_vector);
}

} // verus!
