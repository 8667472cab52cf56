//! Hiding a run of message characters in the pixel bytes of an image, and
//! reading a hidden message back out of pixel bytes.
use vstd::prelude::*;
use crate::bits::{
    lemma_decode_encode_character, spec_bit_at, spec_decode_character, spec_encode_character,
    with_lsb, decode_character, encode_character,
};

verus! {

/// Appends `c` to `s`.
///
/// Trusted: `String::push` appends the given character to the end of the
/// string; this is all the contract claims of it.
#[verifier::external_body]
pub(crate) fn push_char(s: &mut String, c: char)
    ensures
        final(s)@ == old(s)@.push(c),
{
    s.push(c);
}

/// The number of message characters that `encode_message` hides for the
/// range `start..end` (none when the range is empty or reversed).
pub open spec fn hidden_count(start: int, end: int) -> int {
    if start < end {
        end - start
    } else {
        0
    }
}

/// The byte hidden in the `k`-th group of eight pixel bytes: the low byte of
/// message character `start + k` for the characters of the range, and then a
/// terminating zero byte.
pub open spec fn hidden_byte(message: Seq<char>, start: int, end: int, k: int) -> u8 {
    if k < hidden_count(start, end) {
        message[start + k] as u8
    } else {
        0u8
    }
}

/// The pixel bytes after hiding the characters `start..end` of `message`
/// followed by a zero byte: the first `8 * (count + 1)` bytes carry, in their
/// lowest bit, the bits of the hidden bytes (most significant first); every
/// other bit of every byte is unchanged.
pub open spec fn spec_encode_message(message: Seq<char>, pixels: Seq<u8>, start: int, end: int) -> Seq<
    u8,
> {
    Seq::new(
        pixels.len(),
        |i: int|
            if i < 8 * (hidden_count(start, end) + 1) {
                with_lsb(pixels[i], spec_bit_at(hidden_byte(message, start, end, i / 8), i % 8) == 1)
            } else {
                pixels[i]
            },
    )
}

/// Whether reading a message out of `pixels` stops on its own: reading takes
/// eight bytes at a time and stops at the end of the bytes, or at a group that
/// decodes to 0 or to a value above 127; it cannot go on when fewer than
/// eight bytes are left.
pub open spec fn decode_halts(pixels: Seq<u8>) -> bool
    decreases pixels.len(),
{
    if pixels.len() == 0 {
        true
    } else if pixels.len() < 8 {
        false
    } else {
        let c = spec_decode_character(pixels.take(8));
        if c > 127 || c == 0 {
            true
        } else {
            decode_halts(pixels.skip(8))
        }
    }
}

/// The message read out of `pixels`: one character per group of eight bytes,
/// up to (not including) the first group that decodes to 0 or to a value
/// above 127, or to the end of the bytes.
pub open spec fn decoded_text(pixels: Seq<u8>) -> Seq<char>
    decreases pixels.len(),
{
    if pixels.len() < 8 {
        Seq::empty()
    } else {
        let c = spec_decode_character(pixels.take(8));
        if c > 127 || c == 0 {
            Seq::empty()
        } else {
            seq![c as char] + decoded_text(pixels.skip(8))
        }
    }
}

/// The characters that a read of the hidden text gives back for `message`:
/// each character is carried by its low byte.
pub open spec fn carried_text(message: Seq<char>) -> Seq<char> {
    message.map_values(|c: char| (c as u8) as char)
}

/// Hides the characters `start..end` of `message`, and a terminating zero
/// byte after them, in the lowest bits of `pixels`; returns the new pixel
/// bytes.
pub fn encode_message(message: &[char], pixels: &[u8], start: usize, end: usize) -> (encoded: Vec<
    u8,
>)
    requires
        8 * (hidden_count(start as int, end as int) + 1) <= pixels@.len(),
        start < end ==> end <= message@.len(),
    ensures
        encoded@ == spec_encode_message(message@, pixels@, start as int, end as int),
{
    let ghost count = hidden_count(start as int, end as int);
    let ghost target = spec_encode_message(message@, pixels@, start as int, end as int);
    let n = pixels.len();
    let mut encoded: Vec<u8> = Vec::new();
    let mut start_index: usize = 0;
    let mut char_value: usize = start;
    while char_value < end
        invariant
            start <= char_value,
            start < end ==> char_value <= end,
            start >= end ==> char_value == start,
            start < end ==> end <= message@.len(),
            n == pixels@.len(),
            count == hidden_count(start as int, end as int),
            8 * (count + 1) <= pixels@.len(),
            start_index == 8 * (char_value - start),
            target == spec_encode_message(message@, pixels@, start as int, end as int),
            encoded@ == target.take(start_index as int),
        decreases end - char_value,
    {
        assert(start_index + 8 <= 8 * count);
        let chunk = &pixels[start_index..start_index + 8];
        assert(chunk@ == pixels@.subrange(start_index as int, start_index + 8));
        let hidden = encode_character(message[char_value], chunk);
        proof {
            let k = (char_value - start) as int;
            assert forall|j: int| 0 <= j < 8 implies #[trigger] hidden@[j] == target[start_index
                + j] by {
                assert((start_index + j) / 8 == k);
                assert((start_index + j) % 8 == j);
            }
        }
        encoded.extend_from_slice(&hidden);
        start_index += 8;
        char_value += 1;
        assert(encoded@ =~= target.take(start_index as int));
    }
    let ghost m = count;
    assert(start_index == 8 * m);
    let chunk = &pixels[start_index..start_index + 8];
    assert(chunk@ == pixels@.subrange(start_index as int, start_index + 8));
    let terminator = encode_character('\0', chunk);
    proof {
        assert('\0' as u8 == 0u8);
        assert forall|j: int| 0 <= j < 8 implies #[trigger] terminator@[j] == target[start_index
            + j] by {
            assert((start_index + j) / 8 == m);
            assert((start_index + j) % 8 == j);
        }
    }
    encoded.extend_from_slice(&terminator);
    start_index += 8;
    assert(encoded@ =~= target.take(start_index as int));
    let rest = &pixels[start_index..pixels.len()];
    encoded.extend_from_slice(rest);
    assert(encoded@ =~= target);
    encoded
}

/// Reads the message hidden in `pixels`: one character per group of eight
/// bytes, until a group decodes to 0 or to a value above 127, or the bytes
/// end.
pub fn decode_message(pixels: &Vec<u8>) -> (message: String)
    requires
        decode_halts(pixels@),
    ensures
        message@ == decoded_text(pixels@),
{
    let mut message = String::new();
    let n = pixels.len();
    let mut off: usize = 0;
    assert(pixels@.skip(0) =~= pixels@);
    while off < n
        invariant
            n == pixels@.len(),
            off <= n,
            decode_halts(pixels@.skip(off as int)),
            decoded_text(pixels@) == message@ + decoded_text(pixels@.skip(off as int)),
        decreases n - off,
    {
        let ghost rest = pixels@.skip(off as int);
        assert(rest.len() >= 8);
        let chunk = &pixels.as_slice()[off..off + 8];
        assert(chunk@ =~= rest.take(8));
        let character = decode_character(chunk);
        if character > 127 {
            assert(message@ + Seq::<char>::empty() =~= message@);
            return message;
        }
        if character == 0 {
            assert(message@ + Seq::<char>::empty() =~= message@);
            return message;
        }
        let ghost before = message@;
        push_char(&mut message, character as char);
        assert(rest.skip(8) =~= pixels@.skip(off + 8));
        assert(before + (seq![character as char] + decoded_text(rest.skip(8))) =~= message@
            + decoded_text(rest.skip(8)));
        off += 8;
    }
    assert(pixels@.skip(off as int).len() == 0);
    assert(message@ + Seq::<char>::empty() =~= message@);
    message
}

/// Tells whether reading a message out of `pixels` stops on its own (see
/// `decode_halts`), that is, whether `decode_message` may be called on them.
pub fn decode_terminates(pixels: &[u8]) -> (r: bool)
    ensures
        r == decode_halts(pixels@),
{
    let n = pixels.len();
    let mut off: usize = 0;
    assert(pixels@.skip(0) =~= pixels@);
    while off < n
        invariant
            n == pixels@.len(),
            off <= n,
            decode_halts(pixels@) == decode_halts(pixels@.skip(off as int)),
        decreases n - off,
    {
        let ghost rest = pixels@.skip(off as int);
        if n - off < 8 {
            return false;
        }
        let chunk = &pixels[off..off + 8];
        assert(chunk@ =~= rest.take(8));
        let character = decode_character(chunk);
        if character > 127 || character == 0 {
            return true;
        }
        assert(rest.skip(8) =~= pixels@.skip(off + 8));
        off += 8;
    }
    true
}

proof fn lemma_encoded_chunk(message: Seq<char>, pixels: Seq<u8>, start: int, end: int, k: int)
    requires
        0 <= k <= hidden_count(start, end),
        8 * (hidden_count(start, end) + 1) <= pixels.len(),
    ensures
        spec_encode_message(message, pixels, start, end).skip(8 * k).take(8) =~= spec_encode_character(
            hidden_byte(message, start, end, k),
            pixels.subrange(8 * k, 8 * k + 8),
        ),
{
    let e = spec_encode_message(message, pixels, start, end);
    assert forall|j: int| 0 <= j < 8 implies #[trigger] e.skip(8 * k).take(8)[j]
        == spec_encode_character(
        hidden_byte(message, start, end, k),
        pixels.subrange(8 * k, 8 * k + 8),
    )[j] by {
        assert((8 * k + j) / 8 == k);
        assert((8 * k + j) % 8 == j);
    }
}

proof fn lemma_decode_encoded_from(message: Seq<char>, pixels: Seq<u8>, start: int, end: int, k: int)
    requires
        0 <= start <= end <= message.len(),
        0 <= k <= hidden_count(start, end),
        8 * (hidden_count(start, end) + 1) <= pixels.len(),
        forall|i: int| start <= i < end ==> 1 <= #[trigger] (message[i] as u8) <= 127,
    ensures
        decode_halts(spec_encode_message(message, pixels, start, end).skip(8 * k)),
        decoded_text(spec_encode_message(message, pixels, start, end).skip(8 * k)) == carried_text(
            message.subrange(start + k, start + hidden_count(start, end)),
        ),
    decreases hidden_count(start, end) - k,
{
    let e = spec_encode_message(message, pixels, start, end);
    let s = e.skip(8 * k);
    let count = hidden_count(start, end);
    lemma_encoded_chunk(message, pixels, start, end, k);
    lemma_decode_encode_character(hidden_byte(message, start, end, k), pixels.subrange(8 * k, 8 * k + 8));
    assert(spec_decode_character(s.take(8)) == hidden_byte(message, start, end, k));
    if k == count {
        assert(carried_text(message.subrange(start + k, start + count)) =~= Seq::<char>::empty());
    } else {
        let c = message[start + k] as u8;
        assert(1 <= c <= 127);
        lemma_decode_encoded_from(message, pixels, start, end, k + 1);
        assert(s.skip(8) =~= e.skip(8 * (k + 1)));
        assert(carried_text(message.subrange(start + k, start + count)) =~= seq![c as char]
            + carried_text(message.subrange(start + k + 1, start + count)));
    }
}

/// What a read gives back of a write: after hiding characters `start..end` of
/// a message whose characters have low bytes in 1..=127, reading the message
/// out of the encoded pixels stops on its own and gives back exactly those
/// characters (each carried by its low byte).
pub proof fn lemma_decode_encoded_message(message: Seq<char>, pixels: Seq<u8>, start: int, end: int)
    requires
        0 <= start <= end <= message.len(),
        8 * (end - start + 1) <= pixels.len(),
        forall|i: int| start <= i < end ==> 1 <= #[trigger] (message[i] as u8) <= 127,
    ensures
        decode_halts(spec_encode_message(message, pixels, start, end)),
        decoded_text(spec_encode_message(message, pixels, start, end)) == carried_text(
            message.subrange(start, end),
        ),
{
    lemma_decode_encoded_from(message, pixels, start, end, 0);
    assert(spec_encode_message(message, pixels, start, end).skip(0) =~= spec_encode_message(
        message,
        pixels,
        start,
        end,
    ));
}

/// Hiding a message changes the pixel bytes in their lowest bits only: the
/// length stays, and every byte keeps its upper seven bits.
pub proof fn lemma_encode_message_keeps_upper_bits(
    message: Seq<char>,
    pixels: Seq<u8>,
    start: int,
    end: int,
    i: int,
)
    requires
        0 <= i < pixels.len(),
    ensures
        spec_encode_message(message, pixels, start, end).len() == pixels.len(),
        spec_encode_message(message, pixels, start, end)[i] & 0xfeu8 == pixels[i] & 0xfeu8,
{
    let b = pixels[i];
    assert((b | 1u8) & 0xfeu8 == b & 0xfeu8) by (bit_vector);
    assert((b & 0xfeu8) & 0xfeu8 == b & 0xfeu8) by (bit_vector);
}

} // verus!
