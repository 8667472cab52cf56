//! The bytes of an encoded image file and the name it is written under.
use vstd::prelude::*;
use crate::message::push_char;

verus! {

/// The header of a PPM image, as far as writing a file needs it.
pub struct PpmHeader {
    pub magic_number: Vec<u8>,
    pub width: u32,
    pub height: u32,
    pub max_color_value: u32,
}

/// The ASCII decimal digits of `n`, most significant first, without leading
/// zeros ("0" for zero).
pub open spec fn decimal_digits(n: nat) -> Seq<u8>
    decreases n,
{
    if n < 10 {
        seq![(48 + n) as u8]
    } else {
        decimal_digits(n / 10).push((48 + n % 10) as u8)
    }
}

/// The number that a sequence of ASCII decimal digits spells.
pub open spec fn digits_value(s: Seq<u8>) -> nat
    decreases s.len(),
{
    if s.len() == 0 {
        0
    } else {
        (digits_value(s.drop_last()) * 10 + (s.last() - 48)) as nat
    }
}

pub open spec fn is_decimal_digit(b: u8) -> bool {
    48 <= b <= 57
}

/// `n` in decimal, padded on the left with '0' to at least `width` digits.
pub open spec fn padded_decimal(n: nat, width: nat) -> Seq<u8> {
    let d = decimal_digits(n);
    if d.len() < width {
        Seq::new((width - d.len()) as nat, |i: int| 48u8) + d
    } else {
        d
    }
}

/// The name an encoded image is written under: its output number in seven
/// or more zero-padded decimal digits, then ".ppm".
pub open spec fn spec_output_file_name(file_number: nat) -> Seq<char> {
    (padded_decimal(file_number, 7) + seq![46u8, 112u8, 112u8, 109u8]).map_values(|b: u8| b as char)
}

/// The content of an encoded image file: the magic number, a newline, the
/// width, a space, the height, a newline, the largest color value, a newline,
/// the pixel bytes and a final newline; the numbers in decimal.
pub open spec fn spec_ppm_file_bytes(header: PpmHeader, pixels: Seq<u8>) -> Seq<u8> {
    header.magic_number@ + seq![10u8] + decimal_digits(header.width as nat) + seq![32u8]
        + decimal_digits(header.height as nat) + seq![10u8] + decimal_digits(
        header.max_color_value as nat,
    ) + seq![10u8] + pixels + seq![10u8]
}

/// Appends the decimal digits of `n` to `out`.
pub fn push_decimal(out: &mut Vec<u8>, n: u128)
    ensures
        final(out)@ == old(out)@ + decimal_digits(n as nat),
    decreases n,
{
    if n >= 10 {
        push_decimal(out, n / 10);
    }
    let digit = (48 + n % 10) as u8;
    out.push(digit);
    assert(final(out)@ =~= old(out)@ + decimal_digits(n as nat));
}

/// The bytes of the image file that holds `header` and the encoded `pixels`.
pub fn ppm_file_bytes(header: &PpmHeader, pixels: &[u8]) -> (content: Vec<u8>)
    ensures
        content@ == spec_ppm_file_bytes(*header, pixels@),
{
    let mut content: Vec<u8> = Vec::new();
    content.extend_from_slice(header.magic_number.as_slice());
    content.push(10u8);
    push_decimal(&mut content, header.width as u128);
    content.push(32u8);
    push_decimal(&mut content, header.height as u128);
    content.push(10u8);
    push_decimal(&mut content, header.max_color_value as u128);
    content.push(10u8);
    content.extend_from_slice(pixels);
    content.push(10u8);
    assert(content@ =~= spec_ppm_file_bytes(*header, pixels@));
    content
}

/// The file name for output number `file_number`: at least seven decimal
/// digits, zero-padded on the left, followed by ".ppm".
pub fn output_file_name(file_number: u128) -> (name: String)
    ensures
        name@ == spec_output_file_name(file_number as nat),
{
    let mut digits: Vec<u8> = Vec::new();
    push_decimal(&mut digits, file_number);
    let mut bytes: Vec<u8> = Vec::new();
    let mut pad: usize = digits.len();
    while pad < 7
        invariant
            digits@ == decimal_digits(file_number as nat),
            digits@.len() <= pad <= 7 || (pad == digits@.len() && pad >= 7),
            bytes@ == Seq::new((pad - digits@.len()) as nat, |i: int| 48u8),
        decreases 7 - pad,
    {
        bytes.push(48u8);
        pad += 1;
        assert(bytes@ =~= Seq::new((pad - digits@.len()) as nat, |i: int| 48u8));
    }
    bytes.extend_from_slice(digits.as_slice());
    bytes.push(46u8);
    bytes.push(112u8);
    bytes.push(112u8);
    bytes.push(109u8);
    let ghost expected = padded_decimal(file_number as nat, 7) + seq![46u8, 112u8, 112u8, 109u8];
    assert(bytes@ =~= expected);
    let mut name = String::new();
    let mut i: usize = 0;
    while i < bytes.len()
        invariant
            i <= bytes@.len(),
            bytes@ == expected,
            name@ == bytes@.take(i as int).map_values(|b: u8| b as char),
        decreases bytes@.len() - i,
    {
        push_char(&mut name, bytes[i] as char);
        i += 1;
        assert(name@ =~= bytes@.take(i as int).map_values(|b: u8| b as char));
    }
    assert(bytes@.take(i as int) =~= bytes@);
    name
}

proof fn lemma_decimal_digits_are_digits(n: nat)
    ensures
        forall|i: int| 0 <= i < decimal_digits(n).len() ==> is_decimal_digit(#[trigger] decimal_digits(n)[i]),
        decimal_digits(n).len() >= 1,
        digits_value(decimal_digits(n)) == n,
    decreases n,
{
    if n >= 10 {
        lemma_decimal_digits_are_digits(n / 10);
        let d = decimal_digits(n);
        assert(d.drop_last() =~= decimal_digits(n / 10));
        let r = n % 10;
        assert(((48 + r) as u8) - 48 == r);
        assert(n == 10 * (n / 10) + r) by {
            vstd::arithmetic::div_mod::lemma_fundamental_div_mod(n as int, 10);
        }
        assert(d.last() == (48 + r) as u8);
        assert(digits_value(d) == digits_value(d.drop_last()) * 10 + (d.last() - 48));
    } else {
        let d = decimal_digits(n);
        assert(d.drop_last() =~= Seq::<u8>::empty());
        assert(d.last() == (48 + n) as u8);
        assert(digits_value(d) == digits_value(d.drop_last()) * 10 + (d.last() - 48));
    }
}

proof fn lemma_leading_zeros_value(z: nat, d: Seq<u8>)
    ensures
        digits_value(Seq::new(z, |i: int| 48u8) + d) == digits_value(d),
    decreases d.len(),
{
    let zs = Seq::new(z, |i: int| 48u8);
    if d.len() == 0 {
        assert(zs + d =~= zs);
        lemma_zeros_value(z);
    } else {
        lemma_leading_zeros_value(z, d.drop_last());
        assert((zs + d).drop_last() =~= zs + d.drop_last());
    }
}

proof fn lemma_zeros_value(z: nat)
    ensures
        digits_value(Seq::new(z, |i: int| 48u8)) == 0,
    decreases z,
{
    if z > 0 {
        lemma_zeros_value((z - 1) as nat);
        assert(Seq::new(z, |i: int| 48u8).drop_last() =~= Seq::new((z - 1) as nat, |i: int| 48u8));
    }
}

/// A decimal numeral: one or more digits, with no leading zero unless it
/// is the single digit "0".
pub open spec fn is_numeral(d: Seq<u8>) -> bool {
    &&& d.len() >= 1
    &&& forall|i: int| 0 <= i < d.len() ==> is_decimal_digit(#[trigger] d[i])
    &&& (d.len() == 1 || d[0] != 48)
}

proof fn lemma_decimal_digits_numeral(n: nat)
    ensures
        is_numeral(decimal_digits(n)),
        digits_value(decimal_digits(n)) == n,
    decreases n,
{
    lemma_decimal_digits_are_digits(n);
    if n >= 10 {
        lemma_decimal_digits_numeral(n / 10);
        assert(decimal_digits(n)[0] == decimal_digits(n / 10)[0]);
        if n / 10 < 10 {
            assert(decimal_digits(n / 10)[0] == (48 + n / 10) as u8);
        } else {
            assert(decimal_digits(n / 10).len() >= 2) by {
                lemma_decimal_digits_are_digits(n / 10 / 10);
            }
        }
    }
}

/// The written image file spells its header: after the magic number and a
/// newline come the width, a space, the height, a newline and the largest
/// color value, each as a decimal numeral whose value is the header's
/// number, then a newline, the pixel bytes and a final newline.
pub proof fn lemma_ppm_file_bytes_spells_header(header: PpmHeader, pixels: Seq<u8>)
    ensures
        exists|dw: Seq<u8>, dh: Seq<u8>, dm: Seq<u8>|
            #![trigger is_numeral(dw), is_numeral(dh), is_numeral(dm)]
            {
                &&& is_numeral(dw) && digits_value(dw) == header.width
                &&& is_numeral(dh) && digits_value(dh) == header.height
                &&& is_numeral(dm) && digits_value(dm) == header.max_color_value
                &&& spec_ppm_file_bytes(header, pixels) == header.magic_number@ + seq![10u8] + dw
                    + seq![32u8] + dh + seq![10u8] + dm + seq![10u8] + pixels + seq![10u8]
            },
{
    let dw = decimal_digits(header.width as nat);
    let dh = decimal_digits(header.height as nat);
    let dm = decimal_digits(header.max_color_value as nat);
    lemma_decimal_digits_numeral(header.width as nat);
    lemma_decimal_digits_numeral(header.height as nat);
    lemma_decimal_digits_numeral(header.max_color_value as nat);
    assert(is_numeral(dw) && is_numeral(dh) && is_numeral(dm));
}

/// The file name spells the output number: a run of at least seven decimal
/// digits whose value is the number, then ".ppm".
pub proof fn lemma_output_file_name_spells_number(file_number: nat)
    ensures
        exists|d: Seq<u8>|
            #![trigger digits_value(d)]
            {
                &&& d.len() >= 7
                &&& forall|i: int| 0 <= i < d.len() ==> is_decimal_digit(#[trigger] d[i])
                &&& digits_value(d) == file_number
                &&& spec_output_file_name(file_number) == (d + seq![46u8, 112u8, 112u8, 109u8]).map_values(
                    |b: u8| b as char,
                )
            },
{
    let d = padded_decimal(file_number, 7);
    let dd = decimal_digits(file_number);
    lemma_decimal_digits_are_digits(file_number);
    if dd.len() < 7 {
        lemma_leading_zeros_value((7 - dd.len()) as nat, dd);
        assert forall|i: int| 0 <= i < d.len() implies is_decimal_digit(#[trigger] d[i]) by {
            if i >= 7 - dd.len() {
                assert(d[i] == dd[i - (7 - dd.len())]);
            }
        }
    }
    assert(digits_value(d) == file_number);
}

/// Different output numbers give different file names, so no encoded image
/// overwrites one with another number.
pub proof fn lemma_output_file_name_injective(a: nat, b: nat)
    requires
        a != b,
    ensures
        spec_output_file_name(a) != spec_output_file_name(b),
{
    let pa = padded_decimal(a, 7);
    let pb = padded_decimal(b, 7);
    lemma_decimal_digits_are_digits(a);
    lemma_decimal_digits_are_digits(b);
    let da = decimal_digits(a);
    let db = decimal_digits(b);
    if da.len() < 7 {
        lemma_leading_zeros_value((7 - da.len()) as nat, da);
    }
    if db.len() < 7 {
        lemma_leading_zeros_value((7 - db.len()) as nat, db);
    }
    assert(digits_value(pa) == a);
    assert(digits_value(pb) == b);
    let suffix = seq![46u8, 112u8, 112u8, 109u8];
    let na = (pa + suffix).map_values(|x: u8| x as char);
    let nb = (pb + suffix).map_values(|x: u8| x as char);
    if na == nb {
        assert(na.len() == nb.len());
        assert(pa.len() == pb.len());
        assert forall|i: int| 0 <= i < pa.len() implies pa[i] == pb[i] by {
            assert(na[i] == nb[i]);
            assert((pa + suffix)[i] == pa[i]);
            assert((pb + suffix)[i] == pb[i]);
            let x = pa[i];
            let y = pb[i];
            assert((x as char) == (y as char) ==> x == y);
        }
        assert(pa =~= pb);
    }
}

} // verus!
