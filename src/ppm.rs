//! The plain-text PPM ("P3") encoding of the rendered image: a header giving the
//! dimensions and the channel maximum, then one `R G B` line per pixel.
use vstd::prelude::*;

verus! {

/// ASCII code of the digit `0`.
pub const DIGIT_ZERO: u8 = 48;

/// ASCII space, between the numbers of a line.
pub const SPACE: u8 = 32;

/// ASCII line feed, ending each line.
pub const NEWLINE: u8 = 10;

/// ASCII `P`, first byte of the magic number.
pub const LETTER_P: u8 = 80;

/// Largest channel value, written in the header.
pub const MAX_CHANNEL: u32 = 255;

/// ASCII digits of `n` in base ten, most significant first, without leading zeros.
pub open spec fn decimal(n: nat) -> Seq<u8>
    decreases n,
{
    if n < 10 {
        seq![(n + DIGIT_ZERO) as u8]
    } else {
        decimal(n / 10).push((n % 10 + DIGIT_ZERO) as u8)
    }
}

/// The line of one pixel: its three channels in decimal, separated by single
/// spaces and ended by a line feed.
pub open spec fn pixel_line(r: u8, g: u8, b: u8) -> Seq<u8> {
    decimal(r as nat) + seq![SPACE] + decimal(g as nat) + seq![SPACE] + decimal(b as nat) + seq![
        NEWLINE,
    ]
}

/// The header of an image `width` pixels wide and `height` high: the magic number
/// `P3`, the dimensions, and the channel maximum, each on a line of its own.
pub open spec fn header(width: u32, height: u32) -> Seq<u8> {
    seq![LETTER_P, (3 + DIGIT_ZERO) as u8, NEWLINE] + decimal(width as nat) + seq![SPACE]
        + decimal(height as nat) + seq![NEWLINE] + decimal(MAX_CHANNEL as nat) + seq![NEWLINE]
}

/// The whole file: the header followed by every pixel line in buffer order.
pub open spec fn document(width: u32, height: u32, lines: Seq<Vec<u8>>) -> Seq<u8> {
    header(width, height) + lines.map_values(|l: Vec<u8>| l@).flatten()
}

/// Appends the decimal digits of `n` to `out`.
pub fn push_decimal(out: &mut Vec<u8>, n: u32)
    ensures
        final(out)@ == old(out)@ + decimal(n as nat),
    decreases n,
{
    if n >= 10 {
        push_decimal(out, n / 10);
    }
    let digit: u8 = (n % 10) as u8;
    out.push(digit + DIGIT_ZERO);
    proof {
        if n >= 10 {
            assert(decimal(n as nat) == decimal((n / 10) as nat).push((digit + DIGIT_ZERO) as u8));
        }
        assert(final(out)@ =~= old(out)@ + decimal(n as nat));
    }
}

/// Appends every byte of `bytes` to `out`.
fn push_bytes(out: &mut Vec<u8>, bytes: &Vec<u8>)
    ensures
        final(out)@ == old(out)@ + bytes@,
{
    let ghost start = out@;
    let mut i: usize = 0;
    while i < bytes.len()
        invariant
            i <= bytes@.len(),
            out@ == start + bytes@.subrange(0, i as int),
        decreases bytes@.len() - i,
    {
        out.push(bytes[i]);
        i = i + 1;
        assert(out@ =~= start + bytes@.subrange(0, i as int));
    }
    assert(bytes@.subrange(0, i as int) =~= bytes@);
}

/// Encodes one pixel, given its three quantised channels, as a line of the file.
pub fn encode_pixel(r: u8, g: u8, b: u8) -> (line: Vec<u8>)
    ensures
        line@ == pixel_line(r, g, b),
{
    let mut line: Vec<u8> = Vec::new();
    push_decimal(&mut line, r as u32);
    line.push(SPACE);
    push_decimal(&mut line, g as u32);
    line.push(SPACE);
    push_decimal(&mut line, b as u32);
    line.push(NEWLINE);
    assert(line@ =~= pixel_line(r, g, b));
    line
}

/// Encodes the header of an image of `width` by `height` pixels.
pub fn encode_header(width: u32, height: u32) -> (out: Vec<u8>)
    ensures
        out@ == header(width, height),
{
    let mut out: Vec<u8> = Vec::new();
    out.push(LETTER_P);
    out.push(3 + DIGIT_ZERO);
    out.push(NEWLINE);
    push_decimal(&mut out, width);
    out.push(SPACE);
    push_decimal(&mut out, height);
    out.push(NEWLINE);
    push_decimal(&mut out, MAX_CHANNEL);
    out.push(NEWLINE);
    assert(out@ =~= header(width, height));
    out
}

/// Encodes the whole file: the header, then the pixel lines in buffer order.
pub fn encode_image(width: u32, height: u32, lines: &Vec<Vec<u8>>) -> (out: Vec<u8>)
    ensures
        out@ == document(width, height, lines@),
{
    let mut out = encode_header(width, height);
    let mut i: usize = 0;
    while i < lines.len()
        invariant
            i <= lines@.len(),
            out@ == document(width, height, lines@.subrange(0, i as int)),
        decreases lines@.len() - i,
    {
        let ghost before = lines@.subrange(0, i as int);
        push_bytes(&mut out, &lines[i]);
        i = i + 1;
        proof {
            let f = |l: Vec<u8>| l@;
            let after = lines@.subrange(0, i as int);
            assert(after =~= before.push(lines@[i - 1]));
            assert(after.map_values(f) =~= before.map_values(f).push(lines@[i - 1]@));
            before.map_values(f).lemma_flatten_push(lines@[i - 1]@);
            assert(out@ =~= document(width, height, after));
        }
    }
    assert(lines@.subrange(0, i as int) =~= lines@);
    out
}

} // verus!
