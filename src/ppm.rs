use vstd::prelude::*;

use crate::clamp::{clamp_i64, clamped};

verus! {

/// ASCII decimal digits of `n`, most significant first, without leading zeros.
pub open spec fn decimal(n: nat) -> Seq<u8>
    decreases n,
{
    if n < 10 {
        seq![(48 + n) as u8]
    } else {
        decimal(n / 10).push((48 + n % 10) as u8)
    }
}

/// The magic number of an ASCII pixmap, the dimensions and the largest
/// component value, one per line.
pub open spec fn header_bytes(width: nat, height: nat) -> Seq<u8> {
    seq![80u8, 51u8, 10u8] + decimal(width) + seq![32u8] + decimal(height) + seq![10u8, 50u8, 53u8, 53u8, 10u8]
}

/// The three components of a pixel in decimal, separated by spaces, ending
/// the line.
pub open spec fn pixel_bytes(p: (u8, u8, u8)) -> Seq<u8> {
    decimal(p.0 as nat) + seq![32u8] + decimal(p.1 as nat) + seq![32u8] + decimal(p.2 as nat) + seq![10u8]
}

/// One line per pixel, in order.
pub open spec fn pixel_lines(ps: Seq<(u8, u8, u8)>) -> Seq<u8>
    decreases ps.len(),
{
    if ps.len() == 0 {
        Seq::empty()
    } else {
        pixel_lines(ps.drop_last()) + pixel_bytes(ps.last())
    }
}

/// Appends the decimal digits of `n`.
fn push_decimal(out: &mut Vec<u8>, n: u32)
    ensures
        final(out)@ == old(out)@ + decimal(n as nat),
    decreases n,
{
    if n >= 10 {
        push_decimal(out, n / 10);
    }
    out.push((48 + n % 10) as u8);
    assert(out@ =~= old(out)@ + decimal(n as nat));
}

fn push_pixel(out: &mut Vec<u8>, p: (u8, u8, u8))
    ensures
        final(out)@ == old(out)@ + pixel_bytes(p),
{
    push_decimal(out, p.0 as u32);
    out.push(32);
    push_decimal(out, p.1 as u32);
    out.push(32);
    push_decimal(out, p.2 as u32);
    out.push(10);
    assert(out@ =~= old(out)@ + pixel_bytes(p));
}

/// The header of an ASCII portable pixmap of `width` by `height` pixels
/// with components up to 255.
pub fn ppm_header(width: u32, height: u32) -> (r: Vec<u8>)
    ensures
        r@ == header_bytes(width as nat, height as nat),
{
    let mut out: Vec<u8> = Vec::new();
    out.push(80);
    out.push(51);
    out.push(10);
    push_decimal(&mut out, width);
    out.push(32);
    push_decimal(&mut out, height);
    out.push(10);
    out.push(50);
    out.push(53);
    out.push(53);
    out.push(10);
    assert(out@ =~= header_bytes(width as nat, height as nat));
    out
}

/// The line of a pixmap that holds one pixel.
pub fn ppm_pixel(p: (u8, u8, u8)) -> (r: Vec<u8>)
    ensures
        r@ == pixel_bytes(p),
{
    let mut out: Vec<u8> = Vec::new();
    push_pixel(&mut out, p);
    assert(out@ =~= pixel_bytes(p));
    out
}

/// A whole pixmap: the header, then one line per pixel in the order given
/// (rows from the top, each from the left). `None` unless there are exactly
/// `width * height` pixels.
pub fn encode_ppm(width: u32, height: u32, pixels: &Vec<(u8, u8, u8)>) -> (r: Option<Vec<u8>>)
    ensures
        r.is_some() <==> pixels.len() == width as int * height as int,
        r matches Some(bytes) ==> bytes@ == header_bytes(width as nat, height as nat) + pixel_lines(pixels@),
{
    let w = width as u64;
    let h = height as u64;
    assert(w * h <= 0xffff_ffff_ffff_ffff) by (nonlinear_arith)
        requires
            w <= u32::MAX,
            h <= u32::MAX,
    ;
    let count = w * h;
    if pixels.len() as u64 != count {
        return None;
    }
    let mut out = ppm_header(width, height);
    for i in 0..pixels.len()
        invariant
            out@ == header_bytes(width as nat, height as nat) + pixel_lines(pixels@.subrange(0, i as int)),
    {
        push_pixel(&mut out, pixels[i]);
        proof {
            let done = pixels@.subrange(0, i + 1);
            assert(done.drop_last() =~= pixels@.subrange(0, i as int));
            assert(out@ =~= header_bytes(width as nat, height as nat) + pixel_lines(done));
        }
    }
    assert(pixels@.subrange(0, pixels.len() as int) =~= pixels@);
    Some(out)
}

/// Image coordinates `(i, j)` of the pixel that comes `index`-th in a pixmap
/// `width` by `height` pixels: rows run from the top (`j = height - 1`) down to
/// `j = 0`, each from `i = 0` rightwards. `None` past the last pixel.
pub fn pixel_position(index: u64, width: u32, height: u32) -> (r: Option<(u32, u32)>)
    ensures
        r.is_some() <==> index < width as int * height as int,
        r matches Some((i, j)) ==> i == (index as int) % (width as int) && j == height - 1 - (index as int) / (width as int),
{
    let w = width as u64;
    let h = height as u64;
    assert(w * h <= 0xffff_ffff_ffff_ffff) by (nonlinear_arith)
        requires
            w <= u32::MAX,
            h <= u32::MAX,
    ;
    if index >= w * h {
        return None;
    }
    let row = index / w;
    assert(row < h) by (nonlinear_arith)
        requires
            row == index / w,
            index < w * h,
            w > 0,
    ;
    Some(((index % w) as u32, (h - 1 - row) as u32))
}

/// Quantises a colour component already scaled to `[0, 256)` and floored:
/// values outside the byte range are clamped to `0` or `255`.
pub fn quantise(scaled: i64) -> (r: u8)
    ensures
        r == clamped(scaled as int, 0, 255),
{
    clamp_i64(scaled, 0, 255) as u8
}

} // verus!
