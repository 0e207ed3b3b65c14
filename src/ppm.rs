//! The plain-text PPM encoding of a rendered image.
use crate::color::Color;
use crate::tracer::{ImageConfig, ImagePixels};
use vstd::prelude::*;

verus! {

/// The ASCII decimal digits of `n`, without leading zeros.
pub open spec fn decimal(n: nat) -> Seq<u8>
    decreases n,
{
    if n < 10 {
        seq![(48 + n) as u8]
    } else {
        decimal(n / 10) + seq![(48 + n % 10) as u8]
    }
}

/// The line of one pixel: `"<red> <green> <blue>\n"`.
pub open spec fn pixel_line(c: Color) -> Seq<u8> {
    decimal(c.red as nat) + seq![32u8] + decimal(c.green as nat) + seq![32u8] + decimal(
        c.blue as nat,
    ) + seq![10u8]
}

/// The lines of the pixels of a scanline, left to right.
pub open spec fn scanline_text(row: Seq<Color>) -> Seq<u8>
    decreases row.len(),
{
    if row.len() == 0 {
        Seq::empty()
    } else {
        scanline_text(row.drop_last()) + pixel_line(row.last())
    }
}

/// The lines of the pixels of an image, scanline after scanline.
pub open spec fn image_text(rows: Seq<Vec<Color>>) -> Seq<u8>
    decreases rows.len(),
{
    if rows.len() == 0 {
        Seq::empty()
    } else {
        image_text(rows.drop_last()) + scanline_text(rows.last()@)
    }
}

/// The header: `"P3\n<width> <height>\n255\n"`.
pub open spec fn header(width: nat, height: nat) -> Seq<u8> {
    seq![80u8, 51u8, 10u8] + decimal(width) + seq![32u8] + decimal(height) + seq![
        10u8,
        50u8,
        53u8,
        53u8,
        10u8,
    ]
}

fn push_decimal(out: &mut Vec<u8>, n: u32)
    ensures
        final(out)@ == old(out)@ + decimal(n as nat),
    decreases n,
{
    if n >= 10 {
        push_decimal(out, n / 10);
    }
    out.push(48 + (n % 10) as u8);
    assert(final(out)@ =~= old(out)@ + decimal(n as nat));
}

fn push_pixel_line(out: &mut Vec<u8>, c: Color)
    ensures
        final(out)@ == old(out)@ + pixel_line(c),
{
    push_decimal(out, c.red as u32);
    out.push(32);
    push_decimal(out, c.green as u32);
    out.push(32);
    push_decimal(out, c.blue as u32);
    out.push(10);
    assert(final(out)@ =~= old(out)@ + pixel_line(c));
}

/// The PPM text of an image of `config.height` scanlines of `config.width` pixels:
/// the header, then one line per pixel, scanline after scanline.
pub fn encode_ppm(config: &ImageConfig, pixels: &ImagePixels) -> (r: Vec<u8>)
    requires
        pixels@.len() == config.height,
        forall|i: int| 0 <= i < pixels@.len() ==> #[trigger] pixels@[i]@.len() == config.width,
    ensures
        r@ == header(config.width as nat, config.height as nat) + image_text(pixels@),
{
    let mut out: Vec<u8> = Vec::new();
    out.push(80);
    out.push(51);
    out.push(10);
    push_decimal(&mut out, config.width);
    out.push(32);
    push_decimal(&mut out, config.height);
    out.push(10);
    out.push(50);
    out.push(53);
    out.push(53);
    out.push(10);
    let ghost head = header(config.width as nat, config.height as nat);
    assert(out@ =~= head);
    let n = pixels.len();
    let mut i: usize = 0;
    while i < n
        invariant
            n == pixels@.len(),
            i <= n,
            out@ == head + image_text(pixels@.take(i as int)),
        decreases n - i,
    {
        let row = &pixels[i];
        let m = row.len();
        let mut j: usize = 0;
        while j < m
            invariant
                m == row@.len(),
                j <= m,
                out@ == head + image_text(pixels@.take(i as int)) + scanline_text(
                    row@.take(j as int),
                ),
            decreases m - j,
        {
            let ghost before = out@;
            push_pixel_line(&mut out, row[j]);
            proof {
                assert(row@.take(j + 1).drop_last() =~= row@.take(j as int));
                assert(out@ =~= head + image_text(pixels@.take(i as int)) + scanline_text(
                    row@.take(j + 1),
                ));
            }
            j = j + 1;
        }
        proof {
            assert(row@.take(m as int) =~= row@);
            assert(pixels@.take(i + 1).drop_last() =~= pixels@.take(i as int));
            assert(out@ =~= head + image_text(pixels@.take(i + 1)));
        }
        i = i + 1;
    }
    proof {
        assert(pixels@.take(n as int) =~= pixels@);
    }
    out
}

} // verus!
