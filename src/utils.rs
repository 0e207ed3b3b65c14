//! Gamma correction of finished images.
use crate::color::{to_byte, Color, LinearColor, UNIT};
use crate::tracer::{ImagePixels, LinearPixels};
use vstd::arithmetic::div_mod::{
    lemma_div_is_ordered, lemma_div_multiples_vanish, lemma_multiply_divide_le,
};
use vstd::prelude::*;

verus! {

/// The largest `g` with `g * g <= n`.
pub open spec fn floor_sqrt(n: nat) -> nat
    decreases n,
{
    if n == 0 {
        0
    } else {
        let g = floor_sqrt((n - 1) as nat);
        if (g + 1) * (g + 1) <= n {
            g + 1
        } else {
            g
        }
    }
}

/// Gamma 2 on an 8-bit channel: `255 * sqrt(c / 255)`, rounded down, which is
/// the floor of `sqrt(255 * c)`.
pub open spec fn gamma(c: u8) -> nat {
    floor_sqrt(255 * c as nat)
}

/// Gamma 2 on each channel of `c`.
pub open spec fn gamma_color(c: Color) -> Color {
    Color { red: gamma(c.red) as u8, green: gamma(c.green) as u8, blue: gamma(c.blue) as u8 }
}

/// `floor_sqrt(n)` is the integer square root of `n`.
pub proof fn lemma_floor_sqrt_bounds(n: nat)
    ensures
        floor_sqrt(n) * floor_sqrt(n) <= n,
        n < (floor_sqrt(n) + 1) * (floor_sqrt(n) + 1),
    decreases n,
{
    let f = floor_sqrt(n);
    if n > 0 {
        lemma_floor_sqrt_bounds((n - 1) as nat);
        let g = floor_sqrt((n - 1) as nat);
        if (g + 1) * (g + 1) <= n {
            assert(n < (f + 1) * (f + 1)) by (nonlinear_arith)
                requires
                    f == g + 1,
                    n - 1 < (g + 1) * (g + 1),
            ;
        }
    } else {
        assert((f + 1) * (f + 1) == 1) by (nonlinear_arith)
            requires
                f == 0,
        ;
    }
}

/// The integer square root is unique.
pub proof fn lemma_floor_sqrt_unique(n: nat, g: nat)
    requires
        g * g <= n,
        n < (g + 1) * (g + 1),
    ensures
        floor_sqrt(n) == g,
{
    lemma_floor_sqrt_bounds(n);
    let f = floor_sqrt(n);
    if f < g {
        assert((f + 1) * (f + 1) <= g * g) by (nonlinear_arith)
            requires
                f + 1 <= g,
        ;
    } else if f > g {
        assert((g + 1) * (g + 1) <= f * f) by (nonlinear_arith)
            requires
                g + 1 <= f,
        ;
    }
}

/// `floor_sqrt` never decreases.
pub proof fn lemma_floor_sqrt_monotonic(m: nat, n: nat)
    requires
        m <= n,
    ensures
        floor_sqrt(m) <= floor_sqrt(n),
    decreases n - m,
{
    if m < n {
        lemma_floor_sqrt_monotonic(m, (n - 1) as nat);
    }
}

/// Gamma correction is monotonic: a brighter channel never comes out darker.
pub proof fn lemma_gamma_monotonic(a: u8, b: u8)
    requires
        a <= b,
    ensures
        gamma(a) <= gamma(b),
{
    lemma_floor_sqrt_monotonic(255 * a as nat, 255 * b as nat);
}

/// The inverse of gamma 2 on an 8-bit channel: `g * g / 255`, rounded down.
pub open spec fn ungamma(g: nat) -> nat {
    g * g / 255
}

/// Gamma correction followed by its inverse gives the channel back up to the
/// rounding of the 8-bit domain: never above it, and at most 2 below it.
pub proof fn lemma_gamma_inverse(c: u8)
    ensures
        gamma(c) <= 255,
        ungamma(gamma(c)) <= c,
        c <= ungamma(gamma(c)) + 2,
{
    let n = 255 * c as nat;
    let g = gamma(c);
    lemma_floor_sqrt_bounds(n);
    assert(g <= 255) by (nonlinear_arith)
        requires
            g * g <= n,
            n <= 255 * 255,
    ;
    lemma_multiply_divide_le((g * g) as int, 255, c as int);
    if c >= 2 {
        assert(255 * (c - 2) <= g * g) by (nonlinear_arith)
            requires
                n == 255 * c,
                n < (g + 1) * (g + 1),
                g <= 255,
        ;
        lemma_div_is_ordered(255 * (c - 2), (g * g) as int, 255);
        lemma_div_multiples_vanish(c - 2, 255);
    }
}

/// Gamma 2 correction of one 8-bit channel.
pub fn gamma_channel(c: u8) -> (r: u8)
    ensures
        r == gamma(c),
{
    let n: u32 = 255 * c as u32;
    // lo * lo <= n < hi * hi
    let mut lo: u32 = 0;
    let mut hi: u32 = 256;
    assert(256 * 256 > n) by (nonlinear_arith)
        requires
            n <= 255 * 255,
    ;
    while hi - lo > 1
        invariant
            lo < hi <= 256,
            lo * lo <= n,
            n < hi * hi,
        decreases hi - lo,
    {
        let mid = lo + (hi - lo) / 2;
        assert(mid * mid <= 256 * 256) by (nonlinear_arith)
            requires
                mid < 256,
        ;
        if mid * mid <= n {
            lo = mid;
        } else {
            hi = mid;
        }
    }
    proof {
        lemma_floor_sqrt_unique(n as nat, lo as nat);
    }
    lo as u8
}

/// Gamma 2 correction of each channel of a colour.
pub fn gamma_correct_color(c: Color) -> (r: Color)
    ensures
        r == gamma_color(c),
{
    Color { red: gamma_channel(c.red), green: gamma_channel(c.green), blue: gamma_channel(c.blue) }
}

/// Apply gamma 2 correction to every channel of every pixel of an image.
pub fn correct_gamma(pixels: &mut ImagePixels)
    ensures
        final(pixels)@.len() == old(pixels)@.len(),
        forall|i: int|
            0 <= i < old(pixels)@.len() ==> #[trigger] final(pixels)@[i]@.len()
                == old(pixels)@[i]@.len(),
        forall|i: int, j: int|
            0 <= i < old(pixels)@.len() && 0 <= j < old(pixels)@[i]@.len()
                ==> #[trigger] final(pixels)@[i]@[j] == gamma_color(old(pixels)@[i]@[j]),
{
    let ghost before = pixels@;
    let n = pixels.len();
    let mut i: usize = 0;
    while i < n
        invariant
            n == before.len() == pixels@.len(),
            i <= n,
            forall|k: int| i <= k < n ==> #[trigger] pixels@[k] == before[k],
            forall|k: int| 0 <= k < i ==> #[trigger] pixels@[k]@.len() == before[k]@.len(),
            forall|k: int, j: int|
                0 <= k < i && 0 <= j < before[k]@.len() ==> #[trigger] pixels@[k]@[j]
                    == gamma_color(before[k]@[j]),
        decreases n - i,
    {
        let row = &pixels[i];
        let mut corrected: Vec<Color> = Vec::new();
        let m = row.len();
        let mut j: usize = 0;
        while j < m
            invariant
                m == row@.len(),
                row == before[i as int],
                j <= m,
                corrected@.len() == j,
                forall|l: int| 0 <= l < j ==> #[trigger] corrected@[l] == gamma_color(row@[l]),
            decreases m - j,
        {
            corrected.push(gamma_correct_color(row[j]));
            j = j + 1;
        }
        pixels.set(i, corrected);
        i = i + 1;
    }
}


/// Gamma 2 on a linear channel: the square root of the fraction `c / UNIT`, in
/// fixed point and rounded down, which is the floor of `sqrt(UNIT * c)`.
pub open spec fn linear_gamma(c: u32) -> nat {
    floor_sqrt(UNIT as nat * c as nat)
}

/// The inverse of gamma 2 on a linear channel: `g * g / UNIT`, rounded down.
pub open spec fn linear_ungamma(g: nat) -> nat {
    g * g / UNIT as nat
}

/// The 8-bit colour written out for the linear colour `c`: gamma 2 on each
/// channel, then `255 * c` rounded down to 8 bits.
pub open spec fn output_color(c: LinearColor) -> Color {
    Color {
        red: to_byte(linear_gamma(c.red()) as u32) as u8,
        green: to_byte(linear_gamma(c.green()) as u32) as u8,
        blue: to_byte(linear_gamma(c.blue()) as u32) as u8,
    }
}

/// Gamma correction of linear channels is monotonic.
pub proof fn lemma_linear_gamma_monotonic(a: u32, b: u32)
    requires
        a <= b,
    ensures
        linear_gamma(a) <= linear_gamma(b),
{
    assert(UNIT as nat * a as nat <= UNIT as nat * b as nat) by (nonlinear_arith)
        requires
            a <= b,
    ;
    lemma_floor_sqrt_monotonic(UNIT as nat * a as nat, UNIT as nat * b as nat);
}

/// Gamma correction of a linear channel followed by its inverse gives the channel
/// back up to the rounding of the fixed point: never above it, and at most 2
/// parts in `UNIT` below it.
pub proof fn lemma_linear_gamma_inverse(c: u32)
    requires
        c <= UNIT,
    ensures
        linear_gamma(c) <= UNIT,
        linear_ungamma(linear_gamma(c)) <= c,
        c <= linear_ungamma(linear_gamma(c)) + 2,
{
    let u = UNIT as int;
    let n = UNIT as nat * c as nat;
    let g = linear_gamma(c);
    lemma_floor_sqrt_bounds(n);
    assert(g <= u) by (nonlinear_arith)
        requires
            g * g <= n,
            n == u * c,
            c <= u,
            u > 0,
    ;
    lemma_multiply_divide_le((g * g) as int, u, c as int);
    if c >= 2 {
        assert(u * (c - 2) <= g * g) by (nonlinear_arith)
            requires
                n == u * c,
                n < (g + 1) * (g + 1),
                g <= u,
        ;
        lemma_div_is_ordered(u * (c - 2), (g * g) as int, u);
        lemma_div_multiples_vanish(c - 2, u);
    }
}

/// Gamma 2 correction of one linear channel.
pub fn gamma_linear_channel(c: u32) -> (r: u32)
    requires
        c <= UNIT,
    ensures
        r == linear_gamma(c),
        r <= UNIT,
{
    assert(UNIT * c <= 1000000 * 1000000) by (nonlinear_arith)
        requires
            c <= UNIT,
            UNIT == 1000000,
    ;
    let n: u64 = UNIT as u64 * c as u64;
    // lo * lo <= n < hi * hi
    let mut lo: u64 = 0;
    let mut hi: u64 = UNIT as u64 + 1;
    assert(n < hi * hi) by (nonlinear_arith)
        requires
            n == UNIT * c,
            c <= UNIT,
            hi == UNIT + 1,
    ;
    while hi - lo > 1
        invariant
            lo < hi <= UNIT + 1,
            lo * lo <= n,
            n < hi * hi,
        decreases hi - lo,
    {
        let mid = lo + (hi - lo) / 2;
        assert(mid * mid <= 1000001 * 1000001) by (nonlinear_arith)
            requires
                mid <= 1000001,
        ;
        if mid * mid <= n {
            lo = mid;
        } else {
            hi = mid;
        }
    }
    proof {
        lemma_floor_sqrt_unique(n as nat, lo as nat);
    }
    lo as u32
}

/// Gamma 2 correction of each channel of a linear colour.
pub fn gamma_correct_linear(c: &LinearColor) -> (r: LinearColor)
    ensures
        r.red() == linear_gamma(c.red()),
        r.green() == linear_gamma(c.green()),
        r.blue() == linear_gamma(c.blue()),
{
    LinearColor::new(
        gamma_linear_channel(c.red()),
        gamma_linear_channel(c.green()),
        gamma_linear_channel(c.blue()),
    )
}

/// The image written out for a rendered linear image: gamma 2 on every channel
/// of every pixel, then one conversion to 8 bits.
pub fn finish_image(image: &LinearPixels) -> (r: ImagePixels)
    ensures
        r@.len() == image@.len(),
        forall|i: int| 0 <= i < image@.len() ==> #[trigger] r@[i]@.len() == image@[i]@.len(),
        forall|i: int, j: int|
            0 <= i < image@.len() && 0 <= j < image@[i]@.len() ==> #[trigger] r@[i]@[j]
                == output_color(image@[i]@[j]),
{
    let mut out: ImagePixels = Vec::new();
    let n = image.len();
    let mut i: usize = 0;
    while i < n
        invariant
            n == image@.len(),
            i <= n,
            out@.len() == i,
            forall|k: int| 0 <= k < i ==> #[trigger] out@[k]@.len() == image@[k]@.len(),
            forall|k: int, j: int|
                0 <= k < i && 0 <= j < image@[k]@.len() ==> #[trigger] out@[k]@[j]
                    == output_color(image@[k]@[j]),
        decreases n - i,
    {
        let row = &image[i];
        let mut line: Vec<Color> = Vec::new();
        let m = row.len();
        let mut j: usize = 0;
        while j < m
            invariant
                m == row@.len(),
                row == image@[i as int],
                j <= m,
                line@.len() == j,
                forall|l: int| 0 <= l < j ==> #[trigger] line@[l] == output_color(row@[l]),
            decreases m - j,
        {
            let corrected = gamma_correct_linear(&row[j]);
            line.push(corrected.to_color());
            j = j + 1;
        }
        out.push(line);
        i = i + 1;
    }
    out
}

} // verus!
