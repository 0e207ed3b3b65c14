//! Colours: 8-bit output colours and fixed-point linear colours.
use vstd::arithmetic::div_mod::{lemma_multiply_divide_le, lemma_multiply_divide_lt};
use vstd::arithmetic::mul::lemma_mul_inequality;
use vstd::prelude::*;

verus! {

/// An output colour, 8 bits per channel.
#[derive(Clone, Copy, Debug, PartialEq, Eq, Structural)]
pub struct Color {
    pub red: u8,
    pub green: u8,
    pub blue: u8,
}

impl Default for Color {
    /// Black.
    fn default() -> (r: Color)
        ensures
            r.red == 0 && r.green == 0 && r.blue == 0,
    {
        Color { red: 0, green: 0, blue: 0 }
    }
}

/// Pure red.
pub fn red() -> (r: Color)
    ensures
        r == (Color { red: 255, green: 0, blue: 0 }),
{
    Color { red: 255, green: 0, blue: 0 }
}

/// Pure green.
pub fn green() -> (r: Color)
    ensures
        r == (Color { red: 0, green: 255, blue: 0 }),
{
    Color { red: 0, green: 255, blue: 0 }
}

/// Pure blue.
pub fn blue() -> (r: Color)
    ensures
        r == (Color { red: 0, green: 0, blue: 255 }),
{
    Color { red: 0, green: 0, blue: 255 }
}

impl From<(u8, u8, u8)> for Color {
    fn from(value: (u8, u8, u8)) -> (r: Color)
        ensures
            r.red == value.0 && r.green == value.1 && r.blue == value.2,
    {
        Color { red: value.0, green: value.1, blue: value.2 }
    }
}

impl vstd::std_specs::convert::FromSpecImpl<(u8, u8, u8)> for Color {
    open spec fn obeys_from_spec() -> bool {
        true
    }

    open spec fn from_spec(v: (u8, u8, u8)) -> Color {
        Color { red: v.0, green: v.1, blue: v.2 }
    }
}


/// The fixed-point value that stands for one in a linear colour channel.
pub const UNIT: u32 = 1000000;

/// `x` saturated to the linear range `[0, UNIT]`.
pub open spec fn saturate(x: u32) -> u32 {
    if x <= UNIT {
        x
    } else {
        UNIT
    }
}

/// Channel `c` tinted by the fraction `a`: `c * a`, rounded down.
pub open spec fn tint(c: u32, a: u32) -> int {
    (c * a) as int / UNIT as int
}

/// Linear interpolation from `a` (at `t = 0`) to `b` (at `t = UNIT`), rounded down.
pub open spec fn mix(a: u32, b: u32, t: u32) -> int {
    ((UNIT - t) * a + t * b) as int / UNIT as int
}

/// Conversion of a linear channel to 8 bits: `c * 255`, rounded down.
pub open spec fn to_byte(c: u32) -> int {
    (c * 255) as int / UNIT as int
}

/// A linear colour. Each channel is a fraction in `[0, 1]`, held in fixed point
/// with `UNIT` standing for one.
#[derive(Clone, Copy, Debug)]
pub struct LinearColor {
    red: u32,
    green: u32,
    blue: u32,
}

impl LinearColor {
    #[verifier::type_invariant]
    spec fn in_range(self) -> bool {
        self.red <= UNIT && self.green <= UNIT && self.blue <= UNIT
    }

    pub closed spec fn spec_red(&self) -> u32 {
        self.red
    }

    pub closed spec fn spec_green(&self) -> u32 {
        self.green
    }

    pub closed spec fn spec_blue(&self) -> u32 {
        self.blue
    }

    /// Channel `k`: 0 red, 1 green, 2 blue.
    pub open spec fn channel(&self, k: int) -> u32 {
        if k == 0 {
            self.red()
        } else if k == 1 {
            self.green()
        } else {
            self.blue()
        }
    }

    /// The red channel.
    #[verifier::when_used_as_spec(spec_red)]
    pub fn red(&self) -> (r: u32)
        ensures
            r == self.red(),
            r <= UNIT,
    {
        proof {
            use_type_invariant(self);
        }
        self.red
    }

    /// The green channel.
    #[verifier::when_used_as_spec(spec_green)]
    pub fn green(&self) -> (r: u32)
        ensures
            r == self.green(),
            r <= UNIT,
    {
        proof {
            use_type_invariant(self);
        }
        self.green
    }

    /// The blue channel.
    #[verifier::when_used_as_spec(spec_blue)]
    pub fn blue(&self) -> (r: u32)
        ensures
            r == self.blue(),
            r <= UNIT,
    {
        proof {
            use_type_invariant(self);
        }
        self.blue
    }

    /// Colours with the same channels are the same colour.
    pub proof fn lemma_same_channels(a: LinearColor, b: LinearColor)
        requires
            a.red() == b.red(),
            a.green() == b.green(),
            a.blue() == b.blue(),
        ensures
            a == b,
    {
    }

    /// A colour from fixed-point channels; channels above `UNIT` saturate.
    pub fn new(red: u32, green: u32, blue: u32) -> (r: LinearColor)
        ensures
            r.red() == saturate(red),
            r.green() == saturate(green),
            r.blue() == saturate(blue),
    {
        let red = if red <= UNIT { red } else { UNIT };
        let green = if green <= UNIT { green } else { UNIT };
        let blue = if blue <= UNIT { blue } else { UNIT };
        LinearColor { red, green, blue }
    }

    /// No light.
    pub fn black() -> (r: LinearColor)
        ensures
            r.red() == 0 && r.green() == 0 && r.blue() == 0,
    {
        LinearColor { red: 0, green: 0, blue: 0 }
    }

    /// Full light on every channel; as an attenuation it leaves light unchanged.
    pub fn white() -> (r: LinearColor)
        ensures
            r.red() == UNIT && r.green() == UNIT && r.blue() == UNIT,
    {
        LinearColor { red: UNIT, green: UNIT, blue: UNIT }
    }
}

fn tint_channel(c: u32, a: u32) -> (r: u32)
    requires
        c <= UNIT,
        a <= UNIT,
    ensures
        r == tint(c, a),
        r <= UNIT,
{
    proof {
        lemma_mul_inequality(c as int, UNIT as int, a as int);
        lemma_mul_inequality(a as int, UNIT as int, UNIT as int);
        lemma_multiply_divide_le((c * a) as int, UNIT as int, UNIT as int);
    }
    ((c as u64 * a as u64) / UNIT as u64) as u32
}

fn mix_channel(a: u32, b: u32, t: u32) -> (r: u32)
    requires
        a <= UNIT,
        b <= UNIT,
        t <= UNIT,
    ensures
        r == mix(a, b, t),
        r <= UNIT,
{
    proof {
        lemma_mul_inequality(a as int, UNIT as int, (UNIT - t) as int);
        lemma_mul_inequality(b as int, UNIT as int, t as int);
        assert((UNIT - t) * UNIT + t * UNIT == UNIT * UNIT) by (nonlinear_arith);
        lemma_multiply_divide_le(((UNIT - t) * a + t * b) as int, UNIT as int, UNIT as int);
    }
    let w = (UNIT - t) as u64 * a as u64 + t as u64 * b as u64;
    (w / UNIT as u64) as u32
}

fn byte_of(c: u32) -> (r: u8)
    requires
        c <= UNIT,
    ensures
        r == to_byte(c),
{
    proof {
        lemma_multiply_divide_lt((c * 255) as int, UNIT as int, 256);
    }
    ((c as u64 * 255) / UNIT as u64) as u8
}

impl LinearColor {
    /// This colour tinted channel by channel by the fractions of `by`.
    pub fn attenuate(&self, by: &LinearColor) -> (r: LinearColor)
        ensures
            r.red() == tint(self.red(), by.red()),
            r.green() == tint(self.green(), by.green()),
            r.blue() == tint(self.blue(), by.blue()),
    {
        LinearColor {
            red: tint_channel(self.red(), by.red()),
            green: tint_channel(self.green(), by.green()),
            blue: tint_channel(self.blue(), by.blue()),
        }
    }

    /// The linear blend from `a` at `t = 0` to `b` at `t = UNIT`; `t` saturates at `UNIT`.
    pub fn lerp(a: &LinearColor, b: &LinearColor, t: u32) -> (r: LinearColor)
        ensures
            r.red() == mix(a.red(), b.red(), saturate(t)),
            r.green() == mix(a.green(), b.green(), saturate(t)),
            r.blue() == mix(a.blue(), b.blue(), saturate(t)),
    {
        let t = if t <= UNIT { t } else { UNIT };
        LinearColor {
            red: mix_channel(a.red(), b.red(), t),
            green: mix_channel(a.green(), b.green(), t),
            blue: mix_channel(a.blue(), b.blue(), t),
        }
    }

    /// This colour in 8 bits per channel, each `255 * c` rounded down.
    pub fn to_color(&self) -> (r: Color)
        ensures
            r.red == to_byte(self.red()),
            r.green == to_byte(self.green()),
            r.blue == to_byte(self.blue()),
    {
        Color { red: byte_of(self.red()), green: byte_of(self.green()), blue: byte_of(self.blue()) }
    }
}


/// The sum of channel `k` over `s`.
pub open spec fn channel_sum(s: Seq<LinearColor>, k: int) -> nat
    decreases s.len(),
{
    if s.len() == 0 {
        0
    } else {
        (channel_sum(s.drop_last(), k) + s.last().channel(k)) as nat
    }
}

/// The mean of channel `k` over a non-empty `s`, rounded to nearest (halves up).
pub open spec fn channel_mean(s: Seq<LinearColor>, k: int) -> int {
    (channel_sum(s, k) + s.len() / 2) as int / s.len() as int
}

fn mean_of_sum(sum: u64, n: u64) -> (r: u32)
    requires
        0 < n <= u32::MAX,
        sum <= n * UNIT,
    ensures
        r == (sum + n / 2) as int / n as int,
        r <= UNIT,
{
    proof {
        assert(n * (UNIT + 1) == n * UNIT + n) by (nonlinear_arith);
        lemma_multiply_divide_lt((sum + n / 2) as int, n as int, UNIT + 1);
    }
    ((sum + n / 2) / n) as u32
}

impl LinearColor {
    /// The channel-wise mean of a non-empty list of colours, rounded to nearest.
    pub fn mean(samples: &Vec<LinearColor>) -> (r: LinearColor)
        requires
            0 < samples@.len() <= u32::MAX,
        ensures
            r.red() == channel_mean(samples@, 0),
            r.green() == channel_mean(samples@, 1),
            r.blue() == channel_mean(samples@, 2),
    {
        let n = samples.len();
        let mut red: u64 = 0;
        let mut green: u64 = 0;
        let mut blue: u64 = 0;
        let mut i: usize = 0;
        while i < n
            invariant
                n == samples@.len() <= u32::MAX,
                i <= n,
                red == channel_sum(samples@.take(i as int), 0),
                green == channel_sum(samples@.take(i as int), 1),
                blue == channel_sum(samples@.take(i as int), 2),
                red <= i * UNIT,
                green <= i * UNIT,
                blue <= i * UNIT,
            decreases n - i,
        {
            let c = &samples[i];
            proof {
                assert(samples@.take(i + 1).drop_last() =~= samples@.take(i as int));
            }
            red = red + c.red() as u64;
            green = green + c.green() as u64;
            blue = blue + c.blue() as u64;
            i = i + 1;
        }
        proof {
            assert(samples@.take(n as int) =~= samples@);
        }
        LinearColor {
            red: mean_of_sum(red, n as u64),
            green: mean_of_sum(green, n as u64),
            blue: mean_of_sum(blue, n as u64),
        }
    }
}

} // verus!
