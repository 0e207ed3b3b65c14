//! Image configuration, path resolution and the render loop.
//!
//! Scene geometry and random sampling are supplied by the caller as closures:
//! `step` tells what becomes of one ray, `sample` traces one jittered camera ray
//! through a pixel. This module decides everything else: the bounce budget, the
//! sky, absorption, tinting, averaging and the order of the pixels.
use crate::color::{channel_mean, mix, saturate, tint, Color, LinearColor, UNIT};
use vstd::prelude::*;

verus! {

/// The colour of each pixel in a scanline, left to right.
pub type Scanline = Vec<Color>;

/// The scanlines of an image, top to bottom.
pub type ImagePixels = Vec<Scanline>;

/// The scanlines of a rendered image in linear colour, top to bottom, each left
/// to right.
pub type LinearPixels = Vec<Vec<LinearColor>>;

/// Configuration of the rendered image.
pub struct ImageConfig {
    pub width: u32,
    pub height: u32,
    pub samples_per_pixel: u32,
    pub ray_bounce_limit: u32,
}

/// Why an image configuration cannot be rendered.
#[derive(Clone, Copy, Debug, PartialEq, Eq, Structural)]
pub enum ConfigError {
    ZeroWidth,
    ZeroHeight,
    ZeroSamples,
    ZeroBounceLimit,
    /// `width / height` differs from the camera's aspect ratio.
    AspectMismatch,
}

impl ImageConfig {
    /// The first configuration error, in the order width, height, samples, bounce
    /// limit, aspect ratio; the aspect ratio is `aspect_width : aspect_height`.
    pub open spec fn spec_check(&self, aspect_width: u32, aspect_height: u32) -> Result<
        (),
        ConfigError,
    > {
        if self.width == 0 {
            Err(ConfigError::ZeroWidth)
        } else if self.height == 0 {
            Err(ConfigError::ZeroHeight)
        } else if self.samples_per_pixel == 0 {
            Err(ConfigError::ZeroSamples)
        } else if self.ray_bounce_limit == 0 {
            Err(ConfigError::ZeroBounceLimit)
        } else if aspect_width == 0 || aspect_height == 0 || self.width * aspect_height
            != self.height * aspect_width {
            Err(ConfigError::AspectMismatch)
        } else {
            Ok(())
        }
    }

    /// Check the configuration against the camera's aspect ratio
    /// `aspect_width : aspect_height` before rendering.
    pub fn check(&self, aspect_width: u32, aspect_height: u32) -> (r: Result<(), ConfigError>)
        ensures
            r == self.spec_check(aspect_width, aspect_height),
    {
        if self.width == 0 {
            return Err(ConfigError::ZeroWidth);
        }
        if self.height == 0 {
            return Err(ConfigError::ZeroHeight);
        }
        if self.samples_per_pixel == 0 {
            return Err(ConfigError::ZeroSamples);
        }
        if self.ray_bounce_limit == 0 {
            return Err(ConfigError::ZeroBounceLimit);
        }
        if aspect_width == 0 || aspect_height == 0 {
            return Err(ConfigError::AspectMismatch);
        }
        proof {
            lemma_u32_product_fits(self.width, aspect_height);
            lemma_u32_product_fits(self.height, aspect_width);
        }
        if self.width as u64 * aspect_height as u64 != self.height as u64 * aspect_width as u64 {
            Err(ConfigError::AspectMismatch)
        } else {
            Ok(())
        }
    }
}

proof fn lemma_u32_product_fits(a: u32, b: u32)
    ensures
        a * b <= u64::MAX,
{
    assert(a * b <= u32::MAX * u32::MAX) by (nonlinear_arith)
        requires
            a <= u32::MAX,
            b <= u32::MAX,
    ;
}

/// What becomes of a ray at one step of its path through the scene.
pub enum Bounce<R> {
    /// The ray hit nothing. The value places its direction on the sky gradient:
    /// `0` looks straight down, `UNIT` straight up.
    Escaped(u32),
    /// The ray hit a surface that absorbed it.
    Absorbed,
    /// The ray hit a surface that scattered it into a new ray; light that comes
    /// back along the new ray is tinted by the attenuation.
    Scattered(LinearColor, R),
}

/// The sky-blue end of the background gradient: `(0.5, 0.7, 1.0)`.
pub const SKY_RED: u32 = 500000;
pub const SKY_GREEN: u32 = 700000;
pub const SKY_BLUE: u32 = 1000000;

/// Channel `k` of the sky-blue end of the gradient.
pub open spec fn sky_channel(k: int) -> u32 {
    if k == 0 {
        SKY_RED
    } else if k == 1 {
        SKY_GREEN
    } else {
        SKY_BLUE
    }
}

/// `events` is a path that `ray` can take with `bounces` steps left: what `step`
/// made of the ray, then of each ray scattered in turn, until one escapes, is
/// absorbed, or no step is left.
pub open spec fn is_path<R, F: Fn(R) -> Bounce<R>>(
    step: F,
    ray: R,
    bounces: nat,
    events: Seq<Bounce<R>>,
) -> bool
    decreases bounces,
{
    if bounces == 0 {
        events.len() == 0
    } else {
        &&& events.len() > 0
        &&& step.ensures((ray,), events[0])
        &&& match events[0] {
            Bounce::Scattered(_, next) => is_path(
                step,
                next,
                (bounces - 1) as nat,
                events.drop_first(),
            ),
            _ => events.len() == 1,
        }
    }
}

/// Channel `k` of the light brought back along a path: black when the path ends
/// with no step left or in absorption, the sky gradient when it escapes, tinted
/// by the attenuation of each scatter on the way back.
pub open spec fn path_light<R>(events: Seq<Bounce<R>>, k: int) -> int
    decreases events.len(),
{
    if events.len() == 0 {
        0
    } else {
        match events[0] {
            Bounce::Escaped(t) => mix(UNIT, sky_channel(k), saturate(t)),
            Bounce::Absorbed => 0,
            Bounce::Scattered(attenuation, _) => tint(
                path_light(events.drop_first(), k) as u32,
                attenuation.channel(k),
            ),
        }
    }
}

/// `c` is the light brought back along `events`.
pub open spec fn brings_back<R>(events: Seq<Bounce<R>>, c: LinearColor) -> bool {
    &&& c.red() == path_light(events, 0)
    &&& c.green() == path_light(events, 1)
    &&& c.blue() == path_light(events, 2)
}

/// A path never takes more steps than the bounces it was given: each step of a
/// path consumes one bounce, and a path with none left is empty.
pub proof fn lemma_path_within_budget<R, F: Fn(R) -> Bounce<R>>(
    step: F,
    ray: R,
    bounces: nat,
    events: Seq<Bounce<R>>,
)
    requires
        is_path(step, ray, bounces, events),
    ensures
        events.len() <= bounces,
        bounces == 0 ==> events.len() == 0,
    decreases bounces,
{
    if bounces > 0 {
        if let Bounce::Scattered(_, next) = events[0] {
            lemma_path_within_budget(step, next, (bounces - 1) as nat, events.drop_first());
        }
    }
}

/// The background seen by a ray that escapes at gradient position `t`: white at
/// `t = 0`, sky blue at `t = UNIT`.
pub fn sky_color(t: u32) -> (c: LinearColor)
    ensures
        c.red() == mix(UNIT, SKY_RED, saturate(t)),
        c.green() == mix(UNIT, SKY_GREEN, saturate(t)),
        c.blue() == mix(UNIT, SKY_BLUE, saturate(t)),
{
    let white = LinearColor::white();
    let sky = LinearColor::new(SKY_RED, SKY_GREEN, SKY_BLUE);
    LinearColor::lerp(&white, &sky, t)
}

/// The light that `ray` brings back with `bounces_remaining` steps left. With no
/// step left the ray brings back black; otherwise `step` tells what becomes of it,
/// and a scattered ray recurses with one step fewer.
pub fn ray_color<R, F: Fn(R) -> Bounce<R>>(ray: R, step: &F, bounces_remaining: u32) -> (c:
    LinearColor)
    requires
        forall|r: R| step.requires((r,)),
    ensures
        exists|events: Seq<Bounce<R>>|
            #[trigger] is_path(*step, ray, bounces_remaining as nat, events) && brings_back(
                events,
                c,
            ),
    decreases bounces_remaining,
{
    if bounces_remaining == 0 {
        let c = LinearColor::black();
        assert(is_path(*step, ray, 0, Seq::empty()));
        return c;
    }
    let b = step(ray);
    let ghost first = b;
    match b {
        Bounce::Escaped(t) => {
            let c = sky_color(t);
            assert(is_path(*step, ray, bounces_remaining as nat, seq![first]));
            assert(brings_back(seq![first], c));
            c
        },
        Bounce::Absorbed => {
            let c = LinearColor::black();
            assert(is_path(*step, ray, bounces_remaining as nat, seq![first]));
            assert(brings_back(seq![first], c));
            c
        },
        Bounce::Scattered(attenuation, next) => {
            let ghost next_ray = next;
            let light = ray_color(next, step, bounces_remaining - 1);
            let c = light.attenuate(&attenuation);
            proof {
                let rest = choose|e: Seq<Bounce<R>>|
                    #[trigger] is_path(*step, next_ray, (bounces_remaining - 1) as nat, e)
                        && brings_back(e, light);
                let events = seq![first] + rest;
                assert(events[0] == first);
                assert(events.drop_first() =~= rest);
                assert(is_path(*step, ray, bounces_remaining as nat, events));
                assert(brings_back(events, c));
            }
            c
        },
    }
}


/// Each colour `s[k]` is one that `sample` can give as sample `k` of the pixel at
/// `row`, `col`.
pub open spec fn drawn_for<F: Fn(u32, u32, u32) -> LinearColor>(
    sample: F,
    row: u32,
    col: u32,
    s: Seq<LinearColor>,
) -> bool {
    forall|k: int| 0 <= k < s.len() ==> #[trigger] sample.ensures((row, col, k as u32), s[k])
}

/// `c` is the mean of the non-empty `s`, rounded to nearest.
pub open spec fn is_mean(s: Seq<LinearColor>, c: LinearColor) -> bool {
    &&& c.red() == channel_mean(s, 0)
    &&& c.green() == channel_mean(s, 1)
    &&& c.blue() == channel_mean(s, 2)
}

/// `c` is a colour that the pixel at `row`, `col` can get from `n` samples.
pub open spec fn pixel_from<F: Fn(u32, u32, u32) -> LinearColor>(
    sample: F,
    row: u32,
    col: u32,
    n: nat,
    c: LinearColor,
) -> bool {
    exists|s: Seq<LinearColor>| #[trigger] drawn_for(sample, row, col, s) && s.len() == n && is_mean(s, c)
}

/// `image` is an image that `render` can give for `config`: `config.height`
/// scanlines, top first, of `config.width` pixels, left to right, each drawn by
/// `sample` for its row (counted from the bottom) and column.
pub open spec fn is_rendering<F: Fn(u32, u32, u32) -> LinearColor>(
    config: ImageConfig,
    sample: F,
    image: Seq<Vec<LinearColor>>,
) -> bool {
    &&& image.len() == config.height
    &&& forall|i: int| 0 <= i < config.height ==> #[trigger] image[i]@.len() == config.width
    &&& forall|i: int, j: int|
        0 <= i < config.height && 0 <= j < config.width ==> pixel_from(
            sample,
            (config.height - 1 - i) as u32,
            j as u32,
            config.samples_per_pixel as nat,
            #[trigger] image[i]@[j],
        )
}

/// The colour of the pixel at `row` (counted from the bottom), `col` (counted
/// from the left): the mean of `samples_per_pixel` samples, rounded to nearest.
pub fn get_multi_sampled_pixel_color<F: Fn(u32, u32, u32) -> LinearColor>(
    sample: &F,
    row: u32,
    col: u32,
    samples_per_pixel: u32,
) -> (c: LinearColor)
    requires
        samples_per_pixel > 0,
        forall|r: u32, c: u32, k: u32| sample.requires((r, c, k)),
    ensures
        pixel_from(*sample, row, col, samples_per_pixel as nat, c),
{
    let mut drawn: Vec<LinearColor> = Vec::new();
    let mut k: u32 = 0;
    while k < samples_per_pixel
        invariant
            forall|r: u32, c: u32, q: u32| sample.requires((r, c, q)),
            k <= samples_per_pixel,
            drawn@.len() == k,
            drawn_for(*sample, row, col, drawn@),
        decreases samples_per_pixel - k,
    {
        let s = sample(row, col, k);
        drawn.push(s);
        k = k + 1;
    }
    let c = LinearColor::mean(&drawn);
    assert(is_mean(drawn@, c));
    c
}

/// Render an image in linear colour, after checking `config` against the camera's
/// aspect ratio `aspect_width : aspect_height`; a configuration error is returned
/// before any sample is drawn. `sample(row, col, k)` traces sample `k` of the
/// pixel at `row` (counted from the bottom) and `col` (counted from the left): one
/// jittered camera ray through it. Scanlines come top first, pixels left to right; each pixel is the
/// mean of `samples_per_pixel` samples.
pub fn render<F: Fn(u32, u32, u32) -> LinearColor>(
    config: &ImageConfig,
    aspect_width: u32,
    aspect_height: u32,
    sample: &F,
) -> (r: Result<LinearPixels, ConfigError>)
    requires
        forall|row: u32, col: u32, k: u32| sample.requires((row, col, k)),
    ensures
        r is Ok <==> config.spec_check(aspect_width, aspect_height) is Ok,
        r is Err ==> config.spec_check(aspect_width, aspect_height) == Err::<(), ConfigError>(
            r->Err_0,
        ),
        r is Ok ==> is_rendering(*config, *sample, r->Ok_0@),
{
    match config.check(aspect_width, aspect_height) {
        Err(e) => {
            return Err(e);
        },
        Ok(()) => {},
    }
    let mut pixels: LinearPixels = Vec::new();
    let mut i: u32 = 0;
    while i < config.height
        invariant
            forall|r: u32, c: u32, k: u32| sample.requires((r, c, k)),
            config.samples_per_pixel > 0,
            i <= config.height,
            pixels@.len() == i,
            forall|l: int| 0 <= l < i ==> #[trigger] pixels@[l]@.len() == config.width,
            forall|l: int, j: int|
                0 <= l < i && 0 <= j < config.width ==> pixel_from(
                    *sample,
                    (config.height - 1 - l) as u32,
                    j as u32,
                    config.samples_per_pixel as nat,
                    #[trigger] pixels@[l]@[j],
                ),
        decreases config.height - i,
    {
        let row = config.height - 1 - i;
        let mut scanline: Vec<LinearColor> = Vec::new();
        let mut col: u32 = 0;
        while col < config.width
            invariant
                forall|r: u32, c: u32, k: u32| sample.requires((r, c, k)),
                config.samples_per_pixel > 0,
                col <= config.width,
                scanline@.len() == col,
                forall|j: int|
                    0 <= j < col ==> pixel_from(
                        *sample,
                        row,
                        j as u32,
                        config.samples_per_pixel as nat,
                        #[trigger] scanline@[j],
                    ),
            decreases config.width - col,
        {
            let c = get_multi_sampled_pixel_color(sample, row, col, config.samples_per_pixel);
            scanline.push(c);
            col = col + 1;
        }
        pixels.push(scanline);
        i = i + 1;
    }
    Ok(pixels)
}

/// `sample` gives one colour for each sample of each pixel: its result depends on
/// the row, column and sample index alone, as when its random source is seeded
/// from them and a fixed seed.
pub open spec fn is_deterministic<F: Fn(u32, u32, u32) -> LinearColor>(sample: F) -> bool {
    forall|row: u32, col: u32, k: u32, a: LinearColor, b: LinearColor|
        #[trigger] sample.ensures((row, col, k), a) && #[trigger] sample.ensures((row, col, k), b)
            ==> a == b
}

/// Rendering is deterministic: for a sampler whose result depends on the pixel and
/// sample index alone, two renderings of the same configuration are the same image.
pub proof fn lemma_render_deterministic<F: Fn(u32, u32, u32) -> LinearColor>(
    config: ImageConfig,
    sample: F,
    first: Seq<Vec<LinearColor>>,
    second: Seq<Vec<LinearColor>>,
)
    requires
        is_deterministic(sample),
        is_rendering(config, sample, first),
        is_rendering(config, sample, second),
    ensures
        first.len() == second.len(),
        forall|i: int| 0 <= i < first.len() ==> #[trigger] first[i]@ == second[i]@,
{
    assert forall|i: int| 0 <= i < first.len() implies #[trigger] first[i]@ == second[i]@ by {
        assert forall|j: int| 0 <= j < first[i]@.len() implies first[i]@[j] == second[i]@[j] by {
            let row = (config.height - 1 - i) as u32;
            let n = config.samples_per_pixel as nat;
            assert(pixel_from(sample, row, j as u32, n, first[i]@[j]));
            assert(pixel_from(sample, row, j as u32, n, second[i]@[j]));
            let s = choose|s: Seq<LinearColor>|
                #[trigger] drawn_for(sample, row, j as u32, s) && s.len() == n && is_mean(
                    s,
                    first[i]@[j],
                );
            let t = choose|t: Seq<LinearColor>|
                #[trigger] drawn_for(sample, row, j as u32, t) && t.len() == n && is_mean(
                    t,
                    second[i]@[j],
                );
            assert forall|k: int| 0 <= k < n implies s[k] == t[k] by {
                assert(sample.ensures((row, j as u32, k as u32), s[k]));
                assert(sample.ensures((row, j as u32, k as u32), t[k]));
            }
            assert(s =~= t);
            LinearColor::lemma_same_channels(first[i]@[j], second[i]@[j]);
        }
        assert(first[i]@ =~= second[i]@);
    }
}

} // verus!
