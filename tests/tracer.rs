use std::cell::Cell;

use ray_tracing::color::{LinearColor, UNIT};
use ray_tracing::ppm::encode_ppm;
use ray_tracing::utils::finish_image;
use ray_tracing::tracer::{
    get_multi_sampled_pixel_color, ray_color, render, sky_color, Bounce, ConfigError, ImageConfig,
};

fn config(width: u32, height: u32, samples_per_pixel: u32, ray_bounce_limit: u32) -> ImageConfig {
    ImageConfig { width, height, samples_per_pixel, ray_bounce_limit }
}

fn rgb(c: &LinearColor) -> (u32, u32, u32) {
    (c.red(), c.green(), c.blue())
}

#[test]
fn config_accepts_matching_aspect_ratio() {
    assert_eq!(config(1200, 800, 10, 50).check(3, 2), Ok(()));
    assert_eq!(config(20, 10, 4, 5).check(2, 1), Ok(()));
}

#[test]
fn config_errors() {
    assert_eq!(config(0, 800, 10, 50).check(3, 2), Err(ConfigError::ZeroWidth));
    assert_eq!(config(1200, 0, 10, 50).check(3, 2), Err(ConfigError::ZeroHeight));
    assert_eq!(config(1200, 800, 0, 50).check(3, 2), Err(ConfigError::ZeroSamples));
    assert_eq!(config(1200, 800, 10, 0).check(3, 2), Err(ConfigError::ZeroBounceLimit));
    assert_eq!(config(1200, 800, 10, 50).check(16, 9), Err(ConfigError::AspectMismatch));
    assert_eq!(config(1200, 800, 10, 50).check(0, 2), Err(ConfigError::AspectMismatch));
    assert_eq!(config(1200, 800, 10, 50).check(3, 0), Err(ConfigError::AspectMismatch));
}

#[test]
fn config_error_order() {
    assert_eq!(config(0, 0, 0, 0).check(0, 0), Err(ConfigError::ZeroWidth));
    assert_eq!(config(1, 0, 0, 0).check(0, 0), Err(ConfigError::ZeroHeight));
    assert_eq!(config(1, 1, 0, 0).check(0, 0), Err(ConfigError::ZeroSamples));
    assert_eq!(config(1, 1, 1, 0).check(0, 0), Err(ConfigError::ZeroBounceLimit));
}

#[test]
fn sky_gradient_ends() {
    assert_eq!(rgb(&sky_color(0)), (UNIT, UNIT, UNIT));
    assert_eq!(rgb(&sky_color(UNIT)), (500_000, 700_000, UNIT));
    assert_eq!(rgb(&sky_color(500_000)), (750_000, 850_000, UNIT));
    assert_eq!(rgb(&sky_color(u32::MAX)), (500_000, 700_000, UNIT));
}

#[test]
fn escaped_ray_sees_the_sky() {
    let step = |_ray: u32| Bounce::Escaped(UNIT);
    assert_eq!(rgb(&ray_color(0, &step, 5)), (500_000, 700_000, UNIT));
}

#[test]
fn absorbed_ray_is_black() {
    let step = |_ray: u32| Bounce::<u32>::Absorbed;
    assert_eq!(rgb(&ray_color(0, &step, 5)), (0, 0, 0));
}

#[test]
fn exhausted_budget_is_black_without_a_step() {
    let calls = Cell::new(0u32);
    let step = |_ray: u32| {
        calls.set(calls.get() + 1);
        Bounce::<u32>::Escaped(0)
    };
    assert_eq!(rgb(&ray_color(0, &step, 0)), (0, 0, 0));
    assert_eq!(calls.get(), 0);
}

#[test]
fn scattered_light_is_tinted_by_each_bounce() {
    // ray 0 scatters into ray 1, which scatters into ray 2, which escapes to white
    let step = |ray: u32| {
        if ray < 2 {
            Bounce::Scattered(LinearColor::new(500_000, 500_000, 250_000), ray + 1)
        } else {
            Bounce::Escaped(0)
        }
    };
    assert_eq!(rgb(&ray_color(0, &step, 5)), (250_000, 250_000, 62_500));
    // with two bounces the path is cut off before the escape
    assert_eq!(rgb(&ray_color(0, &step, 2)), (0, 0, 0));
    // with three it just reaches the sky
    assert_eq!(rgb(&ray_color(0, &step, 3)), (250_000, 250_000, 62_500));
}

#[test]
fn recursion_stops_at_the_bounce_limit() {
    let calls = Cell::new(0u32);
    let step = |ray: u64| {
        calls.set(calls.get() + 1);
        Bounce::Scattered(LinearColor::white(), ray + 1)
    };
    assert_eq!(rgb(&ray_color(0, &step, 7)), (0, 0, 0));
    assert_eq!(calls.get(), 7);
}

#[test]
fn pixel_is_rounded_mean_of_samples() {
    let toggle = Cell::new(false);
    let sample = |_row: u32, _col: u32, _k: u32| {
        toggle.set(!toggle.get());
        if toggle.get() {
            LinearColor::white()
        } else {
            LinearColor::black()
        }
    };
    // (UNIT + 0 + 1) / 2
    let c = get_multi_sampled_pixel_color(&sample, 3, 4, 2);
    assert_eq!(rgb(&c), (500_000, 500_000, 500_000));
    // white, black, white: (2 * UNIT + 1) / 3
    let c3 = get_multi_sampled_pixel_color(&sample, 3, 4, 3);
    assert_eq!(rgb(&c3), (666_667, 666_667, 666_667));
}

#[test]
fn render_orders_scanlines_top_first() {
    let sample = |row: u32, col: u32, _k: u32| LinearColor::new(row * 100_000, col * 100_000, UNIT);
    let pixels = render(&config(3, 2, 2, 5), 3, 2, &sample).unwrap();
    assert_eq!(pixels.len(), 2);
    let top: Vec<_> = pixels[0].iter().map(rgb).collect();
    let bottom: Vec<_> = pixels[1].iter().map(rgb).collect();
    assert_eq!(top, vec![(100_000, 0, UNIT), (100_000, 100_000, UNIT), (100_000, 200_000, UNIT)]);
    assert_eq!(bottom, vec![(0, 0, UNIT), (0, 100_000, UNIT), (0, 200_000, UNIT)]);
}

#[test]
fn render_draws_each_sample() {
    let calls = Cell::new(0u32);
    let sample = |_row: u32, _col: u32, _k: u32| {
        calls.set(calls.get() + 1);
        LinearColor::black()
    };
    let pixels = render(&config(4, 3, 5, 1), 4, 3, &sample).unwrap();
    assert_eq!(calls.get(), 4 * 3 * 5);
    assert_eq!(pixels.len(), 3);
    assert!(pixels.iter().all(|row| row.len() == 4));
}

#[test]
fn render_rejects_invalid_configuration_before_sampling() {
    let calls = Cell::new(0u32);
    let sample = |_row: u32, _col: u32, _k: u32| {
        calls.set(calls.get() + 1);
        LinearColor::white()
    };
    assert_eq!(render(&config(20, 10, 4, 0), 2, 1, &sample).err(), Some(ConfigError::ZeroBounceLimit));
    assert_eq!(render(&config(0, 10, 4, 5), 2, 1, &sample).err(), Some(ConfigError::ZeroWidth));
    assert_eq!(render(&config(20, 0, 4, 5), 2, 1, &sample).err(), Some(ConfigError::ZeroHeight));
    assert_eq!(render(&config(20, 10, 0, 5), 2, 1, &sample).err(), Some(ConfigError::ZeroSamples));
    assert_eq!(render(&config(20, 10, 4, 5), 3, 2, &sample).err(), Some(ConfigError::AspectMismatch));
    assert_eq!(calls.get(), 0);
}

// A small generator standing in for the random source.
fn next(state: &Cell<u64>) -> u32 {
    let s = state.get().wrapping_mul(6364136223846793005).wrapping_add(1442695040888963407);
    state.set(s);
    ((s >> 33) % (UNIT as u64 + 1)) as u32
}

// Each sample draws from a generator seeded with the fixed seed, the pixel and
// the sample index.
fn seeded_image(seed: u64) -> Vec<u8> {
    let cfg = config(20, 10, 4, 5);
    let sample = |row: u32, col: u32, k: u32| {
        let state = Cell::new(seed ^ ((row as u64) << 40) ^ ((col as u64) << 20) ^ k as u64);
        let step = |ray: u32| {
            let r = next(&state);
            if ray == 0 && r < 800_000 {
                Bounce::Scattered(LinearColor::new(500_000, 500_000, 500_000), ray + 1)
            } else if r < 100_000 {
                Bounce::Absorbed
            } else {
                Bounce::Escaped(r)
            }
        };
        ray_color(0, &step, cfg.ray_bounce_limit)
    };
    let linear = render(&cfg, 2, 1, &sample).unwrap();
    encode_ppm(&cfg, &finish_image(&linear))
}

#[test]
fn fixed_seed_gives_identical_images() {
    let first = seeded_image(0);
    let second = seeded_image(0);
    assert_eq!(first, second);
    let text = String::from_utf8(first).unwrap();
    assert!(text.starts_with("P3\n20 10\n255\n"));
    assert_eq!(text.lines().count(), 3 + 20 * 10);
    assert_ne!(seeded_image(0), seeded_image(1 << 60));
}
