use ray_tracing::color::{Color, LinearColor, UNIT};
use ray_tracing::utils::{
    correct_gamma, finish_image, gamma_channel, gamma_correct_color, gamma_correct_linear,
    gamma_linear_channel,
};

#[test]
fn gamma_of_known_channels() {
    assert_eq!(gamma_channel(0), 0);
    assert_eq!(gamma_channel(1), 15);
    assert_eq!(gamma_channel(64), 127);
    assert_eq!(gamma_channel(128), 180);
    assert_eq!(gamma_channel(255), 255);
}

#[test]
fn gamma_matches_square_root_of_normalised_channel() {
    for c in 0..=255u8 {
        let expected = ((c as f64 / 255.0).sqrt() * 255.0 + 1e-9).floor() as u8;
        assert_eq!(gamma_channel(c), expected, "channel {}", c);
    }
}

#[test]
fn gamma_is_monotonic() {
    for c in 0..255u8 {
        assert!(gamma_channel(c) <= gamma_channel(c + 1));
    }
}

#[test]
fn gamma_then_square_gives_channel_back() {
    for c in 0..=255u8 {
        let g = gamma_channel(c) as u32;
        let back = g * g / 255;
        assert!(back <= c as u32 && c as u32 <= back + 2, "channel {}", c);
    }
}

#[test]
fn gamma_on_a_colour() {
    let c = gamma_correct_color(Color::from((64, 255, 1)));
    assert_eq!(c, Color::from((127, 255, 15)));
}

#[test]
fn correct_gamma_on_every_pixel() {
    let mut pixels = vec![
        vec![Color::from((0, 64, 128)), Color::from((255, 1, 0))],
        vec![Color::from((64, 64, 64))],
        vec![],
    ];
    correct_gamma(&mut pixels);
    assert_eq!(
        pixels,
        vec![
            vec![Color::from((0, 127, 180)), Color::from((255, 15, 0))],
            vec![Color::from((127, 127, 127))],
            vec![],
        ]
    );
}

#[test]
fn linear_gamma_of_known_channels() {
    assert_eq!(gamma_linear_channel(0), 0);
    assert_eq!(gamma_linear_channel(UNIT), UNIT);
    assert_eq!(gamma_linear_channel(250_000), 500_000);
    assert_eq!(gamma_linear_channel(10_000), 100_000);
    // sqrt(0.5) = 0.70710678...
    assert_eq!(gamma_linear_channel(500_000), 707_106);
    assert_eq!(gamma_linear_channel(1), 1_000);
}

#[test]
fn linear_gamma_is_monotonic_and_inverts_by_squaring() {
    let mut previous = 0;
    for c in (0..=UNIT).step_by(997) {
        let g = gamma_linear_channel(c);
        assert!(previous <= g);
        previous = g;
        let back = (g as u64 * g as u64 / UNIT as u64) as u32;
        assert!(back <= c && c <= back + 2, "channel {}", c);
    }
}

#[test]
fn gamma_on_a_linear_colour() {
    let c = gamma_correct_linear(&LinearColor::new(250_000, UNIT, 0));
    assert_eq!((c.red(), c.green(), c.blue()), (500_000, UNIT, 0));
}

#[test]
fn finish_image_corrects_then_converts_once() {
    let image = vec![
        vec![LinearColor::new(250_000, UNIT, 0), LinearColor::new(10_000, 500_000, 1)],
        vec![],
    ];
    let pixels = finish_image(&image);
    // 0.5 -> 127 (127.5); 0.1 -> 25 (25.5); 0.707106 -> 180 (180.31); 0.001 -> 0 (0.255)
    assert_eq!(
        pixels,
        vec![vec![Color::from((127, 255, 0)), Color::from((25, 180, 0))], vec![]]
    );
}
