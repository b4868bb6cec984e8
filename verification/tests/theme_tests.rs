use color_theme::{calculate_saturation, change_brightness, get_theme_colour, Pixel};

fn px(r: u8, g: u8, b: u8) -> Pixel {
    Pixel::new(r, g, b)
}

#[test]
fn saturation_exact_values() {
    assert_eq!(calculate_saturation(px(255, 0, 0)), 255);
    assert_eq!(calculate_saturation(px(10, 10, 10)), 0);
    assert_eq!(calculate_saturation(px(0, 0, 0)), 0);
    // 255 * (100 - 50) / 100, truncated.
    assert_eq!(calculate_saturation(px(100, 50, 100)), 127);
}

#[test]
fn most_saturated_entry_wins() {
    let palette = vec![px(255, 0, 0), px(10, 10, 10)];
    assert_eq!(get_theme_colour(&palette, None), Some(px(255, 0, 0)));
}

#[test]
fn saturation_tie_goes_to_first_occurrence() {
    let palette = vec![px(0, 200, 0), px(200, 0, 0)];
    assert_eq!(get_theme_colour(&palette, None), Some(px(0, 200, 0)));
}

#[test]
fn empty_palette_has_no_theme() {
    let palette: Vec<Pixel> = Vec::new();
    assert_eq!(get_theme_colour(&palette, None), None);
    assert_eq!(get_theme_colour(&palette, Some(200)), None);
}

#[test]
fn theme_is_at_least_as_saturated_as_every_entry() {
    let palette = vec![
        px(12, 240, 100),
        px(200, 200, 200),
        px(0, 0, 1),
        px(9, 90, 200),
        px(255, 254, 253),
    ];
    let theme = get_theme_colour(&palette, None).unwrap();
    for p in &palette {
        assert!(calculate_saturation(theme) >= calculate_saturation(*p));
    }
}

#[test]
fn rescale_doubles_channels() {
    assert_eq!(change_brightness(px(100, 0, 0), 200), px(200, 0, 0));
}

#[test]
fn rescale_makes_peak_channel_the_target() {
    // 30*200/90 = 66, 60*200/90 = 133, 90*200/90 = 200, truncated.
    let rescaled = change_brightness(px(30, 60, 90), 200);
    assert_eq!(rescaled, px(66, 133, 200));
    assert_eq!(rescaled.r.max(rescaled.g).max(rescaled.b), 200);
}

#[test]
fn rescale_can_darken() {
    assert_eq!(change_brightness(px(200, 100, 0), 100), px(100, 50, 0));
}

#[test]
fn rescale_of_pure_black_is_identity() {
    assert_eq!(change_brightness(px(0, 0, 0), 200), px(0, 0, 0));
    let palette = vec![px(0, 0, 0)];
    assert_eq!(get_theme_colour(&palette, Some(200)), Some(px(0, 0, 0)));
}

#[test]
fn brightness_target_applied_to_chosen_entry() {
    let palette = vec![px(100, 0, 0), px(50, 50, 50)];
    assert_eq!(get_theme_colour(&palette, Some(200)), Some(px(200, 0, 0)));
}
