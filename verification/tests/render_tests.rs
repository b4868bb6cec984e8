use color_theme::{format_rgb, Pixel};

#[test]
fn formats_three_digit_channels() {
    assert_eq!(format_rgb(Pixel::new(255, 0, 0)), "rgb(255, 0, 0)");
}

#[test]
fn formats_mixed_width_channels() {
    assert_eq!(format_rgb(Pixel::new(0, 10, 200)), "rgb(0, 10, 200)");
}

#[test]
fn formats_two_digit_and_boundary_values() {
    assert_eq!(format_rgb(Pixel::new(7, 99, 100)), "rgb(7, 99, 100)");
}
