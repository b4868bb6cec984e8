use color_theme::{average_pixels, median_cut_palette, PaletteError, Pixel};

fn px(r: u8, g: u8, b: u8) -> Pixel {
    Pixel::new(r, g, b)
}

#[test]
fn four_distinct_colors_each_fill_their_own_bucket() {
    let mut pixels = vec![px(255, 0, 0), px(0, 255, 0), px(0, 0, 255), px(255, 255, 255)];
    let palette = median_cut_palette(&mut pixels, 4).unwrap();
    assert_eq!(
        palette,
        vec![px(0, 0, 255), px(0, 255, 0), px(255, 0, 0), px(255, 255, 255)]
    );
}

#[test]
fn count_zero_is_rejected() {
    let mut pixels = vec![px(1, 2, 3)];
    assert_eq!(
        median_cut_palette(&mut pixels, 0),
        Err(PaletteError::InvalidPaletteSize)
    );
}

#[test]
fn empty_buffer_is_rejected() {
    let mut pixels: Vec<Pixel> = Vec::new();
    assert_eq!(
        median_cut_palette(&mut pixels, 1),
        Err(PaletteError::EmptyInput)
    );
}

#[test]
fn count_beyond_population_is_rejected() {
    let mut pixels = vec![px(1, 2, 3)];
    assert_eq!(
        median_cut_palette(&mut pixels, 2),
        Err(PaletteError::InvalidPaletteSize)
    );
}

#[test]
fn population_must_fill_the_rounded_bucket_count() {
    // Five colors round up to eight final buckets; six pixels cannot fill
    // them even though the population exceeds the requested count.
    let mut pixels = vec![
        px(1, 0, 0),
        px(2, 0, 0),
        px(3, 0, 0),
        px(4, 0, 0),
        px(5, 0, 0),
        px(6, 0, 0),
    ];
    assert_eq!(
        median_cut_palette(&mut pixels, 5),
        Err(PaletteError::InvalidPaletteSize)
    );
}

#[test]
fn returns_exactly_the_requested_count() {
    let mut pixels = vec![
        px(0, 0, 0),
        px(30, 0, 0),
        px(60, 0, 0),
        px(90, 0, 0),
        px(120, 0, 0),
        px(150, 0, 0),
        px(180, 0, 0),
        px(210, 0, 0),
    ];
    let palette = median_cut_palette(&mut pixels, 3).unwrap();
    assert_eq!(palette.len(), 3);
}

#[test]
fn single_bucket_average_truncates() {
    let mut pixels = vec![px(0, 0, 0), px(255, 255, 255)];
    let palette = median_cut_palette(&mut pixels, 1).unwrap();
    assert_eq!(palette, vec![px(127, 127, 127)]);
}

#[test]
fn trailing_pixels_are_dropped() {
    let mut pixels = vec![px(10, 5, 5), px(40, 5, 5), px(30, 5, 5), px(20, 5, 5), px(25, 5, 5)];
    let palette = median_cut_palette(&mut pixels, 2).unwrap();
    assert_eq!(palette, vec![px(15, 5, 5), px(27, 5, 5)]);
}

#[test]
fn palette_entry_stays_within_bucket_bounds() {
    let mut pixels = vec![px(10, 20, 30), px(20, 40, 60)];
    let palette = median_cut_palette(&mut pixels, 1).unwrap();
    assert_eq!(palette, vec![px(15, 30, 45)]);
    let entry = palette[0];
    assert!(10 <= entry.r && entry.r <= 20);
    assert!(20 <= entry.g && entry.g <= 40);
    assert!(30 <= entry.b && entry.b <= 60);
}

#[test]
fn rerun_on_original_buffer_gives_same_palette() {
    let original = vec![
        px(200, 10, 10),
        px(10, 200, 10),
        px(10, 10, 200),
        px(200, 200, 10),
        px(10, 200, 200),
        px(200, 10, 200),
        px(5, 5, 5),
        px(250, 250, 250),
        px(100, 100, 100),
    ];
    let mut first_run = original.clone();
    let first = median_cut_palette(&mut first_run, 4).unwrap();
    // The first run reordered its buffer; a fresh copy of the original
    // must still map to the same palette.
    assert_ne!(first_run, original);
    let mut second_run = original.clone();
    let second = median_cut_palette(&mut second_run, 4).unwrap();
    assert_eq!(first, second);
}

#[test]
fn average_is_channelwise_truncated_mean() {
    let pixels = vec![px(1, 10, 200), px(2, 11, 201), px(2, 12, 255)];
    // Sums 5, 33, 656 over three pixels, truncated.
    assert_eq!(average_pixels(&pixels), px(1, 11, 218));
}
