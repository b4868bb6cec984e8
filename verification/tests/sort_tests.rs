use color_theme::{median_cut_sort_bucket, Pixel};

fn px(r: u8, g: u8, b: u8) -> Pixel {
    Pixel::new(r, g, b)
}

#[test]
fn sorts_by_the_channel_with_the_widest_spread() {
    // Spreads: red 1, green 9, blue 2 — green is the key.
    let bucket = vec![px(1, 9, 0), px(0, 0, 2)];
    assert_eq!(median_cut_sort_bucket(&bucket), vec![px(0, 0, 2), px(1, 9, 0)]);
}

#[test]
fn blue_wins_when_it_has_the_widest_spread() {
    // Spreads: red 1, green 1, blue 9 — blue is the key.
    let bucket = vec![px(0, 0, 9), px(1, 1, 0)];
    assert_eq!(median_cut_sort_bucket(&bucket), vec![px(1, 1, 0), px(0, 0, 9)]);
}

#[test]
fn spread_tie_goes_to_the_earlier_channel() {
    // Spreads: red 5, green 5, blue 3 — red wins the tie with green.
    let bucket = vec![px(5, 0, 3), px(0, 5, 0)];
    assert_eq!(median_cut_sort_bucket(&bucket), vec![px(0, 5, 0), px(5, 0, 3)]);
}

#[test]
fn sort_is_stable_on_equal_keys() {
    // Red is the key; the two pixels with red 5 keep their order.
    let bucket = vec![px(5, 1, 0), px(5, 0, 1), px(0, 0, 0)];
    assert_eq!(
        median_cut_sort_bucket(&bucket),
        vec![px(0, 0, 0), px(5, 1, 0), px(5, 0, 1)]
    );
}

#[test]
fn empty_bucket_sorts_to_empty() {
    let bucket: Vec<Pixel> = Vec::new();
    assert_eq!(median_cut_sort_bucket(&bucket), Vec::new());
}
