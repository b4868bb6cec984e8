//! Median-cut color quantization and theme-color selection.
//!
//! The palette extractor partitions a pixel buffer into representative
//! colors by recursive median-cut bucketing; the theme selector picks the
//! most saturated palette entry and can rescale it to a target brightness.

pub mod palette;
pub mod pixel;
pub mod render;
pub mod sort;
pub mod theme;

pub use palette::{average_pixels, median_cut_palette, PaletteError};
pub use pixel::{calculate_saturation, change_brightness, Pixel};
pub use render::format_rgb;
pub use sort::median_cut_sort_bucket;
pub use theme::get_theme_colour;
