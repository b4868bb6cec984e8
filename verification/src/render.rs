//! Rendering a pixel as the human-readable string `rgb(R, G, B)`.

use vstd::prelude::*;
use crate::pixel::Pixel;

verus! {

/// The single decimal digit `d` as a one-character sequence.
pub open spec fn digit_seq(d: int) -> Seq<char>
    recommends
        0 <= d <= 9,
{
    if d == 0 {
        "0"@
    } else if d == 1 {
        "1"@
    } else if d == 2 {
        "2"@
    } else if d == 3 {
        "3"@
    } else if d == 4 {
        "4"@
    } else if d == 5 {
        "5"@
    } else if d == 6 {
        "6"@
    } else if d == 7 {
        "7"@
    } else if d == 8 {
        "8"@
    } else {
        "9"@
    }
}

/// A channel value 0..=255 written in decimal, without leading zeros.
pub open spec fn decimal_seq(n: int) -> Seq<char>
    recommends
        0 <= n <= 255,
{
    if n < 10 {
        digit_seq(n)
    } else if n < 100 {
        digit_seq(n / 10) + digit_seq(n % 10)
    } else {
        digit_seq(n / 100) + digit_seq((n / 10) % 10) + digit_seq(n % 10)
    }
}

/// The pixel written as `rgb(R, G, B)` with decimal channel values.
pub open spec fn rgb_string(p: Pixel) -> Seq<char> {
    "rgb("@ + decimal_seq(p.r as int) + ", "@ + decimal_seq(p.g as int) + ", "@ + decimal_seq(
        p.b as int,
    ) + ")"@
}

/// The single decimal digit `d` as a string slice.
fn digit_str(d: u8) -> (s: &'static str)
    requires
        d <= 9,
    ensures
        s@ == digit_seq(d as int),
{
    if d == 0 {
        "0"
    } else if d == 1 {
        "1"
    } else if d == 2 {
        "2"
    } else if d == 3 {
        "3"
    } else if d == 4 {
        "4"
    } else if d == 5 {
        "5"
    } else if d == 6 {
        "6"
    } else if d == 7 {
        "7"
    } else if d == 8 {
        "8"
    } else {
        "9"
    }
}

/// Appends the decimal rendering of `n` to `out`.
fn push_decimal(out: &mut String, n: u8)
    ensures
        final(out)@ == old(out)@ + decimal_seq(n as int),
{
    let ghost start = out@;
    if n >= 100 {
        out.append(digit_str(n / 100));
        out.append(digit_str((n / 10) % 10));
        out.append(digit_str(n % 10));
        assert(out@ =~= start + decimal_seq(n as int));
    } else if n >= 10 {
        out.append(digit_str(n / 10));
        out.append(digit_str(n % 10));
        assert(out@ =~= start + decimal_seq(n as int));
    } else {
        out.append(digit_str(n));
    }
}

/// Renders the pixel as `rgb(R, G, B)` with decimal channel values.
pub fn format_rgb(pixel: Pixel) -> (s: String)
    ensures
        s@ == rgb_string(pixel),
{
    let mut out = String::from_str("rgb(");
    push_decimal(&mut out, pixel.r);
    out.append(", ");
    push_decimal(&mut out, pixel.g);
    out.append(", ");
    push_decimal(&mut out, pixel.b);
    out.append(")");
    proof {
        assert(out@ =~= rgb_string(pixel));
    }
    out
}

} // verus!
