//! The palette extractor: recursive median-cut bucketing.
//!
//! The buffer is repeatedly tiled into `2^i` equal buckets, each bucket
//! sorted in place by its widest channel, so that every pass refines the
//! ordering left by the previous one. The palette is the sequence of
//! per-bucket channel averages of the final pass.

use vstd::prelude::*;
use vstd::arithmetic::div_mod::{
    lemma_div_by_multiple, lemma_div_is_ordered, lemma_fundamental_div_mod,
};
use crate::pixel::{channel, Pixel};
use crate::sort::{
    channel_sort, lemma_sort_by_channel_len, median_cut_sort_bucket, seq_max, seq_min,
};

verus! {

/// Why the extractor rejected its input.
#[derive(Clone, Copy, PartialEq, Eq, Structural, Debug)]
pub enum PaletteError {
    /// The requested palette size is 0, or so large relative to the pixel
    /// population that every bucket would be empty.
    InvalidPaletteSize,
    /// The pixel buffer holds no pixels.
    EmptyInput,
}

/// Two to the power `e`.
pub open spec fn pow2(e: nat) -> nat
    decreases e,
{
    if e == 0 {
        1
    } else {
        2 * pow2((e - 1) as nat)
    }
}

/// The smallest exponent `k` with `pow2(k) >= c` (0 when `c <= 1`).
pub open spec fn ceil_log2(c: nat) -> nat
    decreases c,
{
    if c <= 1 {
        0
    } else {
        1 + ceil_log2(((c + 1) / 2) as nat)
    }
}

/// The first `bc` buckets of `s`, each of `bs` pixels, each sorted by its
/// own widest channel, laid end to end.
pub open spec fn sorted_buckets(s: Seq<Pixel>, bs: nat, bc: nat) -> Seq<Pixel>
    decreases bc,
{
    if bc == 0 {
        Seq::empty()
    } else {
        sorted_buckets(s, bs, (bc - 1) as nat) + channel_sort(
            s.subrange(bs * (bc - 1), bs * (bc - 1) + bs),
        )
    }
}

/// One bucketing pass over the whole buffer: the prefix tiled by `bc`
/// buckets of `bs` pixels is sorted bucket by bucket; the remainder keeps
/// its order.
pub open spec fn pass_spec(s: Seq<Pixel>, bs: nat, bc: nat) -> Seq<Pixel>
    recommends
        bs * bc <= s.len(),
{
    sorted_buckets(s, bs, bc) + s.skip((bs * bc) as int)
}

/// The buffer after the first `m` bucketing passes; pass `i` (counted
/// from 0) uses `pow2(i)` buckets whose size is recomputed fresh from the
/// buffer length.
pub open spec fn after_iters(s: Seq<Pixel>, m: nat) -> Seq<Pixel>
    decreases m,
{
    if m == 0 {
        s
    } else {
        let prev = after_iters(s, (m - 1) as nat);
        pass_spec(prev, prev.len() / pow2((m - 1) as nat), pow2((m - 1) as nat))
    }
}

/// The sum of channel `c` over the sequence.
pub open spec fn sum_channel(s: Seq<Pixel>, c: int) -> int
    decreases s.len(),
{
    if s.len() == 0 {
        0
    } else {
        sum_channel(s.drop_last(), c) + channel(s.last(), c)
    }
}

/// The arithmetic mean of a non-empty bucket, per channel, with
/// truncating division.
pub open spec fn average_spec(s: Seq<Pixel>) -> Pixel
    recommends
        s.len() > 0,
{
    Pixel {
        r: (sum_channel(s, 0) / (s.len() as int)) as u8,
        g: (sum_channel(s, 1) / (s.len() as int)) as u8,
        b: (sum_channel(s, 2) / (s.len() as int)) as u8,
    }
}

/// The bucket size of the final pass: the buffer length divided by the
/// final bucket count `pow2(ceil_log2(count))`.
pub open spec fn final_bucket_size(s: Seq<Pixel>, count: u8) -> nat {
    s.len() / pow2(ceil_log2(count as nat))
}

/// The extractor succeeds exactly when the requested size is positive and
/// the final buckets are non-empty.
pub open spec fn extract_ok(s: Seq<Pixel>, count: u8) -> bool {
    count > 0 && final_bucket_size(s, count) >= 1
}

/// The error the extractor reports when `extract_ok` fails: an empty
/// buffer is reported as such; everything else is a palette size that the
/// population cannot fill.
pub open spec fn extract_err(s: Seq<Pixel>, count: u8) -> PaletteError {
    if count == 0 {
        PaletteError::InvalidPaletteSize
    } else if s.len() == 0 {
        PaletteError::EmptyInput
    } else {
        PaletteError::InvalidPaletteSize
    }
}

/// Bucket `j` of the final pass: the `j`-th run of `final_bucket_size`
/// pixels of the fully bucketed buffer. Palette entry `j` is averaged
/// from exactly these pixels.
pub open spec fn bucket_of(s: Seq<Pixel>, count: u8, j: int) -> Seq<Pixel>
    recommends
        extract_ok(s, count),
        0 <= j < count,
{
    let fin = after_iters(s, ceil_log2(count as nat) + 1);
    let bs = final_bucket_size(s, count) as int;
    fin.subrange(bs * j, bs * j + bs)
}

/// The extracted palette: entry `j` is the channel-wise average of bucket
/// `j` of the final pass.
pub open spec fn palette_spec(s: Seq<Pixel>, count: u8) -> Seq<Pixel>
    recommends
        extract_ok(s, count),
{
    Seq::new(count as nat, |j: int| average_spec(bucket_of(s, count, j)))
}

/// `pow2` is positive.
pub proof fn lemma_pow2_pos(e: nat)
    ensures
        pow2(e) >= 1,
    decreases e,
{
    if e > 0 {
        lemma_pow2_pos((e - 1) as nat);
    }
}

/// `pow2` is monotone.
pub proof fn lemma_pow2_le(a: nat, b: nat)
    requires
        a <= b,
    ensures
        pow2(a) <= pow2(b),
    decreases b,
{
    if a < b {
        lemma_pow2_le(a, (b - 1) as nat);
        lemma_pow2_pos((b - 1) as nat);
    }
}

/// `pow2(ceil_log2(c))` reaches `c` and overshoots it by less than a
/// factor of two.
pub proof fn lemma_ceil_log2_bounds(c: nat)
    requires
        c >= 1,
    ensures
        pow2(ceil_log2(c)) >= c,
        c >= 2 ==> pow2(ceil_log2(c)) <= 2 * (c - 1),
        c == 1 ==> ceil_log2(c) == 0,
    decreases c,
{
    if c >= 2 {
        lemma_ceil_log2_bounds(((c + 1) / 2) as nat);
    }
}

/// The sum of a channel over a non-empty bucket lies between the bucket
/// size times its smallest and times its largest value.
proof fn lemma_sum_channel_bounds(s: Seq<Pixel>, c: int)
    requires
        s.len() > 0,
    ensures
        s.len() * seq_min(s, c) <= sum_channel(s, c) <= s.len() * seq_max(s, c),
    decreases s.len(),
{
    if s.len() == 1 {
        reveal_with_fuel(sum_channel, 2);
        assert(sum_channel(s, c) == channel(s[0], c));
    } else {
        let d = s.drop_last();
        lemma_sum_channel_bounds(d, c);
        assert(d.len() * seq_min(d, c) >= d.len() * seq_min(s, c)) by (nonlinear_arith)
            requires
                seq_min(d, c) >= seq_min(s, c),
                d.len() >= 0,
        ;
        assert(d.len() * seq_max(d, c) <= d.len() * seq_max(s, c)) by (nonlinear_arith)
            requires
                seq_max(d, c) <= seq_max(s, c),
                d.len() >= 0,
        ;
        assert(s.len() * seq_min(s, c) == d.len() * seq_min(s, c) + seq_min(s, c))
            by (nonlinear_arith)
            requires
                s.len() == d.len() + 1,
        ;
        assert(s.len() * seq_max(s, c) == d.len() * seq_max(s, c) + seq_max(s, c))
            by (nonlinear_arith)
            requires
                s.len() == d.len() + 1,
        ;
    }
}

/// Law: the average of a non-empty bucket stays within the smallest and
/// largest value that the bucket holds on each channel (and so within
/// 0..=255, as every channel is).
pub proof fn lemma_average_in_bounds(s: Seq<Pixel>, c: int)
    requires
        s.len() > 0,
        0 <= c < 3,
    ensures
        seq_min(s, c) <= channel(average_spec(s), c) <= seq_max(s, c),
    decreases c,
{
    let n = s.len() as int;
    let sum = sum_channel(s, c);
    let lo = seq_min(s, c) as int;
    let hi = seq_max(s, c) as int;
    lemma_sum_channel_bounds(s, c);
    lemma_div_by_multiple(lo, n);
    lemma_div_by_multiple(hi, n);
    assert(lo * n == n * lo && hi * n == n * hi) by (nonlinear_arith);
    lemma_div_is_ordered(lo * n, sum, n);
    lemma_div_is_ordered(sum, hi * n, n);
    assert(lo <= sum / n <= hi);
    assert(channel(average_spec(s), c) == (sum / n) as u8);
}

/// A prefix of `bc` buckets of `bs` pixels holds `bs * bc` pixels.
proof fn lemma_sorted_buckets_len(s: Seq<Pixel>, bs: nat, bc: nat)
    requires
        bs * bc <= s.len(),
    ensures
        sorted_buckets(s, bs, bc).len() == bs * bc,
    decreases bc,
{
    if bc > 0 {
        let prev = (bc - 1) as nat;
        assert(bs * prev <= bs * bc && bs * prev + bs == bs * bc) by (nonlinear_arith)
            requires
                bs >= 0,
                prev + 1 == bc,
        ;
        lemma_sorted_buckets_len(s, bs, prev);
        let sub = s.subrange((bs * prev) as int, (bs * prev + bs) as int);
        assert(sub.len() == bs);
        lemma_sort_by_channel_len(sub, crate::sort::widest_channel(sub));
        assert(sorted_buckets(s, bs, bc) == sorted_buckets(s, bs, prev) + channel_sort(sub));
        assert((sorted_buckets(s, bs, prev) + channel_sort(sub)).len() == sorted_buckets(
            s,
            bs,
            prev,
        ).len() + channel_sort(sub).len());
    } else {
        assert(sorted_buckets(s, bs, bc) == Seq::<Pixel>::empty());
        assert(bs * bc == 0) by (nonlinear_arith)
            requires
                bc == 0,
        ;
    }
}

/// A bucketing pass reorders the buffer; it never changes its length.
proof fn lemma_pass_len(s: Seq<Pixel>, bs: nat, bc: nat)
    requires
        bs * bc <= s.len(),
    ensures
        pass_spec(s, bs, bc).len() == s.len(),
{
    lemma_sorted_buckets_len(s, bs, bc);
}

/// No number of passes changes the buffer's length.
pub proof fn lemma_after_iters_len(s: Seq<Pixel>, m: nat)
    ensures
        after_iters(s, m).len() == s.len(),
    decreases m,
{
    if m > 0 {
        lemma_after_iters_len(s, (m - 1) as nat);
        let prev = after_iters(s, (m - 1) as nat);
        let p = pow2((m - 1) as nat);
        lemma_pow2_pos((m - 1) as nat);
        lemma_fundamental_div_mod(prev.len() as int, p as int);
        assert((prev.len() / p) * p <= prev.len()) by (nonlinear_arith)
            requires
                p >= 1,
                prev.len() as int == p * ((prev.len() as int) / (p as int)) + (prev.len() as int)
                    % (p as int),
                (prev.len() as int) % (p as int) >= 0,
        ;
        lemma_pass_len(prev, prev.len() / p, p);
    }
}

/// Copies `count` pixels of `v` starting at `start`.
fn copy_range(v: &Vec<Pixel>, start: usize, count: usize) -> (out: Vec<Pixel>)
    requires
        start + count <= v@.len(),
    ensures
        out@ == v@.subrange(start as int, start as int + count as int),
{
    let n = v.len();
    let mut out: Vec<Pixel> = Vec::new();
    let mut k: usize = 0;
    while k < count
        invariant
            k <= count,
            start + count <= n == v@.len(),
            out@ == v@.subrange(start as int, start as int + k as int),
        decreases count - k,
    {
        out.push(v[start + k]);
        proof {
            assert(v@.subrange(start as int, start + k + 1) =~= v@.subrange(
                start as int,
                start as int + k as int,
            ).push(v@[start + k]));
        }
        k += 1;
    }
    out
}

/// The channel-wise arithmetic mean of a non-empty pixel buffer, with
/// truncating division.
pub fn average_pixels(pixels: &Vec<Pixel>) -> (avg: Pixel)
    requires
        pixels@.len() > 0,
    ensures
        avg == average_spec(pixels@),
{
    let n = pixels.len();
    let mut sum_r: u128 = 0;
    let mut sum_g: u128 = 0;
    let mut sum_b: u128 = 0;
    let mut i: usize = 0;
    while i < n
        invariant
            i <= n == pixels@.len(),
            sum_r == sum_channel(pixels@.take(i as int), 0),
            sum_g == sum_channel(pixels@.take(i as int), 1),
            sum_b == sum_channel(pixels@.take(i as int), 2),
            sum_r <= 255 * i && sum_g <= 255 * i && sum_b <= 255 * i,
        decreases n - i,
    {
        let p = pixels[i];
        proof {
            assert(pixels@.take(i + 1).drop_last() =~= pixels@.take(i as int));
            assert(pixels@.take(i + 1).last() == p);
        }
        sum_r = sum_r + (p.r as u128);
        sum_g = sum_g + (p.g as u128);
        sum_b = sum_b + (p.b as u128);
        i += 1;
    }
    proof {
        assert(pixels@.take(n as int) =~= pixels@);
        lemma_avg_le_255(sum_r as int, n as int);
        lemma_avg_le_255(sum_g as int, n as int);
        lemma_avg_le_255(sum_b as int, n as int);
    }
    Pixel {
        r: (sum_r / (n as u128)) as u8,
        g: (sum_g / (n as u128)) as u8,
        b: (sum_b / (n as u128)) as u8,
    }
}

/// Law: the extractor succeeds and returns exactly `count` colors
/// whenever the population fills the final buckets, that is, whenever it
/// reaches `pow2(ceil_log2(count))` — the requested count rounded up to a
/// power of two. (A population at or above `count` alone is not enough:
/// six pixels cannot fill the eight final buckets that a count of five
/// rounds up to.)
pub proof fn lemma_extract_exact_count(s: Seq<Pixel>, count: u8)
    requires
        count >= 1,
        s.len() >= pow2(ceil_log2(count as nat)),
    ensures
        extract_ok(s, count),
        palette_spec(s, count).len() == count,
{
    let p = pow2(ceil_log2(count as nat)) as int;
    lemma_pow2_pos(ceil_log2(count as nat));
    lemma_div_is_ordered(p, s.len() as int, p);
    lemma_div_by_multiple(1, p);
    assert(1 * p == p) by (nonlinear_arith);
}

/// Law: the extracted palette is a function of the pixel population's
/// original sequence and the requested count alone. Re-running the
/// extractor on the same original buffer yields the same palette, whatever
/// reordering an earlier run left behind, because every run starts from
/// the sequence it is handed.
pub proof fn lemma_extract_deterministic(s1: Seq<Pixel>, s2: Seq<Pixel>, count: u8)
    requires
        s1 == s2,
    ensures
        extract_ok(s1, count) == extract_ok(s2, count),
        palette_spec(s1, count) == palette_spec(s2, count),
{
}

/// Law: each palette entry's channels lie within the smallest and largest
/// value that its source bucket holds on that channel (and, being 8-bit,
/// within 0..=255).
pub proof fn lemma_palette_entry_in_bucket_bounds(s: Seq<Pixel>, count: u8, j: int, c: int)
    requires
        extract_ok(s, count),
        0 <= j < count,
        0 <= c < 3,
    ensures
        bucket_of(s, count, j).len() == final_bucket_size(s, count) >= 1,
        seq_min(bucket_of(s, count, j), c) <= channel(palette_spec(s, count)[j], c) <= seq_max(
            bucket_of(s, count, j),
            c,
        ),
{
    let k = ceil_log2(count as nat);
    let fin = after_iters(s, k + 1);
    let bs = final_bucket_size(s, count) as int;
    let p = pow2(k) as int;
    lemma_after_iters_len(s, k + 1);
    lemma_pow2_pos(k);
    lemma_ceil_log2_bounds(count as nat);
    lemma_fundamental_div_mod(s.len() as int, p);
    assert(bs * j + bs == bs * (j + 1) <= bs * count <= bs * p) by (nonlinear_arith)
        requires
            0 <= j < count <= p,
            bs >= 0,
    ;
    assert(bs * p <= s.len()) by (nonlinear_arith)
        requires
            p >= 1,
            s.len() as int == p * ((s.len() as int) / p) + (s.len() as int) % p,
            (s.len() as int) % p >= 0,
            bs == (s.len() as int) / p,
    ;
    assert(bs * j >= 0) by (nonlinear_arith)
        requires
            bs >= 0,
            j >= 0,
    ;
    lemma_average_in_bounds(bucket_of(s, count, j), c);
}

/// The smallest exponent whose power of two reaches `c`.
fn ceil_log2_exec(c: usize) -> (k: usize)
    requires
        c < usize::MAX,
    ensures
        k == ceil_log2(c as nat),
        k <= c,
    decreases c,
{
    if c <= 1 {
        0
    } else {
        1 + ceil_log2_exec((c + 1) / 2)
    }
}

/// Two to the power `e`.
fn pow2_exec(e: usize) -> (p: usize)
    requires
        pow2(e as nat) <= usize::MAX,
    ensures
        p == pow2(e as nat),
    decreases e,
{
    if e == 0 {
        1
    } else {
        proof {
            lemma_pow2_le((e - 1) as nat, e as nat);
        }
        2 * pow2_exec(e - 1)
    }
}

/// One bucketing pass: the prefix of the buffer tiled by `bucket_count`
/// buckets of `bucket_size` pixels is sorted bucket by bucket; pixels past
/// the tiled prefix keep their place.
fn sort_pass(pixels: &mut Vec<Pixel>, bucket_size: usize, bucket_count: usize)
    requires
        (bucket_size as int) * (bucket_count as int) <= old(pixels)@.len(),
    ensures
        final(pixels)@ == pass_spec(old(pixels)@, bucket_size as nat, bucket_count as nat),
        final(pixels)@.len() == old(pixels)@.len(),
{
    let ghost orig = pixels@;
    let n = pixels.len();
    let mut out: Vec<Pixel> = Vec::new();
    let mut j: usize = 0;
    while j < bucket_count
        invariant
            j <= bucket_count,
            (bucket_size as int) * (bucket_count as int) <= n == pixels@.len(),
            pixels@ == orig,
            out@ == sorted_buckets(orig, bucket_size as nat, j as nat),
            out@.len() == (bucket_size as int) * (j as int),
        decreases bucket_count - j,
    {
        proof {
            assert((bucket_size as int) * (j as int) + bucket_size == (bucket_size as int) * (j
                + 1) <= (bucket_size as int) * (bucket_count as int)) by (nonlinear_arith)
                requires
                    0 <= j < bucket_count,
                    bucket_size >= 0,
            ;
        }
        let start = bucket_size * j;
        let bucket = copy_range(pixels, start, bucket_size);
        let mut sorted = median_cut_sort_bucket(&bucket);
        out.append(&mut sorted);
        proof {
            assert(out@ == sorted_buckets(orig, bucket_size as nat, (j + 1) as nat));
            lemma_sorted_buckets_len(orig, bucket_size as nat, (j + 1) as nat);
        }
        j += 1;
    }
    let tiled = bucket_size * bucket_count;
    let mut t = tiled;
    while t < n
        invariant
            tiled <= t <= n == pixels@.len(),
            pixels@ == orig,
            tiled == (bucket_size as int) * (bucket_count as int),
            out@ == sorted_buckets(orig, bucket_size as nat, bucket_count as nat) + orig.subrange(
                tiled as int,
                t as int,
            ),
        decreases n - t,
    {
        out.push(pixels[t]);
        proof {
            assert(orig.subrange(tiled as int, t + 1) =~= orig.subrange(tiled as int, t as int).push(
                orig[t as int],
            ));
        }
        t += 1;
    }
    proof {
        assert(orig.subrange(tiled as int, n as int) =~= orig.skip(
            ((bucket_size as nat) * (bucket_count as nat)) as int,
        ));
    }
    *pixels = out;
}

/// Extracts a palette of `palette_n` representative colors from the pixel
/// buffer by median-cut bucketing. The buffer itself is reordered by the
/// passes; its final order is an implementation detail of the cut.
///
/// Fails with `InvalidPaletteSize` when `palette_n` is 0 or when the
/// population is too small to fill every final bucket with at least one
/// pixel, and with `EmptyInput` on an empty buffer; on failure the buffer
/// is left untouched. Trailing pixels that do not tile evenly into the
/// final buckets are dropped from the output.
pub fn median_cut_palette(pixels: &mut Vec<Pixel>, palette_n: u8) -> (palette: Result<
    Vec<Pixel>,
    PaletteError,
>)
    ensures
        extract_ok(old(pixels)@, palette_n) ==> (palette matches Ok(colours)
            && colours@ == palette_spec(old(pixels)@, palette_n) && final(pixels)@ == after_iters(
            old(pixels)@,
            ceil_log2(palette_n as nat) + 1,
        )),
        !extract_ok(old(pixels)@, palette_n) ==> (palette matches Err(e) && e == extract_err(
            old(pixels)@,
            palette_n,
        ) && final(pixels)@ == old(pixels)@),
{
    let ghost orig = pixels@;
    if palette_n == 0 {
        return Err(PaletteError::InvalidPaletteSize);
    }
    let n = pixels.len();
    if n == 0 {
        proof {
            lemma_pow2_pos(ceil_log2(palette_n as nat));
        }
        return Err(PaletteError::EmptyInput);
    }
    let k = ceil_log2_exec(palette_n as usize);
    proof {
        lemma_ceil_log2_bounds(palette_n as nat);
    }
    let final_bc = pow2_exec(k);
    let final_bs = n / final_bc;
    proof {
        lemma_fundamental_div_mod(n as int, final_bc as int);
    }
    if final_bs == 0 {
        return Err(PaletteError::InvalidPaletteSize);
    }
    let iterations = k + 1;
    let mut bc: usize = 1;
    let mut i: usize = 0;
    while i < iterations
        invariant
            i <= iterations == k + 1,
            k == ceil_log2(palette_n as nat),
            bc == pow2(i as nat),
            bc <= 2 * pow2(k as nat),
            pow2(k as nat) <= 512,
            pixels@ == after_iters(orig, i as nat),
            pixels@.len() == n == orig.len(),
        decreases iterations - i,
    {
        proof {
            lemma_pow2_pos(i as nat);
            lemma_pow2_le(i as nat, k as nat);
        }
        let bs = pixels.len() / bc;
        proof {
            lemma_fundamental_div_mod(n as int, bc as int);
            assert((bs as int) * (bc as int) <= n) by (nonlinear_arith)
                requires
                    bc >= 1,
                    n as int == (bc as int) * ((n as int) / (bc as int)) + (n as int) % (
                    bc as int),
                    (n as int) % (bc as int) >= 0,
                    bs == (n as int) / (bc as int),
            ;
        }
        sort_pass(pixels, bs, bc);
        proof {
            lemma_after_iters_len(orig, (i + 1) as nat);
        }
        bc = 2 * bc;
        i += 1;
    }
    let count = palette_n as usize;
    let ghost fin = after_iters(orig, (k + 1) as nat);
    let mut colours: Vec<Pixel> = Vec::new();
    let mut jj: usize = 0;
    proof {
        assert((final_bs as int) * (count as int) <= (final_bs as int) * (final_bc as int) <= n)
            by (nonlinear_arith)
            requires
                0 <= count <= final_bc,
                final_bs >= 0,
                (final_bc as int) * (final_bs as int) + (n as int) % (final_bc as int) == n,
                (n as int) % (final_bc as int) >= 0,
        ;
    }
    while jj < count
        invariant
            jj <= count,
            final_bs == final_bucket_size(orig, palette_n),
            (final_bs as int) * (count as int) <= n == pixels@.len() == orig.len(),
            pixels@ == fin,
            fin == after_iters(orig, ceil_log2(palette_n as nat) + 1),
            final_bs >= 1,
            count == palette_n as int,
            colours@ == palette_spec(orig, palette_n).take(jj as int),
        decreases count - jj,
    {
        proof {
            assert((final_bs as int) * (jj as int) + final_bs == (final_bs as int) * (jj + 1) <= (
            final_bs as int) * (count as int)) by (nonlinear_arith)
                requires
                    0 <= jj < count,
                    final_bs >= 0,
            ;
        }
        let start = final_bs * jj;
        let bucket = copy_range(pixels, start, final_bs);
        let avg = average_pixels(&bucket);
        colours.push(avg);
        proof {
            assert(palette_spec(orig, palette_n)[jj as int] == average_spec(
                fin.subrange((final_bs as int) * (jj as int), (final_bs as int) * (jj as int)
                    + final_bs),
            ));
            assert(palette_spec(orig, palette_n).take(jj + 1) =~= palette_spec(
                orig,
                palette_n,
            ).take(jj as int).push(palette_spec(orig, palette_n)[jj as int]));
        }
        jj += 1;
    }
    proof {
        assert(colours@ =~= palette_spec(orig, palette_n));
    }
    Ok(colours)
}

/// A sum of `n` channel values divides by `n` to at most 255.
proof fn lemma_avg_le_255(sum: int, n: int)
    requires
        n > 0,
        0 <= sum <= 255 * n,
    ensures
        0 <= sum / n <= 255,
{
    lemma_div_is_ordered(0, sum, n);
    lemma_div_is_ordered(sum, 255 * n, n);
    lemma_div_by_multiple(255, n);
    assert(255 * n == n * 255) by (nonlinear_arith);
}

} // verus!
