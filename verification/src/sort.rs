//! Sorting one bucket of pixels by its widest color channel.
//!
//! A bucket is sorted by the single channel whose spread (max minus min)
//! over the bucket is greatest; on a tie the earlier channel in red,
//! green, blue order wins. The sort itself is a stable insertion sort.

use vstd::prelude::*;
use crate::pixel::{channel, Pixel};

verus! {

/// `s` is ordered by channel `c`, smallest value first.
pub open spec fn sorted_by(s: Seq<Pixel>, c: int) -> bool {
    forall|i: int, j: int| 0 <= i <= j < s.len() ==> channel(s[i], c) <= channel(s[j], c)
}

/// `p` placed into the channel-sorted sequence `s`, after every element
/// whose key channel is not larger: a stable insertion.
pub open spec fn insert_by(s: Seq<Pixel>, p: Pixel, c: int) -> Seq<Pixel>
    decreases s.len(),
{
    if s.len() == 0 {
        seq![p]
    } else if channel(s.last(), c) <= channel(p, c) {
        s.push(p)
    } else {
        insert_by(s.drop_last(), p, c).push(s.last())
    }
}

/// Stable insertion sort of `s` by channel `c`.
pub open spec fn sort_by_channel(s: Seq<Pixel>, c: int) -> Seq<Pixel>
    decreases s.len(),
{
    if s.len() == 0 {
        Seq::empty()
    } else {
        insert_by(sort_by_channel(s.drop_last(), c), s.last(), c)
    }
}

/// The smallest value of channel `c` over a non-empty sequence.
pub open spec fn seq_min(s: Seq<Pixel>, c: int) -> u8
    recommends
        s.len() > 0,
    decreases s.len(),
{
    if s.len() <= 1 {
        channel(s[0], c)
    } else if channel(s.last(), c) < seq_min(s.drop_last(), c) {
        channel(s.last(), c)
    } else {
        seq_min(s.drop_last(), c)
    }
}

/// The largest value of channel `c` over a non-empty sequence.
pub open spec fn seq_max(s: Seq<Pixel>, c: int) -> u8
    recommends
        s.len() > 0,
    decreases s.len(),
{
    if s.len() <= 1 {
        channel(s[0], c)
    } else if channel(s.last(), c) > seq_max(s.drop_last(), c) {
        channel(s.last(), c)
    } else {
        seq_max(s.drop_last(), c)
    }
}

/// The spread of channel `c` over the bucket: its largest value minus its
/// smallest.
pub open spec fn spread(s: Seq<Pixel>, c: int) -> int
    recommends
        s.len() > 0,
{
    seq_max(s, c) - seq_min(s, c)
}

/// The index of the channel with the widest spread over the bucket; when
/// two channels tie, the earlier one in red, green, blue order wins.
pub open spec fn widest_channel(s: Seq<Pixel>) -> int
    recommends
        s.len() > 0,
{
    let sr = spread(s, 0);
    let sg = spread(s, 1);
    let sb = spread(s, 2);
    if sg > sr {
        if sb > sg {
            2
        } else {
            1
        }
    } else {
        if sb > sr {
            2
        } else {
            0
        }
    }
}

/// The bucket stably sorted by its widest channel.
pub open spec fn channel_sort(s: Seq<Pixel>) -> Seq<Pixel> {
    sort_by_channel(s, widest_channel(s))
}

/// Inserting one pixel grows the sequence by one.
pub proof fn lemma_insert_by_len(s: Seq<Pixel>, p: Pixel, c: int)
    ensures
        insert_by(s, p, c).len() == s.len() + 1,
    decreases s.len(),
{
    if s.len() > 0 && !(channel(s.last(), c) <= channel(p, c)) {
        lemma_insert_by_len(s.drop_last(), p, c);
    }
}

/// Sorting keeps the length of the sequence.
pub proof fn lemma_sort_by_channel_len(s: Seq<Pixel>, c: int)
    ensures
        sort_by_channel(s, c).len() == s.len(),
    decreases s.len(),
{
    if s.len() > 0 {
        lemma_sort_by_channel_len(s.drop_last(), c);
        lemma_insert_by_len(sort_by_channel(s.drop_last(), c), s.last(), c);
    }
}

/// On a sorted sequence, the stable insertion point of `p` is exactly the
/// position `j` below which every key is at most `p`'s and at which the
/// key (if any) exceeds it.
proof fn lemma_insert_by_at(s: Seq<Pixel>, p: Pixel, c: int, j: int)
    requires
        sorted_by(s, c),
        0 <= j <= s.len(),
        forall|t: int| 0 <= t < j ==> channel(s[t], c) <= channel(p, c),
        j < s.len() ==> channel(s[j], c) > channel(p, c),
    ensures
        insert_by(s, p, c) == s.insert(j, p),
    decreases s.len(),
{
    if s.len() == 0 {
        assert(insert_by(s, p, c) =~= s.insert(0, p));
    } else if channel(s.last(), c) <= channel(p, c) {
        assert(j == s.len()) by {
            if j < s.len() {
                assert(channel(s[j], c) <= channel(s[s.len() - 1], c));
            }
        }
        assert(s.push(p) =~= s.insert(s.len() as int, p));
    } else {
        assert(j < s.len()) by {
            if j == s.len() {
                assert(channel(s[s.len() - 1], c) <= channel(p, c));
            }
        }
        let d = s.drop_last();
        lemma_insert_by_at(d, p, c, j);
        assert(insert_by(d, p, c).push(s.last()) =~= s.insert(j, p)) by {
            d.insert_ensures(j, p);
            s.insert_ensures(j, p);
        }
    }
}

/// Inserting at the stable insertion point keeps the sequence sorted.
proof fn lemma_insert_at_sorted(s: Seq<Pixel>, p: Pixel, c: int, j: int)
    requires
        sorted_by(s, c),
        0 <= j <= s.len(),
        forall|t: int| 0 <= t < j ==> channel(s[t], c) <= channel(p, c),
        j < s.len() ==> channel(s[j], c) > channel(p, c),
    ensures
        sorted_by(s.insert(j, p), c),
{
    let r = s.insert(j, p);
    s.insert_ensures(j, p);
    assert forall|a: int, b: int| 0 <= a <= b < r.len() implies channel(r[a], c) <= channel(
        r[b],
        c,
    ) by {
        if a < j && b > j {
            assert(channel(s[a], c) <= channel(s[b - 1], c));
        }
        if a == j && b > j {
            assert(channel(s[j], c) <= channel(s[b - 1], c));
        }
    }
}

/// Exposes one channel of a pixel by runtime index.
fn channel_value(p: Pixel, c: u8) -> (v: u8)
    ensures
        v == channel(p, c as int),
{
    if c == 0 {
        p.r
    } else if c == 1 {
        p.g
    } else {
        p.b
    }
}

/// Sorts one bucket of pixels by the channel with the greatest spread
/// across the bucket, returning the sorted copy. Ties between channels go
/// to the earlier of red, green, blue; the sort is stable, so pixels with
/// equal keys keep their relative order.
pub fn median_cut_sort_bucket(bucket: &Vec<Pixel>) -> (sorted: Vec<Pixel>)
    ensures
        sorted@ == channel_sort(bucket@),
{
    if bucket.len() == 0 {
        let out: Vec<Pixel> = Vec::new();
        assert(out@ =~= channel_sort(bucket@));
        return out;
    }
    let n = bucket.len();
    let mut rmin = bucket[0].r;
    let mut rmax = bucket[0].r;
    let mut gmin = bucket[0].g;
    let mut gmax = bucket[0].g;
    let mut bmin = bucket[0].b;
    let mut bmax = bucket[0].b;
    let mut i: usize = 1;
    while i < n
        invariant
            1 <= i <= n == bucket@.len(),
            rmin == seq_min(bucket@.take(i as int), 0),
            rmax == seq_max(bucket@.take(i as int), 0),
            gmin == seq_min(bucket@.take(i as int), 1),
            gmax == seq_max(bucket@.take(i as int), 1),
            bmin == seq_min(bucket@.take(i as int), 2),
            bmax == seq_max(bucket@.take(i as int), 2),
        decreases n - i,
    {
        let p = bucket[i];
        proof {
            assert(bucket@.take(i + 1).drop_last() =~= bucket@.take(i as int));
            assert(bucket@.take(i + 1).last() == p);
        }
        if p.r < rmin {
            rmin = p.r;
        }
        if p.r > rmax {
            rmax = p.r;
        }
        if p.g < gmin {
            gmin = p.g;
        }
        if p.g > gmax {
            gmax = p.g;
        }
        if p.b < bmin {
            bmin = p.b;
        }
        if p.b > bmax {
            bmax = p.b;
        }
        i += 1;
    }
    proof {
        assert(bucket@.take(n as int) =~= bucket@);
        lemma_min_le_max(bucket@, 0);
        lemma_min_le_max(bucket@, 1);
        lemma_min_le_max(bucket@, 2);
    }
    let sr = rmax - rmin;
    let sg = gmax - gmin;
    let sb = bmax - bmin;
    let key: u8 = if sg > sr {
        if sb > sg {
            2
        } else {
            1
        }
    } else {
        if sb > sr {
            2
        } else {
            0
        }
    };
    assert(key as int == widest_channel(bucket@));
    sort_pixels(bucket, key)
}

/// On a non-empty sequence, the smallest channel value never exceeds the
/// largest.
proof fn lemma_min_le_max(s: Seq<Pixel>, c: int)
    requires
        s.len() > 0,
    ensures
        seq_min(s, c) <= seq_max(s, c),
    decreases s.len(),
{
    if s.len() > 1 {
        lemma_min_le_max(s.drop_last(), c);
    }
}

/// Stable insertion sort of the pixels by the channel `key`.
fn sort_pixels(bucket: &Vec<Pixel>, key: u8) -> (sorted: Vec<Pixel>)
    ensures
        sorted@ == sort_by_channel(bucket@, key as int),
{
    let ghost c = key as int;
    let mut out: Vec<Pixel> = Vec::new();
    let mut i: usize = 0;
    while i < bucket.len()
        invariant
            i <= bucket@.len(),
            out@ == sort_by_channel(bucket@.take(i as int), c),
            sorted_by(out@, c),
            c == key as int,
        decreases bucket@.len() - i,
    {
        let x = bucket[i];
        let mut j: usize = 0;
        while j < out.len() && channel_value(out[j], key) <= channel_value(x, key)
            invariant
                j <= out@.len(),
                c == key as int,
                forall|t: int| 0 <= t < j ==> channel(out@[t], c) <= channel(x, c),
            decreases out@.len() - j,
        {
            j += 1;
        }
        proof {
            lemma_insert_by_at(out@, x, c, j as int);
            lemma_insert_at_sorted(out@, x, c, j as int);
            assert(bucket@.take(i + 1).drop_last() =~= bucket@.take(i as int));
            assert(bucket@.take(i + 1).last() == x);
        }
        out.insert(j, x);
        i += 1;
    }
    proof {
        assert(bucket@.take(bucket@.len() as int) =~= bucket@);
    }
    out
}

} // verus!
