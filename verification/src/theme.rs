//! The theme selector: picks the most saturated palette entry and can
//! rescale it to a target peak brightness.

use vstd::prelude::*;
use crate::pixel::{
    brightness_spec, calculate_saturation, change_brightness, saturation_spec, Pixel,
};

verus! {

/// The index of the most saturated pixel of a non-empty palette; on equal
/// saturation the earlier entry wins (a stable max-scan).
pub open spec fn best_index(s: Seq<Pixel>) -> int
    recommends
        s.len() > 0,
    decreases s.len(),
{
    if s.len() <= 1 {
        0
    } else {
        let b = best_index(s.drop_last());
        if saturation_spec(s.last()) > saturation_spec(s[b]) {
            s.len() - 1
        } else {
            b
        }
    }
}

/// The theme color of a non-empty palette: its most saturated entry,
/// rescaled to the target brightness when one is given.
pub open spec fn theme_spec(s: Seq<Pixel>, brightness: Option<u8>) -> Pixel
    recommends
        s.len() > 0,
{
    let chosen = s[best_index(s)];
    match brightness {
        Some(b) => brightness_spec(chosen, b),
        None => chosen,
    }
}

/// The scan always lands inside the palette.
pub proof fn lemma_best_index_in_range(s: Seq<Pixel>)
    requires
        s.len() > 0,
    ensures
        0 <= best_index(s) < s.len(),
    decreases s.len(),
{
    if s.len() > 1 {
        lemma_best_index_in_range(s.drop_last());
    }
}

/// Law: the selected entry is at least as saturated as every other
/// palette member, and no earlier entry reaches its saturation (the scan
/// is stable, so ties go to the first occurrence).
pub proof fn lemma_best_index_most_saturated(s: Seq<Pixel>)
    requires
        s.len() > 0,
    ensures
        forall|i: int|
            0 <= i < s.len() ==> saturation_spec(s[best_index(s)]) >= saturation_spec(#[trigger] s[i]),
        forall|i: int|
            0 <= i < best_index(s) ==> saturation_spec(s[best_index(s)]) > saturation_spec(#[trigger] s[i]),
    decreases s.len(),
{
    if s.len() > 1 {
        let d = s.drop_last();
        lemma_best_index_in_range(d);
        lemma_best_index_most_saturated(d);
        assert(forall|i: int| 0 <= i < d.len() ==> s[i] == d[i]);
    }
}

/// Selects the theme color from a palette: the most saturated entry, the
/// first of them on a tie. When a target brightness is given the chosen
/// pixel is rescaled so that its peak channel becomes that target (a pure
/// black entry is returned unchanged). Returns `None` exactly on an empty
/// palette.
pub fn get_theme_colour(palette: &[Pixel], brightness: Option<u8>) -> (theme: Option<Pixel>)
    ensures
        theme is Some <==> palette@.len() > 0,
        palette@.len() > 0 ==> theme == Some(theme_spec(palette@, brightness)),
{
    if palette.len() == 0 {
        return None;
    }
    let n = palette.len();
    let mut best: usize = 0;
    let mut best_sat = calculate_saturation(palette[0]);
    let mut i: usize = 1;
    while i < n
        invariant
            1 <= i <= n == palette@.len(),
            best < i,
            best == best_index(palette@.take(i as int)),
            best_sat == saturation_spec(palette@[best as int]),
        decreases n - i,
    {
        let sat = calculate_saturation(palette[i]);
        proof {
            let t = palette@.take(i + 1);
            assert(t.drop_last() =~= palette@.take(i as int));
            assert(t.last() == palette@[i as int]);
            lemma_best_index_in_range(palette@.take(i as int));
            assert(t[best_index(t.drop_last())] == palette@[best_index(t.drop_last())]);
        }
        if sat > best_sat {
            best = i;
            best_sat = sat;
        }
        i += 1;
    }
    proof {
        assert(palette@.take(n as int) =~= palette@);
    }
    let chosen = palette[best];
    match brightness {
        Some(b) => Some(change_brightness(chosen, b)),
        None => Some(chosen),
    }
}

} // verus!
