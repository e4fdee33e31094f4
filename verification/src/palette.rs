//! The palette: an ordered, immutable-once-built list of colours, with
//! nearest-colour lookup and stable index lookup.

use vstd::prelude::*;
use vstd::arithmetic::div_mod::lemma_fundamental_div_mod_converse;
use crate::colour::Rgb;
use crate::error::PaletteError;
use crate::space::ColourSpace;
use crate::space::EuclideanDistance;
use crate::space::lemma_distance_sq_zero_iff_eq;

verus! {

/// A colour palette: an ordered list of colours, built once and read-only
/// thereafter. Duplicates are permitted; the index, not the value, is a
/// colour's identity when packing.
pub struct Palette {
    colours: Vec<Rgb>,
}

impl View for Palette {
    type V = Seq<Rgb>;

    closed spec fn view(&self) -> Seq<Rgb> {
        self.colours@
    }
}

/// The index that a strict-improvement left-to-right scan of `pal` settles
/// on: the first index whose distance to `p` is minimal over the palette.
/// On an empty palette this is `0`.
pub open spec fn closest_idx(pal: Seq<Rgb>, space: ColourSpace, p: Rgb) -> int
    decreases pal.len(),
{
    if pal.len() <= 1 {
        0
    } else {
        let k = closest_idx(pal.drop_last(), space, p);
        if space.spec_distance_sq(pal.last(), p) < space.spec_distance_sq(pal[k], p) {
            pal.len() - 1
        } else {
            k
        }
    }
}

/// The palette entry closest to `p`, with exact ties broken towards the
/// lowest index.
pub open spec fn closest_spec(pal: Seq<Rgb>, space: ColourSpace, p: Rgb) -> Rgb {
    pal[closest_idx(pal, space, p)]
}

/// `closest_idx` picks a valid index whose distance to `p` is minimal, and
/// every strictly earlier index is strictly farther from `p`.
pub proof fn lemma_closest_idx_props(pal: Seq<Rgb>, space: ColourSpace, p: Rgb)
    requires
        pal.len() >= 1,
    ensures
        0 <= closest_idx(pal, space, p) < pal.len(),
        forall|j: int|
            0 <= j < pal.len() ==> space.spec_distance_sq(closest_spec(pal, space, p), p)
                <= space.spec_distance_sq(#[trigger] pal[j], p),
        forall|j: int|
            0 <= j < closest_idx(pal, space, p) ==> space.spec_distance_sq(#[trigger] pal[j], p)
                > space.spec_distance_sq(closest_spec(pal, space, p), p),
    decreases pal.len(),
{
    if pal.len() > 1 {
        let prefix = pal.drop_last();
        lemma_closest_idx_props(prefix, space, p);
        assert(forall|j: int| 0 <= j < pal.len() - 1 ==> pal[j] == prefix[j]);
    }
}

/// A palette colour is always its own nearest match: for any colour that
/// sits in the palette, `closest` returns exactly that colour.
pub proof fn lemma_palette_colour_closest(pal: Seq<Rgb>, space: ColourSpace, i: int)
    requires
        0 <= i < pal.len(),
    ensures
        closest_spec(pal, space, pal[i]) == pal[i],
{
    lemma_closest_idx_props(pal, space, pal[i]);
    let c = closest_spec(pal, space, pal[i]);
    lemma_distance_sq_zero_iff_eq(space, pal[i], pal[i]);
    lemma_distance_sq_zero_iff_eq(space, c, pal[i]);
}

/// On a single-colour palette, `closest` returns that colour whatever the
/// input pixel is.
pub proof fn lemma_single_colour_palette(pal: Seq<Rgb>, space: ColourSpace, p: Rgb)
    requires
        pal.len() == 1,
    ensures
        closest_spec(pal, space, p) == pal[0],
{
}

/// Tie-break determinism: when two entries are equidistant from the probe
/// pixel and every other entry is strictly farther, `closest` picks the one
/// with the lower index.
pub proof fn lemma_closest_tie_break(pal: Seq<Rgb>, space: ColourSpace, p: Rgb, i: int, j: int)
    requires
        0 <= i < j < pal.len(),
        space.spec_distance_sq(pal[i], p) == space.spec_distance_sq(pal[j], p),
        forall|k: int|
            0 <= k < pal.len() && k != i && k != j ==> space.spec_distance_sq(#[trigger] pal[k], p)
                > space.spec_distance_sq(pal[i], p),
    ensures
        closest_idx(pal, space, p) == i,
        closest_spec(pal, space, p) == pal[i],
{
    lemma_closest_idx_props(pal, space, p);
    let ci = closest_idx(pal, space, p);
    if ci != i && ci != j {
        assert(space.spec_distance_sq(pal[ci], p) <= space.spec_distance_sq(pal[i], p));
        assert(space.spec_distance_sq(pal[ci], p) > space.spec_distance_sq(pal[i], p));
    }
    if ci == j {
        assert(space.spec_distance_sq(pal[i], p) > space.spec_distance_sq(pal[ci], p));
    }
}

/// The first index of `pal` that holds exactly `p`, or `pal.len()` if none
/// does.
pub open spec fn find_first(pal: Seq<Rgb>, p: Rgb) -> int
    decreases pal.len(),
{
    if pal.len() == 0 {
        0
    } else if pal[0] == p {
        0
    } else {
        1 + find_first(pal.drop_first(), p)
    }
}

/// The index that [`Palette::to_idx`] reports for `p`: the first exact
/// match, or `0` when no entry matches.
pub open spec fn index_of_spec(pal: Seq<Rgb>, p: Rgb) -> int {
    if find_first(pal, p) < pal.len() {
        find_first(pal, p)
    } else {
        0
    }
}

/// `find_first` is determined by where the first exact match sits: if the
/// entries before `m` all differ from `p` and `m` is the length or a match,
/// then `find_first` is `m`.
proof fn lemma_find_first_is(pal: Seq<Rgb>, p: Rgb, m: int)
    requires
        0 <= m <= pal.len(),
        forall|k: int| 0 <= k < m ==> #[trigger] pal[k] != p,
        m == pal.len() || pal[m] == p,
    ensures
        find_first(pal, p) == m,
    decreases pal.len(),
{
    if pal.len() > 0 && m > 0 {
        assert(pal[0] != p);
        let rest = pal.drop_first();
        assert(forall|k: int| 0 <= k < m - 1 ==> rest[k] == pal[k + 1]);
        lemma_find_first_is(rest, p, m - 1);
    }
}

/// One channel of a saturation blend: the channel-wise weighted mean
/// `d * (1 - s) + s_ch * s` at the rational saturation `num / den`, rounded
/// to the nearest integer (halves away from zero).
pub open spec fn blend_channel(d: u8, s: u8, num: int, den: int) -> int
    recommends
        den > 0,
        0 <= num <= den,
{
    (2 * (d * (den - num) + s * num) + den) / (2 * den)
}

/// A saturation blend of two colours, channel by channel.
pub open spec fn blend_colour(d: Rgb, s: Rgb, num: int, den: int) -> Rgb {
    Rgb {
        r: blend_channel(d.r, s.r, num, den) as u8,
        g: blend_channel(d.g, s.g, num, den) as u8,
        b: blend_channel(d.b, s.b, num, den) as u8,
    }
}

/// A blended channel stays an 8-bit value.
pub proof fn lemma_blend_channel_bounds(d: u8, s: u8, num: int, den: int)
    requires
        den > 0,
        0 <= num <= den,
    ensures
        0 <= blend_channel(d, s, num, den) <= 255,
{
    let v = d * (den - num) + s * num;
    assert(0 <= v <= 255 * den) by (nonlinear_arith)
        requires
            den > 0,
            0 <= num <= den,
            0 <= d <= 255,
            0 <= s <= 255,
            v == d * (den - num) + s * num,
    ;
    let numer = 2 * v + den;
    assert(blend_channel(d, s, num, den) * (2 * den) <= numer
        < (blend_channel(d, s, num, den) + 1) * (2 * den) && blend_channel(d, s, num, den) >= 0)
        by (nonlinear_arith)
        requires
            den > 0,
            numer >= 0,
            blend_channel(d, s, num, den) == numer / (2 * den),
    ;
    assert(blend_channel(d, s, num, den) <= 255) by (nonlinear_arith)
        requires
            den > 0,
            numer <= 511 * den,
            blend_channel(d, s, num, den) * (2 * den) <= numer,
            blend_channel(d, s, num, den) >= 0,
    ;
}

/// Blending at saturation `0` gives back the desaturated colour; blending
/// at saturation `1` gives back the saturated colour.
pub proof fn lemma_blend_endpoints(d: Rgb, s: Rgb, den: int)
    requires
        den > 0,
    ensures
        blend_colour(d, s, 0, den) == d,
        blend_colour(d, s, den, den) == s,
{
    lemma_blend_channel_zero(d.r, s.r, den);
    lemma_blend_channel_zero(d.g, s.g, den);
    lemma_blend_channel_zero(d.b, s.b, den);
    lemma_blend_channel_one(d.r, s.r, den);
    lemma_blend_channel_one(d.g, s.g, den);
    lemma_blend_channel_one(d.b, s.b, den);
}

proof fn lemma_blend_channel_zero(d: u8, s: u8, den: int)
    requires
        den > 0,
    ensures
        blend_channel(d, s, 0, den) == d,
{
    let numer = 2 * (d * (den - 0) + s * 0) + den;
    assert(numer == (d as int) * (2 * den) + den) by (nonlinear_arith)
        requires
            numer == 2 * (d * (den - 0) + s * 0) + den,
    ;
    lemma_fundamental_div_mod_converse(numer, 2 * den, d as int, den);
}

proof fn lemma_blend_channel_one(d: u8, s: u8, den: int)
    requires
        den > 0,
    ensures
        blend_channel(d, s, den, den) == s,
{
    let numer = 2 * (d * (den - den) + s * den) + den;
    assert(numer == (s as int) * (2 * den) + den) by (nonlinear_arith)
        requires
            numer == 2 * (d * (den - den) + s * den) + den,
    ;
    lemma_fundamental_div_mod_converse(numer, 2 * den, s as int, den);
}

impl Palette {
    /// Builds a palette that owns the given list of colours, in order.
    /// Always succeeds; the palette may be empty.
    pub fn new_from(colours: Vec<Rgb>) -> (p: Palette)
        ensures
            p@ == colours@,
    {
        Palette { colours }
    }

    /// How many colours the palette holds.
    pub fn len(&self) -> (n: usize)
        ensures
            n == self@.len(),
    {
        self.colours.len()
    }

    /// The palette's colours, in order.
    pub fn get_colours(&self) -> (cs: &[Rgb])
        ensures
            cs@ == self@,
    {
        self.colours.as_slice()
    }

    /// Blends a desaturated and a saturated palette channel-wise at the
    /// rational saturation `num / den`, rounding each channel to the nearest
    /// 8-bit value. A saturation outside `[0, 1]` (including a non-positive
    /// denominator) is rejected with [`PaletteError::InvalidParameter`].
    /// If the two lists differ in length, the longer one is truncated to the
    /// shorter.
    pub fn from_blend(desat_palette: &[Rgb], sat_palette: &[Rgb], num: i32, den: i32) -> (r:
        Result<Palette, PaletteError>)
        ensures
            r is Ok <==> den > 0 && 0 <= num <= den,
            r is Err ==> r == Result::<Palette, PaletteError>::Err(PaletteError::InvalidParameter),
            r is Ok ==> {
                let blended = r.unwrap()@;
                &&& blended.len() == vstd::math::min(desat_palette@.len() as int, sat_palette@.len() as int)
                &&& forall|i: int|
                    0 <= i < blended.len() ==> #[trigger] blended[i] == blend_colour(
                        desat_palette@[i],
                        sat_palette@[i],
                        num as int,
                        den as int,
                    )
            },
    {
        if den <= 0 || num < 0 || num > den {
            return Err(PaletteError::InvalidParameter);
        }
        let n = if desat_palette.len() < sat_palette.len() {
            desat_palette.len()
        } else {
            sat_palette.len()
        };
        let mut colours: Vec<Rgb> = Vec::new();
        let mut i: usize = 0;
        while i < n
            invariant
                n == vstd::math::min(desat_palette@.len() as int, sat_palette@.len() as int),
                0 <= i <= n,
                den > 0,
                0 <= num <= den,
                colours@.len() == i,
                forall|k: int|
                    0 <= k < i ==> #[trigger] colours@[k] == blend_colour(
                        desat_palette@[k],
                        sat_palette@[k],
                        num as int,
                        den as int,
                    ),
            decreases n - i,
        {
            let d = desat_palette[i];
            let s = sat_palette[i];
            let c = Rgb {
                r: blend_channel_exec(d.r, s.r, num, den),
                g: blend_channel_exec(d.g, s.g, num, den),
                b: blend_channel_exec(d.b, s.b, num, den),
            };
            colours.push(c);
            i += 1;
        }
        Ok(Palette { colours })
    }

    /// The palette entry closest to `pixel` under the metric of `space`.
    /// Exact ties go to the entry with the lowest index: a linear
    /// left-to-right scan only moves on a strict improvement.
    pub fn closest_colour(&self, space: ColourSpace, pixel: &Rgb) -> (c: Rgb)
        requires
            self@.len() >= 1,
        ensures
            c == closest_spec(self@, space, *pixel),
    {
        let mut closest_colour_idx: usize = 0;
        let mut closest_dist: u32 = space.distance_sq(self.colours[0], *pixel);
        let mut i: usize = 1;
        while i < self.colours.len()
            invariant
                1 <= i <= self@.len(),
                closest_colour_idx < i,
                closest_colour_idx == closest_idx(self@.take(i as int), space, *pixel),
                closest_dist == space.spec_distance_sq(self@[closest_colour_idx as int], *pixel),
            decreases self@.len() - i,
        {
            let dist: u32 = space.distance_sq(self.colours[i], *pixel);
            proof {
                let pre = self@.take(i as int);
                let cur = self@.take(i + 1 as int);
                assert(cur.drop_last() =~= pre);
                assert(cur.last() == self@[i as int]);
            }
            if dist < closest_dist {
                closest_colour_idx = i;
                closest_dist = dist;
            }
            i += 1;
        }
        proof {
            assert(self@.take(self@.len() as int) =~= self@);
        }
        self.colours[closest_colour_idx]
    }

    /// The index of the first palette entry that equals `pixel` exactly, or
    /// `0` when no entry matches. Intentionally non-signaling: callers are
    /// expected to pass colours already known to be palette members.
    pub fn to_idx(&self, pixel: &Rgb) -> (idx: u8)
        requires
            self@.len() <= 256,
        ensures
            idx as int == index_of_spec(self@, *pixel),
    {
        let n = self.colours.len();
        let mut i: usize = 0;
        while i < n
            invariant
                n == self@.len() <= 256,
                0 <= i <= n,
                forall|k: int| 0 <= k < i ==> #[trigger] self@[k] != *pixel,
            decreases n - i,
        {
            if self.colours[i] == *pixel {
                proof {
                    lemma_find_first_is(self@, *pixel, i as int);
                }
                return i as u8;
            }
            i += 1;
        }
        proof {
            lemma_find_first_is(self@, *pixel, self@.len() as int);
        }
        0
    }
}

/// One blended channel, computed exactly over integers: the blend is a
/// rational with denominator `den`, so rounding it to the nearest integer
/// needs no wider value than a `u64`.
fn blend_channel_exec(d: u8, s: u8, num: i32, den: i32) -> (v: u8)
    requires
        den > 0,
        0 <= num <= den,
    ensures
        v as int == blend_channel(d, s, num as int, den as int),
{
    proof {
        lemma_blend_channel_bounds(d, s, num as int, den as int);
    }
    let dw: u64 = d as u64;
    let sw: u64 = s as u64;
    let numw: u64 = num as u64;
    let denw: u64 = den as u64;
    proof {
        assert(dw * (denw - numw) <= 255 * 0x8000_0000u64 && sw * numw <= 255 * 0x8000_0000u64
            && dw * (denw - numw) >= 0 && sw * numw >= 0) by (nonlinear_arith)
            requires
                0 <= dw <= 255 && 0 <= sw <= 255,
                0 <= numw <= denw,
                0 < denw <= 0x8000_0000u64,
        ;
    }
    let v: u64 = dw * (denw - numw) + sw * numw;
    proof {
        assert(v == d * (den - num) + s * num);
    }
    let q: u64 = (2 * v + denw) / (2 * denw);
    q as u8
}

} // verus!
