//! Quantisation and Floyd-Steinberg error diffusion over an image buffer.
//!
//! Pixels are visited in raster order: each row top to bottom, each column
//! left to right. The quantisation step reads the current, error-adjusted
//! value of the pixel (the standard Floyd-Steinberg policy), so diffused
//! error feeds the later quantisation of the pixels that received it.
//!
//! The diffusion weights are sixteenths, so every diffusion is a rational
//! with denominator 16; rounding it to the nearest integer (halves away
//! from zero) is therefore computed exactly over integers.

use vstd::prelude::*;
use vstd::arithmetic::div_mod::lemma_fundamental_div_mod_converse;
use crate::colour::Rgb;
use crate::image_buf::ImageBuf;
use crate::image_buf::lemma_row_major_index;
use crate::palette::Palette;
use crate::palette::closest_idx;
use crate::palette::closest_spec;
use crate::palette::lemma_closest_idx_props;
use crate::palette::lemma_palette_colour_closest;
use crate::space::ColourSpace;

verus! {

/// Rounds the rational `n / 16` to the nearest integer, halves away from
/// zero, then clamps the result to `[0, 255]`.
pub open spec fn clamp_round_16(n: int) -> int {
    let r = if n >= 0 {
        (n + 8) / 16
    } else {
        0 - ((8 - n) / 16)
    };
    if r < 0 {
        0
    } else if r > 255 {
        255
    } else {
        r
    }
}

/// One channel of a neighbour after diffusion: the scaled error `err * k / 16`
/// is added to the channel's current value, rounded to nearest and clamped.
pub open spec fn diffuse_channel(v: u8, err: int, k: int) -> int {
    clamp_round_16(16 * v + err * k)
}

/// A neighbour after receiving the error `(er, eg, eb)` at weight `k / 16`.
pub open spec fn diffuse_colour(c: Rgb, er: int, eg: int, eb: int, k: int) -> Rgb {
    Rgb {
        r: diffuse_channel(c.r, er, k) as u8,
        g: diffuse_channel(c.g, eg, k) as u8,
        b: diffuse_channel(c.b, eb, k) as u8,
    }
}

/// One step of the raster scan at pixel `(x, y)`: quantise the current
/// value, and if the pixel is strictly interior with respect to error
/// propagation (not in the first or last column and not in the last row),
/// diffuse the quantisation error into the four forward neighbours at
/// weights 7/16, 3/16, 5/16 and 1/16.
pub open spec fn fs_step(
    buf: Seq<Rgb>,
    pal: Seq<Rgb>,
    space: ColourSpace,
    w: int,
    h: int,
    x: int,
    y: int,
) -> Seq<Rgb>
    recommends
        buf.len() == w * h,
        0 <= x < w,
        0 <= y < h,
{
    let i = y * w + x;
    let old_px = buf[i];
    let q = closest_spec(pal, space, old_px);
    let b1 = buf.update(i, q);
    if 0 < x && x < w - 1 && y < h - 1 {
        let er = old_px.r - q.r;
        let eg = old_px.g - q.g;
        let eb = old_px.b - q.b;
        let b2 = b1.update(i + 1, diffuse_colour(b1[i + 1], er, eg, eb, 7));
        let b3 = b2.update(i + w - 1, diffuse_colour(b2[i + w - 1], er, eg, eb, 3));
        let b4 = b3.update(i + w, diffuse_colour(b3[i + w], er, eg, eb, 5));
        b4.update(i + w + 1, diffuse_colour(b4[i + w + 1], er, eg, eb, 1))
    } else {
        b1
    }
}

/// The buffer after the first `n` pixels of the raster scan have been
/// visited.
pub open spec fn fs_upto(
    input: Seq<Rgb>,
    pal: Seq<Rgb>,
    space: ColourSpace,
    w: int,
    h: int,
    n: int,
) -> Seq<Rgb>
    decreases n,
{
    if n <= 0 {
        input
    } else {
        fs_step(fs_upto(input, pal, space, w, h, n - 1), pal, space, w, h, (n - 1) % w, (n - 1) / w)
    }
}

/// The whole dithered image: every pixel of a `w * h` buffer visited in
/// raster order.
pub open spec fn dither_spec(
    input: Seq<Rgb>,
    pal: Seq<Rgb>,
    space: ColourSpace,
    w: int,
    h: int,
) -> Seq<Rgb> {
    fs_upto(input, pal, space, w, h, w * h)
}

/// Plain quantisation: every pixel replaced by its closest palette entry,
/// independently.
pub open spec fn quantise_spec(input: Seq<Rgb>, pal: Seq<Rgb>, space: ColourSpace) -> Seq<Rgb> {
    Seq::new(input.len(), |i: int| closest_spec(pal, space, input[i]))
}

/// Quantises an image in place: replaces every pixel with the closest
/// palette entry in the given colour space. No pixel influences another.
pub fn quantise_image(buf: &mut ImageBuf, palette: &Palette, space: ColourSpace)
    requires
        old(buf).wf(),
        palette@.len() >= 1,
    ensures
        final(buf).wf(),
        final(buf).spec_width() == old(buf).spec_width(),
        final(buf).spec_height() == old(buf).spec_height(),
        final(buf)@ == quantise_spec(old(buf)@, palette@, space),
{
    let ghost input = buf@;
    let n = buf.pixel_count();
    let mut i: usize = 0;
    while i < n
        invariant
            buf.wf(),
            buf.spec_width() == old(buf).spec_width(),
            buf.spec_height() == old(buf).spec_height(),
            buf@.len() == n,
            input == old(buf)@,
            palette@.len() >= 1,
            0 <= i <= n,
            forall|k: int| 0 <= k < i ==> buf@[k] == closest_spec(palette@, space, input[k]),
            forall|k: int| i <= k < n ==> buf@[k] == input[k],
        decreases n - i,
    {
        let c = buf.get_at(i);
        let q = palette.closest_colour(space, &c);
        buf.set_at(i, q);
        i += 1;
    }
    proof {
        assert(buf@ =~= quantise_spec(input, palette@, space));
    }
}

/// Quantises an image with Floyd-Steinberg error diffusion, returning a new
/// buffer; the input is untouched. Pixels are visited in raster order, each
/// quantised from its current (error-adjusted) value; the error of each
/// strictly interior pixel is diffused into its four forward neighbours.
pub fn quantise_and_dither_image(buf: &ImageBuf, palette: &Palette, space: ColourSpace) -> (out:
    ImageBuf)
    requires
        buf.wf(),
        palette@.len() >= 1,
    ensures
        out.wf(),
        out.spec_width() == buf.spec_width(),
        out.spec_height() == buf.spec_height(),
        out@ == dither_spec(
            buf@,
            palette@,
            space,
            buf.spec_width() as int,
            buf.spec_height() as int,
        ),
{
    let ghost input = buf@;
    let w = buf.width();
    let h = buf.height();
    let ghost wi = w as int;
    let ghost hi = h as int;
    let mut out = buf.duplicate();
    let total = out.pixel_count();
    proof {
        assert(total as int == wi * hi);
    }
    let mut y: usize = 0;
    while y < h
        invariant
            out.wf(),
            out.spec_width() == w,
            out.spec_height() == h,
            buf.wf(),
            buf.spec_width() == w,
            buf.spec_height() == h,
            input == buf@,
            palette@.len() >= 1,
            wi == w as int,
            hi == h as int,
            total as int == wi * hi,
            out@.len() == wi * hi,
            0 <= y <= h,
            out@ == fs_upto(input, palette@, space, wi, hi, y * wi),
        decreases h - y,
    {
        let mut x: usize = 0;
        while x < w
            invariant
                out.wf(),
                out.spec_width() == w,
                out.spec_height() == h,
                buf.wf(),
                buf.spec_width() == w,
                buf.spec_height() == h,
                input == buf@,
                palette@.len() >= 1,
                wi == w as int,
                hi == h as int,
                total as int == wi * hi,
                out@.len() == wi * hi,
                0 <= y < h,
                0 <= x <= w,
                out@ == fs_upto(input, palette@, space, wi, hi, y * wi + x),
            decreases w - x,
        {
            proof {
                lemma_row_major_index(wi, hi, x as int, y as int);
            }
            let ghost n = y * wi + x;
            let ghost prev = out@;
            let i: usize = y * w + x;
            let old_px = out.get_at(i);
            let q = palette.closest_colour(space, &old_px);
            out.set_at(i, q);
            let ghost b1 = prev.update(n, q);
            if x > 0 && x + 1 < w && y + 1 < h {
                proof {
                    lemma_row_major_index(wi, hi, x as int + 1, y as int + 1);
                    assert((y as int + 1) * wi + (x as int + 1) == n + wi + 1) by (nonlinear_arith)
                        requires
                            n == y as int * wi + x as int,
                    ;
                    assert(n + wi + 1 < wi * hi);
                }
                let er: i32 = old_px.r as i32 - q.r as i32;
                let eg: i32 = old_px.g as i32 - q.g as i32;
                let eb: i32 = old_px.b as i32 - q.b as i32;
                let ghost eri = er as int;
                let ghost egi = eg as int;
                let ghost ebi = eb as int;
                let p1 = out.get_at(i + 1);
                out.set_at(i + 1, diffuse_colour_exec(p1, er, eg, eb, 7));
                let ghost b2 = b1.update(n + 1, diffuse_colour(b1[n + 1], eri, egi, ebi, 7));
                proof {
                    assert(out@ == b2);
                }
                let p2 = out.get_at(i + w - 1);
                out.set_at(i + w - 1, diffuse_colour_exec(p2, er, eg, eb, 3));
                let ghost b3 = b2.update(
                    n + wi - 1,
                    diffuse_colour(b2[n + wi - 1], eri, egi, ebi, 3),
                );
                proof {
                    assert(out@ == b3);
                }
                let p3 = out.get_at(i + w);
                out.set_at(i + w, diffuse_colour_exec(p3, er, eg, eb, 5));
                let ghost b4 = b3.update(n + wi, diffuse_colour(b3[n + wi], eri, egi, ebi, 5));
                proof {
                    assert(out@ == b4);
                }
                let p4 = out.get_at(i + w + 1);
                out.set_at(i + w + 1, diffuse_colour_exec(p4, er, eg, eb, 1));
                let ghost b5 = b4.update(
                    n + wi + 1,
                    diffuse_colour(b4[n + wi + 1], eri, egi, ebi, 1),
                );
                proof {
                    assert(out@ == b5);
                    assert(out@ == fs_step(prev, palette@, space, wi, hi, x as int, y as int));
                }
            } else {
                proof {
                    assert(out@ == fs_step(prev, palette@, space, wi, hi, x as int, y as int));
                }
            }
            proof {
                lemma_fundamental_div_mod_converse(n, wi, y as int, x as int);
                assert(out@ == fs_upto(input, palette@, space, wi, hi, n + 1));
            }
            x += 1;
        }
        proof {
            assert((y as int + 1) * wi == y as int * wi + wi) by (nonlinear_arith);
        }
        y += 1;
    }
    proof {
        assert(h as int * wi == wi * hi) by (nonlinear_arith)
            requires
                hi == h as int,
        ;
    }
    out
}

/// The raster coordinates of position `n` in a `w`-column grid: column
/// `n % w` and row `n / w` are valid, and name position `n` again.
proof fn lemma_raster_coords(w: int, h: int, n: int)
    requires
        w > 0,
        0 <= n < w * h,
    ensures
        0 <= n % w < w,
        0 <= n / w < h,
        (n / w) * w + (n % w) == n,
{
    vstd::arithmetic::div_mod::lemma_mod_division_less_than_divisor(n, w);
    vstd::arithmetic::div_mod::lemma_multiply_divide_lt(n, w, h);
    vstd::arithmetic::div_mod::lemma_div_pos_is_pos(n, w);
    vstd::arithmetic::div_mod::lemma_fundamental_div_mod(n, w);
    assert((n / w) * w == w * (n / w)) by (nonlinear_arith);
}

/// Quantising an image whose pixels are all exact palette colours leaves
/// it unchanged.
pub proof fn lemma_quantise_fixed_point(input: Seq<Rgb>, pal: Seq<Rgb>, space: ColourSpace)
    requires
        forall|i: int| 0 <= i < input.len() ==> pal.contains(#[trigger] input[i]),
    ensures
        quantise_spec(input, pal, space) == input,
{
    assert forall|i: int| 0 <= i < input.len() implies closest_spec(pal, space, input[i])
        == input[i] by {
        let j = choose|j: int| 0 <= j < pal.len() && pal[j] == input[i];
        lemma_palette_colour_closest(pal, space, j);
    }
    assert(quantise_spec(input, pal, space) =~= input);
}

/// After `n` raster steps over a grid with no strictly interior pixel
/// (fewer than three columns or fewer than two rows), the visited pixels
/// are plainly quantised and the rest are untouched.
proof fn lemma_fs_upto_no_interior(
    input: Seq<Rgb>,
    pal: Seq<Rgb>,
    space: ColourSpace,
    w: int,
    h: int,
    n: int,
)
    requires
        input.len() == w * h,
        w >= 0,
        h >= 0,
        w < 3 || h < 2,
        0 <= n <= w * h,
    ensures
        fs_upto(input, pal, space, w, h, n) =~= Seq::new(
            input.len(),
            |k: int| if k < n { closest_spec(pal, space, input[k]) } else { input[k] },
        ),
    decreases n,
{
    if n > 0 {
        lemma_fs_upto_no_interior(input, pal, space, w, h, n - 1);
        assert(w > 0) by (nonlinear_arith)
            requires
                w * h > 0,
                w >= 0,
        ;
        lemma_raster_coords(w, h, n - 1);
        let x = (n - 1) % w;
        let y = (n - 1) / w;
        if 0 < x && x < w - 1 && y < h - 1 {
            assert(false);
        }
    }
}

/// Without a strictly interior pixel - fewer than three columns or fewer
/// than two rows - no error is ever diffused: dithering agrees with plain
/// quantisation at every pixel, in particular at every edge pixel.
pub proof fn lemma_dither_no_interior_is_quantise(
    input: Seq<Rgb>,
    pal: Seq<Rgb>,
    space: ColourSpace,
    w: int,
    h: int,
)
    requires
        input.len() == w * h,
        w >= 0,
        h >= 0,
        w < 3 || h < 2,
    ensures
        dither_spec(input, pal, space, w, h) == quantise_spec(input, pal, space),
{
    lemma_fs_upto_no_interior(input, pal, space, w, h, w * h);
    assert(dither_spec(input, pal, space, w, h) =~= quantise_spec(input, pal, space));
}

/// For a strictly interior pixel `(x, y)`, the pixel's own position and
/// the positions of its four forward neighbours are all valid, and the
/// neighbours sit strictly after the pixel itself.
proof fn lemma_interior_indices(w: int, h: int, x: int, y: int)
    requires
        0 < x,
        x < w - 1,
        0 <= y,
        y < h - 1,
    ensures
        0 <= y * w + x,
        y * w + x + w + 1 < w * h,
        y * w + x + w - 1 == (y + 1) * w + (x - 1),
        y * w + x + w == (y + 1) * w + x,
        y * w + x + w + 1 == (y + 1) * w + (x + 1),
{
    lemma_row_major_index(w, h, x, y);
    lemma_row_major_index(w, h, x + 1, y + 1);
    assert((y + 1) * w == y * w + w) by (nonlinear_arith);
}

/// An edge pixel never emits diffused error: a raster step in the first
/// column, the last column or the last row only quantises the pixel
/// itself and touches nothing else.
pub proof fn lemma_edge_pixel_never_emits(
    buf: Seq<Rgb>,
    pal: Seq<Rgb>,
    space: ColourSpace,
    w: int,
    h: int,
    x: int,
    y: int,
)
    requires
        0 <= x < w,
        0 <= y < h,
        x == 0 || x == w - 1 || y == h - 1,
    ensures
        fs_step(buf, pal, space, w, h, x, y) == buf.update(
            y * w + x,
            closest_spec(pal, space, buf[y * w + x]),
        ),
{
}

/// A raster step leaves the visited pixel quantised: whatever diffusion
/// follows goes to later positions, never back to the pixel itself.
proof fn lemma_fs_step_quantises(
    buf: Seq<Rgb>,
    pal: Seq<Rgb>,
    space: ColourSpace,
    w: int,
    h: int,
    x: int,
    y: int,
)
    requires
        buf.len() == w * h,
        0 <= x < w,
        0 <= y < h,
    ensures
        fs_step(buf, pal, space, w, h, x, y)[y * w + x] == closest_spec(
            pal,
            space,
            buf[y * w + x],
        ),
{
    lemma_row_major_index(w, h, x, y);
    if 0 < x && x < w - 1 && y < h - 1 {
        lemma_interior_indices(w, h, x, y);
    }
}

/// After `n` raster steps every visited pixel holds a palette entry.
proof fn lemma_fs_upto_members(
    input: Seq<Rgb>,
    pal: Seq<Rgb>,
    space: ColourSpace,
    w: int,
    h: int,
    n: int,
)
    requires
        input.len() == w * h,
        w >= 1,
        pal.len() >= 1,
        0 <= n <= w * h,
    ensures
        forall|k: int|
            0 <= k < n ==> pal.contains(#[trigger] fs_upto(input, pal, space, w, h, n)[k]),
    decreases n,
{
    if n > 0 {
        lemma_fs_upto_members(input, pal, space, w, h, n - 1);
        lemma_fs_upto_len(input, pal, space, w, h, n - 1);
        lemma_raster_coords(w, h, n - 1);
        let prev = fs_upto(input, pal, space, w, h, n - 1);
        let cur = fs_upto(input, pal, space, w, h, n);
        let x = (n - 1) % w;
        let y = (n - 1) / w;
        lemma_fs_step_quantises(prev, pal, space, w, h, x, y);
        lemma_closest_idx_props(pal, space, prev[n - 1]);
        assert(pal[closest_idx(pal, space, prev[n - 1])] == closest_spec(pal, space, prev[n - 1]));
        assert(pal.contains(closest_spec(pal, space, prev[n - 1])));
        assert forall|k: int| 0 <= k < n - 1 implies cur[k] == prev[k] by {
            lemma_fs_step_untouched(prev, pal, space, w, h, x, y, k);
        }
    }
}

/// Every pixel of the dithered image is an entry of the palette.
pub proof fn lemma_dither_output_in_palette(
    input: Seq<Rgb>,
    pal: Seq<Rgb>,
    space: ColourSpace,
    w: int,
    h: int,
)
    requires
        input.len() == w * h,
        w >= 0,
        h >= 0,
        pal.len() >= 1,
    ensures
        forall|k: int|
            0 <= k < w * h ==> pal.contains(
                #[trigger] dither_spec(input, pal, space, w, h)[k],
            ),
{
    if w >= 1 {
        assert(w * h >= 0) by (nonlinear_arith)
            requires
                w >= 1,
                h >= 0,
        ;
        lemma_fs_upto_members(input, pal, space, w, h, w * h);
    } else {
        assert(w * h == 0);
    }
}

/// Every pixel of a plainly quantised image is an entry of the palette.
pub proof fn lemma_quantise_output_in_palette(input: Seq<Rgb>, pal: Seq<Rgb>, space: ColourSpace)
    requires
        pal.len() >= 1,
    ensures
        forall|k: int|
            0 <= k < input.len() ==> pal.contains(
                #[trigger] quantise_spec(input, pal, space)[k],
            ),
{
    assert forall|k: int| 0 <= k < input.len() implies pal.contains(
        quantise_spec(input, pal, space)[k],
    ) by {
        lemma_closest_idx_props(pal, space, input[k]);
        assert(pal[closest_idx(pal, space, input[k])] == closest_spec(pal, space, input[k]));
    }
}

/// A raster step at `(x, y)` only writes the pixel itself and, at most,
/// its four forward neighbours: every position outside those five is left
/// as it was.
proof fn lemma_fs_step_untouched(
    buf: Seq<Rgb>,
    pal: Seq<Rgb>,
    space: ColourSpace,
    w: int,
    h: int,
    x: int,
    y: int,
    j: int,
)
    requires
        buf.len() == w * h,
        0 <= x < w,
        0 <= y < h,
        0 <= j < buf.len(),
        j != y * w + x,
        j != y * w + x + 1,
        j != y * w + x + w - 1,
        j != y * w + x + w,
        j != y * w + x + w + 1,
    ensures
        fs_step(buf, pal, space, w, h, x, y)[j] == buf[j],
{
    lemma_row_major_index(w, h, x, y);
    if 0 < x && x < w - 1 && y < h - 1 {
        lemma_interior_indices(w, h, x, y);
    }
}

/// After at least one raster step, the top-left pixel holds its plain
/// quantisation: no later step ever diffuses error into position `0`.
proof fn lemma_fs_upto_corner(
    input: Seq<Rgb>,
    pal: Seq<Rgb>,
    space: ColourSpace,
    w: int,
    h: int,
    n: int,
)
    requires
        input.len() == w * h,
        w >= 1,
        h >= 1,
        1 <= n <= w * h,
    ensures
        fs_upto(input, pal, space, w, h, n)[0] == closest_spec(pal, space, input[0]),
    decreases n,
{
    lemma_raster_coords(w, h, n - 1);
    let x = (n - 1) % w;
    let y = (n - 1) / w;
    let prev = fs_upto(input, pal, space, w, h, n - 1);
    assert(prev.len() == w * h) by {
        lemma_fs_upto_len(input, pal, space, w, h, n - 1);
    }
    if n == 1 {
        assert(x == 0 && y == 0);
        assert(fs_upto(input, pal, space, w, h, n)[0] == closest_spec(pal, space, prev[0]));
    } else {
        lemma_fs_upto_corner(input, pal, space, w, h, n - 1);
        assert(y * w + x == n - 1 >= 1);
        lemma_fs_step_untouched(prev, pal, space, w, h, x, y, 0);
    }
}

/// A raster scan never changes the buffer's length.
proof fn lemma_fs_upto_len(
    input: Seq<Rgb>,
    pal: Seq<Rgb>,
    space: ColourSpace,
    w: int,
    h: int,
    n: int,
)
    requires
        input.len() == w * h,
        w >= 1,
        0 <= n <= w * h,
    ensures
        fs_upto(input, pal, space, w, h, n).len() == w * h,
    decreases n,
{
    if n > 0 {
        lemma_fs_upto_len(input, pal, space, w, h, n - 1);
        lemma_raster_coords(w, h, n - 1);
        let x = (n - 1) % w;
        let y = (n - 1) / w;
        if 0 < x && x < w - 1 && y < h - 1 {
            lemma_interior_indices(w, h, x, y);
        }
    }
}

/// The top-left corner pixel never receives diffused error: in the
/// dithered image it equals its plain quantisation, whatever the image
/// size.
pub proof fn lemma_dither_corner_pixel(
    input: Seq<Rgb>,
    pal: Seq<Rgb>,
    space: ColourSpace,
    w: int,
    h: int,
)
    requires
        input.len() == w * h,
        w >= 1,
        h >= 1,
    ensures
        dither_spec(input, pal, space, w, h)[0] == closest_spec(pal, space, input[0]),
{
    assert(w * h >= 1) by (nonlinear_arith)
        requires
            w >= 1,
            h >= 1,
    ;
    lemma_fs_upto_corner(input, pal, space, w, h, w * h);
}

/// One neighbour's three channels after diffusion, computed exactly over
/// integers.
fn diffuse_colour_exec(c: Rgb, er: i32, eg: i32, eb: i32, k: i32) -> (r: Rgb)
    requires
        -255 <= er <= 255,
        -255 <= eg <= 255,
        -255 <= eb <= 255,
        0 <= k <= 7,
    ensures
        r == diffuse_colour(c, er as int, eg as int, eb as int, k as int),
{
    Rgb {
        r: diffuse_channel_exec(c.r, er, k),
        g: diffuse_channel_exec(c.g, eg, k),
        b: diffuse_channel_exec(c.b, eb, k),
    }
}

/// One channel after diffusion: `v + err * k / 16`, rounded to the nearest
/// integer with halves away from zero, clamped to `[0, 255]`.
fn diffuse_channel_exec(v: u8, err: i32, k: i32) -> (r: u8)
    requires
        -255 <= err <= 255,
        0 <= k <= 7,
    ensures
        r as int == diffuse_channel(v, err as int, k as int),
{
    proof {
        assert(-1785 <= err * k <= 1785) by (nonlinear_arith)
            requires
                -255 <= err <= 255,
                0 <= k <= 7,
        ;
    }
    let n: i32 = 16 * (v as i32) + err * k;
    let q: i32 = if n >= 0 {
        (n + 8) / 16
    } else {
        -((8 - n) / 16)
    };
    if q < 0 {
        0
    } else if q > 255 {
        255
    } else {
        q as u8
    }
}

} // verus!

