//! Packing a quantised image into 4-bit-per-pixel bytes.

use vstd::prelude::*;
use crate::colour::Rgb;
use crate::error::PaletteError;
use crate::image_buf::ImageBuf;
use crate::palette::Palette;
use crate::palette::find_first;
use crate::palette::index_of_spec;

verus! {

/// `index_of_spec` always names a valid index on a non-empty palette, and
/// `0` on an empty one.
pub proof fn lemma_index_of_spec_bounds(pal: Seq<Rgb>, p: Rgb)
    ensures
        0 <= index_of_spec(pal, p),
        pal.len() >= 1 ==> index_of_spec(pal, p) < pal.len(),
        pal.len() == 0 ==> index_of_spec(pal, p) == 0,
{
    lemma_find_first_nonneg(pal, p);
}

proof fn lemma_find_first_nonneg(pal: Seq<Rgb>, p: Rgb)
    ensures
        find_first(pal, p) >= 0,
    decreases pal.len(),
{
    if pal.len() > 0 && pal[0] != p {
        lemma_find_first_nonneg(pal.drop_first(), p);
    }
}

/// The packed bytes of an image over a palette: pixels are taken two at a
/// time in memory order; each byte holds the first pixel's palette index in
/// its high nibble and the second's in its low nibble. An odd trailing
/// pixel is padded with index `0` in the low nibble.
pub open spec fn pack_spec(pal: Seq<Rgb>, pixels: Seq<Rgb>) -> Seq<u8> {
    Seq::new(
        ((pixels.len() + 1) / 2) as nat,
        |k: int|
            (index_of_spec(pal, pixels[2 * k]) * 16 + if 2 * k + 1 < pixels.len() {
                index_of_spec(pal, pixels[2 * k + 1])
            } else {
                0
            }) as u8,
    )
}

/// Encodes an image into 4-bit-per-pixel packed bytes using the palette's
/// index lookup. A palette with more than 16 colours cannot be indexed by
/// a nibble and is rejected with [`PaletteError::InvalidParameter`] before
/// any bytes are produced.
pub fn image_to_bytes(buf: &ImageBuf, palette: &Palette) -> (r: Result<Vec<u8>, PaletteError>)
    ensures
        r is Ok <==> palette@.len() <= 16,
        r is Err ==> r == Result::<Vec<u8>, PaletteError>::Err(PaletteError::InvalidParameter),
        r is Ok ==> r.unwrap()@ == pack_spec(palette@, buf@),
{
    if palette.len() > 16 {
        return Err(PaletteError::InvalidParameter);
    }
    let n = buf.pixel_count();
    let nb = n / 2 + n % 2;
    proof {
        assert(nb as int == (n as int + 1) / 2);
    }
    let mut res: Vec<u8> = Vec::new();
    let mut k: usize = 0;
    while k < nb
        invariant
            n == buf@.len(),
            nb as int == (n as int + 1) / 2,
            nb <= n,
            palette@.len() <= 16,
            0 <= k <= nb,
            res@ == pack_spec(palette@, buf@).take(k as int),
        decreases nb - k,
    {
        let i = 2 * k;
        let p0 = buf.get_at(i);
        let hi = palette.to_idx(&p0);
        let lo = if i + 1 < n {
            let p1 = buf.get_at(i + 1);
            palette.to_idx(&p1)
        } else {
            0
        };
        proof {
            lemma_index_of_spec_bounds(palette@, buf@[i as int]);
            if i + 1 < n {
                lemma_index_of_spec_bounds(palette@, buf@[i as int + 1]);
            }
        }
        res.push(hi * 16 + lo);
        proof {
            assert(res@ =~= pack_spec(palette@, buf@).take(k as int + 1));
        }
        k += 1;
    }
    proof {
        assert(res@ =~= pack_spec(palette@, buf@));
    }
    Ok(res)
}

} // verus!
