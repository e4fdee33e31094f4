//! Palette-based image quantisation with Floyd-Steinberg error diffusion.
//!
//! A [`Palette`] is an ordered list of RGB colours. Images are reduced to a
//! palette either by plain quantisation (each pixel replaced by its nearest
//! palette entry under a [`ColourSpace`] metric) or by quantisation with
//! error diffusion, and a quantised image can be packed into a compact
//! 4-bit-per-pixel byte form.

mod colour;
mod dither;
mod error;
mod hex;
mod image_buf;
mod pack;
mod palette;
mod scheme;
mod space;

pub use colour::Rgb;
pub use dither::clamp_round_16;
pub use dither::diffuse_channel;
pub use dither::diffuse_colour;
pub use dither::dither_spec;
pub use dither::fs_step;
pub use dither::fs_upto;
pub use dither::lemma_dither_corner_pixel;
pub use dither::lemma_dither_no_interior_is_quantise;
pub use dither::lemma_dither_output_in_palette;
pub use dither::lemma_edge_pixel_never_emits;
pub use dither::lemma_quantise_fixed_point;
pub use dither::lemma_quantise_output_in_palette;
pub use dither::quantise_and_dither_image;
pub use dither::quantise_image;
pub use dither::quantise_spec;
pub use hex::colour_hex_bytes;
pub use hex::colour_of_line;
pub use hex::hex_digit_byte;
pub use hex::hex_text_bytes;
pub use hex::hex_text_chars;
pub use hex::hex_val;
pub use hex::is_colour_line;
pub use hex::is_hex_digit;
pub use hex::is_space;
pub use hex::lemma_hex_round_trip;
pub use hex::parse_hex_spec;
pub use hex::parse_lines;
pub use hex::split_lines;
pub use hex::trim_spec;
pub use image_buf::ImageBuf;
pub use image_buf::lemma_row_major_index;
pub use pack::image_to_bytes;
pub use pack::lemma_index_of_spec_bounds;
pub use pack::pack_spec;
pub use error::PaletteError;
pub use palette::Palette;
pub use palette::blend_channel;
pub use palette::blend_colour;
pub use palette::closest_idx;
pub use palette::closest_spec;
pub use palette::find_first;
pub use palette::index_of_spec;
pub use palette::lemma_blend_channel_bounds;
pub use palette::lemma_blend_endpoints;
pub use palette::lemma_closest_idx_props;
pub use palette::lemma_closest_tie_break;
pub use palette::lemma_palette_colour_closest;
pub use palette::lemma_single_colour_palette;
pub use scheme::base_line_colour;
pub use scheme::is_base_line;
pub use scheme::parse_scheme_spec;
pub use space::ColourSpace;
pub use space::EuclideanDistance;
pub use space::lemma_distance_sq_symmetric;
pub use space::lemma_distance_sq_zero_iff_eq;
pub use space::rgb_distance_sq;
