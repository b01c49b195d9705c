//! BC3 (DXT5) encoder: a BC4 block for the opacity, then two 16-bit
//! endpoint colours and sixteen 2-bit palette indices.

use crate::bc1::{
    endpoint_max, endpoint_min, is_uniform, lemma_nearest_is_first, lemma_uniform_endpoints,
    ramp_palette,
};
use crate::bc4::{bc4_block, encode_block_bc4, GreyScaleBlock8};
use crate::color::{min_max_luminance, quantize_565, Channels, ColorSource, Pixel};
use crate::utils::{
    blocks_of, color_indices, color_table_of, colors, encode_color_table_bc1_bc3, encode_image,
    encode_image_conv_u8, encodes, fetch_block, le_bytes_u16, le_bytes_u32, lemma_encodes_one,
    lemma_color_table_uniform, lemma_tiles_fit, push_u16, push_u32, stream, tile, EncodedBlock,
};
use vstd::prelude::*;

verus! {

/// The two endpoints of a block with their 16-bit forms.
struct MinMax<T: ColorSource> {
    min: T,
    min_565: u16,
    max: T,
    max_565: u16,
}

/// Picks the endpoints of a block: its darkest and its brightest pixel,
/// changing places where the brightest one does not quantize to the
/// greater 16-bit value.
fn min_max_colors<T: ColorSource>(block: &[T; 16]) -> (ends: MinMax<T>)
    ensures
        ends.max == endpoint_max(block@),
        ends.min == endpoint_min(block@),
        ends.max_565 == quantize_565(ends.max@.rgb),
        ends.min_565 == quantize_565(ends.min@.rgb),
        ends.max_565 >= ends.min_565,
{
    let (min, max) = min_max_luminance(block);

    let min_565 = min.to_565();
    let max_565 = max.to_565();

    if max_565 > min_565 {
        MinMax { min, min_565, max, max_565 }
    } else {
        MinMax { min_565: max_565, max_565: min_565, min: max, max: min }
    }
}

/// An encoded BC3 block.
#[derive(Debug, Copy, Clone, Eq, PartialEq)]
pub struct Block16 {
    pub alpha_block: GreyScaleBlock8,
    pub max: u16,
    pub min: u16,
    pub color_table: u32,
}

impl EncodedBlock for Block16 {
    /// The bytes of the opacity block, then `max`, `min` and `color_table`,
    /// each from its lowest byte on.
    open spec fn bytes(&self) -> Seq<u8> {
        self.alpha_block.bytes() + le_bytes_u16(self.max) + le_bytes_u16(self.min) + le_bytes_u32(
            self.color_table,
        )
    }

    open spec fn size() -> nat {
        16
    }

    proof fn lemma_size(&self) {
        self.alpha_block.lemma_size();
    }

    fn byte_len() -> (n: usize) {
        16
    }

    fn write_to(&self, out: &mut Vec<u8>) {
        self.alpha_block.write_to(out);
        push_u16(out, self.max);
        push_u16(out, self.min);
        push_u32(out, self.color_table);
        assert(out@ =~= old(out)@ + self.bytes());
    }
}

/// The opacity of each pixel of a block.
pub open spec fn opacities<T: Pixel>(block: Seq<T>) -> Seq<u8> {
    Seq::new(block.len(), |k: int| block[k]@.a)
}

/// The BC3 encoding of a block of sixteen pixels. The opacities are
/// encoded as a BC4 block. The colours are matched against the palette of
/// four colours between the endpoints, whatever the opacity of a pixel.
pub open spec fn bc3_block<T: ColorSource>(block: Seq<T>) -> Block16 {
    let max = endpoint_max(block);
    let min = endpoint_min(block);
    Block16 {
        alpha_block: bc4_block(opacities(block)),
        max: quantize_565(max@.rgb),
        min: quantize_565(min@.rgb),
        color_table: color_table_of(
            color_indices(block, ramp_palette(max@.rgb, min@.rgb), false),
        ) as u32,
    }
}

/// Reads the opacity of each pixel of a block.
fn alpha_channel<T: ColorSource>(block: &[T; 16]) -> (samples: [u8; 16])
    ensures
        samples@ == opacities(block@),
{
    let mut samples = [0u8; 16];
    for k in 0..16
        invariant
            forall|n: int| 0 <= n < k ==> #[trigger] samples[n] == block[n]@.a,
    {
        samples[k] = block[k].alpha();
    }
    assert(samples@ =~= opacities(block@));
    samples
}

/// Encodes a block of sixteen pixels, given row by row.
pub fn encode_block_bc3<T: ColorSource>(block: [T; 16]) -> (encoded: Block16)
    ensures
        encoded == bc3_block(block@),
        encoded.max >= encoded.min,
        encoded.alpha_block.max_alpha >= encoded.alpha_block.min_alpha,
{
    let alpha_block = encode_block_bc4(&alpha_channel(&block));

    let MinMax { min, min_565, max, max_565 } = min_max_colors(&block);

    let color2 = max.mix_2_1_over_3_saturate(&min);
    let color3 = max.mix_1_2_over_3_saturate(&min);

    let ref_colors = [max, min, color2, color3];
    proof {
        assert(colors(ref_colors@) =~= ramp_palette(max@.rgb, min@.rgb));
    }
    Block16 {
        alpha_block,
        max: max_565,
        min: min_565,
        color_table: encode_color_table_bc1_bc3(&block, ref_colors, false),
    }
}

/// Reads the tile that begins at column `x` of row `y` and encodes it.
fn fetch_and_encode<T: ColorSource>(pixels: &[T], x: usize, y: usize, width: usize) -> (encoded:
    Block16)
    ensures
        encoded == bc3_block(tile(pixels@, x as int, y as int, width as int)),
{
    encode_block_bc3(fetch_block(pixels, x, y, width))
}

/// The BC3 encoding of an image: the encoding of each of its tiles, the
/// tiles taken row by row.
pub open spec fn bc3_image<T: ColorSource>(pixels: Seq<T>, width: int, height: int) -> Seq<
    Block16,
> {
    blocks_of(width, height, |x: int, y: int| bc3_block(tile(pixels, x, y, width)))
}

/// Encodes an image of `width * height` pixels, given row by row.
pub fn encode_image_bc3<T>(pixels: &[T], width: usize, height: usize) -> (blocks: Vec<
    Block16,
>) where T: ColorSource
    requires
        pixels@.len() >= width * height,
    ensures
        blocks@ == bc3_image(pixels@, width as int, height as int),
{
    proof {
        lemma_tiles_fit(width as int, height as int);
        assert(pixels@.len() == pixels.len() <= usize::MAX);
    }
    let blocks = encode_image(pixels, width, height, fetch_and_encode::<T>);
    proof {
        lemma_encodes_one(
            blocks@,
            pixels,
            width,
            height,
            fetch_and_encode::<T>,
            |x: int, y: int| bc3_block(tile(pixels@, x, y, width as int)),
        );
    }
    blocks
}

/// Encodes an image of `width * height` pixels, given row by row, and
/// writes out the bytes of the blocks.
pub fn encode_image_bc3_conv_u8<T>(pixels: &[T], width: usize, height: usize) -> (bytes: Vec<
    u8,
>) where T: ColorSource
    requires
        pixels@.len() >= width * height,
    ensures
        bytes@ == stream(bc3_image(pixels@, width as int, height as int)),
{
    proof {
        lemma_tiles_fit(width as int, height as int);
        assert(pixels@.len() == pixels.len() <= usize::MAX);
    }
    let bytes = encode_image_conv_u8(pixels, width, height, fetch_and_encode::<T>);
    proof {
        let blocks = choose|blocks: Seq<Block16>|
            encodes(blocks, pixels, width, height, fetch_and_encode::<T>) && bytes@
                == #[trigger] stream(blocks);
        lemma_encodes_one(
            blocks,
            pixels,
            width,
            height,
            fetch_and_encode::<T>,
            |x: int, y: int| bc3_block(tile(pixels@, x, y, width as int)),
        );
    }
    bytes
}

/// A block of sixteen equal pixels has their opacity for both endpoints
/// of the opacity block and the 16-bit form of their colour for both
/// endpoints of the colour. Every pixel selects entry 0 of the ramp and
/// entry 0 of the palette, and both tables are 0.
pub proof fn lemma_uniform_block<T: ColorSource>(block: Seq<T>, pixel: Channels)
    requires
        is_uniform(block, pixel),
    ensures
        bc3_block(block) == (Block16 {
            alpha_block: GreyScaleBlock8 {
                max_alpha: pixel.a,
                min_alpha: pixel.a,
                alpha_table: [0u8, 0u8, 0u8, 0u8, 0u8, 0u8],
            },
            max: quantize_565(pixel.rgb),
            min: quantize_565(pixel.rgb),
            color_table: 0,
        }),
{
    lemma_uniform_endpoints(block, pixel);
    let alphas = opacities(block);
    assert forall|k: int| 0 <= k < 16 implies alphas[k] == pixel.a by {
        assert(block[k]@ == pixel);
    }
    crate::bc4::lemma_uniform_block(alphas, pixel.a);
    let palette = ramp_palette(pixel.rgb, pixel.rgb);
    let indices = color_indices(block, palette, false);
    assert forall|k: int| 0 <= k < 16 implies #[trigger] indices[k] == 0 by {
        assert(block[k]@ == pixel);
        lemma_nearest_is_first(pixel.rgb, palette);
    }
    lemma_color_table_uniform(indices, 0);
}

} // verus!
