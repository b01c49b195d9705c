//! BC1 (DXT1) encoder: two 16-bit endpoint colours and sixteen 2-bit
//! palette indices per block.

use crate::color::{
    black, brightest, darkest, lemma_mix_same, luminances, min_max_luminance, mix_of,
    quantize_565, Channels, ColorSource, Pixel, Rgb,
};
use crate::utils::{
    blocks_of, color_indices, color_table_of, colors, encode_color_table_bc1_bc3, encode_image,
    encode_image_conv_u8, encodes, fetch_block, first_min, is_first_max, is_first_min,
    le_bytes_u16, le_bytes_u32, lemma_color_table_uniform, lemma_encodes_one,
    lemma_first_max_unique, lemma_first_min_unique, lemma_tiles_fit, palette_gaps, push_u16,
    push_u32, stream, tile, EncodedBlock,
};
use vstd::prelude::*;

verus! {

/// Whether the brightest pixel of a block quantizes to a 16-bit value that
/// is not above that of the darkest one. The two then change places as
/// endpoints.
pub open spec fn is_degenerate<T: Pixel>(block: Seq<T>) -> bool {
    quantize_565(brightest(block)@.rgb) <= quantize_565(darkest(block)@.rgb)
}

/// The upper endpoint of a block: its brightest pixel, or its darkest one
/// where the block is degenerate.
pub open spec fn endpoint_max<T: Pixel>(block: Seq<T>) -> T {
    if is_degenerate(block) {
        darkest(block)
    } else {
        brightest(block)
    }
}

/// The lower endpoint of a block: its darkest pixel, or its brightest one
/// where the block is degenerate.
pub open spec fn endpoint_min<T: Pixel>(block: Seq<T>) -> T {
    if is_degenerate(block) {
        brightest(block)
    } else {
        darkest(block)
    }
}

/// The palette of four colours between two endpoints: the endpoints, then
/// the colours a third and two thirds of the way from the upper to the
/// lower one.
pub open spec fn ramp_palette(max: Rgb, min: Rgb) -> Seq<Rgb> {
    seq![max, min, mix_of(2, max, 1, min), mix_of(1, max, 2, min)]
}

/// The palette of three colours and a transparent entry: the endpoints,
/// the colour half way between them, and black.
pub open spec fn punch_through_palette(max: Rgb, min: Rgb) -> Seq<Rgb> {
    seq![max, min, mix_of(1, max, 1, min), black()]
}

/// The palette that the pixels of a block are matched against. Pixels with
/// an opacity get the palette with the transparent entry where the block
/// is degenerate.
pub open spec fn bc1_palette<T: ColorSource>(block: Seq<T>) -> Seq<Rgb> {
    let max = endpoint_max(block)@.rgb;
    let min = endpoint_min(block)@.rgb;
    if T::has_alpha() && is_degenerate(block) {
        punch_through_palette(max, min)
    } else {
        ramp_palette(max, min)
    }
}

/// The two endpoints of a block with their 16-bit forms.
struct MinMax<T: ColorSource> {
    min: T,
    min_565: u16,
    max: T,
    max_565: u16,
    can_contain_alpha: bool,
}

/// Picks the endpoints of a block: its darkest and its brightest pixel,
/// changing places where the brightest one does not quantize to the
/// greater 16-bit value.
fn min_max_colors<T: ColorSource>(block: &[T; 16]) -> (ends: MinMax<T>)
    ensures
        ends.max == endpoint_max(block@),
        ends.min == endpoint_min(block@),
        ends.max_565 == quantize_565(ends.max@.rgb),
        ends.min_565 == quantize_565(ends.min@.rgb),
        ends.can_contain_alpha == is_degenerate(block@),
        ends.max_565 >= ends.min_565,
        ends.max_565 == ends.min_565 ==> ends.can_contain_alpha,
{
    let (min, max) = min_max_luminance(block);

    let min_565 = min.to_565();
    let max_565 = max.to_565();

    if max_565 > min_565 {
        MinMax { min, min_565, max, max_565, can_contain_alpha: false }
    } else {
        MinMax { min_565: max_565, max_565: min_565, min: max, max: min, can_contain_alpha: true }
    }
}

/// An encoded BC1 block.
#[derive(Debug, Copy, Clone, Eq, PartialEq)]
pub struct Block8 {
    pub max: u16,
    pub min: u16,
    pub color_table: u32,
}

impl EncodedBlock for Block8 {
    /// `max`, `min` and `color_table`, each from its lowest byte on.
    open spec fn bytes(&self) -> Seq<u8> {
        le_bytes_u16(self.max) + le_bytes_u16(self.min) + le_bytes_u32(self.color_table)
    }

    open spec fn size() -> nat {
        8
    }

    proof fn lemma_size(&self) {
    }

    fn byte_len() -> (n: usize) {
        8
    }

    fn write_to(&self, out: &mut Vec<u8>) {
        push_u16(out, self.max);
        push_u16(out, self.min);
        push_u32(out, self.color_table);
        assert(out@ =~= old(out)@ + self.bytes());
    }
}

/// The BC1 encoding of a block of sixteen pixels.
pub open spec fn bc1_block<T: ColorSource>(block: Seq<T>) -> Block8 {
    Block8 {
        max: quantize_565(endpoint_max(block)@.rgb),
        min: quantize_565(endpoint_min(block)@.rgb),
        color_table: color_table_of(
            color_indices(block, bc1_palette(block), T::has_alpha()),
        ) as u32,
    }
}

/// Encodes a block of sixteen pixels, given row by row.
pub fn encode_block_bc1<T: ColorSource>(block: [T; 16]) -> (encoded: Block8)
    ensures
        encoded == bc1_block(block@),
        encoded.max >= encoded.min,
{
    let MinMax { min, min_565, max, max_565, can_contain_alpha } = min_max_colors(&block);

    let (color2, color3) = if T::contains_alpha() && can_contain_alpha {
        let blank = T::default();
        proof {
            T::lemma_default_is_blank(blank);
        }
        (max.mix_1_1_over_2_saturate(&min), blank)
    } else {
        (max.mix_2_1_over_3_saturate(&min), max.mix_1_2_over_3_saturate(&min))
    };

    let ref_colors = [max, min, color2, color3];
    proof {
        assert(colors(ref_colors@) =~= bc1_palette(block@));
    }
    Block8 {
        min: min_565,
        max: max_565,
        color_table: encode_color_table_bc1_bc3(&block, ref_colors, T::contains_alpha()),
    }
}

/// Reads the tile that begins at column `x` of row `y` and encodes it.
fn fetch_and_encode<T: ColorSource>(pixels: &[T], x: usize, y: usize, width: usize) -> (encoded:
    Block8)
    ensures
        encoded == bc1_block(tile(pixels@, x as int, y as int, width as int)),
{
    encode_block_bc1(fetch_block(pixels, x, y, width))
}

/// The BC1 encoding of an image: the encoding of each of its tiles, the
/// tiles taken row by row.
pub open spec fn bc1_image<T: ColorSource>(pixels: Seq<T>, width: int, height: int) -> Seq<Block8> {
    blocks_of(width, height, |x: int, y: int| bc1_block(tile(pixels, x, y, width)))
}

/// Encodes an image of `width * height` pixels, given row by row.
pub fn encode_image_bc1<T>(pixels: &[T], width: usize, height: usize) -> (blocks: Vec<
    Block8,
>) where T: ColorSource
    requires
        pixels@.len() >= width * height,
    ensures
        blocks@ == bc1_image(pixels@, width as int, height as int),
{
    proof {
        lemma_tiles_fit(width as int, height as int);
        assert(pixels@.len() == pixels.len() <= usize::MAX);
    }
    let blocks = encode_image(pixels, width, height, fetch_and_encode::<T>);
    proof {
        lemma_encodes_one(
            blocks@,
            pixels,
            width,
            height,
            fetch_and_encode::<T>,
            |x: int, y: int| bc1_block(tile(pixels@, x, y, width as int)),
        );
    }
    blocks
}

/// Encodes an image of `width * height` pixels, given row by row, and
/// writes out the bytes of the blocks.
pub fn encode_image_bc1_conv_u8<T>(pixels: &[T], width: usize, height: usize) -> (bytes: Vec<
    u8,
>) where T: ColorSource
    requires
        pixels@.len() >= width * height,
    ensures
        bytes@ == stream(bc1_image(pixels@, width as int, height as int)),
{
    proof {
        lemma_tiles_fit(width as int, height as int);
        assert(pixels@.len() == pixels.len() <= usize::MAX);
    }
    let bytes = encode_image_conv_u8(pixels, width, height, fetch_and_encode::<T>);
    proof {
        let blocks = choose|blocks: Seq<Block8>|
            encodes(blocks, pixels, width, height, fetch_and_encode::<T>) && bytes@
                == #[trigger] stream(blocks);
        lemma_encodes_one(
            blocks,
            pixels,
            width,
            height,
            fetch_and_encode::<T>,
            |x: int, y: int| bc1_block(tile(pixels@, x, y, width as int)),
        );
    }
    bytes
}

/// Whether all sixteen pixels of a block show the same channels.
pub open spec fn is_uniform<T: Pixel>(block: Seq<T>, pixel: Channels) -> bool {
    &&& block.len() == 16
    &&& forall|k: int| 0 <= k < 16 ==> (#[trigger] block[k])@ == pixel
}

/// In a block of sixteen equal pixels the first pixel is both endpoints,
/// and the block is degenerate.
pub proof fn lemma_uniform_endpoints<T: Pixel>(block: Seq<T>, pixel: Channels)
    requires
        is_uniform(block, pixel),
    ensures
        is_degenerate(block),
        endpoint_max(block) == block[0],
        endpoint_min(block) == block[0],
        block[0]@ == pixel,
{
    let l = luminances(block);
    assert forall|k: int| 0 <= k < 16 implies #[trigger] l[k] == l[0] by {
        assert(block[k]@ == pixel);
        assert(block[0]@ == pixel);
    }
    assert(is_first_min(l, 0));
    assert(is_first_max(l, 0));
    lemma_first_min_unique(l, 0);
    lemma_first_max_unique(l, 0);
}

/// A colour that is the first entry of a palette is closest to that entry.
pub proof fn lemma_nearest_is_first(c: Rgb, palette: Seq<Rgb>)
    requires
        palette.len() > 0,
        palette[0] == c,
    ensures
        first_min(palette_gaps(c, palette)) == 0,
{
    let gaps = palette_gaps(c, palette);
    assert(gaps[0] == 0);
    assert forall|j: int| 0 <= j < gaps.len() implies gaps[0] <= #[trigger] gaps[j] by {
        let p = palette[j];
        assert((c.r - p.r) * (c.r - p.r) >= 0) by (nonlinear_arith);
        assert((c.g - p.g) * (c.g - p.g) >= 0) by (nonlinear_arith);
        assert((c.b - p.b) * (c.b - p.b) >= 0) by (nonlinear_arith);
    }
    assert(is_first_min(gaps, 0));
    lemma_first_min_unique(gaps, 0);
}

/// A block of sixteen equal pixels has the 16-bit form of their colour for
/// both endpoints. Every pixel selects entry 0 of the palette, which is
/// that colour, and the table is 0; but where the pixels have an opacity
/// and it is under 128, every pixel selects entry 3, and all the bits of
/// the table are set.
pub proof fn lemma_uniform_block<T: ColorSource>(block: Seq<T>, pixel: Channels)
    requires
        is_uniform(block, pixel),
    ensures
        bc1_palette(block) == (if T::has_alpha() {
            seq![pixel.rgb, pixel.rgb, pixel.rgb, black()]
        } else {
            seq![pixel.rgb, pixel.rgb, pixel.rgb, pixel.rgb]
        }),
        bc1_block(block).max == quantize_565(pixel.rgb),
        bc1_block(block).min == quantize_565(pixel.rgb),
        !(T::has_alpha() && pixel.a < 128) ==> color_indices(
            block,
            bc1_palette(block),
            T::has_alpha(),
        ) == Seq::new(16, |k: int| 0int),
        !(T::has_alpha() && pixel.a < 128) ==> bc1_block(block).color_table == 0,
        T::has_alpha() && pixel.a < 128 ==> color_indices(
            block,
            bc1_palette(block),
            T::has_alpha(),
        ) == Seq::new(16, |k: int| 3int),
        T::has_alpha() && pixel.a < 128 ==> bc1_block(block).color_table == 0xffff_ffff,
{
    lemma_uniform_endpoints(block, pixel);
    let palette = bc1_palette(block);
    let indices = color_indices(block, palette, T::has_alpha());
    lemma_mix_same(1, 1, pixel.rgb);
    lemma_mix_same(2, 1, pixel.rgb);
    lemma_mix_same(1, 2, pixel.rgb);
    assert(palette =~= if T::has_alpha() {
        seq![pixel.rgb, pixel.rgb, pixel.rgb, black()]
    } else {
        seq![pixel.rgb, pixel.rgb, pixel.rgb, pixel.rgb]
    });
    if T::has_alpha() && pixel.a < 128 {
        assert forall|k: int| 0 <= k < 16 implies #[trigger] indices[k] == 3 by {
            assert(block[k]@ == pixel);
        }
        assert(indices =~= Seq::new(16, |k: int| 3int));
        lemma_color_table_uniform(indices, 3);
    } else {
        assert forall|k: int| 0 <= k < 16 implies #[trigger] indices[k] == 0 by {
            assert(block[k]@ == pixel);
            lemma_nearest_is_first(pixel.rgb, palette);
        }
        assert(indices =~= Seq::new(16, |k: int| 0int));
        lemma_color_table_uniform(indices, 0);
    }
}

} // verus!
