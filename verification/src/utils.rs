//! What the encoders share: picking the first extremum of a sequence,
//! cutting an image into tiles, and driving a block encoder over them.

use crate::color::{sqr_distance_of, ColorSource, Pixel, Rgb};
use vstd::prelude::*;

verus! {

/// `i` is the first position of `v` that holds its least value.
pub open spec fn is_first_min(v: Seq<int>, i: int) -> bool {
    &&& 0 <= i < v.len()
    &&& forall|j: int| 0 <= j < v.len() ==> v[i] <= #[trigger] v[j]
    &&& forall|j: int| 0 <= j < i ==> v[i] < #[trigger] v[j]
}

/// `i` is the first position of `v` that holds its greatest value.
pub open spec fn is_first_max(v: Seq<int>, i: int) -> bool {
    &&& 0 <= i < v.len()
    &&& forall|j: int| 0 <= j < v.len() ==> #[trigger] v[j] <= v[i]
    &&& forall|j: int| 0 <= j < i ==> #[trigger] v[j] < v[i]
}

/// The first position that holds the least value of a non-empty sequence.
pub open spec fn first_min(v: Seq<int>) -> int {
    choose|i: int| is_first_min(v, i)
}

/// The first position that holds the greatest value of a non-empty sequence.
pub open spec fn first_max(v: Seq<int>) -> int {
    choose|i: int| is_first_max(v, i)
}

/// At most one position is the first minimum, so finding one finds `first_min`.
pub proof fn lemma_first_min_unique(v: Seq<int>, i: int)
    requires
        is_first_min(v, i),
    ensures
        first_min(v) == i,
{
    let c = first_min(v);
    assert(is_first_min(v, c));
    if c < i {
        assert(v[i] < v[c]);
        assert(v[c] <= v[i]);
    } else if i < c {
        assert(v[c] < v[i]);
        assert(v[i] <= v[c]);
    }
}

/// At most one position is the first maximum, so finding one finds `first_max`.
pub proof fn lemma_first_max_unique(v: Seq<int>, i: int)
    requires
        is_first_max(v, i),
    ensures
        first_max(v) == i,
{
    let c = first_max(v);
    assert(is_first_max(v, c));
    if c < i {
        assert(v[c] < v[i]);
        assert(v[i] <= v[c]);
    } else if i < c {
        assert(v[i] < v[c]);
        assert(v[c] <= v[i]);
    }
}

/// Extending a sequence by one value moves the first minimum to the new
/// position exactly when the new value is strictly smaller.
pub proof fn lemma_first_min_step(v: Seq<int>, n: int, i: int)
    requires
        0 < n < v.len(),
        is_first_min(v.take(n), i),
    ensures
        is_first_min(v.take(n + 1), if v[n] < v[i] { n } else { i }),
{
    let before = v.take(n);
    let after = v.take(n + 1);
    let pick = if v[n] < v[i] { n } else { i };
    assert forall|j: int| 0 <= j < after.len() implies after[pick] <= #[trigger] after[j] by {
        if j < n {
            assert(before[i] <= before[j]);
        }
    }
    assert forall|j: int| 0 <= j < pick implies after[pick] < #[trigger] after[j] by {
        if pick == n {
            assert(before[i] <= before[j]);
        } else {
            assert(before[i] < before[j]);
        }
    }
}

/// Extending a sequence by one value moves the first maximum to the new
/// position exactly when the new value is strictly greater.
pub proof fn lemma_first_max_step(v: Seq<int>, n: int, i: int)
    requires
        0 < n < v.len(),
        is_first_max(v.take(n), i),
    ensures
        is_first_max(v.take(n + 1), if v[n] > v[i] { n } else { i }),
{
    let before = v.take(n);
    let after = v.take(n + 1);
    let pick = if v[n] > v[i] { n } else { i };
    assert forall|j: int| 0 <= j < after.len() implies #[trigger] after[j] <= after[pick] by {
        if j < n {
            assert(before[j] <= before[i]);
        }
    }
    assert forall|j: int| 0 <= j < pick implies #[trigger] after[j] < after[pick] by {
        if pick == n {
            assert(before[j] <= before[i]);
        } else {
            assert(before[j] < before[i]);
        }
    }
}

/// Every non-empty sequence has a first minimum.
pub proof fn lemma_first_min_exists(v: Seq<int>)
    requires
        v.len() > 0,
    ensures
        is_first_min(v, first_min(v)),
        0 <= first_min(v) < v.len(),
    decreases v.len(),
{
    if v.len() == 1 {
        assert(is_first_min(v, 0));
    } else {
        let n = v.len() - 1;
        let front = v.take(n);
        lemma_first_min_exists(front);
        lemma_first_min_step(v, n, first_min(front));
        assert(v.take(n + 1) =~= v);
        assert(is_first_min(v, if v[n] < v[first_min(front)] { n } else { first_min(front) }));
    }
}

/// Every non-empty sequence has a first maximum.
pub proof fn lemma_first_max_exists(v: Seq<int>)
    requires
        v.len() > 0,
    ensures
        is_first_max(v, first_max(v)),
        0 <= first_max(v) < v.len(),
    decreases v.len(),
{
    if v.len() == 1 {
        assert(is_first_max(v, 0));
    } else {
        let n = v.len() - 1;
        let front = v.take(n);
        lemma_first_max_exists(front);
        lemma_first_max_step(v, n, first_max(front));
        assert(v.take(n + 1) =~= v);
        assert(is_first_max(v, if v[n] > v[first_max(front)] { n } else { first_max(front) }));
    }
}

/// The number whose digits to the base `radix` are the entries of `d` from
/// position `from` on, the lowest digit first.
pub open spec fn packed_from(d: Seq<int>, radix: int, from: int) -> int
    decreases d.len() - from,
{
    if from < 0 || from >= d.len() {
        0
    } else {
        d[from] + radix * packed_from(d, radix, from + 1)
    }
}

/// The number whose digits to the base `radix` are `d`, the lowest digit
/// first.
pub open spec fn packed(d: Seq<int>, radix: int) -> int {
    packed_from(d, radix, 0)
}

/// The `n`-th digit of `v` to the base `radix`, counted from the lowest.
pub open spec fn digit(v: int, radix: int, n: nat) -> int
    decreases n,
{
    if n == 0 {
        v % radix
    } else {
        digit(v / radix, radix, (n - 1) as nat)
    }
}

/// Whether every entry of `d` is a digit to the base `radix`.
pub open spec fn are_digits(d: Seq<int>, radix: int) -> bool {
    forall|k: int| 0 <= k < d.len() ==> 0 <= #[trigger] d[k] < radix
}

/// Reading the `n`-th digit of what was packed from position `from` on
/// gives back the entry `n` places after `from`.
pub proof fn lemma_digit_of_packed_from(d: Seq<int>, radix: int, from: int, n: nat)
    requires
        1 < radix,
        are_digits(d, radix),
        0 <= from,
        from + n < d.len(),
    ensures
        digit(packed_from(d, radix, from), radix, n) == d[from + n],
    decreases n,
{
    let rest = packed_from(d, radix, from + 1);
    assert(0 <= d[from] < radix);
    assert(radix * rest == rest * radix) by (nonlinear_arith);
    vstd::arithmetic::div_mod::lemma_fundamental_div_mod_converse(
        packed_from(d, radix, from),
        radix,
        rest,
        d[from],
    );
    if n > 0 {
        lemma_digit_of_packed_from(d, radix, from + 1, (n - 1) as nat);
    }
}

/// Packing digits and reading the `n`-th digit of the result gives back the
/// `n`-th of them.
pub proof fn lemma_digit_of_packed(d: Seq<int>, radix: int, n: nat)
    requires
        1 < radix,
        are_digits(d, radix),
        n < d.len(),
    ensures
        digit(packed(d, radix), radix, n) == d[n as int],
{
    lemma_digit_of_packed_from(d, radix, 0, n);
}

/// How many tiles of four cover `x` pixels: `x / 4`, rounded up.
pub open spec fn tiles(x: int) -> int {
    (x + 3) / 4
}

/// Divides by four and rounds up.
pub fn ceil_div_4(x: usize) -> (n: usize)
    ensures
        n == tiles(x as int),
        4 * n < x + 4,
{
    if x % 4 == 0 {
        x / 4
    } else {
        x / 4 + 1
    }
}

/// The pixel at position `n` of a buffer, and the blank pixel where the
/// buffer has no such position.
pub open spec fn pixel_at<T: Pixel>(pixels: Seq<T>, n: int) -> T {
    if 0 <= n < pixels.len() {
        pixels[n]
    } else {
        T::blank()
    }
}

/// Reads the pixel at position `n`, or the default pixel where the buffer
/// ends before it.
pub fn fetch_or_default<T: Pixel>(pixels: &[T], n: usize) -> (p: T)
    ensures
        p == pixel_at(pixels@, n as int),
        n < pixels@.len() ==> p == pixels@[n as int],
        n >= pixels@.len() ==> p == T::blank(),
{
    if n < pixels.len() {
        pixels[n]
    } else {
        let d = T::default();
        proof {
            T::lemma_default_is_blank(d);
        }
        d
    }
}

/// The tile of 4×4 pixels whose upper left corner is column `x` of row `y`
/// in a row-major image of the given width, row by row. Whether a cell of
/// the tile lies in the image is decided by its position in the buffer
/// alone, `column + row * width`: a cell whose position lies past the end
/// of the buffer is blank, and a cell to the right of the last column
/// holds what the buffer holds at its position, which is the beginning of
/// the next row.
pub open spec fn tile<T: Pixel>(pixels: Seq<T>, x: int, y: int, width: int) -> Seq<T> {
    Seq::new(16, |k: int| pixel_at(pixels, (x + k % 4) + (y + k / 4) * width))
}

/// The position `column + row` in a buffer, where `row` is the position at
/// which the row begins, or nothing if that does not fit into 128 bits.
/// Where the position is no `usize`, the greatest `usize` takes its place:
/// no buffer has a pixel there.
fn position(column: u128, row: Option<u128>) -> (n: usize)
    ensures
        row matches Some(r) ==> n == (if column + r <= usize::MAX {
            column + r
        } else {
            usize::MAX as int
        }),
        row is None ==> n == usize::MAX,
{
    match row {
        Some(r) => match r.checked_add(column) {
            Some(n) => if n <= usize::MAX as u128 {
                n as usize
            } else {
                usize::MAX
            },
            None => usize::MAX,
        },
        None => usize::MAX,
    }
}

/// Reads the tile whose upper left corner is column `x` of row `y`.
pub fn fetch_block<T: Pixel>(pixels: &[T], x: usize, y: usize, width: usize) -> (block: [T; 16])
    ensures
        block@ == tile(pixels@, x as int, y as int, width as int),
{
    let c0 = x as u128;
    let c1 = x as u128 + 1;
    let c2 = x as u128 + 2;
    let c3 = x as u128 + 3;
    let r0 = (y as u128).checked_mul(width as u128);
    let r1 = (y as u128 + 1).checked_mul(width as u128);
    let r2 = (y as u128 + 2).checked_mul(width as u128);
    let r3 = (y as u128 + 3).checked_mul(width as u128);

    let block = [
        // Row 0
        fetch_or_default(pixels, position(c0, r0)),
        fetch_or_default(pixels, position(c1, r0)),
        fetch_or_default(pixels, position(c2, r0)),
        fetch_or_default(pixels, position(c3, r0)),
        // Row 1
        fetch_or_default(pixels, position(c0, r1)),
        fetch_or_default(pixels, position(c1, r1)),
        fetch_or_default(pixels, position(c2, r1)),
        fetch_or_default(pixels, position(c3, r1)),
        // Row 2
        fetch_or_default(pixels, position(c0, r2)),
        fetch_or_default(pixels, position(c1, r2)),
        fetch_or_default(pixels, position(c2, r2)),
        fetch_or_default(pixels, position(c3, r2)),
        // Row 3
        fetch_or_default(pixels, position(c0, r3)),
        fetch_or_default(pixels, position(c1, r3)),
        fetch_or_default(pixels, position(c2, r3)),
        fetch_or_default(pixels, position(c3, r3)),
    ];
    proof {
        let t = tile(pixels@, x as int, y as int, width as int);
        assert(pixels@.len() == pixels.len() <= usize::MAX);
        assert(r0 matches Some(v) ==> v == y * width);
        assert(r1 matches Some(v) ==> v == (y + 1) * width);
        assert(r2 matches Some(v) ==> v == (y + 2) * width);
        assert(r3 matches Some(v) ==> v == (y + 3) * width);
        assert(block@[0] == t[0] && block@[1] == t[1] && block@[2] == t[2] && block@[3] == t[3]);
        assert(block@[4] == t[4] && block@[5] == t[5] && block@[6] == t[6] && block@[7] == t[7]);
        assert(block@[8] == t[8] && block@[9] == t[9] && block@[10] == t[10] && block@[11]
            == t[11]);
        assert(block@[12] == t[12] && block@[13] == t[13] && block@[14] == t[14] && block@[15]
            == t[15]);
        assert(block@ =~= t);
    }
    block
}

/// The colours of a sequence of pixels.
pub open spec fn colors<T: Pixel>(pixels: Seq<T>) -> Seq<Rgb> {
    Seq::new(pixels.len(), |k: int| pixels[k]@.rgb)
}

/// The squared distance of a colour to each entry of a palette.
pub open spec fn palette_gaps(c: Rgb, palette: Seq<Rgb>) -> Seq<int> {
    Seq::new(palette.len(), |i: int| sqr_distance_of(c, palette[i]))
}

/// The palette entry that a pixel is encoded as. A pixel whose opacity is
/// under 128 gets entry 3 where `punch_through` is set, whatever its
/// colour. Any other pixel gets the entry closest to its colour, and among
/// equally close ones the first.
pub open spec fn color_index<T: Pixel>(pixel: T, palette: Seq<Rgb>, punch_through: bool) -> int {
    if punch_through && pixel@.a < 128 {
        3
    } else {
        first_min(palette_gaps(pixel@.rgb, palette))
    }
}

/// The palette entry of each pixel of a block.
pub open spec fn color_indices<T: Pixel>(
    block: Seq<T>,
    palette: Seq<Rgb>,
    punch_through: bool,
) -> Seq<int> {
    Seq::new(block.len(), |k: int| color_index(block[k], palette, punch_through))
}

/// Sixteen 2-bit indices as one number of 32 bits: index 0 in the two
/// lowest bits, each further index two bits higher.
pub open spec fn color_table_of(indices: Seq<int>) -> int {
    packed(indices, 4)
}

/// Finds the palette entry of each pixel of a block and packs the sixteen
/// indices into 32 bits.
pub fn encode_color_table_bc1_bc3<T: ColorSource>(
    block: &[T; 16],
    ref_colors: [T; 4],
    punch_through: bool,
) -> (color_table: u32)
    ensures
        color_table == color_table_of(color_indices(block@, colors(ref_colors@), punch_through)),
{
    let ghost palette = colors(ref_colors@);
    let ghost wanted = color_indices(block@, palette, punch_through);

    // Find color indices.
    let mut indices = [0u8; 16];
    for k in 0..16
        invariant
            palette == colors(ref_colors@),
            wanted == color_indices(block@, palette, punch_through),
            forall|n: int| 0 <= n < k ==> #[trigger] indices[n] as int == wanted[n],
            forall|n: int| 0 <= n < k ==> #[trigger] indices[n] < 4,
    {
        let p = &block[k];
        if punch_through && p.alpha() < 128 {
            // Map to black.
            indices[k] = 3;
        } else {
            let ghost gaps = palette_gaps(p@.rgb, palette);
            let mut min_distance = i32::MAX;
            let mut color_index: u8 = 0;
            for i in 0..4
                invariant
                    palette == colors(ref_colors@),
                    gaps == palette_gaps(p@.rgb, palette),
                    color_index < 4,
                    i == 0 ==> min_distance == i32::MAX && color_index == 0,
                    i > 0 ==> is_first_min(gaps.take(i as int), color_index as int),
                    i > 0 ==> min_distance == gaps[color_index as int],
            {
                let distance = p.sqr_distance(&ref_colors[i]);
                proof {
                    assert(distance == gaps[i as int]);
                    if i > 0 {
                        lemma_first_min_step(gaps, i as int, color_index as int);
                    } else {
                        assert(is_first_min(gaps.take(1), 0));
                    }
                }
                if distance < min_distance {
                    color_index = i as u8;
                    min_distance = distance;
                }
            }
            proof {
                assert(gaps.take(4) =~= gaps);
                lemma_first_min_unique(gaps, color_index as int);
            }
            indices[k] = color_index;
        }
    }

    // Pack the result, the last index first, so that index 0 ends in the
    // lowest bits.
    let mut color_table: u32 = 0;
    let mut i: usize = 16;
    assert(0u32 >> 0u32 == 0) by (bit_vector);
    while i > 0
        invariant
            i <= 16,
            wanted.len() == 16,
            forall|n: int| 0 <= n < 16 ==> #[trigger] indices[n] as int == wanted[n],
            forall|n: int| 0 <= n < 16 ==> #[trigger] indices[n] < 4,
            color_table == packed_from(wanted, 4, i as int),
            i > 0 ==> color_table >> (2 * (16 - i) as u32) == 0,
        decreases i,
    {
        let ghost taken = (16 - i) as u32;
        i -= 1;
        let index = indices[i] as u32;
        let ghost before = color_table;
        color_table = (color_table << 2) | index;
        proof {
            assert(index == wanted[i as int]);
            assert(color_table == 4 * before + index && (taken < 15 ==> color_table >> (2 * (taken
                + 1)) as u32 == 0)) by (bit_vector)
                requires
                    color_table == (before << 2) | index,
                    index < 4,
                    taken <= 15,
                    before >> (2 * taken) as u32 == 0,
            ;
        }
    }
    color_table
}

/// The column at which tile `k` of an image begins, the tiles counted row
/// by row from the upper left one.
pub open spec fn tile_column(k: int, width: int) -> int {
    4 * (k % tiles(width))
}

/// The row at which tile `k` of an image begins.
pub open spec fn tile_row(k: int, width: int) -> int {
    4 * (k / tiles(width))
}

/// Whether `blocks` is what `fetch` gives for the tiles of an image: one
/// block for each tile, in the order of the tiles, each a result of
/// `fetch` on the buffer, the tile's column and row, and the width.
pub open spec fn encodes<T, B, F: Fn(&[T], usize, usize, usize) -> B>(
    blocks: Seq<B>,
    pixels: &[T],
    width: usize,
    height: usize,
    fetch: F,
) -> bool {
    &&& blocks.len() == tiles(width as int) * tiles(height as int)
    &&& forall|k: int, x: usize, y: usize|
        0 <= k < blocks.len() && x == tile_column(k, width as int) && y == tile_row(
            k,
            width as int,
        ) ==> #[trigger] call_ensures(fetch, (pixels, x, y, width), blocks[k])
}

/// Cuts an image into tiles of 4×4 pixels and hands each to `fetch`, which
/// reads and encodes it. The tiles are taken row by row, each row from
/// left to right, and the blocks come out in that order. An image whose
/// width or height is no multiple of four has tiles that reach past its
/// right or lower edge.
pub fn encode_image<T, B, F>(pixels: &[T], width: usize, height: usize, fetch: F) -> (blocks: Vec<
    B,
>) where F: Fn(&[T], usize, usize, usize) -> B
    requires
        tiles(width as int) * tiles(height as int) <= usize::MAX,
        forall|x: usize, y: usize| call_requires(fetch, (pixels, x, y, width)),
    ensures
        encodes(blocks@, pixels, width, height, fetch),
{
    let w = ceil_div_4(width);
    let h = ceil_div_4(height);

    let mut encoded_pixels = Vec::with_capacity(w * h);
    assert(0 * w == 0 && h * w == w * h) by (nonlinear_arith);

    for i in 0..h
        invariant
            w == tiles(width as int),
            h == tiles(height as int),
            forall|x: usize, y: usize| call_requires(fetch, (pixels, x, y, width)),
            encoded_pixels@.len() == i * w,
            forall|k: int, x: usize, y: usize|
                0 <= k < encoded_pixels@.len() && x == tile_column(k, width as int) && y
                    == tile_row(k, width as int) ==> #[trigger] call_ensures(
                    fetch,
                    (pixels, x, y, width),
                    encoded_pixels@[k],
                ),
    {
        let y = i * 4;
        for j in 0..w
            invariant
                w == tiles(width as int),
                h == tiles(height as int),
                i < h,
                y == 4 * i,
                forall|x: usize, y: usize| call_requires(fetch, (pixels, x, y, width)),
                encoded_pixels@.len() == i * w + j,
                forall|k: int, x: usize, y: usize|
                    0 <= k < encoded_pixels@.len() && x == tile_column(k, width as int) && y
                        == tile_row(k, width as int) ==> #[trigger] call_ensures(
                        fetch,
                        (pixels, x, y, width),
                        encoded_pixels@[k],
                    ),
        {
            let x = j * 4;
            proof {
                lemma_tile_origin(i as int, j as int, width as int);
            }
            let block = fetch(pixels, x, y, width);
            encoded_pixels.push(block);
        }
        proof {
            assert((i + 1) * w == i * w + w) by (nonlinear_arith);
        }
    }

    encoded_pixels
}

/// In an image whose tiles are counted row by row, the tile in row `i` and
/// column `j` of the grid of tiles has the number `i * tiles(width) + j`,
/// and it begins at column `4 * j` of row `4 * i` of the image.
pub proof fn lemma_tile_origin(i: int, j: int, width: int)
    requires
        0 <= i,
        0 <= j < tiles(width),
    ensures
        tile_column(i * tiles(width) + j, width) == 4 * j,
        tile_row(i * tiles(width) + j, width) == 4 * i,
{
    vstd::arithmetic::div_mod::lemma_fundamental_div_mod_converse(
        i * tiles(width) + j,
        tiles(width),
        i,
        j,
    );
}

/// The two bytes of a 16-bit value, the lower one first.
pub open spec fn le_bytes_u16(v: u16) -> Seq<u8> {
    seq![(v % 256) as u8, (v / 256) as u8]
}

/// The four bytes of a 32-bit value, the lowest one first.
pub open spec fn le_bytes_u32(v: u32) -> Seq<u8> {
    seq![
        (v % 256) as u8,
        ((v / 256) % 256) as u8,
        ((v / 65536) % 256) as u8,
        (v / 16777216) as u8,
    ]
}

/// Appends the two bytes of a 16-bit value, the lower one first.
pub fn push_u16(out: &mut Vec<u8>, v: u16)
    ensures
        final(out)@ == old(out)@ + le_bytes_u16(v),
{
    out.push((v % 256) as u8);
    out.push((v / 256) as u8);
    assert(out@ =~= old(out)@ + le_bytes_u16(v));
}

/// Appends the four bytes of a 32-bit value, the lowest one first.
pub fn push_u32(out: &mut Vec<u8>, v: u32)
    ensures
        final(out)@ == old(out)@ + le_bytes_u32(v),
{
    out.push((v % 256) as u8);
    out.push(((v / 256) % 256) as u8);
    out.push(((v / 65536) % 256) as u8);
    out.push((v / 16777216) as u8);
    assert(out@ =~= old(out)@ + le_bytes_u32(v));
}

/// An encoded block that knows its bytes: the fields in the order in which
/// the type declares them, and the bytes of a field of several bytes from
/// the lowest to the highest.
pub trait EncodedBlock: Sized {
    /// The bytes of the block.
    spec fn bytes(&self) -> Seq<u8>;

    /// How many bytes a block has.
    spec fn size() -> nat;

    /// Every block has `size()` bytes, and that is at least one.
    proof fn lemma_size(&self)
        ensures
            self.bytes().len() == Self::size(),
            Self::size() > 0,
    ;

    /// How many bytes a block has.
    fn byte_len() -> (n: usize)
        ensures
            n == Self::size(),
    ;

    /// Appends the bytes of the block.
    fn write_to(&self, out: &mut Vec<u8>)
        ensures
            final(out)@ == old(out)@ + self.bytes(),
    ;
}

/// The bytes of a sequence of blocks: those of the first block, then those
/// of the second, and so on.
pub open spec fn stream<B: EncodedBlock>(blocks: Seq<B>) -> Seq<u8>
    decreases blocks.len(),
{
    if blocks.len() == 0 {
        Seq::empty()
    } else {
        stream(blocks.drop_last()) + blocks.last().bytes()
    }
}

/// The stream of `n` blocks has `n * size()` bytes, and byte `j` of block
/// `k` is byte `k * size() + j` of the stream.
pub proof fn lemma_stream_layout<B: EncodedBlock>(blocks: Seq<B>, k: int, j: int)
    requires
        0 <= k < blocks.len(),
        0 <= j < B::size(),
    ensures
        stream(blocks).len() == blocks.len() * B::size(),
        k * B::size() + j < stream(blocks).len(),
        stream(blocks)[k * B::size() + j] == blocks[k].bytes()[j],
    decreases blocks.len(),
{
    let n = blocks.len() as int;
    let size = B::size() as int;
    let front = blocks.drop_last();
    blocks.last().lemma_size();
    lemma_stream_len(front);
    assert(n * size == (n - 1) * size + size) by (nonlinear_arith);
    if k < n - 1 {
        lemma_stream_layout(front, k, j);
        assert(k * size + j < (n - 1) * size) by (nonlinear_arith)
            requires
                0 <= k < n - 1,
                0 <= j < size,
        ;
    }
}

/// The stream of `n` blocks has `n * size()` bytes.
pub proof fn lemma_stream_len<B: EncodedBlock>(blocks: Seq<B>)
    ensures
        stream(blocks).len() == blocks.len() * B::size(),
    decreases blocks.len(),
{
    let n = blocks.len() as int;
    let size = B::size() as int;
    if n > 0 {
        blocks.last().lemma_size();
        lemma_stream_len(blocks.drop_last());
        assert(n * size == (n - 1) * size + size) by (nonlinear_arith);
    } else {
        assert(0 * size == 0) by (nonlinear_arith);
    }
}

/// Writes out the bytes of a sequence of blocks.
pub fn to_bytes<B: EncodedBlock>(blocks: &Vec<B>) -> (bytes: Vec<u8>)
    ensures
        bytes@ == stream(blocks@),
{
    let mut bytes: Vec<u8> = match blocks.len().checked_mul(B::byte_len()) {
        Some(n) => Vec::with_capacity(n),
        None => Vec::new(),
    };
    for k in 0..blocks.len()
        invariant
            bytes@ == stream(blocks@.take(k as int)),
    {
        proof {
            assert(blocks@.take(k + 1).drop_last() =~= blocks@.take(k as int));
        }
        blocks[k].write_to(&mut bytes);
    }
    proof {
        assert(blocks@.take(blocks@.len() as int) =~= blocks@);
    }
    bytes
}

/// Encodes an image as `encode_image` does, and writes out the bytes of
/// the blocks.
pub fn encode_image_conv_u8<T, B, F>(pixels: &[T], width: usize, height: usize, fetch: F) -> (bytes:
    Vec<u8>) where B: EncodedBlock, F: Fn(&[T], usize, usize, usize) -> B
    requires
        tiles(width as int) * tiles(height as int) <= usize::MAX,
        forall|x: usize, y: usize| call_requires(fetch, (pixels, x, y, width)),
    ensures
        exists|blocks: Seq<B>|
            encodes(blocks, pixels, width, height, fetch) && bytes@ == #[trigger] stream(blocks),
{
    let compressed_pixels = encode_image(pixels, width, height, fetch);
    to_bytes(&compressed_pixels)
}

/// The tiles of an image are no more than its pixels.
pub proof fn lemma_tiles_fit(width: int, height: int)
    requires
        0 <= width,
        0 <= height,
    ensures
        0 <= tiles(width) * tiles(height) <= width * height,
{
    let w = tiles(width);
    let h = tiles(height);
    assert(0 <= w <= width && 0 <= h <= height);
    assert(0 <= w * h <= width * height) by (nonlinear_arith)
        requires
            0 <= w <= width,
            0 <= h <= height,
    ;
}

/// Every tile of an image begins inside the image.
pub proof fn lemma_tile_in_image(k: int, width: int, height: int)
    requires
        0 <= width,
        0 <= height,
        0 <= k < tiles(width) * tiles(height),
    ensures
        0 <= tile_column(k, width) < width,
        0 <= tile_row(k, width) < height,
        tile_column(k, width) % 4 == 0,
        tile_row(k, width) % 4 == 0,
{
    let w = tiles(width);
    let h = tiles(height);
    assert(w > 0 && h > 0) by (nonlinear_arith)
        requires
            0 <= w,
            0 <= h,
            0 < w * h,
    ;
    vstd::arithmetic::div_mod::lemma_fundamental_div_mod(k, w);
    vstd::arithmetic::div_mod::lemma_mod_pos_bound(k, w);
    let row = k / w;
    let column = k % w;
    assert(0 <= row < h) by (nonlinear_arith)
        requires
            0 < w,
            0 <= k < w * h,
            k == w * row + column,
            0 <= column < w,
    ;
}

/// What `encode_image` returns where `fetch` can return one block only for
/// each tile: the block `block_at(x, y)` for the tile that begins at
/// column `x` of row `y`.
pub open spec fn blocks_of<B>(width: int, height: int, block_at: spec_fn(int, int) -> B) -> Seq<B> {
    Seq::new(
        (tiles(width) * tiles(height)) as nat,
        |k: int| block_at(tile_column(k, width), tile_row(k, width)),
    )
}

/// Where `fetch` can return one block only for each tile, there is one
/// sequence of blocks only that it gives for an image.
pub proof fn lemma_encodes_one<T, B, F: Fn(&[T], usize, usize, usize) -> B>(
    blocks: Seq<B>,
    pixels: &[T],
    width: usize,
    height: usize,
    fetch: F,
    block_at: spec_fn(int, int) -> B,
)
    requires
        encodes(blocks, pixels, width, height, fetch),
        forall|x: usize, y: usize, b: B| #[trigger]
            call_ensures(fetch, (pixels, x, y, width), b) ==> b == block_at(x as int, y as int),
    ensures
        blocks == blocks_of(width as int, height as int, block_at),
{
    let wanted = blocks_of(width as int, height as int, block_at);
    lemma_tiles_fit(width as int, height as int);
    assert forall|k: int| 0 <= k < blocks.len() implies blocks[k] == wanted[k] by {
        lemma_tile_in_image(k, width as int, height as int);
        let x = tile_column(k, width as int) as usize;
        let y = tile_row(k, width as int) as usize;
        assert(call_ensures(fetch, (pixels, x, y, width), blocks[k]));
    }
    assert(blocks =~= wanted);
}

/// The blocks of an image are as many as its tiles, and the block of the
/// tile in row `i` and column `j` of the grid of tiles, which begins at
/// column `4 * j` of row `4 * i` of the image, is block `i * tiles(width) +
/// j`.
pub proof fn lemma_blocks_of_grid<B>(
    width: int,
    height: int,
    block_at: spec_fn(int, int) -> B,
    i: int,
    j: int,
)
    requires
        0 <= width,
        0 <= height,
        0 <= i < tiles(height),
        0 <= j < tiles(width),
    ensures
        blocks_of(width, height, block_at).len() == tiles(width) * tiles(height),
        0 <= i * tiles(width) + j < tiles(width) * tiles(height),
        blocks_of(width, height, block_at)[i * tiles(width) + j] == block_at(4 * j, 4 * i),
{
    let w = tiles(width);
    let h = tiles(height);
    lemma_tiles_fit(width, height);
    lemma_tile_origin(i, j, width);
    assert(0 <= i * w + j < w * h) by (nonlinear_arith)
        requires
            0 <= i < h,
            0 <= j < w,
    ;
}

/// The cell in row `dy` and column `dx` of a tile holds the pixel at
/// position `(x + dx) + (y + dy) * width` of the buffer; it is blank where
/// the buffer ends before that position.
pub proof fn lemma_tile_cell<T: Pixel>(pixels: Seq<T>, x: int, y: int, width: int, dx: int, dy: int)
    requires
        0 <= dx < 4,
        0 <= dy < 4,
    ensures
        tile(pixels, x, y, width).len() == 16,
        tile(pixels, x, y, width)[4 * dy + dx] == pixel_at(
            pixels,
            (x + dx) + (y + dy) * width,
        ),
        (x + dx) + (y + dy) * width >= pixels.len() ==> tile(pixels, x, y, width)[4 * dy + dx]
            == T::blank(),
{
}

/// A pixel of the image that lies in a tile is found in the tile at its
/// own place: the pixel in column `x + dx` of row `y + dy`, in row `dy` and
/// column `dx` of the tile that begins at column `x` of row `y`.
pub proof fn lemma_tile_holds_image<T: Pixel>(
    pixels: Seq<T>,
    width: int,
    height: int,
    x: int,
    y: int,
    dx: int,
    dy: int,
)
    requires
        pixels.len() >= width * height,
        0 <= x,
        0 <= y,
        0 <= dx < 4,
        0 <= dy < 4,
        x + dx < width,
        y + dy < height,
    ensures
        0 <= (y + dy) * width + (x + dx) < pixels.len(),
        tile(pixels, x, y, width)[4 * dy + dx] == pixels[(y + dy) * width + (x + dx)],
{
    let row = y + dy;
    let column = x + dx;
    assert(0 <= row * width + column < width * height) by (nonlinear_arith)
        requires
            0 <= row < height,
            0 <= column < width,
    ;
    lemma_tile_cell(pixels, x, y, width, dx, dy);
}

/// Sixteen equal 2-bit indices pack to the table that holds the index in
/// each of its sixteen fields.
pub proof fn lemma_color_table_uniform(indices: Seq<int>, index: int)
    requires
        indices.len() == 16,
        forall|k: int| 0 <= k < 16 ==> #[trigger] indices[k] == index,
    ensures
        color_table_of(indices) == index * 0x5555_5555,
{
    assert(packed_from(indices, 4, 16) == 0);
    assert(packed_from(indices, 4, 15) == indices[15] + 4 * packed_from(indices, 4, 16));
    assert(packed_from(indices, 4, 14) == indices[14] + 4 * packed_from(indices, 4, 15));
    assert(packed_from(indices, 4, 13) == indices[13] + 4 * packed_from(indices, 4, 14));
    assert(packed_from(indices, 4, 12) == indices[12] + 4 * packed_from(indices, 4, 13));
    assert(packed_from(indices, 4, 11) == indices[11] + 4 * packed_from(indices, 4, 12));
    assert(packed_from(indices, 4, 10) == indices[10] + 4 * packed_from(indices, 4, 11));
    assert(packed_from(indices, 4, 9) == indices[9] + 4 * packed_from(indices, 4, 10));
    assert(packed_from(indices, 4, 8) == indices[8] + 4 * packed_from(indices, 4, 9));
    assert(packed_from(indices, 4, 7) == indices[7] + 4 * packed_from(indices, 4, 8));
    assert(packed_from(indices, 4, 6) == indices[6] + 4 * packed_from(indices, 4, 7));
    assert(packed_from(indices, 4, 5) == indices[5] + 4 * packed_from(indices, 4, 6));
    assert(packed_from(indices, 4, 4) == indices[4] + 4 * packed_from(indices, 4, 5));
    assert(packed_from(indices, 4, 3) == indices[3] + 4 * packed_from(indices, 4, 4));
    assert(packed_from(indices, 4, 2) == indices[2] + 4 * packed_from(indices, 4, 3));
    assert(packed_from(indices, 4, 1) == indices[1] + 4 * packed_from(indices, 4, 2));
    assert(packed_from(indices, 4, 0) == indices[0] + 4 * packed_from(indices, 4, 1));
}

/// Reading field `k` of a packed colour table gives back index `k`.
pub proof fn lemma_color_table_field(indices: Seq<int>, k: int)
    requires
        indices.len() == 16,
        are_digits(indices, 4),
        0 <= k < 16,
    ensures
        digit(color_table_of(indices), 4, k as nat) == indices[k],
{
    lemma_digit_of_packed(indices, 4, k as nat);
}

/// The palette entry of a pixel is one of the four entries.
pub proof fn lemma_color_index_range<T: Pixel>(pixel: T, palette: Seq<Rgb>, punch_through: bool)
    requires
        palette.len() == 4,
    ensures
        0 <= color_index(pixel, palette, punch_through) < 4,
{
    lemma_first_min_exists(palette_gaps(pixel@.rgb, palette));
}

/// Sixteen 2-bit indices pack to a number of 32 bits.
pub proof fn lemma_color_table_bound(indices: Seq<int>)
    requires
        indices.len() == 16,
        are_digits(indices, 4),
    ensures
        0 <= color_table_of(indices) <= 0xffff_ffff,
{
    assert(forall|k: int| 0 <= k < 16 ==> 0 <= #[trigger] indices[k] < 4);
    assert(packed_from(indices, 4, 16) == 0);
    assert(packed_from(indices, 4, 15) == indices[15] + 4 * packed_from(indices, 4, 16));
    assert(packed_from(indices, 4, 14) == indices[14] + 4 * packed_from(indices, 4, 15));
    assert(packed_from(indices, 4, 13) == indices[13] + 4 * packed_from(indices, 4, 14));
    assert(packed_from(indices, 4, 12) == indices[12] + 4 * packed_from(indices, 4, 13));
    assert(packed_from(indices, 4, 11) == indices[11] + 4 * packed_from(indices, 4, 12));
    assert(packed_from(indices, 4, 10) == indices[10] + 4 * packed_from(indices, 4, 11));
    assert(packed_from(indices, 4, 9) == indices[9] + 4 * packed_from(indices, 4, 10));
    assert(packed_from(indices, 4, 8) == indices[8] + 4 * packed_from(indices, 4, 9));
    assert(packed_from(indices, 4, 7) == indices[7] + 4 * packed_from(indices, 4, 8));
    assert(packed_from(indices, 4, 6) == indices[6] + 4 * packed_from(indices, 4, 7));
    assert(packed_from(indices, 4, 5) == indices[5] + 4 * packed_from(indices, 4, 6));
    assert(packed_from(indices, 4, 4) == indices[4] + 4 * packed_from(indices, 4, 5));
    assert(packed_from(indices, 4, 3) == indices[3] + 4 * packed_from(indices, 4, 4));
    assert(packed_from(indices, 4, 2) == indices[2] + 4 * packed_from(indices, 4, 3));
    assert(packed_from(indices, 4, 1) == indices[1] + 4 * packed_from(indices, 4, 2));
    assert(packed_from(indices, 4, 0) == indices[0] + 4 * packed_from(indices, 4, 1));
}

/// The colour table of a block holds the palette entry of each pixel:
/// field `k` of the table, read as a decoder reads it, is the entry of
/// pixel `k`.
pub proof fn lemma_color_table_round_trip<T: Pixel>(
    block: Seq<T>,
    palette: Seq<Rgb>,
    punch_through: bool,
    k: int,
)
    requires
        block.len() == 16,
        palette.len() == 4,
        0 <= k < 16,
    ensures
        0 <= color_table_of(color_indices(block, palette, punch_through)) <= 0xffff_ffff,
        digit(color_table_of(color_indices(block, palette, punch_through)), 4, k as nat)
            == color_index(block[k], palette, punch_through),
{
    let indices = color_indices(block, palette, punch_through);
    assert forall|n: int| 0 <= n < indices.len() implies 0 <= #[trigger] indices[n] < 4 by {
        lemma_color_index_range(block[n], palette, punch_through);
    }
    lemma_color_table_bound(indices);
    lemma_color_table_field(indices, k);
}

} // verus!
