use tbc::bc1::{encode_block_bc1, Block8};
use tbc::bc3::{encode_block_bc3, Block16};
use tbc::bc4::{encode_block_bc4, GreyScaleBlock16, GreyScaleBlock8};
use tbc::color::{ColorRed8, ColorSource, Red8, RedGreen8, Rgb8, Rgba8};
use tbc::utils::{
    ceil_div_4, encode_color_table_bc1_bc3, encode_image, fetch_block, fetch_or_default, push_u16,
    push_u32, to_bytes,
};
use tbc::{
    encode_image_bc1, encode_image_bc1_conv_u8, encode_image_bc3, encode_image_bc3_conv_u8,
    encode_image_bc4_r8, encode_image_bc4_r8_conv_u8, encode_image_bc4_rg8,
    encode_image_bc4_rg8_conv_u8,
};

fn rgb_image(width: usize, height: usize) -> Vec<Rgb8> {
    let mut pixels = Vec::new();
    for y in 0..height {
        for x in 0..width {
            pixels.push(Rgb8::new((x * 40 % 256) as u8, (y * 50 % 256) as u8, (x * y * 7 % 256) as u8));
        }
    }
    pixels
}

fn rgba_image(width: usize, height: usize) -> Vec<Rgba8> {
    let mut pixels = Vec::new();
    for y in 0..height {
        for x in 0..width {
            pixels.push(Rgba8::new(
                (x * 40 % 256) as u8,
                (y * 50 % 256) as u8,
                (x * y * 7 % 256) as u8,
                ((x * 60 + y * 13) % 256) as u8,
            ));
        }
    }
    pixels
}

fn grey_image(width: usize, height: usize) -> Vec<RedGreen8> {
    let mut pixels = Vec::new();
    for y in 0..height {
        for x in 0..width {
            pixels.push(RedGreen8::new(((x * 37 + y * 91) % 256) as u8, ((x * 11 + y * 5) % 256) as u8));
        }
    }
    pixels
}

fn block8(max: u16, min: u16, color_table: u32) -> Block8 {
    Block8 { max, min, color_table }
}

fn grey8(max_alpha: u8, min_alpha: u8, alpha_table: [u8; 6]) -> GreyScaleBlock8 {
    GreyScaleBlock8 { max_alpha, min_alpha, alpha_table }
}

#[test]
fn ceil_div_4_rounds_up() {
    assert_eq!(ceil_div_4(0), 0);
    assert_eq!(ceil_div_4(1), 1);
    assert_eq!(ceil_div_4(4), 1);
    assert_eq!(ceil_div_4(5), 2);
    assert_eq!(ceil_div_4(8), 2);
    assert_eq!(ceil_div_4(9), 3);
    assert_eq!(ceil_div_4(usize::MAX), usize::MAX / 4 + 1);
    assert_eq!(ceil_div_4(usize::MAX - 3), usize::MAX / 4);
}

#[test]
fn fetch_or_default_past_the_end() {
    let pixels = [Red8::new(5), Red8::new(6)];
    assert_eq!(fetch_or_default(&pixels, 0).red(), 5);
    assert_eq!(fetch_or_default(&pixels, 1).red(), 6);
    assert_eq!(fetch_or_default(&pixels, 2).red(), 0);
    assert_eq!(fetch_or_default(&pixels, usize::MAX).red(), 0);
    let none: [Rgba8; 0] = [];
    assert_eq!(fetch_or_default(&none, 0).alpha(), 0);
}

#[test]
fn fetch_block_inside_the_image() {
    let pixels: Vec<Red8> = (0..64u8).map(Red8::new).collect();
    let block = fetch_block(&pixels, 4, 4, 8);
    let expected = [36, 37, 38, 39, 44, 45, 46, 47, 52, 53, 54, 55, 60, 61, 62, 63];
    for k in 0..16 {
        assert_eq!(block[k].red(), expected[k]);
    }
}

#[test]
fn fetch_block_below_the_image_is_blank() {
    // Five rows of four pixels: the second row of tiles has one row of the
    // image and three rows of blank pixels.
    let pixels: Vec<Red8> = (1..=20u8).map(Red8::new).collect();
    let block = fetch_block(&pixels, 0, 4, 4);
    let expected = [17, 18, 19, 20, 0, 0, 0, 0, 0, 0, 0, 0, 0, 0, 0, 0];
    for k in 0..16 {
        assert_eq!(block[k].red(), expected[k]);
    }
}

#[test]
fn fetch_block_right_of_the_image_goes_on_in_the_next_row() {
    // Five rows of five pixels. The tile at column 4 has one column of the
    // image; its other cells are decided by their position in the buffer
    // alone, so they hold the beginning of the next row, and blank pixels
    // where the buffer has ended.
    let pixels: Vec<Red8> = (1..=25u8).map(Red8::new).collect();
    let block = fetch_block(&pixels, 4, 0, 5);
    let expected = [5, 6, 7, 8, 10, 11, 12, 13, 15, 16, 17, 18, 20, 21, 22, 23];
    for k in 0..16 {
        assert_eq!(block[k].red(), expected[k]);
    }
    let block = fetch_block(&pixels, 4, 4, 5);
    let expected = [25, 0, 0, 0, 0, 0, 0, 0, 0, 0, 0, 0, 0, 0, 0, 0];
    for k in 0..16 {
        assert_eq!(block[k].red(), expected[k]);
    }
}

#[test]
fn fetch_block_far_outside_is_blank() {
    let pixels: Vec<Rgba8> = vec![Rgba8::new(9, 9, 9, 9); 16];
    for (x, y, width) in [
        (usize::MAX, usize::MAX, usize::MAX),
        (0, usize::MAX, usize::MAX),
        (usize::MAX, 0, 4),
        (0, usize::MAX, 1),
        (16, 0, 4),
    ] {
        let block = fetch_block(&pixels, x, y, width);
        for k in 0..16 {
            assert_eq!(block[k].alpha(), 0);
            assert_eq!(block[k].luminance(), 0);
        }
    }
    // With no width every row begins at position 0.
    let block = fetch_block(&pixels, 0, usize::MAX, 0);
    for k in 0..16 {
        assert_eq!(block[k].alpha(), 9);
    }
}

#[test]
fn color_table_holds_index_zero_in_the_lowest_bits() {
    let palette = [Rgb8::new(0, 0, 0), Rgb8::new(60, 0, 0), Rgb8::new(120, 0, 0), Rgb8::new(180, 0, 0)];
    let mut block = [Rgb8::new(0, 0, 0); 16];
    block[0] = Rgb8::new(180, 0, 0);
    assert_eq!(encode_color_table_bc1_bc3(&block, palette, false), 3);
    block[1] = Rgb8::new(60, 0, 0);
    assert_eq!(encode_color_table_bc1_bc3(&block, palette, false), 3 | 1 << 2);
    block[15] = Rgb8::new(120, 0, 0);
    assert_eq!(encode_color_table_bc1_bc3(&block, palette, false), 3 | 1 << 2 | 2 << 30);
    // 30 is as far from entry 0 as from entry 1: the first wins.
    block[2] = Rgb8::new(30, 0, 0);
    assert_eq!(encode_color_table_bc1_bc3(&block, palette, false), 3 | 1 << 2 | 2 << 30);
    block[2] = Rgb8::new(31, 0, 0);
    assert_eq!(encode_color_table_bc1_bc3(&block, palette, false), 3 | 1 << 2 | 1 << 4 | 2 << 30);
    // Pixels without an opacity are never forced.
    assert_eq!(encode_color_table_bc1_bc3(&block, palette, true), 3 | 1 << 2 | 1 << 4 | 2 << 30);
}

#[test]
fn color_table_forces_transparent_pixels() {
    let palette = [
        Rgba8::new(0, 0, 0, 255),
        Rgba8::new(60, 0, 0, 255),
        Rgba8::new(120, 0, 0, 255),
        Rgba8::new(180, 0, 0, 255),
    ];
    let mut block = [Rgba8::new(0, 0, 0, 255); 16];
    block[0] = Rgba8::new(0, 0, 0, 127);
    block[1] = Rgba8::new(0, 0, 0, 128);
    block[2] = Rgba8::new(60, 0, 0, 0);
    assert_eq!(encode_color_table_bc1_bc3(&block, palette, true), 3 | 3 << 4);
    assert_eq!(encode_color_table_bc1_bc3(&block, palette, false), 1 << 4);
}

#[test]
fn tiles_are_taken_row_by_row() {
    let pixels: Vec<Red8> = (0..48u8).map(Red8::new).collect();
    // Twelve columns, four rows: three tiles in one row.
    let corners = encode_image(&pixels, 12, 4, |p: &[Red8], x: usize, y: usize, _w: usize| (x, y, p.len()));
    assert_eq!(corners, vec![(0, 0, 48), (4, 0, 48), (8, 0, 48)]);
    // Five columns, nine rows: two tiles in each of three rows.
    let corners = encode_image(&pixels, 5, 9, |_: &[Red8], x: usize, y: usize, w: usize| (x, y, w));
    assert_eq!(corners, vec![(0, 0, 5), (4, 0, 5), (0, 4, 5), (4, 4, 5), (0, 8, 5), (4, 8, 5)]);
}

#[test]
fn number_of_blocks() {
    for (width, height, blocks) in [
        (0, 0, 0),
        (0, 7, 0),
        (7, 0, 0),
        (1, 1, 1),
        (4, 4, 1),
        (5, 4, 2),
        (4, 5, 2),
        (5, 5, 4),
        (8, 8, 4),
        (9, 13, 12),
        (16, 3, 4),
    ] {
        let rgb = rgb_image(width, height);
        let rgba = rgba_image(width, height);
        let grey = grey_image(width, height);
        assert_eq!(encode_image_bc1(&rgb, width, height).len(), blocks);
        assert_eq!(encode_image_bc1(&rgba, width, height).len(), blocks);
        assert_eq!(encode_image_bc3(&rgba, width, height).len(), blocks);
        assert_eq!(encode_image_bc4_r8(&grey, width, height).len(), blocks);
        assert_eq!(encode_image_bc4_rg8(&grey, width, height).len(), blocks);
        assert_eq!(encode_image_bc1_conv_u8(&rgb, width, height).len(), 8 * blocks);
        assert_eq!(encode_image_bc3_conv_u8(&rgba, width, height).len(), 16 * blocks);
        assert_eq!(encode_image_bc4_r8_conv_u8(&grey, width, height).len(), 8 * blocks);
        assert_eq!(encode_image_bc4_rg8_conv_u8(&grey, width, height).len(), 16 * blocks);
    }
}

#[test]
fn each_block_is_the_encoding_of_its_tile() {
    let (width, height) = (9, 13);
    let rgba = rgba_image(width, height);
    let grey = grey_image(width, height);
    let bc1 = encode_image_bc1(&rgba, width, height);
    let bc3 = encode_image_bc3(&rgba, width, height);
    let r8 = encode_image_bc4_r8(&grey, width, height);
    let rg8 = encode_image_bc4_rg8(&grey, width, height);
    let across = 3;
    for i in 0..4 {
        for j in 0..across {
            let tile = fetch_block(&rgba, 4 * j, 4 * i, width);
            assert_eq!(bc1[i * across + j], encode_block_bc1(tile));
            assert_eq!(bc3[i * across + j], encode_block_bc3(tile));
            let tile = fetch_block(&grey, 4 * j, 4 * i, width);
            let mut reds = [0u8; 16];
            let mut greens = [0u8; 16];
            for k in 0..16 {
                reds[k] = tile[k].red();
                greens[k] = tbc::color::ColorRedGreen8::green(&tile[k]);
            }
            assert_eq!(r8[i * across + j], encode_block_bc4(&reds));
            assert_eq!(rg8[i * across + j].r, encode_block_bc4(&reds));
            assert_eq!(rg8[i * across + j].g, encode_block_bc4(&greens));
        }
    }
}

#[test]
fn pixels_of_the_image_are_found_in_their_tile() {
    let (width, height) = (9usize, 6usize);
    let pixels: Vec<Red8> = (0..54u8).map(Red8::new).collect();
    for y in 0..height {
        for x in 0..width {
            let tile = fetch_block(&pixels, x / 4 * 4, y / 4 * 4, width);
            assert_eq!(tile[4 * (y % 4) + x % 4].red(), (y * width + x) as u8);
        }
    }
}

#[test]
fn bc1_image_of_opaque_pixels() {
    assert_eq!(
        encode_image_bc1(&rgb_image(5, 5), 5, 5),
        vec![
            block8(31911, 0, 179027957),
            block8(42154, 384, 2898196183),
            block8(32330, 0, 1431655690),
            block8(42574, 0, 1431655764),
        ]
    );
    assert_eq!(
        encode_image_bc1(&rgb_image(8, 4), 8, 4),
        vec![block8(31911, 0, 179027957), block8(62639, 6144, 3268045679)]
    );
    assert_eq!(
        encode_image_bc1(&rgb_image(4, 8), 4, 8),
        vec![block8(31911, 0, 179027957), block8(32717, 352, 3186952875)]
    );
    assert_eq!(encode_image_bc1(&rgb_image(1, 1), 1, 1), vec![block8(0, 0, 0)]);
    assert_eq!(
        encode_image_bc1(&rgb_image(7, 2), 7, 2),
        vec![block8(31106, 0, 1431645613), block8(61829, 0, 1431650890)]
    );
}

#[test]
fn bc1_image_with_opacity() {
    assert_eq!(
        encode_image_bc1(&rgba_image(5, 5), 5, 5),
        vec![
            block8(31911, 0, 263176191),
            block8(42154, 384, 3217030911),
            block8(32330, 0, 4294967055),
            block8(42574, 0, 4294967295),
        ]
    );
    assert_eq!(
        encode_image_bc1(&rgba_image(6, 3), 6, 3),
        vec![block8(31525, 0, 4281315263), block8(52008, 0, 4294967038)]
    );
}

#[test]
fn bc1_bytes_follow_the_fields() {
    assert_eq!(
        encode_image_bc1_conv_u8(&rgb_image(5, 5), 5, 5),
        vec![
            167, 124, 0, 0, 245, 191, 171, 10, 170, 164, 128, 1, 215, 246, 190, 172, 74, 126, 0, 0,
            10, 85, 85, 85, 78, 166, 0, 0, 84, 85, 85, 85,
        ]
    );
    assert_eq!(encode_image_bc1_conv_u8(&rgb_image(1, 1), 1, 1), vec![0; 8]);
    assert_eq!(encode_image_bc1_conv_u8(&rgb_image(0, 0), 0, 0), Vec::<u8>::new());
    assert_eq!(
        to_bytes(&vec![block8(0x1234, 0x5678, 0x9abc_def0)]),
        vec![0x34, 0x12, 0x78, 0x56, 0xf0, 0xde, 0xbc, 0x9a]
    );
}

#[test]
fn bc3_image() {
    let block = |alpha: GreyScaleBlock8, max: u16, min: u16, color_table: u32| Block16 {
        alpha_block: alpha,
        max,
        min,
        color_table,
    };
    assert_eq!(
        encode_image_bc3(&rgba_image(5, 5), 5, 5),
        vec![
            block(grey8(219, 0, [89, 159, 245, 162, 33, 26]), 31911, 0, 179027957),
            block(grey8(253, 10, [200, 138, 172, 17, 27, 209]), 42154, 384, 2898196183),
            block(grey8(232, 0, [163, 145, 36, 73, 146, 36]), 32330, 0, 1431655690),
            block(grey8(36, 0, [72, 146, 36, 73, 146, 36]), 42574, 0, 1431655764),
        ]
    );
    assert_eq!(
        encode_image_bc3(&rgba_image(6, 3), 6, 3),
        vec![
            block(grey8(206, 0, [89, 159, 25, 162, 145, 36]), 31525, 0, 1428926397),
            block(grey8(253, 0, [80, 134, 105, 89, 146, 36]), 52008, 0, 1431368410),
        ]
    );
}

#[test]
fn bc3_bytes_hold_the_opacity_block_first() {
    assert_eq!(
        encode_image_bc3_conv_u8(&rgba_image(6, 3), 6, 3),
        vec![
            206, 0, 89, 159, 25, 162, 145, 36, 37, 123, 0, 0, 189, 175, 43, 85, 253, 0, 80, 134, 105,
            89, 146, 36, 40, 203, 0, 0, 218, 242, 80, 85,
        ]
    );
    assert_eq!(
        encode_image_bc3_conv_u8(&rgba_image(5, 5), 5, 5),
        vec![
            219, 0, 89, 159, 245, 162, 33, 26, 167, 124, 0, 0, 245, 191, 171, 10, 253, 10, 200, 138,
            172, 17, 27, 209, 170, 164, 128, 1, 215, 246, 190, 172, 232, 0, 163, 145, 36, 73, 146,
            36, 74, 126, 0, 0, 10, 85, 85, 85, 36, 0, 72, 146, 36, 73, 146, 36, 78, 166, 0, 0, 84,
            85, 85, 85,
        ]
    );
}

#[test]
fn bc4_image_of_one_channel() {
    assert_eq!(
        encode_image_bc4_r8(&grey_image(5, 3), 5, 3),
        vec![
            grey8(219, 0, [209, 202, 250, 71, 148, 36]),
            grey8(239, 0, [101, 13, 63, 75, 146, 36]),
        ]
    );
    assert_eq!(
        encode_image_bc4_r8_conv_u8(&grey_image(5, 3), 5, 3),
        vec![219, 0, 209, 202, 250, 71, 148, 36, 239, 0, 101, 13, 63, 75, 146, 36]
    );
    let reds: Vec<Red8> = grey_image(4, 4).iter().map(|p| Red8::new(p.red())).collect();
    assert_eq!(
        encode_image_bc4_r8(&reds, 4, 4),
        vec![grey8(219, 0, [209, 202, 250, 71, 164, 177])]
    );
    assert_eq!(
        encode_image_bc4_r8_conv_u8(&reds, 4, 4),
        vec![219, 0, 209, 202, 250, 71, 164, 177]
    );
}

#[test]
fn bc4_image_of_two_channels() {
    assert_eq!(
        encode_image_bc4_rg8(&grey_image(5, 3), 5, 3),
        vec![
            GreyScaleBlock16 {
                r: grey8(219, 0, [209, 202, 250, 71, 148, 36]),
                g: grey8(43, 0, [89, 45, 246, 163, 145, 36]),
            },
            GreyScaleBlock16 {
                r: grey8(239, 0, [101, 13, 63, 75, 146, 36]),
                g: grey8(54, 0, [215, 122, 177, 72, 146, 36]),
            },
        ]
    );
    assert_eq!(
        encode_image_bc4_rg8_conv_u8(&grey_image(5, 3), 5, 3),
        vec![
            219, 0, 209, 202, 250, 71, 148, 36, 43, 0, 89, 45, 246, 163, 145, 36, 239, 0, 101, 13, 63,
            75, 146, 36, 54, 0, 215, 122, 177, 72, 146, 36,
        ]
    );
    assert_eq!(
        encode_image_bc4_rg8_conv_u8(&grey_image(4, 4), 4, 4),
        vec![219, 0, 209, 202, 250, 71, 164, 177, 48, 0, 25, 173, 245, 163, 191, 26]
    );
}

#[test]
fn a_buffer_longer_than_the_image_shows_below_it() {
    // Six rows in the buffer, four declared: the tiles do not reach row 4.
    let pixels = rgb_image(4, 6);
    assert_eq!(encode_image_bc1(&pixels, 4, 4), encode_image_bc1(&rgb_image(4, 4), 4, 4));
    // Five rows declared: the second tile holds row 5 of the buffer too.
    let tiles = encode_image_bc1(&pixels, 4, 5);
    assert_eq!(tiles[1], encode_block_bc1(fetch_block(&pixels, 0, 4, 4)));
    assert_eq!(tiles[1], encode_image_bc1(&pixels, 4, 6)[1]);
}

#[test]
fn little_endian_fields() {
    let mut out = vec![9u8];
    push_u16(&mut out, 0xabcd);
    push_u32(&mut out, 0x0102_0304);
    assert_eq!(out, vec![9, 0xcd, 0xab, 4, 3, 2, 1]);
}
