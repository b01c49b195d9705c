use tbc::bc1::{encode_block_bc1, Block8};
use tbc::bc3::{encode_block_bc3, Block16};
use tbc::bc4::GreyScaleBlock8;
use tbc::color::{Rgb8, Rgba8};

fn rgba_block(pixel: impl Fn(u8) -> (u8, u8, u8, u8)) -> [Rgba8; 16] {
    let mut block = [Rgba8::default(); 16];
    for k in 0..16 {
        let (r, g, b, a) = pixel(k as u8);
        block[k] = Rgba8::new(r, g, b, a);
    }
    block
}

fn rgb_block(pixel: impl Fn(u8) -> (u8, u8, u8)) -> [Rgb8; 16] {
    let mut block = [Rgb8::default(); 16];
    for k in 0..16 {
        let (r, g, b) = pixel(k as u8);
        block[k] = Rgb8::new(r, g, b);
    }
    block
}

#[test]
fn test_encode_block() {
    let block = [
        // First row.
        Rgba8::new(0, 0, 0, 0),
        Rgba8::new(64, 0, 0, 0),
        Rgba8::new(128, 0, 0, 0),
        Rgba8::new(255, 0, 0, 0),
        // Second row.
        Rgba8::new(0, 0, 0, 0),
        Rgba8::new(64, 0, 0, 0),
        Rgba8::new(128, 0, 0, 0),
        Rgba8::new(255, 0, 0, 0),
        // Third row.
        Rgba8::new(0, 0, 0, 0),
        Rgba8::new(64, 0, 0, 0),
        Rgba8::new(128, 0, 0, 0),
        Rgba8::new(255, 0, 0, 0),
        // Fourth row.
        Rgba8::new(0, 0, 0, 0),
        Rgba8::new(64, 0, 0, 0),
        Rgba8::new(128, 0, 0, 0),
        Rgba8::new(255, 0, 0, 0),
    ];

    assert_eq!(
        encode_block_bc1(block),
        Block8 {
            max: 63488,
            min: 0,
            color_table: 4294967295,
        }
    );
}

#[test]
fn bc1_opaque_pixels_are_matched_by_colour() {
    // The same reds without an opacity: 0 and 64 are closest to the lower
    // endpoint and its neighbour, 128 and 255 to the upper ones.
    let block = rgb_block(|k| ([0, 64, 128, 255][(k % 4) as usize], 0, 0));
    assert_eq!(
        encode_block_bc1(block),
        Block8 { max: 63488, min: 0, color_table: 757935405 }
    );
}

#[test]
fn bc1_uniform_block_selects_entry_zero() {
    let block = rgb_block(|_| (200, 100, 50));
    assert_eq!(
        encode_block_bc1(block),
        Block8 { max: 52006, min: 52006, color_table: 0 }
    );
    let block = rgba_block(|_| (200, 100, 50, 128));
    assert_eq!(
        encode_block_bc1(block),
        Block8 { max: 52006, min: 52006, color_table: 0 }
    );
}

#[test]
fn bc1_uniform_transparent_block_selects_entry_three() {
    let block = rgba_block(|_| (200, 100, 50, 127));
    assert_eq!(
        encode_block_bc1(block),
        Block8 { max: 52006, min: 52006, color_table: 0xffff_ffff }
    );
}

#[test]
fn bc1_transparent_pixels_are_forced_to_entry_three() {
    let block = rgba_block(|k| (200, 100, 50, if k % 2 == 0 { 255 } else { 0 }));
    assert_eq!(
        encode_block_bc1(block),
        Block8 { max: 52006, min: 52006, color_table: 3435973836 }
    );
}

#[test]
fn bc1_endpoints_change_places_when_the_brighter_quantizes_lower() {
    // Green is brighter than red, but red has the greater 16-bit value.
    let block = rgb_block(|k| if k < 8 { (255, 0, 0) } else { (0, 255, 0) });
    let encoded = encode_block_bc1(block);
    assert_eq!(encoded, Block8 { max: 63488, min: 2016, color_table: 1431633920 });
    assert!(encoded.max >= encoded.min);
}

#[test]
fn bc1_degenerate_block_with_opacity_uses_the_transparent_palette() {
    let pixel = |k: u8| (16 * k, 255 - 16 * k, 7 * k);
    let with_alpha = rgba_block(|k| {
        let (r, g, b) = pixel(k);
        (r, g, b, 255)
    });
    assert_eq!(
        encode_block_bc1(with_alpha),
        Block8 { max: 61549, min: 2016, color_table: 11184725 }
    );
    let without_alpha = rgb_block(pixel);
    assert_eq!(
        encode_block_bc1(without_alpha),
        Block8 { max: 61549, min: 2016, color_table: 44761045 }
    );
}

#[test]
fn bc1_mixed_opacity() {
    let pixel = |k: u8| match k % 3 {
        0 => (250, 240, 230, 255),
        1 => (20, 30, 40, 0),
        _ => (128, 128, 128, 127 + (k % 2)),
    };
    assert_eq!(
        encode_block_bc1(rgba_block(pixel)),
        Block8 { max: 65436, min: 4325, color_table: 1022611260 }
    );
    assert_eq!(
        encode_block_bc1(rgb_block(|k| {
            let (r, g, b, _) = pixel(k);
            (r, g, b)
        })),
        Block8 { max: 65436, min: 4325, color_table: 886263092 }
    );
}

#[test]
fn bc1_first_of_equally_bright_pixels_is_the_endpoint() {
    // Red, green and blue here are equally bright; red comes first.
    let block = rgb_block(|k| [(100, 0, 0), (0, 50, 0), (0, 0, 100), (10, 10, 10)][(k % 4) as usize]);
    assert_eq!(
        encode_block_bc1(block),
        Block8 { max: 24576, min: 2113, color_table: 1414812756 }
    );
}

#[test]
fn bc3_never_forces_entry_three() {
    let pixel = |k: u8| match k % 3 {
        0 => (250, 240, 230, 255),
        1 => (20, 30, 40, 0),
        _ => (128, 128, 128, 127 + (k % 2)),
    };
    assert_eq!(
        encode_block_bc3(rgba_block(pixel)),
        Block16 {
            alpha_block: GreyScaleBlock8 {
                max_alpha: 255,
                min_alpha: 0,
                alpha_table: [8, 145, 34, 68, 138, 16],
            },
            max: 65436,
            min: 4325,
            color_table: 886263092,
        }
    );
}

#[test]
fn bc3_uniform_block() {
    let encoded = encode_block_bc3(rgba_block(|_| (200, 100, 50, 0)));
    assert_eq!(
        encoded,
        Block16 {
            alpha_block: GreyScaleBlock8 { max_alpha: 0, min_alpha: 0, alpha_table: [0; 6] },
            max: 52006,
            min: 52006,
            color_table: 0,
        }
    );
}

#[test]
fn bc3_half_transparent_block() {
    let block = rgba_block(|k| (200, 100, 50, if k % 2 == 0 { 255 } else { 0 }));
    assert_eq!(
        encode_block_bc3(block),
        Block16 {
            alpha_block: GreyScaleBlock8 {
                max_alpha: 255,
                min_alpha: 0,
                alpha_table: [8, 130, 32, 8, 130, 32],
            },
            max: 52006,
            min: 52006,
            color_table: 0,
        }
    );
}

#[test]
fn bc3_of_opaque_pixels() {
    let block = rgb_block(|k| (16 * k, 255 - 16 * k, 7 * k));
    assert_eq!(
        encode_block_bc3(block),
        Block16 {
            alpha_block: GreyScaleBlock8 { max_alpha: 255, min_alpha: 255, alpha_table: [0; 6] },
            max: 61549,
            min: 2016,
            color_table: 44761045,
        }
    );
}
