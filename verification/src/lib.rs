//! Texture block compression.
//!
//! Encoders from raw pixels to the GPU block formats BC1 (DXT1), BC3 (DXT5)
//! and BC4 (one or two grey channels). Every encoder works on independent
//! tiles of 4×4 pixels: it picks two endpoints, derives a small palette from
//! them, gives each pixel the index of the closest palette entry and packs
//! the indices into the bit fields of the format.
//!
//! Each executable function carries a contract over a mathematical model of
//! its result; the models are the `spec` functions of the module that owns
//! the function.

pub mod bc1;
pub mod bc3;
pub mod bc4;
pub mod color;
pub mod utils;


pub use crate::bc1::{encode_image_bc1, encode_image_bc1_conv_u8};
pub use crate::bc3::{encode_image_bc3, encode_image_bc3_conv_u8};
pub use crate::bc4::{
    encode_image_bc4_r8, encode_image_bc4_r8_conv_u8, encode_image_bc4_rg8,
    encode_image_bc4_rg8_conv_u8,
};
