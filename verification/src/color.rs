//! The colour model: what a pixel is, and the arithmetic on its channels
//! that the encoders are built from.

use crate::utils::{
    first_max, first_min, is_first_max, is_first_min, lemma_first_max_step,
    lemma_first_max_unique, lemma_first_min_step, lemma_first_min_unique,
};
use vstd::prelude::*;

verus! {

/// A colour as three 8-bit channels.
pub struct Rgb {
    pub r: u8,
    pub g: u8,
    pub b: u8,
}

/// What a pixel holds: its colour and its opacity. A pixel type that
/// stores fewer channels shows 0 for a colour channel it lacks and 255 for
/// a missing opacity.
pub struct Channels {
    pub rgb: Rgb,
    pub a: u8,
}

/// The colour with all channels at zero.
pub open spec fn black() -> Rgb {
    Rgb { r: 0, g: 0, b: 0 }
}

/// The brightness that endpoints are chosen by: red and blue once, green
/// twice.
pub open spec fn luminance_of(c: Rgb) -> int {
    c.r + 2 * c.g + c.b
}

/// The 16-bit form of a colour: the upper five bits of red, the upper six
/// of green and the upper five of blue, red highest. The lower bits of each
/// channel are dropped.
pub open spec fn quantize_565(c: Rgb) -> u16 {
    ((c.r / 8) * 2048 + (c.g / 4) * 32 + c.b / 8) as u16
}

/// The colour that a 16-bit value stands for, with the dropped bits of each
/// channel at zero.
pub open spec fn expand_565(v: u16) -> Rgb {
    Rgb { r: ((v / 2048) * 8) as u8, g: (((v / 32) % 64) * 4) as u8, b: ((v % 32) * 8) as u8 }
}

/// The squared distance of two colours. Opacity plays no part in it.
pub open spec fn sqr_distance_of(x: Rgb, y: Rgb) -> int {
    (x.r - y.r) * (x.r - y.r) + (x.g - y.g) * (x.g - y.g) + (x.b - y.b) * (x.b - y.b)
}

/// The mean of `a` and `b` with weights `wa` and `wb`, rounded towards zero.
pub open spec fn weighted_mean(wa: int, a: int, wb: int, b: int) -> int {
    (wa * a + wb * b) / (wa + wb)
}

/// The weighted mean, cut off at the greatest byte.
pub open spec fn saturating_mean(wa: int, a: int, wb: int, b: int) -> u8 {
    let v = weighted_mean(wa, a, wb, b);
    if v > 255 {
        255u8
    } else {
        v as u8
    }
}

/// The colour whose channels are the weighted means of the channels of `x`
/// and `y`.
pub open spec fn mix_of(wx: int, x: Rgb, wy: int, y: Rgb) -> Rgb {
    Rgb {
        r: saturating_mean(wx, x.r as int, wy, y.r as int),
        g: saturating_mean(wx, x.g as int, wy, y.g as int),
        b: saturating_mean(wx, x.b as int, wy, y.b as int),
    }
}

/// A weighted mean of two bytes lies between them, so it is a byte itself
/// and cutting it off at 255 never changes it.
pub proof fn lemma_mean_between(wa: int, a: int, wb: int, b: int)
    requires
        0 <= wa,
        0 <= wb,
        0 < wa + wb,
        0 <= a <= 255,
        0 <= b <= 255,
    ensures
        a <= b ==> a <= weighted_mean(wa, a, wb, b) <= b,
        b <= a ==> b <= weighted_mean(wa, a, wb, b) <= a,
        0 <= weighted_mean(wa, a, wb, b) <= 255,
        saturating_mean(wa, a, wb, b) == weighted_mean(wa, a, wb, b),
{
    let lo = if a <= b { a } else { b };
    let hi = if a <= b { b } else { a };
    let w = wa + wb;
    let total = wa * a + wb * b;
    assert(lo * w <= total <= hi * w) by (nonlinear_arith)
        requires
            0 <= wa,
            0 <= wb,
            w == wa + wb,
            total == wa * a + wb * b,
            lo <= a <= hi,
            lo <= b <= hi,
    ;
    assert(lo <= total / w <= hi) by (nonlinear_arith)
        requires
            0 < w,
            lo * w <= total <= hi * w,
    ;
}

/// A colour mixed with itself is the colour.
pub proof fn lemma_mix_same(wx: int, wy: int, c: Rgb)
    requires
        0 <= wx,
        0 <= wy,
        0 < wx + wy,
    ensures
        mix_of(wx, c, wy, c) == c,
{
    lemma_mean_between(wx, c.r as int, wy, c.r as int);
    lemma_mean_between(wx, c.g as int, wy, c.g as int);
    lemma_mean_between(wx, c.b as int, wy, c.b as int);
}

/// Quantizing the colour that a 16-bit value stands for gives the value
/// back.
pub proof fn lemma_quantize_expanded(v: u16)
    ensures
        quantize_565(expand_565(v)) == v,
{
    let c = expand_565(v);
    assert(c.r == (v / 2048) * 8);
    assert(c.g == ((v / 32) % 64) * 4);
    assert(c.b == (v % 32) * 8);
}

/// Quantizing is idempotent: a colour that was quantized and expanded
/// again quantizes to the same 16-bit value.
pub proof fn lemma_requantize(c: Rgb)
    ensures
        quantize_565(expand_565(quantize_565(c))) == quantize_565(c),
{
    lemma_quantize_expanded(quantize_565(c));
}

/// `(2x + y) / 3`, cut off at 255.
fn mix_2_1_over_3_saturate(x: u8, y: u8) -> (m: u8)
    ensures
        m == saturating_mean(2, x as int, 1, y as int),
{
    let v: u16 = (2 * (x as u16) + y as u16) / 3;
    if v > 255 {
        255
    } else {
        v as u8
    }
}

/// `(x + 2y) / 3`, cut off at 255.
fn mix_1_2_over_3_saturate(x: u8, y: u8) -> (m: u8)
    ensures
        m == saturating_mean(1, x as int, 2, y as int),
{
    let v: u16 = (x as u16 + 2 * (y as u16)) / 3;
    if v > 255 {
        255
    } else {
        v as u8
    }
}

/// `(x + y) / 2`, cut off at 255.
fn mix_1_1_over_2_saturate(x: u8, y: u8) -> (m: u8)
    ensures
        m == saturating_mean(1, x as int, 1, y as int),
{
    let v: u16 = (x as u16 + y as u16) / 2;
    if v > 255 {
        255
    } else {
        v as u8
    }
}

/// Packs the upper bits of three channels into 16 bits.
fn pack_565(r: u8, g: u8, b: u8) -> (v: u16)
    ensures
        v == quantize_565(Rgb { r, g, b }),
{
    let red: u16 = ((r & 0b11111000) as u16) << 8;
    let green: u16 = ((g & 0b11111100) as u16) << 3;
    let blue: u16 = (b >> 3) as u16;
    assert(red == (r / 8) * 2048) by (bit_vector)
        requires
            red == ((r & 0b11111000) as u16) << 8,
    ;
    assert(green == (g / 4) * 32) by (bit_vector)
        requires
            green == ((g & 0b11111100) as u16) << 3,
    ;
    assert(blue == b / 8) by (bit_vector)
        requires
            blue == (b >> 3) as u16,
    ;
    red + green + blue
}

/// The squared distance of two colours given by their channels.
fn channel_sqr_distance(r: u8, g: u8, b: u8, other_r: u8, other_g: u8, other_b: u8) -> (d: i32)
    ensures
        d == sqr_distance_of(Rgb { r, g, b }, Rgb { r: other_r, g: other_g, b: other_b }),
        0 <= d <= 195075,
{
    let dr = r as i32 - other_r as i32;
    let dg = g as i32 - other_g as i32;
    let db = b as i32 - other_b as i32;
    assert(0 <= dr * dr <= 65025) by (nonlinear_arith)
        requires
            -255 <= dr <= 255,
    ;
    assert(0 <= dg * dg <= 65025) by (nonlinear_arith)
        requires
            -255 <= dg <= 255,
    ;
    assert(0 <= db * db <= 65025) by (nonlinear_arith)
        requires
            -255 <= db <= 255,
    ;
    dr * dr + dg * dg + db * db
}

/// A pixel: a value that can be copied, that shows its channels, and whose
/// default is the blank pixel that stands in for whatever lies outside an
/// image.
pub trait Pixel: Copy + Default + View<V = Channels> {
    /// The blank pixel.
    spec fn blank() -> Self;

    /// `Default::default` returns the blank pixel and nothing else, and the
    /// blank pixel is black.
    proof fn lemma_default_is_blank(d: Self)
        requires
            call_ensures(Self::default, (), d),
        ensures
            d == Self::blank(),
            Self::blank()@.rgb == black(),
    ;
}

/// A pixel with colour: the operations that the BC1 and BC3 encoders need.
pub trait ColorSource: Pixel {
    /// Whether pixels of this type store an opacity.
    spec fn has_alpha() -> bool;

    /// The colour quantized to 16 bits.
    fn to_565(&self) -> (v: u16)
        ensures
            v == quantize_565(self@.rgb),
    ;

    /// The brightness of the colour.
    fn luminance(&self) -> (l: i32)
        ensures
            l == luminance_of(self@.rgb),
            0 <= l <= 1020,
    ;

    /// The squared distance to the colour of another pixel.
    fn sqr_distance(&self, other: &Self) -> (d: i32)
        ensures
            d == sqr_distance_of(self@.rgb, other@.rgb),
            0 <= d <= 195075,
    ;

    /// Two parts of this colour and one of the other.
    fn mix_2_1_over_3_saturate(&self, other: &Self) -> (m: Self)
        ensures
            m@.rgb == mix_of(2, self@.rgb, 1, other@.rgb),
    ;

    /// One part of this colour and two of the other.
    fn mix_1_2_over_3_saturate(&self, other: &Self) -> (m: Self)
        ensures
            m@.rgb == mix_of(1, self@.rgb, 2, other@.rgb),
    ;

    /// Equal parts of this colour and the other.
    fn mix_1_1_over_2_saturate(&self, other: &Self) -> (m: Self)
        ensures
            m@.rgb == mix_of(1, self@.rgb, 1, other@.rgb),
    ;

    /// Whether pixels of this type store an opacity.
    fn contains_alpha() -> (c: bool)
        ensures
            c == Self::has_alpha(),
    ;

    /// The opacity of the pixel, which is 255 where the type stores none.
    fn alpha(&self) -> (a: u8)
        ensures
            a == self@.a,
            !Self::has_alpha() ==> a == 255,
    ;
}

/// A pixel with a red channel, for one-channel BC4.
pub trait ColorRed8: Pixel {
    /// The red channel.
    fn red(&self) -> (v: u8)
        ensures
            v == self@.rgb.r,
    ;
}

/// A pixel with a red and a green channel, for two-channel BC4.
pub trait ColorRedGreen8: ColorRed8 {
    /// The green channel.
    fn green(&self) -> (v: u8)
        ensures
            v == self@.rgb.g,
    ;
}

/// A pixel of red, green, blue and opacity.
#[derive(Copy, Clone, Debug)]
pub struct Rgba8 {
    r: u8,
    g: u8,
    b: u8,
    a: u8,
}

impl View for Rgba8 {
    type V = Channels;

    closed spec fn view(&self) -> Channels {
        Channels { rgb: Rgb { r: self.r, g: self.g, b: self.b }, a: self.a }
    }
}

impl Rgba8 {
    pub fn new(r: u8, g: u8, b: u8, a: u8) -> (p: Self)
        ensures
            p@ == (Channels { rgb: Rgb { r, g, b }, a }),
    {
        Self { r, g, b, a }
    }
}

impl Default for Rgba8 {
    /// Transparent black.
    fn default() -> (p: Self)
        ensures
            p@ == (Channels { rgb: black(), a: 0 }),
    {
        Self { r: 0, g: 0, b: 0, a: 0 }
    }
}

impl Pixel for Rgba8 {
    closed spec fn blank() -> Self {
        Self { r: 0, g: 0, b: 0, a: 0 }
    }

    proof fn lemma_default_is_blank(d: Self) {
    }
}

impl ColorSource for Rgba8 {
    open spec fn has_alpha() -> bool {
        true
    }

    fn to_565(&self) -> (v: u16) {
        pack_565(self.r, self.g, self.b)
    }

    fn luminance(&self) -> (l: i32) {
        self.r as i32 + (self.g as i32) * 2 + self.b as i32
    }

    fn sqr_distance(&self, other: &Self) -> (d: i32) {
        channel_sqr_distance(self.r, self.g, self.b, other.r, other.g, other.b)
    }

    fn mix_2_1_over_3_saturate(&self, other: &Self) -> (m: Self)
        ensures
            m@.a == 0,
    {
        Self {
            r: mix_2_1_over_3_saturate(self.r, other.r),
            g: mix_2_1_over_3_saturate(self.g, other.g),
            b: mix_2_1_over_3_saturate(self.b, other.b),
            a: 0,
        }
    }

    fn mix_1_2_over_3_saturate(&self, other: &Self) -> (m: Self)
        ensures
            m@.a == 0,
    {
        Self {
            r: mix_1_2_over_3_saturate(self.r, other.r),
            g: mix_1_2_over_3_saturate(self.g, other.g),
            b: mix_1_2_over_3_saturate(self.b, other.b),
            a: 0,
        }
    }

    fn mix_1_1_over_2_saturate(&self, other: &Self) -> (m: Self)
        ensures
            m@.a == 0,
    {
        Self {
            r: mix_1_1_over_2_saturate(self.r, other.r),
            g: mix_1_1_over_2_saturate(self.g, other.g),
            b: mix_1_1_over_2_saturate(self.b, other.b),
            a: 0,
        }
    }

    fn contains_alpha() -> (c: bool) {
        true
    }

    fn alpha(&self) -> (a: u8) {
        self.a
    }
}

/// A pixel of red, green and blue. It is opaque.
#[derive(Copy, Clone, Debug)]
pub struct Rgb8 {
    r: u8,
    g: u8,
    b: u8,
}

impl View for Rgb8 {
    type V = Channels;

    closed spec fn view(&self) -> Channels {
        Channels { rgb: Rgb { r: self.r, g: self.g, b: self.b }, a: 255 }
    }
}

impl Rgb8 {
    pub fn new(r: u8, g: u8, b: u8) -> (p: Self)
        ensures
            p@ == (Channels { rgb: Rgb { r, g, b }, a: 255 }),
    {
        Self { r, g, b }
    }
}

impl Default for Rgb8 {
    /// Black.
    fn default() -> (p: Self)
        ensures
            p@ == (Channels { rgb: black(), a: 255 }),
    {
        Self { r: 0, g: 0, b: 0 }
    }
}

impl Pixel for Rgb8 {
    closed spec fn blank() -> Self {
        Self { r: 0, g: 0, b: 0 }
    }

    proof fn lemma_default_is_blank(d: Self) {
    }
}

impl ColorSource for Rgb8 {
    open spec fn has_alpha() -> bool {
        false
    }

    fn to_565(&self) -> (v: u16) {
        pack_565(self.r, self.g, self.b)
    }

    fn luminance(&self) -> (l: i32) {
        self.r as i32 + (self.g as i32) * 2 + self.b as i32
    }

    fn sqr_distance(&self, other: &Self) -> (d: i32) {
        channel_sqr_distance(self.r, self.g, self.b, other.r, other.g, other.b)
    }

    fn mix_2_1_over_3_saturate(&self, other: &Self) -> (m: Self) {
        Self {
            r: mix_2_1_over_3_saturate(self.r, other.r),
            g: mix_2_1_over_3_saturate(self.g, other.g),
            b: mix_2_1_over_3_saturate(self.b, other.b),
        }
    }

    fn mix_1_2_over_3_saturate(&self, other: &Self) -> (m: Self) {
        Self {
            r: mix_1_2_over_3_saturate(self.r, other.r),
            g: mix_1_2_over_3_saturate(self.g, other.g),
            b: mix_1_2_over_3_saturate(self.b, other.b),
        }
    }

    fn mix_1_1_over_2_saturate(&self, other: &Self) -> (m: Self) {
        Self {
            r: mix_1_1_over_2_saturate(self.r, other.r),
            g: mix_1_1_over_2_saturate(self.g, other.g),
            b: mix_1_1_over_2_saturate(self.b, other.b),
        }
    }

    fn contains_alpha() -> (c: bool) {
        false
    }

    fn alpha(&self) -> (a: u8) {
        255
    }
}

/// A pixel of one channel, red.
#[derive(Copy, Clone, Debug)]
pub struct Red8 {
    r: u8,
}

impl View for Red8 {
    type V = Channels;

    closed spec fn view(&self) -> Channels {
        Channels { rgb: Rgb { r: self.r, g: 0, b: 0 }, a: 255 }
    }
}

impl Red8 {
    pub fn new(r: u8) -> (p: Self)
        ensures
            p@ == (Channels { rgb: Rgb { r, g: 0, b: 0 }, a: 255 }),
    {
        Self { r }
    }
}

impl Default for Red8 {
    fn default() -> (p: Self)
        ensures
            p@ == (Channels { rgb: black(), a: 255 }),
    {
        Self { r: 0 }
    }
}

impl Pixel for Red8 {
    closed spec fn blank() -> Self {
        Self { r: 0 }
    }

    proof fn lemma_default_is_blank(d: Self) {
    }
}

impl ColorRed8 for Red8 {
    fn red(&self) -> (v: u8) {
        self.r
    }
}

/// A pixel of two channels, red and green.
#[derive(Copy, Clone, Debug)]
pub struct RedGreen8 {
    r: u8,
    g: u8,
}

impl View for RedGreen8 {
    type V = Channels;

    closed spec fn view(&self) -> Channels {
        Channels { rgb: Rgb { r: self.r, g: self.g, b: 0 }, a: 255 }
    }
}

impl RedGreen8 {
    pub fn new(r: u8, g: u8) -> (p: Self)
        ensures
            p@ == (Channels { rgb: Rgb { r, g, b: 0 }, a: 255 }),
    {
        Self { r, g }
    }
}

impl Default for RedGreen8 {
    fn default() -> (p: Self)
        ensures
            p@ == (Channels { rgb: black(), a: 255 }),
    {
        Self { r: 0, g: 0 }
    }
}

impl Pixel for RedGreen8 {
    closed spec fn blank() -> Self {
        Self { r: 0, g: 0 }
    }

    proof fn lemma_default_is_blank(d: Self) {
    }
}

impl ColorRed8 for RedGreen8 {
    fn red(&self) -> (v: u8) {
        self.r
    }
}

impl ColorRedGreen8 for RedGreen8 {
    fn green(&self) -> (v: u8) {
        self.g
    }
}

/// The brightness of each pixel of a block.
pub open spec fn luminances<T: Pixel>(block: Seq<T>) -> Seq<int> {
    Seq::new(block.len(), |k: int| luminance_of(block[k]@.rgb))
}

/// The darkest pixel of a block, and of several equally dark ones the
/// first.
pub open spec fn darkest<T: Pixel>(block: Seq<T>) -> T {
    block[first_min(luminances(block))]
}

/// The brightest pixel of a block, and of several equally bright ones the
/// first.
pub open spec fn brightest<T: Pixel>(block: Seq<T>) -> T {
    block[first_max(luminances(block))]
}

/// Finds the darkest and the brightest pixel of a block, in this order.
pub fn min_max_luminance<T: ColorSource>(block: &[T; 16]) -> (ends: (T, T))
    ensures
        ends.0 == darkest(block@),
        ends.1 == brightest(block@),
{
    let mut max_luminance: i32 = -1;
    let mut max_color = T::default();
    let mut min_luminance: i32 = i32::MAX;
    let mut min_color = T::default();
    let ghost v = luminances(block@);
    let ghost mut lo: int = 0;
    let ghost mut hi: int = 0;
    for k in 0..16
        invariant
            v == luminances(block@),
            k == 0 ==> min_luminance == i32::MAX && max_luminance == -1 && lo == 0 && hi == 0,
            k > 0 ==> is_first_min(v.take(k as int), lo) && is_first_max(v.take(k as int), hi),
            k > 0 ==> min_luminance == v[lo] && max_luminance == v[hi],
            k > 0 ==> min_color == block[lo] && max_color == block[hi],
    {
        let luminance = block[k].luminance();
        proof {
            assert(luminance == v[k as int]);
            if k > 0 {
                lemma_first_min_step(v, k as int, lo);
                lemma_first_max_step(v, k as int, hi);
            } else {
                assert(is_first_min(v.take(1), 0));
                assert(is_first_max(v.take(1), 0));
            }
        }
        if luminance > max_luminance {
            max_luminance = luminance;
            max_color = block[k];
            proof {
                hi = k as int;
            }
        }
        if luminance < min_luminance {
            min_luminance = luminance;
            min_color = block[k];
            proof {
                lo = k as int;
            }
        }
    }
    proof {
        assert(v.take(16) =~= v);
        lemma_first_min_unique(v, lo);
        lemma_first_max_unique(v, hi);
    }
    (min_color, max_color)
}

} // verus!
