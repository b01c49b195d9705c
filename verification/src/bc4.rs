//! BC4 encoder: one 8-bit channel per block, and its two-channel form.

use crate::color::{
    lemma_mean_between, saturating_mean, weighted_mean, ColorRed8, ColorRedGreen8, Pixel,
};
use crate::utils::{
    are_digits, blocks_of, digit, encode_image, encode_image_conv_u8, encodes, fetch_block,
    first_max, first_min, is_first_max, is_first_min, lemma_digit_of_packed, lemma_encodes_one,
    lemma_first_max_step, lemma_first_max_unique, lemma_first_min_exists, lemma_first_min_step,
    lemma_first_min_unique, lemma_tiles_fit, packed, packed_from, stream, tile, EncodedBlock,
};
use vstd::prelude::*;

verus! {

/// One encoded channel: the two endpoints and sixteen 3-bit ramp indices.
#[derive(Debug, Copy, Clone, Eq, PartialEq)]
pub struct GreyScaleBlock8 {
    pub max_alpha: u8,
    pub min_alpha: u8,
    pub alpha_table: [u8; 6],
}

/// Two encoded channels, red before green.
#[derive(Debug, Copy, Clone, Eq, PartialEq)]
pub struct GreyScaleBlock16 {
    pub r: GreyScaleBlock8,
    pub g: GreyScaleBlock8,
}

/// Mixes `a` and `b` in the proportion `a_fraction : b_fraction`.
pub fn mix_saturate(a_fraction: u32, a: u8, b_fraction: u32, b: u8) -> (m: u8)
    requires
        a_fraction + b_fraction > 0,
    ensures
        m == saturating_mean(a_fraction as int, a as int, b_fraction as int, b as int),
        m == weighted_mean(a_fraction as int, a as int, b_fraction as int, b as int),
{
    proof {
        lemma_mean_between(a_fraction as int, a as int, b_fraction as int, b as int);
        assert(a_fraction * a <= 0xffff_ffff * 255) by (nonlinear_arith)
            requires
                a_fraction <= 0xffff_ffff,
                a <= 255,
        ;
        assert(b_fraction * b <= 0xffff_ffff * 255) by (nonlinear_arith)
            requires
                b_fraction <= 0xffff_ffff,
                b <= 255,
        ;
    }
    let total: u64 = (a_fraction as u64) * (a as u64) + (b_fraction as u64) * (b as u64);
    let v: u64 = total / (a_fraction as u64 + b_fraction as u64);
    if v > 255 {
        255
    } else {
        v as u8
    }
}

/// The eight values a block's samples are matched against: the two
/// endpoints, then six steps from the lower towards the upper one.
pub open spec fn alpha_ramp(min: u8, max: u8) -> Seq<u8> {
    seq![
        max,
        min,
        saturating_mean(6, min as int, 1, max as int),
        saturating_mean(5, min as int, 2, max as int),
        saturating_mean(4, min as int, 3, max as int),
        saturating_mean(3, min as int, 4, max as int),
        saturating_mean(2, min as int, 5, max as int),
        saturating_mean(1, min as int, 6, max as int),
    ]
}

/// Builds the ramp between two endpoints.
pub fn gen_alpha_ref(min: u8, max: u8) -> (ramp: [u8; 8])
    ensures
        ramp@ == alpha_ramp(min, max),
{
    let ramp = [
        max,
        min,
        mix_saturate(6, min, 1, max),
        mix_saturate(5, min, 2, max),
        mix_saturate(4, min, 3, max),
        mix_saturate(3, min, 4, max),
        mix_saturate(2, min, 5, max),
        mix_saturate(1, min, 6, max),
    ];
    assert(ramp@ =~= alpha_ramp(min, max));
    ramp
}

/// The samples as mathematical integers.
pub open spec fn levels(samples: Seq<u8>) -> Seq<int> {
    Seq::new(samples.len(), |k: int| samples[k] as int)
}

/// The least of the samples.
pub open spec fn least(samples: Seq<u8>) -> u8 {
    samples[first_min(levels(samples))]
}

/// The greatest of the samples.
pub open spec fn greatest(samples: Seq<u8>) -> u8 {
    samples[first_max(levels(samples))]
}

/// Finds the least and the greatest of a block's samples, in this order.
pub fn min_max_alpha(samples: &[u8; 16]) -> (ends: (u8, u8))
    ensures
        ends.0 == least(samples@),
        ends.1 == greatest(samples@),
        samples@.contains(ends.0),
        samples@.contains(ends.1),
        forall|k: int| 0 <= k < 16 ==> ends.0 <= #[trigger] samples[k] <= ends.1,
{
    let mut min: u8 = u8::MAX;
    let mut max: u8 = 0;
    let ghost v = levels(samples@);
    let ghost mut lo: int = 0;
    let ghost mut hi: int = 0;
    for k in 0..16
        invariant
            v == levels(samples@),
            k == 0 ==> min == u8::MAX && max == 0 && lo == 0 && hi == 0,
            k > 0 ==> is_first_min(v.take(k as int), lo) && is_first_max(v.take(k as int), hi),
            k > 0 ==> min == samples[lo] && max == samples[hi],
    {
        let alpha = samples[k];
        proof {
            if k > 0 {
                lemma_first_min_step(v, k as int, lo);
                lemma_first_max_step(v, k as int, hi);
            } else {
                assert(is_first_min(v.take(1), 0));
                assert(is_first_max(v.take(1), 0));
            }
        }
        if alpha < min {
            min = alpha;
            proof {
                lo = k as int;
            }
        }
        if alpha > max {
            max = alpha;
            proof {
                hi = k as int;
            }
        }
    }
    proof {
        assert(v.take(16) =~= v);
        lemma_first_min_unique(v, lo);
        lemma_first_max_unique(v, hi);
        assert forall|k: int| 0 <= k < 16 implies min <= #[trigger] samples[k] <= max by {
            assert(v[lo] <= v[k] <= v[hi]);
        }
    }
    (min, max)
}

/// How far two levels are apart.
pub open spec fn gap(a: int, b: int) -> int {
    if a >= b {
        a - b
    } else {
        b - a
    }
}

/// How far each entry of a ramp is from a sample.
pub open spec fn ramp_gaps(ramp: Seq<u8>, sample: u8) -> Seq<int> {
    Seq::new(ramp.len(), |j: int| gap(ramp[j] as int, sample as int))
}

/// The ramp entry a sample is encoded as: the closest one, and among
/// equally close ones the first.
pub open spec fn ramp_index(ramp: Seq<u8>, sample: u8) -> int {
    first_min(ramp_gaps(ramp, sample))
}

/// The ramp index of each sample of a block, against the ramp between the
/// block's least and greatest sample.
pub open spec fn block_indices(samples: Seq<u8>) -> Seq<int> {
    let ramp = alpha_ramp(least(samples), greatest(samples));
    Seq::new(16, |k: int| ramp_index(ramp, samples[k]))
}

/// The three bytes that hold the eight 3-bit indices `i[at] .. i[at + 7]`:
/// the indices follow each other from the lowest bit of the first byte, and
/// an index that does not fit into a byte goes on in the next one.
pub open spec fn packed_group(i: Seq<int>, at: int) -> Seq<u8> {
    seq![
        ((i[at] + 8 * i[at + 1] + 64 * i[at + 2]) % 256) as u8,
        ((i[at + 2] / 4 + 2 * i[at + 3] + 16 * i[at + 4] + 128 * i[at + 5]) % 256) as u8,
        (i[at + 5] / 2 + 4 * i[at + 6] + 32 * i[at + 7]) as u8,
    ]
}

/// The six bytes that hold sixteen 3-bit indices.
pub open spec fn packed_indices(i: Seq<int>) -> Seq<u8> {
    packed_group(i, 0) + packed_group(i, 8)
}

/// Whether these are sixteen indices into a ramp of eight.
pub open spec fn are_ramp_indices(i: Seq<int>) -> bool {
    &&& i.len() == 16
    &&& forall|k: int| 0 <= k < 16 ==> 0 <= #[trigger] i[k] < 8
}

/// The indices held by an array as mathematical integers.
pub open spec fn index_values(indices: Seq<u8>) -> Seq<int> {
    Seq::new(indices.len(), |k: int| indices[k] as int)
}

/// Packs sixteen 3-bit indices into the six bytes of a block's table.
pub fn pack_indices(indices: &[u8; 16]) -> (table: [u8; 6])
    requires
        are_ramp_indices(index_values(indices@)),
    ensures
        table@ == packed_indices(index_values(indices@)),
{
    let ghost i = index_values(indices@);
    assert forall|k: int| 0 <= k < 16 implies indices[k] < 8 by {
        assert(0 <= i[k] < 8);
    }
    let low = pack_group(
        indices[0],
        indices[1],
        indices[2],
        indices[3],
        indices[4],
        indices[5],
        indices[6],
        indices[7],
    );
    let high = pack_group(
        indices[8],
        indices[9],
        indices[10],
        indices[11],
        indices[12],
        indices[13],
        indices[14],
        indices[15],
    );
    let table = [low.0, low.1, low.2, high.0, high.1, high.2];
    assert(table@ =~= packed_indices(i));
    table
}

/// Packs eight 3-bit indices into three bytes.
fn pack_group(i0: u8, i1: u8, i2: u8, i3: u8, i4: u8, i5: u8, i6: u8, i7: u8) -> (b: (u8, u8, u8))
    requires
        i0 < 8,
        i1 < 8,
        i2 < 8,
        i3 < 8,
        i4 < 8,
        i5 < 8,
        i6 < 8,
        i7 < 8,
    ensures
        b.0 == (i0 + 8 * i1 + 64 * i2) % 256,
        b.1 == (i2 / 4 + 2 * i3 + 16 * i4 + 128 * i5) % 256,
        b.2 == i5 / 2 + 4 * i6 + 32 * i7,
{
    assert(((i0 >> 0) | (i1 << 3) | (i2 << 6)) == (i0 + 8 * i1 + 64 * i2) % 256) by (bit_vector)
        requires
            i0 < 8,
            i1 < 8,
            i2 < 8,
    ;
    assert(((i2 >> 2) | (i3 << 1) | (i4 << 4) | (i5 << 7)) == (i2 / 4 + 2 * i3 + 16 * i4 + 128
        * i5) % 256) by (bit_vector)
        requires
            i2 < 8,
            i3 < 8,
            i4 < 8,
            i5 < 8,
    ;
    assert(((i5 >> 1) | (i6 << 2) | (i7 << 5)) == i5 / 2 + 4 * i6 + 32 * i7) by (bit_vector)
        requires
            i5 < 8,
            i6 < 8,
            i7 < 8,
    ;
    (
        (i0 >> 0) | (i1 << 3) | (i2 << 6),
        (i2 >> 2) | (i3 << 1) | (i4 << 4) | (i5 << 7),
        (i5 >> 1) | (i6 << 2) | (i7 << 5),
    )
}

/// The encoding of one channel of a block.
pub open spec fn bc4_block(samples: Seq<u8>) -> GreyScaleBlock8 {
    let t = packed_indices(block_indices(samples));
    GreyScaleBlock8 {
        max_alpha: greatest(samples),
        min_alpha: least(samples),
        alpha_table: [t[0], t[1], t[2], t[3], t[4], t[5]],
    }
}

/// Encodes the sixteen samples of one channel of a block: the endpoints
/// are the least and the greatest sample, and each sample is replaced by
/// the index of the closest entry of the ramp between them.
pub fn encode_block_bc4(samples: &[u8; 16]) -> (block: GreyScaleBlock8)
    ensures
        block == bc4_block(samples@),
        block.min_alpha <= block.max_alpha,
{
    let (min_alpha, max_alpha) = min_max_alpha(samples);
    let alpha_ref = gen_alpha_ref(min_alpha, max_alpha);
    let ghost ramp = alpha_ramp(min_alpha, max_alpha);

    let mut indices = [0u8; 16];
    for k in 0..16
        invariant
            alpha_ref@ == ramp,
            ramp.len() == 8,
            forall|n: int| 0 <= n < k ==> #[trigger] indices[n] as int == ramp_index(ramp, samples[n]),
            forall|n: int| 0 <= n < k ==> #[trigger] indices[n] < 8,
    {
        let alpha = samples[k] as i32;
        let ghost gaps = ramp_gaps(ramp, samples[k as int]);
        let mut min_delta = i32::MAX;
        let mut alpha_index: u8 = 0;
        for ref_index in 0..8
            invariant
                alpha_ref@ == ramp,
                ramp.len() == 8,
                alpha == samples[k as int],
                gaps == ramp_gaps(ramp, samples[k as int]),
                alpha_index < 8,
                ref_index == 0 ==> min_delta == i32::MAX && alpha_index == 0,
                ref_index > 0 ==> is_first_min(gaps.take(ref_index as int), alpha_index as int),
                ref_index > 0 ==> min_delta == gaps[alpha_index as int],
        {
            let ref_alpha = alpha_ref[ref_index] as i32;
            let delta = if ref_alpha >= alpha {
                ref_alpha - alpha
            } else {
                alpha - ref_alpha
            };
            proof {
                assert(delta == gaps[ref_index as int]);
                if ref_index > 0 {
                    lemma_first_min_step(gaps, ref_index as int, alpha_index as int);
                } else {
                    assert(is_first_min(gaps.take(1), 0));
                }
            }
            if delta < min_delta {
                min_delta = delta;
                alpha_index = ref_index as u8;
            }
        }
        proof {
            assert(gaps.take(8) =~= gaps);
            lemma_first_min_unique(gaps, alpha_index as int);
        }
        indices[k] = alpha_index;
    }

    proof {
        assert(index_values(indices@) =~= block_indices(samples@));
    }
    let alpha_table = pack_indices(&indices);
    let block = GreyScaleBlock8 { max_alpha, min_alpha, alpha_table };
    proof {
        let t = packed_indices(block_indices(samples@));
        assert(alpha_table@ == t);
        assert(alpha_table =~= [t[0], t[1], t[2], t[3], t[4], t[5]]);
    }
    block
}

/// The 24 bits held by the three bytes of a table from `at` on, the first
/// byte lowest.
pub open spec fn group_bits(table: Seq<u8>, at: int) -> int {
    table[at] + 256 * table[at + 1] + 65536 * table[at + 2]
}

/// The index that a table holds for sample `k`, as a decoder reads it:
/// digit `k % 8` to the base eight of the first or the second group of
/// three bytes.
pub open spec fn unpacked_index(table: Seq<u8>, k: int) -> int {
    digit(group_bits(table, 3 * (k / 8)), 8, (k % 8) as nat)
}

/// The bytes `b0`, `b1` and `b2` of a packed group, read as one number of
/// 24 bits, hold the eight indices as its digits to the base eight.
proof fn lemma_group_value(i0: int, i1: int, i2: int, i3: int, i4: int, i5: int, i6: int, i7: int)
    requires
        0 <= i0 < 8,
        0 <= i1 < 8,
        0 <= i2 < 8,
        0 <= i3 < 8,
        0 <= i4 < 8,
        0 <= i5 < 8,
        0 <= i6 < 8,
        0 <= i7 < 8,
    ensures
        (i0 + 8 * i1 + 64 * i2) % 256 + 256 * ((i2 / 4 + 2 * i3 + 16 * i4 + 128 * i5) % 256) + 65536
            * (i5 / 2 + 4 * i6 + 32 * i7) == i0 + 8 * (i1 + 8 * (i2 + 8 * (i3 + 8 * (i4 + 8 * (i5
            + 8 * (i6 + 8 * i7)))))),
{
    let low = i0 + 8 * i1 + 64 * (i2 % 4);
    assert(i0 + 8 * i1 + 64 * i2 == low + 256 * (i2 / 4));
    assert(0 <= low < 256);
    assert((low + 256 * (i2 / 4)) % 256 == low) by {
        vstd::arithmetic::div_mod::lemma_fundamental_div_mod_converse(
            low + 256 * (i2 / 4),
            256,
            i2 / 4,
            low,
        );
    }
    let mid = i2 / 4 + 2 * i3 + 16 * i4 + 128 * (i5 % 2);
    assert(i2 / 4 + 2 * i3 + 16 * i4 + 128 * i5 == mid + 256 * (i5 / 2));
    assert(0 <= mid < 256);
    assert((mid + 256 * (i5 / 2)) % 256 == mid) by {
        vstd::arithmetic::div_mod::lemma_fundamental_div_mod_converse(
            mid + 256 * (i5 / 2),
            256,
            i5 / 2,
            mid,
        );
    }
}

/// Three packed bytes hold their eight indices as the digits of one number
/// to the base eight.
proof fn lemma_group_bits(g: Seq<int>)
    requires
        g.len() == 8,
        are_digits(g, 8),
    ensures
        group_bits(packed_group(g, 0), 0) == packed(g, 8),
{
    assert(0 <= g[0] < 8 && 0 <= g[1] < 8 && 0 <= g[2] < 8 && 0 <= g[3] < 8);
    assert(0 <= g[4] < 8 && 0 <= g[5] < 8 && 0 <= g[6] < 8 && 0 <= g[7] < 8);
    lemma_group_value(g[0], g[1], g[2], g[3], g[4], g[5], g[6], g[7]);
    assert(packed_from(g, 8, 8) == 0);
    assert(packed_from(g, 8, 7) == g[7] + 8 * packed_from(g, 8, 8));
    assert(packed_from(g, 8, 6) == g[6] + 8 * packed_from(g, 8, 7));
    assert(packed_from(g, 8, 5) == g[5] + 8 * packed_from(g, 8, 6));
    assert(packed_from(g, 8, 4) == g[4] + 8 * packed_from(g, 8, 5));
    assert(packed_from(g, 8, 3) == g[3] + 8 * packed_from(g, 8, 4));
    assert(packed_from(g, 8, 2) == g[2] + 8 * packed_from(g, 8, 3));
    assert(packed_from(g, 8, 1) == g[1] + 8 * packed_from(g, 8, 2));
    assert(packed_from(g, 8, 0) == g[0] + 8 * packed_from(g, 8, 1));
}

/// Reading a packed table gives back each of the sixteen indices that were
/// packed into it.
pub proof fn lemma_unpack_packed(i: Seq<int>, k: int)
    requires
        are_ramp_indices(i),
        0 <= k < 16,
    ensures
        unpacked_index(packed_indices(i), k) == i[k],
{
    let at = 8 * (k / 8);
    let g = seq![
        i[at],
        i[at + 1],
        i[at + 2],
        i[at + 3],
        i[at + 4],
        i[at + 5],
        i[at + 6],
        i[at + 7],
    ];
    assert(are_digits(g, 8)) by {
        assert forall|n: int| 0 <= n < g.len() implies 0 <= #[trigger] g[n] < 8 by {
            assert(0 <= i[at + n] < 8);
        }
    }
    lemma_group_bits(g);
    assert(packed_group(i, at) =~= packed_group(g, 0));
    assert(group_bits(packed_indices(i), 3 * (k / 8)) == group_bits(packed_group(i, at), 0));
    lemma_digit_of_packed(g, 8, (k % 8) as nat);
}

/// The table of an encoded block holds the ramp index of each sample:
/// what a decoder reads from it for sample `k` is the index of the ramp
/// entry closest to that sample.
pub proof fn lemma_block_round_trip(samples: Seq<u8>, k: int)
    requires
        samples.len() == 16,
        0 <= k < 16,
    ensures
        0 <= block_indices(samples)[k] < 8,
        unpacked_index(bc4_block(samples).alpha_table@, k) == block_indices(samples)[k],
{
    let ramp = alpha_ramp(least(samples), greatest(samples));
    let indices = block_indices(samples);
    assert forall|n: int| 0 <= n < 16 implies 0 <= #[trigger] indices[n] < 8 by {
        lemma_first_min_exists(ramp_gaps(ramp, samples[n]));
    }
    lemma_unpack_packed(indices, k);
    assert(bc4_block(samples).alpha_table@ =~= packed_indices(indices));
}

/// A block whose sixteen samples are all `v` has `v` for both endpoints,
/// and every sample selects entry 0 of the ramp.
pub proof fn lemma_uniform_block(samples: Seq<u8>, v: u8)
    requires
        samples.len() == 16,
        forall|k: int| 0 <= k < 16 ==> samples[k] == v,
    ensures
        block_indices(samples) == Seq::new(16, |k: int| 0int),
        bc4_block(samples) == (GreyScaleBlock8 {
            max_alpha: v,
            min_alpha: v,
            alpha_table: [0u8, 0u8, 0u8, 0u8, 0u8, 0u8],
        }),
{
    let l = levels(samples);
    assert(is_first_min(l, 0));
    assert(is_first_max(l, 0));
    lemma_first_min_unique(l, 0);
    lemma_first_max_unique(l, 0);
    let ramp = alpha_ramp(v, v);
    assert forall|k: int| 0 <= k < 16 implies ramp_index(ramp, #[trigger] samples[k]) == 0 by {
        let gaps = ramp_gaps(ramp, samples[k]);
        assert(gaps[0] == 0);
        assert(is_first_min(gaps, 0));
        lemma_first_min_unique(gaps, 0);
    }
    assert(block_indices(samples) =~= Seq::new(16, |k: int| 0int));
    let t = packed_indices(block_indices(samples));
    assert(t =~= seq![0u8, 0u8, 0u8, 0u8, 0u8, 0u8]);
    assert(bc4_block(samples).alpha_table =~= [0u8, 0u8, 0u8, 0u8, 0u8, 0u8]);
}

impl EncodedBlock for GreyScaleBlock8 {
    /// `max_alpha`, `min_alpha`, and the six bytes of the table.
    open spec fn bytes(&self) -> Seq<u8> {
        seq![self.max_alpha, self.min_alpha] + self.alpha_table@
    }

    open spec fn size() -> nat {
        8
    }

    proof fn lemma_size(&self) {
    }

    fn byte_len() -> (n: usize) {
        8
    }

    fn write_to(&self, out: &mut Vec<u8>) {
        out.push(self.max_alpha);
        out.push(self.min_alpha);
        for k in 0..6
            invariant
                out@ == old(out)@ + seq![self.max_alpha, self.min_alpha] + self.alpha_table@.take(
                    k as int,
                ),
        {
            out.push(self.alpha_table[k]);
        }
        assert(self.alpha_table@.take(6) =~= self.alpha_table@);
        assert(out@ =~= old(out)@ + self.bytes());
    }
}

impl EncodedBlock for GreyScaleBlock16 {
    /// The bytes of the red block, then those of the green block.
    open spec fn bytes(&self) -> Seq<u8> {
        self.r.bytes() + self.g.bytes()
    }

    open spec fn size() -> nat {
        16
    }

    proof fn lemma_size(&self) {
    }

    fn byte_len() -> (n: usize) {
        16
    }

    fn write_to(&self, out: &mut Vec<u8>) {
        self.r.write_to(out);
        self.g.write_to(out);
        assert(out@ =~= old(out)@ + self.bytes());
    }
}

/// The red channel of each pixel of a block.
pub open spec fn reds<T: Pixel>(block: Seq<T>) -> Seq<u8> {
    Seq::new(block.len(), |k: int| block[k]@.rgb.r)
}

/// The green channel of each pixel of a block.
pub open spec fn greens<T: Pixel>(block: Seq<T>) -> Seq<u8> {
    Seq::new(block.len(), |k: int| block[k]@.rgb.g)
}

/// Reads the red channel of each pixel of a block.
fn red_channel<T: ColorRed8>(block: &[T; 16]) -> (samples: [u8; 16])
    ensures
        samples@ == reds(block@),
{
    let mut samples = [0u8; 16];
    for k in 0..16
        invariant
            forall|n: int| 0 <= n < k ==> #[trigger] samples[n] == block[n]@.rgb.r,
    {
        samples[k] = block[k].red();
    }
    assert(samples@ =~= reds(block@));
    samples
}

/// Reads the green channel of each pixel of a block.
fn green_channel<T: ColorRedGreen8>(block: &[T; 16]) -> (samples: [u8; 16])
    ensures
        samples@ == greens(block@),
{
    let mut samples = [0u8; 16];
    for k in 0..16
        invariant
            forall|n: int| 0 <= n < k ==> #[trigger] samples[n] == block[n]@.rgb.g,
    {
        samples[k] = block[k].green();
    }
    assert(samples@ =~= greens(block@));
    samples
}

/// Reads the tile that begins at column `x` of row `y` and encodes its red
/// channel.
fn fetch_and_encode_r8<T: ColorRed8>(pixels: &[T], x: usize, y: usize, width: usize) -> (encoded:
    GreyScaleBlock8)
    ensures
        encoded == bc4_block(reds(tile(pixels@, x as int, y as int, width as int))),
{
    encode_block_bc4(&red_channel(&fetch_block(pixels, x, y, width)))
}

/// The one-channel BC4 encoding of an image: the encoding of the red
/// channel of each of its tiles, the tiles taken row by row.
pub open spec fn bc4_r8_image<T: ColorRed8>(pixels: Seq<T>, width: int, height: int) -> Seq<
    GreyScaleBlock8,
> {
    blocks_of(width, height, |x: int, y: int| bc4_block(reds(tile(pixels, x, y, width))))
}

/// Encodes the red channel of an image of `width * height` pixels, given
/// row by row.
pub fn encode_image_bc4_r8<T: ColorRed8>(pixels: &[T], width: usize, height: usize) -> (blocks:
    Vec<GreyScaleBlock8>)
    requires
        pixels@.len() >= width * height,
    ensures
        blocks@ == bc4_r8_image(pixels@, width as int, height as int),
{
    proof {
        lemma_tiles_fit(width as int, height as int);
        assert(pixels@.len() == pixels.len() <= usize::MAX);
    }
    let blocks = encode_image(pixels, width, height, fetch_and_encode_r8::<T>);
    proof {
        lemma_encodes_one(
            blocks@,
            pixels,
            width,
            height,
            fetch_and_encode_r8::<T>,
            |x: int, y: int| bc4_block(reds(tile(pixels@, x, y, width as int))),
        );
    }
    blocks
}

/// Encodes the red channel of an image of `width * height` pixels, given
/// row by row, and writes out the bytes of the blocks.
pub fn encode_image_bc4_r8_conv_u8<T: ColorRed8>(pixels: &[T], width: usize, height: usize) -> (bytes:
    Vec<u8>)
    requires
        pixels@.len() >= width * height,
    ensures
        bytes@ == stream(bc4_r8_image(pixels@, width as int, height as int)),
{
    proof {
        lemma_tiles_fit(width as int, height as int);
        assert(pixels@.len() == pixels.len() <= usize::MAX);
    }
    let bytes = encode_image_conv_u8(pixels, width, height, fetch_and_encode_r8::<T>);
    proof {
        let blocks = choose|blocks: Seq<GreyScaleBlock8>|
            encodes(blocks, pixels, width, height, fetch_and_encode_r8::<T>) && bytes@
                == #[trigger] stream(blocks);
        lemma_encodes_one(
            blocks,
            pixels,
            width,
            height,
            fetch_and_encode_r8::<T>,
            |x: int, y: int| bc4_block(reds(tile(pixels@, x, y, width as int))),
        );
    }
    bytes
}

/// The two-channel BC4 encoding of a block of sixteen pixels: its red
/// channel and its green channel, each encoded by itself.
pub open spec fn bc4_rg8_block<T: Pixel>(block: Seq<T>) -> GreyScaleBlock16 {
    GreyScaleBlock16 { r: bc4_block(reds(block)), g: bc4_block(greens(block)) }
}

/// Reads the tile that begins at column `x` of row `y` and encodes its red
/// and its green channel.
fn fetch_and_encode_rg8<T: ColorRedGreen8>(pixels: &[T], x: usize, y: usize, width: usize) -> (encoded:
    GreyScaleBlock16)
    ensures
        encoded == bc4_rg8_block(tile(pixels@, x as int, y as int, width as int)),
{
    let block = fetch_block(pixels, x, y, width);
    let r = encode_block_bc4(&red_channel(&block));
    let g = encode_block_bc4(&green_channel(&block));
    GreyScaleBlock16 { r, g }
}

/// The two-channel BC4 encoding of an image: the encoding of each of its
/// tiles, the tiles taken row by row.
pub open spec fn bc4_rg8_image<T: ColorRedGreen8>(pixels: Seq<T>, width: int, height: int) -> Seq<
    GreyScaleBlock16,
> {
    blocks_of(width, height, |x: int, y: int| bc4_rg8_block(tile(pixels, x, y, width)))
}

/// Encodes the red and the green channel of an image of `width * height`
/// pixels, given row by row.
pub fn encode_image_bc4_rg8<T: ColorRedGreen8>(pixels: &[T], width: usize, height: usize) -> (blocks:
    Vec<GreyScaleBlock16>)
    requires
        pixels@.len() >= width * height,
    ensures
        blocks@ == bc4_rg8_image(pixels@, width as int, height as int),
{
    proof {
        lemma_tiles_fit(width as int, height as int);
        assert(pixels@.len() == pixels.len() <= usize::MAX);
    }
    let blocks = encode_image(pixels, width, height, fetch_and_encode_rg8::<T>);
    proof {
        lemma_encodes_one(
            blocks@,
            pixels,
            width,
            height,
            fetch_and_encode_rg8::<T>,
            |x: int, y: int| bc4_rg8_block(tile(pixels@, x, y, width as int)),
        );
    }
    blocks
}

/// Encodes the red and the green channel of an image of `width * height`
/// pixels, given row by row, and writes out the bytes of the blocks.
pub fn encode_image_bc4_rg8_conv_u8<T: ColorRedGreen8>(
    pixels: &[T],
    width: usize,
    height: usize,
) -> (bytes: Vec<u8>)
    requires
        pixels@.len() >= width * height,
    ensures
        bytes@ == stream(bc4_rg8_image(pixels@, width as int, height as int)),
{
    proof {
        lemma_tiles_fit(width as int, height as int);
        assert(pixels@.len() == pixels.len() <= usize::MAX);
    }
    let bytes = encode_image_conv_u8(pixels, width, height, fetch_and_encode_rg8::<T>);
    proof {
        let blocks = choose|blocks: Seq<GreyScaleBlock16>|
            encodes(blocks, pixels, width, height, fetch_and_encode_rg8::<T>) && bytes@
                == #[trigger] stream(blocks);
        lemma_encodes_one(
            blocks,
            pixels,
            width,
            height,
            fetch_and_encode_rg8::<T>,
            |x: int, y: int| bc4_rg8_block(tile(pixels@, x, y, width as int)),
        );
    }
    bytes
}

} // verus!
