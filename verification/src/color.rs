//! Colours of tiles: three channels, packed for the GPU as `0x00BBGGRR`.
//!
//! A channel is an intensity between 0.0 and 1.0 in fixed point: the value
//! `v` stands for `v / CHANNEL_FULL`, with `CHANNEL_FULL = 255 * 2^16`. The
//! GPU byte of a channel, `intensity * 255` rounded down, is then `v >> 16`,
//! and means of channels keep sixteen bits below that byte.
use vstd::prelude::*;

verus! {

/// The channel value of full intensity (1.0): `255 * 2^16`.
pub const CHANNEL_FULL: u32 = 16_711_680;

/// One channel step per unit of a GPU byte: `2^16`.
pub const CHANNEL_BYTE: u32 = 65_536;

/// A colour with red, green and blue fixed-point intensities.
#[derive(Clone, Copy, Debug, PartialEq, Eq, Structural)]
pub struct Rgb {
    pub r: u32,
    pub g: u32,
    pub b: u32,
}

impl Rgb {
    /// Black, the colour of a tile that nothing was written to.
    pub fn zero() -> (c: Rgb)
        ensures
            c == (Rgb { r: 0, g: 0, b: 0 }),
            c.valid(),
    {
        Rgb { r: 0, g: 0, b: 0 }
    }

    /// The colour whose GPU bytes are `r`, `g` and `b` (intensities `r / 255`, ...).
    pub fn from_bytes(r: u8, g: u8, b: u8) -> (c: Rgb)
        ensures
            c.r == r * 65536,
            c.g == g * 65536,
            c.b == b * 65536,
            c.valid(),
    {
        Rgb { r: r as u32 * CHANNEL_BYTE, g: g as u32 * CHANNEL_BYTE, b: b as u32 * CHANNEL_BYTE }
    }

    /// Every intensity is between 0.0 and 1.0.
    pub open spec fn valid(self) -> bool {
        &&& self.r <= CHANNEL_FULL
        &&& self.g <= CHANNEL_FULL
        &&& self.b <= CHANNEL_FULL
    }

    /// Channel `k` (0 red, 1 green, 2 blue).
    pub open spec fn channel(self, k: int) -> int {
        if k == 0 {
            self.r as int
        } else if k == 1 {
            self.g as int
        } else {
            self.b as int
        }
    }

    /// The 32-bit GPU encoding: the red byte in bits 0..8, green in 8..16,
    /// blue in 16..24; each byte is its intensity times 255, rounded down.
    pub open spec fn packed(self) -> int {
        self.r as int / 65536 + 256 * (self.g as int / 65536) + 65536 * (self.b as int / 65536)
    }

    /// Packs the colour into its GPU encoding.
    pub fn pack(&self) -> (v: u32)
        requires
            self.valid(),
        ensures
            v == self.packed(),
    {
        let r: u32 = self.r >> 16;
        let g: u32 = self.g >> 16;
        let b: u32 = self.b >> 16;
        let (sr, sg, sb) = (self.r, self.g, self.b);
        assert(sr >> 16 == sr / 65536 && sr / 65536 <= 255) by (bit_vector)
            requires
                sr <= 16_711_680,
        ;
        assert(sg >> 16 == sg / 65536 && sg / 65536 <= 255) by (bit_vector)
            requires
                sg <= 16_711_680,
        ;
        assert(sb >> 16 == sb / 65536 && sb / 65536 <= 255) by (bit_vector)
            requires
                sb <= 16_711_680,
        ;
        assert(g << 8 == g * 256) by (bit_vector)
            requires
                g <= 255,
        ;
        assert(b << 16 == b * 65536) by (bit_vector)
            requires
                b <= 255,
        ;
        let mut ncolor: u32 = 0;
        ncolor += r;
        ncolor += g << 8;
        ncolor += b << 16;
        ncolor
    }
}

/// The GPU encoding keeps each channel's byte: the encoding of a valid
/// colour gives back `intensity * 255`, rounded down, of every channel.
pub proof fn lemma_pack_bytes(a: Rgb)
    requires
        a.valid(),
    ensures
        a.packed() % 256 == a.r / 65536,
        (a.packed() / 256) % 256 == a.g / 65536,
        a.packed() / 65536 == a.b / 65536,
{
    let (r, g, b) = (a.r as int / 65536, a.g as int / 65536, a.b as int / 65536);
    let pa = a.packed();
    assert(0 <= r <= 255 && 0 <= g <= 255 && 0 <= b <= 255);
    assert(pa % 256 == r && (pa / 256) % 256 == g && pa / 65536 == b) by (nonlinear_arith)
        requires
            pa == r + 256 * g + 65536 * b,
            0 <= r <= 255,
            0 <= g <= 255,
            0 <= b <= 255,
    ;
}

/// The channel-wise mean of `n` colours whose channel sums are given, each
/// channel rounded down.
pub open spec fn mean_color(sum_r: int, sum_g: int, sum_b: int, n: int) -> Rgb {
    Rgb { r: (sum_r / n) as u32, g: (sum_g / n) as u32, b: (sum_b / n) as u32 }
}

/// The mean colour of `n` valid colours is, on every channel, the channel's
/// sum divided by `n`, rounded down.
pub proof fn lemma_mean_channels(sum_r: int, sum_g: int, sum_b: int, n: int)
    requires
        n > 0,
        0 <= sum_r <= CHANNEL_FULL * n,
        0 <= sum_g <= CHANNEL_FULL * n,
        0 <= sum_b <= CHANNEL_FULL * n,
    ensures
        mean_color(sum_r, sum_g, sum_b, n).r == sum_r / n,
        mean_color(sum_r, sum_g, sum_b, n).g == sum_g / n,
        mean_color(sum_r, sum_g, sum_b, n).b == sum_b / n,
        mean_color(sum_r, sum_g, sum_b, n).valid(),
{
    assert(0 <= sum_r / n <= CHANNEL_FULL) by (nonlinear_arith)
        requires
            n > 0,
            0 <= sum_r <= CHANNEL_FULL * n,
    ;
    assert(0 <= sum_g / n <= CHANNEL_FULL) by (nonlinear_arith)
        requires
            n > 0,
            0 <= sum_g <= CHANNEL_FULL * n,
    ;
    assert(0 <= sum_b / n <= CHANNEL_FULL) by (nonlinear_arith)
        requires
            n > 0,
            0 <= sum_b <= CHANNEL_FULL * n,
    ;
}

/// Channel-wise mean of `n` valid colours whose channel sums are given.
pub fn mean(sum_r: u32, sum_g: u32, sum_b: u32, n: u32) -> (c: Rgb)
    requires
        n > 0,
        sum_r <= CHANNEL_FULL * n,
        sum_g <= CHANNEL_FULL * n,
        sum_b <= CHANNEL_FULL * n,
    ensures
        c == mean_color(sum_r as int, sum_g as int, sum_b as int, n as int),
        c.r == sum_r / n,
        c.g == sum_g / n,
        c.b == sum_b / n,
        c.valid(),
{
    assert(sum_r / n <= CHANNEL_FULL) by (nonlinear_arith)
        requires
            n > 0,
            sum_r <= CHANNEL_FULL * n,
    ;
    assert(sum_g / n <= CHANNEL_FULL) by (nonlinear_arith)
        requires
            n > 0,
            sum_g <= CHANNEL_FULL * n,
    ;
    assert(sum_b / n <= CHANNEL_FULL) by (nonlinear_arith)
        requires
            n > 0,
            sum_b <= CHANNEL_FULL * n,
    ;
    Rgb { r: sum_r / n, g: sum_g / n, b: sum_b / n }
}

} // verus!
