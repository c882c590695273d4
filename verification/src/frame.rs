//! Screen geometry: the 240x160 frame, cut into 600 tiles of 8x8 pixels.

use vstd::prelude::*;
use vstd::arithmetic::div_mod::lemma_fundamental_div_mod_converse;

verus! {

pub const GBA_WIDTH: usize = 240;
pub const GBA_HEIGHT: usize = 160;
pub const TOTAL_PIXELS: usize = 38400;
pub const BLOCK_SIZE: usize = 8;
pub const BLOCKS_X: usize = 30;
pub const BLOCKS_Y: usize = 20;
pub const TOTAL_BLOCKS: usize = 600;
pub const BLOCK_PIXELS: usize = 64;
pub const DICT_CACHE_SIZE: usize = 4096;

/// Screen index of pixel `i` (row-major inside the tile) of tile `b`
/// (row-major over the 30x20 tiles of the screen).
pub open spec fn pix(b: int, i: int) -> int {
    ((b / 30) * 8 + i / 8) * 240 + (b % 30) * 8 + i % 8
}

/// The tile that screen index `p` lies in.
pub open spec fn block_of(p: int) -> int {
    ((p / 240) / 8) * 30 + (p % 240) / 8
}

/// The position of screen index `p` inside its tile.
pub open spec fn inner_of(p: int) -> int {
    ((p / 240) % 8) * 8 + (p % 240) % 8
}

/// The 64 pixels of tile `b` of frame `f`.
pub open spec fn tile_of<T>(f: Seq<T>, b: int) -> Seq<T> {
    Seq::new(64, |i: int| f[pix(b, i)])
}

/// Frame `s` with tile `b` replaced by the 64 pixels of `t`.
pub open spec fn write_tile(s: Seq<u16>, b: int, t: Seq<u16>) -> Seq<u16> {
    Seq::new(s.len(), |p: int| if block_of(p) == b { t[inner_of(p)] } else { s[p] })
}

/// A tile's pixel lies on screen, in that tile, at that position.
pub proof fn lemma_pix(b: int, i: int)
    requires
        0 <= b < 600,
        0 <= i < 64,
    ensures
        0 <= pix(b, i) < 38400,
        block_of(pix(b, i)) == b,
        inner_of(pix(b, i)) == i,
{
    let by = b / 30;
    let bx = b % 30;
    let py = i / 8;
    let px = i % 8;
    let y = by * 8 + py;
    let x = bx * 8 + px;
    assert(0 <= by < 20);
    assert(0 <= y < 160);
    assert(0 <= x < 240);
    let p = pix(b, i);
    assert(p == y * 240 + x);
    lemma_fundamental_div_mod_converse(p, 240, y, x);
    lemma_fundamental_div_mod_converse(y, 8, by, py);
    lemma_fundamental_div_mod_converse(x, 8, bx, px);
    assert(b == by * 30 + bx);
    assert(i == py * 8 + px);
    assert(0 <= p < 38400) by (nonlinear_arith)
        requires
            p == y * 240 + x,
            0 <= y < 160,
            0 <= x < 240,
    ;
}

/// Every screen index is a pixel of exactly one tile.
pub proof fn lemma_block_of(p: int)
    requires
        0 <= p < 38400,
    ensures
        0 <= block_of(p) < 600,
        0 <= inner_of(p) < 64,
        pix(block_of(p), inner_of(p)) == p,
{
    let y = p / 240;
    let x = p % 240;
    assert(0 <= y < 160);
    let b = block_of(p);
    let i = inner_of(p);
    assert(0 <= b < 600);
    assert(0 <= i < 64);
    lemma_fundamental_div_mod_converse(b, 30, y / 8, x / 8);
    lemma_fundamental_div_mod_converse(i, 8, y % 8, x % 8);
    assert(p == y * 240 + x);
    assert(y == (y / 8) * 8 + y % 8);
    assert(x == (x / 8) * 8 + x % 8);
}

/// An 8-bit channel from a 5-bit one, scaled so that 31 gives 255.
pub open spec fn channel8(c5: u32) -> u32 {
    (c5 * 255 / 31) as u32
}

/// The opaque RGBA pixel (red in the low byte) of an RGB555 pixel whose
/// red is in bits 10..15 and blue in bits 0..5.
pub open spec fn rgba_of(p: u16) -> u32 {
    let r = channel8(((p & 0x7c00) >> 10) as u32);
    let g = channel8(((p & 0x03e0) >> 5) as u32);
    let b = channel8((p & 0x001f) as u32);
    ((255u32 << 24) | (b << 16) | (g << 8) | r) as u32
}

/// The bytes of the RGBA value of an RGB555 pixel: red (bits 10..15 of the
/// pixel) in the low byte, then green (bits 5..10), then blue (bits 0..5),
/// each scaled from 0..31 to 0..255 rounding down, and 255 in the top byte.
pub proof fn lemma_rgba_channels(p: u16)
    ensures
        rgba_of(p) & 0xff == ((p as u32 >> 10) & 31) * 255 / 31,
        (rgba_of(p) >> 8) & 0xff == ((p as u32 >> 5) & 31) * 255 / 31,
        (rgba_of(p) >> 16) & 0xff == (p as u32 & 31) * 255 / 31,
        rgba_of(p) >> 24 == 255,
{
    let r5 = ((p & 0x7c00) >> 10) as u32;
    let g5 = ((p & 0x03e0) >> 5) as u32;
    let b5 = (p & 0x001f) as u32;
    assert(r5 == ((p as u32 >> 10) & 31) && g5 == ((p as u32 >> 5) & 31) && b5 == (p as u32 & 31)
        && r5 <= 31 && g5 <= 31 && b5 <= 31) by (bit_vector)
        requires
            r5 == ((p & 0x7c00) >> 10) as u32,
            g5 == ((p & 0x03e0) >> 5) as u32,
            b5 == (p & 0x001f) as u32,
    ;
    let r = r5 * 255 / 31;
    let g = g5 * 255 / 31;
    let b = b5 * 255 / 31;
    assert(r <= 255 && g <= 255 && b <= 255);
    let r32 = r as u32;
    let g32 = g as u32;
    let b32 = b as u32;
    assert(channel8(r5) == r32 && channel8(g5) == g32 && channel8(b5) == b32);
    let c = ((255u32 << 24) | (b32 << 16) | (g32 << 8) | r32) as u32;
    assert(c & 0xff == r32 && (c >> 8) & 0xff == g32 && (c >> 16) & 0xff == b32 && c >> 24 == 255)
        by (bit_vector)
        requires
            r32 <= 255,
            g32 <= 255,
            b32 <= 255,
            c == ((255u32 << 24) | (b32 << 16) | (g32 << 8) | r32) as u32,
    ;
}

/// Converts an RGB555 pixel to the RGBA value the clients draw.
pub fn rgb555_to_rgba(p: u16) -> (c: u32)
    ensures
        c == rgba_of(p),
        c & 0xff == ((p as u32 >> 10) & 31) * 255 / 31,
        (c >> 8) & 0xff == ((p as u32 >> 5) & 31) * 255 / 31,
        (c >> 16) & 0xff == (p as u32 & 31) * 255 / 31,
        c >> 24 == 255,
{
    proof {
        lemma_rgba_channels(p);
    }
    let r5 = ((p & 0x7c00) >> 10) as u32;
    let g5 = ((p & 0x03e0) >> 5) as u32;
    let b5 = (p & 0x001f) as u32;
    assert(r5 <= 31 && g5 <= 31 && b5 <= 31) by (bit_vector)
        requires
            r5 == ((p & 0x7c00) >> 10) as u32,
            g5 == ((p & 0x03e0) >> 5) as u32,
            b5 == (p & 0x001f) as u32,
    ;
    let r = r5 * 255 / 31;
    let g = g5 * 255 / 31;
    let b = b5 * 255 / 31;
    (255u32 << 24) | (b << 16) | (g << 8) | r
}

} // verus!
