//! Client-side decoder of the video stream: keyframes (4bpp, 8bpp, raw) and
//! tile-delta frames with a 4096-slot FIFO tile cache.

use vstd::prelude::*;
use crate::error::CodecError;
use crate::frame::{block_of, inner_of, pix, tile_of, write_tile, lemma_pix, lemma_block_of, BLOCK_PIXELS, DICT_CACHE_SIZE, TOTAL_PIXELS};
use crate::le::{read16, read16_seq, get16};
use crate::lz4::{LZ4_MAX_INPUT, lz4_compressed, lz4_decompressed, decompress_size_prepended};

verus! {

/// What a decoder holds: its tile cache, the next cache slot to fill, and
/// the screen.
pub struct DecoderView {
    pub cache: Seq<Seq<u16>>,
    pub head: int,
    pub screen: Seq<u16>,
}

/// Outcome of applying a decompressed payload to a decoder.
pub enum DecodeOutcome {
    /// Applied; the decoder's new state.
    Done(DecoderView),
    /// Refused; the state the decoder is left in and the error.
    Failed(DecoderView, CodecError),
    /// A payload that the decoder cannot apply at all (a palette index past
    /// the palette, or a tile below the screen).
    Unrepresentable,
}

/// Outcome of one tile-delta block.
pub enum BlockStep {
    Next(DecoderView, Seq<u8>),
    Fail(DecoderView, CodecError),
    OffScreen,
}

/// A decoder state with the expected shapes.
pub open spec fn view_wf(v: DecoderView) -> bool {
    &&& v.cache.len() == 4096
    &&& forall|k: int| 0 <= k < 4096 ==> (#[trigger] v.cache[k]).len() == 64
    &&& 0 <= v.head < 4096
    &&& v.screen.len() == 38400
}

/// Palette index of pixel `p` in a 4bpp keyframe with `n` palette entries.
pub open spec fn key4_index(d: Seq<u8>, n: int, p: int) -> int {
    let byte = d[2 + 2 * n + p / 2];
    if p % 2 == 0 {
        (byte & 0x0f) as int
    } else {
        ((byte >> 4) & 0x0f) as int
    }
}

/// Palette index of pixel `p` in an 8bpp keyframe with `n` palette entries.
pub open spec fn key8_index(d: Seq<u8>, n: int, p: int) -> int {
    d[2 + 2 * n + p] as int
}

/// Every pixel of a 4bpp keyframe names an entry of its palette.
pub open spec fn key4_in_range(d: Seq<u8>, n: int) -> bool {
    forall|p: int| 0 <= p < 38400 ==> #[trigger] key4_index(d, n, p) < n
}

/// Every pixel of an 8bpp keyframe names an entry of its palette.
pub open spec fn key8_in_range(d: Seq<u8>, n: int) -> bool {
    forall|p: int| 0 <= p < 38400 ==> #[trigger] key8_index(d, n, p) < n
}

/// Screen of a 4bpp keyframe.
pub open spec fn key4_screen(d: Seq<u8>, n: int) -> Seq<u16> {
    Seq::new(38400, |p: int| read16(d, 2 + 2 * key4_index(d, n, p)))
}

/// Screen of an 8bpp keyframe.
pub open spec fn key8_screen(d: Seq<u8>, n: int) -> Seq<u16> {
    Seq::new(38400, |p: int| read16(d, 2 + 2 * key8_index(d, n, p)))
}

/// Screen of a raw keyframe.
pub open spec fn raw_screen(d: Seq<u8>) -> Seq<u16> {
    read16_seq(d, 38400)
}

/// Colour `i` of a 4bpp tile body with `n` palette entries; entries past the
/// palette are black.
pub open spec fn tile4_pixel(body: Seq<u8>, n: int, i: int) -> u16 {
    let byte = body[1 + 2 * n + i / 2];
    let c = if i % 2 == 0 {
        (byte & 0x0f) as int
    } else {
        ((byte >> 4) & 0x0f) as int
    };
    if c < n {
        read16(body, 1 + 2 * c)
    } else {
        0
    }
}

/// The tile a block body of the given mode stands for, the bytes it takes
/// and whether it enters the cache; or why it is refused.
pub open spec fn block_body(st: DecoderView, mode: u8, body: Seq<u8>) -> Result<
    (Seq<u16>, int, bool),
    CodecError,
> {
    if mode == 0 {
        if body.len() < 2 {
            Err(CodecError::TruncatedSolidBlock)
        } else {
            Ok((Seq::new(64, |i: int| read16(body, 0)), 2, false))
        }
    } else if mode == 1 {
        if body.len() < 2 {
            Err(CodecError::TruncatedCacheHit)
        } else if read16(body, 0) >= 4096 {
            Err(CodecError::CacheIdOutOfBounds)
        } else {
            Ok((st.cache[read16(body, 0) as int], 2, false))
        }
    } else if mode == 2 {
        if body.len() < 1 {
            Err(CodecError::Truncated4bppPalLen)
        } else if 1 + 2 * body[0] + 32 > body.len() {
            Err(CodecError::Truncated4bppTile)
        } else {
            Ok(
                (
                    Seq::new(64, |i: int| tile4_pixel(body, body[0] as int, i)),
                    1 + 2 * body[0] + 32,
                    true,
                ),
            )
        }
    } else if mode == 3 {
        if body.len() < 128 {
            Err(CodecError::TruncatedRawBlock)
        } else {
            Ok((read16_seq(body, 64), 128, true))
        }
    } else {
        Err(CodecError::InvalidBlockMode)
    }
}

/// `st` with `t` stored in the next cache slot.
pub open spec fn cache_push(st: DecoderView, t: Seq<u16>) -> DecoderView {
    DecoderView { cache: st.cache.update(st.head, t), head: (st.head + 1) % 4096, ..st }
}

/// One block of a tile-delta frame: header (tile index, mode), body, and the
/// tile drawn on the screen.
pub open spec fn block_step(st: DecoderView, bytes: Seq<u8>) -> BlockStep {
    if bytes.len() < 3 {
        BlockStep::Fail(st, CodecError::TruncatedBlockHeader)
    } else {
        let b = read16(bytes, 0) as int;
        let body = bytes.skip(3);
        match block_body(st, bytes[2], body) {
            Err(e) => BlockStep::Fail(st, e),
            Ok((t, used, caches)) => {
                let st1 = if caches {
                    cache_push(st, t)
                } else {
                    st
                };
                if b >= 600 {
                    BlockStep::OffScreen
                } else {
                    BlockStep::Next(
                        DecoderView { screen: write_tile(st1.screen, b, t), ..st1 },
                        body.skip(used),
                    )
                }
            },
        }
    }
}

/// `n` consecutive blocks of a tile-delta frame.
pub open spec fn apply_blocks(st: DecoderView, bytes: Seq<u8>, n: nat) -> BlockStep
    decreases n,
{
    if n == 0 {
        BlockStep::Next(st, bytes)
    } else {
        match block_step(st, bytes) {
            BlockStep::Next(st1, rest) => apply_blocks(st1, rest, (n - 1) as nat),
            other => other,
        }
    }
}

/// What applying the decompressed payload `d` with frame flag `flag` does to
/// a decoder in state `st`.
pub open spec fn decode_spec(st: DecoderView, flag: u8, d: Seq<u8>) -> DecodeOutcome {
    let st0 = DecoderView { head: 0, ..st };
    if flag == 4 {
        if d.len() < 2 {
            DecodeOutcome::Failed(st0, CodecError::Short4bpp)
        } else if d.len() < 2 + 2 * read16(d, 0) + 19200 {
            DecodeOutcome::Failed(st0, CodecError::Short4bppPayload)
        } else if !key4_in_range(d, read16(d, 0) as int) {
            DecodeOutcome::Unrepresentable
        } else {
            DecodeOutcome::Done(DecoderView { screen: key4_screen(d, read16(d, 0) as int), ..st0 })
        }
    } else if flag == 2 {
        if d.len() < 2 {
            DecodeOutcome::Failed(st0, CodecError::Short8bpp)
        } else if d.len() < 2 + 2 * read16(d, 0) + 38400 {
            DecodeOutcome::Failed(st0, CodecError::Short8bppPayload)
        } else if !key8_in_range(d, read16(d, 0) as int) {
            DecodeOutcome::Unrepresentable
        } else {
            DecodeOutcome::Done(DecoderView { screen: key8_screen(d, read16(d, 0) as int), ..st0 })
        }
    } else if flag == 1 {
        if d.len() != 76800 {
            DecodeOutcome::Failed(st0, CodecError::RawFrameSizeMismatch)
        } else {
            DecodeOutcome::Done(DecoderView { screen: raw_screen(d), ..st0 })
        }
    } else if flag == 8 {
        if d.len() < 2 {
            DecodeOutcome::Failed(st, CodecError::ShortDeltaHeader)
        } else {
            match apply_blocks(st, d.skip(2), read16(d, 0) as nat) {
                BlockStep::Next(s, _) => DecodeOutcome::Done(s),
                BlockStep::Fail(s, e) => DecodeOutcome::Failed(s, e),
                BlockStep::OffScreen => DecodeOutcome::Unrepresentable,
            }
        }
    } else {
        DecodeOutcome::Failed(st, CodecError::UnknownFlag)
    }
}


/// A tile of one colour.
fn solid_tile(c: u16) -> (t: Vec<u16>)
    ensures
        t@ == Seq::new(64, |i: int| c),
{
    let mut t: Vec<u16> = Vec::new();
    let mut i: usize = 0;
    while i < BLOCK_PIXELS
        invariant
            i <= 64,
            t@ == Seq::new(i as nat, |j: int| c),
        decreases 64 - i,
    {
        t.push(c);
        i = i + 1;
        assert(t@ =~= Seq::new(i as nat, |j: int| c));
    }
    t
}

/// A copy of `v`.
pub fn copy_u16s(v: &[u16]) -> (t: Vec<u16>)
    ensures
        t@ == v@,
{
    let mut t: Vec<u16> = Vec::new();
    let mut i: usize = 0;
    while i < v.len()
        invariant
            i <= v@.len(),
            t@ == v@.take(i as int),
        decreases v@.len() - i,
    {
        t.push(v[i]);
        i = i + 1;
        assert(t@ =~= v@.take(i as int));
    }
    assert(v@.take(i as int) =~= v@);
    t
}

/// The `count` 16-bit little-endian values stored from byte `start` on.
pub fn read_u16s(d: &[u8], start: usize, count: usize) -> (t: Vec<u16>)
    requires
        start + 2 * count <= d@.len(),
    ensures
        t@ == read16_seq(d@.skip(start as int), count as nat),
{
    let mut t: Vec<u16> = Vec::new();
    let mut i: usize = 0;
    while i < count
        invariant
            i <= count,
            start + 2 * count <= d.len(),
            t@ == read16_seq(d@.skip(start as int), i as nat),
        decreases count - i,
    {
        let v = get16(d, start + 2 * i);
        assert(v == read16(d@.skip(start as int), 2 * i));
        t.push(v);
        i = i + 1;
        assert(t@ =~= read16_seq(d@.skip(start as int), i as nat));
    }
    t
}

/// The tile of a 4bpp tile body that starts at byte `start` (its palette
/// size byte) and has `n` palette entries.
fn tile4_from(d: &[u8], start: usize, n: usize) -> (t: Vec<u16>)
    requires
        n < 256,
        start + 1 + 2 * n + 32 <= d@.len(),
    ensures
        t@ == Seq::new(64, |i: int| tile4_pixel(d@.skip(start as int), n as int, i)),
{
    let ghost body = d@.skip(start as int);
    let mut t: Vec<u16> = Vec::new();
    let mut i: usize = 0;
    while i < BLOCK_PIXELS
        invariant
            i <= 64,
            n < 256,
            start + 1 + 2 * n + 32 <= d.len(),
            body == d@.skip(start as int),
            t@ == Seq::new(i as nat, |j: int| tile4_pixel(body, n as int, j)),
        decreases 64 - i,
    {
        let byte = d[start + 1 + 2 * n + i / 2];
        assert(byte == body[1 + 2 * n + i / 2]);
        let c: usize = if i % 2 == 0 {
            (byte & 0x0f) as usize
        } else {
            ((byte >> 4) & 0x0f) as usize
        };
        let v: u16 = if c < n {
            let r = get16(d, start + 1 + 2 * c);
            assert(r == read16(body, 1 + 2 * c));
            r
        } else {
            0
        };
        assert(v == tile4_pixel(body, n as int, i as int));
        t.push(v);
        i = i + 1;
        assert(t@ =~= Seq::new(i as nat, |j: int| tile4_pixel(body, n as int, j)));
    }
    t
}


/// Bytes taken by a block body of the given mode, or nothing where the body
/// is refused.
pub open spec fn body_len(mode: u8, body: Seq<u8>) -> Option<int> {
    if mode == 0 {
        if body.len() < 2 {
            None
        } else {
            Some(2)
        }
    } else if mode == 1 {
        if body.len() < 2 || read16(body, 0) >= 4096 {
            None
        } else {
            Some(2)
        }
    } else if mode == 2 {
        if body.len() < 1 || 1 + 2 * body[0] + 32 > body.len() {
            None
        } else {
            Some(1 + 2 * body[0] + 32)
        }
    } else if mode == 3 {
        if body.len() < 128 {
            None
        } else {
            Some(128)
        }
    } else {
        None
    }
}

/// Some block among the first `n` of a tile-delta frame is reached and names
/// a tile below the screen.
pub open spec fn blocks_offscreen(bytes: Seq<u8>, n: nat) -> bool
    decreases n,
{
    if n == 0 || bytes.len() < 3 {
        false
    } else {
        match body_len(bytes[2], bytes.skip(3)) {
            None => false,
            Some(used) => read16(bytes, 0) >= 600 || blocks_offscreen(
                bytes.skip(3).skip(used),
                (n - 1) as nat,
            ),
        }
    }
}

/// The decompressed payload `d` with flag `flag` can be applied: every
/// keyframe pixel names an entry of its palette, and every tile-delta block
/// that is reached lies on the screen.
pub open spec fn payload_representable(flag: u8, d: Seq<u8>) -> bool {
    if flag == 4 {
        d.len() >= 2 + 2 * read16(d, 0) + 19200 ==> key4_in_range(d, read16(d, 0) as int)
    } else if flag == 2 {
        d.len() >= 2 + 2 * read16(d, 0) + 38400 ==> key8_in_range(d, read16(d, 0) as int)
    } else if flag == 8 {
        d.len() >= 2 ==> !blocks_offscreen(d.skip(2), read16(d, 0) as nat)
    } else {
        true
    }
}

/// The error for a payload that cannot be applied.
pub open spec fn unrepresentable_error(flag: u8) -> CodecError {
    if flag == 8 {
        CodecError::BlockOutOfScreen
    } else {
        CodecError::PaletteIndexOutOfRange
    }
}

/// Whether the tile-delta blocks run off the screen does not depend on the
/// decoder's state.
pub proof fn lemma_apply_blocks_offscreen(st: DecoderView, bytes: Seq<u8>, n: nat)
    ensures
        (apply_blocks(st, bytes, n) is OffScreen) == blocks_offscreen(bytes, n),
    decreases n,
{
    if n > 0 && bytes.len() >= 3 {
        let body = bytes.skip(3);
        match block_body(st, bytes[2], body) {
            Ok((t, used, caches)) => {
                let st1 = if caches {
                    cache_push(st, t)
                } else {
                    st
                };
                if read16(bytes, 0) < 600 {
                    lemma_apply_blocks_offscreen(
                        DecoderView {
                            screen: write_tile(st1.screen, read16(bytes, 0) as int, t),
                            ..st1
                        },
                        body.skip(used),
                        (n - 1) as nat,
                    );
                }
            },
            Err(_) => {},
        }
    }
}

/// A payload cannot be applied exactly when it is not representable.
pub proof fn lemma_decode_unrepresentable(st: DecoderView, flag: u8, d: Seq<u8>)
    ensures
        (decode_spec(st, flag, d) is Unrepresentable) == !payload_representable(flag, d),
{
    if flag == 8 && d.len() >= 2 {
        lemma_apply_blocks_offscreen(st, d.skip(2), read16(d, 0) as nat);
    }
}


/// Whether the decompressed payload `d` with flag `flag` can be applied.
pub fn is_representable(flag: u8, d: &[u8]) -> (r: bool)
    ensures
        r == payload_representable(flag, d@),
{
    if flag == 4 || flag == 2 {
        if d.len() < 2 {
            return true;
        }
        let n = get16(d, 0) as usize;
        let count: usize = if flag == 4 { TOTAL_PIXELS / 2 } else { TOTAL_PIXELS };
        if d.len() < 2 + n * 2 + count {
            return true;
        }
        let base = 2 + n * 2;
        let mut i: usize = 0;
        while i < count
            invariant
                i <= count,
                flag == 4 ==> count == 19200,
                flag == 2 ==> count == 38400,
                flag == 4 || flag == 2,
                base == 2 + 2 * n,
                n == read16(d@, 0),
                base + count <= d.len(),
                flag == 4 ==> forall|p: int| 0 <= p < 2 * i ==> #[trigger] key4_index(d@, n as int, p) < n,
                flag == 2 ==> forall|p: int| 0 <= p < i ==> #[trigger] key8_index(d@, n as int, p) < n,
            decreases count - i,
        {
            let byte = d[base + i];
            if flag == 4 {
                let c0 = (byte & 0x0f) as usize;
                let c1 = ((byte >> 4) & 0x0f) as usize;
                assert(key4_index(d@, n as int, 2 * i) == c0);
                assert(key4_index(d@, n as int, 2 * i + 1) == c1);
                if c0 >= n || c1 >= n {
                    return false;
                }
                assert forall|p: int| 0 <= p < 2 * (i + 1) implies #[trigger] key4_index(
                    d@,
                    n as int,
                    p,
                ) < n by {
                    if p >= 2 * i {
                        assert(p == 2 * i || p == 2 * i + 1);
                    }
                }
            } else {
                assert(key8_index(d@, n as int, i as int) == byte);
                if (byte as usize) >= n {
                    return false;
                }
            }
            i = i + 1;
        }
        true
    } else if flag == 8 {
        if d.len() < 2 {
            return true;
        }
        let num = get16(d, 0) as usize;
        let mut offset: usize = 2;
        let mut k: usize = 0;
        while k < num
            invariant
                2 <= offset <= d.len(),
                k <= num,
                flag == 8,
                d.len() >= 2,
                blocks_offscreen(d@.skip(2), read16(d@, 0) as nat) == blocks_offscreen(
                    d@.skip(offset as int),
                    (num - k) as nat,
                ),
            decreases num - k,
        {
            let ghost bytes = d@.skip(offset as int);
            if d.len() - offset < 3 {
                return true;
            }
            let b_idx = get16(d, offset) as usize;
            assert(b_idx == read16(bytes, 0));
            let mode = d[offset + 2];
            assert(mode == bytes[2]);
            let body_start = offset + 3;
            let ghost body = d@.skip(body_start as int);
            assert(body =~= bytes.skip(3));
            let rest = d.len() - body_start;
            let used: usize;
            if mode == 0 {
                if rest < 2 {
                    return true;
                }
                used = 2;
            } else if mode == 1 {
                if rest < 2 {
                    return true;
                }
                let id = get16(d, body_start);
                assert(id == read16(body, 0));
                if id as usize >= DICT_CACHE_SIZE {
                    return true;
                }
                used = 2;
            } else if mode == 2 {
                if rest < 1 {
                    return true;
                }
                let n = d[body_start] as usize;
                assert(n == body[0]);
                if rest < 1 + n * 2 + 32 {
                    return true;
                }
                used = 1 + n * 2 + 32;
            } else if mode == 3 {
                if rest < BLOCK_PIXELS * 2 {
                    return true;
                }
                used = BLOCK_PIXELS * 2;
            } else {
                return true;
            }
            assert(body_len(mode, body) == Some(used as int));
            if b_idx >= 600 {
                return false;
            }
            offset = body_start + used;
            assert(body.skip(used as int) =~= d@.skip(offset as int));
            k = k + 1;
        }
        true
    } else {
        true
    }
}

/// Decoder of the video stream.
pub struct TileCacheDecoder {
    cache: Vec<Vec<u16>>,
    cache_head: u16,
    screen: Vec<u16>,
}

impl TileCacheDecoder {
    /// The decoder's state.
    pub closed spec fn view(&self) -> DecoderView {
        DecoderView {
            cache: self.cache@.map_values(|t: Vec<u16>| t@),
            head: self.cache_head as int,
            screen: self.screen@,
        }
    }

    /// The decoder's fields have the expected shapes.
    pub closed spec fn wf(&self) -> bool {
        &&& self.cache@.len() == 4096
        &&& forall|k: int| 0 <= k < 4096 ==> (#[trigger] self.cache@[k])@.len() == 64
        &&& self.cache_head < 4096
        &&& self.screen@.len() == 38400
    }

    /// A well-formed decoder has a well-formed state.
    pub proof fn lemma_wf(&self)
        requires
            self.wf(),
        ensures
            view_wf(self.view()),
    {
        assert forall|k: int| 0 <= k < 4096 implies (#[trigger] self.view().cache[k]).len() == 64 by {
            assert(self.view().cache[k] == self.cache@[k]@);
        }
    }

    /// A decoder with a black screen, an all-black cache and the first cache
    /// slot next.
    pub fn new() -> (d: Self)
        ensures
            d.wf(),
            d.view().head == 0,
            d.view().screen == Seq::new(38400, |p: int| 0u16),
            d.view().cache == Seq::new(4096, |k: int| Seq::new(64, |i: int| 0u16)),
    {
        let mut cache: Vec<Vec<u16>> = Vec::new();
        let mut k: usize = 0;
        while k < DICT_CACHE_SIZE
            invariant
                k <= 4096,
                cache@.len() == k,
                forall|j: int| 0 <= j < k ==> (#[trigger] cache@[j])@ == Seq::new(64, |i: int| 0u16),
            decreases 4096 - k,
        {
            let t = vec![0u16; BLOCK_PIXELS];
            assert(t@ =~= Seq::new(64, |i: int| 0u16));
            cache.push(t);
            k = k + 1;
        }
        let screen = vec![0u16; TOTAL_PIXELS];
        let d = TileCacheDecoder { cache, cache_head: 0, screen };
        assert(d.view().screen =~= Seq::new(38400, |p: int| 0u16));
        assert(d.view().cache =~= Seq::new(4096, |k: int| Seq::new(64, |i: int| 0u16)));
        d
    }

    /// Makes the first cache slot the next to be filled.
    pub fn reset_cache(&mut self)
        requires
            old(self).wf(),
        ensures
            final(self).wf(),
            final(self).view() == (DecoderView { head: 0, ..old(self).view() }),
    {
        self.cache_head = 0;
    }


    /// Draws tile `t` as tile `b` of the screen.
    fn write_block(&mut self, b: usize, t: &Vec<u16>)
        requires
            old(self).wf(),
            b < 600,
            t@.len() == 64,
        ensures
            final(self).wf(),
            final(self).view() == (DecoderView {
                screen: write_tile(old(self).view().screen, b as int, t@),
                ..old(self).view()
            }),
    {
        let ghost old_screen = self.screen@;
        let mut i: usize = 0;
        while i < BLOCK_PIXELS
            invariant
                i <= 64,
                b < 600,
                t@.len() == 64,
                self.wf(),
                self.cache == old(self).cache,
                self.cache_head == old(self).cache_head,
                old_screen == old(self).screen@,
                self.screen@ == Seq::new(
                    38400,
                    |p: int|
                        if block_of(p) == b && inner_of(p) < i {
                            t@[inner_of(p)]
                        } else {
                            old_screen[p]
                        },
                ),
            decreases 64 - i,
        {
            proof {
                lemma_pix(b as int, i as int);
            }
            let p = ((b / 30) * 8 + i / 8) * 240 + (b % 30) * 8 + i % 8;
            assert(p == pix(b as int, i as int));
            let ghost prev = self.screen@;
            self.screen.set(p, t[i]);
            i = i + 1;
            assert forall|q: int| 0 <= q < 38400 implies #[trigger] self.screen@[q] == (
            if block_of(q) == b && inner_of(q) < i {
                t@[inner_of(q)]
            } else {
                old_screen[q]
            }) by {
                if q != p {
                    if block_of(q) == b && inner_of(q) == i - 1 {
                        lemma_block_of(q);
                    }
                }
            }
            assert(self.screen@ =~= Seq::new(
                38400,
                |q: int|
                    if block_of(q) == b && inner_of(q) < i {
                        t@[inner_of(q)]
                    } else {
                        old_screen[q]
                    },
            ));
        }
        assert forall|q: int| 0 <= q < 38400 implies #[trigger] self.screen@[q] == write_tile(
            old_screen,
            b as int,
            t@,
        )[q] by {
            lemma_block_of(q);
        }
        assert(self.screen@ =~= write_tile(old_screen, b as int, t@));
        assert(self.view().cache =~= old(self).view().cache);
    }


    /// Applies a 4bpp keyframe.
    fn decode_key4(&mut self, d: &[u8]) -> (r: Result<(), CodecError>)
        requires
            old(self).wf(),
            !(decode_spec(old(self).view(), 4, d@) is Unrepresentable),
        ensures
            final(self).wf(),
            match decode_spec(old(self).view(), 4, d@) {
                DecodeOutcome::Done(s) => r is Ok && final(self).view() == s,
                DecodeOutcome::Failed(s, e) => r == Err::<(), CodecError>(e) && final(self).view() == s,
                DecodeOutcome::Unrepresentable => false,
            },
    {
        self.cache_head = 0;
        if d.len() < 2 {
            return Err(CodecError::Short4bpp);
        }
        let n = get16(d, 0) as usize;
        if d.len() < 2 + n * 2 + TOTAL_PIXELS / 2 {
            return Err(CodecError::Short4bppPayload);
        }
        assert(key4_in_range(d@, n as int));
        let ghost old_screen = self.screen@;
        let base = 2 + n * 2;
        let mut i: usize = 0;
        while i < TOTAL_PIXELS / 2
            invariant
                i <= 19200,
                base == 2 + 2 * n,
                base + 19200 <= d.len(),
                key4_in_range(d@, n as int),
                self.wf(),
                self.cache == old(self).cache,
                self.cache_head == 0,
                self.screen@ == Seq::new(
                    38400,
                    |p: int|
                        if p < 2 * i {
                            key4_screen(d@, n as int)[p]
                        } else {
                            old_screen[p]
                        },
                ),
            decreases 19200 - i,
        {
            let byte = d[base + i];
            let c0 = (byte & 0x0f) as usize;
            let c1 = ((byte >> 4) & 0x0f) as usize;
            assert(key4_index(d@, n as int, 2 * i) == c0);
            assert(key4_index(d@, n as int, 2 * i + 1) == c1);
            assert(c0 < n && c1 < n);
            let v0 = get16(d, 2 + 2 * c0);
            let v1 = get16(d, 2 + 2 * c1);
            self.screen.set(2 * i, v0);
            self.screen.set(2 * i + 1, v1);
            i = i + 1;
            assert(self.screen@ =~= Seq::new(
                38400,
                |p: int|
                    if p < 2 * i {
                        key4_screen(d@, n as int)[p]
                    } else {
                        old_screen[p]
                    },
            ));
        }
        assert(self.screen@ =~= key4_screen(d@, n as int));
        assert(self.view().cache =~= old(self).view().cache);
        Ok(())
    }

    /// Applies an 8bpp keyframe.
    fn decode_key8(&mut self, d: &[u8]) -> (r: Result<(), CodecError>)
        requires
            old(self).wf(),
            !(decode_spec(old(self).view(), 2, d@) is Unrepresentable),
        ensures
            final(self).wf(),
            match decode_spec(old(self).view(), 2, d@) {
                DecodeOutcome::Done(s) => r is Ok && final(self).view() == s,
                DecodeOutcome::Failed(s, e) => r == Err::<(), CodecError>(e) && final(self).view() == s,
                DecodeOutcome::Unrepresentable => false,
            },
    {
        self.cache_head = 0;
        if d.len() < 2 {
            return Err(CodecError::Short8bpp);
        }
        let n = get16(d, 0) as usize;
        if d.len() < 2 + n * 2 + TOTAL_PIXELS {
            return Err(CodecError::Short8bppPayload);
        }
        assert(key8_in_range(d@, n as int));
        let ghost old_screen = self.screen@;
        let base = 2 + n * 2;
        let mut p: usize = 0;
        while p < TOTAL_PIXELS
            invariant
                p <= 38400,
                base == 2 + 2 * n,
                base + 38400 <= d.len(),
                key8_in_range(d@, n as int),
                self.wf(),
                self.cache == old(self).cache,
                self.cache_head == 0,
                self.screen@ == Seq::new(
                    38400,
                    |q: int|
                        if q < p {
                            key8_screen(d@, n as int)[q]
                        } else {
                            old_screen[q]
                        },
                ),
            decreases 38400 - p,
        {
            let c = d[base + p] as usize;
            assert(key8_index(d@, n as int, p as int) == c);
            let v = get16(d, 2 + 2 * c);
            self.screen.set(p, v);
            p = p + 1;
            assert(self.screen@ =~= Seq::new(
                38400,
                |q: int|
                    if q < p {
                        key8_screen(d@, n as int)[q]
                    } else {
                        old_screen[q]
                    },
            ));
        }
        assert(self.screen@ =~= key8_screen(d@, n as int));
        assert(self.view().cache =~= old(self).view().cache);
        Ok(())
    }

    /// Applies a raw keyframe.
    fn decode_raw(&mut self, d: &[u8]) -> (r: Result<(), CodecError>)
        requires
            old(self).wf(),
        ensures
            final(self).wf(),
            match decode_spec(old(self).view(), 1, d@) {
                DecodeOutcome::Done(s) => r is Ok && final(self).view() == s,
                DecodeOutcome::Failed(s, e) => r == Err::<(), CodecError>(e) && final(self).view() == s,
                DecodeOutcome::Unrepresentable => false,
            },
    {
        self.cache_head = 0;
        if d.len() != TOTAL_PIXELS * 2 {
            return Err(CodecError::RawFrameSizeMismatch);
        }
        let pixels = read_u16s(d, 0, TOTAL_PIXELS);
        assert(d@.skip(0) =~= d@);
        self.screen = pixels;
        assert(self.view().cache =~= old(self).view().cache);
        Ok(())
    }

    /// Applies a tile-delta frame.
    fn decode_delta(&mut self, d: &[u8]) -> (r: Result<(), CodecError>)
        requires
            old(self).wf(),
            !(decode_spec(old(self).view(), 8, d@) is Unrepresentable),
        ensures
            final(self).wf(),
            match decode_spec(old(self).view(), 8, d@) {
                DecodeOutcome::Done(s) => r is Ok && final(self).view() == s,
                DecodeOutcome::Failed(s, e) => r == Err::<(), CodecError>(e) && final(self).view() == s,
                DecodeOutcome::Unrepresentable => false,
            },
    {
        if d.len() < 2 {
            return Err(CodecError::ShortDeltaHeader);
        }
        let num = get16(d, 0) as usize;
        let ghost total = apply_blocks(self.view(), d@.skip(2), num as nat);
        assert(decode_spec(old(self).view(), 8, d@) == match total {
            BlockStep::Next(s, _) => DecodeOutcome::Done(s),
            BlockStep::Fail(s, e) => DecodeOutcome::Failed(s, e),
            BlockStep::OffScreen => DecodeOutcome::Unrepresentable,
        });
        let mut offset: usize = 2;
        let mut k: usize = 0;
        while k < num
            invariant
                self.wf(),
                2 <= offset <= d.len(),
                k <= num,
                apply_blocks(self.view(), d@.skip(offset as int), (num - k) as nat) == total,
                !(total is OffScreen),
                decode_spec(old(self).view(), 8, d@) == match total {
                    BlockStep::Next(s, _) => DecodeOutcome::Done(s),
                    BlockStep::Fail(s, e) => DecodeOutcome::Failed(s, e),
                    BlockStep::OffScreen => DecodeOutcome::Unrepresentable,
                },
            decreases num - k,
        {
            proof {
                self.lemma_wf();
            }
            let ghost st = self.view();
            let ghost bytes = d@.skip(offset as int);
            assert(apply_blocks(st, bytes, (num - k) as nat) == match block_step(st, bytes) {
                BlockStep::Next(st1, rest) => apply_blocks(st1, rest, (num - k - 1) as nat),
                other => other,
            });
            if d.len() - offset < 3 {
                assert(bytes.len() < 3);
                assert(total == BlockStep::Fail(st, CodecError::TruncatedBlockHeader));
                return Err(CodecError::TruncatedBlockHeader);
            }
            let b_idx = get16(d, offset) as usize;
            assert(b_idx == read16(bytes, 0));
            let mode = d[offset + 2];
            assert(mode == bytes[2]);
            offset = offset + 3;
            let ghost body = d@.skip(offset as int);
            assert(body =~= bytes.skip(3));
            let tile: Vec<u16>;
            if mode == 0 {
                if d.len() - offset < 2 {
                    assert(block_body(st, mode, body) == Err::<(Seq<u16>, int, bool), CodecError>(
                        CodecError::TruncatedSolidBlock,
                    ));
                    return Err(CodecError::TruncatedSolidBlock);
                }
                let c = get16(d, offset);
                assert(c == read16(body, 0));
                offset = offset + 2;
                tile = solid_tile(c);
            } else if mode == 1 {
                if d.len() - offset < 2 {
                    return Err(CodecError::TruncatedCacheHit);
                }
                let id = get16(d, offset) as usize;
                assert(id == read16(body, 0));
                offset = offset + 2;
                if id >= DICT_CACHE_SIZE {
                    return Err(CodecError::CacheIdOutOfBounds);
                }
                tile = copy_u16s(self.cache[id].as_slice());
                assert(tile@ == st.cache[id as int]);
            } else if mode == 2 {
                if d.len() - offset < 1 {
                    return Err(CodecError::Truncated4bppPalLen);
                }
                let n = d[offset] as usize;
                assert(n == body[0]);
                if d.len() - offset < 1 + n * 2 + 32 {
                    return Err(CodecError::Truncated4bppTile);
                }
                tile = tile4_from(d, offset, n);
                offset = offset + 1 + n * 2 + 32;
                let head = self.cache_head as usize;
                self.cache.set(head, copy_u16s(tile.as_slice()));
                self.cache_head = ((self.cache_head + 1) % 4096) as u16;
            } else if mode == 3 {
                if d.len() - offset < BLOCK_PIXELS * 2 {
                    return Err(CodecError::TruncatedRawBlock);
                }
                tile = read_u16s(d, offset, BLOCK_PIXELS);
                offset = offset + BLOCK_PIXELS * 2;
                let head = self.cache_head as usize;
                self.cache.set(head, copy_u16s(tile.as_slice()));
                self.cache_head = ((self.cache_head + 1) % 4096) as u16;
            } else {
                return Err(CodecError::InvalidBlockMode);
            }
            proof {
                match block_body(st, mode, body) {
                    Ok((t, used, caches)) => {
                        assert(t == tile@);
                        assert(body.skip(used) =~= d@.skip(offset as int));
                        if caches {
                            assert(self.view().cache =~= cache_push(st, t).cache);
                        } else {
                            assert(self.view().cache =~= st.cache);
                        }
                    },
                    Err(_) => {},
                }
            }
            assert(b_idx < 600);
            self.write_block(b_idx, &tile);
            k = k + 1;
        }
        Ok(())
    }

    /// Applies an already decompressed payload with frame flag `flag`.
    pub fn apply_decompressed(&mut self, flag: u8, d: &[u8]) -> (r: Result<(), CodecError>)
        requires
            old(self).wf(),
            !(decode_spec(old(self).view(), flag, d@) is Unrepresentable),
        ensures
            final(self).wf(),
            match decode_spec(old(self).view(), flag, d@) {
                DecodeOutcome::Done(s) => r is Ok && final(self).view() == s,
                DecodeOutcome::Failed(s, e) => r == Err::<(), CodecError>(e) && final(self).view() == s,
                DecodeOutcome::Unrepresentable => false,
            },
    {
        if flag == 4 {
            self.decode_key4(d)
        } else if flag == 2 {
            self.decode_key8(d)
        } else if flag == 1 {
            self.decode_raw(d)
        } else if flag == 8 {
            self.decode_delta(d)
        } else {
            Err(CodecError::UnknownFlag)
        }
    }


    /// Decompresses a video payload and applies it with frame flag `flag`,
    /// returning the new screen. The whole payload is one LZ4 block; one
    /// longer than `LZ4_MAX_INPUT` is refused with `PayloadTooLong`, and one that decompresses but cannot be
    /// applied (see `payload_representable`) with `unrepresentable_error(flag)`;
    /// either leaves the decoder as it was.
    pub fn decode(&mut self, flag: u8, video_payload: &[u8]) -> (r: Result<&[u16], CodecError>)
        requires
            old(self).wf(),
        ensures
            final(self).wf(),
            video_payload@.len() > LZ4_MAX_INPUT ==> r == Err::<&[u16], CodecError>(
                CodecError::PayloadTooLong,
            ) && final(self).view() == old(self).view(),
            video_payload@.len() <= LZ4_MAX_INPUT ==> forall|raw: Seq<u8>|
                raw.len() <= u32::MAX && video_payload@ == #[trigger] lz4_compressed(raw)
                    ==> lz4_decompressed(video_payload@) == Some(raw),
            video_payload@.len() <= LZ4_MAX_INPUT ==> match lz4_decompressed(video_payload@) {
                None => r is Err && r->Err_0 is Lz4 && final(self).view() == old(self).view(),
                Some(d) => if !payload_representable(flag, d) {
                    r == Err::<&[u16], CodecError>(unrepresentable_error(flag)) && final(self).view()
                        == old(self).view()
                } else {
                    match decode_spec(old(self).view(), flag, d) {
                        DecodeOutcome::Done(s) => r is Ok && r->Ok_0@ == s.screen && final(self).view()
                            == s,
                        DecodeOutcome::Failed(s, e) => r == Err::<&[u16], CodecError>(e)
                            && final(self).view() == s,
                        DecodeOutcome::Unrepresentable => false,
                    }
                },
            },
    {
        if video_payload.len() > LZ4_MAX_INPUT {
            return Err(CodecError::PayloadTooLong);
        }
        let decomp = match decompress_size_prepended(video_payload) {
            Ok(v) => v,
            Err(e) => {
                return Err(CodecError::Lz4(e));
            },
        };
        if !is_representable(flag, decomp.as_slice()) {
            return Err(if flag == 8 {
                CodecError::BlockOutOfScreen
            } else {
                CodecError::PaletteIndexOutOfRange
            });
        }
        proof {
            lemma_decode_unrepresentable(self.view(), flag, decomp@);
        }
        match self.apply_decompressed(flag, decomp.as_slice()) {
            Ok(()) => Ok(self.screen.as_slice()),
            Err(e) => Err(e),
        }
    }

    /// The decoded screen.
    pub fn screen(&self) -> (s: &[u16])
        ensures
            s@ == self.view().screen,
    {
        self.screen.as_slice()
    }
}

} // verus!
