//! Host-side video encoder: palette keyframes (4bpp, 8bpp, raw) and
//! tile-delta frames that reference a dictionary of earlier tiles.

use vstd::prelude::*;
use crate::frame::{pix, tile_of, lemma_pix, BLOCK_PIXELS, TOTAL_PIXELS};
use crate::le::{le16, le16_seq, push16, push16_all};
use crate::lz4::{lz4_compressed, compress_prepend_size};
use crate::palette::{palette, pal_index, pack_nibbles, pack, build_palette, lemma_palette};

verus! {

/// What an encoder holds: the last frame it sent, its tile dictionary in the
/// order the tiles entered it, and the number of frames encoded.
pub struct EncoderView {
    pub prev_frame: Seq<u16>,
    pub dict: Seq<Seq<u16>>,
    pub frame_counter: int,
}

/// Uncompressed payload of a keyframe: its flag and bytes. Up to 16 colours
/// give a 4bpp palette frame, up to 256 an 8bpp palette frame, more a raw
/// frame.
pub open spec fn keyframe_payload(frame: Seq<u16>) -> (u8, Seq<u8>) {
    let pal = palette(frame);
    if pal.len() <= 16 {
        (
            4,
            le16(pal.len() as u16) + le16_seq(pal) + Seq::new(
                19200,
                |i: int|
                    pack_nibbles(
                        pal_index(pal, frame[2 * i]) as u8,
                        pal_index(pal, frame[2 * i + 1]) as u8,
                    ),
            ),
        )
    } else if pal.len() <= 256 {
        (
            2,
            le16(pal.len() as u16) + le16_seq(pal) + Seq::new(
                38400,
                |p: int| pal_index(pal, frame[p]) as u8,
            ),
        )
    } else {
        (1, le16_seq(frame))
    }
}

/// Bytes of a tile that is neither solid nor in the dictionary: a 4bpp tile
/// (mode 2) when it has at most 16 colours, else a raw tile (mode 3).
pub open spec fn tile_miss_bytes(t: Seq<u16>) -> Seq<u8> {
    let up = palette(t);
    if up.len() <= 16 {
        seq![2u8, up.len() as u8] + le16_seq(up) + Seq::new(
            32,
            |i: int|
                pack_nibbles(pal_index(up, t[2 * i]) as u8, pal_index(up, t[2 * i + 1]) as u8),
        )
    } else {
        seq![3u8] + le16_seq(t)
    }
}

/// All pixels of the tile have one colour.
pub open spec fn is_solid(t: Seq<u16>) -> bool {
    forall|i: int| 0 <= i < 64 ==> #[trigger] t[i] == t[0]
}

/// Index of the first dictionary entry that the decoder's cache still holds:
/// the cache has 4096 slots, and each tile that enters the dictionary takes
/// the slot after the last one, so only the last 4096 entries are held.
pub open spec fn live_start(dict: Seq<Seq<u16>>) -> int {
    if dict.len() > 4096 {
        dict.len() - 4096
    } else {
        0
    }
}

/// The dictionary entries that the decoder's cache still holds, oldest first.
pub open spec fn live_tiles(dict: Seq<Seq<u16>>) -> Seq<Seq<u16>> {
    dict.subrange(live_start(dict), dict.len() as int)
}

/// The cache slot of a tile that the decoder's cache still holds.
pub open spec fn live_slot(dict: Seq<Seq<u16>>, t: Seq<u16>) -> int {
    (live_start(dict) + live_tiles(dict).index_of(t)) % 4096
}

/// Encoding of tile `b` of `frame` against `prev` and the dictionary: the
/// new dictionary, the block's bytes, and whether the tile changed. A tile
/// that the decoder's cache still holds is sent as its cache slot; any other
/// tile that is not solid enters the dictionary and is sent whole, so a slot
/// that a newer tile took is never named.
pub open spec fn encode_block(dict: Seq<Seq<u16>>, frame: Seq<u16>, prev: Seq<u16>, b: int) -> (
    Seq<Seq<u16>>,
    Seq<u8>,
    bool,
) {
    let t = tile_of(frame, b);
    if t == tile_of(prev, b) {
        (dict, Seq::empty(), false)
    } else if is_solid(t) {
        (dict, le16(b as u16) + seq![0u8] + le16(t[0]), true)
    } else if live_tiles(dict).contains(t) {
        (dict, le16(b as u16) + seq![1u8] + le16(live_slot(dict, t) as u16), true)
    } else {
        (dict.push(t), le16(b as u16) + tile_miss_bytes(t), true)
    }
}

/// Encoding of the first `k` tiles: the dictionary, the number of changed
/// tiles, and their bytes.
pub open spec fn encode_blocks(dict: Seq<Seq<u16>>, frame: Seq<u16>, prev: Seq<u16>, k: nat) -> (
    Seq<Seq<u16>>,
    nat,
    Seq<u8>,
)
    decreases k,
{
    if k == 0 {
        (dict, 0, Seq::empty())
    } else {
        let (d, c, bs) = encode_blocks(dict, frame, prev, (k - 1) as nat);
        let (d2, bb, changed) = encode_block(d, frame, prev, k - 1);
        (d2, if changed {
            c + 1
        } else {
            c
        }, bs + bb)
    }
}

/// What encoding `frame` does: the encoder's new state, the frame flag, and
/// the uncompressed payload. Every 60th frame (the first included) is a
/// keyframe; between them a tile-delta frame is sent when at most 250 of the
/// 600 tiles changed, and a keyframe otherwise.
pub open spec fn encode_spec(st: EncoderView, frame: Seq<u16>) -> (EncoderView, u8, Seq<u8>) {
    let counter = st.frame_counter + 1;
    let (d, c, bs) = encode_blocks(st.dict, frame, st.prev_frame, 600);
    if counter % 60 != 1 && c <= 250 {
        (
            EncoderView { prev_frame: frame, dict: d, frame_counter: counter },
            8,
            le16(c as u16) + bs,
        )
    } else {
        let (f, raw) = keyframe_payload(frame);
        (EncoderView { prev_frame: frame, dict: Seq::empty(), frame_counter: counter }, f, raw)
    }
}


/// The 64 pixels of tile `b` of `frame`.
pub(crate) fn tile_at(frame: &[u16], b: usize) -> (t: Vec<u16>)
    requires
        frame@.len() >= 38400,
        b < 600,
    ensures
        t@ == tile_of(frame@, b as int),
{
    let mut t: Vec<u16> = Vec::new();
    let mut i: usize = 0;
    while i < BLOCK_PIXELS
        invariant
            i <= 64,
            b < 600,
            frame@.len() >= 38400,
            t@ == Seq::new(i as nat, |j: int| frame@[pix(b as int, j)]),
        decreases 64 - i,
    {
        proof {
            lemma_pix(b as int, i as int);
        }
        let p = ((b / 30) * 8 + i / 8) * 240 + (b % 30) * 8 + i % 8;
        t.push(frame[p]);
        i = i + 1;
        assert(t@ =~= Seq::new(i as nat, |j: int| frame@[pix(b as int, j)]));
    }
    t
}

/// Whether tile `b` is the same in both frames.
pub(crate) fn tile_unchanged(frame: &[u16], prev: &[u16], b: usize) -> (r: bool)
    requires
        frame@.len() >= 38400,
        prev@.len() >= 38400,
        b < 600,
    ensures
        r == (tile_of(frame@, b as int) == tile_of(prev@, b as int)),
{
    let mut i: usize = 0;
    while i < BLOCK_PIXELS
        invariant
            i <= 64,
            b < 600,
            frame@.len() >= 38400,
            prev@.len() >= 38400,
            forall|j: int| 0 <= j < i ==> #[trigger] frame@[pix(b as int, j)] == prev@[pix(
                b as int,
                j,
            )],
        decreases 64 - i,
    {
        proof {
            lemma_pix(b as int, i as int);
        }
        let p = ((b / 30) * 8 + i / 8) * 240 + (b % 30) * 8 + i % 8;
        if frame[p] != prev[p] {
            assert(tile_of(frame@, b as int)[i as int] != tile_of(prev@, b as int)[i as int]);
            return false;
        }
        i = i + 1;
    }
    assert(tile_of(frame@, b as int) =~= tile_of(prev@, b as int));
    true
}

/// Whether all pixels of the tile have one colour.
fn tile_is_solid(t: &Vec<u16>) -> (r: bool)
    requires
        t@.len() == 64,
    ensures
        r == is_solid(t@),
{
    let first = t[0];
    let mut i: usize = 0;
    while i < BLOCK_PIXELS
        invariant
            i <= 64,
            t@.len() == 64,
            first == t@[0],
            forall|j: int| 0 <= j < i ==> #[trigger] t@[j] == first,
        decreases 64 - i,
    {
        if t[i] != first {
            return false;
        }
        i = i + 1;
    }
    true
}

/// Whether two tiles are equal.
fn tiles_equal(a: &Vec<u16>, b: &Vec<u16>) -> (r: bool)
    requires
        a@.len() == 64,
        b@.len() == 64,
    ensures
        r == (a@ == b@),
{
    let mut i: usize = 0;
    while i < BLOCK_PIXELS
        invariant
            i <= 64,
            a@.len() == 64,
            b@.len() == 64,
            forall|j: int| 0 <= j < i ==> #[trigger] a@[j] == b@[j],
        decreases 64 - i,
    {
        if a[i] != b[i] {
            return false;
        }
        i = i + 1;
    }
    assert(a@ =~= b@);
    true
}

/// Appends the bytes of a tile that is not in the dictionary.
fn encode_miss(t: &Vec<u16>, out: &mut Vec<u8>)
    requires
        t@.len() == 64,
    ensures
        final(out)@ == old(out)@ + tile_miss_bytes(t@),
{
    let (fits, up, idx) = build_palette(t.as_slice(), 16);
    if fits {
        let ghost start = out@;
        out.push(2);
        out.push(up.len() as u8);
        push16_all(out, up.as_slice());
        let ghost mid = out@;
        let mut i: usize = 0;
        while i < 32
            invariant
                i <= 32,
                t@.len() == 64,
                idx@.len() == 64,
                up@ == palette(t@),
                idx@ == Seq::new(64, |p: int| pal_index(palette(t@), t@[p]) as u8),
                out@ == mid + Seq::new(
                    i as nat,
                    |j: int|
                        pack_nibbles(
                            pal_index(up@, t@[2 * j]) as u8,
                            pal_index(up@, t@[2 * j + 1]) as u8,
                        ),
                ),
            decreases 32 - i,
        {
            let byte = pack(idx[2 * i], idx[2 * i + 1]);
            out.push(byte);
            i = i + 1;
            assert(out@ =~= mid + Seq::new(
                i as nat,
                |j: int|
                    pack_nibbles(
                        pal_index(up@, t@[2 * j]) as u8,
                        pal_index(up@, t@[2 * j + 1]) as u8,
                    ),
            ));
        }
        assert(out@ =~= start + tile_miss_bytes(t@));
    } else {
        let ghost start = out@;
        out.push(3);
        push16_all(out, t.as_slice());
        assert(out@ =~= start + tile_miss_bytes(t@));
    }
}

/// The uncompressed payload of a keyframe of `frame`.
fn encode_keyframe(frame: &[u16]) -> (r: (u8, Vec<u8>))
    requires
        frame@.len() == 38400,
    ensures
        r.0 == keyframe_payload(frame@).0,
        r.1@ == keyframe_payload(frame@).1,
{
    let (fits, pal, idx) = build_palette(frame, 256);
    let mut out: Vec<u8> = Vec::new();
    if fits && pal.len() <= 16 {
        push16(&mut out, pal.len() as u16);
        push16_all(&mut out, pal.as_slice());
        let ghost mid = out@;
        let mut i: usize = 0;
        while i < TOTAL_PIXELS / 2
            invariant
                i <= 19200,
                frame@.len() == 38400,
                idx@.len() == 38400,
                pal@ == palette(frame@),
                idx@ == Seq::new(38400, |p: int| pal_index(palette(frame@), frame@[p]) as u8),
                out@ == mid + Seq::new(
                    i as nat,
                    |j: int|
                        pack_nibbles(
                            pal_index(pal@, frame@[2 * j]) as u8,
                            pal_index(pal@, frame@[2 * j + 1]) as u8,
                        ),
                ),
            decreases 19200 - i,
        {
            let byte = pack(idx[2 * i], idx[2 * i + 1]);
            out.push(byte);
            i = i + 1;
            assert(out@ =~= mid + Seq::new(
                i as nat,
                |j: int|
                    pack_nibbles(
                        pal_index(pal@, frame@[2 * j]) as u8,
                        pal_index(pal@, frame@[2 * j + 1]) as u8,
                    ),
            ));
        }
        (4, out)
    } else if fits {
        push16(&mut out, pal.len() as u16);
        push16_all(&mut out, pal.as_slice());
        let ghost mid = out@;
        let mut i: usize = 0;
        while i < TOTAL_PIXELS
            invariant
                i <= 38400,
                frame@.len() == 38400,
                idx@ == Seq::new(38400, |p: int| pal_index(palette(frame@), frame@[p]) as u8),
                out@ == mid + idx@.take(i as int),
            decreases 38400 - i,
        {
            out.push(idx[i]);
            i = i + 1;
            assert(out@ =~= mid + idx@.take(i as int));
        }
        assert(idx@.take(38400) =~= idx@);
        (2, out)
    } else {
        push16_all(&mut out, frame);
        assert(out@ =~= le16_seq(frame@));
        (1, out)
    }
}

/// An encoder state with the expected shapes: a full previous frame and a
/// dictionary of 64-pixel tiles, no two of those that the cache still holds
/// alike.
pub open spec fn encoder_view_wf(e: EncoderView) -> bool {
    &&& e.prev_frame.len() == 38400
    &&& forall|k: int| 0 <= k < e.dict.len() ==> (#[trigger] e.dict[k]).len() == 64
    &&& live_tiles(e.dict).no_duplicates()
}

/// A tile that the cache does not hold enters the dictionary without making
/// two held tiles alike.
pub proof fn lemma_live_push(dict: Seq<Seq<u16>>, t: Seq<u16>)
    requires
        live_tiles(dict).no_duplicates(),
        !live_tiles(dict).contains(t),
    ensures
        live_tiles(dict.push(t)).no_duplicates(),
        live_tiles(dict.push(t)) == live_tiles(dict).skip(live_start(dict.push(t)) - live_start(dict)).push(t),
{
    let a = live_tiles(dict);
    let d2 = dict.push(t);
    let off = live_start(d2) - live_start(dict);
    assert(live_tiles(d2) =~= a.skip(off).push(t));
    let b = live_tiles(d2);
    assert forall|i: int, j: int| 0 <= i < b.len() && 0 <= j < b.len() && i != j implies b[i] != b[j] by {
        if i == b.len() - 1 {
            assert(a[j + off] == b[j]);
        } else if j == b.len() - 1 {
            assert(a[i + off] == b[i]);
        } else {
            assert(a[i + off] == b[i]);
            assert(a[j + off] == b[j]);
        }
    }
}

/// Encoder of the video stream.
pub struct PaletteEncoder {
    prev_frame: Vec<u16>,
    tile_dict: Vec<Vec<u16>>,
    cache_head: u16,
    frame_counter: u32,
}

impl PaletteEncoder {
    /// The encoder's state.
    pub closed spec fn view(&self) -> EncoderView {
        EncoderView {
            prev_frame: self.prev_frame@,
            dict: self.tile_dict@.map_values(|t: Vec<u16>| t@),
            frame_counter: self.frame_counter as int,
        }
    }

    /// The encoder's fields have the expected shapes: a full previous frame,
    /// 64-pixel tiles in the dictionary, no two of the last 4096 alike, and
    /// the next tile's cache slot after them.
    pub closed spec fn wf(&self) -> bool {
        &&& self.prev_frame@.len() == 38400
        &&& forall|k: int| 0 <= k < self.tile_dict@.len() ==> (#[trigger] self.tile_dict@[k])@.len() == 64
        &&& live_tiles(self.view().dict).no_duplicates()
        &&& self.cache_head as int == self.tile_dict@.len() % 4096
    }

    /// A well-formed encoder has a well-formed state.
    pub proof fn lemma_view_wf(&self)
        requires
            self.wf(),
        ensures
            encoder_view_wf(self.view()),
    {
        assert forall|k: int| 0 <= k < self.view().dict.len() implies (
        #[trigger] self.view().dict[k]).len() == 64 by {
            assert(self.view().dict[k] == self.tile_dict@[k]@);
        }
    }

    /// An encoder whose previous frame is black, with an empty dictionary,
    /// that has encoded no frame yet.
    pub fn new() -> (e: Self)
        ensures
            e.wf(),
            e.view() == (EncoderView {
                prev_frame: Seq::new(38400, |p: int| 0u16),
                dict: Seq::empty(),
                frame_counter: 0,
            }),
    {
        let e = PaletteEncoder {
            prev_frame: vec![0u16; TOTAL_PIXELS],
            tile_dict: Vec::new(),
            cache_head: 0,
            frame_counter: 0,
        };
        assert(e.view().prev_frame =~= Seq::new(38400, |p: int| 0u16));
        assert(e.view().dict =~= Seq::empty());
        e
    }

    /// Position of `t` among the dictionary entries that the cache still
    /// holds, if it is there.
    fn find_tile(&self, t: &Vec<u16>) -> (r: Option<usize>)
        requires
            self.wf(),
            t@.len() == 64,
        ensures
            match r {
                Some(k) => k < self.tile_dict@.len() && self.view().dict[k as int] == t@
                    && live_tiles(self.view().dict).contains(t@)
                    && k == live_start(self.view().dict) + live_tiles(self.view().dict).index_of(t@),
                None => !live_tiles(self.view().dict).contains(t@),
            },
    {
        let ghost d = self.view().dict;
        let n = self.tile_dict.len();
        let start: usize = if n > 4096 { n - 4096 } else { 0 };
        assert(start == live_start(d));
        let mut k: usize = start;
        while k < n
            invariant
                self.wf(),
                t@.len() == 64,
                d == self.view().dict,
                n == d.len(),
                start == live_start(d),
                start <= k <= n,
                forall|j: int| start <= j < k ==> #[trigger] d[j] != t@,
            decreases n - k,
        {
            assert(d[k as int] == self.tile_dict@[k as int]@);
            if tiles_equal(&self.tile_dict[k], t) {
                proof {
                    let live = live_tiles(d);
                    let i = k - start;
                    assert(live[i] == t@);
                    assert(live.contains(t@));
                    let j = live.index_of(t@);
                    assert(live[j] == t@);
                    assert(j == i);
                }
                return Some(k);
            }
            k = k + 1;
        }
        proof {
            let live = live_tiles(d);
            if live.contains(t@) {
                let j = live.index_of(t@);
                assert(d[start + j] == t@);
            }
        }
        None
    }

    /// Encodes one frame of 38400 RGB555 pixels: returns the frame flag (8
    /// tile delta, 4 4bpp palette, 2 8bpp palette, 1 raw) and the
    /// LZ4-compressed payload, and remembers the frame for the next delta.
    pub fn encode(&mut self, raw_frame: &[u16]) -> (r: (u8, Vec<u8>))
        requires
            old(self).wf(),
            raw_frame@.len() == 38400,
            old(self).view().frame_counter < u32::MAX,
        ensures
            final(self).wf(),
            final(self).view() == encode_spec(old(self).view(), raw_frame@).0,
            r.0 == encode_spec(old(self).view(), raw_frame@).1,
            r.1@ == lz4_compressed(encode_spec(old(self).view(), raw_frame@).2),
    {
        let ghost st = self.view();
        self.frame_counter = self.frame_counter + 1;
        if self.frame_counter % 60 != 1 {
            let mut body: Vec<u8> = Vec::new();
            let mut changed: u16 = 0;
            let mut b: usize = 0;
            while b < 600
                invariant
                    b <= 600,
                    raw_frame@.len() == 38400,
                    self.wf(),
                    self.prev_frame@ == st.prev_frame,
                    self.frame_counter == st.frame_counter + 1,
                    changed <= b,
                    encode_blocks(st.dict, raw_frame@, st.prev_frame, b as nat) == (
                        self.view().dict,
                        changed as nat,
                        body@,
                    ),
                decreases 600 - b,
            {
                let ghost d0 = self.view().dict;
                let ghost body0 = body@;
                if !tile_unchanged(raw_frame, self.prev_frame.as_slice(), b) {
                    changed = changed + 1;
                    push16(&mut body, b as u16);
                    let tile = tile_at(raw_frame, b);
                    if tile_is_solid(&tile) {
                        body.push(0);
                        push16(&mut body, tile[0]);
                    } else {
                        match self.find_tile(&tile) {
                            Some(k) => {
                                body.push(1);
                                push16(&mut body, (k % 4096) as u16);
                            },
                            None => {
                                let ghost old_dict = self.view().dict;
                                self.tile_dict.push(tile.clone());
                                self.cache_head = ((self.cache_head + 1) % 4096) as u16;
                                proof {
                                    assert(self.view().dict =~= old_dict.push(tile@));
                                    lemma_live_push(old_dict, tile@);
                                }
                                encode_miss(&tile, &mut body);
                            },
                        }
                    }
                }
                proof {
                    let (d2, bb, ch) = encode_block(d0, raw_frame@, st.prev_frame, b as int);
                    assert(body@ =~= body0 + bb);
                }
                b = b + 1;
            }
            if changed <= 250 {
                let mut raw: Vec<u8> = Vec::new();
                push16(&mut raw, changed);
                let ghost head = raw@;
                let mut i: usize = 0;
                while i < body.len()
                    invariant
                        i <= body@.len(),
                        raw@ == head + body@.take(i as int),
                    decreases body@.len() - i,
                {
                    raw.push(body[i]);
                    i = i + 1;
                    assert(raw@ =~= head + body@.take(i as int));
                }
                assert(body@.take(i as int) =~= body@);
                self.prev_frame = crate::tile_decoder::copy_u16s(raw_frame);
                return (8, compress_prepend_size(raw.as_slice()));
            }
        }
        self.tile_dict = Vec::new();
        self.cache_head = 0;
        self.prev_frame = crate::tile_decoder::copy_u16s(raw_frame);
        let (flag, raw) = encode_keyframe(raw_frame);
        assert(self.view().dict =~= Seq::empty());
        (flag, compress_prepend_size(raw.as_slice()))
    }
}

/// Uncompressed payload of a frame of the standalone hosts: an 8bpp palette
/// frame (flag 2) when the screen's first 38400 pixels have at most 256
/// colours, else every pixel of the frame raw (flag 1).
pub open spec fn host_frame_payload(raw: Seq<u16>) -> (u8, Seq<u8>) {
    let screen = raw.take(38400);
    let pal = palette(screen);
    if pal.len() <= 256 {
        (
            2,
            le16(pal.len() as u16) + le16_seq(pal) + Seq::new(
                38400,
                |p: int| pal_index(pal, screen[p]) as u8,
            ),
        )
    } else {
        (1, le16_seq(raw))
    }
}

/// Encodes a frame of the standalone hosts: see `host_frame_payload`; the
/// payload is LZ4-compressed.
pub fn encode_palette_frame(raw_frame: &[u16]) -> (r: (u8, Vec<u8>))
    requires
        raw_frame@.len() >= 38400,
    ensures
        r.0 == host_frame_payload(raw_frame@).0,
        r.1@ == lz4_compressed(host_frame_payload(raw_frame@).1),
{
    let screen = &raw_frame[0..TOTAL_PIXELS];
    assert(screen@ == raw_frame@.take(38400));
    let (fits, pal, idx) = build_palette(screen, 256);
    let mut out: Vec<u8> = Vec::new();
    if fits {
        push16(&mut out, pal.len() as u16);
        push16_all(&mut out, pal.as_slice());
        let ghost mid = out@;
        let mut i: usize = 0;
        while i < TOTAL_PIXELS
            invariant
                i <= 38400,
                idx@.len() == 38400,
                out@ == mid + idx@.take(i as int),
            decreases 38400 - i,
        {
            out.push(idx[i]);
            i = i + 1;
            assert(out@ =~= mid + idx@.take(i as int));
        }
        assert(idx@.take(38400) =~= idx@);
        assert(out@ =~= host_frame_payload(raw_frame@).1);
        (2, compress_prepend_size(out.as_slice()))
    } else {
        push16_all(&mut out, raw_frame);
        assert(out@ =~= le16_seq(raw_frame@));
        (1, compress_prepend_size(out.as_slice()))
    }
}

} // verus!
