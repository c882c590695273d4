//! The video stream is lossless: a decoder that follows an encoder's stream
//! shows exactly the frames that were encoded.

use vstd::prelude::*;
use crate::frame::{block_of, inner_of, pix, tile_of, write_tile, lemma_pix, lemma_block_of};
use crate::le::{le16, le16_seq, read16, read16_seq, lemma_read16_le16, lemma_read16_at};
use crate::palette::{palette, pal_index, pack_nibbles, lemma_palette, lemma_pack_nibbles};
use crate::palette_encoder::{
    EncoderView, encoder_view_wf, encode_block, encode_blocks, encode_spec, is_solid,
    keyframe_payload, tile_miss_bytes, live_start, live_tiles, live_slot, lemma_live_push,
};
use crate::tile_decoder::{
    DecoderView, BlockStep, DecodeOutcome, apply_blocks, block_body, block_step, cache_push,
    decode_spec, payload_representable, view_wf, tile4_pixel, lemma_decode_unrepresentable,
};

verus! {

/// The decoder's cache holds, in the slot the encoder assigned to it, every
/// tile of the encoder's dictionary that is among the last 4096 to enter it,
/// and its next slot follows them.
pub open spec fn cache_in_sync(dict: Seq<Seq<u16>>, d: DecoderView) -> bool {
    &&& d.head == dict.len() % 4096
    &&& forall|k: int|
        0 <= k < dict.len() && dict.len() <= k + 4096 ==> d.cache[#[trigger] (k % 4096)]
            == dict[k]
}

/// A decoder shows the encoder's last frame and mirrors its dictionary.
pub open spec fn in_sync(e: EncoderView, d: DecoderView) -> bool {
    &&& d.screen == e.prev_frame
    &&& cache_in_sync(e.dict, d)
}

/// The screen after the first `k` tiles of `frame` were drawn over `prev`.
pub open spec fn partly_drawn(frame: Seq<u16>, prev: Seq<u16>, k: int) -> Seq<u16> {
    Seq::new(38400, |p: int| if block_of(p) < k { frame[p] } else { prev[p] })
}

/// Applying `n1` blocks and then `n2` more is applying `n1 + n2` blocks.
proof fn lemma_apply_blocks_split(st: DecoderView, bytes: Seq<u8>, n1: nat, n2: nat)
    requires
        apply_blocks(st, bytes, n1) is Next,
    ensures
        apply_blocks(st, bytes, n1 + n2) == apply_blocks(
            apply_blocks(st, bytes, n1)->Next_0,
            apply_blocks(st, bytes, n1)->Next_1,
            n2,
        ),
    decreases n1,
{
    if n1 > 0 {
        match block_step(st, bytes) {
            BlockStep::Next(st1, rest) => {
                lemma_apply_blocks_split(st1, rest, (n1 - 1) as nat, n2);
                assert((n1 + n2 - 1) as nat == ((n1 - 1) as nat + n2) as nat);
            },
            _ => {},
        }
    }
}

/// The palette index of a pixel is a valid index holding that pixel's
/// colour.
proof fn lemma_pal_index(s: Seq<u16>, i: int)
    requires
        0 <= i < s.len(),
    ensures
        0 <= pal_index(palette(s), s[i]) < palette(s).len(),
        palette(s)[pal_index(palette(s), s[i])] == s[i],
{
    lemma_palette(s);
    assert(palette(s).contains(s[i]));
}

/// A tile drawn over the partly drawn screen extends it by one tile.
proof fn lemma_draw_next(frame: Seq<u16>, prev: Seq<u16>, k: int, changed: bool)
    requires
        frame.len() == 38400,
        prev.len() == 38400,
        0 <= k < 600,
        !changed ==> tile_of(frame, k) == tile_of(prev, k),
    ensures
        changed ==> write_tile(partly_drawn(frame, prev, k), k, tile_of(frame, k)) == partly_drawn(
            frame,
            prev,
            k + 1,
        ),
        !changed ==> partly_drawn(frame, prev, k) == partly_drawn(frame, prev, k + 1),
{
    assert forall|p: int| 0 <= p < 38400 && block_of(p) == k implies frame[p] == prev[p]
        || changed by {
        lemma_block_of(p);
        if !changed {
            assert(tile_of(frame, k)[inner_of(p)] == tile_of(prev, k)[inner_of(p)]);
        }
    }
    if changed {
        assert forall|p: int| 0 <= p < 38400 implies #[trigger] write_tile(
            partly_drawn(frame, prev, k),
            k,
            tile_of(frame, k),
        )[p] == partly_drawn(frame, prev, k + 1)[p] by {
            lemma_block_of(p);
        }
        assert(write_tile(partly_drawn(frame, prev, k), k, tile_of(frame, k)) =~= partly_drawn(
            frame,
            prev,
            k + 1,
        ));
    } else {
        assert(partly_drawn(frame, prev, k) =~= partly_drawn(frame, prev, k + 1));
    }
}

/// Pixel `i` of a tile that was encoded as a 4bpp miss decodes to its
/// colour.
proof fn lemma_tile4(t: Seq<u16>, body: Seq<u8>, tail: Seq<u8>, i: int)
    requires
        t.len() == 64,
        palette(t).len() <= 16,
        0 <= i < 64,
        body == tile_miss_bytes(t).skip(1) + tail,
    ensures
        tile4_pixel(body, palette(t).len() as int, i) == t[i],
{
    let up = palette(t);
    let n = up.len() as int;
    let packed = Seq::new(
        32,
        |j: int| pack_nibbles(pal_index(up, t[2 * j]) as u8, pal_index(up, t[2 * j + 1]) as u8),
    );
    assert(tile_miss_bytes(t) =~= seq![2u8, n as u8] + le16_seq(up) + packed);
    assert(body =~= seq![n as u8] + le16_seq(up) + (packed + tail));
    let j = i / 2;
    assert(body[1 + 2 * n + j] == packed[j]);
    lemma_pal_index(t, 2 * j);
    lemma_pal_index(t, 2 * j + 1);
    lemma_pack_nibbles(pal_index(up, t[2 * j]) as u8, pal_index(up, t[2 * j + 1]) as u8);
    let c = pal_index(up, t[i]);
    if i % 2 == 0 {
        assert(2 * j == i);
    } else {
        assert(2 * j + 1 == i);
    }
    lemma_read16_at(seq![n as u8], up, packed + tail, c);
}

/// A solid tile's mode and body stand for the tile.
proof fn lemma_body_solid(t: Seq<u16>, d: DecoderView, tail: Seq<u8>)
    requires
        t.len() == 64,
        is_solid(t),
    ensures
        ({
            let mid = seq![0u8] + le16(t[0]);
            let body = mid.skip(1) + tail;
            &&& block_body(d, mid[0], body) == Ok::<(Seq<u16>, int, bool), crate::error::CodecError>(
                (t, 2, false),
            )
            &&& body.skip(2) == tail
        }),
{
    let mid = seq![0u8] + le16(t[0]);
    let body = mid.skip(1) + tail;
    assert(body =~= Seq::<u8>::empty() + le16(t[0]) + tail);
    lemma_read16_le16(Seq::empty(), t[0], tail);
    assert(body.skip(2) =~= tail);
    assert(Seq::new(64, |i: int| read16(body, 0)) =~= t);
}

/// A dictionary hit's mode and body stand for the tile.
proof fn lemma_body_hit(dict: Seq<Seq<u16>>, t: Seq<u16>, d: DecoderView, tail: Seq<u8>)
    requires
        view_wf(d),
        cache_in_sync(dict, d),
        live_tiles(dict).contains(t),
    ensures
        ({
            let mid = seq![1u8] + le16(live_slot(dict, t) as u16);
            let body = mid.skip(1) + tail;
            &&& block_body(d, mid[0], body) == Ok::<(Seq<u16>, int, bool), crate::error::CodecError>(
                (t, 2, false),
            )
            &&& body.skip(2) == tail
        }),
{
    let live = live_tiles(dict);
    let idx = live.index_of(t);
    let k = live_start(dict) + idx;
    let id = live_slot(dict, t) as u16;
    let mid = seq![1u8] + le16(id);
    let body = mid.skip(1) + tail;
    assert(body =~= Seq::<u8>::empty() + le16(id) + tail);
    lemma_read16_le16(Seq::empty(), id, tail);
    assert(body.skip(2) =~= tail);
    assert(live[idx] == t);
    assert(dict[k] == t);
    assert(d.cache[k % 4096] == dict[k]);
}

/// A missed tile's mode and body stand for the tile.
#[verifier::spinoff_prover]
#[verifier::rlimit(30)]
proof fn lemma_body_miss(t: Seq<u16>, d: DecoderView, tail: Seq<u8>)
    requires
        t.len() == 64,
    ensures
        ({
            let mid = tile_miss_bytes(t);
            let body = mid.skip(1) + tail;
            &&& mid.len() >= 1
            &&& block_body(d, mid[0], body) is Ok
            &&& block_body(d, mid[0], body)->Ok_0.0 == t
            &&& block_body(d, mid[0], body)->Ok_0.2
            &&& body.skip(block_body(d, mid[0], body)->Ok_0.1) == tail
        }),
{
    let up = palette(t);
    lemma_palette(t);
    let mid = tile_miss_bytes(t);
    let body = mid.skip(1) + tail;
    if up.len() <= 16 {
        let n = up.len() as int;
        assert(mid[0] == 2u8);
        assert(body[0] == n as u8);
        assert(body.len() >= 1 + 2 * n + 32);
        assert forall|i: int| 0 <= i < 64 implies #[trigger] tile4_pixel(body, n, i) == t[i] by {
            lemma_tile4(t, body, tail, i);
        }
        assert(Seq::new(64, |i: int| tile4_pixel(body, body[0] as int, i)) =~= t);
        assert(body.skip(1 + 2 * n + 32) =~= tail);
    } else {
        assert(mid[0] == 3u8);
        assert(body =~= Seq::<u8>::empty() + le16_seq(t) + tail);
        assert forall|i: int| 0 <= i < 64 implies #[trigger] read16_seq(body, 64)[i] == t[i] by {
            lemma_read16_at(Seq::empty(), t, tail, i);
        }
        assert(read16_seq(body, 64) =~= t);
        assert(body.skip(128) =~= tail);
    }
}

/// Storing a missed tile in the next cache slot keeps the cache mirroring
/// the dictionary that gained the tile.
proof fn lemma_cache_push_sync(dict: Seq<Seq<u16>>, t: Seq<u16>, d: DecoderView)
    requires
        t.len() == 64,
        view_wf(d),
        cache_in_sync(dict, d),
        forall|j: int| 0 <= j < dict.len() ==> (#[trigger] dict[j]).len() == 64,
        live_tiles(dict).no_duplicates(),
        !live_tiles(dict).contains(t),
    ensures
        view_wf(cache_push(d, t)),
        cache_in_sync(dict.push(t), cache_push(d, t)),
        forall|j: int| 0 <= j < dict.push(t).len() ==> (#[trigger] dict.push(t)[j]).len() == 64,
        live_tiles(dict.push(t)).no_duplicates(),
{
    let d1 = cache_push(d, t);
    let d2 = dict.push(t);
    assert forall|j: int|
        0 <= j < d2.len() && d2.len() <= j + 4096 implies d1.cache[#[trigger] (j % 4096)]
        == d2[j] by {
        if j < dict.len() {
            assert(j % 4096 != dict.len() % 4096);
        }
    }
    lemma_live_push(dict, t);
    assert forall|j: int| 0 <= j < 4096 implies (#[trigger] d1.cache[j]).len() == 64 by {
        if j != d.head {
            assert(d1.cache[j] == d.cache[j]);
        }
    }
    assert forall|j: int| 0 <= j < d2.len() implies (#[trigger] d2[j]).len() == 64 by {
        if j < dict.len() {
            assert(d2[j] == dict[j]);
        }
    }
}

/// One changed tile decodes from the bytes it was encoded to, and the
/// decoder keeps mirroring the dictionary.
proof fn lemma_block_roundtrip(
    dict: Seq<Seq<u16>>,
    frame: Seq<u16>,
    prev: Seq<u16>,
    k: int,
    d: DecoderView,
    tail: Seq<u8>,
)
    requires
        frame.len() == 38400,
        prev.len() == 38400,
        0 <= k < 600,
        view_wf(d),
        cache_in_sync(dict, d),
        forall|j: int| 0 <= j < dict.len() ==> (#[trigger] dict[j]).len() == 64,
        live_tiles(dict).no_duplicates(),
        encode_block(dict, frame, prev, k).2,
    ensures
        ({
            let (d2, bb, ch) = encode_block(dict, frame, prev, k);
            &&& block_step(d, bb + tail) is Next
            &&& block_step(d, bb + tail)->Next_1 == tail
            &&& block_step(d, bb + tail)->Next_0.screen == write_tile(d.screen, k, tile_of(frame, k))
            &&& view_wf(block_step(d, bb + tail)->Next_0)
            &&& cache_in_sync(d2, block_step(d, bb + tail)->Next_0)
            &&& forall|j: int| 0 <= j < d2.len() ==> (#[trigger] d2[j]).len() == 64
            &&& live_tiles(d2).no_duplicates()
        }),
{
    let t = tile_of(frame, k);
    assert(t.len() == 64);
    let (d2, bb, ch) = encode_block(dict, frame, prev, k);
    let bytes = bb + tail;
    assert(bb =~= le16(k as u16) + bb.skip(2));
    lemma_read16_le16(Seq::empty(), k as u16, bb.skip(2) + tail);
    assert(bytes =~= Seq::<u8>::empty() + le16(k as u16) + (bb.skip(2) + tail));
    assert(read16(bytes, 0) == k as u16);
    let mid = bb.skip(2);
    assert(bytes.skip(3) =~= mid.skip(1) + tail);
    if is_solid(t) {
        assert(mid =~= seq![0u8] + le16(t[0]));
        lemma_body_solid(t, d, tail);
    } else if live_tiles(dict).contains(t) {
        assert(mid =~= seq![1u8] + le16(live_slot(dict, t) as u16));
        lemma_body_hit(dict, t, d, tail);
    } else {
        assert(mid =~= tile_miss_bytes(t));
        lemma_body_miss(t, d, tail);
    }
    assert(bytes[2] == mid[0]);
    if !is_solid(t) && !live_tiles(dict).contains(t) {
        lemma_cache_push_sync(dict, t, d);
    }
}


/// The first `k` tiles decode from the bytes they were encoded to: the
/// decoder draws them over the previous frame and keeps mirroring the
/// dictionary.
proof fn lemma_blocks_roundtrip(
    dict: Seq<Seq<u16>>,
    frame: Seq<u16>,
    prev: Seq<u16>,
    d0: DecoderView,
    k: nat,
    tail: Seq<u8>,
)
    requires
        frame.len() == 38400,
        prev.len() == 38400,
        k <= 600,
        view_wf(d0),
        d0.screen == prev,
        cache_in_sync(dict, d0),
        forall|j: int| 0 <= j < dict.len() ==> (#[trigger] dict[j]).len() == 64,
        live_tiles(dict).no_duplicates(),
    ensures
        ({
            let (dk, ck, bsk) = encode_blocks(dict, frame, prev, k);
            let r = apply_blocks(d0, bsk + tail, ck);
            &&& r is Next
            &&& r->Next_1 == tail
            &&& r->Next_0.screen == partly_drawn(frame, prev, k as int)
            &&& view_wf(r->Next_0)
            &&& cache_in_sync(dk, r->Next_0)
            &&& forall|j: int| 0 <= j < dk.len() ==> (#[trigger] dk[j]).len() == 64
            &&& live_tiles(dk).no_duplicates()
            &&& ck <= k
            &&& bsk.len() <= 131 * k
        }),
    decreases k,
{
    if k == 0 {
        assert(Seq::<u8>::empty() + tail =~= tail);
        assert(partly_drawn(frame, prev, 0) =~= prev);
    } else {
        let (d, c, bs) = encode_blocks(dict, frame, prev, (k - 1) as nat);
        let (d2, bb, ch) = encode_block(d, frame, prev, k - 1);
        lemma_blocks_roundtrip(dict, frame, prev, d0, (k - 1) as nat, bb + tail);
        assert(bs + bb + tail =~= bs + (bb + tail));
        let r1 = apply_blocks(d0, bs + (bb + tail), c);
        let st1 = r1->Next_0;
        lemma_tile_bytes_len(d, frame, prev, k - 1);
        if ch {
            lemma_block_roundtrip(d, frame, prev, k - 1, st1, tail);
            lemma_draw_next(frame, prev, k - 1, true);
            lemma_apply_blocks_split(d0, bs + (bb + tail), c, 1);
            let r2 = block_step(st1, bb + tail);
            assert(apply_blocks(st1, bb + tail, 1) == apply_blocks(r2->Next_0, r2->Next_1, 0));
        } else {
            assert(bb =~= Seq::<u8>::empty());
            assert(bb + tail =~= tail);
            lemma_draw_next(frame, prev, k - 1, false);
        }
    }
}

/// The bytes of one tile are at most 131.
proof fn lemma_tile_bytes_len(dict: Seq<Seq<u16>>, frame: Seq<u16>, prev: Seq<u16>, k: int)
    ensures
        encode_block(dict, frame, prev, k).1.len() <= 131,
        !encode_block(dict, frame, prev, k).2 ==> encode_block(dict, frame, prev, k).1.len() == 0,
{
    let t = tile_of(frame, k);
    lemma_palette(t);
}

/// The uncompressed payload of a keyframe decodes to the frame and leaves
/// the first cache slot next.
proof fn lemma_keyframe_roundtrip(frame: Seq<u16>, d: DecoderView)
    requires
        frame.len() == 38400,
        view_wf(d),
    ensures
        ({
            let (f, raw) = keyframe_payload(frame);
            &&& decode_spec(d, f, raw) == DecodeOutcome::Done(
                DecoderView { head: 0, screen: frame, ..d },
            )
            &&& raw.len() <= 76800
        }),
{
    let pal = palette(frame);
    let n = pal.len() as int;
    lemma_palette(frame);
    let (f, raw) = keyframe_payload(frame);
    if n <= 16 {
        let packed = Seq::new(
            19200,
            |i: int|
                pack_nibbles(pal_index(pal, frame[2 * i]) as u8, pal_index(pal, frame[2 * i + 1]) as u8),
        );
        assert(raw == le16(n as u16) + le16_seq(pal) + packed);
        lemma_read16_le16(Seq::empty(), n as u16, le16_seq(pal) + packed);
        assert(Seq::<u8>::empty() + le16(n as u16) + (le16_seq(pal) + packed) =~= raw);
        assert(read16(raw, 0) == n);
        assert forall|p: int| 0 <= p < 38400 implies #[trigger] key4_index_of(raw, n, p) == pal_index(
            pal,
            frame[p],
        ) by {
            let j = p / 2;
            assert(raw[2 + 2 * n + j] == packed[j]);
            lemma_pal_index(frame, 2 * j);
            lemma_pal_index(frame, 2 * j + 1);
            lemma_pack_nibbles(pal_index(pal, frame[2 * j]) as u8, pal_index(pal, frame[2 * j + 1]) as u8);
            if p % 2 == 0 {
                assert(2 * j == p);
            } else {
                assert(2 * j + 1 == p);
            }
        }
        assert forall|p: int| 0 <= p < 38400 implies #[trigger] crate::tile_decoder::key4_index(
            raw,
            n,
            p,
        ) < n by {
            assert(key4_index_of(raw, n, p) == pal_index(pal, frame[p]));
            lemma_pal_index(frame, p);
        }
        assert forall|p: int| 0 <= p < 38400 implies #[trigger] crate::tile_decoder::key4_screen(
            raw,
            n,
        )[p] == frame[p] by {
            assert(key4_index_of(raw, n, p) == pal_index(pal, frame[p]));
            lemma_pal_index(frame, p);
            lemma_read16_at(le16(n as u16), pal, packed, pal_index(pal, frame[p]));
        }
        assert(crate::tile_decoder::key4_screen(raw, n) =~= frame);
    } else if n <= 256 {
        let idx = Seq::new(38400, |p: int| pal_index(pal, frame[p]) as u8);
        assert(raw == le16(n as u16) + le16_seq(pal) + idx);
        lemma_read16_le16(Seq::empty(), n as u16, le16_seq(pal) + idx);
        assert(Seq::<u8>::empty() + le16(n as u16) + (le16_seq(pal) + idx) =~= raw);
        assert(read16(raw, 0) == n);
        assert forall|p: int| 0 <= p < 38400 implies #[trigger] crate::tile_decoder::key8_index(
            raw,
            n,
            p,
        ) == pal_index(pal, frame[p]) by {
            assert(raw[2 + 2 * n + p] == idx[p]);
            lemma_pal_index(frame, p);
        }
        assert forall|p: int| 0 <= p < 38400 implies #[trigger] crate::tile_decoder::key8_index(
            raw,
            n,
            p,
        ) < n by {
            assert(crate::tile_decoder::key8_index(raw, n, p) == pal_index(pal, frame[p]));
            lemma_pal_index(frame, p);
        }
        assert forall|p: int| 0 <= p < 38400 implies #[trigger] crate::tile_decoder::key8_screen(
            raw,
            n,
        )[p] == frame[p] by {
            assert(crate::tile_decoder::key8_index(raw, n, p) == pal_index(pal, frame[p]));
            lemma_pal_index(frame, p);
            lemma_read16_at(le16(n as u16), pal, idx, pal_index(pal, frame[p]));
        }
        assert(crate::tile_decoder::key8_screen(raw, n) =~= frame);
    } else {
        assert(raw == le16_seq(frame));
        assert forall|p: int| 0 <= p < 38400 implies #[trigger] read16_seq(raw, 38400)[p]
            == frame[p] by {
            lemma_read16_at(Seq::empty(), frame, Seq::empty(), p);
            assert(Seq::<u8>::empty() + le16_seq(frame) + Seq::<u8>::empty() =~= raw);
        }
        assert(read16_seq(raw, 38400) =~= frame);
    }
}

/// Palette index of pixel `p` in a 4bpp keyframe (as the decoder reads it).
spec fn key4_index_of(d: Seq<u8>, n: int, p: int) -> int {
    crate::tile_decoder::key4_index(d, n, p)
}

/// A decoder and an encoder that start out together stay together: the
/// payload that the encoder makes of a frame brings a decoder that mirrors
/// it to exactly that frame, and the two still mirror each other.
#[verifier::rlimit(40)]
pub proof fn lemma_video_roundtrip(e: EncoderView, d: DecoderView, frame: Seq<u16>)
    requires
        encoder_view_wf(e),
        view_wf(d),
        in_sync(e, d),
        frame.len() == 38400,
    ensures
        ({
            let (e2, f, raw) = encode_spec(e, frame);
            &&& raw.len() <= u32::MAX
            &&& payload_representable(f, raw)
            &&& decode_spec(d, f, raw) is Done
            &&& decode_spec(d, f, raw)->Done_0.screen == frame
            &&& in_sync(e2, decode_spec(d, f, raw)->Done_0)
            &&& view_wf(decode_spec(d, f, raw)->Done_0)
            &&& encoder_view_wf(e2)
        }),
{
    let (e2, f, raw) = encode_spec(e, frame);
    let (dk, ck, bsk) = encode_blocks(e.dict, frame, e.prev_frame, 600);
    if f == 8 {
        lemma_blocks_roundtrip(e.dict, frame, e.prev_frame, d, 600, Seq::empty());
        assert(bsk + Seq::<u8>::empty() =~= bsk);
        assert(raw == le16(ck as u16) + bsk);
        lemma_read16_le16(Seq::empty(), ck as u16, bsk);
        assert(Seq::<u8>::empty() + le16(ck as u16) + bsk =~= raw);
        assert(raw.skip(2) =~= bsk);
        assert(partly_drawn(frame, e.prev_frame, 600) =~= frame) by {
            assert forall|p: int| 0 <= p < 38400 implies block_of(p) < 600 by {
                lemma_block_of(p);
            }
        }
    } else {
        lemma_keyframe_roundtrip(frame, d);
        let d2 = DecoderView { head: 0, screen: frame, ..d };
        assert(cache_in_sync(Seq::empty(), d2));
    }
    lemma_decode_unrepresentable(d, f, raw);
}

/// A new encoder and a new decoder start in step: both hold a black screen,
/// the dictionary is empty and the cache is at slot 0.
pub proof fn lemma_initial_sync()
    ensures
        in_sync(
            EncoderView {
                prev_frame: Seq::new(38400, |p: int| 0u16),
                dict: Seq::empty(),
                frame_counter: 0,
            },
            DecoderView {
                cache: Seq::new(4096, |k: int| Seq::new(64, |i: int| 0u16)),
                head: 0,
                screen: Seq::new(38400, |p: int| 0u16),
            },
        ),
{
}

/// A new encoder's state.
pub open spec fn initial_encoder() -> EncoderView {
    EncoderView { prev_frame: Seq::new(38400, |p: int| 0u16), dict: Seq::empty(), frame_counter: 0 }
}

/// A new decoder's state.
pub open spec fn initial_decoder() -> DecoderView {
    DecoderView {
        cache: Seq::new(4096, |k: int| Seq::new(64, |i: int| 0u16)),
        head: 0,
        screen: Seq::new(38400, |p: int| 0u16),
    }
}

/// The encoder's and the decoder's states after a new encoder encoded
/// `frames` in order and a new decoder decoded each payload it sent (a
/// payload that does not decode leaves the decoder as it was).
pub open spec fn video_stream(frames: Seq<Seq<u16>>) -> (EncoderView, DecoderView)
    decreases frames.len(),
{
    if frames.len() == 0 {
        (initial_encoder(), initial_decoder())
    } else {
        let (e, d) = video_stream(frames.drop_last());
        let (e2, f, raw) = encode_spec(e, frames.last());
        match decode_spec(d, f, raw) {
            DecodeOutcome::Done(d2) => (e2, d2),
            _ => (e2, d),
        }
    }
}

/// After any stream of frames, every payload the encoder sent decoded, and
/// the decoder shows exactly the last frame and still mirrors the encoder.
pub proof fn lemma_video_stream(frames: Seq<Seq<u16>>)
    requires
        forall|i: int| 0 <= i < frames.len() ==> (#[trigger] frames[i]).len() == 38400,
    ensures
        ({
            let (e, d) = video_stream(frames);
            &&& encoder_view_wf(e)
            &&& view_wf(d)
            &&& in_sync(e, d)
            &&& frames.len() > 0 ==> d.screen == frames.last()
        }),
        frames.len() > 0 ==> ({
            let (e, d) = video_stream(frames.drop_last());
            let (e2, f, raw) = encode_spec(e, frames.last());
            decode_spec(d, f, raw) is Done
        }),
    decreases frames.len(),
{
    if frames.len() == 0 {
        lemma_initial_sync();
        assert(initial_encoder().dict =~= Seq::<Seq<u16>>::empty());
        assert(live_tiles(initial_encoder().dict) =~= Seq::<Seq<u16>>::empty());
    } else {
        let prefix = frames.drop_last();
        assert forall|i: int| 0 <= i < prefix.len() implies (#[trigger] prefix[i]).len() == 38400 by {
            assert(prefix[i] == frames[i]);
        }
        lemma_video_stream(prefix);
        let (e, d) = video_stream(prefix);
        lemma_video_roundtrip(e, d, frames.last());
    }
}

/// No tile of a frame differs from itself, so encoding it against itself
/// sends no tile and leaves the dictionary as it was.
proof fn lemma_blocks_unchanged(dict: Seq<Seq<u16>>, frame: Seq<u16>, k: nat)
    ensures
        encode_blocks(dict, frame, frame, k) == (dict, 0nat, Seq::<u8>::empty()),
    decreases k,
{
    if k > 0 {
        lemma_blocks_unchanged(dict, frame, (k - 1) as nat);
        assert(Seq::<u8>::empty() + Seq::<u8>::empty() =~= Seq::<u8>::empty());
    }
}

/// Encoding the frame that was encoded last, on a frame that is not a
/// keyframe, sends a tile-delta frame with no tiles: its payload is the
/// count 0 alone, and the dictionary stays as it was.
pub proof fn lemma_unchanged_frame(e: EncoderView)
    requires
        (e.frame_counter + 1) % 60 != 1,
    ensures
        ({
            let (e2, f, raw) = encode_spec(e, e.prev_frame);
            &&& f == 8
            &&& raw == seq![0u8, 0u8]
            &&& e2.dict == e.dict
            &&& e2.prev_frame == e.prev_frame
        }),
{
    lemma_blocks_unchanged(e.dict, e.prev_frame, 600);
    assert((0u16 & 0xff) as u8 == 0u8) by (bit_vector);
    assert((0u16 >> 8) as u8 == 0u8) by (bit_vector);
    assert(le16(0u16) + Seq::<u8>::empty() =~= seq![0u8, 0u8]);
}

} // verus!
