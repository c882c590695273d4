//! The PPU state stream is lossless: a client state that mirrors the
//! encoder's last palette and VRAM becomes exactly the state that was
//! encoded, wherever LZ4 gives back each section that the payload holds
//! compressed.

use vstd::prelude::*;
use crate::error::CodecError;
use crate::le::{le16, le32, read16, read32, lemma_read16_le16, lemma_read32_le32};
use crate::lz4::{lz4_compressed, lz4_decompressed, lz4_roundtrips};
use crate::ppu::{
    PpuEncoderView, PpuView, apply_vram_delta, copy_prefix, dirty_blocks, lz4_section,
    ppu_apply_spec, ppu_encode_spec, ppu_overruns, ppu_io_step, ppu_pal_step, ppu_vram_step,
    vram_block, vram_delta_bytes, vram_section, lemma_ppu_overruns,
};

verus! {

/// `v` with VRAM block `b` taken from `src`.
pub open spec fn set_block(v: Seq<u8>, b: int, src: Seq<u8>) -> Seq<u8> {
    v.subrange(0, b * 128) + vram_block(src, b) + v.subrange(b * 128 + 128, v.len() as int)
}

/// `v` with each listed VRAM block taken from `src`, in list order.
pub open spec fn set_blocks(v: Seq<u8>, src: Seq<u8>, blocks: Seq<u16>) -> Seq<u8>
    decreases blocks.len(),
{
    if blocks.len() == 0 {
        v
    } else {
        set_blocks(set_block(v, blocks[0] as int, src), src, blocks.drop_first())
    }
}

proof fn lemma_delta_bytes_len(vram: Seq<u8>, blocks: Seq<u16>)
    requires
        vram.len() == 98304,
        forall|j: int| 0 <= j < blocks.len() ==> (#[trigger] blocks[j]) < 768,
    ensures
        vram_delta_bytes(vram, blocks).len() == 130 * blocks.len(),
    decreases blocks.len(),
{
    if blocks.len() > 0 {
        lemma_delta_bytes_len(vram, blocks.drop_last());
    }
}

proof fn lemma_delta_bytes_front(vram: Seq<u8>, blocks: Seq<u16>)
    requires
        blocks.len() > 0,
    ensures
        vram_delta_bytes(vram, blocks) == le16(blocks[0]) + vram_block(vram, blocks[0] as int)
            + vram_delta_bytes(vram, blocks.drop_first()),
    decreases blocks.len(),
{
    if blocks.len() > 1 {
        lemma_delta_bytes_front(vram, blocks.drop_last());
        assert(blocks.drop_last().drop_first() =~= blocks.drop_first().drop_last());
        assert(blocks.drop_last()[0] == blocks[0]);
        assert(blocks.drop_first().last() == blocks.last());
    } else {
        assert(blocks.drop_first() =~= Seq::<u16>::empty());
        assert(blocks.drop_last() =~= Seq::<u16>::empty());
    }
}

proof fn lemma_apply_delta(v: Seq<u8>, vram: Seq<u8>, x: Seq<u8>, pos: int, blocks: Seq<u16>)
    requires
        vram.len() == 98304,
        v.len() == 98304,
        forall|j: int| 0 <= j < blocks.len() ==> (#[trigger] blocks[j]) < 768,
        0 <= pos,
        pos + 130 * blocks.len() <= x.len(),
        x.subrange(pos, pos + 130 * blocks.len()) == vram_delta_bytes(vram, blocks),
    ensures
        apply_vram_delta(v, x, pos, blocks.len()) == set_blocks(v, vram, blocks),
    decreases blocks.len(),
{
    if blocks.len() > 0 {
        let b = blocks[0];
        let rest = blocks.drop_first();
        lemma_delta_bytes_front(vram, blocks);
        lemma_delta_bytes_len(vram, rest);
        let entry = le16(b) + vram_block(vram, b as int);
        assert(x.subrange(pos, pos + 130) =~= entry);
        lemma_read16_le16(Seq::empty(), b, vram_block(vram, b as int));
        assert(read16(x, pos) == read16(entry, 0)) by {
            assert(x[pos] == entry[0]);
            assert(x[pos + 1] == entry[1]);
            assert(Seq::<u8>::empty() + le16(b) + vram_block(vram, b as int) =~= entry);
        }
        let whole = x.subrange(pos, pos + 130 * blocks.len());
        let rb = vram_delta_bytes(vram, rest);
        assert(whole == entry + rb);
        assert forall|i: int| 0 <= i < 128 implies #[trigger] x.subrange(pos + 2, pos + 130)[i]
            == vram_block(vram, b as int)[i] by {
            assert(x[pos + 2 + i] == whole[2 + i]);
            assert(whole[2 + i] == entry[2 + i]);
        }
        assert(x.subrange(pos + 2, pos + 130) =~= vram_block(vram, b as int));
        assert forall|i: int| 0 <= i < 130 * rest.len() implies #[trigger] x.subrange(
            pos + 130,
            pos + 130 + 130 * rest.len(),
        )[i] == rb[i] by {
            assert(x[pos + 130 + i] == whole[130 + i]);
            assert(whole[130 + i] == rb[i]);
        }
        assert(x.subrange(pos + 130, pos + 130 + 130 * rest.len()) =~= rb);
        lemma_apply_delta(set_block(v, b as int, vram), vram, x, pos + 130, rest);
        assert(v.subrange(0, b * 128) + x.subrange(pos + 2, pos + 130) + v.subrange(
            b * 128 + 128,
            v.len() as int,
        ) == set_block(v, b as int, vram));
        assert((blocks.len() - 1) as nat == rest.len());
    }
}

proof fn lemma_set_blocks_push(v: Seq<u8>, src: Seq<u8>, blocks: Seq<u16>, b: u16)
    ensures
        set_blocks(v, src, blocks.push(b)) == set_block(set_blocks(v, src, blocks), b as int, src),
    decreases blocks.len(),
{
    if blocks.len() > 0 {
        lemma_set_blocks_push(set_block(v, blocks[0] as int, src), src, blocks.drop_first(), b);
        assert(blocks.push(b).drop_first() =~= blocks.drop_first().push(b));
        assert(blocks.push(b)[0] == blocks[0]);
    } else {
        let one = blocks.push(b);
        assert(one.len() == 1);
        assert(one[0] == b);
        assert(one.drop_first() =~= Seq::<u16>::empty());
        assert(set_blocks(set_block(v, b as int, src), src, Seq::<u16>::empty()) == set_block(
            v,
            b as int,
            src,
        ));
        assert(blocks =~= Seq::<u16>::empty());
    }
}

/// VRAM whose first `n` blocks come from `vram` and the rest from `prev`.
spec fn vram_mix(vram: Seq<u8>, prev: Seq<u8>, n: int) -> Seq<u8> {
    Seq::new(98304, |i: int| if i < n * 128 { vram[i] } else { prev[i] })
}

proof fn lemma_dirty_fixes(vram: Seq<u8>, prev: Seq<u8>, n: nat)
    requires
        vram.len() == 98304,
        prev.len() == 98304,
        n <= 768,
    ensures
        set_blocks(prev, vram, dirty_blocks(vram, prev, n)) == vram_mix(vram, prev, n as int),
        forall|j: int| 0 <= j < dirty_blocks(vram, prev, n).len() ==> (#[trigger] dirty_blocks(
            vram,
            prev,
            n,
        )[j]) < n,
        dirty_blocks(vram, prev, n).len() <= n,
    decreases n,
{
    if n == 0 {
        assert(vram_mix(vram, prev, 0) =~= prev);
    } else {
        let m = (n - 1) as nat;
        lemma_dirty_fixes(vram, prev, m);
        let d = dirty_blocks(vram, prev, m);
        if vram_block(vram, m as int) != vram_block(prev, m as int) {
            lemma_set_blocks_push(prev, vram, d, m as u16);
            assert(set_block(vram_mix(vram, prev, m as int), m as int, vram) =~= vram_mix(
                vram,
                prev,
                n as int,
            ));
        } else {
            assert forall|i: int| 0 <= i < 98304 implies vram_mix(vram, prev, m as int)[i]
                == #[trigger] vram_mix(vram, prev, n as int)[i] by {
                if m * 128 <= i < n * 128 {
                    assert(vram_block(vram, m as int)[i - m * 128] == vram_block(prev, m as int)[i - m
                        * 128]);
                }
            }
            assert(vram_mix(vram, prev, m as int) =~= vram_mix(vram, prev, n as int));
        }
    }
}

/// The bytes that the VRAM section of frame `counter` holds compressed: the
/// whole VRAM, or the count of changed blocks followed by those blocks.
pub open spec fn vram_section_raw(e: PpuEncoderView, vram: Seq<u8>, counter: int) -> Seq<u8> {
    let dirty = dirty_blocks(vram, e.prev_vram, 768);
    if counter % 120 == 1 || dirty.len() > 150 {
        vram
    } else {
        le16(dirty.len() as u16) + vram_delta_bytes(vram, dirty)
    }
}

/// A section of the payload read back from its offset.
proof fn lemma_section(pre: Seq<u8>, c: Seq<u8>, post: Seq<u8>)
    ensures
        (pre + le16(c.len() as u16) + c + post).subrange(pre.len() as int + 2, pre.len() as int + 2 + c.len())
            == c,
        c.len() < 65536 ==> read16(pre + le16(c.len() as u16) + c + post, pre.len() as int)
            == c.len(),
{
    let p = pre + le16(c.len() as u16) + c + post;
    assert(p.subrange(pre.len() as int + 2, pre.len() as int + 2 + c.len()) =~= c);
    lemma_read16_le16(pre, c.len() as u16, c + post);
    assert(pre + le16(c.len() as u16) + (c + post) =~= p);
}

/// Applying the payload that the encoder makes of a PPU state brings a
/// client state that mirrors the encoder's last palette and VRAM to exactly
/// that state, and never reaches an overrunning VRAM section, wherever LZ4
/// brings back each section that the payload compresses.
#[verifier::rlimit(80)]
pub proof fn lemma_ppu_roundtrip(
    e: PpuEncoderView,
    s: PpuView,
    oam: Seq<u8>,
    io: Seq<u8>,
    palette: Seq<u8>,
    vram: Seq<u8>,
)
    requires
        lz4_roundtrips(oam),
        lz4_roundtrips(io),
        (e.frame_counter + 1) % 60 == 1 || palette != e.prev_palette ==> lz4_roundtrips(palette),
        vram_section(e, vram, e.frame_counter + 1).0 != 0 ==> lz4_roundtrips(
            vram_section_raw(e, vram, e.frame_counter + 1),
        ),
        e.prev_vram.len() == 98304,
        e.prev_palette.len() == 1024,
        s.palette == e.prev_palette,
        s.vram == e.prev_vram,
        s.io.len() == 128,
        oam.len() == 1024,
        io.len() == 128,
        palette.len() == 1024,
        vram.len() == 98304,
    ensures
        ({
            let (e2, p) = ppu_encode_spec(e, oam, io, palette, vram);
            &&& !ppu_overruns(p)
            &&& ppu_apply_spec(s, p) == (PpuView { oam, io, palette, vram }, Ok::<(), CodecError>(()))
            &&& e2.prev_palette == palette
            &&& e2.prev_vram == vram
        }),
{
    let counter = e.frame_counter + 1;
    let (e2, p) = ppu_encode_spec(e, oam, io, palette, vram);
    let oc = lz4_compressed(oam);
    let ic = lz4_compressed(io);
    let pal_sent = counter % 60 == 1 || palette != e.prev_palette;
    let pc = if pal_sent {
        lz4_compressed(palette)
    } else {
        Seq::empty()
    };
    let (mode, vp) = vram_section(e, vram, counter);
    let a = le16(oc.len() as u16) + oc;
    let b = le16(ic.len() as u16) + ic;
    let c = le16(pc.len() as u16) + pc;
    let d = le32((1 + vp.len()) as u32) + seq![mode] + vp;
    assert(p =~= a + b + c + d);
    lemma_section(Seq::empty(), oc, b + c + d);
    assert(Seq::<u8>::empty() + le16(oc.len() as u16) + oc + (b + c + d) =~= p);
    lemma_section(a, ic, c + d);
    assert(a + le16(ic.len() as u16) + ic + (c + d) =~= p);
    lemma_section(a + b, pc, d);
    assert(a + b + le16(pc.len() as u16) + pc + d =~= p);
    let la = a.len() as int;
    let lb = b.len() as int;
    let pos = la + lb + c.len() as int;
    lemma_read32_le32(a + b + c, (1 + vp.len()) as u32, seq![mode] + vp);
    assert(a + b + c + le32((1 + vp.len()) as u32) + (seq![mode] + vp) =~= p);
    assert(p[pos + 4] == mode);
    assert(p.subrange(pos + 5, pos + 5 + vp.len() as int) =~= vp);
    let s1 = PpuView { oam: oam, ..s };
    let s2 = PpuView { io: copy_prefix(s1.io, io), ..s1 };
    assert(copy_prefix(s1.io, io) =~= io);
    let s3 = PpuView { palette: palette, ..s2 };
    assert(lz4_section(p, 2, oc.len() as int) == Some(oam));
    assert(lz4_section(p, la + 2, ic.len() as int) == Some(io));
    if pal_sent {
        assert(lz4_section(p, la + lb + 2, pc.len() as int) == Some(palette));
    }
    lemma_vram_roundtrip(e, s3, vram, counter, p, pos);
    assert(ppu_vram_step(s3, p, pos) == (PpuView { oam, io, palette, vram }, Ok::<
        (),
        CodecError,
    >(())));
    assert(ppu_pal_step(s2, p, la + lb) == ppu_vram_step(s3, p, pos));
    assert(ppu_io_step(s1, p, la) == ppu_pal_step(s2, p, la + lb));
    lemma_ppu_overruns(s, p);
}

/// The VRAM section the encoder makes brings the client's VRAM, equal to
/// the encoder's last one, to the encoded VRAM.
proof fn lemma_vram_roundtrip(
    e: PpuEncoderView,
    s: PpuView,
    vram: Seq<u8>,
    counter: int,
    p: Seq<u8>,
    pos: int,
)
    requires
        vram_section(e, vram, counter).0 != 0 ==> lz4_roundtrips(vram_section_raw(e, vram, counter)),
        e.prev_vram.len() == 98304,
        s.vram == e.prev_vram,
        vram.len() == 98304,
        0 <= pos,
        pos + 5 + vram_section(e, vram, counter).1.len() <= p.len(),
        read32(p, pos) == (1 + vram_section(e, vram, counter).1.len()) as u32,
        p[pos + 4] == vram_section(e, vram, counter).0,
        p.subrange(pos + 5, pos + 5 + vram_section(e, vram, counter).1.len())
            == vram_section(e, vram, counter).1,
    ensures
        vram_section(e, vram, counter).1.len() < u32::MAX,
        ppu_vram_step(s, p, pos) == (PpuView { vram: vram, ..s }, Ok::<(), CodecError>(())),
{
    let (mode, vp) = vram_section(e, vram, counter);
    let is_key = counter % 120 == 1;
    let dirty = dirty_blocks(vram, e.prev_vram, 768);
    lemma_dirty_fixes(vram, e.prev_vram, 768);
    assert(vram_mix(vram, e.prev_vram, 768) =~= vram);
    if is_key || dirty.len() > 150 {
        assert(lz4_decompressed(lz4_compressed(vram)) == Some(vram));
    } else if dirty.len() > 0 {
        let n = dirty.len();
        let x = le16(n as u16) + vram_delta_bytes(vram, dirty);
        lemma_delta_bytes_len(vram, dirty);
        assert(lz4_decompressed(lz4_compressed(x)) == Some(x));
        lemma_read16_le16(Seq::empty(), n as u16, vram_delta_bytes(vram, dirty));
        assert(Seq::<u8>::empty() + le16(n as u16) + vram_delta_bytes(vram, dirty) =~= x);
        assert(x.subrange(2, 2 + 130 * n as int) =~= vram_delta_bytes(vram, dirty));
        lemma_apply_delta(e.prev_vram, vram, x, 2, dirty);
    } else {
        crate::ppu::lemma_no_dirty(vram, e.prev_vram, 768);
        assert(vram.subrange(0, 98304) =~= vram);
        assert(e.prev_vram.subrange(0, 98304) =~= e.prev_vram);
    }
}


/// One frame of PPU state: OAM, I/O registers, palette and VRAM.
pub struct PpuFrame {
    pub oam: Seq<u8>,
    pub io: Seq<u8>,
    pub palette: Seq<u8>,
    pub vram: Seq<u8>,
}

/// A frame of the sizes a GBA has.
pub open spec fn ppu_frame_sized(f: PpuFrame) -> bool {
    f.oam.len() == 1024 && f.io.len() == 128 && f.palette.len() == 1024 && f.vram.len() == 98304
}

/// LZ4 gives back every section that encoding `f` after `e` compresses.
pub open spec fn ppu_sections_roundtrip(e: PpuEncoderView, f: PpuFrame) -> bool {
    &&& lz4_roundtrips(f.oam)
    &&& lz4_roundtrips(f.io)
    &&& (e.frame_counter + 1) % 60 == 1 || f.palette != e.prev_palette ==> lz4_roundtrips(f.palette)
    &&& vram_section(e, f.vram, e.frame_counter + 1).0 != 0 ==> lz4_roundtrips(
        vram_section_raw(e, f.vram, e.frame_counter + 1),
    )
}

/// The encoder's and the client's states after a new encoder encoded
/// `frames` in order and a new client state applied each payload.
pub open spec fn ppu_stream(frames: Seq<PpuFrame>) -> (PpuEncoderView, PpuView)
    decreases frames.len(),
{
    if frames.len() == 0 {
        (
            PpuEncoderView {
                prev_vram: Seq::new(98304, |i: int| 0u8),
                prev_palette: Seq::new(1024, |i: int| 0u8),
                frame_counter: 0,
            },
            PpuView {
                oam: Seq::new(1024, |i: int| 0u8),
                io: Seq::new(128, |i: int| 0u8),
                palette: Seq::new(1024, |i: int| 0u8),
                vram: Seq::new(98304, |i: int| 0u8),
            },
        )
    } else {
        let (e, s) = ppu_stream(frames.drop_last());
        let f = frames.last();
        let (e2, p) = ppu_encode_spec(e, f.oam, f.io, f.palette, f.vram);
        (e2, ppu_apply_spec(s, p).0)
    }
}

/// After any stream of PPU frames, the client state is exactly the last
/// frame and every payload applied without error, wherever LZ4 gave back
/// each section that was compressed.
pub proof fn lemma_ppu_stream(frames: Seq<PpuFrame>)
    requires
        forall|i: int| 0 <= i < frames.len() ==> ppu_frame_sized(#[trigger] frames[i]),
        forall|i: int|
            0 <= i < frames.len() ==> ppu_sections_roundtrip(
                ppu_stream(frames.take(i)).0,
                #[trigger] frames[i],
            ),
    ensures
        ({
            let (e, s) = ppu_stream(frames);
            &&& e.prev_palette == s.palette
            &&& e.prev_vram == s.vram
            &&& e.prev_palette.len() == 1024
            &&& e.prev_vram.len() == 98304
            &&& s.io.len() == 128
            &&& frames.len() > 0 ==> s == (PpuView {
                oam: frames.last().oam,
                io: frames.last().io,
                palette: frames.last().palette,
                vram: frames.last().vram,
            })
        }),
        frames.len() > 0 ==> ({
            let (e, s) = ppu_stream(frames.drop_last());
            let f = frames.last();
            let p = ppu_encode_spec(e, f.oam, f.io, f.palette, f.vram).1;
            &&& ppu_apply_spec(s, p).1 == Ok::<(), CodecError>(())
            &&& !ppu_overruns(p)
        }),
    decreases frames.len(),
{
    if frames.len() > 0 {
        let prefix = frames.drop_last();
        assert forall|i: int| 0 <= i < prefix.len() implies ppu_frame_sized(#[trigger] prefix[i]) by {
            assert(prefix[i] == frames[i]);
        }
        assert forall|i: int| 0 <= i < prefix.len() implies ppu_sections_roundtrip(
            ppu_stream(prefix.take(i)).0,
            #[trigger] prefix[i],
        ) by {
            assert(prefix[i] == frames[i]);
            assert(prefix.take(i) =~= frames.take(i));
            assert(ppu_sections_roundtrip(ppu_stream(frames.take(i)).0, frames[i]));
        }
        lemma_ppu_stream(prefix);
        let (e, s) = ppu_stream(prefix);
        let n = frames.len() - 1;
        let f = frames[n];
        assert(frames.take(n) =~= prefix);
        assert(ppu_sections_roundtrip(ppu_stream(frames.take(n)).0, frames[n]));
        assert(ppu_frame_sized(frames[n]));
        lemma_ppu_roundtrip(e, s, f.oam, f.io, f.palette, f.vram);
    }
}

} // verus!
