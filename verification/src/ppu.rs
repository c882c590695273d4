//! PPU state streaming: the host sends the GBA's object attribute memory,
//! I/O registers, palette and VRAM each frame (VRAM as 128-byte blocks that
//! changed), and the client keeps a copy of that state.

use vstd::prelude::*;
use crate::error::CodecError;
use crate::le::{le16, le32, read16, read32, get16, get32, push16, push32};
use crate::lz4::{Lz4Error, LZ4_MAX_INPUT, lz4_compressed, lz4_decompressed, compress_prepend_size, decompress_size_prepended};

verus! {

pub const FLAG_PPU_STATE: u8 = 16;

/// VRAM block `b` (128 bytes).
pub open spec fn vram_block(v: Seq<u8>, b: int) -> Seq<u8> {
    v.subrange(b * 128, b * 128 + 128)
}

/// The VRAM blocks among the first `n` in which `vram` differs from `prev`,
/// in increasing order.
pub open spec fn dirty_blocks(vram: Seq<u8>, prev: Seq<u8>, n: nat) -> Seq<u16>
    decreases n,
{
    if n == 0 {
        Seq::empty()
    } else {
        let d = dirty_blocks(vram, prev, (n - 1) as nat);
        if vram_block(vram, n - 1) != vram_block(prev, n - 1) {
            d.push((n - 1) as u16)
        } else {
            d
        }
    }
}

/// Each listed block as its index and its 128 bytes.
pub open spec fn vram_delta_bytes(vram: Seq<u8>, blocks: Seq<u16>) -> Seq<u8>
    decreases blocks.len(),
{
    if blocks.len() == 0 {
        Seq::empty()
    } else {
        vram_delta_bytes(vram, blocks.drop_last()) + le16(blocks.last()) + vram_block(
            vram,
            blocks.last() as int,
        )
    }
}

/// What a PPU state encoder holds: the VRAM and palette last sent and the
/// number of frames encoded.
pub struct PpuEncoderView {
    pub prev_vram: Seq<u8>,
    pub prev_palette: Seq<u8>,
    pub frame_counter: int,
}

/// VRAM section of a frame: the mode (0 unchanged, 1 full, 2 changed
/// blocks) and its compressed bytes.
pub open spec fn vram_section(st: PpuEncoderView, vram: Seq<u8>, counter: int) -> (u8, Seq<u8>) {
    let is_key = counter % 120 == 1;
    let dirty = if is_key {
        Seq::empty()
    } else {
        dirty_blocks(vram, st.prev_vram, 768)
    };
    if is_key || dirty.len() > 150 {
        (1u8, lz4_compressed(vram))
    } else if dirty.len() > 0 {
        (2u8, lz4_compressed(le16(dirty.len() as u16) + vram_delta_bytes(vram, dirty)))
    } else {
        (0u8, Seq::empty())
    }
}

/// What encoding one frame of PPU state does: the encoder's new state and
/// the payload. OAM and I/O registers are always sent; the palette on every
/// 60th frame and whenever it changed; VRAM in full on every 120th frame or
/// when more than 150 blocks changed, else the changed blocks, else nothing.
pub open spec fn ppu_encode_spec(
    st: PpuEncoderView,
    oam: Seq<u8>,
    io: Seq<u8>,
    palette: Seq<u8>,
    vram: Seq<u8>,
) -> (PpuEncoderView, Seq<u8>) {
    let counter = st.frame_counter + 1;
    let oam_c = lz4_compressed(oam);
    let io_c = lz4_compressed(io);
    let pal_c = if counter % 60 == 1 || palette != st.prev_palette {
        lz4_compressed(palette)
    } else {
        Seq::empty()
    };
    let (mode, vp) = vram_section(st, vram, counter);
    (
        PpuEncoderView { prev_vram: vram, prev_palette: palette, frame_counter: counter },
        le16(oam_c.len() as u16) + oam_c + le16(io_c.len() as u16) + io_c + le16(
            pal_c.len() as u16,
        ) + pal_c + le32((1 + vp.len()) as u32) + seq![mode] + vp,
    )
}

/// No block differs between two VRAM images of 768 blocks only if they are
/// equal.
pub proof fn lemma_no_dirty(vram: Seq<u8>, prev: Seq<u8>, n: nat)
    requires
        vram.len() == 98304,
        prev.len() == 98304,
        n <= 768,
        dirty_blocks(vram, prev, n).len() == 0,
    ensures
        vram.subrange(0, n as int * 128) == prev.subrange(0, n as int * 128),
    decreases n,
{
    if n > 0 {
        let d = dirty_blocks(vram, prev, (n - 1) as nat);
        if vram_block(vram, n - 1) != vram_block(prev, n - 1) {
            assert(dirty_blocks(vram, prev, n).len() == d.len() + 1);
        }
        lemma_no_dirty(vram, prev, (n - 1) as nat);
        assert forall|i: int| 0 <= i < n as int * 128 implies #[trigger] vram.subrange(0, n as int * 128)[i] == prev.subrange(
            0,
            n as int * 128,
        )[i] by {
            if i < (n - 1) * 128 {
                assert(vram.subrange(0, (n - 1) * 128)[i] == prev.subrange(0, (n - 1) * 128)[i]);
            } else {
                assert(vram_block(vram, n - 1)[i - (n - 1) * 128] == vram_block(prev, n - 1)[i - (n
                    - 1) * 128]);
            }
        }
        assert(vram.subrange(0, n as int * 128) =~= prev.subrange(0, n as int * 128));
    }
}

/// Encoder of PPU state frames.
pub struct PpuStateEncoder {
    prev_vram: Vec<u8>,
    prev_palette: Vec<u8>,
    frame_counter: u32,
}

/// Whether two byte ranges of equal length are equal.
fn bytes_equal(a: &[u8], a_start: usize, b: &[u8], b_start: usize, n: usize) -> (r: bool)
    requires
        a_start + n <= a.len(),
        b_start + n <= b.len(),
    ensures
        r == (a@.subrange(a_start as int, a_start + n) == b@.subrange(b_start as int, b_start + n)),
{
    let mut i: usize = 0;
    while i < n
        invariant
            i <= n,
            a_start + n <= a.len(),
            b_start + n <= b.len(),
            forall|j: int|
                0 <= j < i ==> #[trigger] a@.subrange(a_start as int, a_start + n)[j] == b@.subrange(
                    b_start as int,
                    b_start + n,
                )[j],
        decreases n - i,
    {
        if a[a_start + i] != b[b_start + i] {
            assert(a@.subrange(a_start as int, a_start + n)[i as int] != b@.subrange(
                b_start as int,
                b_start + n,
            )[i as int]);
            return false;
        }
        i = i + 1;
    }
    assert(a@.subrange(a_start as int, a_start + n) =~= b@.subrange(b_start as int, b_start + n));
    true
}

/// Appends `n` bytes of `src` from `start` on.
fn push_range(out: &mut Vec<u8>, src: &[u8], start: usize, n: usize)
    requires
        start + n <= src.len(),
    ensures
        final(out)@ == old(out)@ + src@.subrange(start as int, start + n),
{
    let mut i: usize = 0;
    while i < n
        invariant
            i <= n,
            start + n <= src.len(),
            out@ == old(out)@ + src@.subrange(start as int, start + i),
        decreases n - i,
    {
        out.push(src[start + i]);
        i = i + 1;
        assert(out@ =~= old(out)@ + src@.subrange(start as int, start + i));
    }
}

/// A copy of `src`.
pub(crate) fn copy_bytes(src: &[u8]) -> (r: Vec<u8>)
    ensures
        r@ == src@,
{
    let mut r: Vec<u8> = Vec::new();
    push_range(&mut r, src, 0, src.len());
    assert(src@.subrange(0, src@.len() as int) =~= src@);
    r
}

impl PpuStateEncoder {
    /// The encoder's state.
    pub closed spec fn view(&self) -> PpuEncoderView {
        PpuEncoderView {
            prev_vram: self.prev_vram@,
            prev_palette: self.prev_palette@,
            frame_counter: self.frame_counter as int,
        }
    }

    /// The encoder's previous VRAM and palette are full-sized.
    pub closed spec fn wf(&self) -> bool {
        &&& self.prev_vram@.len() == 98304
        &&& self.prev_palette@.len() == 1024
    }

    /// An encoder whose previous VRAM and palette are zero, that has encoded
    /// no frame yet.
    pub fn new() -> (e: Self)
        ensures
            e.wf(),
            e.view() == (PpuEncoderView {
                prev_vram: Seq::new(98304, |i: int| 0u8),
                prev_palette: Seq::new(1024, |i: int| 0u8),
                frame_counter: 0,
            }),
    {
        let e = PpuStateEncoder {
            prev_vram: vec![0u8; 98304],
            prev_palette: vec![0u8; 1024],
            frame_counter: 0,
        };
        assert(e.view().prev_vram =~= Seq::new(98304, |i: int| 0u8));
        assert(e.view().prev_palette =~= Seq::new(1024, |i: int| 0u8));
        e
    }

    /// Encodes one frame of PPU state: OAM (1024 bytes on the GBA), I/O
    /// registers (128 bytes on the GBA), palette (1024 bytes) and VRAM (98304
    /// bytes). A full or changed-block VRAM section is never empty.
    pub fn encode(&mut self, oam: &[u8], io: &[u8], palette: &[u8], vram: &[u8]) -> (out: Vec<u8>)
        requires
            old(self).wf(),
            palette@.len() == 1024,
            vram@.len() == 98304,
            old(self).view().frame_counter < u32::MAX,
        ensures
            final(self).wf(),
            final(self).view() == ppu_encode_spec(old(self).view(), oam@, io@, palette@, vram@).0,
            out@ == ppu_encode_spec(old(self).view(), oam@, io@, palette@, vram@).1,
            vram_section(old(self).view(), vram@, old(self).view().frame_counter + 1).0 != 0u8
                ==> vram_section(old(self).view(), vram@, old(self).view().frame_counter + 1).1.len()
                >= 4,
    {
        let ghost st = self.view();
        self.frame_counter = self.frame_counter + 1;
        let counter = self.frame_counter;
        let oam_comp = compress_prepend_size(oam);
        let io_comp = compress_prepend_size(io);
        let pal_comp = if counter % 60 == 1 || !bytes_equal(palette, 0, self.prev_palette.as_slice(), 0, 1024) {
            compress_prepend_size(palette)
        } else {
            Vec::new()
        };
        proof {
            assert(palette@.subrange(0, 1024) =~= palette@);
            assert(st.prev_palette.subrange(0, 1024) =~= st.prev_palette);
        }
        let is_keyframe = counter % 120 == 1;
        let mut dirty: Vec<u16> = Vec::new();
        if !is_keyframe {
            let mut b: usize = 0;
            while b < 768
                invariant
                    b <= 768,
                    vram@.len() == 98304,
                    self.prev_vram@ == st.prev_vram,
                    self.wf(),
                    dirty@ == dirty_blocks(vram@, st.prev_vram, b as nat),
                    dirty@.len() <= b,
                    forall|j: int| 0 <= j < dirty@.len() ==> (#[trigger] dirty@[j]) < b,
                decreases 768 - b,
            {
                if !bytes_equal(vram, b * 128, self.prev_vram.as_slice(), b * 128, 128) {
                    dirty.push(b as u16);
                }
                b = b + 1;
            }
        }
        let ghost dirty_spec = if is_keyframe {
            Seq::<u16>::empty()
        } else {
            dirty_blocks(vram@, st.prev_vram, 768)
        };
        assert(dirty@ == dirty_spec);
        let vram_mode: u8;
        let vram_payload: Vec<u8>;
        if is_keyframe || dirty.len() > 150 {
            vram_mode = 1;
            vram_payload = compress_prepend_size(vram);
        } else if dirty.len() > 0 {
            let mut delta: Vec<u8> = Vec::new();
            push16(&mut delta, dirty.len() as u16);
            let ghost head = delta@;
            let mut i: usize = 0;
            while i < dirty.len()
                invariant
                    i <= dirty@.len(),
                    dirty@.len() <= 768,
                    vram@.len() == 98304,
                    forall|j: int| 0 <= j < dirty@.len() ==> (#[trigger] dirty@[j]) < 768,
                    delta@ == head + vram_delta_bytes(vram@, dirty@.take(i as int)),
                    head.len() == 2,
                    delta@.len() == 2 + 130 * i,
                decreases dirty@.len() - i,
            {
                let b = dirty[i];
                push16(&mut delta, b);
                push_range(&mut delta, vram, (b as usize) * 128, 128);
                i = i + 1;
                assert(dirty@.take(i as int).drop_last() =~= dirty@.take(i - 1));
                assert(delta@ =~= head + vram_delta_bytes(vram@, dirty@.take(i as int)));
            }
            assert(dirty@.take(i as int) =~= dirty@);
            vram_mode = 2;
            vram_payload = compress_prepend_size(delta.as_slice());
        } else {
            vram_mode = 0;
            vram_payload = Vec::new();
        }
        assert(vram_payload@.len() <= 24 + 98304 * 110 / 100);
        let mut out: Vec<u8> = Vec::new();
        push16(&mut out, oam_comp.len() as u16);
        push_range(&mut out, oam_comp.as_slice(), 0, oam_comp.len());
        push16(&mut out, io_comp.len() as u16);
        push_range(&mut out, io_comp.as_slice(), 0, io_comp.len());
        push16(&mut out, pal_comp.len() as u16);
        push_range(&mut out, pal_comp.as_slice(), 0, pal_comp.len());
        push32(&mut out, (1 + vram_payload.len()) as u32);
        out.push(vram_mode);
        push_range(&mut out, vram_payload.as_slice(), 0, vram_payload.len());
        proof {
            assert(oam_comp@.subrange(0, oam_comp@.len() as int) =~= oam_comp@);
            assert(io_comp@.subrange(0, io_comp@.len() as int) =~= io_comp@);
            assert(pal_comp@.subrange(0, pal_comp@.len() as int) =~= pal_comp@);
            assert(vram_payload@.subrange(0, vram_payload@.len() as int) =~= vram_payload@);
            assert(out@ =~= ppu_encode_spec(st, oam@, io@, palette@, vram@).1);
        }
        self.prev_palette = copy_bytes(palette);
        self.prev_vram = copy_bytes(vram);
        out
    }
}


/// What a PPU state decoder holds.
pub struct PpuView {
    pub oam: Seq<u8>,
    pub io: Seq<u8>,
    pub palette: Seq<u8>,
    pub vram: Seq<u8>,
}

/// `dst` with its first bytes replaced by as much of `src` as fits.
pub open spec fn copy_prefix(dst: Seq<u8>, src: Seq<u8>) -> Seq<u8> {
    let n = if src.len() < dst.len() {
        src.len()
    } else {
        dst.len()
    };
    src.subrange(0, n as int) + dst.subrange(n as int, dst.len() as int)
}

/// The decompressed `len` bytes of `p` from `pos` on.
pub open spec fn lz4_section(p: Seq<u8>, pos: int, len: int) -> Option<Seq<u8>> {
    lz4_decompressed(p.subrange(pos, pos + len))
}

/// `count` changed VRAM blocks, each a 16-bit block index and 128 bytes,
/// written into `vram` from byte `pos` of `d` on; a block past the end of
/// VRAM is skipped, and an entry cut off ends the list.
pub open spec fn apply_vram_delta(vram: Seq<u8>, d: Seq<u8>, pos: int, count: nat) -> Seq<u8>
    decreases count,
{
    if count == 0 || pos + 130 > d.len() {
        vram
    } else {
        let b = read16(d, pos) as int;
        let v2 = if b * 128 + 128 <= 98304 {
            vram.subrange(0, b * 128) + d.subrange(pos + 2, pos + 130) + vram.subrange(
                b * 128 + 128,
                vram.len() as int,
            )
        } else {
            vram
        };
        apply_vram_delta(v2, d, pos + 130, (count - 1) as nat)
    }
}

/// The VRAM section, at byte `pos` of a PPU payload.
pub open spec fn ppu_vram_step(st: PpuView, p: Seq<u8>, pos: int) -> (PpuView, Result<(), CodecError>) {
    if pos + 5 > p.len() {
        (st, Err(CodecError::InvalidVramHeader))
    } else {
        let sec = read32(p, pos) as int;
        let mode = p[pos + 4];
        let vpos = pos + 5;
        let vlen = if sec >= 1 {
            sec - 1
        } else {
            0
        };
        if (mode == 1 || mode == 2) && vlen > 0 && vpos + vlen > p.len() {
            (st, Err(CodecError::VramSectionTruncated))
        } else if (mode == 1 || mode == 2) && vlen > LZ4_MAX_INPUT {
            (st, Err(CodecError::PayloadTooLong))
        } else if mode == 1 && vlen > 0 {
            match lz4_section(p, vpos, vlen) {
                None => (st, Err(CodecError::Lz4VramFull(Lz4Error::Other))),
                Some(d) => (if d.len() == 98304 {
                    PpuView { vram: d, ..st }
                } else {
                    st
                }, Ok(())),
            }
        } else if mode == 2 && vlen > 0 {
            match lz4_section(p, vpos, vlen) {
                None => (st, Err(CodecError::Lz4VramDelta(Lz4Error::Other))),
                Some(d) => (if d.len() >= 2 {
                    PpuView { vram: apply_vram_delta(st.vram, d, 2, read16(d, 0) as nat), ..st }
                } else {
                    st
                }, Ok(())),
            }
        } else {
            (st, Ok(()))
        }
    }
}

/// The palette section and what follows it, at byte `pos`.
pub open spec fn ppu_pal_step(st: PpuView, p: Seq<u8>, pos: int) -> (PpuView, Result<(), CodecError>) {
    if pos + 2 > p.len() {
        (st, Err(CodecError::InvalidPalHeader))
    } else {
        let pal_len = read16(p, pos) as int;
        let pos2 = pos + 2;
        if pal_len > 0 {
            if pos2 + pal_len > p.len() {
                (st, Err(CodecError::InvalidPalLen))
            } else {
                match lz4_section(p, pos2, pal_len) {
                    None => (st, Err(CodecError::Lz4Pal(Lz4Error::Other))),
                    Some(d) => ppu_vram_step(
                        if d.len() == 1024 {
                            PpuView { palette: d, ..st }
                        } else {
                            st
                        },
                        p,
                        pos2 + pal_len,
                    ),
                }
            }
        } else {
            ppu_vram_step(st, p, pos2)
        }
    }
}

/// The I/O-register section and what follows it, at byte `pos`.
pub open spec fn ppu_io_step(st: PpuView, p: Seq<u8>, pos: int) -> (PpuView, Result<(), CodecError>) {
    if pos + 2 > p.len() {
        (st, Err(CodecError::InvalidIoHeader))
    } else {
        let io_len = read16(p, pos) as int;
        let pos2 = pos + 2;
        if pos2 + io_len > p.len() {
            (st, Err(CodecError::InvalidIoLen))
        } else {
            match lz4_section(p, pos2, io_len) {
                None => (st, Err(CodecError::Lz4Io(Lz4Error::Other))),
                Some(d) => ppu_pal_step(PpuView { io: copy_prefix(st.io, d), ..st }, p, pos2 + io_len),
            }
        }
    }
}

/// What applying PPU payload `p` does to a decoder in state `st`: its new
/// state and the result. A section that does not decompress to its full
/// size leaves that memory as it was; a section that does not decompress at
/// all, or a header that is cut off, stops the payload there.
pub open spec fn ppu_apply_spec(st: PpuView, p: Seq<u8>) -> (PpuView, Result<(), CodecError>) {
    if p.len() < 10 {
        (st, Err(CodecError::PayloadTooShort))
    } else {
        let oam_len = read16(p, 0) as int;
        if 2 + oam_len > p.len() {
            (st, Err(CodecError::InvalidOamLen))
        } else {
            match lz4_section(p, 2, oam_len) {
                None => (st, Err(CodecError::Lz4Oam(Lz4Error::Other))),
                Some(d) => ppu_io_step(
                    if d.len() == 1024 {
                        PpuView { oam: d, ..st }
                    } else {
                        st
                    },
                    p,
                    2 + oam_len,
                ),
            }
        }
    }
}

/// `r` is the result `s` stands for; for a section that did not decompress
/// only the section is fixed, not the LZ4 reason.
pub open spec fn result_matches(r: Result<(), CodecError>, s: Result<(), CodecError>) -> bool {
    match (r, s) {
        (Ok(()), Ok(())) => true,
        (Err(CodecError::Lz4Oam(_)), Err(CodecError::Lz4Oam(_))) => true,
        (Err(CodecError::Lz4Io(_)), Err(CodecError::Lz4Io(_))) => true,
        (Err(CodecError::Lz4Pal(_)), Err(CodecError::Lz4Pal(_))) => true,
        (Err(CodecError::Lz4VramFull(_)), Err(CodecError::Lz4VramFull(_))) => true,
        (Err(CodecError::Lz4VramDelta(_)), Err(CodecError::Lz4VramDelta(_))) => true,
        (Err(a), Err(b)) => a == b,
        _ => false,
    }
}


/// The VRAM section at `pos` is present and runs past the end of `p`.
pub open spec fn vram_overrun_at(p: Seq<u8>, pos: int) -> bool {
    &&& pos + 5 <= p.len()
    &&& {
        let sec = read32(p, pos) as int;
        let mode = p[pos + 4];
        let vlen = if sec >= 1 {
            sec - 1
        } else {
            0
        };
        (mode == 1 || mode == 2) && vlen > 0 && pos + 5 + vlen > p.len()
    }
}

/// The payload reaches its VRAM section from the palette section at `pos`,
/// and that section runs past the end.
pub open spec fn pal_overrun_at(p: Seq<u8>, pos: int) -> bool {
    &&& pos + 2 <= p.len()
    &&& {
        let pal_len = read16(p, pos) as int;
        let pos2 = pos + 2;
        if pal_len > 0 {
            pos2 + pal_len <= p.len() && lz4_section(p, pos2, pal_len) is Some && vram_overrun_at(
                p,
                pos2 + pal_len,
            )
        } else {
            vram_overrun_at(p, pos2)
        }
    }
}

/// The payload reaches its VRAM section from the I/O section at `pos`, and
/// that section runs past the end.
pub open spec fn io_overrun_at(p: Seq<u8>, pos: int) -> bool {
    &&& pos + 2 <= p.len()
    &&& {
        let io_len = read16(p, pos) as int;
        let pos2 = pos + 2;
        pos2 + io_len <= p.len() && lz4_section(p, pos2, io_len) is Some && pal_overrun_at(
            p,
            pos2 + io_len,
        )
    }
}

/// Applying `p` reaches a VRAM section that runs past the end of `p`.
pub open spec fn ppu_overruns(p: Seq<u8>) -> bool {
    &&& p.len() >= 10
    &&& {
        let oam_len = read16(p, 0) as int;
        2 + oam_len <= p.len() && lz4_section(p, 2, oam_len) is Some && io_overrun_at(
            p,
            2 + oam_len,
        )
    }
}

/// A payload is refused for an overrunning VRAM section exactly when it
/// overruns, whatever the state.
pub proof fn lemma_ppu_overruns(st: PpuView, p: Seq<u8>)
    ensures
        (ppu_apply_spec(st, p).1 == Err::<(), CodecError>(CodecError::VramSectionTruncated))
            == ppu_overruns(p),
{
    lemma_io_overrun(st, p, 2 + read16(p, 0) as int);
    match lz4_section(p, 2, read16(p, 0) as int) {
        Some(d) => {
            lemma_io_overrun(PpuView { oam: d, ..st }, p, 2 + read16(p, 0) as int);
        },
        None => {},
    }
}

proof fn lemma_vram_overrun(st: PpuView, p: Seq<u8>, pos: int)
    ensures
        (ppu_vram_step(st, p, pos).1 == Err::<(), CodecError>(CodecError::VramSectionTruncated))
            == vram_overrun_at(p, pos),
{
}

proof fn lemma_pal_overrun(st: PpuView, p: Seq<u8>, pos: int)
    ensures
        (ppu_pal_step(st, p, pos).1 == Err::<(), CodecError>(CodecError::VramSectionTruncated))
            == pal_overrun_at(p, pos),
{
    let pal_len = read16(p, pos) as int;
    lemma_vram_overrun(st, p, pos + 2);
    lemma_vram_overrun(st, p, pos + 2 + pal_len);
    match lz4_section(p, pos + 2, pal_len) {
        Some(d) => {
            lemma_vram_overrun(PpuView { palette: d, ..st }, p, pos + 2 + pal_len);
        },
        None => {},
    }
}

proof fn lemma_io_overrun(st: PpuView, p: Seq<u8>, pos: int)
    ensures
        (ppu_io_step(st, p, pos).1 == Err::<(), CodecError>(CodecError::VramSectionTruncated))
            == io_overrun_at(p, pos),
{
    let io_len = read16(p, pos) as int;
    match lz4_section(p, pos + 2, io_len) {
        Some(d) => {
            lemma_pal_overrun(PpuView { io: copy_prefix(st.io, d), ..st }, p, pos + 2 + io_len);
        },
        None => {},
    }
}

/// Whether applying `p` would reach a VRAM section that runs past its end.
pub fn ppu_payload_overruns(p: &[u8]) -> (r: bool)
    ensures
        r == ppu_overruns(p@),
{
    if p.len() < 10 {
        return false;
    }
    let oam_len = get16(p, 0) as usize;
    if p.len() - 2 < oam_len {
        return false;
    }
    if decompress_size_prepended(&p[2..2 + oam_len]).is_err() {
        return false;
    }
    let pos = 2 + oam_len;
    if p.len() - pos < 2 {
        return false;
    }
    let io_len = get16(p, pos) as usize;
    let pos2 = pos + 2;
    if p.len() - pos2 < io_len {
        return false;
    }
    if decompress_size_prepended(&p[pos2..pos2 + io_len]).is_err() {
        return false;
    }
    let pos3 = pos2 + io_len;
    if p.len() - pos3 < 2 {
        return false;
    }
    let pal_len = get16(p, pos3) as usize;
    let pos4 = pos3 + 2;
    let vram_pos: usize;
    if pal_len > 0 {
        if p.len() - pos4 < pal_len {
            return false;
        }
        if decompress_size_prepended(&p[pos4..pos4 + pal_len]).is_err() {
            return false;
        }
        vram_pos = pos4 + pal_len;
    } else {
        vram_pos = pos4;
    }
    if p.len() - vram_pos < 5 {
        return false;
    }
    let sec = get32(p, vram_pos) as usize;
    let mode = p[vram_pos + 4];
    let vlen: usize = if sec >= 1 { sec - 1 } else { 0 };
    (mode == 1 || mode == 2) && vlen > 0 && p.len() - (vram_pos + 5) < vlen
}

/// Copies `n` bytes of `src` from `src_start` into `dst` at `dst_start`.
fn copy_into<const N: usize>(dst: &mut [u8; N], src: &[u8], src_start: usize, dst_start: usize, n: usize)
    requires
        dst_start + n <= N,
        src_start + n <= src.len(),
    ensures
        final(dst)@ == old(dst)@.subrange(0, dst_start as int) + src@.subrange(
            src_start as int,
            src_start + n,
        ) + old(dst)@.subrange(dst_start + n, N as int),
{
    let mut i: usize = 0;
    while i < n
        invariant
            i <= n,
            dst_start + n <= N,
            src_start + n <= src.len(),
            dst@.len() == N,
            dst@ == old(dst)@.subrange(0, dst_start as int) + src@.subrange(
                src_start as int,
                src_start + i,
            ) + old(dst)@.subrange(dst_start + i, N as int),
        decreases n - i,
    {
        dst[dst_start + i] = src[src_start + i];
        i = i + 1;
        assert(dst@ =~= old(dst)@.subrange(0, dst_start as int) + src@.subrange(
            src_start as int,
            src_start + i,
        ) + old(dst)@.subrange(dst_start + i, N as int));
    }
}

/// The client's copy of the GBA's PPU state.
pub struct PpuState {
    pub oam: [u8; 1024],
    pub io: [u8; 128],
    pub palette: [u8; 1024],
    pub vram: [u8; 98304],
}

impl PpuState {
    /// The decoder's state.
    pub open spec fn view(&self) -> PpuView {
        PpuView { oam: self.oam@, io: self.io@, palette: self.palette@, vram: self.vram@ }
    }

    /// A state with all memories zero.
    pub fn new() -> (s: Self)
        ensures
            s.view() == (PpuView {
                oam: Seq::new(1024, |i: int| 0u8),
                io: Seq::new(128, |i: int| 0u8),
                palette: Seq::new(1024, |i: int| 0u8),
                vram: Seq::new(98304, |i: int| 0u8),
            }),
    {
        let s = PpuState { oam: [0u8; 1024], io: [0u8; 128], palette: [0u8; 1024], vram: [0u8; 98304] };
        assert(s.view().oam =~= Seq::new(1024, |i: int| 0u8));
        assert(s.view().io =~= Seq::new(128, |i: int| 0u8));
        assert(s.view().palette =~= Seq::new(1024, |i: int| 0u8));
        assert(s.view().vram =~= Seq::new(98304, |i: int| 0u8));
        s
    }

    /// Applies the VRAM section at byte `pos`.
    fn apply_vram(&mut self, p: &[u8], pos: usize) -> (r: Result<(), CodecError>)
        requires
            pos <= p.len(),
        ensures
            final(self).view() == ppu_vram_step(old(self).view(), p@, pos as int).0,
            result_matches(r, ppu_vram_step(old(self).view(), p@, pos as int).1),
    {
        if p.len() - pos < 5 {
            return Err(CodecError::InvalidVramHeader);
        }
        let sec = get32(p, pos) as usize;
        let mode = p[pos + 4];
        let vpos = pos + 5;
        let vlen: usize = if sec >= 1 { sec - 1 } else { 0 };
        if (mode == 1 || mode == 2) && vlen > 0 && p.len() - vpos < vlen {
            return Err(CodecError::VramSectionTruncated);
        }
        if (mode == 1 || mode == 2) && vlen > LZ4_MAX_INPUT {
            return Err(CodecError::PayloadTooLong);
        }
        if mode == 1 && vlen > 0 {
            let d = match decompress_size_prepended(&p[vpos..vpos + vlen]) {
                Ok(d) => d,
                Err(e) => {
                    return Err(CodecError::Lz4VramFull(e));
                },
            };
            if d.len() == 98304 {
                copy_into(&mut self.vram, d.as_slice(), 0, 0, 98304);
                assert(self.vram@ =~= d@);
            }
        } else if mode == 2 && vlen > 0 {
            let d = match decompress_size_prepended(&p[vpos..vpos + vlen]) {
                Ok(d) => d,
                Err(e) => {
                    return Err(CodecError::Lz4VramDelta(e));
                },
            };
            if d.len() >= 2 {
                let count = get16(d.as_slice(), 0) as usize;
                let ghost target = apply_vram_delta(self.vram@, d@, 2, count as nat);
                let mut d_pos: usize = 2;
                let mut k: usize = 0;
                while k < count && d_pos <= d.len() && d.len() - d_pos >= 130
                    invariant
                        k <= count,
                        2 <= d_pos <= d@.len() + 130,
                        apply_vram_delta(self.vram@, d@, d_pos as int, (count - k) as nat) == target,
                        self.vram@.len() == 98304,
                        self.oam == old(self).oam,
                        self.io == old(self).io,
                        self.palette == old(self).palette,
                    decreases count - k,
                {
                    let b = get16(d.as_slice(), d_pos) as usize;
                    let start = b * 128;
                    if start + 128 <= 98304 {
                        copy_into(&mut self.vram, d.as_slice(), d_pos + 2, start, 128);
                    }
                    d_pos = d_pos + 130;
                    k = k + 1;
                }
                assert(self.vram@ == target);
            }
        }
        Ok(())
    }

    /// Applies the palette section at byte `pos` and what follows it.
    fn apply_pal(&mut self, p: &[u8], pos: usize) -> (r: Result<(), CodecError>)
        requires
            pos <= p.len(),
        ensures
            final(self).view() == ppu_pal_step(old(self).view(), p@, pos as int).0,
            result_matches(r, ppu_pal_step(old(self).view(), p@, pos as int).1),
    {
        if p.len() - pos < 2 {
            return Err(CodecError::InvalidPalHeader);
        }
        let pal_len = get16(p, pos) as usize;
        let pos2 = pos + 2;
        if pal_len > 0 {
            if p.len() - pos2 < pal_len {
                return Err(CodecError::InvalidPalLen);
            }
            let d = match decompress_size_prepended(&p[pos2..pos2 + pal_len]) {
                Ok(d) => d,
                Err(e) => {
                    return Err(CodecError::Lz4Pal(e));
                },
            };
            if d.len() == 1024 {
                copy_into(&mut self.palette, d.as_slice(), 0, 0, 1024);
                assert(self.palette@ =~= d@);
            }
            self.apply_vram(p, pos2 + pal_len)
        } else {
            self.apply_vram(p, pos2)
        }
    }

    /// Applies the I/O-register section at byte `pos` and what follows it.
    fn apply_io(&mut self, p: &[u8], pos: usize) -> (r: Result<(), CodecError>)
        requires
            pos <= p.len(),
        ensures
            final(self).view() == ppu_io_step(old(self).view(), p@, pos as int).0,
            result_matches(r, ppu_io_step(old(self).view(), p@, pos as int).1),
    {
        if p.len() - pos < 2 {
            return Err(CodecError::InvalidIoHeader);
        }
        let io_len = get16(p, pos) as usize;
        let pos2 = pos + 2;
        if p.len() - pos2 < io_len {
            return Err(CodecError::InvalidIoLen);
        }
        let d = match decompress_size_prepended(&p[pos2..pos2 + io_len]) {
            Ok(d) => d,
            Err(e) => {
                return Err(CodecError::Lz4Io(e));
            },
        };
        let copy_len: usize = if d.len() < 128 { d.len() } else { 128 };
        copy_into(&mut self.io, d.as_slice(), 0, 0, copy_len);
        assert(self.io@ =~= copy_prefix(old(self).io@, d@));
        self.apply_pal(p, pos2 + io_len)
    }

    /// Applies a PPU payload; the payload must not name a VRAM section that
    /// runs past its end (see `try_apply_payload`).
    pub fn apply_payload(&mut self, payload: &[u8]) -> (r: Result<(), CodecError>)
        requires
            ppu_apply_spec(old(self).view(), payload@).1 != Err::<(), CodecError>(
                CodecError::VramSectionTruncated,
            ),
        ensures
            final(self).view() == ppu_apply_spec(old(self).view(), payload@).0,
            result_matches(r, ppu_apply_spec(old(self).view(), payload@).1),
    {
        if payload.len() < 10 {
            return Err(CodecError::PayloadTooShort);
        }
        let oam_len = get16(payload, 0) as usize;
        if payload.len() - 2 < oam_len {
            return Err(CodecError::InvalidOamLen);
        }
        let d = match decompress_size_prepended(&payload[2..2 + oam_len]) {
            Ok(d) => d,
            Err(e) => {
                return Err(CodecError::Lz4Oam(e));
            },
        };
        if d.len() == 1024 {
            copy_into(&mut self.oam, d.as_slice(), 0, 0, 1024);
            assert(self.oam@ =~= d@);
        }
        self.apply_io(payload, 2 + oam_len)
    }

    /// Applies a PPU payload; one whose VRAM section runs past its end is
    /// refused with `VramSectionTruncated` and leaves the state as it was.
    pub fn try_apply_payload(&mut self, payload: &[u8]) -> (r: Result<(), CodecError>)
        ensures
            ppu_overruns(payload@) ==> r == Err::<(), CodecError>(CodecError::VramSectionTruncated)
                && final(self).view() == old(self).view(),
            !ppu_overruns(payload@) ==> final(self).view() == ppu_apply_spec(
                old(self).view(),
                payload@,
            ).0 && result_matches(r, ppu_apply_spec(old(self).view(), payload@).1),
    {
        if ppu_payload_overruns(payload) {
            return Err(CodecError::VramSectionTruncated);
        }
        proof {
            lemma_ppu_overruns(self.view(), payload@);
        }
        self.apply_payload(payload)
    }
}

} // verus!
