//! Tile-mask frames of 32-bit pixels, with the flag as the payload's first
//! byte: a keyframe of every pixel (1), an unchanged frame (2), or a mask of
//! the 8x8 tiles that changed followed by those tiles' pixels (0).

use vstd::prelude::*;
use crate::frame::{pix, block_of, inner_of, tile_of, lemma_pix, lemma_block_of, BLOCK_PIXELS};
use crate::le::{le32_seq, read32, read32_seq, push32_all, get32, lemma_read32_at};
use crate::lz4::{LZ4_MAX_INPUT, lz4_compressed, lz4_decompressed, lz4_roundtrips, compress_prepend_size, decompress_size_prepended};
use crate::error::CodecError;
use crate::delta16::{
    tile_changed, mask_bit, mask_of_changes, set_count, delta_fits, delta_written, DELTA_MASK_LEN,
    lemma_set_bit, lemma_zero_bits, lemma_set_count_step, lemma_set_count_mono, delta_fits_exec,
};

verus! {

/// The little-endian pixels of the changed tiles among the first `n`, in
/// tile order.
pub open spec fn changed_pixels32(c: Seq<u32>, p: Seq<u32>, n: nat) -> Seq<u8>
    decreases n,
{
    if n == 0 {
        Seq::empty()
    } else {
        changed_pixels32(c, p, (n - 1) as nat) + if tile_changed(c, p, n - 1) {
            le32_seq(tile_of(c, n - 1))
        } else {
            Seq::empty()
        }
    }
}

/// `out` is how the encoder sends `c` after `p`: flag 1 and the compressed
/// pixels when asked for a keyframe or when there is no previous frame;
/// flag 2 alone when no tile changed; else flag 0, the mask and the
/// compressed pixels of the changed tiles.
pub open spec fn delta32_encodes(c: Seq<u32>, p: Seq<u32>, key: bool, out: Seq<u8>) -> bool {
    if key || p.len() == 0 {
        out == seq![1u8] + lz4_compressed(le32_seq(c))
    } else if forall|b: int| 0 <= b < 600 ==> !#[trigger] tile_changed(c, p, b) {
        out == seq![2u8]
    } else {
        &&& out.len() >= 76
        &&& out[0] == 0
        &&& mask_of_changes(out.subrange(1, 76), c, p)
        &&& out.skip(76) == lz4_compressed(changed_pixels32(c, p, 600))
    }
}

/// The pixels that `d` holds: its consecutive little-endian groups of four.
pub open spec fn src32(d: Seq<u8>) -> Seq<u32> {
    read32_seq(d, d.len() / 4)
}

/// The buffer after `delta` is decoded onto `old`, or nothing where it is
/// refused: an empty delta or an unknown flag leave the buffer as it is.
pub open spec fn delta32_decoded(delta: Seq<u8>, old: Seq<u32>) -> Option<Seq<u32>> {
    if delta.len() == 0 {
        Some(old)
    } else if delta[0] == 1 {
        match lz4_decompressed(delta.skip(1)) {
            Some(d) => if d.len() / 4 == old.len() {
                Some(src32(d))
            } else {
                None
            },
            None => None,
        }
    } else if delta[0] == 0 {
        let m = delta.subrange(1, 76);
        match lz4_decompressed(delta.skip(76)) {
            Some(d) => if delta_fits(m, (d.len() / 4) as int, old.len() as int) {
                Some(delta_written(m, src32(d), old, 600))
            } else {
                None
            },
            None => None,
        }
    } else {
        Some(old)
    }
}

fn tile_at32(frame: &[u32], b: usize) -> (t: Vec<u32>)
    requires
        frame@.len() >= 38400,
        b < 600,
    ensures
        t@ == tile_of(frame@, b as int),
{
    let mut t: Vec<u32> = Vec::new();
    let mut i: usize = 0;
    while i < BLOCK_PIXELS
        invariant
            i <= 64,
            b < 600,
            frame@.len() >= 38400,
            t@ == Seq::new(i as nat, |j: int| frame@[pix(b as int, j)]),
        decreases 64 - i,
    {
        proof {
            lemma_pix(b as int, i as int);
        }
        let p = ((b / 30) * 8 + i / 8) * 240 + (b % 30) * 8 + i % 8;
        t.push(frame[p]);
        i = i + 1;
        assert(t@ =~= Seq::new(i as nat, |j: int| frame@[pix(b as int, j)]));
    }
    t
}

fn tile_unchanged32(frame: &[u32], prev: &[u32], b: usize) -> (r: bool)
    requires
        frame@.len() >= 38400,
        prev@.len() >= 38400,
        b < 600,
    ensures
        r == (tile_of(frame@, b as int) == tile_of(prev@, b as int)),
{
    let mut i: usize = 0;
    while i < BLOCK_PIXELS
        invariant
            i <= 64,
            b < 600,
            frame@.len() >= 38400,
            prev@.len() >= 38400,
            forall|j: int| 0 <= j < i ==> #[trigger] frame@[pix(b as int, j)] == prev@[pix(
                b as int,
                j,
            )],
        decreases 64 - i,
    {
        proof {
            lemma_pix(b as int, i as int);
        }
        let p = ((b / 30) * 8 + i / 8) * 240 + (b % 30) * 8 + i % 8;
        if frame[p] != prev[p] {
            assert(tile_of(frame@, b as int)[i as int] != tile_of(prev@, b as int)[i as int]);
            return false;
        }
        i = i + 1;
    }
    assert(tile_of(frame@, b as int) =~= tile_of(prev@, b as int));
    true
}

fn append_bytes(out: &mut Vec<u8>, src: &[u8])
    ensures
        final(out)@ == old(out)@ + src@,
{
    let ghost start = out@;
    let mut k: usize = 0;
    while k < src.len()
        invariant
            k <= src@.len(),
            out@ == start + src@.take(k as int),
        decreases src@.len() - k,
    {
        out.push(src[k]);
        k = k + 1;
        assert(out@ =~= start + src@.take(k as int));
    }
    assert(src@.take(k as int) =~= src@);
}

/// Encodes `curr` against `prev` as a keyframe, an unchanged frame or a
/// tile-mask frame, the flag first.
pub fn compress_delta(curr: &[u32], prev: &[u32], is_keyframe: bool) -> (out: Vec<u8>)
    requires
        !(is_keyframe || prev@.len() == 0) ==> curr@.len() >= 38400 && prev@.len() >= 38400,
    ensures
        delta32_encodes(curr@, prev@, is_keyframe, out@),
{
    if is_keyframe || prev.len() == 0 {
        let mut bytes: Vec<u8> = Vec::new();
        push32_all(&mut bytes, curr);
        assert(bytes@ =~= le32_seq(curr@));
        let comp = compress_prepend_size(bytes.as_slice());
        let mut out: Vec<u8> = Vec::new();
        out.push(1);
        append_bytes(&mut out, comp.as_slice());
        assert(out@ =~= seq![1u8] + comp@);
        return out;
    }
    let mut bitmask: Vec<u8> = Vec::new();
    let mut j: usize = 0;
    while j < DELTA_MASK_LEN
        invariant
            j <= 75,
            bitmask@ == Seq::new(j as nat, |x: int| 0u8),
        decreases 75 - j,
    {
        bitmask.push(0);
        j = j + 1;
        assert(bitmask@ =~= Seq::new(j as nat, |x: int| 0u8));
    }
    assert forall|x: int| 0 <= x < 600 implies !#[trigger] mask_bit(bitmask@, x) by {
        lemma_zero_bits((x % 8) as u8);
    }
    let mut changed: Vec<u8> = Vec::new();
    let mut any_changed = false;
    let mut b: usize = 0;
    while b < 600
        invariant
            b <= 600,
            curr@.len() >= 38400,
            prev@.len() >= 38400,
            bitmask@.len() == 75,
            forall|x: int| 0 <= x < b ==> (#[trigger] mask_bit(bitmask@, x) <==> tile_changed(curr@, prev@, x)),
            forall|x: int| b <= x < 600 ==> !#[trigger] mask_bit(bitmask@, x),
            changed@ == changed_pixels32(curr@, prev@, b as nat),
            any_changed <==> exists|x: int| 0 <= x < b && #[trigger] tile_changed(curr@, prev@, x),
        decreases 600 - b,
    {
        let ghost before = bitmask@;
        if !tile_unchanged32(curr, prev, b) {
            let byte = b / 8;
            let bit = (b % 8) as u8;
            let old_byte = bitmask[byte];
            bitmask.set(byte, old_byte | (1u8 << bit));
            assert forall|x: int| 0 <= x < 600 implies (#[trigger] mask_bit(bitmask@, x) <==> (x == b || mask_bit(before, x))) by {
                lemma_set_bit(old_byte, bit, (x % 8) as u8);
                if x / 8 == byte as int {
                    assert((x == b) <==> (x % 8 == b % 8));
                }
            }
            let t = tile_at32(curr, b);
            push32_all(&mut changed, t.as_slice());
            any_changed = true;
        }
        b = b + 1;
        assert(changed@ =~= changed_pixels32(curr@, prev@, b as nat));
    }
    if !any_changed {
        let mut out: Vec<u8> = Vec::new();
        out.push(2);
        assert(out@ =~= seq![2u8]);
        return out;
    }
    let compressed = compress_prepend_size(changed.as_slice());
    let mut out: Vec<u8> = Vec::new();
    out.push(0);
    append_bytes(&mut out, bitmask.as_slice());
    append_bytes(&mut out, compressed.as_slice());
    assert(out@.subrange(1, 76) =~= bitmask@);
    assert(out@.skip(76) =~= compressed@);
    out
}

/// Applies a decoded frame whose compressed part decompressed to `d`, with
/// flag 1 (keyframe) or 0 (mask `m`).
fn apply_delta_32(flag: u8, m: &[u8], d: &[u8], frame_buffer: &mut [u32])
    requires
        flag == 0 || flag == 1,
        flag == 0 ==> m@.len() == 75,
        flag == 1 ==> d@.len() / 4 == old(frame_buffer)@.len(),
        flag == 0 ==> delta_fits(m@, (d@.len() / 4) as int, old(frame_buffer)@.len() as int),
    ensures
        flag == 1 ==> final(frame_buffer)@ == src32(d@),
        flag == 0 ==> final(frame_buffer)@ == delta_written(m@, src32(d@), old(frame_buffer)@, 600),
{
    let ghost old_buf = frame_buffer@;
    let dlen = d.len();
    if flag == 1 {
        let n = d.len() / 4;
        let mut k: usize = 0;
        while k < n
            invariant
                k <= n,
                dlen == d@.len(),
                n == d@.len() / 4,
                n == frame_buffer@.len(),
                old_buf.len() == n,
                frame_buffer@ == read32_seq(d@, k as nat) + old_buf.skip(k as int),
            decreases n - k,
        {
            let v = get32(d, 4 * k);
            frame_buffer[k] = v;
            k = k + 1;
            assert(frame_buffer@ =~= read32_seq(d@, k as nat) + old_buf.skip(k as int));
        }
        assert(frame_buffer@ =~= src32(d@));
    } else {
        let ghost src = src32(d@);
        let mut read_idx: usize = 0;
        let mut b: usize = 0;
        while b < 600
            invariant
                b <= 600,
                m@.len() == 75,
                dlen == d@.len(),
                old_buf.len() == frame_buffer@.len(),
                delta_fits(m@, (d@.len() / 4) as int, old_buf.len() as int),
                src == src32(d@),
                read_idx == 64 * set_count(m@, b as nat),
                frame_buffer@ == delta_written(m@, src, old_buf, b as int),
            decreases 600 - b,
        {
            proof {
                lemma_set_count_step(m@, b as nat);
                lemma_set_count_mono(m@, (b + 1) as nat, 600);
            }
            if m[b / 8] & (1u8 << ((b % 8) as u8)) != 0 {
                assert(mask_bit(m@, b as int));
                let mut i: usize = 0;
                while i < 64
                    invariant
                        i <= 64,
                        b < 600,
                        dlen == d@.len(),
                        mask_bit(m@, b as int),
                        old_buf.len() == frame_buffer@.len(),
                        delta_fits(m@, (d@.len() / 4) as int, old_buf.len() as int),
                        src == src32(d@),
                        read_idx == 64 * set_count(m@, b as nat),
                        read_idx + 64 <= d@.len() / 4,
                        frame_buffer@ == Seq::new(
                            old_buf.len(),
                            |q: int|
                                if q < 38400 && block_of(q) == b && inner_of(q) < i {
                                    src[read_idx + inner_of(q)]
                                } else {
                                    delta_written(m@, src, old_buf, b as int)[q]
                                },
                        ),
                    decreases 64 - i,
                {
                    proof {
                        lemma_pix(b as int, i as int);
                    }
                    assert(pix(b as int, i as int) < old_buf.len());
                    let q = ((b / 30) * 8 + i / 8) * 240 + (b % 30) * 8 + i % 8;
                    let v = get32(d, 4 * (read_idx + i));
                    assert(v == src[read_idx + i]);
                    frame_buffer[q] = v;
                    i = i + 1;
                    assert forall|x: int| 0 <= x < old_buf.len() implies #[trigger] frame_buffer@[x] == (
                    if x < 38400 && block_of(x) == b && inner_of(x) < i {
                        src[read_idx + inner_of(x)]
                    } else {
                        delta_written(m@, src, old_buf, b as int)[x]
                    }) by {
                        if x < 38400 {
                            lemma_block_of(x);
                        }
                    }
                    assert(frame_buffer@ =~= Seq::new(
                        old_buf.len(),
                        |q: int|
                            if q < 38400 && block_of(q) == b && inner_of(q) < i {
                                src[read_idx + inner_of(q)]
                            } else {
                                delta_written(m@, src, old_buf, b as int)[q]
                            },
                    ));
                }
                read_idx = read_idx + 64;
            }
            b = b + 1;
            assert forall|x: int| 0 <= x < old_buf.len() implies #[trigger] frame_buffer@[x]
                == delta_written(m@, src, old_buf, b as int)[x] by {
                if x < 38400 {
                    lemma_block_of(x);
                }
            }
            assert(frame_buffer@ =~= delta_written(m@, src, old_buf, b as int));
        }
    }
}

/// A delta whose compressed part the LZ4 layer would not accept for length.
pub open spec fn delta32_too_long(delta: Seq<u8>) -> bool {
    &&& delta.len() > 0
    &&& delta[0] == 0 || delta[0] == 1
    &&& delta.skip(if delta[0] == 0 { 76 } else { 1 }).len() > LZ4_MAX_INPUT
}

/// Decodes `delta` onto `prev`. Where the compressed part is longer than
/// `LZ4_MAX_INPUT` or does not decompress, or its pixels
/// do not fit the mask or the buffer, the buffer is left as it was and the
/// error says which.
pub fn decompress_delta(delta: &[u8], prev: &mut [u32]) -> (r: Result<(), CodecError>)
    requires
        delta@.len() > 0 && delta@[0] == 0 ==> delta@.len() >= 76,
    ensures
        r is Err ==> final(prev)@ == old(prev)@,
        delta32_too_long(delta@) ==> r == Err::<(), CodecError>(CodecError::PayloadTooLong),
        !delta32_too_long(delta@) ==> {
            &&& (r is Ok <==> delta32_decoded(delta@, old(prev)@) is Some)
            &&& (r is Ok ==> final(prev)@ == delta32_decoded(delta@, old(prev)@)->0)
            &&& (delta@.len() > 0 && (delta@[0] == 0 || delta@[0] == 1) && lz4_decompressed(
                delta@.skip(if delta@[0] == 0 { 76 } else { 1 }),
            ) is None ==> r matches Err(CodecError::Lz4(_)))
            &&& (delta@.len() > 0 && (delta@[0] == 0 || delta@[0] == 1) && lz4_decompressed(
                delta@.skip(if delta@[0] == 0 { 76 } else { 1 }),
            ) is Some && r is Err ==> r == Err::<(), CodecError>(CodecError::DeltaSizeMismatch))
        },
{
    if delta.len() == 0 {
        return Ok(());
    }
    let flag = delta[0];
    if flag != 0 && flag != 1 {
        return Ok(());
    }
    let start: usize = if flag == 0 { 76 } else { 1 };
    let input = &delta[start..delta.len()];
    assert(input@ == delta@.skip(start as int));
    if input.len() > LZ4_MAX_INPUT {
        return Err(CodecError::PayloadTooLong);
    }
    let d = match decompress_size_prepended(input) {
        Ok(d) => d,
        Err(e) => {
            return Err(CodecError::Lz4(e));
        },
    };
    if flag == 1 {
        if d.len() / 4 != prev.len() {
            return Err(CodecError::DeltaSizeMismatch);
        }
        apply_delta_32(1, &delta[0..0], d.as_slice(), prev);
        Ok(())
    } else {
        let m = &delta[1..76];
        if !delta_fits_exec(m, d.len() / 4, prev.len()) {
            return Err(CodecError::DeltaSizeMismatch);
        }
        apply_delta_32(0, m, d.as_slice(), prev);
        Ok(())
    }
}

proof fn lemma_changed_pixels32_len(c: Seq<u32>, p: Seq<u32>, m: Seq<u8>, n: nat)
    requires
        n <= 600,
        forall|b: int| 0 <= b < 600 ==> (#[trigger] mask_bit(m, b) <==> tile_changed(c, p, b)),
    ensures
        changed_pixels32(c, p, n).len() == 256 * set_count(m, n),
        set_count(m, n) <= n,
    decreases n,
{
    if n > 0 {
        lemma_changed_pixels32_len(c, p, m, (n - 1) as nat);
        assert(mask_bit(m, n - 1) <==> tile_changed(c, p, n - 1));
    }
}

proof fn lemma_changed_pixels32_at(c: Seq<u32>, p: Seq<u32>, m: Seq<u8>, n: nat, b: int, i: int)
    requires
        n <= 600,
        0 <= b < n,
        0 <= i < 64,
        mask_bit(m, b),
        forall|x: int| 0 <= x < 600 ==> (#[trigger] mask_bit(m, x) <==> tile_changed(c, p, x)),
    ensures
        read32(changed_pixels32(c, p, n), 4 * (64 * set_count(m, b as nat) + i)) == c[pix(b, i)],
    decreases n,
{
    let prev = changed_pixels32(c, p, (n - 1) as nat);
    lemma_changed_pixels32_len(c, p, m, (n - 1) as nat);
    lemma_changed_pixels32_len(c, p, m, b as nat);
    assert(tile_changed(c, p, b));
    if b == n - 1 {
        let t = tile_of(c, b);
        assert(changed_pixels32(c, p, n) =~= prev + le32_seq(t) + Seq::<u8>::empty());
        lemma_read32_at(prev, t, Seq::<u8>::empty(), i);
    } else {
        lemma_changed_pixels32_at(c, p, m, (n - 1) as nat, b, i);
        lemma_set_count_step(m, b as nat);
        lemma_set_count_mono(m, (b + 1) as nat, (n - 1) as nat);
        let k = 4 * (64 * set_count(m, b as nat) + i);
        assert(k + 3 < prev.len());
        assert(changed_pixels32(c, p, n)[k] == prev[k]);
        assert(changed_pixels32(c, p, n)[k + 1] == prev[k + 1]);
        assert(changed_pixels32(c, p, n)[k + 2] == prev[k + 2]);
        assert(changed_pixels32(c, p, n)[k + 3] == prev[k + 3]);
    }
}

/// Decoding what the encoder sends for `c` gives `c` back: a keyframe onto
/// any buffer of one screen, an unchanged or tile-mask frame onto the
/// previous frame.
pub proof fn lemma_delta32_roundtrip(c: Seq<u32>, p: Seq<u32>, key: bool, client: Seq<u32>, out: Seq<u8>)
    requires
        (key || p.len() == 0) ==> lz4_roundtrips(le32_seq(c)),
        !(key || p.len() == 0) ==> lz4_roundtrips(changed_pixels32(c, p, 600)),
        c.len() == 38400,
        p.len() == 0 || p.len() == 38400,
        client.len() == 38400,
        !(key || p.len() == 0) ==> client == p,
        delta32_encodes(c, p, key, out),
    ensures
        delta32_decoded(out, client) == Some(c),
{
    if key || p.len() == 0 {
        let d = le32_seq(c);
        assert(out.skip(1) =~= lz4_compressed(d));
        assert(lz4_decompressed(lz4_compressed(d)) == Some(d));
        assert forall|k: int| 0 <= k < c.len() implies #[trigger] src32(d)[k] == c[k] by {
            lemma_read32_at(Seq::<u8>::empty(), c, Seq::<u8>::empty(), k);
            assert(Seq::<u8>::empty() + d + Seq::<u8>::empty() =~= d);
        }
        assert(src32(d) =~= c);
    } else if forall|b: int| 0 <= b < 600 ==> !#[trigger] tile_changed(c, p, b) {
        assert forall|q: int| 0 <= q < 38400 implies c[q] == p[q] by {
            lemma_block_of(q);
            let b = block_of(q);
            let i = inner_of(q);
            assert(!tile_changed(c, p, b));
            assert(tile_of(c, b)[i] == tile_of(p, b)[i]);
        }
        assert(c =~= p);
    } else {
        let m = out.subrange(1, 76);
        let d = changed_pixels32(c, p, 600);
        lemma_changed_pixels32_len(c, p, m, 600);
        assert(lz4_decompressed(lz4_compressed(d)) == Some(d));
        let src = src32(d);
        assert forall|b: int, i: int|
            0 <= b < 600 && 0 <= i < 64 && #[trigger] mask_bit(m, b) implies #[trigger] pix(b, i)
            < 38400 by {
            lemma_pix(b, i);
        }
        assert(delta_fits(m, (d.len() / 4) as int, 38400));
        let w = delta_written(m, src, client, 600);
        assert forall|q: int| 0 <= q < 38400 implies w[q] == c[q] by {
            lemma_block_of(q);
            let b = block_of(q);
            let i = inner_of(q);
            if mask_bit(m, b) {
                lemma_changed_pixels32_at(c, p, m, 600, b, i);
                lemma_set_count_step(m, b as nat);
                lemma_set_count_mono(m, (b + 1) as nat, 600);
                assert(64 * set_count(m, b as nat) + i < d.len() / 4);
            } else {
                assert(!tile_changed(c, p, b));
                assert(tile_of(c, b)[i] == tile_of(p, b)[i]);
            }
        }
        assert(w =~= c);
    }
}

} // verus!
