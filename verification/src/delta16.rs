//! Tile-mask frames of 16-bit pixels: a keyframe of every pixel, or a mask
//! of the 8x8 tiles that changed since the previous frame followed by the
//! pixels of those tiles.

use vstd::prelude::*;
use crate::frame::{pix, block_of, inner_of, tile_of, lemma_pix, lemma_block_of, rgba_of, rgb555_to_rgba};
use crate::le::{le16_seq, read16, read16_seq, push16_all, get16, lemma_read16_at, lemma_read16_seq_of_le16_seq};
use crate::lz4::{LZ4_MAX_INPUT, lz4_compressed, lz4_decompressed, lz4_roundtrips, compress_prepend_size, decompress_size_prepended};
use crate::error::CodecError;
use crate::palette_encoder::{tile_at, tile_unchanged};

verus! {

/// Bytes of the tile mask: one bit for each of the 600 tiles.
pub const DELTA_MASK_LEN: usize = 75;

/// Tile `b` differs between the two frames.
pub open spec fn tile_changed<T>(c: Seq<T>, p: Seq<T>, b: int) -> bool {
    tile_of(c, b) != tile_of(p, b)
}

/// Bit `b % 8` of byte `b / 8` of the mask is set.
pub open spec fn mask_bit(m: Seq<u8>, b: int) -> bool {
    m[b / 8] & (1u8 << ((b % 8) as u8)) != 0
}

/// `m` is the 75-byte mask whose bit for each tile says whether it changed.
pub open spec fn mask_of_changes<T>(m: Seq<u8>, c: Seq<T>, p: Seq<T>) -> bool {
    &&& m.len() == 75
    &&& forall|b: int| 0 <= b < 600 ==> (#[trigger] mask_bit(m, b) <==> tile_changed(c, p, b))
}

/// The little-endian pixels of the changed tiles among the first `n`, in
/// tile order.
pub open spec fn changed_pixels(c: Seq<u16>, p: Seq<u16>, n: nat) -> Seq<u8>
    decreases n,
{
    if n == 0 {
        Seq::empty()
    } else {
        changed_pixels(c, p, (n - 1) as nat) + if tile_changed(c, p, n - 1) {
            le16_seq(tile_of(c, n - 1))
        } else {
            Seq::empty()
        }
    }
}

/// `(flag, payload)` is how the encoder sends `c` after `p`: a keyframe
/// (flag 1) of all pixels when asked for one or when there is no previous
/// frame; else flag 2 with no bytes when no tile changed; else flag 0, the
/// mask and the compressed pixels of the changed tiles.
pub open spec fn delta16_encodes(c: Seq<u16>, p: Seq<u16>, key: bool, flag: u8, payload: Seq<u8>) -> bool {
    if key || p.len() == 0 {
        flag == 1 && payload == lz4_compressed(le16_seq(c))
    } else if forall|b: int| 0 <= b < 600 ==> !#[trigger] tile_changed(c, p, b) {
        flag == 2 && payload.len() == 0
    } else {
        &&& flag == 0
        &&& payload.len() >= 75
        &&& mask_of_changes(payload.take(75), c, p)
        &&& payload.skip(75) == lz4_compressed(changed_pixels(c, p, 600))
    }
}

pub(crate) proof fn lemma_set_bit(m: u8, k: u8, k2: u8)
    requires
        k < 8,
        k2 < 8,
    ensures
        ((m | (1u8 << k)) & (1u8 << k2) != 0) == (k2 == k || m & (1u8 << k2) != 0),
{
    assert(k < 8 && k2 < 8 ==> (((m | (1u8 << k)) & (1u8 << k2) != 0) == (k2 == k || m & (1u8
        << k2) != 0))) by (bit_vector);
}

pub(crate) proof fn lemma_zero_bits(k: u8)
    requires
        k < 8,
    ensures
        0u8 & (1u8 << k) == 0,
{
    assert(0u8 & (1u8 << k) == 0) by (bit_vector);
}

/// Encodes `curr` against `prev` as a keyframe, an unchanged frame or a
/// tile-mask frame.
pub fn compress_delta_16(curr: &[u16], prev: &[u16], is_keyframe: bool) -> (r: (u8, Vec<u8>))
    requires
        !(is_keyframe || prev@.len() == 0) ==> curr@.len() >= 38400 && prev@.len() >= 38400,
    ensures
        delta16_encodes(curr@, prev@, is_keyframe, r.0, r.1@),
{
    if is_keyframe || prev.len() == 0 {
        let mut bytes: Vec<u8> = Vec::new();
        push16_all(&mut bytes, curr);
        assert(bytes@ =~= le16_seq(curr@));
        return (1, compress_prepend_size(bytes.as_slice()));
    }
    let mut bitmask: Vec<u8> = Vec::new();
    let mut j: usize = 0;
    while j < DELTA_MASK_LEN
        invariant
            j <= 75,
            bitmask@ == Seq::new(j as nat, |x: int| 0u8),
        decreases 75 - j,
    {
        bitmask.push(0);
        j = j + 1;
        assert(bitmask@ =~= Seq::new(j as nat, |x: int| 0u8));
    }
    assert forall|x: int| 0 <= x < 600 implies !#[trigger] mask_bit(bitmask@, x) by {
        lemma_zero_bits((x % 8) as u8);
    }
    let mut changed: Vec<u8> = Vec::new();
    let mut any_changed = false;
    let mut b: usize = 0;
    while b < 600
        invariant
            b <= 600,
            curr@.len() >= 38400,
            prev@.len() >= 38400,
            bitmask@.len() == 75,
            forall|x: int| 0 <= x < b ==> (#[trigger] mask_bit(bitmask@, x) <==> tile_changed(curr@, prev@, x)),
            forall|x: int| b <= x < 600 ==> !#[trigger] mask_bit(bitmask@, x),
            changed@ == changed_pixels(curr@, prev@, b as nat),
            any_changed <==> exists|x: int| 0 <= x < b && #[trigger] tile_changed(curr@, prev@, x),
        decreases 600 - b,
    {
        let ghost before = bitmask@;
        if !tile_unchanged(curr, prev, b) {
            let byte = b / 8;
            let bit = (b % 8) as u8;
            let old_byte = bitmask[byte];
            bitmask.set(byte, old_byte | (1u8 << bit));
            assert forall|x: int| 0 <= x < 600 implies (#[trigger] mask_bit(bitmask@, x) <==> (x == b || mask_bit(before, x))) by {
                lemma_set_bit(old_byte, bit, (x % 8) as u8);
                if x / 8 == byte as int {
                    assert((x == b) <==> (x % 8 == b % 8));
                }
            }
            let t = tile_at(curr, b);
            push16_all(&mut changed, t.as_slice());
            any_changed = true;
        }
        b = b + 1;
        assert(changed@ =~= changed_pixels(curr@, prev@, b as nat));
    }
    if !any_changed {
        return (2, Vec::new());
    }
    let compressed = compress_prepend_size(changed.as_slice());
    let ghost mask_view = bitmask@;
    let mut payload = bitmask;
    let mut k: usize = 0;
    while k < compressed.len()
        invariant
            k <= compressed@.len(),
            payload@ == mask_view + compressed@.take(k as int),
        decreases compressed@.len() - k,
    {
        payload.push(compressed[k]);
        k = k + 1;
        assert(payload@ =~= mask_view + compressed@.take(k as int));
    }
    assert(payload@.take(75) =~= mask_view);
    assert(payload@.skip(75) =~= compressed@);
    (0, payload)
}

/// Number of set mask bits among the first `n` tiles.
pub open spec fn set_count(m: Seq<u8>, n: nat) -> nat
    decreases n,
{
    if n == 0 {
        0
    } else {
        set_count(m, (n - 1) as nat) + if mask_bit(m, n - 1) {
            1nat
        } else {
            0nat
        }
    }
}

/// The pixels that `d` holds: its consecutive little-endian byte pairs.
pub open spec fn src16(d: Seq<u8>) -> Seq<u16> {
    read16_seq(d, d.len() / 2)
}

/// A tile-mask frame fits: `src_len` pixels cover every marked tile and
/// every pixel of a marked tile lies inside a buffer of `buf_len` pixels.
pub open spec fn delta_fits(m: Seq<u8>, src_len: int, buf_len: int) -> bool {
    &&& 64 * set_count(m, 600) <= src_len
    &&& forall|b: int, i: int|
        0 <= b < 600 && 0 <= i < 64 && #[trigger] mask_bit(m, b) ==> #[trigger] pix(b, i) < buf_len
}

/// `old` with the tiles among the first `n` that `m` marks taken from
/// `src`, the `k`-th marked tile from pixels `64 * k` onwards.
pub open spec fn delta_written<T>(m: Seq<u8>, src: Seq<T>, old: Seq<T>, n: int) -> Seq<T> {
    Seq::new(
        old.len(),
        |q: int|
            if q < 38400 && block_of(q) < n && mask_bit(m, block_of(q)) {
                src[64 * set_count(m, block_of(q) as nat) + inner_of(q)]
            } else {
                old[q]
            },
    )
}

/// The buffer after frame `flag` with mask `m` and decompressed bytes `d`
/// is applied to `old`, or nothing where the pixels do not fit: a keyframe
/// replaces a buffer of as many pixels, a tile-mask frame writes its marked
/// tiles, any other flag leaves the buffer as it is.
pub open spec fn delta16_after(flag: u8, m: Seq<u8>, d: Seq<u8>, old: Seq<u16>) -> Option<Seq<u16>> {
    if flag == 1 {
        if d.len() / 2 == old.len() {
            Some(src16(d))
        } else {
            None
        }
    } else if flag == 0 {
        if delta_fits(m, (d.len() / 2) as int, old.len() as int) {
            Some(delta_written(m, src16(d), old, 600))
        } else {
            None
        }
    } else {
        Some(old)
    }
}

/// The compressed part of a payload: after the mask for a tile-mask frame,
/// the whole payload for a keyframe.
pub open spec fn delta16_input(flag: u8, payload: Seq<u8>) -> Seq<u8> {
    if flag == 0 {
        payload.skip(75)
    } else {
        payload
    }
}

/// The buffer after decoding `(flag, payload)` onto `old`, or nothing where
/// the payload is refused.
pub open spec fn delta16_decoded(flag: u8, payload: Seq<u8>, old: Seq<u16>) -> Option<Seq<u16>> {
    if flag == 0 || flag == 1 {
        match lz4_decompressed(delta16_input(flag, payload)) {
            Some(d) => delta16_after(flag, payload, d, old),
            None => None,
        }
    } else {
        Some(old)
    }
}

pub(crate) proof fn lemma_set_count_step(m: Seq<u8>, n: nat)
    ensures
        set_count(m, n + 1) == set_count(m, n) + if mask_bit(m, n as int) { 1nat } else { 0nat },
{
    assert((n + 1) as nat - 1 == n);
}

pub(crate) proof fn lemma_set_count_mono(m: Seq<u8>, a: nat, b: nat)
    requires
        a <= b,
    ensures
        set_count(m, a) <= set_count(m, b),
    decreases b - a,
{
    if a < b {
        lemma_set_count_mono(m, a, (b - 1) as nat);
    }
}

pub(crate) proof fn lemma_pix_max(b: int, i: int)
    requires
        0 <= b < 600,
        0 <= i < 64,
    ensures
        pix(b, i) <= pix(b, 63),
{
    assert(i / 8 <= 7);
    assert(i % 8 <= 7);
}

/// Whether the frame fits, as `delta_fits` says.
pub(crate) fn delta_fits_exec(m: &[u8], src_len: usize, buf_len: usize) -> (r: bool)
    requires
        m@.len() >= 75,
    ensures
        r == delta_fits(m@, src_len as int, buf_len as int),
{
    let mut count: usize = 0;
    let mut all_inside = true;
    let mut b: usize = 0;
    while b < 600
        invariant
            b <= 600,
            m@.len() >= 75,
            count == set_count(m@, b as nat),
            count <= b,
            all_inside <==> forall|x: int, i: int|
                0 <= x < b && 0 <= i < 64 && #[trigger] mask_bit(m@, x) ==> #[trigger] pix(x, i)
                    < buf_len,
        decreases 600 - b,
    {
        proof {
            lemma_set_count_step(m@, b as nat);
        }
        if m[b / 8] & (1u8 << ((b % 8) as u8)) != 0 {
            count = count + 1;
            let last = ((b / 30) * 8 + 7) * 240 + (b % 30) * 8 + 7;
            assert(last == pix(b as int, 63));
            if last >= buf_len {
                all_inside = false;
            }
            assert forall|i: int| 0 <= i < 64 implies (#[trigger] pix(b as int, i) < buf_len) == (
            last < buf_len) || pix(b as int, i) < buf_len by {
                lemma_pix_max(b as int, i);
            }
            if last >= buf_len {
                assert(pix(b as int, 63) >= buf_len);
            }
        }
        b = b + 1;
    }
    all_inside && 64 * count <= src_len
}

/// Applies a frame whose compressed part decompressed to `d`: see
/// `delta16_after`.
pub fn apply_delta_16(flag: u8, payload: &[u8], d: &[u8], frame_buffer: &mut [u16])
    requires
        flag == 0 ==> payload@.len() >= 75,
        delta16_after(flag, payload@, d@, old(frame_buffer)@) is Some,
    ensures
        final(frame_buffer)@ == delta16_after(flag, payload@, d@, old(frame_buffer)@)->0,
{
    let ghost old_buf = frame_buffer@;
    let dlen = d.len();
    if flag == 1 {
        let n = d.len() / 2;
        let mut k: usize = 0;
        while k < n
            invariant
                k <= n,
                dlen == d@.len(),
                n == d@.len() / 2,
                n == frame_buffer@.len(),
                old_buf.len() == n,
                frame_buffer@ == read16_seq(d@, k as nat) + old_buf.skip(k as int),
            decreases n - k,
        {
            let v = get16(d, 2 * k);
            frame_buffer[k] = v;
            k = k + 1;
            assert(frame_buffer@ =~= read16_seq(d@, k as nat) + old_buf.skip(k as int));
        }
        assert(frame_buffer@ =~= src16(d@));
    } else if flag == 0 {
        let ghost src = src16(d@);
        let mut read_idx: usize = 0;
        let mut b: usize = 0;
        while b < 600
            invariant
                b <= 600,
                payload@.len() >= 75,
                dlen == d@.len(),
                old_buf.len() == frame_buffer@.len(),
                delta_fits(payload@, (d@.len() / 2) as int, old_buf.len() as int),
                src == src16(d@),
                read_idx == 64 * set_count(payload@, b as nat),
                frame_buffer@ == delta_written(payload@, src, old_buf, b as int),
            decreases 600 - b,
        {
            proof {
                lemma_set_count_step(payload@, b as nat);
                lemma_set_count_mono(payload@, (b + 1) as nat, 600);
            }
            if payload[b / 8] & (1u8 << ((b % 8) as u8)) != 0 {
                assert(mask_bit(payload@, b as int));
                let mut i: usize = 0;
                while i < 64
                    invariant
                        i <= 64,
                        b < 600,
                        dlen == d@.len(),
                        mask_bit(payload@, b as int),
                        old_buf.len() == frame_buffer@.len(),
                        delta_fits(payload@, (d@.len() / 2) as int, old_buf.len() as int),
                        src == src16(d@),
                        read_idx == 64 * set_count(payload@, b as nat),
                        read_idx + 64 <= d@.len() / 2,
                        frame_buffer@ == Seq::new(
                            old_buf.len(),
                            |q: int|
                                if q < 38400 && block_of(q) == b && inner_of(q) < i {
                                    src[read_idx + inner_of(q)]
                                } else {
                                    delta_written(payload@, src, old_buf, b as int)[q]
                                },
                        ),
                    decreases 64 - i,
                {
                    proof {
                        lemma_pix(b as int, i as int);
                    }
                    assert(pix(b as int, i as int) < old_buf.len());
                    let q = ((b / 30) * 8 + i / 8) * 240 + (b % 30) * 8 + i % 8;
                    let v = get16(d, 2 * (read_idx + i));
                    assert(v == src[read_idx + i]);
                    frame_buffer[q] = v;
                    i = i + 1;
                    assert forall|x: int| 0 <= x < old_buf.len() implies #[trigger] frame_buffer@[x] == (
                    if x < 38400 && block_of(x) == b && inner_of(x) < i {
                        src[read_idx + inner_of(x)]
                    } else {
                        delta_written(payload@, src, old_buf, b as int)[x]
                    }) by {
                        if x < 38400 {
                            lemma_block_of(x);
                        }
                    }
                    assert(frame_buffer@ =~= Seq::new(
                        old_buf.len(),
                        |q: int|
                            if q < 38400 && block_of(q) == b && inner_of(q) < i {
                                src[read_idx + inner_of(q)]
                            } else {
                                delta_written(payload@, src, old_buf, b as int)[q]
                            },
                    ));
                }
                read_idx = read_idx + 64;
            }
            b = b + 1;
            assert forall|x: int| 0 <= x < old_buf.len() implies #[trigger] frame_buffer@[x]
                == delta_written(payload@, src, old_buf, b as int)[x] by {
                if x < 38400 {
                    lemma_block_of(x);
                }
            }
            assert(frame_buffer@ =~= delta_written(payload@, src, old_buf, b as int));
        }
    }
}

/// A frame `flag` whose compressed part is longer than the LZ4 layer
/// accepts.
pub open spec fn delta16_too_long(flag: u8, payload: Seq<u8>) -> bool {
    (flag == 0 || flag == 1) && delta16_input(flag, payload).len() > LZ4_MAX_INPUT
}

/// Decodes frame `flag` with `payload` onto `frame_buffer`. Where the
/// compressed part is longer than `LZ4_MAX_INPUT` or does not
/// decompress, or its pixels do not fit the mask or the buffer, the buffer
/// is left as it was and the error says which.
pub fn decompress_delta_16(flag: u8, payload: &[u8], frame_buffer: &mut [u16]) -> (r: Result<
    (),
    CodecError,
>)
    requires
        flag == 0 ==> payload@.len() >= 75,
    ensures
        r is Err ==> final(frame_buffer)@ == old(frame_buffer)@,
        delta16_too_long(flag, payload@) ==> r == Err::<(), CodecError>(CodecError::PayloadTooLong),
        !delta16_too_long(flag, payload@) ==> {
            &&& (r is Ok <==> delta16_decoded(flag, payload@, old(frame_buffer)@) is Some)
            &&& (r is Ok ==> final(frame_buffer)@ == delta16_decoded(flag, payload@, old(frame_buffer)@)->0)
            &&& ((flag == 0 || flag == 1) && lz4_decompressed(delta16_input(flag, payload@)) is None
                ==> r matches Err(CodecError::Lz4(_)))
            &&& ((flag == 0 || flag == 1) && lz4_decompressed(delta16_input(flag, payload@)) is Some
                && r is Err ==> r == Err::<(), CodecError>(CodecError::DeltaSizeMismatch))
        },
{
    if flag != 0 && flag != 1 {
        return Ok(());
    }
    let input: &[u8] = if flag == 0 {
        &payload[75..payload.len()]
    } else {
        payload
    };
    assert(input@ == delta16_input(flag, payload@));
    if input.len() > LZ4_MAX_INPUT {
        return Err(CodecError::PayloadTooLong);
    }
    let d = match decompress_size_prepended(input) {
        Ok(d) => d,
        Err(e) => {
            return Err(CodecError::Lz4(e));
        },
    };
    let fits = if flag == 1 {
        d.len() / 2 == frame_buffer.len()
    } else {
        delta_fits_exec(payload, d.len() / 2, frame_buffer.len())
    };
    if !fits {
        return Err(CodecError::DeltaSizeMismatch);
    }
    apply_delta_16(flag, payload, d.as_slice(), frame_buffer);
    Ok(())
}

pub(crate) proof fn lemma_mask_take(payload: Seq<u8>, b: int)
    requires
        payload.len() >= 75,
        0 <= b < 600,
    ensures
        mask_bit(payload.take(75), b) == mask_bit(payload, b),
{
    assert(payload.take(75)[b / 8] == payload[b / 8]);
}

proof fn lemma_changed_pixels_len(c: Seq<u16>, p: Seq<u16>, m: Seq<u8>, n: nat)
    requires
        n <= 600,
        forall|b: int| 0 <= b < 600 ==> (#[trigger] mask_bit(m, b) <==> tile_changed(c, p, b)),
    ensures
        changed_pixels(c, p, n).len() == 128 * set_count(m, n),
        set_count(m, n) <= n,
    decreases n,
{
    if n > 0 {
        lemma_changed_pixels_len(c, p, m, (n - 1) as nat);
        assert(mask_bit(m, n - 1) <==> tile_changed(c, p, n - 1));
    }
}

proof fn lemma_changed_pixels_at(c: Seq<u16>, p: Seq<u16>, m: Seq<u8>, n: nat, b: int, i: int)
    requires
        n <= 600,
        0 <= b < n,
        0 <= i < 64,
        mask_bit(m, b),
        forall|x: int| 0 <= x < 600 ==> (#[trigger] mask_bit(m, x) <==> tile_changed(c, p, x)),
    ensures
        read16(changed_pixels(c, p, n), 2 * (64 * set_count(m, b as nat) + i)) == c[pix(b, i)],
    decreases n,
{
    let prev = changed_pixels(c, p, (n - 1) as nat);
    lemma_changed_pixels_len(c, p, m, (n - 1) as nat);
    lemma_changed_pixels_len(c, p, m, b as nat);
    assert(tile_changed(c, p, b));
    if b == n - 1 {
        let t = tile_of(c, b);
        assert(changed_pixels(c, p, n) =~= prev + le16_seq(t) + Seq::<u8>::empty());
        lemma_read16_at(prev, t, Seq::<u8>::empty(), i);
    } else {
        lemma_changed_pixels_at(c, p, m, (n - 1) as nat, b, i);
        lemma_set_count_step(m, b as nat);
        lemma_set_count_mono(m, (b + 1) as nat, (n - 1) as nat);
        let k = 2 * (64 * set_count(m, b as nat) + i);
        assert(k + 1 < prev.len());
        assert(changed_pixels(c, p, n)[k] == prev[k]);
        assert(changed_pixels(c, p, n)[k + 1] == prev[k + 1]);
    }
}

/// Decoding what the encoder sends for `c` gives `c` back: a keyframe onto
/// any buffer of one screen, an unchanged or tile-mask frame onto the
/// previous frame.
pub proof fn lemma_delta16_roundtrip(
    c: Seq<u16>,
    p: Seq<u16>,
    key: bool,
    client: Seq<u16>,
    flag: u8,
    payload: Seq<u8>,
)
    requires
        (key || p.len() == 0) ==> lz4_roundtrips(le16_seq(c)),
        !(key || p.len() == 0) ==> lz4_roundtrips(changed_pixels(c, p, 600)),
        c.len() == 38400,
        p.len() == 0 || p.len() == 38400,
        client.len() == 38400,
        !(key || p.len() == 0) ==> client == p,
        delta16_encodes(c, p, key, flag, payload),
    ensures
        delta16_decoded(flag, payload, client) == Some(c),
{
    if key || p.len() == 0 {
        let d = le16_seq(c);
        assert(lz4_decompressed(lz4_compressed(d)) == Some(d));
        lemma_read16_seq_of_le16_seq(c, Seq::<u8>::empty(), Seq::<u8>::empty());
        assert((Seq::<u8>::empty() + d + Seq::<u8>::empty()).skip(0) =~= d);
        assert(src16(d) == c);
    } else if forall|b: int| 0 <= b < 600 ==> !#[trigger] tile_changed(c, p, b) {
        assert forall|q: int| 0 <= q < 38400 implies c[q] == p[q] by {
            lemma_block_of(q);
            let b = block_of(q);
            let i = inner_of(q);
            assert(!tile_changed(c, p, b));
            assert(tile_of(c, b)[i] == tile_of(p, b)[i]);
        }
        assert(c =~= p);
    } else {
        let m = payload;
        assert forall|b: int| 0 <= b < 600 implies (#[trigger] mask_bit(m, b) <==> tile_changed(
            c,
            p,
            b,
        )) by {
            lemma_mask_take(payload, b);
        }
        let d = changed_pixels(c, p, 600);
        lemma_changed_pixels_len(c, p, m, 600);
        assert(payload.skip(75) == lz4_compressed(d));
        assert(lz4_decompressed(lz4_compressed(d)) == Some(d));
        let src = src16(d);
        assert forall|b: int, i: int|
            0 <= b < 600 && 0 <= i < 64 && #[trigger] mask_bit(m, b) implies #[trigger] pix(b, i)
            < 38400 by {
            lemma_pix(b, i);
        }
        assert(delta_fits(m, (d.len() / 2) as int, 38400));
        let w = delta_written(m, src, client, 600);
        assert forall|q: int| 0 <= q < 38400 implies w[q] == c[q] by {
            lemma_block_of(q);
            let b = block_of(q);
            let i = inner_of(q);
            if mask_bit(m, b) {
                lemma_changed_pixels_at(c, p, m, 600, b, i);
                lemma_set_count_step(m, b as nat);
                lemma_set_count_mono(m, (b + 1) as nat, 600);
                assert(64 * set_count(m, b as nat) + i < d.len() / 2);
            } else {
                assert(!tile_changed(c, p, b));
                assert(tile_of(c, b)[i] == tile_of(p, b)[i]);
            }
        }
        assert(w =~= c);
    }
}

/// What a benchmark client draws for a tile-mask frame: each pixel of a
/// marked tile, while the pixels `src` holds last, as RGBA; the rest of the
/// screen as it was.
pub open spec fn painted(m: Seq<u8>, src: Seq<u16>, old: Seq<u32>) -> Seq<u32> {
    Seq::new(
        old.len(),
        |q: int|
            if q < 38400 && mask_bit(m, block_of(q)) && 64 * set_count(m, block_of(q) as nat)
                + inner_of(q) < src.len() {
                rgba_of(src[64 * set_count(m, block_of(q) as nat) + inner_of(q)])
            } else {
                old[q]
            },
    )
}

/// What a benchmark client draws for frame `flag` with `payload`: for a raw
/// frame (1) the pixels it holds, up to one screen, as RGBA; for a
/// tile-mask frame (0) longer than its mask, see `painted`; nothing where
/// the compressed part is longer than `LZ4_MAX_INPUT` or does not
/// decompress, or the flag is another.
pub open spec fn client_view(flag: u8, payload: Seq<u8>, old: Seq<u32>) -> Seq<u32> {
    if (flag == 1 && payload.len() > LZ4_MAX_INPUT) || (flag == 0 && payload.len() > 75
        && payload.skip(75).len() > LZ4_MAX_INPUT) {
        old
    } else if flag == 1 {
        match lz4_decompressed(payload) {
            Some(d) => Seq::new(
                old.len(),
                |i: int|
                    if i < src16(d).len() {
                        rgba_of(src16(d)[i])
                    } else {
                        old[i]
                    },
            ),
            None => old,
        }
    } else if flag == 0 && payload.len() > 75 {
        match lz4_decompressed(payload.skip(75)) {
            Some(d) => painted(payload, src16(d), old),
            None => old,
        }
    } else {
        old
    }
}

/// Draws a received frame into a benchmark client's RGBA screen.
pub fn paint_client_frame(flag: u8, payload: &[u8], screen: &mut [u32])
    requires
        old(screen)@.len() == 38400,
    ensures
        final(screen)@ == client_view(flag, payload@, old(screen)@),
{
    let ghost old_screen = screen@;
    if flag == 1 {
        if payload.len() > LZ4_MAX_INPUT {
            return;
        }
        let d = match decompress_size_prepended(payload) {
            Ok(d) => d,
            Err(_) => return,
        };
        let n0 = d.len() / 2;
        let n = if n0 < 38400 { n0 } else { 38400 };
        let mut i: usize = 0;
        while i < n
            invariant
                i <= n,
                n <= 38400,
                n <= d@.len() / 2,
                n == if d@.len() / 2 < 38400 { d@.len() / 2 } else { 38400 },
                screen@.len() == 38400,
                old_screen.len() == 38400,
                screen@ == Seq::new(
                    38400,
                    |k: int|
                        if k < i {
                            rgba_of(src16(d@)[k])
                        } else {
                            old_screen[k]
                        },
                ),
            decreases n - i,
        {
            let c = rgb555_to_rgba(get16(d.as_slice(), 2 * i));
            screen[i] = c;
            i = i + 1;
            assert(screen@ =~= Seq::new(
                38400,
                |k: int|
                    if k < i {
                        rgba_of(src16(d@)[k])
                    } else {
                        old_screen[k]
                    },
            ));
        }
        assert(screen@ =~= client_view(flag, payload@, old_screen));
    } else if flag == 0 && payload.len() > 75 {
        if payload.len() - 75 > LZ4_MAX_INPUT {
            return;
        }
        let d = match decompress_size_prepended(&payload[75..payload.len()]) {
            Ok(d) => d,
            Err(_) => return,
        };
        assert(payload@.subrange(75, payload@.len() as int) == payload@.skip(75));
        let ghost src = src16(d@);
        let dlen = d.len();
        let n = d.len() / 2;
        let mut read_idx: usize = 0;
        let mut b: usize = 0;
        while b < 600
            invariant
                b <= 600,
                payload@.len() > 75,
                dlen == d@.len(),
                n == d@.len() / 2,
                src == src16(d@),
                screen@.len() == 38400,
                old_screen.len() == 38400,
                read_idx == if 64 * set_count(payload@, b as nat) < n {
                    64 * set_count(payload@, b as nat) as int
                } else {
                    n as int
                },
                screen@ == Seq::new(
                    38400,
                    |q: int|
                        if block_of(q) < b && mask_bit(payload@, block_of(q)) && 64 * set_count(
                            payload@,
                            block_of(q) as nat,
                        ) + inner_of(q) < n {
                            rgba_of(src[64 * set_count(payload@, block_of(q) as nat) + inner_of(q)])
                        } else {
                            old_screen[q]
                        },
                ),
            decreases 600 - b,
        {
            proof {
                lemma_set_count_step(payload@, b as nat);
            }
            let ghost base: int = (64 * set_count(payload@, b as nat)) as int;
            let ghost before = screen@;
            if payload[b / 8] & (1u8 << ((b % 8) as u8)) != 0 {
                assert(mask_bit(payload@, b as int));
                let mut i: usize = 0;
                while i < 64
                    invariant
                        i <= 64,
                        b < 600,
                        dlen == d@.len(),
                        n == d@.len() / 2,
                        src == src16(d@),
                        screen@.len() == 38400,
                        base == 64 * set_count(payload@, b as nat),
                        read_idx == if base + i < n {
                            base + i
                        } else {
                            n as int
                        },
                        screen@ == Seq::new(
                            38400,
                            |q: int|
                                if block_of(q) == b && inner_of(q) < i && base + inner_of(q) < n {
                                    rgba_of(src[base + inner_of(q)])
                                } else {
                                    before[q]
                                },
                        ),
                    decreases 64 - i,
                {
                    proof {
                        lemma_pix(b as int, i as int);
                    }
                    let q = ((b / 30) * 8 + i / 8) * 240 + (b % 30) * 8 + i % 8;
                    if read_idx < n {
                        let c = rgb555_to_rgba(get16(d.as_slice(), 2 * read_idx));
                        screen[q] = c;
                        read_idx = read_idx + 1;
                    }
                    i = i + 1;
                    assert forall|x: int| 0 <= x < 38400 implies #[trigger] screen@[x] == (
                    if block_of(x) == b && inner_of(x) < i && base + inner_of(x) < n {
                        rgba_of(src[base + inner_of(x)])
                    } else {
                        before[x]
                    }) by {
                        lemma_block_of(x);
                    }
                    assert(screen@ =~= Seq::new(
                        38400,
                        |q: int|
                            if block_of(q) == b && inner_of(q) < i && base + inner_of(q) < n {
                                rgba_of(src[base + inner_of(q)])
                            } else {
                                before[q]
                            },
                    ));
                }
            }
            b = b + 1;
            assert forall|x: int| 0 <= x < 38400 implies #[trigger] screen@[x] == (
            if block_of(x) < b && mask_bit(payload@, block_of(x)) && 64 * set_count(
                payload@,
                block_of(x) as nat,
            ) + inner_of(x) < n {
                rgba_of(src[64 * set_count(payload@, block_of(x) as nat) + inner_of(x)])
            } else {
                old_screen[x]
            }) by {
                lemma_block_of(x);
            }
            assert(screen@ =~= Seq::new(
                38400,
                |q: int|
                    if block_of(q) < b && mask_bit(payload@, block_of(q)) && 64 * set_count(
                        payload@,
                        block_of(q) as nat,
                    ) + inner_of(q) < n {
                        rgba_of(src[64 * set_count(payload@, block_of(q) as nat) + inner_of(q)])
                    } else {
                        old_screen[q]
                    },
            ));
        }
        assert forall|q: int| 0 <= q < 38400 implies block_of(q) < 600 by {
            lemma_block_of(q);
        }
        assert(screen@ =~= client_view(flag, payload@, old_screen));
    }
}

} // verus!
