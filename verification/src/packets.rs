//! Wire formats between host and client: input packets, UDP video chunks,
//! WebSocket stream packets, and the client's control messages.

use vstd::prelude::*;
use crate::le::{le16, le32, read16, read32, u16_of, get16, get32, push16, push32, lemma_read16_le16, lemma_read32_le32};

verus! {

/// Size of the video payload carried by one UDP chunk.
pub const UDP_CHUNK_SIZE: usize = 1024;

/// The little-endian bytes of a 64-bit value.
pub open spec fn le64(v: u64) -> Seq<u8> {
    le32((v & 0xffff_ffff) as u32) + le32((v >> 32) as u32)
}

/// The 64-bit little-endian value stored at byte offset `i` of `b`.
pub open spec fn read64(b: Seq<u8>, i: int) -> u64 {
    ((read32(b, i) as u64) | ((read32(b, i + 4) as u64) << 32)) as u64
}

/// Appends the little-endian bytes of a 64-bit value.
pub fn push64(out: &mut Vec<u8>, v: u64)
    ensures
        final(out)@ == old(out)@ + le64(v),
{
    push32(out, (v & 0xffff_ffff) as u32);
    push32(out, (v >> 32) as u32);
    assert(final(out)@ =~= old(out)@ + le64(v));
}

/// Decodes the 64-bit little-endian value at `i`.
pub fn get64(b: &[u8], i: usize) -> (r: u64)
    requires
        i + 7 < b.len(),
    ensures
        r == read64(b@, i as int),
{
    (get32(b, i) as u64) | ((get32(b, i + 4) as u64) << 32)
}

/// Reading back the bytes of a 64-bit value gives the value.
pub proof fn lemma_read64_le64(pre: Seq<u8>, v: u64, post: Seq<u8>)
    ensures
        read64(pre + le64(v) + post, pre.len() as int) == v,
{
    let lo = (v & 0xffff_ffff) as u32;
    let hi = (v >> 32) as u32;
    lemma_read32_le32(pre, lo, le32(hi) + post);
    assert(pre + le32(lo) + (le32(hi) + post) =~= pre + le64(v) + post);
    lemma_read32_le32(pre + le32(lo), hi, post);
    assert(pre + le32(lo) + le32(hi) + post =~= pre + le64(v) + post);
    assert((((lo as u64) | ((hi as u64) << 32)) as u64) == v) by (bit_vector)
        requires
            lo == (v & 0xffff_ffff) as u32,
            hi == (v >> 32) as u32,
    ;
}

/// The signed button mask whose little-endian bytes are `lo`, `hi`.
pub open spec fn mask_of(lo: u8, hi: u8) -> i16 {
    u16_of(lo, hi) as i16
}

/// An input packet: sequence number (u32), client timestamp in
/// microseconds (u64) and button mask (16 bits), all little-endian.
pub open spec fn input_packet_bytes(seq: u32, t_us: u64, buttons: u16) -> Seq<u8> {
    le32(seq) + le64(t_us) + le16(buttons)
}

/// An input packet is 14 bytes: the sequence number at 0, the timestamp at
/// 4 and the buttons at 12, low byte first; reading one back gives the
/// sequence number, the timestamp and the buttons `b[12] + 256 * b[13]`.
pub proof fn lemma_input_packet_fields(seq: u32, t_us: u64, buttons: u16, b: Seq<u8>)
    ensures
        input_packet_bytes(seq, t_us, buttons).len() == 14,
        read32(input_packet_bytes(seq, t_us, buttons), 0) == seq,
        read64(input_packet_bytes(seq, t_us, buttons), 4) == t_us,
        input_packet_bytes(seq, t_us, buttons)[12] as int == buttons as int % 256,
        input_packet_bytes(seq, t_us, buttons)[13] as int == buttons as int / 256,
        b.len() < 14 ==> input_packet_fields(b) is None,
        b.len() >= 14 ==> (input_packet_fields(b) matches Some((s, t, m)) && s == read32(b, 0) && t
            == read64(b, 4) && m as u16 as int == b[12] as int + 256 * b[13] as int),
{
    lemma_input_packet_roundtrip(seq, t_us, buttons);
    let p = input_packet_bytes(seq, t_us, buttons);
    assert(p[12] == crate::le::lo8(buttons));
    assert(p[13] == crate::le::hi8(buttons));
    assert(((buttons & 0xff) as u8) as int == buttons as int % 256 && ((buttons >> 8) as u8) as int
        == buttons as int / 256) by (bit_vector);
    if b.len() >= 14 {
        let lo = b[12];
        let hi = b[13];
        assert((((lo as u16) | ((hi as u16) << 8)) as u16) as i16 as u16 == lo as u16 + 256 * (hi as u16))
            by (bit_vector);
    }
}

/// Builds an input packet.
pub fn build_input_packet(seq: u32, t_us: u64, buttons: u16) -> (p: Vec<u8>)
    ensures
        p@ == input_packet_bytes(seq, t_us, buttons),
        p@.len() == 14,
        read32(p@, 0) == seq,
        read64(p@, 4) == t_us,
        p@[12] as int == buttons as int % 256,
        p@[13] as int == buttons as int / 256,
{
    proof {
        lemma_input_packet_fields(seq, t_us, buttons, Seq::empty());
    }
    let mut p: Vec<u8> = Vec::new();
    push32(&mut p, seq);
    push64(&mut p, t_us);
    push16(&mut p, buttons);
    assert(p@ =~= input_packet_bytes(seq, t_us, buttons));
    p
}

/// The fields of an input packet: sequence number, timestamp and button
/// mask; nothing for a packet shorter than 14 bytes.
pub open spec fn input_packet_fields(b: Seq<u8>) -> Option<(u32, u64, i16)> {
    if b.len() >= 14 {
        Some((read32(b, 0), read64(b, 4), mask_of(b[12], b[13])))
    } else {
        None
    }
}

/// Reads an input packet.
pub fn parse_input_packet(b: &[u8]) -> (r: Option<(u32, u64, i16)>)
    ensures
        r == input_packet_fields(b@),
        b@.len() < 14 ==> r is None,
        b@.len() >= 14 ==> (r matches Some((s, t, m)) && s == read32(b@, 0) && t == read64(b@, 4)
            && m as u16 as int == b@[12] as int + 256 * b@[13] as int),
{
    proof {
        lemma_input_packet_fields(0, 0, 0, b@);
    }
    if b.len() < 14 {
        return None;
    }
    let seq = get32(b, 0);
    let t_us = get64(b, 4);
    let mask = get16(b, 12) as i16;
    Some((seq, t_us, mask))
}

/// An input packet reads back as the fields it was built from.
pub proof fn lemma_input_packet_roundtrip(seq: u32, t_us: u64, buttons: u16)
    ensures
        input_packet_fields(input_packet_bytes(seq, t_us, buttons)) == Some(
            (seq, t_us, buttons as i16),
        ),
{
    let p = input_packet_bytes(seq, t_us, buttons);
    lemma_read32_le32(Seq::empty(), seq, le64(t_us) + le16(buttons));
    assert(Seq::<u8>::empty() + le32(seq) + (le64(t_us) + le16(buttons)) =~= p);
    lemma_read64_le64(le32(seq), t_us, le16(buttons));
    assert(le32(seq) + le64(t_us) + le16(buttons) =~= p);
    lemma_read16_le16(le32(seq) + le64(t_us), buttons, Seq::empty());
    assert(le32(seq) + le64(t_us) + le16(buttons) + Seq::<u8>::empty() =~= p);
    assert(read16(p, 12) == u16_of(p[12], p[13]));
}

/// Number of UDP chunks of a payload.
pub open spec fn chunk_total(len: nat) -> nat {
    ((len + 1023) / 1024) as nat
}

/// UDP chunk `k` of a frame: header (frame sequence, chunk index, chunk
/// count, matched input sequence, simulation and encoding times, flag) and
/// up to 1024 bytes of the payload.
pub open spec fn udp_chunk(
    frame_seq: u32,
    matched_seq: u32,
    sim_us: u32,
    enc_us: u32,
    flag: u8,
    payload: Seq<u8>,
    k: int,
) -> Seq<u8> {
    let end = if (k + 1) * 1024 < payload.len() {
        (k + 1) * 1024
    } else {
        payload.len() as int
    };
    le32(frame_seq) + seq![k as u8, chunk_total(payload.len()) as u8] + le32(matched_seq) + le32(
        sim_us,
    ) + le32(enc_us) + seq![flag] + payload.subrange(k * 1024, end)
}

/// Splits a frame into UDP chunks of at most 1024 payload bytes each.
pub fn udp_frame_packets(
    frame_seq: u32,
    matched_seq: u32,
    sim_us: u32,
    enc_us: u32,
    flag: u8,
    payload: &[u8],
) -> (r: Vec<Vec<u8>>)
    ensures
        r@.len() == chunk_total(payload@.len()),
        forall|k: int|
            0 <= k < r@.len() ==> (#[trigger] r@[k])@ == udp_chunk(
                frame_seq,
                matched_seq,
                sim_us,
                enc_us,
                flag,
                payload@,
                k,
            ),
{
    let total = payload.len() / UDP_CHUNK_SIZE + if payload.len() % UDP_CHUNK_SIZE == 0 {
        0
    } else {
        1
    };
    assert(total == chunk_total(payload@.len()));
    let mut out: Vec<Vec<u8>> = Vec::new();
    let mut k: usize = 0;
    while k < total
        invariant
            k <= total,
            total == chunk_total(payload@.len()),
            payload@.len() == payload.len(),
            out@.len() == k,
            forall|j: int|
                0 <= j < k ==> (#[trigger] out@[j])@ == udp_chunk(
                    frame_seq,
                    matched_seq,
                    sim_us,
                    enc_us,
                    flag,
                    payload@,
                    j,
                ),
        decreases total - k,
    {
        assert(k * 1024 < payload@.len()) by (nonlinear_arith)
            requires
                k < total,
                total == (payload@.len() + 1023) / 1024,
        ;
        let start = k * 1024;
        let end = if payload.len() - start > UDP_CHUNK_SIZE {
            start + UDP_CHUNK_SIZE
        } else {
            payload.len()
        };
        let mut p: Vec<u8> = Vec::new();
        push32(&mut p, frame_seq);
        p.push(k as u8);
        p.push(total as u8);
        push32(&mut p, matched_seq);
        push32(&mut p, sim_us);
        push32(&mut p, enc_us);
        p.push(flag);
        let ghost head = p@;
        let mut i = start;
        while i < end
            invariant
                start <= i <= end,
                end <= payload@.len(),
                p@ == head + payload@.subrange(start as int, i as int),
            decreases end - i,
        {
            p.push(payload[i]);
            i = i + 1;
            assert(p@ =~= head + payload@.subrange(start as int, i as int));
        }
        assert(p@ =~= udp_chunk(frame_seq, matched_seq, sim_us, enc_us, flag, payload@, k as int));
        out.push(p);
        k = k + 1;
    }
    out
}

/// A WebSocket stream packet: flag in the low 6 bits of the first byte and
/// the run-ahead setting in its top 2 bits, the low byte of the matched
/// input sequence, the audio length (u16), the audio and the video payload.
pub open spec fn stream_packet_bytes(
    flag: u8,
    runahead: u8,
    matched_seq: u32,
    audio: Seq<u8>,
    video: Seq<u8>,
) -> Seq<u8> {
    seq![((flag & 0x3f) | ((runahead & 0x03) << 6)) as u8, (matched_seq & 0xff) as u8] + le16(
        audio.len() as u16,
    ) + audio + video
}

/// The fields of a stream packet read back: the flag's low 6 bits and the
/// run-ahead's low 2 bits share byte 0 (run-ahead on top), byte 1 is the
/// matched input sequence modulo 256, bytes 2..4 the audio length (as a
/// u16), then the audio, then the video.
pub proof fn lemma_stream_packet_fields(flag: u8, runahead: u8, matched_seq: u32, audio: Seq<u8>, video: Seq<u8>)
    ensures
        ({
            let p = stream_packet_bytes(flag, runahead, matched_seq, audio, video);
            &&& p.len() == 4 + audio.len() + video.len()
            &&& p[0] % 64 == flag % 64
            &&& p[0] / 64 == runahead % 4
            &&& p[1] as int == matched_seq as int % 256
            &&& read16(p, 2) == audio.len() as u16
            &&& p.subrange(4, 4 + audio.len() as int) == audio
            &&& p.skip(4 + audio.len() as int) == video
        }),
{
    let p = stream_packet_bytes(flag, runahead, matched_seq, audio, video);
    let b0 = ((flag & 0x3f) | ((runahead & 0x03) << 6)) as u8;
    assert(b0 % 64 == flag % 64 && b0 / 64 == runahead % 4) by (bit_vector)
        requires
            b0 == ((flag & 0x3f) | ((runahead & 0x03) << 6)) as u8,
    ;
    let m = matched_seq;
    assert(((m & 0xff) as u8) as int == m as int % 256) by (bit_vector);
    let n = audio.len() as u16;
    lemma_read16_le16(seq![b0, (m & 0xff) as u8], n, audio + video);
    assert(seq![b0, (m & 0xff) as u8] + le16(n) + (audio + video) =~= p);
    assert(p[0] == b0);
    assert(p[1] == (m & 0xff) as u8);
    assert(p.subrange(4, 4 + audio.len() as int) =~= audio);
    assert(p.skip(4 + audio.len() as int) =~= video);
}

/// Builds a WebSocket stream packet.
pub fn build_stream_packet(flag: u8, runahead: u8, matched_seq: u32, audio: &[u8], video: &[u8]) -> (p:
    Vec<u8>)
    ensures
        p@ == stream_packet_bytes(flag, runahead, matched_seq, audio@, video@),
        p@.len() == 4 + audio@.len() + video@.len(),
        p@[0] % 64 == flag % 64,
        p@[0] / 64 == runahead % 4,
        p@[1] as int == matched_seq as int % 256,
        read16(p@, 2) == audio@.len() as u16,
        p@.subrange(4, 4 + audio@.len() as int) == audio@,
        p@.skip(4 + audio@.len() as int) == video@,
{
    proof {
        lemma_stream_packet_fields(flag, runahead, matched_seq, audio@, video@);
    }
    let mut p: Vec<u8> = Vec::new();
    p.push((flag & 0x3f) | ((runahead & 0x03) << 6));
    p.push((matched_seq & 0xff) as u8);
    push16(&mut p, audio.len() as u16);
    let ghost head = p@;
    let mut i: usize = 0;
    while i < audio.len()
        invariant
            i <= audio@.len(),
            p@ == head + audio@.take(i as int),
        decreases audio@.len() - i,
    {
        p.push(audio[i]);
        i = i + 1;
        assert(p@ =~= head + audio@.take(i as int));
    }
    assert(audio@.take(i as int) =~= audio@);
    let ghost mid = p@;
    let mut j: usize = 0;
    while j < video.len()
        invariant
            j <= video@.len(),
            p@ == mid + video@.take(j as int),
        decreases video@.len() - j,
    {
        p.push(video[j]);
        j = j + 1;
        assert(p@ =~= mid + video@.take(j as int));
    }
    assert(video@.take(j as int) =~= video@);
    assert(p@ =~= stream_packet_bytes(flag, runahead, matched_seq, audio@, video@));
    p
}

/// A frame packet of the standalone web host: matched input sequence
/// (u32), the input's client timestamp (u64), simulation time (u32), a zero
/// u32, encoding time (u32), host timestamp (u64), flag, and the payload.
pub open spec fn web_frame_packet_bytes(
    matched_seq: u32,
    matched_t_us: u64,
    sim_us: u32,
    enc_us: u32,
    now_us: u64,
    flag: u8,
    payload: Seq<u8>,
) -> Seq<u8> {
    le32(matched_seq) + le64(matched_t_us) + le32(sim_us) + le32(0) + le32(enc_us) + le64(now_us)
        + seq![flag] + payload
}

/// The fields of a web-host frame packet read back from their fixed
/// offsets: matched input sequence at 0, its client timestamp at 4,
/// simulation time at 12, zero at 16, encoding time at 20, host timestamp at
/// 24, flag at 32, and the payload from 33 on.
pub proof fn lemma_web_frame_packet_fields(
    matched_seq: u32,
    matched_t_us: u64,
    sim_us: u32,
    enc_us: u32,
    now_us: u64,
    flag: u8,
    payload: Seq<u8>,
)
    ensures
        ({
            let p = web_frame_packet_bytes(matched_seq, matched_t_us, sim_us, enc_us, now_us, flag, payload);
            &&& p.len() == 33 + payload.len()
            &&& read32(p, 0) == matched_seq
            &&& read64(p, 4) == matched_t_us
            &&& read32(p, 12) == sim_us
            &&& read32(p, 16) == 0
            &&& read32(p, 20) == enc_us
            &&& read64(p, 24) == now_us
            &&& p[32] == flag
            &&& p.skip(33) == payload
        }),
{
    let a = le32(matched_seq);
    let b = le64(matched_t_us);
    let c = le32(sim_us);
    let d = le32(0);
    let e = le32(enc_us);
    let f = le64(now_us);
    let t = seq![flag] + payload;
    let p = web_frame_packet_bytes(matched_seq, matched_t_us, sim_us, enc_us, now_us, flag, payload);
    assert(p =~= a + b + c + d + e + f + t);
    lemma_read32_le32(Seq::empty(), matched_seq, b + c + d + e + f + t);
    assert(Seq::<u8>::empty() + a + (b + c + d + e + f + t) =~= p);
    lemma_read64_le64(a, matched_t_us, c + d + e + f + t);
    assert(a + b + (c + d + e + f + t) =~= p);
    lemma_read32_le32(a + b, sim_us, d + e + f + t);
    assert(a + b + c + (d + e + f + t) =~= p);
    lemma_read32_le32(a + b + c, 0, e + f + t);
    assert(a + b + c + d + (e + f + t) =~= p);
    lemma_read32_le32(a + b + c + d, enc_us, f + t);
    assert(a + b + c + d + e + (f + t) =~= p);
    lemma_read64_le64(a + b + c + d + e, now_us, t);
    assert(a + b + c + d + e + f + t =~= p);
    assert(p.skip(33) =~= payload);
}

/// Builds a frame packet of the standalone web host.
pub fn build_web_frame_packet(
    matched_seq: u32,
    matched_t_us: u64,
    sim_us: u32,
    enc_us: u32,
    now_us: u64,
    flag: u8,
    payload: &[u8],
) -> (p: Vec<u8>)
    ensures
        p@ == web_frame_packet_bytes(matched_seq, matched_t_us, sim_us, enc_us, now_us, flag, payload@),
        p@.len() == 33 + payload@.len(),
        read32(p@, 0) == matched_seq,
        read64(p@, 4) == matched_t_us,
        read32(p@, 12) == sim_us,
        read32(p@, 16) == 0,
        read32(p@, 20) == enc_us,
        read64(p@, 24) == now_us,
        p@[32] == flag,
        p@.skip(33) == payload@,
{
    proof {
        lemma_web_frame_packet_fields(matched_seq, matched_t_us, sim_us, enc_us, now_us, flag, payload@);
    }
    let mut p: Vec<u8> = Vec::new();
    push32(&mut p, matched_seq);
    push64(&mut p, matched_t_us);
    push32(&mut p, sim_us);
    push32(&mut p, 0);
    push32(&mut p, enc_us);
    push64(&mut p, now_us);
    p.push(flag);
    let ghost head = p@;
    let mut i: usize = 0;
    while i < payload.len()
        invariant
            i <= payload@.len(),
            p@ == head + payload@.take(i as int),
        decreases payload@.len() - i,
    {
        p.push(payload[i]);
        i = i + 1;
        assert(p@ =~= head + payload@.take(i as int));
    }
    assert(payload@.take(i as int) =~= payload@);
    assert(p@ =~= web_frame_packet_bytes(matched_seq, matched_t_us, sim_us, enc_us, now_us, flag, payload@));
    p
}

/// The reply to a lag probe: a marker and the measured lag in frames.
pub fn probe_reply(lag: u8) -> (p: Vec<u8>)
    ensures
        p@ == seq![0xAAu8, 0x54u8, lag],
{
    let mut p: Vec<u8> = Vec::new();
    p.push(0xAA);
    p.push(0x54);
    p.push(lag);
    assert(p@ =~= seq![0xAAu8, 0x54u8, lag]);
    p
}

} // verus!

verus! {

use crate::reassembler::{ReassemblerView, push_spec, joined, all_received};

/// Receiving packets in order: the reassembler's final state and what the
/// last packet completed.
pub open spec fn push_all(st: ReassemblerView, pk: Seq<Seq<u8>>) -> (
    ReassemblerView,
    Option<(u32, u32, u32, u8, Seq<u8>)>,
)
    decreases pk.len(),
{
    if pk.len() == 0 {
        (st, None)
    } else {
        push_spec(push_all(st, pk.drop_last()).0, pk.last())
    }
}

/// Payload bytes of chunk `k`.
pub open spec fn chunk_data(payload: Seq<u8>, k: int) -> Seq<u8> {
    let end = if (k + 1) * 1024 < payload.len() {
        (k + 1) * 1024
    } else {
        payload.len() as int
    };
    payload.subrange(k * 1024, end)
}

/// The chunks of `payload` received so far: the first `j`.
spec fn received(payload: Seq<u8>, total: nat, j: int) -> Seq<Option<Seq<u8>>> {
    Seq::new(total, |i: int| if i < j { Some(chunk_data(payload, i)) } else { None })
}

proof fn lemma_joined_chunks(payload: Seq<u8>, total: nat, j: nat)
    requires
        total == chunk_total(payload.len()),
        j <= total,
    ensures
        joined(Seq::new(j, |i: int| Some(chunk_data(payload, i)))) == payload.subrange(
            0,
            if j * 1024 < payload.len() {
                j as int * 1024
            } else {
                payload.len() as int
            },
        ),
    decreases j,
{
    if j > 0 {
        lemma_joined_chunks(payload, total, (j - 1) as nat);
        let s = Seq::new(j, |i: int| Some(chunk_data(payload, i)));
        assert(s.drop_last() =~= Seq::new((j - 1) as nat, |i: int| Some(chunk_data(payload, i))));
        assert((j - 1) * 1024 < payload.len()) by (nonlinear_arith)
            requires
                j <= total,
                j > 0,
                total == (payload.len() + 1023) / 1024,
        ;
        let end = if j * 1024 < payload.len() {
            j as int * 1024
        } else {
            payload.len() as int
        };
        assert(payload.subrange(0, (j - 1) * 1024) + payload.subrange((j - 1) * 1024, end)
            =~= payload.subrange(0, end));
    }
}

/// A frame split into UDP chunks, received in order by a reassembler that
/// collects an older frame, comes back whole with its header fields when
/// its last chunk arrives, and no earlier chunk completes anything. Frames
/// of more than 255 chunks cannot be numbered in a chunk header and are
/// left out.
pub proof fn lemma_udp_roundtrip(
    st: ReassemblerView,
    frame_seq: u32,
    matched_seq: u32,
    sim_us: u32,
    enc_us: u32,
    flag: u8,
    payload: Seq<u8>,
)
    requires
        st.chunks.len() == st.chunk_count,
        frame_seq > st.frame_seq,
        1 <= chunk_total(payload.len()) <= 255,
    ensures
        ({
            let total = chunk_total(payload.len());
            let pk = Seq::new(
                total,
                |k: int| udp_chunk(frame_seq, matched_seq, sim_us, enc_us, flag, payload, k),
            );
            &&& push_all(st, pk).1 == Some((frame_seq, matched_seq, sim_us, flag, payload))
            &&& forall|j: int| 0 < j < total ==> (#[trigger] push_all(st, pk.take(j)).1) is None
        }),
{
    let total = chunk_total(payload.len());
    let pk = Seq::new(
        total,
        |k: int| udp_chunk(frame_seq, matched_seq, sim_us, enc_us, flag, payload, k),
    );
    assert forall|j: int| 0 < j <= total implies {
        let r = #[trigger] push_all(st, pk.take(j));
        &&& r.0 == ReassemblerView {
            frame_seq,
            chunk_count: total,
            chunks: received(payload, total, j),
            matched_seq,
            sim_us,
            enc_us,
            flag,
        }
        &&& (j < total ==> r.1 is None)
        &&& (j == total ==> r.1 == Some((frame_seq, matched_seq, sim_us, flag, payload)))
    } by {
        lemma_push_prefix(st, frame_seq, matched_seq, sim_us, enc_us, flag, payload, j as nat);
    }
    assert(pk.take(total as int) =~= pk);
}

#[verifier::rlimit(40)]
proof fn lemma_chunk_fields(
    frame_seq: u32,
    matched_seq: u32,
    sim_us: u32,
    enc_us: u32,
    flag: u8,
    payload: Seq<u8>,
    k: int,
)
    requires
        0 <= k < chunk_total(payload.len()),
        chunk_total(payload.len()) <= 255,
    ensures
        ({
            let p = udp_chunk(frame_seq, matched_seq, sim_us, enc_us, flag, payload, k);
            &&& p.len() >= 19
            &&& read32(p, 0) == frame_seq
            &&& p[4] == k
            &&& p[5] == chunk_total(payload.len())
            &&& read32(p, 6) == matched_seq
            &&& read32(p, 10) == sim_us
            &&& read32(p, 14) == enc_us
            &&& p[18] == flag
            &&& p.skip(19) == chunk_data(payload, k)
        }),
{
    let p = udp_chunk(frame_seq, matched_seq, sim_us, enc_us, flag, payload, k);
    assert(k * 1024 < payload.len()) by (nonlinear_arith)
        requires
            k < chunk_total(payload.len()),
            0 <= k,
    ;
    let total = chunk_total(payload.len());
    let mid = seq![k as u8, total as u8];
    let tail = le32(matched_seq) + le32(sim_us) + le32(enc_us) + seq![flag] + chunk_data(payload, k);
    assert(p =~= Seq::<u8>::empty() + le32(frame_seq) + (mid + tail));
    lemma_read32_le32(Seq::empty(), frame_seq, mid + tail);
    let pre1 = le32(frame_seq) + mid;
    assert(p =~= pre1 + le32(matched_seq) + (le32(sim_us) + le32(enc_us) + seq![flag] + chunk_data(
        payload,
        k,
    )));
    lemma_read32_le32(pre1, matched_seq, le32(sim_us) + le32(enc_us) + seq![flag] + chunk_data(
        payload,
        k,
    ));
    let pre2 = pre1 + le32(matched_seq);
    assert(p =~= pre2 + le32(sim_us) + (le32(enc_us) + seq![flag] + chunk_data(payload, k)));
    lemma_read32_le32(pre2, sim_us, le32(enc_us) + seq![flag] + chunk_data(payload, k));
    let pre3 = pre2 + le32(sim_us);
    assert(p =~= pre3 + le32(enc_us) + (seq![flag] + chunk_data(payload, k)));
    lemma_read32_le32(pre3, enc_us, seq![flag] + chunk_data(payload, k));
    assert(p.skip(19) =~= chunk_data(payload, k));
}

proof fn lemma_push_prefix(
    st: ReassemblerView,
    frame_seq: u32,
    matched_seq: u32,
    sim_us: u32,
    enc_us: u32,
    flag: u8,
    payload: Seq<u8>,
    j: nat,
)
    requires
        st.chunks.len() == st.chunk_count,
        frame_seq > st.frame_seq,
        1 <= chunk_total(payload.len()) <= 255,
        0 < j <= chunk_total(payload.len()),
    ensures
        ({
            let total = chunk_total(payload.len());
            let pk = Seq::new(
                total,
                |k: int| udp_chunk(frame_seq, matched_seq, sim_us, enc_us, flag, payload, k),
            );
            let r = push_all(st, pk.take(j as int));
            &&& r.0 == ReassemblerView {
                frame_seq,
                chunk_count: total,
                chunks: received(payload, total, j as int),
                matched_seq,
                sim_us,
                enc_us,
                flag,
            }
            &&& (j < total ==> r.1 is None)
            &&& (j == total ==> r.1 == Some((frame_seq, matched_seq, sim_us, flag, payload)))
        }),
    decreases j,
{
    let total = chunk_total(payload.len());
    let pk = Seq::new(
        total,
        |k: int| udp_chunk(frame_seq, matched_seq, sim_us, enc_us, flag, payload, k),
    );
    let k = j - 1;
    lemma_chunk_fields(frame_seq, matched_seq, sim_us, enc_us, flag, payload, k);
    assert(pk.take(j as int).drop_last() =~= pk.take(k));
    assert(pk.take(j as int).last() == pk[k]);
    assert(push_all(st, pk.take(j as int)) == push_spec(push_all(st, pk.take(k)).0, pk[k]));
    if k == 0 {
        assert(pk.take(0) =~= Seq::<Seq<u8>>::empty());
        assert(push_all(st, pk.take(0)).0 == st);
    }
    let prev_state = if k == 0 {
        st
    } else {
        lemma_push_prefix(st, frame_seq, matched_seq, sim_us, enc_us, flag, payload, k as nat);
        push_all(st, pk.take(k)).0
    };
    if k == 0 {
        assert(pk.take(0) =~= Seq::<Seq<u8>>::empty());
        assert(received(payload, total, 0) =~= Seq::new(total, |i: int| None::<Seq<u8>>));
    }
    assert(push_all(st, pk.take(j as int)) == push_spec(prev_state, pk[k]));
    assert(received(payload, total, k).update(k, Some(chunk_data(payload, k))) =~= received(
        payload,
        total,
        j as int,
    ));
    if j < total {
        assert(!(received(payload, total, j as int)[j as int] is Some));
    } else {
        assert(all_received(received(payload, total, j as int)));
        lemma_joined_chunks(payload, total, total);
        assert(received(payload, total, j as int) =~= Seq::new(
            total,
            |i: int| Some(chunk_data(payload, i)),
        ));
        assert((total - 1) * 1024 < payload.len() && total * 1024 >= payload.len()) by (
        nonlinear_arith)
            requires
                total == (payload.len() + 1023) / 1024,
                total >= 1,
        ;
        assert(payload.subrange(0, payload.len() as int) =~= payload);
    }
}

} // verus!
