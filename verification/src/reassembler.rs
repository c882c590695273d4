//! Client side of the UDP video transport: reassembles the chunks of the
//! freshest frame, dropping chunks of older frames.

use vstd::prelude::*;
use crate::le::{le32, read32, get32, lemma_read32_le32};
use crate::packets::{chunk_total, udp_chunk};
use vstd::set_lib::{set_int_range, lemma_int_range, lemma_len_subset, lemma_subset_equality};

verus! {

/// What a reassembler holds: the sequence number of the frame it collects,
/// the number of chunks of that frame, the chunks received so far, and the
/// frame's header fields.
pub struct ReassemblerView {
    pub frame_seq: u32,
    pub chunk_count: nat,
    pub chunks: Seq<Option<Seq<u8>>>,
    pub matched_seq: u32,
    pub sim_us: u32,
    pub enc_us: u32,
    pub flag: u8,
}

/// The received chunks joined in chunk order.
pub open spec fn joined(chunks: Seq<Option<Seq<u8>>>) -> Seq<u8>
    decreases chunks.len(),
{
    if chunks.len() == 0 {
        Seq::empty()
    } else {
        joined(chunks.drop_last()) + chunks.last().unwrap()
    }
}

/// Every chunk has arrived.
pub open spec fn all_received(chunks: Seq<Option<Seq<u8>>>) -> bool {
    forall|i: int| 0 <= i < chunks.len() ==> (#[trigger] chunks[i]) is Some
}

/// What receiving `packet` does: the reassembler's new state and the
/// completed frame (sequence, matched input sequence, simulation time, flag,
/// payload), if this packet completed one. A packet of a newer frame
/// replaces the frame being collected; a packet of an older frame, or with a
/// chunk index past the frame's chunk count, is dropped. A packet header is
/// 19 bytes: frame sequence (u32), chunk index, chunk count, matched input
/// sequence (u32), simulation and encoding times (u32 each), and flag.
pub open spec fn push_spec(st: ReassemblerView, packet: Seq<u8>) -> (
    ReassemblerView,
    Option<(u32, u32, u32, u8, Seq<u8>)>,
) {
    if packet.len() < 19 {
        (st, None)
    } else {
        let fs = read32(packet, 0);
        let idx = packet[4] as int;
        let cnt = packet[5] as nat;
        let st1 = if fs > st.frame_seq {
            ReassemblerView {
                frame_seq: fs,
                chunk_count: cnt,
                chunks: Seq::new(cnt, |i: int| None),
                matched_seq: read32(packet, 6),
                sim_us: read32(packet, 10),
                enc_us: read32(packet, 14),
                flag: packet[18],
            }
        } else {
            st
        };
        if fs == st1.frame_seq && idx < st1.chunk_count {
            let st2 = ReassemblerView {
                chunks: st1.chunks.update(idx, Some(packet.skip(19))),
                ..st1
            };
            if all_received(st2.chunks) {
                (
                    st2,
                    Some((st2.frame_seq, st2.matched_seq, st2.sim_us, st2.flag, joined(st2.chunks))),
                )
            } else {
                (st2, None)
            }
        } else {
            (st1, None)
        }
    }
}

/// A packet shorter than its header, or of an older frame than the one
/// being collected, is dropped: the reassembler stays as it was and
/// completes nothing. A packet of a newer frame starts collecting that frame,
/// with the packet's chunk count; no packet takes the reassembler back to an
/// older frame.
pub proof fn lemma_push_old_or_new(st: ReassemblerView, packet: Seq<u8>)
    ensures
        packet.len() < 19 ==> push_spec(st, packet) == (st, None::<(u32, u32, u32, u8, Seq<u8>)>),
        packet.len() >= 19 && read32(packet, 0) < st.frame_seq ==> push_spec(st, packet) == (
            st,
            None::<(u32, u32, u32, u8, Seq<u8>)>,
        ),
        packet.len() >= 19 && read32(packet, 0) > st.frame_seq ==> push_spec(st, packet).0.frame_seq
            == read32(packet, 0) && push_spec(st, packet).0.chunk_count == packet[5] as nat,
        packet.len() >= 19 && read32(packet, 0) <= st.frame_seq ==> push_spec(st, packet).0.frame_seq
            == st.frame_seq,
{
}

/// Reassembles chunked frames.
pub struct FrameReassembler {
    current_frame_seq: u32,
    chunk_count: usize,
    chunks: Vec<Option<Vec<u8>>>,
    matched_seq: u32,
    sim_us: u32,
    enc_us: u32,
    flag: u8,
}

impl FrameReassembler {
    /// The reassembler's state.
    pub closed spec fn view(&self) -> ReassemblerView {
        ReassemblerView {
            frame_seq: self.current_frame_seq,
            chunk_count: self.chunk_count as nat,
            chunks: self.chunks@.map_values(|c: Option<Vec<u8>>| match c {
                Some(v) => Some(v@),
                None => None,
            }),
            matched_seq: self.matched_seq,
            sim_us: self.sim_us,
            enc_us: self.enc_us,
            flag: self.flag,
        }
    }

    /// One slot per chunk of the frame.
    pub closed spec fn wf(&self) -> bool {
        self.chunks@.len() == self.chunk_count
    }

    /// A reassembler collecting frame 0, which has no chunks.
    pub fn new() -> (r: Self)
        ensures
            r.wf(),
            r.view() == (ReassemblerView {
                frame_seq: 0,
                chunk_count: 0,
                chunks: Seq::empty(),
                matched_seq: 0,
                sim_us: 0,
                enc_us: 0,
                flag: 0,
            }),
    {
        let r = FrameReassembler {
            current_frame_seq: 0,
            chunk_count: 0,
            chunks: Vec::new(),
            matched_seq: 0,
            sim_us: 0,
            enc_us: 0,
            flag: 0,
        };
        assert(r.view().chunks =~= Seq::empty());
        r
    }

    /// Receives one packet; returns the frame it completed, if any. A packet
    /// of an older frame than the one being collected, or one shorter than
    /// its header, is dropped; a packet of a newer frame starts collecting
    /// that frame.
    pub fn push_chunk(&mut self, packet: &[u8]) -> (r: Option<(u32, u32, u32, u8, Vec<u8>)>)
        requires
            old(self).wf(),
        ensures
            final(self).wf(),
            packet@.len() < 19 ==> r is None && final(self).view() == old(self).view(),
            packet@.len() >= 19 && read32(packet@, 0) < old(self).view().frame_seq ==> r is None
                && final(self).view() == old(self).view(),
            packet@.len() >= 19 && read32(packet@, 0) > old(self).view().frame_seq
                ==> final(self).view().frame_seq == read32(packet@, 0)
                && final(self).view().chunk_count == packet@[5] as nat,
            packet@.len() >= 19 && read32(packet@, 0) <= old(self).view().frame_seq
                ==> final(self).view().frame_seq == old(self).view().frame_seq,
            final(self).view() == push_spec(old(self).view(), packet@).0,
            match (r, push_spec(old(self).view(), packet@).1) {
                (None, None) => true,
                (Some((a, b, c, d, v)), Some((a2, b2, c2, d2, v2))) => a == a2 && b == b2 && c == c2
                    && d == d2 && v@ == v2,
                _ => false,
            },
    {
        proof {
            lemma_push_old_or_new(self.view(), packet@);
        }
        if packet.len() < 19 {
            return None;
        }
        let frame_seq = get32(packet, 0);
        let chunk_idx = packet[4] as usize;
        let chunk_count = packet[5] as usize;
        let matched_seq = get32(packet, 6);
        let sim_us = get32(packet, 10);
        let enc_us = get32(packet, 14);
        let flag = packet[18];
        if frame_seq > self.current_frame_seq {
            self.current_frame_seq = frame_seq;
            self.chunk_count = chunk_count;
            let mut chunks: Vec<Option<Vec<u8>>> = Vec::new();
            let mut i: usize = 0;
            while i < chunk_count
                invariant
                    i <= chunk_count,
                    chunks@.len() == i,
                    forall|j: int| 0 <= j < i ==> (#[trigger] chunks@[j]) is None,
                decreases chunk_count - i,
            {
                chunks.push(None);
                i = i + 1;
            }
            self.chunks = chunks;
            self.matched_seq = matched_seq;
            self.sim_us = sim_us;
            self.enc_us = enc_us;
            self.flag = flag;
            assert(self.view().chunks =~= Seq::new(chunk_count as nat, |i: int| None));
        }
        let ghost st1 = self.view();
        if frame_seq == self.current_frame_seq && chunk_idx < self.chunk_count {
            let mut data: Vec<u8> = Vec::new();
            let mut k: usize = 19;
            while k < packet.len()
                invariant
                    19 <= k <= packet@.len(),
                    data@ == packet@.subrange(19, k as int),
                decreases packet@.len() - k,
            {
                data.push(packet[k]);
                k = k + 1;
                assert(data@ =~= packet@.subrange(19, k as int));
            }
            assert(packet@.subrange(19, packet@.len() as int) =~= packet@.skip(19));
            self.chunks.set(chunk_idx, Some(data));
            assert(self.view().chunks =~= st1.chunks.update(chunk_idx as int, Some(packet@.skip(19))));
            let mut all = true;
            let mut i: usize = 0;
            while i < self.chunks.len()
                invariant
                    i <= self.chunks@.len(),
                    all == (forall|j: int| 0 <= j < i ==> (#[trigger] self.view().chunks[j]) is Some),
                decreases self.chunks@.len() - i,
            {
                assert((self.view().chunks[i as int] is None) == (self.chunks@[i as int] is None));
                if self.chunks[i].is_none() {
                    all = false;
                }
                i = i + 1;
            }
            if all {
                let mut full: Vec<u8> = Vec::new();
                let mut i: usize = 0;
                while i < self.chunks.len()
                    invariant
                        i <= self.chunks@.len(),
                        all_received(self.view().chunks),
                        full@ == joined(self.view().chunks.take(i as int)),
                    decreases self.chunks@.len() - i,
                {
                    assert(self.view().chunks[i as int] is Some);
                    match &self.chunks[i] {
                        Some(c) => {
                            let ghost before = full@;
                            let mut k: usize = 0;
                            while k < c.len()
                                invariant
                                    k <= c@.len(),
                                    full@ == before + c@.take(k as int),
                                decreases c@.len() - k,
                            {
                                full.push(c[k]);
                                k = k + 1;
                                assert(full@ =~= before + c@.take(k as int));
                            }
                            assert(c@.take(k as int) =~= c@);
                        },
                        None => {},
                    }
                    i = i + 1;
                    assert(self.view().chunks.take(i as int).drop_last() =~= self.view().chunks.take(
                        i - 1,
                    ));
                }
                assert(self.view().chunks.take(i as int) =~= self.view().chunks);
                return Some((self.current_frame_seq, self.matched_seq, self.sim_us, self.flag, full));
            }
        }
        None
    }
}

/// The packet that carries `data` as chunk `i` of the `n` chunks of frame
/// `s`, with the frame's header fields.
pub open spec fn chunk_packet(
    s: u32,
    i: u8,
    n: u8,
    matched: u32,
    sim: u32,
    enc: u32,
    flag: u8,
    data: Seq<u8>,
) -> Seq<u8> {
    le32(s) + seq![i, n] + le32(matched) + le32(sim) + le32(enc) + seq![flag] + data
}

/// Receiving `packets` one after another: the reassembler's final state and
/// what each receipt returned.
pub open spec fn push_all(st: ReassemblerView, packets: Seq<Seq<u8>>) -> (
    ReassemblerView,
    Seq<Option<(u32, u32, u32, u8, Seq<u8>)>>,
)
    decreases packets.len(),
{
    if packets.len() == 0 {
        (st, Seq::empty())
    } else {
        let (st1, outs) = push_all(st, packets.drop_last());
        let (st2, o) = push_spec(st1, packets.last());
        (st2, outs.push(o))
    }
}

/// The chunks of a frame, sent in the order `order` names them.
pub open spec fn chunks_in_order(
    s: u32,
    matched: u32,
    sim: u32,
    enc: u32,
    flag: u8,
    data: Seq<Seq<u8>>,
    order: Seq<int>,
) -> Seq<Seq<u8>> {
    Seq::new(
        order.len(),
        |k: int|
            chunk_packet(s, order[k] as u8, data.len() as u8, matched, sim, enc, flag, data[order[k]]),
    )
}

/// `order` lists each of `0..n` once.
pub open spec fn is_order_of(order: Seq<int>, n: nat) -> bool {
    &&& order.len() == n
    &&& forall|k: int| 0 <= k < n ==> 0 <= #[trigger] order[k] < n
    &&& order.no_duplicates()
}

/// The header fields and the chunk of a chunk packet read back.
proof fn lemma_chunk_packet(
    s: u32,
    i: u8,
    n: u8,
    matched: u32,
    sim: u32,
    enc: u32,
    flag: u8,
    data: Seq<u8>,
)
    ensures
        ({
            let p = chunk_packet(s, i, n, matched, sim, enc, flag, data);
            &&& p.len() >= 19
            &&& read32(p, 0) == s
            &&& p[4] == i
            &&& p[5] == n
            &&& read32(p, 6) == matched
            &&& read32(p, 10) == sim
            &&& read32(p, 14) == enc
            &&& p[18] == flag
            &&& p.skip(19) == data
        }),
{
    let p = chunk_packet(s, i, n, matched, sim, enc, flag, data);
    let a = seq![i, n];
    let tail = seq![flag] + data;
    lemma_read32_le32(Seq::empty(), s, a + le32(matched) + le32(sim) + le32(enc) + tail);
    assert(Seq::<u8>::empty() + le32(s) + (a + le32(matched) + le32(sim) + le32(enc) + tail) =~= p);
    lemma_read32_le32(le32(s) + a, matched, le32(sim) + le32(enc) + tail);
    assert(le32(s) + a + le32(matched) + (le32(sim) + le32(enc) + tail) =~= p);
    lemma_read32_le32(le32(s) + a + le32(matched), sim, le32(enc) + tail);
    assert(le32(s) + a + le32(matched) + le32(sim) + (le32(enc) + tail) =~= p);
    lemma_read32_le32(le32(s) + a + le32(matched) + le32(sim), enc, tail);
    assert(le32(s) + a + le32(matched) + le32(sim) + le32(enc) + tail =~= p);
    assert(p.skip(19) =~= data);
}

/// After the first `k` chunks of the order arrived, the reassembler
/// collects the frame with the chunks received so far, and no receipt but
/// possibly the last of all returned a frame.
proof fn lemma_push_prefix(
    st: ReassemblerView,
    s: u32,
    matched: u32,
    sim: u32,
    enc: u32,
    flag: u8,
    data: Seq<Seq<u8>>,
    order: Seq<int>,
    k: nat,
)
    requires
        st.frame_seq < s,
        1 <= data.len() <= 255,
        is_order_of(order, data.len()),
        k <= data.len(),
    ensures
        ({
            let n = data.len();
            let (stk, outs) = push_all(st, chunks_in_order(s, matched, sim, enc, flag, data, order).take(k as int));
            &&& outs.len() == k
            &&& k > 0 ==> stk.frame_seq == s && stk.chunk_count == n && stk.matched_seq == matched
                && stk.sim_us == sim && stk.enc_us == enc && stk.flag == flag && stk.chunks.len() == n
            &&& k > 0 ==> forall|j: int|
                0 <= j < n ==> #[trigger] stk.chunks[j] == if order.take(k as int).contains(j) {
                    Some(data[j])
                } else {
                    None
                }
            &&& forall|m: int| 0 <= m < k && m < n - 1 ==> (#[trigger] outs[m]) is None
            &&& k == n ==> outs[n - 1] == Some((s, matched, sim, flag, joined(Seq::new(n, |j: int| Some(data[j])))))
        }),
    decreases k,
{
    let n = data.len();
    let packets = chunks_in_order(s, matched, sim, enc, flag, data, order);
    if k == 0 {
        assert(packets.take(0) =~= Seq::<Seq<u8>>::empty());
    } else {
        lemma_push_prefix(st, s, matched, sim, enc, flag, data, order, (k - 1) as nat);
        let pk = packets.take(k as int);
        assert(pk.drop_last() =~= packets.take(k - 1));
        let (st1, outs1) = push_all(st, packets.take(k - 1));
        let i = order[k - 1];
        let p = pk.last();
        assert(p == chunk_packet(s, i as u8, n as u8, matched, sim, enc, flag, data[i]));
        lemma_chunk_packet(s, i as u8, n as u8, matched, sim, enc, flag, data[i]);
        let (st2, o) = push_spec(st1, p);
        let prev = order.take(k - 1);
        let cur = order.take(k as int);
        assert(cur =~= prev.push(i));
        assert forall|j: int| 0 <= j < n implies #[trigger] st2.chunks[j] == if cur.contains(j) {
            Some(data[j])
        } else {
            None
        } by {
            if j == i {
                assert(cur[k - 1] == j);
            } else {
                if cur.contains(j) {
                    let w = choose|w: int| 0 <= w < cur.len() && cur[w] == j;
                    assert(w < k - 1);
                    assert(prev[w] == j);
                }
                if k > 1 && prev.contains(j) {
                    let w = choose|w: int| 0 <= w < prev.len() && prev[w] == j;
                    assert(cur[w] == j);
                }
            }
        }
        let range = set_int_range(0, n as int);
        lemma_int_range(0, n as int);
        assert(cur.no_duplicates()) by {
            assert forall|a: int, b: int| 0 <= a < cur.len() && 0 <= b < cur.len() && a != b implies cur[a] != cur[b] by {
                assert(cur[a] == order[a]);
                assert(cur[b] == order[b]);
            }
        }
        cur.unique_seq_to_set();
        assert(cur.to_set().subset_of(range)) by {
            assert forall|x: int| cur.to_set().contains(x) implies range.contains(x) by {
                assert(cur.contains(x));
                let w = choose|w: int| 0 <= w < cur.len() && cur[w] == x;
                assert(order[w] == x);
            }
        }
        lemma_len_subset(cur.to_set(), range);
        if k < n {
            if all_received(st2.chunks) {
                assert(range.subset_of(cur.to_set())) by {
                    assert forall|x: int| range.contains(x) implies cur.to_set().contains(x) by {
                        assert(st2.chunks[x] is Some);
                    }
                }
                lemma_len_subset(range, cur.to_set());
                assert(false);
            }
        } else {
            lemma_subset_equality(cur.to_set(), range);
            assert forall|x: int| 0 <= x < st2.chunks.len() implies (#[trigger] st2.chunks[x]) is Some by {
                assert(range.contains(x));
                assert(cur.to_set().contains(x));
            }
            assert(st2.chunks =~= Seq::new(n, |j: int| Some(data[j])));
        }
    }
}

/// Joining every chunk of a frame in chunk order gives the chunks'
/// concatenation.
proof fn lemma_joined_all(data: Seq<Seq<u8>>)
    ensures
        joined(Seq::new(data.len(), |j: int| Some(data[j]))) == data.flatten(),
    decreases data.len(),
{
    data.lemma_flatten_and_flatten_alt_are_equivalent();
    if data.len() > 0 {
        let pre = data.drop_last();
        lemma_joined_all(pre);
        pre.lemma_flatten_and_flatten_alt_are_equivalent();
        assert(Seq::new(data.len(), |j: int| Some(data[j])).drop_last() =~= Seq::new(
            pre.len(),
            |j: int| Some(pre[j]),
        ));
    }
}

/// Reassembly does not depend on the order in which the chunks of a frame
/// arrive: when the chunks of a frame newer than the one being collected
/// arrive each once, in any order and with no other packet between them,
/// every receipt but the last returns nothing and the last returns the frame
/// with its header fields and the concatenation of its chunks in chunk
/// order.
pub proof fn lemma_reassembly_any_order(
    st: ReassemblerView,
    s: u32,
    matched: u32,
    sim: u32,
    enc: u32,
    flag: u8,
    data: Seq<Seq<u8>>,
    order: Seq<int>,
)
    requires
        st.frame_seq < s,
        1 <= data.len() <= 255,
        is_order_of(order, data.len()),
    ensures
        ({
            let n = data.len();
            let outs = push_all(st, chunks_in_order(s, matched, sim, enc, flag, data, order)).1;
            &&& outs.len() == n
            &&& forall|m: int| 0 <= m < n - 1 ==> (#[trigger] outs[m]) is None
            &&& outs[n - 1] == Some((s, matched, sim, flag, data.flatten()))
        }),
{
    let packets = chunks_in_order(s, matched, sim, enc, flag, data, order);
    lemma_joined_all(data);
    lemma_push_prefix(st, s, matched, sim, enc, flag, data, order, data.len());
    assert(packets.take(data.len() as int) =~= packets);
}

/// The payload bytes that UDP chunk `k` of a frame carries.
pub open spec fn chunk_bytes(payload: Seq<u8>, k: int) -> Seq<u8> {
    payload.subrange(
        k * 1024,
        if (k + 1) * 1024 < payload.len() {
            (k + 1) * 1024
        } else {
            payload.len() as int
        },
    )
}

/// The fields of UDP chunk `k` of a frame read back from their offsets:
/// frame sequence at 0, chunk index at 4, chunk count at 5, matched input
/// sequence at 6, simulation time at 10, encoding time at 14, flag at 18,
/// and from 19 on the 1024 payload bytes from `1024 * k` (fewer in the
/// last chunk).
pub proof fn lemma_udp_chunk_fields(
    frame_seq: u32,
    matched: u32,
    sim: u32,
    enc: u32,
    flag: u8,
    payload: Seq<u8>,
    k: int,
)
    requires
        0 <= k < chunk_total(payload.len()),
        chunk_total(payload.len()) <= 255,
    ensures
        ({
            let c = udp_chunk(frame_seq, matched, sim, enc, flag, payload, k);
            &&& c.len() >= 19
            &&& read32(c, 0) == frame_seq
            &&& c[4] as int == k
            &&& c[5] as nat == chunk_total(payload.len())
            &&& read32(c, 6) == matched
            &&& read32(c, 10) == sim
            &&& read32(c, 14) == enc
            &&& c[18] == flag
            &&& c.skip(19) == payload.subrange(k * 1024, if (k + 1) * 1024 < payload.len() {
                (k + 1) * 1024
            } else {
                payload.len() as int
            })
        }),
{
    let n = chunk_total(payload.len());
    assert(udp_chunk(frame_seq, matched, sim, enc, flag, payload, k) =~= chunk_packet(
        frame_seq,
        k as u8,
        n as u8,
        matched,
        sim,
        enc,
        flag,
        chunk_bytes(payload, k),
    ));
    lemma_chunk_packet(frame_seq, k as u8, n as u8, matched, sim, enc, flag, chunk_bytes(payload, k));
}

/// The first `k` chunks of a payload, joined, are its first `1024 * k`
/// bytes (or all of it).
proof fn lemma_chunks_prefix(payload: Seq<u8>, k: nat)
    requires
        k <= chunk_total(payload.len()),
    ensures
        Seq::new(k, |j: int| chunk_bytes(payload, j)).flatten_alt() == payload.subrange(
            0,
            if k * 1024 < payload.len() {
                (k * 1024) as int
            } else {
                payload.len() as int
            },
        ),
    decreases k,
{
    if k > 0 {
        let km = (k - 1) as nat;
        lemma_chunks_prefix(payload, km);
        assert(Seq::new(k, |j: int| chunk_bytes(payload, j)).drop_last() =~= Seq::new(
            km,
            |j: int| chunk_bytes(payload, j),
        ));
        assert(km * 1024 < payload.len()) by (nonlinear_arith)
            requires
                km < chunk_total(payload.len()),
                chunk_total(payload.len()) == (payload.len() + 1023) / 1024,
        ;
        assert(k * 1024 == km * 1024 + 1024);
        assert(Seq::new(k, |j: int| chunk_bytes(payload, j)).flatten_alt() =~= payload.subrange(
            0,
            if k * 1024 < payload.len() {
                (k * 1024) as int
            } else {
                payload.len() as int
            },
        ));
    }
}

/// Splitting a frame into UDP chunks and receiving them gives the frame
/// back, whatever order the chunks arrive in: when the chunks of a frame
/// newer than the one being collected arrive each once, in any order and
/// with no other packet between them, every receipt but the last returns
/// nothing, and the last returns the frame's sequence, matched input
/// sequence, simulation time, flag and the whole payload.
pub proof fn lemma_udp_frame_roundtrip(
    st: ReassemblerView,
    s: u32,
    matched: u32,
    sim: u32,
    enc: u32,
    flag: u8,
    payload: Seq<u8>,
    order: Seq<int>,
)
    requires
        st.frame_seq < s,
        1 <= chunk_total(payload.len()) <= 255,
        is_order_of(order, chunk_total(payload.len())),
    ensures
        ({
            let n = chunk_total(payload.len());
            let packets = Seq::new(
                n,
                |k: int| udp_chunk(s, matched, sim, enc, flag, payload, order[k]),
            );
            let outs = push_all(st, packets).1;
            &&& outs.len() == n
            &&& forall|m: int| 0 <= m < n - 1 ==> (#[trigger] outs[m]) is None
            &&& outs[n - 1] == Some((s, matched, sim, flag, payload))
        }),
{
    let n = chunk_total(payload.len());
    let data = Seq::new(n, |j: int| chunk_bytes(payload, j));
    let packets = Seq::new(n, |k: int| udp_chunk(s, matched, sim, enc, flag, payload, order[k]));
    assert(packets =~= chunks_in_order(s, matched, sim, enc, flag, data, order)) by {
        assert forall|k: int| 0 <= k < n implies #[trigger] packets[k] == chunks_in_order(
            s,
            matched,
            sim,
            enc,
            flag,
            data,
            order,
        )[k] by {
            assert(0 <= order[k] < n);
            assert(udp_chunk(s, matched, sim, enc, flag, payload, order[k]) =~= chunk_packet(
                s,
                order[k] as u8,
                n as u8,
                matched,
                sim,
                enc,
                flag,
                data[order[k]],
            ));
        }
    }
    lemma_reassembly_any_order(st, s, matched, sim, enc, flag, data, order);
    lemma_chunks_prefix(payload, n);
    assert(Seq::new(n, |j: int| chunk_bytes(payload, j)) == data);
    data.lemma_flatten_and_flatten_alt_are_equivalent();
    assert(n * 1024 >= payload.len()) by (nonlinear_arith)
        requires
            n == (payload.len() + 1023) / 1024,
    ;
    assert(payload.subrange(0, payload.len() as int) =~= payload);
}

} // verus!
