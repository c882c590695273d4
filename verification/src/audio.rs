//! Audio framing: PCM samples collected over a frame and sent as one LZ4
//! block of little-endian 16-bit samples.

use vstd::prelude::*;
use crate::le::{le16, le16_seq, read16, push16, lemma_read16_at};
use crate::lz4::{lz4_compressed, compress_prepend_size};

verus! {

/// The little-endian bytes of signed 16-bit samples.
pub open spec fn pcm_bytes(s: Seq<i16>) -> Seq<u8> {
    le16_seq(s.map_values(|x: i16| x as u16))
}

/// Collects interleaved PCM samples and compresses them once per frame.
/// Both fields are public so that contracts can speak of `sample_rate`
/// outside this module; `buffer` holds the samples collected so far.
pub struct AudioEncoder {
    pub sample_rate: u32,
    pub buffer: Vec<i16>,
}

impl AudioEncoder {
    /// Samples collected since the last flush.
    pub open spec fn buffered(&self) -> Seq<i16> {
        self.buffer@
    }

    /// The sample rate the encoder was made for.
    pub open spec fn rate(&self) -> u32 {
        self.sample_rate
    }

    /// An encoder for the given sample rate with nothing collected.
    pub fn new(sample_rate: u32) -> (a: Self)
        ensures
            a.rate() == sample_rate,
            a.sample_rate == sample_rate,
            a.buffered() == Seq::<i16>::empty(),
    {
        AudioEncoder { sample_rate, buffer: Vec::new() }
    }

    /// Appends samples to those collected.
    pub fn push_samples(&mut self, samples: &[i16])
        ensures
            final(self).buffered() == old(self).buffered() + samples@,
            final(self).rate() == old(self).rate(),
    {
        let mut i: usize = 0;
        while i < samples.len()
            invariant
                i <= samples@.len(),
                self.sample_rate == old(self).sample_rate,
                self.buffer@ == old(self).buffer@ + samples@.take(i as int),
            decreases samples@.len() - i,
        {
            self.buffer.push(samples[i]);
            i = i + 1;
            assert(self.buffer@ =~= old(self).buffer@ + samples@.take(i as int));
        }
        assert(samples@.take(i as int) =~= samples@);
    }

    /// Compresses and clears the collected samples; nothing when none were
    /// collected.
    pub fn flush_frame_lz4(&mut self) -> (r: Option<Vec<u8>>)
        ensures
            final(self).rate() == old(self).rate(),
            old(self).buffered().len() == 0 ==> r is None && final(self).buffered() == old(
                self,
            ).buffered(),
            old(self).buffered().len() > 0 ==> r is Some && r->Some_0@ == lz4_compressed(
                pcm_bytes(old(self).buffered()),
            ) && final(self).buffered() == Seq::<i16>::empty(),
    {
        if self.buffer.len() == 0 {
            return None;
        }
        let mut bytes: Vec<u8> = Vec::new();
        let mut i: usize = 0;
        while i < self.buffer.len()
            invariant
                i <= self.buffer@.len(),
                bytes@ == pcm_bytes(self.buffer@.take(i as int)),
            decreases self.buffer@.len() - i,
        {
            push16(&mut bytes, self.buffer[i] as u16);
            i = i + 1;
            assert(self.buffer@.take(i as int).map_values(|x: i16| x as u16) =~= self.buffer@.take(
                i - 1,
            ).map_values(|x: i16| x as u16).push(self.buffer@[i - 1] as u16));
            assert(bytes@ =~= pcm_bytes(self.buffer@.take(i as int)));
        }
        assert(self.buffer@.take(i as int) =~= self.buffer@);
        let compressed = compress_prepend_size(bytes.as_slice());
        self.buffer.clear();
        Some(compressed)
    }
}

/// PCM samples read back from their little-endian bytes are the samples.
pub proof fn lemma_pcm_lossless(s: Seq<i16>)
    ensures
        pcm_bytes(s).len() == 2 * s.len(),
        Seq::new(s.len(), |k: int| read16(pcm_bytes(s), 2 * k) as i16) == s,
{
    let u = s.map_values(|x: i16| x as u16);
    assert forall|k: int| 0 <= k < s.len() implies #[trigger] (read16(pcm_bytes(s), 2 * k) as i16)
        == s[k] by {
        lemma_read16_at(Seq::empty(), u, Seq::empty(), k);
        assert(Seq::<u8>::empty() + le16_seq(u) + Seq::<u8>::empty() =~= pcm_bytes(s));
        let x = s[k];
        assert(((x as u16) as i16) == x) by (bit_vector);
    }
    assert(Seq::new(s.len(), |k: int| read16(pcm_bytes(s), 2 * k) as i16) =~= s);
}

} // verus!
