//! Palettes of colours in order of first appearance, and indexing of pixels
//! into them.

use vstd::prelude::*;
use std::collections::HashMap;

verus! {

broadcast use vstd::std_specs::hash::group_hash_axioms;

/// The distinct colours of `s` in the order in which they first appear.
pub open spec fn palette(s: Seq<u16>) -> Seq<u16>
    decreases s.len(),
{
    if s.len() == 0 {
        Seq::empty()
    } else {
        let p = palette(s.drop_last());
        if p.contains(s.last()) {
            p
        } else {
            p.push(s.last())
        }
    }
}

/// The palette index of colour `c`.
pub open spec fn pal_index(pal: Seq<u16>, c: u16) -> int {
    pal.index_of(c)
}

/// A palette holds each colour once, holds every colour of its pixels, and
/// nothing else.
pub proof fn lemma_palette(s: Seq<u16>)
    ensures
        palette(s).no_duplicates(),
        forall|i: int| 0 <= i < s.len() ==> palette(s).contains(#[trigger] s[i]),
        forall|k: int| 0 <= k < palette(s).len() ==> s.contains(#[trigger] palette(s)[k]),
        palette(s).len() <= s.len(),
    decreases s.len(),
{
    if s.len() > 0 {
        let t = s.drop_last();
        lemma_palette(t);
        let p = palette(t);
        assert forall|i: int| 0 <= i < s.len() implies palette(s).contains(#[trigger] s[i]) by {
            if i < s.len() - 1 {
                assert(t[i] == s[i]);
                assert(p.contains(t[i]));
                if !p.contains(s.last()) {
                    let k = choose|k: int| 0 <= k < p.len() && p[k] == s[i];
                    assert(palette(s)[k] == s[i]);
                }
            } else {
                if !p.contains(s.last()) {
                    assert(palette(s)[p.len() as int] == s.last());
                }
            }
        }
        assert forall|k: int| 0 <= k < palette(s).len() implies s.contains(
            #[trigger] palette(s)[k],
        ) by {
            if k < p.len() {
                assert(t.contains(p[k]));
                let j = choose|j: int| 0 <= j < t.len() && t[j] == p[k];
                assert(s[j] == p[k]);
            } else {
                assert(s[s.len() - 1] == s.last());
            }
        }
    }
}

/// The index of a colour held once is where it is held.
pub proof fn lemma_index_of_unique(pal: Seq<u16>, k: int)
    requires
        pal.no_duplicates(),
        0 <= k < pal.len(),
    ensures
        pal_index(pal, pal[k]) == k,
{
    assert(pal.contains(pal[k]));
}

/// The palette of a prefix is no longer than the palette of the whole.
pub proof fn lemma_palette_prefix_len(s: Seq<u16>, i: int)
    requires
        0 <= i <= s.len(),
    ensures
        palette(s.take(i)).len() <= palette(s).len(),
    decreases s.len() - i,
{
    if i < s.len() {
        lemma_palette_prefix_len(s, i + 1);
        assert(s.take(i + 1).drop_last() =~= s.take(i));
    } else {
        assert(s.take(i) =~= s);
    }
}

/// Builds the palette of `pixels` and the palette index of every pixel,
/// giving up when the palette would grow past `limit` colours.
pub fn build_palette(pixels: &[u16], limit: usize) -> (r: (bool, Vec<u16>, Vec<u8>))
    requires
        limit <= 256,
    ensures
        r.0 == (palette(pixels@).len() <= limit),
        r.0 ==> r.1@ == palette(pixels@),
        r.0 ==> r.2@ == Seq::new(
            pixels@.len(),
            |p: int| pal_index(palette(pixels@), pixels@[p]) as u8,
        ),
{
    let mut color_map: HashMap<u16, u8> = HashMap::new();
    let mut pal: Vec<u16> = Vec::new();
    let mut indices: Vec<u8> = Vec::new();
    let mut p: usize = 0;
    while p < pixels.len()
        invariant
            limit <= 256,
            p <= pixels@.len(),
            pal@ == palette(pixels@.take(p as int)),
            pal@.len() <= limit,
            pal@.no_duplicates(),
            forall|c: u16| color_map@.contains_key(c) <==> pal@.contains(c),
            forall|c: u16|
                color_map@.contains_key(c) ==> (#[trigger] color_map@[c] as int) < pal@.len()
                    && pal@[color_map@[c] as int] == c,
            indices@ == Seq::new(p as nat, |q: int| pal_index(pal@, pixels@[q]) as u8),
            forall|q: int| 0 <= q < p ==> pal@.contains(#[trigger] pixels@[q]),
        decreases pixels@.len() - p,
    {
        let c = pixels[p];
        assert(pixels@.take(p + 1).drop_last() =~= pixels@.take(p as int));
        assert(pixels@.take(p + 1).last() == c);
        match color_map.get(&c) {
            Some(idx) => {
                let idx = *idx;
                proof {
                    lemma_index_of_unique(pal@, idx as int);
                }
                indices.push(idx);
            },
            None => {
                if pal.len() >= limit {
                    proof {
                        assert(palette(pixels@.take(p + 1)) == pal@.push(c));
                        lemma_palette_prefix_len(pixels@, p + 1);
                    }
                    return (false, pal, indices);
                }
                let idx = pal.len() as u8;
                let ghost old_pal = pal@;
                let ghost old_map = color_map@;
                assert(!color_map@.contains_key(c));
                assert(!old_pal.contains(c));
                color_map.insert(c, idx);
                pal.push(c);
                proof {
                    assert forall|i: int, j: int|
                        0 <= i < pal@.len() && 0 <= j < pal@.len() && i != j implies pal@[i]
                        != pal@[j] by {
                        if i == old_pal.len() {
                            assert(old_pal[j] == pal@[j]);
                        } else if j == old_pal.len() {
                            assert(old_pal[i] == pal@[i]);
                        } else {
                            assert(old_pal[i] == pal@[i]);
                            assert(old_pal[j] == pal@[j]);
                        }
                    }
                    assert forall|c2: u16| color_map@.contains_key(c2) <==> pal@.contains(c2) by {
                        if c2 != c {
                            if pal@.contains(c2) {
                                let k = choose|k: int| 0 <= k < pal@.len() && pal@[k] == c2;
                                assert(old_pal[k] == c2);
                            }
                            if old_pal.contains(c2) {
                                let k = choose|k: int| 0 <= k < old_pal.len() && old_pal[k] == c2;
                                assert(pal@[k] == c2);
                            }
                        } else {
                            assert(pal@[old_pal.len() as int] == c);
                        }
                    }
                    assert(pal@.no_duplicates());
                    lemma_index_of_unique(pal@, idx as int);
                    assert forall|q: int| 0 <= q < p implies pal_index(pal@, pixels@[q]) == pal_index(
                        old_pal,
                        pixels@[q],
                    ) by {
                        let k = choose|k: int| 0 <= k < old_pal.len() && old_pal[k] == pixels@[q];
                        lemma_index_of_unique(old_pal, k);
                        assert(pal@[k] == old_pal[k]);
                        lemma_index_of_unique(pal@, k);
                    }
                    assert forall|q: int| 0 <= q < p implies pal@.contains(#[trigger] pixels@[q]) by {
                        let k = choose|k: int| 0 <= k < old_pal.len() && old_pal[k] == pixels@[q];
                        assert(pal@[k] == old_pal[k]);
                    }
                }
                indices.push(idx);
            },
        }
        p = p + 1;
        assert(indices@ =~= Seq::new(p as nat, |q: int| pal_index(pal@, pixels@[q]) as u8));
        assert(pal@.contains(pixels@[p - 1])) by {
            let k = pal_index(pal@, c);
            assert(pal@[color_map@[c] as int] == c);
        }
    }
    assert(pixels@.take(p as int) =~= pixels@);
    (true, pal, indices)
}

} // verus!

verus! {

/// The byte holding palette index `lo` in its low nibble and `hi` in its
/// high nibble.
pub open spec fn pack_nibbles(lo: u8, hi: u8) -> u8 {
    ((lo & 0x0f) | ((hi & 0x0f) << 4)) as u8
}

/// The nibbles of a packed byte are the indices packed into it.
pub proof fn lemma_pack_nibbles(lo: u8, hi: u8)
    requires
        lo < 16,
        hi < 16,
    ensures
        pack_nibbles(lo, hi) & 0x0f == lo,
        (pack_nibbles(lo, hi) >> 4) & 0x0f == hi,
{
    assert((((lo & 0x0f) | ((hi & 0x0f) << 4)) as u8) & 0x0f == lo) by (bit_vector)
        requires
            lo < 16,
            hi < 16,
    ;
    assert(((((lo & 0x0f) | ((hi & 0x0f) << 4)) as u8) >> 4) & 0x0f == hi) by (bit_vector)
        requires
            lo < 16,
            hi < 16,
    ;
}

/// Packs two palette indices into one byte.
pub fn pack(lo: u8, hi: u8) -> (r: u8)
    ensures
        r == pack_nibbles(lo, hi),
{
    (lo & 0x0f) | ((hi & 0x0f) << 4)
}

} // verus!
