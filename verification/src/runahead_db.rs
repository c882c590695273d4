//! Run-ahead settings per game: the measured values that the host keeps for
//! each game code, the values known for a few titles, and what is read from
//! a cartridge header.

use vstd::prelude::*;
use vstd::utf8::{encode_utf8, decode_utf8, encode_scalar, has_width_1_encoding, char_is_scalar, char_u32_cast, is_ascii_chars, is_ascii_chars_encode_utf8, encode_utf8_decode_utf8};
use vstd::string::StringExecFns;
use crate::ppu::copy_bytes;

verus! {

/// What a cartridge header names, with the run-ahead chosen for the game.
#[derive(Debug, Clone, PartialEq, Eq)]
pub struct GbaRomInfo {
    pub title: String,
    pub game_code: String,
    pub maker_code: String,
    pub version: u8,
    pub recommended_runahead: u8,
}

/// Where one byte string stands against another in byte-wise order.
#[derive(Debug, Clone, Copy, PartialEq, Eq, Structural)]
pub enum KeyOrder {
    Before,
    Same,
    After,
}

/// `a` comes strictly before `b` in byte-wise lexicographic order.
pub open spec fn bytes_lt(a: Seq<u8>, b: Seq<u8>) -> bool
    decreases a.len(),
{
    if a.len() == 0 {
        b.len() > 0
    } else if b.len() == 0 {
        false
    } else if a[0] != b[0] {
        a[0] < b[0]
    } else {
        bytes_lt(a.drop_first(), b.drop_first())
    }
}

/// Exactly one of `a < b`, `a == b`, `b < a` holds.
pub proof fn lemma_bytes_trichotomy(a: Seq<u8>, b: Seq<u8>)
    ensures
        bytes_lt(a, b) || a == b || bytes_lt(b, a),
        !(bytes_lt(a, b) && bytes_lt(b, a)),
        !bytes_lt(a, a),
    decreases a.len(),
{
    if a.len() > 0 && b.len() > 0 {
        lemma_bytes_trichotomy(a.drop_first(), b.drop_first());
        if a[0] == b[0] && a.drop_first() == b.drop_first() {
            assert(a =~= seq![a[0]] + a.drop_first());
            assert(b =~= seq![b[0]] + b.drop_first());
        }
    } else if a.len() == 0 && b.len() == 0 {
        assert(a =~= b);
    }
    if a.len() > 0 {
        lemma_bytes_trichotomy(a.drop_first(), a.drop_first());
    }
}

/// Byte-wise order is transitive.
pub proof fn lemma_bytes_lt_trans(a: Seq<u8>, b: Seq<u8>, c: Seq<u8>)
    requires
        bytes_lt(a, b),
        bytes_lt(b, c),
    ensures
        bytes_lt(a, c),
    decreases a.len(),
{
    if a.len() > 0 && b.len() > 0 && c.len() > 0 && a[0] == b[0] && b[0] == c[0] {
        lemma_bytes_lt_trans(a.drop_first(), b.drop_first(), c.drop_first());
    }
}

/// Compares two byte strings in byte-wise lexicographic order.
pub fn key_order(a: &[u8], b: &[u8]) -> (r: KeyOrder)
    ensures
        r == KeyOrder::Before <==> bytes_lt(a@, b@),
        r == KeyOrder::Same <==> a@ == b@,
        r == KeyOrder::After <==> bytes_lt(b@, a@),
{
    proof {
        lemma_bytes_trichotomy(a@, b@);
    }
    assert(a@.skip(0) =~= a@);
    assert(b@.skip(0) =~= b@);
    let mut i: usize = 0;
    while i < a.len() && i < b.len()
        invariant
            i <= a@.len(),
            i <= b@.len(),
            a@.take(i as int) == b@.take(i as int),
            bytes_lt(a@, b@) == bytes_lt(a@.skip(i as int), b@.skip(i as int)),
            bytes_lt(b@, a@) == bytes_lt(b@.skip(i as int), a@.skip(i as int)),
        decreases a@.len() - i,
    {
        assert(a@.skip(i as int)[0] == a@[i as int]);
        assert(b@.skip(i as int)[0] == b@[i as int]);
        if a[i] < b[i] {
            return KeyOrder::Before;
        }
        if a[i] > b[i] {
            return KeyOrder::After;
        }
        assert(a@.skip(i as int).drop_first() =~= a@.skip(i + 1));
        assert(b@.skip(i as int).drop_first() =~= b@.skip(i + 1));
        i = i + 1;
        assert(a@.take(i as int) =~= a@.take(i - 1).push(a@[i - 1]));
        assert(b@.take(i as int) =~= b@.take(i - 1).push(b@[i - 1]));
    }
    if i < b.len() {
        assert(a@.skip(i as int).len() == 0);
        return KeyOrder::Before;
    }
    if i < a.len() {
        assert(b@.skip(i as int).len() == 0);
        return KeyOrder::After;
    }
    assert(a@ =~= a@.take(i as int));
    assert(b@ =~= b@.take(i as int));
    KeyOrder::Same
}

/// The map that a list of (key, value) pairs stands for.
pub open spec fn entries_map(s: Seq<(Seq<u8>, u8)>) -> Map<Seq<u8>, u8>
    decreases s.len(),
{
    if s.len() == 0 {
        Map::empty()
    } else {
        entries_map(s.drop_last()).insert(s.last().0, s.last().1)
    }
}

/// Keys in strictly increasing byte-wise order.
pub open spec fn keys_sorted(s: Seq<(Seq<u8>, u8)>) -> bool {
    forall|i: int, j: int| 0 <= i < j < s.len() ==> bytes_lt(#[trigger] s[i].0, #[trigger] s[j].0)
}

/// The value cached for `k`, if any.
pub open spec fn cached_value(m: Map<Seq<u8>, u8>, k: Seq<u8>) -> Option<u8> {
    if m.contains_key(k) {
        Some(m[k])
    } else {
        None
    }
}

proof fn lemma_entries_map(s: Seq<(Seq<u8>, u8)>)
    requires
        keys_sorted(s),
    ensures
        forall|k: Seq<u8>| #[trigger]
            entries_map(s).contains_key(k) <==> exists|i: int| 0 <= i < s.len() && s[i].0 == k,
        forall|i: int| 0 <= i < s.len() ==> #[trigger] entries_map(s)[s[i].0] == s[i].1,
        entries_map(s).dom().finite(),
    decreases s.len(),
{
    if s.len() > 0 {
        let t = s.drop_last();
        assert(keys_sorted(t)) by {
            assert forall|i: int, j: int| 0 <= i < j < t.len() implies bytes_lt(
                #[trigger] t[i].0,
                #[trigger] t[j].0,
            ) by {
                assert(t[i] == s[i] && t[j] == s[j]);
            }
        }
        lemma_entries_map(t);
        assert forall|k: Seq<u8>| #[trigger]
            entries_map(s).contains_key(k) implies exists|i: int| 0 <= i < s.len() && s[i].0 == k by {
            if k != s.last().0 {
                let i = choose|i: int| 0 <= i < t.len() && t[i].0 == k;
                assert(s[i] == t[i]);
            } else {
                assert(s[s.len() - 1].0 == k);
            }
        }
        assert forall|k: Seq<u8>|
            (exists|i: int| 0 <= i < s.len() && s[i].0 == k) implies #[trigger] entries_map(s).contains_key(k) by {
            let i = choose|i: int| 0 <= i < s.len() && s[i].0 == k;
            if i < s.len() - 1 {
                assert(t[i] == s[i]);
            }
        }
        assert forall|i: int| 0 <= i < s.len() implies #[trigger] entries_map(s)[s[i].0] == s[i].1 by {
            if i < s.len() - 1 {
                assert(bytes_lt(s[i].0, s[s.len() - 1].0));
                lemma_bytes_trichotomy(s[i].0, s[s.len() - 1].0);
                assert(t[i] == s[i]);
            }
        }
    }
}

/// The run-ahead frames measured or chosen for each game, keyed by the
/// UTF-8 bytes of the game code.
pub struct RunaheadCache {
    entries: Vec<(Vec<u8>, u8)>,
}

impl RunaheadCache {
    /// The cached pairs, in key order.
    pub closed spec fn pairs(&self) -> Seq<(Seq<u8>, u8)> {
        self.entries@.map(|i: int, e: (Vec<u8>, u8)| (e.0@, e.1))
    }

    /// The cached value of each game code.
    pub closed spec fn view(&self) -> Map<Seq<u8>, u8> {
        entries_map(self.pairs())
    }

    /// The pairs are kept in strictly increasing key order.
    pub closed spec fn wf(&self) -> bool {
        keys_sorted(self.pairs())
    }

    /// A well-formed cache holds finitely many keys, its pairs are its map,
    /// and its keys come in increasing order.
    pub proof fn lemma_wf(&self)
        requires
            self.wf(),
        ensures
            self@.dom().finite(),
            forall|i: int| 0 <= i < self.pairs().len() ==> #[trigger] self@[self.pairs()[i].0] == self.pairs()[i].1,
            forall|k: Seq<u8>| #[trigger] self@.contains_key(k) <==> exists|i: int| 0 <= i < self.pairs().len() && self.pairs()[i].0 == k,
            keys_sorted(self.pairs()),
    {
        lemma_entries_map(self.pairs());
    }

    /// An empty cache.
    pub fn new() -> (c: RunaheadCache)
        ensures
            c.wf(),
            c@ == Map::<Seq<u8>, u8>::empty(),
    {
        let c = RunaheadCache { entries: Vec::new() };
        assert(c.pairs() =~= Seq::<(Seq<u8>, u8)>::empty());
        c
    }

    /// Number of cached games.
    pub fn len(&self) -> (n: usize)
        requires
            self.wf(),
        ensures
            n == self@.len(),
            n == self.pairs().len(),
    {
        proof {
            self.lemma_wf();
            lemma_entries_map_len(self.pairs());
        }
        self.entries.len()
    }

    /// The `i`-th cached pair in key order.
    pub fn entry(&self, i: usize) -> (r: (&[u8], u8))
        requires
            i < self.pairs().len(),
        ensures
            r.0@ == self.pairs()[i as int].0,
            r.1 == self.pairs()[i as int].1,
    {
        let e = &self.entries[i];
        (e.0.as_slice(), e.1)
    }

    /// Looks `key` up.
    pub fn get(&self, key: &[u8]) -> (r: Option<u8>)
        requires
            self.wf(),
        ensures
            r == cached_value(self@, key@),
    {
        proof {
            self.lemma_wf();
        }
        let mut i: usize = 0;
        while i < self.entries.len()
            invariant
                self.wf(),
                i <= self.pairs().len(),
                self.pairs().len() == self.entries@.len(),
                forall|j: int| 0 <= j < i ==> self.pairs()[j].0 != key@,
            decreases self.entries@.len() - i,
        {
            let e = &self.entries[i];
            assert(self.pairs()[i as int] == (e.0@, e.1));
            if key_order(e.0.as_slice(), key) == KeyOrder::Same {
                proof {
                    self.lemma_wf();
                }
                assert(self@[self.pairs()[i as int].0] == self.pairs()[i as int].1);
                return Some(e.1);
            }
            i = i + 1;
        }
        None
    }

    /// Sets the value of `key`, adding it where it is new.
    pub fn set(&mut self, key: Vec<u8>, value: u8)
        requires
            old(self).wf(),
        ensures
            final(self).wf(),
            final(self)@ == old(self)@.insert(key@, value),
    {
        proof {
            self.lemma_wf();
        }
        let ghost s = self.pairs();
        let mut i: usize = 0;
        while i < self.entries.len()
            invariant
                s == self.pairs(),
                keys_sorted(s),
                i <= s.len(),
                s.len() == self.entries@.len(),
                forall|j: int| 0 <= j < i ==> bytes_lt(#[trigger] s[j].0, key@),
            ensures
                s == self.pairs(),
                i <= s.len(),
                forall|j: int| 0 <= j < i ==> bytes_lt(#[trigger] s[j].0, key@),
                i < s.len() ==> !bytes_lt(s[i as int].0, key@),
            decreases self.entries@.len() - i,
        {
            assert(s[i as int] == (self.entries@[i as int].0@, self.entries@[i as int].1));
            let o = key_order(self.entries[i].0.as_slice(), key.as_slice());
            if o != KeyOrder::Before {
                break;
            }
            i = i + 1;
        }
        if i < self.entries.len() && key_order(self.entries[i].0.as_slice(), key.as_slice())
            == KeyOrder::Same {
            let ghost k = key@;
            self.entries.set(i, (key, value));
            let ghost t = self.pairs();
            assert(t =~= s.update(i as int, (k, value)));
            assert(keys_sorted(t)) by {
                assert forall|a: int, b: int| 0 <= a < b < t.len() implies bytes_lt(
                    #[trigger] t[a].0,
                    #[trigger] t[b].0,
                ) by {
                    assert(t[a].0 == s[a].0 && t[b].0 == s[b].0);
                }
            }
            proof {
                lemma_entries_map(t);
            }
            assert(entries_map(t) =~= entries_map(s).insert(k, value)) by {
                assert forall|x: Seq<u8>| #[trigger] entries_map(t).contains_key(x)
                    <==> entries_map(s).insert(k, value).contains_key(x) by {
                    if entries_map(t).contains_key(x) {
                        let j = choose|j: int| 0 <= j < t.len() && t[j].0 == x;
                        assert(s[j].0 == x);
                    }
                    if entries_map(s).contains_key(x) {
                        let j = choose|j: int| 0 <= j < s.len() && s[j].0 == x;
                        assert(t[j].0 == x);
                    }
                }
                assert forall|x: Seq<u8>| #[trigger] entries_map(t).contains_key(x) implies entries_map(
                    t,
                )[x] == entries_map(s).insert(k, value)[x] by {
                    let j = choose|j: int| 0 <= j < t.len() && t[j].0 == x;
                    if j != i {
                        assert(t[j] == s[j]);
                    }
                }
            }
        } else {
            let ghost k = key@;
            self.entries.insert(i, (key, value));
            let ghost t = self.pairs();
            assert(t =~= s.insert(i as int, (k, value)));
            proof {
                if i < s.len() {
                    lemma_bytes_trichotomy(s[i as int].0, k);
                    assert(bytes_lt(k, s[i as int].0));
                }
            }
            assert(keys_sorted(t)) by {
                assert forall|a: int, b: int| 0 <= a < b < t.len() implies bytes_lt(
                    #[trigger] t[a].0,
                    #[trigger] t[b].0,
                ) by {
                    if b < i {
                    } else if b == i {
                        assert(bytes_lt(s[a].0, k));
                    } else if a < i {
                        assert(bytes_lt(s[a].0, k));
                        assert(t[b] == s[b - 1]);
                        if b - 1 > i {
                            assert(bytes_lt(s[i as int].0, s[b - 1].0));
                            lemma_bytes_lt_trans(k, s[i as int].0, s[b - 1].0);
                        }
                        lemma_bytes_lt_trans(s[a].0, k, s[b - 1].0);
                    } else if a == i {
                        assert(t[b] == s[b - 1]);
                        if b - 1 > i {
                            assert(bytes_lt(s[i as int].0, s[b - 1].0));
                            lemma_bytes_lt_trans(k, s[i as int].0, s[b - 1].0);
                        }
                    } else {
                        assert(t[a] == s[a - 1] && t[b] == s[b - 1]);
                    }
                }
            }
            proof {
                lemma_entries_map(t);
            }
            assert(entries_map(t) =~= entries_map(s).insert(k, value)) by {
                assert forall|x: Seq<u8>| #[trigger] entries_map(t).contains_key(x)
                    <==> entries_map(s).insert(k, value).contains_key(x) by {
                    if entries_map(t).contains_key(x) {
                        let j = choose|j: int| 0 <= j < t.len() && t[j].0 == x;
                        if j < i {
                            assert(s[j].0 == x);
                        } else if j > i {
                            assert(s[j - 1].0 == x);
                        }
                    }
                    if entries_map(s).contains_key(x) {
                        let j = choose|j: int| 0 <= j < s.len() && s[j].0 == x;
                        if j < i {
                            assert(t[j].0 == x);
                        } else {
                            assert(t[j + 1].0 == x);
                        }
                    }
                    if x == k {
                        assert(t[i as int].0 == x);
                    }
                }
                assert forall|x: Seq<u8>| #[trigger] entries_map(t).contains_key(x) implies entries_map(
                    t,
                )[x] == entries_map(s).insert(k, value)[x] by {
                    let j = choose|j: int| 0 <= j < t.len() && t[j].0 == x;
                    if j < i {
                        assert(t[j] == s[j]);
                        assert(bytes_lt(s[j].0, k));
                        lemma_bytes_trichotomy(s[j].0, k);
                    } else if j > i {
                        assert(t[j] == s[j - 1]);
                        if i < s.len() {
                            if j - 1 > i {
                                assert(bytes_lt(s[i as int].0, s[j - 1].0));
                                lemma_bytes_lt_trans(k, s[i as int].0, s[j - 1].0);
                            }
                            lemma_bytes_trichotomy(k, s[j - 1].0);
                        }
                    }
                }
            }
        }
    }
}

proof fn lemma_entries_map_len(s: Seq<(Seq<u8>, u8)>)
    requires
        keys_sorted(s),
    ensures
        entries_map(s).len() == s.len(),
    decreases s.len(),
{
    if s.len() > 0 {
        let t = s.drop_last();
        assert(keys_sorted(t)) by {
            assert forall|i: int, j: int| 0 <= i < j < t.len() implies bytes_lt(
                #[trigger] t[i].0,
                #[trigger] t[j].0,
            ) by {
                assert(t[i] == s[i] && t[j] == s[j]);
            }
        }
        lemma_entries_map_len(t);
        lemma_entries_map(t);
        assert(!entries_map(t).contains_key(s.last().0)) by {
            if entries_map(t).contains_key(s.last().0) {
                let i = choose|i: int| 0 <= i < t.len() && t[i].0 == s.last().0;
                assert(bytes_lt(s[i].0, s[s.len() - 1].0));
                lemma_bytes_trichotomy(s[i].0, s.last().0);
            }
        }
    }
}

/// Looks up the run-ahead cached for a game code.
pub fn lookup_cached(cache: &RunaheadCache, game_code: &str) -> (r: Option<u8>)
    requires
        cache.wf(),
    ensures
        r == cached_value(cache@, encode_utf8(game_code@)),
{
    cache.get(game_code.as_bytes())
}

/// Stores a run-ahead value for a game code, replacing any earlier one.
pub fn cache_measured_runahead(cache: &mut RunaheadCache, game_code: String, runahead: u8)
    requires
        old(cache).wf(),
    ensures
        final(cache).wf(),
        final(cache)@ == old(cache)@.insert(encode_utf8(game_code@), runahead),
{
    let key = copy_bytes(game_code.as_str().as_bytes());
    cache.set(key, runahead);
}

/// Reading a game code back after storing a value for it gives that value;
/// storing leaves the value of every other game code as it was.
pub proof fn lemma_lookup_after_cache(m: Map<Seq<u8>, u8>, code: Seq<char>, v: u8, other: Seq<char>)
    ensures
        cached_value(m.insert(encode_utf8(code), v), encode_utf8(code)) == Some(v),
        other != code ==> cached_value(m.insert(encode_utf8(code), v), encode_utf8(other))
            == cached_value(m, encode_utf8(other)),
{
    if other != code {
        encode_utf8_decode_utf8(code);
        encode_utf8_decode_utf8(other);
        assert(encode_utf8(other) != encode_utf8(code));
    }
}

/// The cache `m` after storing each (game code, run-ahead) of `writes` in
/// order with `cache_measured_runahead`.
pub open spec fn after_writes(m: Map<Seq<u8>, u8>, writes: Seq<(Seq<char>, u8)>) -> Map<Seq<u8>, u8>
    decreases writes.len(),
{
    if writes.len() == 0 {
        m
    } else {
        after_writes(m, writes.drop_last()).insert(encode_utf8(writes.last().0), writes.last().1)
    }
}

/// After any sequence of stores, a game code reads back the value of its
/// last store (the store at `i`).
pub proof fn lemma_lookup_after_writes(
    m: Map<Seq<u8>, u8>,
    writes: Seq<(Seq<char>, u8)>,
    code: Seq<char>,
    i: int,
)
    requires
        0 <= i < writes.len(),
        writes[i].0 == code,
        forall|j: int| i < j < writes.len() ==> (#[trigger] writes[j]).0 != code,
    ensures
        cached_value(after_writes(m, writes), encode_utf8(code)) == Some(writes[i].1),
    decreases writes.len(),
{
    let prefix = writes.drop_last();
    let last = writes.last();
    lemma_lookup_after_cache(after_writes(m, prefix), last.0, last.1, code);
    if i < writes.len() - 1 {
        assert(writes[writes.len() - 1].0 != code);
        assert forall|j: int| i < j < prefix.len() implies (#[trigger] prefix[j]).0 != code by {
            assert(prefix[j] == writes[j]);
        }
        lemma_lookup_after_writes(m, prefix, code, i);
    }
}

/// After any sequence of stores none of which is for `code`, `code` reads
/// back what it did before them.
pub proof fn lemma_lookup_after_other_writes(
    m: Map<Seq<u8>, u8>,
    writes: Seq<(Seq<char>, u8)>,
    code: Seq<char>,
)
    requires
        forall|j: int| 0 <= j < writes.len() ==> (#[trigger] writes[j]).0 != code,
    ensures
        cached_value(after_writes(m, writes), encode_utf8(code)) == cached_value(m, encode_utf8(code)),
    decreases writes.len(),
{
    if writes.len() > 0 {
        let prefix = writes.drop_last();
        let last = writes.last();
        assert(writes[writes.len() - 1].0 != code);
        assert forall|j: int| 0 <= j < prefix.len() implies (#[trigger] prefix[j]).0 != code by {
            assert(prefix[j] == writes[j]);
        }
        lemma_lookup_after_other_writes(m, prefix, code);
        lemma_lookup_after_cache(after_writes(m, prefix), last.0, last.1, code);
    }
}

/// The run-ahead known for a few titles: none for F-Zero (`AFZE`) and
/// Advance Wars (`ADAE`), two frames for Pokemon (`AXVE`) and Golden Sun
/// (`AGSE`).
pub open spec fn verified_runahead(code: Seq<char>) -> Option<u8> {
    if code == seq!['A', 'F', 'Z', 'E'] || code == seq!['A', 'D', 'A', 'E'] {
        Some(0)
    } else if code == seq!['A', 'X', 'V', 'E'] || code == seq!['A', 'G', 'S', 'E'] {
        Some(2)
    } else {
        None
    }
}

proof fn lemma_ascii_code(code: Seq<char>, lit: Seq<char>, bytes: Seq<u8>)
    requires
        lit.len() == 4,
        is_ascii_chars(lit),
        bytes =~= seq![lit[0] as u8, lit[1] as u8, lit[2] as u8, lit[3] as u8],
    ensures
        (encode_utf8(code) == bytes) <==> (code == lit),
{
    is_ascii_chars_encode_utf8(lit);
    assert(encode_utf8(lit) =~= bytes);
    encode_utf8_decode_utf8(code);
    encode_utf8_decode_utf8(lit);
}

fn is_code(b: &[u8], c0: u8, c1: u8, c2: u8, c3: u8) -> (r: bool)
    ensures
        r == (b@ == seq![c0, c1, c2, c3]),
{
    let r = b.len() == 4 && b[0] == c0 && b[1] == c1 && b[2] == c2 && b[3] == c3;
    if r {
        assert(b@ =~= seq![c0, c1, c2, c3]);
    }
    r
}

/// Looks a game code up among the titles whose run-ahead is known.
pub fn lookup_verified_db(game_code: &str) -> (r: Option<u8>)
    ensures
        r == verified_runahead(game_code@),
{
    let b = game_code.as_bytes();
    proof {
        lemma_ascii_code(game_code@, seq!['A', 'F', 'Z', 'E'], seq![65u8, 70, 90, 69]);
        lemma_ascii_code(game_code@, seq!['A', 'D', 'A', 'E'], seq![65u8, 68, 65, 69]);
        lemma_ascii_code(game_code@, seq!['A', 'X', 'V', 'E'], seq![65u8, 88, 86, 69]);
        lemma_ascii_code(game_code@, seq!['A', 'G', 'S', 'E'], seq![65u8, 71, 83, 69]);
    }
    if is_code(b, 65, 70, 90, 69) || is_code(b, 65, 68, 65, 69) {
        Some(0)
    } else if is_code(b, 65, 88, 86, 69) || is_code(b, 65, 71, 83, 69) {
        Some(2)
    } else {
        None
    }
}

/// Length of the UTF-8 encoding of a white-space character (Unicode
/// `White_Space`) that `b` starts with, or 0.
pub open spec fn ws_prefix_len(b: Seq<u8>) -> nat {
    if b.len() >= 1 && (b[0] == 0x20 || (0x09 <= b[0] && b[0] <= 0x0d)) {
        1
    } else if b.len() >= 2 && b[0] == 0xc2 && (b[1] == 0x85 || b[1] == 0xa0) {
        2
    } else if b.len() >= 3 && is_ws3(b[0], b[1], b[2]) {
        3
    } else {
        0
    }
}

/// Length of the UTF-8 encoding of a white-space character that `b` ends
/// with, or 0.
pub open spec fn ws_suffix_len(b: Seq<u8>) -> nat {
    let n = b.len() as int;
    if n >= 1 && (b[n - 1] == 0x20 || (0x09 <= b[n - 1] && b[n - 1] <= 0x0d)) {
        1
    } else if n >= 2 && b[n - 2] == 0xc2 && (b[n - 1] == 0x85 || b[n - 1] == 0xa0) {
        2
    } else if n >= 3 && is_ws3(b[n - 3], b[n - 2], b[n - 1]) {
        3
    } else {
        0
    }
}

/// The three-byte encodings of white space: U+1680, U+2000 to U+200A,
/// U+2028, U+2029, U+202F, U+205F and U+3000.
pub open spec fn is_ws3(x: u8, y: u8, z: u8) -> bool {
    ||| x == 0xe1 && y == 0x9a && z == 0x80
    ||| x == 0xe2 && y == 0x80 && ((0x80 <= z && z <= 0x8a) || z == 0xa8 || z == 0xa9 || z == 0xaf)
    ||| x == 0xe2 && y == 0x81 && z == 0x9f
    ||| x == 0xe3 && y == 0x80 && z == 0x80
}

/// `b` without leading white space.
pub open spec fn trim_start_ws(b: Seq<u8>) -> Seq<u8>
    decreases b.len(),
{
    if ws_prefix_len(b) > 0 {
        trim_start_ws(b.skip(ws_prefix_len(b) as int))
    } else {
        b
    }
}

/// `b` without trailing white space.
pub open spec fn trim_end_ws(b: Seq<u8>) -> Seq<u8>
    decreases b.len(),
{
    if ws_suffix_len(b) > 0 {
        trim_end_ws(b.take(b.len() - ws_suffix_len(b)))
    } else {
        b
    }
}

/// `b` without leading and trailing white space.
pub open spec fn trim_ws(b: Seq<u8>) -> Seq<u8> {
    trim_end_ws(trim_start_ws(b))
}

fn ws_prefix(b: &[u8], lo: usize, hi: usize) -> (n: usize)
    requires
        lo <= hi <= b@.len(),
    ensures
        n == ws_prefix_len(b@.subrange(lo as int, hi as int)),
{
    let len = hi - lo;
    if len >= 1 && (b[lo] == 0x20 || (0x09 <= b[lo] && b[lo] <= 0x0d)) {
        1
    } else if len >= 2 && b[lo] == 0xc2 && (b[lo + 1] == 0x85 || b[lo + 1] == 0xa0) {
        2
    } else if len >= 3 && ws3(b[lo], b[lo + 1], b[lo + 2]) {
        3
    } else {
        0
    }
}

fn ws_suffix(b: &[u8], lo: usize, hi: usize) -> (n: usize)
    requires
        lo <= hi <= b@.len(),
    ensures
        n == ws_suffix_len(b@.subrange(lo as int, hi as int)),
{
    let len = hi - lo;
    if len >= 1 && (b[hi - 1] == 0x20 || (0x09 <= b[hi - 1] && b[hi - 1] <= 0x0d)) {
        1
    } else if len >= 2 && b[hi - 2] == 0xc2 && (b[hi - 1] == 0x85 || b[hi - 1] == 0xa0) {
        2
    } else if len >= 3 && ws3(b[hi - 3], b[hi - 2], b[hi - 1]) {
        3
    } else {
        0
    }
}

fn ws3(x: u8, y: u8, z: u8) -> (r: bool)
    ensures
        r == is_ws3(x, y, z),
{
    (x == 0xe1 && y == 0x9a && z == 0x80) || (x == 0xe2 && y == 0x80 && ((0x80 <= z && z <= 0x8a)
        || z == 0xa8 || z == 0xa9 || z == 0xaf)) || (x == 0xe2 && y == 0x81 && z == 0x9f) || (x
        == 0xe3 && y == 0x80 && z == 0x80)
}

/// The bounds of `trim_ws` of `b[lo..hi]`.
pub fn trim_ws_range(b: &[u8], lo: usize, hi: usize) -> (r: (usize, usize))
    requires
        lo <= hi <= b@.len(),
    ensures
        lo <= r.0 <= r.1 <= hi,
        b@.subrange(r.0 as int, r.1 as int) == trim_ws(b@.subrange(lo as int, hi as int)),
{
    let mut a = lo;
    while a < hi
        invariant
            lo <= a <= hi <= b@.len(),
            trim_start_ws(b@.subrange(lo as int, hi as int)) == trim_start_ws(
                b@.subrange(a as int, hi as int),
            ),
        ensures
            lo <= a <= hi,
            trim_start_ws(b@.subrange(lo as int, hi as int)) == trim_start_ws(
                b@.subrange(a as int, hi as int),
            ),
            ws_prefix_len(b@.subrange(a as int, hi as int)) == 0,
        decreases hi - a,
    {
        let n = ws_prefix(b, a, hi);
        if n == 0 {
            break;
        }
        assert(b@.subrange(a as int, hi as int).skip(n as int) =~= b@.subrange(a + n, hi as int));
        a = a + n;
    }
    let ghost mid = b@.subrange(a as int, hi as int);
    assert(trim_start_ws(mid) == mid);
    let mut z = hi;
    while z > a
        invariant
            a <= z <= hi,
            hi <= b@.len(),
            trim_end_ws(mid) == trim_end_ws(b@.subrange(a as int, z as int)),
            mid == b@.subrange(a as int, hi as int),
        ensures
            a <= z <= hi,
            trim_end_ws(mid) == trim_end_ws(b@.subrange(a as int, z as int)),
            ws_suffix_len(b@.subrange(a as int, z as int)) == 0,
        decreases z - a,
    {
        let n = ws_suffix(b, a, z);
        if n == 0 {
            break;
        }
        assert(b@.subrange(a as int, z as int).take(z - a - n) =~= b@.subrange(a as int, z - n));
        z = z - n;
    }
    (a, z)
}

/// The characters that `String::from_utf8_lossy` makes of `b`.
pub uninterp spec fn utf8_lossy(b: Seq<u8>) -> Seq<char>;

/// Calls `String::from_utf8_lossy` and takes the text as an owned string.
/// Claimed of it: the result depends on the bytes alone, and bytes that are
/// all ASCII come out as the same characters (valid UTF-8 is returned as it
/// is). What replaces invalid sequences is not stated.
#[verifier::external_body]
fn string_from_utf8_lossy(b: &[u8]) -> (s: String)
    ensures
        s@ == utf8_lossy(b@),
        (forall|i: int| 0 <= i < b@.len() ==> #[trigger] b@[i] < 128) ==> s@ == Seq::new(
            b@.len(),
            |i: int| b@[i] as char,
        ),
{
    String::from_utf8_lossy(b).into_owned()
}

/// A white-space character (Unicode `White_Space`), as `str::trim` removes.
pub open spec fn is_space_char(c: char) -> bool {
    let x = c as u32;
    ||| 0x09 <= x <= 0x0d
    ||| x == 0x20 || x == 0x85 || x == 0xa0 || x == 0x1680
    ||| 0x2000 <= x <= 0x200a
    ||| x == 0x2028 || x == 0x2029 || x == 0x202f || x == 0x205f || x == 0x3000
}

/// `s` without leading NUL characters (`nul`) or white space (`!nul`).
pub open spec fn trim_chars_start(s: Seq<char>, nul: bool) -> Seq<char>
    decreases s.len(),
{
    if s.len() > 0 && (if nul { s[0] == '\0' } else { is_space_char(s[0]) }) {
        trim_chars_start(s.drop_first(), nul)
    } else {
        s
    }
}

/// `s` without trailing NUL characters (`nul`) or white space (`!nul`).
pub open spec fn trim_chars_end(s: Seq<char>, nul: bool) -> Seq<char>
    decreases s.len(),
{
    if s.len() > 0 && (if nul { s.last() == '\0' } else { is_space_char(s.last()) }) {
        trim_chars_end(s.drop_last(), nul)
    } else {
        s
    }
}

/// `s` without NUL characters at either end (`trim_matches('\0')`), then
/// without white space at either end (`trim()`).
pub open spec fn clean_text(s: Seq<char>) -> Seq<char> {
    trim_chars_end(trim_chars_start(trim_chars_end(trim_chars_start(s, true), true), false), false)
}

/// The text of header bytes `lo..hi`: decoded as `String::from_utf8_lossy`
/// does, then cleaned (see `clean_text`).
pub open spec fn header_text(h: Seq<u8>, lo: int, hi: int) -> Seq<char> {
    clean_text(utf8_lossy(h.subrange(lo, hi)))
}

/// The text of a header field, or `default` where the field is empty.
pub open spec fn field_text(t: Seq<char>, default: Seq<char>) -> Seq<char> {
    if t.len() == 0 {
        default
    } else {
        t
    }
}

/// The run-ahead for a game code: the cached value, else the known value of
/// the title, else one frame.
pub open spec fn recommended_for(m: Map<Seq<u8>, u8>, code: Seq<char>) -> u8 {
    match cached_value(m, encode_utf8(code)) {
        Some(v) => v,
        None => match verified_runahead(code) {
            Some(v) => v,
            None => 1,
        },
    }
}

/// Whether `c` is white space (see `is_space_char`).
fn is_space(c: char) -> (r: bool)
    ensures
        r == is_space_char(c),
{
    let x = c as u32;
    (0x09 <= x && x <= 0x0d) || x == 0x20 || x == 0x85 || x == 0xa0 || x == 0x1680 || (0x2000 <= x
        && x <= 0x200a) || x == 0x2028 || x == 0x2029 || x == 0x202f || x == 0x205f || x == 0x3000
}

/// Whether `c` is trimmed: a NUL character (`nul`) or white space (`!nul`).
fn trimmed(c: char, nul: bool) -> (r: bool)
    ensures
        r == (if nul { c == '\0' } else { is_space_char(c) }),
{
    if nul {
        c == '\0'
    } else {
        is_space(c)
    }
}

/// The bounds of `trim_chars_end(trim_chars_start(s[lo..hi], nul), nul)`.
fn trim_char_range(s: &str, lo: usize, hi: usize, nul: bool) -> (r: (usize, usize))
    requires
        lo <= hi <= s@.len(),
    ensures
        lo <= r.0 <= r.1 <= hi,
        s@.subrange(r.0 as int, r.1 as int) == trim_chars_end(
            trim_chars_start(s@.subrange(lo as int, hi as int), nul),
            nul,
        ),
{
    let mut a = lo;
    while a < hi && trimmed(s.get_char(a), nul)
        invariant
            lo <= a <= hi <= s@.len(),
            trim_chars_start(s@.subrange(lo as int, hi as int), nul) == trim_chars_start(
                s@.subrange(a as int, hi as int),
                nul,
            ),
        decreases hi - a,
    {
        assert(s@.subrange(a as int, hi as int).drop_first() =~= s@.subrange(a + 1, hi as int));
        a = a + 1;
    }
    assert(trim_chars_start(s@.subrange(a as int, hi as int), nul) == s@.subrange(a as int, hi as int));
    let mut z = hi;
    while a < z && trimmed(s.get_char(z - 1), nul)
        invariant
            lo <= a <= z <= hi <= s@.len(),
            trim_chars_end(trim_chars_start(s@.subrange(lo as int, hi as int), nul), nul)
                == trim_chars_end(s@.subrange(a as int, z as int), nul),
        decreases z - a,
    {
        assert(s@.subrange(a as int, z as int).drop_last() =~= s@.subrange(a as int, z - 1));
        z = z - 1;
    }
    (a, z)
}

/// The text of header bytes `lo..hi` (see `header_text`).
fn field_string(header: &[u8], lo: usize, hi: usize) -> (r: String)
    requires
        lo <= hi <= header@.len(),
    ensures
        r@ == header_text(header@, lo as int, hi as int),
{
    let field = &header[lo..hi];
    assert(field@ == header@.subrange(lo as int, hi as int));
    let raw = string_from_utf8_lossy(field);
    let t = raw.as_str();
    let n = t.unicode_len();
    assert(t@.subrange(0, n as int) =~= t@);
    let (a, z) = trim_char_range(t, 0, n, true);
    let (c, d) = trim_char_range(t, a, z, false);
    t.substring_char(c, d).to_owned()
}

/// The information in the 32 header bytes that start at offset 0xA0 of a
/// cartridge: the title from bytes 0..12, the game code from 12..16, the
/// maker code from 16..18 and the version at 28, each text decoded and then
/// stripped of NUL characters and white space around it (see
/// `header_text`); an empty title reads "GBA Game" and an
/// empty game code "UNKN". The run-ahead is the one cached for the code,
/// else the one known for the title, else one frame.
pub fn rom_info_from_header(header: &[u8], cache: &RunaheadCache) -> (info: GbaRomInfo)
    requires
        header@.len() >= 32,
        cache.wf(),
    ensures
        info.title@ == field_text(header_text(header@, 0, 12), "GBA Game"@),
        info.game_code@ == field_text(header_text(header@, 12, 16), "UNKN"@),
        info.maker_code@ == header_text(header@, 16, 18),
        info.version == header@[28],
        info.recommended_runahead == recommended_for(cache@, info.game_code@),
{
    let title = field_string(header, 0, 12);
    let code = field_string(header, 12, 16);
    let maker_code = field_string(header, 16, 18);
    let title_empty = title.as_str().unicode_len() == 0;
    let code_empty = code.as_str().unicode_len() == 0;
    let title_clean = if title_empty {
        "GBA Game".to_owned()
    } else {
        title
    };
    let code_clean = if code_empty {
        "UNKN".to_owned()
    } else {
        code
    };
    let recommended = match lookup_cached(cache, code_clean.as_str()) {
        Some(v) => v,
        None => match lookup_verified_db(code_clean.as_str()) {
            Some(v) => v,
            None => 1,
        },
    };
    GbaRomInfo {
        title: title_clean,
        game_code: code_clean,
        maker_code,
        version: header[28],
        recommended_runahead: recommended,
    }
}

/// What is reported of a cartridge whose header cannot be read.
pub fn unknown_rom_info() -> (info: GbaRomInfo)
    ensures
        info.title@ == "Unknown GBA Game"@,
        info.game_code@ == "UNKN"@,
        info.maker_code@ == "00"@,
        info.version == 0,
        info.recommended_runahead == 1,
{
    GbaRomInfo {
        title: "Unknown GBA Game".to_owned(),
        game_code: "UNKN".to_owned(),
        maker_code: "00".to_owned(),
        version: 0,
        recommended_runahead: 1,
    }
}

/// The run-ahead a core starts with for a loaded cartridge: the cached
/// value for its code, else the known value for the title, else the value
/// recommended when the cartridge was inspected.
pub fn initial_runahead(cache: &RunaheadCache, info: &GbaRomInfo) -> (r: u8)
    requires
        cache.wf(),
    ensures
        r == match cached_value(cache@, encode_utf8(info.game_code@)) {
            Some(v) => v,
            None => match verified_runahead(info.game_code@) {
                Some(v) => v,
                None => info.recommended_runahead,
            },
        },
{
    match lookup_cached(cache, info.game_code.as_str()) {
        Some(v) => v,
        None => match lookup_verified_db(info.game_code.as_str()) {
            Some(v) => v,
            None => info.recommended_runahead,
        },
    }
}

/// `{`, `}` or `,`: the bytes stripped from both ends of a line of the
/// cache file.
pub open spec fn is_brace_or_comma(c: u8) -> bool {
    c == 0x7b || c == 0x7d || c == 0x2c
}

/// `b` without leading and trailing bytes of the set that `quote` picks:
/// `"` where it is set, else `{`, `}` and `,`.
pub open spec fn trim_set(b: Seq<u8>, quote: bool) -> Seq<u8>
    decreases b.len(),
{
    if b.len() > 0 && (if quote { b[0] == 0x22 } else { is_brace_or_comma(b[0]) }) {
        trim_set(b.drop_first(), quote)
    } else if b.len() > 0 && (if quote { b.last() == 0x22 } else { is_brace_or_comma(b.last()) }) {
        trim_set(b.drop_last(), quote)
    } else {
        b
    }
}

/// Index of the first `c` in `b`, or the length of `b` where there is none.
pub open spec fn find_byte(b: Seq<u8>, c: u8) -> nat
    decreases b.len(),
{
    if b.len() == 0 {
        0
    } else if b[0] == c {
        0
    } else {
        1 + find_byte(b.drop_first(), c)
    }
}

/// All bytes are ASCII digits.
pub open spec fn all_digits(d: Seq<u8>) -> bool {
    forall|i: int| 0 <= i < d.len() ==> 0x30 <= #[trigger] d[i] && d[i] <= 0x39
}

/// The value of a string of decimal digits.
pub open spec fn digits_value(d: Seq<u8>) -> nat
    decreases d.len(),
{
    if d.len() == 0 {
        0
    } else {
        digits_value(d.drop_last()) * 10 + (d.last() - 0x30) as nat
    }
}

/// A byte value written in decimal, as `u8::from_str` reads it: an
/// optional `+`, then one or more digits whose value is at most 255.
pub open spec fn parse_u8_spec(b: Seq<u8>) -> Option<u8> {
    let d = if b.len() > 0 && b[0] == 0x2b {
        b.drop_first()
    } else {
        b
    };
    if d.len() > 0 && all_digits(d) && digits_value(d) <= 255 {
        Some(digits_value(d) as u8)
    } else {
        None
    }
}

/// The entry one line of the cache file gives: the line without white
/// space and then without `{`, `}`, `,` around it is split at its first
/// `:`; the key is the part before, without white space and then without
/// `"` around it, and must not be empty; the value is the part after,
/// without white space, read as a byte value.
pub open spec fn line_entry(line: Seq<u8>) -> Option<(Seq<u8>, u8)> {
    let t = trim_set(trim_ws(line), false);
    let c = find_byte(t, 0x3a);
    if c >= t.len() {
        None
    } else {
        let key = trim_set(trim_ws(t.take(c as int)), true);
        match parse_u8_spec(trim_ws(t.skip(c as int + 1))) {
            Some(v) => if key.len() > 0 {
                Some((key, v))
            } else {
                None
            },
            None => None,
        }
    }
}

/// The cache that the lines of `b` give, starting from `acc`, later lines
/// overriding earlier ones.
pub open spec fn parse_from(acc: Map<Seq<u8>, u8>, b: Seq<u8>) -> Map<Seq<u8>, u8>
    decreases b.len(),
{
    if b.len() == 0 {
        acc
    } else {
        let n = find_byte(b, 0x0a);
        let acc2 = match line_entry(b.take(n as int)) {
            Some((k, v)) => acc.insert(k, v),
            None => acc,
        };
        if n >= b.len() {
            acc2
        } else {
            parse_from(acc2, b.skip(n as int + 1))
        }
    }
}

fn trim_set_range(b: &[u8], lo: usize, hi: usize, quote: bool) -> (r: (usize, usize))
    requires
        lo <= hi <= b@.len(),
    ensures
        lo <= r.0 <= r.1 <= hi,
        b@.subrange(r.0 as int, r.1 as int) == trim_set(b@.subrange(lo as int, hi as int), quote),
{
    let mut a = lo;
    let mut z = hi;
    while a < z
        invariant
            lo <= a <= z <= hi <= b@.len(),
            trim_set(b@.subrange(lo as int, hi as int), quote) == trim_set(
                b@.subrange(a as int, z as int),
                quote,
            ),
        ensures
            lo <= a <= z <= hi,
            trim_set(b@.subrange(lo as int, hi as int), quote) == b@.subrange(a as int, z as int),
        decreases z - a,
    {
        let ghost cur = b@.subrange(a as int, z as int);
        let first = b[a];
        let last = b[z - 1];
        let strip_first = if quote {
            first == 0x22
        } else {
            first == 0x7b || first == 0x7d || first == 0x2c
        };
        let strip_last = if quote {
            last == 0x22
        } else {
            last == 0x7b || last == 0x7d || last == 0x2c
        };
        if strip_first {
            assert(cur.drop_first() =~= b@.subrange(a + 1, z as int));
            a = a + 1;
        } else if strip_last {
            assert(cur.last() == last);
            assert(cur.drop_last() =~= b@.subrange(a as int, z - 1));
            z = z - 1;
        } else {
            assert(cur.last() == last);
            assert(cur[0] == first);
            break;
        }
    }
    (a, z)
}

fn find_byte_in(b: &[u8], lo: usize, hi: usize, c: u8) -> (r: usize)
    requires
        lo <= hi <= b@.len(),
    ensures
        r == lo + find_byte(b@.subrange(lo as int, hi as int), c),
        r <= hi,
{
    let mut i = lo;
    while i < hi
        invariant
            lo <= i <= hi <= b@.len(),
            find_byte(b@.subrange(lo as int, hi as int), c) == (i - lo) + find_byte(
                b@.subrange(i as int, hi as int),
                c,
            ),
        decreases hi - i,
    {
        if b[i] == c {
            return i;
        }
        assert(b@.subrange(i as int, hi as int).drop_first() =~= b@.subrange(i + 1, hi as int));
        i = i + 1;
    }
    i
}

fn parse_u8_range(b: &[u8], lo: usize, hi: usize) -> (r: Option<u8>)
    requires
        lo <= hi <= b@.len(),
    ensures
        r == parse_u8_spec(b@.subrange(lo as int, hi as int)),
{
    let ghost whole = b@.subrange(lo as int, hi as int);
    let mut start = lo;
    if start < hi && b[start] == 0x2b {
        assert(whole[0] == b@[lo as int]);
        assert(whole.drop_first() =~= b@.subrange(lo + 1, hi as int));
        start = start + 1;
    } else if start < hi {
        assert(whole[0] == b@[lo as int]);
    }
    let ghost d = b@.subrange(start as int, hi as int);
    assert(d == if whole.len() > 0 && whole[0] == 0x2b {
        whole.drop_first()
    } else {
        whole
    });
    if start == hi {
        return None;
    }
    let mut acc: u32 = 0;
    let mut i = start;
    while i < hi
        invariant
            start <= i <= hi <= b@.len(),
            start < hi,
            d == b@.subrange(start as int, hi as int),
            whole == b@.subrange(lo as int, hi as int),
            d == if whole.len() > 0 && whole[0] == 0x2b {
                whole.drop_first()
            } else {
                whole
            },
            all_digits(b@.subrange(start as int, i as int)),
            acc == digits_value(b@.subrange(start as int, i as int)),
            acc <= 255,
        decreases hi - i,
    {
        let c = b[i];
        let ghost pre = b@.subrange(start as int, i as int);
        let ghost next = b@.subrange(start as int, i + 1);
        assert(next.drop_last() =~= pre);
        if c < 0x30 || c > 0x39 {
            assert(!all_digits(d)) by {
                assert(d[i - start] == c);
            }
            return None;
        }
        acc = acc * 10 + (c - 0x30) as u32;
        assert(next.last() == c);
        assert(d.take(i + 1 - start) =~= next);
        assert(all_digits(next));
        if acc > 255 {
            proof {
                lemma_digits_grow(d, (i + 1 - start) as nat);
            }
            return None;
        }
        i = i + 1;
    }
    assert(b@.subrange(start as int, i as int) =~= d);
    Some(acc as u8)
}

proof fn lemma_digits_grow(d: Seq<u8>, n: nat)
    requires
        n <= d.len(),
        all_digits(d.take(n as int)),
        digits_value(d.take(n as int)) > 255,
    ensures
        all_digits(d) ==> digits_value(d) > 255,
    decreases d.len() - n,
{
    if n < d.len() && all_digits(d) {
        let next = d.take(n as int + 1);
        assert(next.drop_last() =~= d.take(n as int));
        assert(all_digits(next));
        lemma_digits_grow(d, n + 1);
    } else if n == d.len() {
        assert(d.take(n as int) =~= d);
    }
}

fn line_entry_exec(b: &[u8], lo: usize, hi: usize) -> (r: Option<(Vec<u8>, u8)>)
    requires
        lo <= hi <= b@.len(),
    ensures
        match line_entry(b@.subrange(lo as int, hi as int)) {
            Some((k, v)) => (r matches Some((rk, rv)) && rk@ == k && rv == v),
            None => r is None,
        },
{
    let ghost line = b@.subrange(lo as int, hi as int);
    let (a1, z1) = trim_ws_range(b, lo, hi);
    let (a, z) = trim_set_range(b, a1, z1, false);
    let ghost t = b@.subrange(a as int, z as int);
    assert(t == trim_set(trim_ws(line), false));
    let c = find_byte_in(b, a, z, 0x3a);
    if c >= z {
        return None;
    }
    let (ka, kz) = trim_ws_range(b, a, c);
    let (ka2, kz2) = trim_set_range(b, ka, kz, true);
    assert(t.take(c - a) =~= b@.subrange(a as int, c as int));
    let (va, vz) = trim_ws_range(b, c + 1, z);
    assert(t.skip(c - a + 1) =~= b@.subrange(c + 1, z as int));
    match parse_u8_range(b, va, vz) {
        Some(v) => {
            if ka2 < kz2 {
                let key = copy_bytes(&b[ka2..kz2]);
                Some((key, v))
            } else {
                None
            }
        },
        None => None,
    }
}

/// Reads the cache file into `cache`: every line that gives an entry (see
/// `line_entry`) sets it, later lines overriding earlier ones and entries
/// already held; other entries stay as they were.
pub fn parse_cache_into(cache: &mut RunaheadCache, text: &[u8])
    requires
        old(cache).wf(),
    ensures
        final(cache).wf(),
        final(cache)@ == parse_from(old(cache)@, text@),
{
    assert(text@.skip(0) =~= text@);
    let n = text.len();
    let mut pos: usize = 0;
    while pos < n
        invariant
            pos <= n,
            n == text@.len(),
            cache.wf(),
            parse_from(old(cache)@, text@) == parse_from(cache@, text@.skip(pos as int)),
        decreases n - pos,
    {
        let ghost rest = text@.skip(pos as int);
        let nl = find_byte_in(text, pos, n, 0x0a);
        assert(text@.subrange(pos as int, n as int) =~= rest);
        assert(rest.take(nl - pos) =~= text@.subrange(pos as int, nl as int));
        let ghost before = cache@;
        match line_entry_exec(text, pos, nl) {
            Some((k, v)) => {
                cache.set(k, v);
            },
            None => {},
        }
        if nl >= n {
            assert(parse_from(before, rest) == cache@);
            assert(text@.skip(n as int) =~= Seq::<u8>::empty());
            pos = n;
        } else {
            assert(rest.skip(nl - pos + 1) =~= text@.skip(nl + 1));
            pos = nl + 1;
        }
    }
    assert(text@.skip(pos as int) =~= Seq::<u8>::empty());
}

/// Reads the cache file: every line that gives an entry (see `line_entry`)
/// sets it, later lines overriding earlier ones.
pub fn parse_cache_text(text: &[u8]) -> (c: RunaheadCache)
    ensures
        c.wf(),
        c@ == parse_from(Map::empty(), text@),
{
    let mut cache = RunaheadCache::new();
    parse_cache_into(&mut cache, text);
    cache
}

/// A byte value in decimal, without leading zeros.
pub open spec fn decimal(v: u8) -> Seq<u8> {
    if v >= 100 {
        seq![(0x30 + v / 100) as u8, (0x30 + (v / 10) % 10) as u8, (0x30 + v % 10) as u8]
    } else if v >= 10 {
        seq![(0x30 + v / 10) as u8, (0x30 + v % 10) as u8]
    } else {
        seq![(0x30 + v) as u8]
    }
}

/// The line of the cache file for one entry, without its line feed:
/// two spaces, the key in double quotes, `: `, the value, and a comma
/// unless it is the last entry.
pub open spec fn entry_text(k: Seq<u8>, v: u8, last: bool) -> Seq<u8> {
    seq![0x20u8, 0x20, 0x22] + k + seq![0x22u8, 0x3a, 0x20] + decimal(v) + if last {
        Seq::empty()
    } else {
        seq![0x2cu8]
    }
}

/// The lines of the entries from the `i`-th on, each with its line feed.
pub open spec fn entries_text(s: Seq<(Seq<u8>, u8)>, i: int) -> Seq<u8>
    decreases s.len() - i,
{
    if i < 0 || i >= s.len() {
        Seq::empty()
    } else {
        entry_text(s[i].0, s[i].1, i == s.len() - 1) + seq![0x0au8] + entries_text(s, i + 1)
    }
}

/// The cache file: `{`, a line per entry in key order, `}`.
pub open spec fn cache_text(s: Seq<(Seq<u8>, u8)>) -> Seq<u8> {
    seq![0x7bu8, 0x0a] + entries_text(s, 0) + seq![0x7du8]
}

fn push_decimal(out: &mut Vec<u8>, v: u8)
    ensures
        final(out)@ == old(out)@ + decimal(v),
{
    if v >= 100 {
        out.push(0x30 + v / 100);
        out.push(0x30 + (v / 10) % 10);
        out.push(0x30 + v % 10);
    } else if v >= 10 {
        out.push(0x30 + v / 10);
        out.push(0x30 + v % 10);
    } else {
        out.push(0x30 + v);
    }
    assert(final(out)@ =~= old(out)@ + decimal(v));
}

/// Writes the cache file for a cache, its entries in key order.
pub fn serialize_cache(cache: &RunaheadCache) -> (out: Vec<u8>)
    requires
        cache.wf(),
    ensures
        out@ == cache_text(cache.pairs()),
{
    let ghost s = cache.pairs();
    let mut out: Vec<u8> = Vec::new();
    out.push(0x7b);
    out.push(0x0a);
    let n = cache.len();
    let mut i: usize = 0;
    assert(out@ + entries_text(s, 0) =~= seq![0x7bu8, 0x0a] + entries_text(s, 0));
    while i < n
        invariant
            i <= n,
            n == s.len(),
            s == cache.pairs(),
            out@ + entries_text(s, i as int) == seq![0x7bu8, 0x0a] + entries_text(s, 0),
        decreases n - i,
    {
        let (k, v) = cache.entry(i);
        let ghost before = out@;
        out.push(0x20);
        out.push(0x20);
        out.push(0x22);
        let mut j: usize = 0;
        let ghost head = out@;
        while j < k.len()
            invariant
                j <= k@.len(),
                out@ == head + k@.take(j as int),
            decreases k@.len() - j,
        {
            out.push(k[j]);
            j = j + 1;
            assert(out@ =~= head + k@.take(j as int));
        }
        assert(k@.take(j as int) =~= k@);
        out.push(0x22);
        out.push(0x3a);
        out.push(0x20);
        push_decimal(&mut out, v);
        if i + 1 < n {
            out.push(0x2c);
        }
        out.push(0x0a);
        assert(out@ =~= before + entry_text(s[i as int].0, s[i as int].1, i == s.len() - 1) + seq![
            0x0au8,
        ]);
        assert(entries_text(s, i as int) == entry_text(s[i as int].0, s[i as int].1, i == s.len() - 1)
            + seq![0x0au8] + entries_text(s, i + 1));
        i = i + 1;
        assert(out@ + entries_text(s, i as int) =~= before + entries_text(s, i - 1));
    }
    out.push(0x7d);
    assert(entries_text(s, n as int) =~= Seq::<u8>::empty());
    assert(out@ =~= cache_text(s));
    out
}

/// A key the cache file carries through unchanged: not empty, not starting
/// or ending with `"`, holding no `:` and no line feed.
pub open spec fn plain_key(k: Seq<u8>) -> bool {
    &&& k.len() > 0
    &&& k[0] != 0x22
    &&& k.last() != 0x22
    &&& forall|i: int| 0 <= i < k.len() ==> #[trigger] k[i] != 0x3a && k[i] != 0x0a
}

/// An ASCII byte that is not white space.
pub open spec fn ascii_non_ws(c: u8) -> bool {
    c < 0x80 && c != 0x20 && !(0x09 <= c && c <= 0x0d)
}

proof fn lemma_trim_ws_fixed(b: Seq<u8>)
    requires
        b.len() > 0,
        ascii_non_ws(b[0]),
        ascii_non_ws(b.last()),
    ensures
        trim_start_ws(b) == b,
        trim_end_ws(b) == b,
        trim_ws(b) == b,
{
    assert(ws_prefix_len(b) == 0);
    assert(ws_suffix_len(b) == 0);
}

proof fn lemma_find_byte_concat(a: Seq<u8>, b: Seq<u8>, c: u8)
    requires
        forall|i: int| 0 <= i < a.len() ==> #[trigger] a[i] != c,
    ensures
        find_byte(a + b, c) == a.len() + find_byte(b, c),
    decreases a.len(),
{
    if a.len() > 0 {
        assert((a + b).drop_first() =~= a.drop_first() + b);
        assert((a + b)[0] == a[0]);
        lemma_find_byte_concat(a.drop_first(), b, c);
    } else {
        assert(a + b =~= b);
    }
}

proof fn lemma_parse_line(acc: Map<Seq<u8>, u8>, line: Seq<u8>, rest: Seq<u8>)
    requires
        forall|i: int| 0 <= i < line.len() ==> #[trigger] line[i] != 0x0a,
    ensures
        parse_from(acc, line + seq![0x0au8] + rest) == parse_from(
            match line_entry(line) {
                Some((k, v)) => acc.insert(k, v),
                None => acc,
            },
            rest,
        ),
{
    let b = line + seq![0x0au8] + rest;
    assert(b =~= line + (seq![0x0au8] + rest));
    lemma_find_byte_concat(line, seq![0x0au8] + rest, 0x0a);
    assert(find_byte(seq![0x0au8] + rest, 0x0a) == 0);
    assert(b.take(line.len() as int) =~= line);
    assert(b.skip(line.len() as int + 1) =~= rest);
}

proof fn lemma_decimal(v: u8)
    ensures
        decimal(v).len() > 0,
        ascii_non_ws(decimal(v)[0]),
        ascii_non_ws(decimal(v).last()),
        decimal(v)[0] != 0x2b,
        all_digits(decimal(v)),
        digits_value(decimal(v)) == v,
{
    let d = decimal(v);
    reveal_with_fuel(digits_value, 4);
    if v >= 100 {
        assert(d.drop_last() =~= seq![(0x30 + v / 100) as u8, (0x30 + (v / 10) % 10) as u8]);
        assert(d.drop_last().drop_last() =~= seq![(0x30 + v / 100) as u8]);
        assert(d.drop_last().drop_last().drop_last() =~= Seq::<u8>::empty());
    } else if v >= 10 {
        assert(d.drop_last() =~= seq![(0x30 + v / 10) as u8]);
        assert(d.drop_last().drop_last() =~= Seq::<u8>::empty());
    } else {
        assert(d.drop_last() =~= Seq::<u8>::empty());
    }
}

proof fn lemma_entry_trim_ws(k: Seq<u8>, v: u8, last: bool)
    requires
        plain_key(k),
    ensures
        trim_ws(entry_text(k, v, last)) == seq![0x22u8] + k + seq![0x22u8, 0x3a, 0x20] + decimal(v)
            + if last {
            Seq::<u8>::empty()
        } else {
            seq![0x2cu8]
        },
{
    let d = decimal(v);
    lemma_decimal(v);
    let tail: Seq<u8> = if last {
        Seq::empty()
    } else {
        seq![0x2cu8]
    };
    let c = entry_text(k, v, last);
    let c2 = seq![0x22u8] + k + seq![0x22u8, 0x3a, 0x20] + d + tail;
    assert(c =~= seq![0x20u8, 0x20] + c2);
    assert(ws_prefix_len(c) == 1);
    assert(c.skip(1) =~= seq![0x20u8] + c2);
    assert(ws_prefix_len(c.skip(1)) == 1);
    assert(c.skip(1).skip(1) =~= c2);
    assert(c2.last() == if last {
        d.last()
    } else {
        0x2cu8
    });
    lemma_trim_ws_fixed(c2);
    assert(trim_start_ws(c) == trim_start_ws(c.skip(1)));
    assert(trim_start_ws(c.skip(1)) == trim_start_ws(c2));
}

proof fn lemma_entry_trim_set(k: Seq<u8>, v: u8, last: bool)
    requires
        plain_key(k),
    ensures
        trim_set(
            seq![0x22u8] + k + seq![0x22u8, 0x3a, 0x20] + decimal(v) + if last {
                Seq::<u8>::empty()
            } else {
                seq![0x2cu8]
            },
            false,
        ) == seq![0x22u8] + k + seq![0x22u8, 0x3a, 0x20] + decimal(v),
{
    let d = decimal(v);
    lemma_decimal(v);
    let t = seq![0x22u8] + k + seq![0x22u8, 0x3a, 0x20] + d;
    let tail: Seq<u8> = if last {
        Seq::empty()
    } else {
        seq![0x2cu8]
    };
    let c2 = t + tail;
    assert(t[0] == 0x22u8);
    assert(t.last() == d.last());
    assert(0x30 <= d[d.len() - 1] && d[d.len() - 1] <= 0x39);
    assert(!is_brace_or_comma(t[0]));
    assert(!is_brace_or_comma(t.last()));
    assert(trim_set(t, false) == t);
    if !last {
        assert(c2[0] == 0x22u8);
        assert(c2.last() == 0x2cu8);
        assert(c2.drop_last() =~= t);
    } else {
        assert(c2 =~= t);
    }
}

proof fn lemma_key_part(k: Seq<u8>)
    requires
        plain_key(k),
    ensures
        trim_set(trim_ws(seq![0x22u8] + k + seq![0x22u8]), true) == k,
        forall|i: int|
            0 <= i < (seq![0x22u8] + k + seq![0x22u8]).len() ==> #[trigger] (seq![0x22u8] + k
                + seq![0x22u8])[i] != 0x3a,
{
    let q = seq![0x22u8] + k + seq![0x22u8];
    assert forall|i: int| 0 <= i < q.len() implies #[trigger] q[i] != 0x3a by {
        if 0 < i < q.len() - 1 {
            assert(q[i] == k[i - 1]);
        }
    }
    lemma_trim_ws_fixed(q);
    let q1 = k + seq![0x22u8];
    assert(q.drop_first() =~= q1);
    assert(q1[0] == k[0]);
    assert(q1.drop_last() =~= k);
    assert(trim_set(q, true) == trim_set(q1, true));
    assert(trim_set(q1, true) == trim_set(k, true));
    assert(trim_set(k, true) == k);
}

proof fn lemma_value_part(v: u8)
    ensures
        parse_u8_spec(trim_ws(seq![0x20u8] + decimal(v))) == Some(v),
{
    let d = decimal(v);
    lemma_decimal(v);
    let vpart = seq![0x20u8] + d;
    assert(ws_prefix_len(vpart) == 1);
    assert(vpart.skip(1) =~= d);
    lemma_trim_ws_fixed(d);
    assert(trim_start_ws(vpart) == trim_start_ws(d));
    assert(trim_ws(vpart) == d);
}

proof fn lemma_entry_fields(k: Seq<u8>, v: u8)
    requires
        plain_key(k),
    ensures
        ({
            let t = seq![0x22u8] + k + seq![0x22u8, 0x3a, 0x20] + decimal(v);
            let c = find_byte(t, 0x3a);
            &&& c == k.len() + 2
            &&& trim_set(trim_ws(t.take(c as int)), true) == k
            &&& parse_u8_spec(trim_ws(t.skip(c as int + 1))) == Some(v)
        }),
{
    let d = decimal(v);
    let t = seq![0x22u8] + k + seq![0x22u8, 0x3a, 0x20] + d;
    let q = seq![0x22u8] + k + seq![0x22u8];
    lemma_key_part(k);
    lemma_value_part(v);
    assert(t =~= q + (seq![0x3au8, 0x20] + d));
    lemma_find_byte_concat(q, seq![0x3au8, 0x20] + d, 0x3a);
    assert(find_byte(seq![0x3au8, 0x20] + d, 0x3a) == 0);
    let cpos = k.len() as int + 2;
    assert(t.take(cpos) =~= q);
    assert(t.skip(cpos + 1) =~= seq![0x20u8] + d);
}

proof fn lemma_line_entry_entry(k: Seq<u8>, v: u8, last: bool)
    requires
        plain_key(k),
    ensures
        line_entry(entry_text(k, v, last)) == Some((k, v)),
{
    lemma_entry_trim_ws(k, v, last);
    lemma_entry_trim_set(k, v, last);
    lemma_entry_fields(k, v);
}

proof fn lemma_parse_entries(m: Map<Seq<u8>, u8>, s: Seq<(Seq<u8>, u8)>, i: int)
    requires
        0 <= i <= s.len(),
        forall|j: int| 0 <= j < s.len() ==> plain_key(#[trigger] s[j].0),
    ensures
        parse_from(m.union_prefer_right(entries_map(s.take(i))), entries_text(s, i) + seq![0x7du8])
            == m.union_prefer_right(entries_map(s)),
    decreases s.len() - i,
{
    if i == s.len() {
        assert(s.take(i) =~= s);
        assert(entries_text(s, i) + seq![0x7du8] =~= seq![0x7du8]);
        let b = seq![0x7du8];
        assert(find_byte(b, 0x0a) == 1) by {
            assert(b[0] == 0x7du8);
            assert(b.drop_first() =~= Seq::<u8>::empty());
            assert(find_byte(Seq::<u8>::empty(), 0x0a) == 0);
        }
        assert(b.take(1) =~= b);
        assert(trim_ws(b) == b) by {
            lemma_trim_ws_fixed(b);
        }
        assert(b.drop_first() =~= Seq::<u8>::empty());
        assert(is_brace_or_comma(b[0]));
        assert(trim_set(Seq::<u8>::empty(), false) == Seq::<u8>::empty());
        assert(trim_set(b, false) =~= Seq::<u8>::empty());
        assert(line_entry(b) is None);
    } else {
        let (k, v) = s[i];
        let line = entry_text(k, v, i == s.len() - 1);
        let rest = entries_text(s, i + 1) + seq![0x7du8];
        assert(entries_text(s, i) + seq![0x7du8] =~= line + seq![0x0au8] + rest);
        assert forall|j: int| 0 <= j < line.len() implies #[trigger] line[j] != 0x0a by {
            lemma_decimal(v);
            if 3 <= j < 3 + k.len() {
                assert(line[j] == k[j - 3]);
            }
        }
        lemma_parse_line(m.union_prefer_right(entries_map(s.take(i))), line, rest);
        lemma_line_entry_entry(k, v, i == s.len() - 1);
        assert(s.take(i + 1).drop_last() =~= s.take(i));
        assert(s.take(i + 1).last() == s[i]);
        assert(m.union_prefer_right(entries_map(s.take(i))).insert(k, v) =~= m.union_prefer_right(
            entries_map(s.take(i + 1)),
        ));
        lemma_parse_entries(m, s, i + 1);
    }
}

/// Reading the file that a cache was written to into a cache `m` sets every
/// entry of the written cache and leaves the other entries of `m` as they
/// were, for game codes that the file carries unchanged (see `plain_key`).
pub proof fn lemma_cache_file_merge(m: Map<Seq<u8>, u8>, c: RunaheadCache)
    requires
        c.wf(),
        forall|k: Seq<u8>| #[trigger] c@.contains_key(k) ==> plain_key(k),
    ensures
        parse_from(m, cache_text(c.pairs())) == m.union_prefer_right(c@),
{
    c.lemma_wf();
    let s = c.pairs();
    assert forall|j: int| 0 <= j < s.len() implies plain_key(#[trigger] s[j].0) by {
        assert(c@.contains_key(s[j].0));
    }
    let head = seq![0x7bu8];
    assert(cache_text(s) =~= head + seq![0x0au8] + (entries_text(s, 0) + seq![0x7du8]));
    lemma_parse_line(m, head, entries_text(s, 0) + seq![0x7du8]);
    assert(trim_ws(head) == head) by {
        lemma_trim_ws_fixed(head);
    }
    assert(head.drop_first() =~= Seq::<u8>::empty());
    assert(is_brace_or_comma(head[0]));
    assert(trim_set(Seq::<u8>::empty(), false) == Seq::<u8>::empty());
    assert(trim_set(head, false) =~= Seq::<u8>::empty());
    assert(line_entry(head) is None);
    assert(s.take(0) =~= Seq::<(Seq<u8>, u8)>::empty());
    assert(m.union_prefer_right(entries_map(s.take(0))) =~= m);
    lemma_parse_entries(m, s, 0);
}

/// Writing a cache to its file and reading the file back gives the same
/// cache, for game codes that the file carries unchanged (see `plain_key`).
pub proof fn lemma_cache_file_roundtrip(c: RunaheadCache)
    requires
        c.wf(),
        forall|k: Seq<u8>| #[trigger] c@.contains_key(k) ==> plain_key(k),
    ensures
        parse_from(Map::empty(), cache_text(c.pairs())) == c@,
{
    lemma_cache_file_merge(Map::empty(), c);
    assert(Map::<Seq<u8>, u8>::empty().union_prefer_right(c@) =~= c@);
}

proof fn lemma_encode_push(s: Seq<char>, c: char)
    ensures
        encode_utf8(s.push(c)) == encode_utf8(s) + encode_scalar(c as u32),
    decreases s.len(),
{
    if s.len() == 0 {
        assert(s.push(c).drop_first() =~= Seq::<char>::empty());
        assert(s.push(c)[0] == c);
        assert(encode_utf8(Seq::<char>::empty()) =~= Seq::<u8>::empty());
        assert(encode_utf8(s) =~= Seq::<u8>::empty());
        assert(encode_utf8(s.push(c).drop_first()) =~= Seq::<u8>::empty());
        assert(encode_utf8(s.push(c)) =~= encode_scalar(c as u32));
    } else {
        assert(s.push(c).drop_first() =~= s.drop_first().push(c));
        assert(s.push(c)[0] == s[0]);
        lemma_encode_push(s.drop_first(), c);
    }
}

proof fn lemma_scalar_last_slash(c: char)
    ensures
        encode_scalar(c as u32).len() > 0,
        (encode_scalar(c as u32).last() == 0x2f) <==> (c == '/'),
{
    let u = c as u32;
    char_is_scalar(c);
    char_u32_cast(c, u);
    if has_width_1_encoding(u) {
        assert(u <= 0x7f ==> (((u & 0x7F) as u8 == 0x2f) <==> (u == 0x2f))) by (bit_vector);
    } else {
        assert((0x80u8 | (u & 0x3F) as u8) != 0x2f) by (bit_vector);
    }
}

/// The text ends with `/`.
fn ends_with_slash(s: &str) -> (r: bool)
    ensures
        r == (s@.len() > 0 && s@.last() == '/'),
{
    let b = s.as_bytes();
    proof {
        if s@.len() > 0 {
            let t = s@.drop_last();
            assert(t.push(s@.last()) =~= s@);
            lemma_encode_push(t, s@.last());
            lemma_scalar_last_slash(s@.last());
        } else {
            assert(encode_utf8(s@) =~= Seq::<u8>::empty());
        }
    }
    b.len() > 0 && b[b.len() - 1] == 0x2f
}

/// `base` joined with a relative component as a Unix path is: a `/`
/// between them unless `base` is empty or already ends with one.
pub open spec fn path_join(base: Seq<char>, comp: Seq<char>) -> Seq<char> {
    if base.len() == 0 || base.last() == '/' {
        base + comp
    } else {
        base + seq!['/'] + comp
    }
}

fn join_path(base: String, comp: &str) -> (r: String)
    ensures
        r@ == path_join(base@, comp@),
{
    let mut out = base;
    if !ends_with_slash(out.as_str()) && !out.as_str().is_empty() {
        proof {
            reveal_strlit("/");
        }
        out.append("/");
    }
    out.append(comp);
    out
}

/// Where the cache file lives: `remote_retro/gba_lag_config.json` under
/// `$XDG_CONFIG_HOME`, else under `$HOME/.config`, else under `/tmp`.
pub open spec fn cache_file_path_spec(xdg: Option<String>, home: Option<String>) -> Seq<char> {
    let base = match xdg {
        Some(x) => x@,
        None => match home {
            Some(h) => path_join(h@, ".config"@),
            None => "/tmp"@,
        },
    };
    path_join(path_join(base, "remote_retro"@), "gba_lag_config.json"@)
}

/// The path of the cache file, from the values of `XDG_CONFIG_HOME` and
/// `HOME` where they are set.
pub fn get_cache_file_path(xdg: Option<String>, home: Option<String>) -> (p: String)
    ensures
        p@ == cache_file_path_spec(xdg, home),
{
    let base = match xdg {
        Some(x) => x,
        None => match home {
            Some(h) => join_path(h, ".config"),
            None => "/tmp".to_owned(),
        },
    };
    join_path(join_path(base, "remote_retro"), "gba_lag_config.json")
}

} // verus!
