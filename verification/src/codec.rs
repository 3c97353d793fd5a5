//! Byte-sequence form of the store.
//!
//! A store serializes to: an eight-byte little-endian pair count, then
//! for each pair an eight-byte little-endian word length, the word
//! bytes, and the eight-byte little-endian rank. Deserialization
//! parses that layout and re-checks the store invariant (strictly
//! ascending words), so only an equivalent queryable structure comes
//! back: `lemma_codec_roundtrip` proves that decoding an encoded
//! store's bytes yields exactly the encoded pairs.
//!
//! The layout is an implementation choice of this crate, not a
//! compatibility promise.

use crate::dictionary::{pairs_model, Store};
use crate::lex::{lemma_lex_asym, lemma_lex_connected, lex_le_bytes, lex_lt};
use vstd::prelude::*;

verus! {

/// The eight little-endian bytes of a 64-bit value.
pub open spec fn le8(x: u64) -> Seq<u8> {
    seq![
        (x & 0xff) as u8,
        ((x >> 8) & 0xff) as u8,
        ((x >> 16) & 0xff) as u8,
        ((x >> 24) & 0xff) as u8,
        ((x >> 32) & 0xff) as u8,
        ((x >> 40) & 0xff) as u8,
        ((x >> 48) & 0xff) as u8,
        ((x >> 56) & 0xff) as u8,
    ]
}

/// The 64-bit value eight little-endian bytes stand for.
pub open spec fn from_le8(b: Seq<u8>) -> u64
    recommends
        b.len() == 8,
{
    (b[0] as u64) | ((b[1] as u64) << 8) | ((b[2] as u64) << 16) | ((b[3] as u64) << 24) | ((
    b[4] as u64) << 32) | ((b[5] as u64) << 40) | ((b[6] as u64) << 48) | ((b[7] as u64) << 56)
}

/// Reading back the written bytes restores the value.
pub proof fn lemma_le8_roundtrip(x: u64)
    ensures
        from_le8(le8(x)) == x,
{
    let b = le8(x);
    assert(((((x & 0xff) as u8) as u64) | (((((x >> 8) & 0xff) as u8) as u64) << 8) | (((((x
        >> 16) & 0xff) as u8) as u64) << 16) | (((((x >> 24) & 0xff) as u8) as u64) << 24) | ((((
    (x >> 32) & 0xff) as u8) as u64) << 32) | (((((x >> 40) & 0xff) as u8) as u64) << 40) | ((((
    (x >> 48) & 0xff) as u8) as u64) << 48) | (((((x >> 56) & 0xff) as u8) as u64) << 56))
        == x) by (bit_vector);
}

/// The bytes of the pairs from index `i` on.
pub open spec fn encode_from(m: Seq<(Seq<u8>, u64)>, i: int) -> Seq<u8>
    decreases m.len() - i,
{
    if i < 0 || i >= m.len() {
        Seq::empty()
    } else {
        le8(m[i].0.len() as u64) + m[i].0 + le8(m[i].1) + encode_from(m, i + 1)
    }
}

/// The byte form of a whole pair sequence.
pub open spec fn encode_pairs(m: Seq<(Seq<u8>, u64)>) -> Seq<u8> {
    le8(m.len() as u64) + encode_from(m, 0)
}

/// What parsing `count` pairs at `pos` yields, demanding that they end
/// exactly at the end of the bytes.
pub open spec fn decode_from(b: Seq<u8>, pos: int, count: int) -> Option<
    Seq<(Seq<u8>, u64)>,
>
    decreases count,
{
    if count <= 0 {
        if pos == b.len() {
            Some(Seq::empty())
        } else {
            None
        }
    } else if pos + 8 > b.len() {
        None
    } else {
        let wlen = from_le8(b.subrange(pos, pos + 8)) as int;
        if pos + 8 + wlen + 8 > b.len() {
            None
        } else {
            let word = b.subrange(pos + 8, pos + 8 + wlen);
            let rank = from_le8(b.subrange(pos + 8 + wlen, pos + 8 + wlen + 8));
            match decode_from(b, pos + 8 + wlen + 8, count - 1) {
                Some(rest) => Some(seq![(word, rank)] + rest),
                None => None,
            }
        }
    }
}

/// What parsing a whole byte sequence yields.
pub open spec fn decode_pairs(b: Seq<u8>) -> Option<Seq<(Seq<u8>, u64)>> {
    if b.len() < 8 {
        None
    } else {
        decode_from(b, 8, from_le8(b.take(8)) as int)
    }
}

/// Pairs in strictly ascending word order: the store invariant, on the
/// decoded value.
pub open spec fn pairs_sorted(m: Seq<(Seq<u8>, u64)>) -> bool {
    forall|i: int, j: int| 0 <= i < j < m.len() ==> lex_lt(#[trigger] m[i].0, #[trigger] m[j].0)
}

/// Parsing succeeds only when the bytes are long enough for the count:
/// sixteen bytes at least per pair, and exactly `count` pairs parsed.
proof fn lemma_decode_from_bounds(b: Seq<u8>, pos: int, count: int)
    requires
        decode_from(b, pos, count) is Some,
        0 <= pos,
        0 <= count,
    ensures
        pos + 16 * count <= b.len(),
        decode_from(b, pos, count)->Some_0.len() == count,
    decreases count,
{
    if count > 0 {
        let wlen = from_le8(b.subrange(pos, pos + 8)) as int;
        lemma_decode_from_bounds(b, pos + 8 + wlen + 8, count - 1);
    }
}

/// Decoding inverts encoding, entry by entry: parsing the encoded
/// suffix after any prefix yields exactly the encoded pairs.
proof fn lemma_decode_encode_from(c: Seq<u8>, m: Seq<(Seq<u8>, u64)>, i: int)
    requires
        0 <= i <= m.len(),
        forall|j: int| 0 <= j < m.len() ==> (#[trigger] m[j].0.len()) <= u64::MAX,
    ensures
        decode_from(c + encode_from(m, i), c.len() as int, m.len() - i) == Some(m.skip(i)),
    decreases m.len() - i,
{
    let b = c + encode_from(m, i);
    if i == m.len() {
        assert(encode_from(m, i) =~= Seq::<u8>::empty());
        assert(b =~= c);
        assert(m.skip(i) =~= Seq::<(Seq<u8>, u64)>::empty());
    } else {
        let wlen_u = m[i].0.len() as u64;
        let piece = le8(wlen_u) + m[i].0 + le8(m[i].1);
        assert(encode_from(m, i) == piece + encode_from(m, i + 1));
        let pos = c.len() as int;
        lemma_le8_roundtrip(wlen_u);
        lemma_le8_roundtrip(m[i].1);
        assert(b.subrange(pos, pos + 8) =~= le8(wlen_u));
        let wlen = from_le8(b.subrange(pos, pos + 8)) as int;
        assert(wlen == m[i].0.len());
        assert(b.subrange(pos + 8, pos + 8 + wlen) =~= m[i].0);
        assert(b.subrange(pos + 8 + wlen, pos + 8 + wlen + 8) =~= le8(m[i].1));
        let c2 = c + piece;
        assert(b =~= c2 + encode_from(m, i + 1));
        lemma_decode_encode_from(c2, m, i + 1);
        assert(c2.len() as int == pos + 8 + wlen + 8);
        assert(decode_from(b, pos + 8 + wlen + 8, m.len() - i - 1) == Some(m.skip(i + 1)));
        assert(seq![(m[i].0, m[i].1)] + m.skip(i + 1) =~= m.skip(i));
        assert((m[i].0, m[i].1) == m[i]);
    }
}

/// Law: decoding an encoded pair sequence gives it back exactly.
pub proof fn lemma_codec_roundtrip(m: Seq<(Seq<u8>, u64)>)
    requires
        m.len() <= u64::MAX,
        forall|j: int| 0 <= j < m.len() ==> (#[trigger] m[j].0.len()) <= u64::MAX,
    ensures
        decode_pairs(encode_pairs(m)) == Some(m),
{
    let b = encode_pairs(m);
    let c = le8(m.len() as u64);
    lemma_le8_roundtrip(m.len() as u64);
    assert(b.take(8) =~= c);
    assert(b.len() >= 8);
    lemma_decode_encode_from(c, m, 0);
    assert(m.skip(0) =~= m);
}

/// Appends the eight little-endian bytes of `x`.
fn push_le8(out: &mut Vec<u8>, x: u64)
    ensures
        final(out)@ == old(out)@ + le8(x),
{
    out.push(#[verifier::truncate] ((x & 0xff) as u8));
    out.push(#[verifier::truncate] (((x >> 8) & 0xff) as u8));
    out.push(#[verifier::truncate] (((x >> 16) & 0xff) as u8));
    out.push(#[verifier::truncate] (((x >> 24) & 0xff) as u8));
    out.push(#[verifier::truncate] (((x >> 32) & 0xff) as u8));
    out.push(#[verifier::truncate] (((x >> 40) & 0xff) as u8));
    out.push(#[verifier::truncate] (((x >> 48) & 0xff) as u8));
    out.push(#[verifier::truncate] (((x >> 56) & 0xff) as u8));
    proof {
        assert(out@ =~= old(out)@ + le8(x));
    }
}

/// Reads the eight little-endian bytes at `pos` back as a value.
fn read_le8(bytes: &Vec<u8>, pos: usize) -> (r: u64)
    requires
        pos + 8 <= bytes@.len(),
    ensures
        r == from_le8(bytes@.subrange(pos as int, pos as int + 8)),
{
    let n = bytes.len();
    let ghost s = bytes@.subrange(pos as int, pos as int + 8);
    proof {
        assert(pos + 8 <= n);
        assert(s[0] == bytes@[pos as int]);
        assert(s[1] == bytes@[pos as int + 1]);
        assert(s[2] == bytes@[pos as int + 2]);
        assert(s[3] == bytes@[pos as int + 3]);
        assert(s[4] == bytes@[pos as int + 4]);
        assert(s[5] == bytes@[pos as int + 5]);
        assert(s[6] == bytes@[pos as int + 6]);
        assert(s[7] == bytes@[pos as int + 7]);
    }
    (bytes[pos] as u64) | ((bytes[pos + 1] as u64) << 8) | ((bytes[pos + 2] as u64) << 16) | ((
    bytes[pos + 3] as u64) << 24) | ((bytes[pos + 4] as u64) << 32) | ((bytes[pos + 5] as u64)
        << 40) | ((bytes[pos + 6] as u64) << 48) | ((bytes[pos + 7] as u64) << 56)
}

impl Store {
    /// The byte form of this store.
    pub fn to_bytes(&self) -> (out: Vec<u8>)
        ensures
            out@ == encode_pairs(self.model()),
    {
        let ghost m = self.model();
        let mut out: Vec<u8> = Vec::new();
        let n = self.entries.len();
        push_le8(&mut out, n as u64);
        proof {
            assert(out@ + encode_from(m, 0) =~= encode_pairs(m));
        }
        let mut i: usize = 0;
        while i < n
            invariant
                i <= n,
                n == self.entries@.len(),
                m == self.model(),
                out@ + encode_from(m, i as int) == encode_pairs(m),
            decreases n - i,
        {
            let ghost before = out@;
            let word = &self.entries[i].0;
            push_le8(&mut out, word.len() as u64);
            let mut j: usize = 0;
            while j < word.len()
                invariant
                    j <= word@.len(),
                    word@ == self.entries@[i as int].0@,
                    i < self.entries@.len(),
                    out@ == before + le8(word@.len() as u64) + word@.take(j as int),
                decreases word@.len() - j,
            {
                out.push(word[j]);
                proof {
                    assert(word@.take(j + 1) =~= word@.take(j as int).push(word@[j as int]));
                    assert(out@ =~= before + le8(word@.len() as u64) + word@.take(j + 1));
                }
                j = j + 1;
            }
            proof {
                assert(word@.take(word@.len() as int) =~= word@);
            }
            push_le8(&mut out, self.entries[i].1);
            proof {
                assert(m[i as int].0 == word@);
                assert(m[i as int].0.len() == word@.len());
                assert(out@ =~= before + (le8(m[i as int].0.len() as u64) + m[i as int].0 + le8(
                    m[i as int].1,
                )));
                assert(encode_from(m, i as int) == le8(m[i as int].0.len() as u64) + m[
                    i as int].0 + le8(m[i as int].1) + encode_from(m, i + 1));
                assert(out@ + encode_from(m, i + 1) =~= before + encode_from(m, i as int));
            }
            i = i + 1;
        }
        proof {
            assert(encode_from(m, n as int) =~= Seq::<u8>::empty());
            assert(out@ + Seq::<u8>::empty() =~= out@);
        }
        out
    }

    /// Rebuilds a store from its byte form: the parsed pairs when the
    /// bytes parse and satisfy the store invariant, `None` otherwise.
    pub fn from_bytes(bytes: &Vec<u8>) -> (r: Option<Store>)
        ensures
            match r {
                Some(st) => {
                    &&& decode_pairs(bytes@) is Some
                    &&& st.model() == decode_pairs(bytes@)->Some_0
                    &&& st.wf()
                },
                None => decode_pairs(bytes@) is None || !pairs_sorted(
                    decode_pairs(bytes@)->Some_0,
                ),
            },
    {
        let len = bytes.len();
        if len < 8 {
            return None;
        }
        let count_u = read_le8(bytes, 0);
        proof {
            assert(bytes@.subrange(0, 8) =~= bytes@.take(8));
        }
        if count_u > ((len - 8) / 16) as u64 {
            proof {
                if decode_pairs(bytes@) is Some {
                    lemma_decode_from_bounds(bytes@, 8, count_u as int);
                }
            }
            return None;
        }
        let count = count_u as usize;
        let mut pairs: Vec<(Vec<u8>, u64)> = Vec::new();
        let mut pos: usize = 8;
        let mut parsed: usize = 0;
        proof {
            assert(pairs_model(pairs@) + decode_from(bytes@, 8, count_u as int)->Some_0
                =~= decode_from(bytes@, 8, count_u as int)->Some_0);
        }
        while parsed < count
            invariant
                parsed <= count,
                count == count_u as int,
                8 <= pos <= bytes@.len(),
                len == bytes@.len(),
                decode_pairs(bytes@) == decode_from(bytes@, 8, count as int),
                decode_from(bytes@, 8, count as int) matches Some(all) ==> decode_from(
                    bytes@,
                    pos as int,
                    count - parsed,
                ) matches Some(rest) && all == pairs_model(pairs@) + rest,
                decode_from(bytes@, 8, count as int) is None <==> decode_from(
                    bytes@,
                    pos as int,
                    count - parsed,
                ) is None,
            decreases count - parsed,
        {
            if len - pos < 8 {
                return None;
            }
            let wlen_u = read_le8(bytes, pos);
            if wlen_u > ((len - pos - 8) as u64) {
                return None;
            }
            let wlen = wlen_u as usize;
            if len - pos - 8 - wlen < 8 {
                return None;
            }
            let mut word: Vec<u8> = Vec::new();
            let mut j: usize = 0;
            while j < wlen
                invariant
                    j <= wlen,
                    len == bytes@.len(),
                    pos + 8 + wlen <= bytes@.len(),
                    word@ == bytes@.subrange(pos as int + 8, pos as int + 8 + j as int),
                decreases wlen - j,
            {
                word.push(bytes[pos + 8 + j]);
                proof {
                    assert(bytes@.subrange(pos as int + 8, pos as int + 8 + j + 1)
                        =~= bytes@.subrange(pos as int + 8, pos as int + 8 + j as int).push(
                        bytes@[pos as int + 8 + j as int],
                    ));
                }
                j = j + 1;
            }
            let rank = read_le8(bytes, pos + 8 + wlen);
            let ghost old_pairs = pairs_model(pairs@);
            pairs.push((word, rank));
            proof {
                let p = pos as int;
                let swlen = from_le8(bytes@.subrange(p, p + 8)) as int;
                assert(swlen == wlen as int);
                assert(pairs_model(pairs@) =~= old_pairs + seq![
                    (bytes@.subrange(p + 8, p + 8 + swlen), from_le8(
                        bytes@.subrange(p + 8 + swlen, p + 8 + swlen + 8),
                    )),
                ]);
                assert forall|rest: Seq<(Seq<u8>, u64)>|
                    decode_from(bytes@, p + 8 + swlen + 8, count - parsed - 1) == Some(
                        rest,
                    ) implies old_pairs + decode_from(bytes@, p, count - parsed)->Some_0
                    == pairs_model(pairs@) + rest by {
                    assert(old_pairs + (seq![
                        (bytes@.subrange(p + 8, p + 8 + swlen), from_le8(
                            bytes@.subrange(p + 8 + swlen, p + 8 + swlen + 8),
                        )),
                    ] + rest) =~= pairs_model(pairs@) + rest);
                }
            }
            pos = pos + 8 + wlen + 8;
            parsed = parsed + 1;
        }
        if pos != len {
            return None;
        }
        proof {
            assert(decode_from(bytes@, pos as int, 0) == Some(Seq::<(Seq<u8>, u64)>::empty()));
            assert(pairs_model(pairs@) + Seq::<(Seq<u8>, u64)>::empty() =~= pairs_model(
                pairs@,
            ));
        }
        proof {
            assert(decode_pairs(bytes@) == Some(pairs_model(pairs@)));
        }
        // Re-check the store invariant: strictly ascending words.
        let mut idx: usize = 1;
        while idx < pairs.len()
            invariant
                1 <= idx || pairs@.len() == 0,
                idx <= pairs@.len() || pairs@.len() == 0,
                decode_pairs(bytes@) == Some(pairs_model(pairs@)),
                forall|a: int, b: int| 0 <= a < b < idx ==> lex_lt(
                    #[trigger] pairs_model(pairs@)[a].0,
                    #[trigger] pairs_model(pairs@)[b].0,
                ),
            decreases pairs@.len() - idx,
    {
            let sorted_here = lex_le_bytes(&pairs[idx].0, &pairs[idx - 1].0);
            proof {
                let pm = pairs_model(pairs@);
                if sorted_here {
                    if pm[idx as int].0 == pm[idx - 1].0 {
                        crate::lex::lemma_lex_irrefl(pm[idx as int].0);
                        assert(!lex_lt(pm[idx - 1].0, pm[idx as int].0));
                        assert(!pairs_sorted(pm));
                    } else {
                        lemma_lex_asym(pm[idx as int].0, pm[idx - 1].0);
                        assert(!pairs_sorted(pm));
                    }
                } else {
                    lemma_lex_connected(pm[idx - 1].0, pm[idx as int].0);
                    assert(lex_lt(pm[idx - 1].0, pm[idx as int].0));
                    assert forall|a: int, b: int| 0 <= a < b < idx + 1 implies lex_lt(
                        #[trigger] pm[a].0,
                        #[trigger] pm[b].0,
                    ) by {
                        if b == idx as int && a < idx - 1 {
                            crate::lex::lemma_lex_trans(pm[a].0, pm[idx - 1].0, pm[b].0);
                        }
                    }
                }
            }
            if sorted_here {
                return None;
            }
            idx = idx + 1;
        }
        let st = Store { entries: pairs };
        Some(st)
    }
}

} // verus!
