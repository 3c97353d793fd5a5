//! The ranked dictionary: builder and read-only store.
//!
//! The builder takes (word, frequency) pairs, keeps the last occurrence
//! of each duplicated word, orders the survivors by frequency descending
//! with lexicographic ascending words breaking ties, and numbers them:
//! the position in that order is the word's rank, 0 the most frequent.
//! The store then holds the (word, rank) pairs re-sorted by word, so
//! keys come out in strictly ascending lexicographic order.
//!
//! Every stage has a canonical specification: `store_entries` is a spec
//! function from the input pairs to the exact contents of the store, and
//! `build` promises to produce precisely that.

use crate::lex::{bytes_eq, lemma_lex_asym, lemma_lex_connected, lemma_lex_irrefl, lemma_lex_le_trans};
use crate::lex::{clone_bytes, lex_le, lex_le_bytes, lex_lt};
use vstd::prelude::*;
use vstd::relations::{sorted_by, total_ordering};

verus! {

/// One input pair for the builder.
pub struct Entry {
    /// The dictionary word, as raw bytes.
    pub word: Vec<u8>,
    /// How often the word was observed; decides its rank.
    pub freq: u64,
}

/// The mathematical content of an input pair.
pub open spec fn entry_model(e: Entry) -> (Seq<u8>, u64) {
    (e.word@, e.freq)
}

/// The mathematical content of a builder input.
pub open spec fn entries_model(s: Seq<Entry>) -> Seq<(Seq<u8>, u64)> {
    s.map_values(|e: Entry| entry_model(e))
}

/// The rank order: higher frequency first, lexicographically smaller
/// word first among equal frequencies.
pub open spec fn rank_le(a: (Seq<u8>, u64), b: (Seq<u8>, u64)) -> bool {
    a.1 > b.1 || (a.1 == b.1 && lex_le(a.0, b.0))
}

/// `rank_le` as a relation value, for sorting specifications.
pub open spec fn rank_leq() -> spec_fn((Seq<u8>, u64), (Seq<u8>, u64)) -> bool {
    |a: (Seq<u8>, u64), b: (Seq<u8>, u64)| rank_le(a, b)
}

/// The store order on (word, rank) pairs: by word, rank breaking the
/// (never exercised) tie between equal words.
pub open spec fn key_le(a: (Seq<u8>, u64), b: (Seq<u8>, u64)) -> bool {
    lex_lt(a.0, b.0) || (a.0 == b.0 && a.1 <= b.1)
}

/// `key_le` as a relation value, for sorting specifications.
pub open spec fn key_leq() -> spec_fn((Seq<u8>, u64), (Seq<u8>, u64)) -> bool {
    |a: (Seq<u8>, u64), b: (Seq<u8>, u64)| key_le(a, b)
}

/// The rank order sorts: it is a total order on pairs.
pub proof fn lemma_rank_total_ordering()
    ensures
        total_ordering(rank_leq()),
{
    let r = rank_leq();
    assert forall|a: (Seq<u8>, u64), b: (Seq<u8>, u64)| #[trigger] r(a, b) && #[trigger] r(
        b,
        a,
    ) implies a == b by {
        if a.1 == b.1 {
            if a.0 != b.0 {
                if lex_lt(a.0, b.0) {
                    lemma_lex_asym(a.0, b.0);
                } else {
                    lemma_lex_asym(b.0, a.0);
                }
            }
            assert(a =~= b);
        }
    }
    assert forall|a: (Seq<u8>, u64), b: (Seq<u8>, u64)| #[trigger] r(a, b) || #[trigger] r(
        b,
        a,
    ) by {
        if a.1 == b.1 && a.0 != b.0 {
            lemma_lex_connected(a.0, b.0);
        }
    }
    assert forall|a: (Seq<u8>, u64), b: (Seq<u8>, u64), c: (Seq<u8>, u64)|
        #[trigger] r(a, b) && #[trigger] r(b, c) implies r(a, c) by {
        if a.1 == b.1 && b.1 == c.1 {
            lemma_lex_le_trans(a.0, b.0, c.0);
        }
    }
}

/// The store order sorts as well.
pub proof fn lemma_key_total_ordering()
    ensures
        total_ordering(key_leq()),
{
    let r = key_leq();
    assert forall|a: (Seq<u8>, u64), b: (Seq<u8>, u64)| #[trigger] r(a, b) && #[trigger] r(
        b,
        a,
    ) implies a == b by {
        assert(key_le(a, b) && key_le(b, a));
        if a.0 != b.0 {
            if lex_lt(a.0, b.0) {
                lemma_lex_asym(a.0, b.0);
            } else {
                lemma_lex_asym(b.0, a.0);
            }
            assert(false);
        } else {
            lemma_lex_irrefl(a.0);
            assert(a.1 == b.1);
        }
        assert(a =~= b);
    }
    assert forall|a: (Seq<u8>, u64), b: (Seq<u8>, u64)| #[trigger] r(a, b) || #[trigger] r(
        b,
        a,
    ) by {
        if a.0 != b.0 {
            lemma_lex_connected(a.0, b.0);
        }
    }
    assert forall|a: (Seq<u8>, u64), b: (Seq<u8>, u64), c: (Seq<u8>, u64)|
        #[trigger] r(a, b) && #[trigger] r(b, c) implies r(a, c) by {
        if a.0 != b.0 && b.0 != c.0 {
            lemma_lex_le_trans(a.0, b.0, c.0);
            if a.0 == c.0 {
                lemma_lex_asym(a.0, b.0);
            }
        }
    }
}

/// Some pair at an index at or after `j` carries the word `w`.
pub open spec fn has_word_from(s: Seq<(Seq<u8>, u64)>, j: int, w: Seq<u8>) -> bool {
    exists|k: int| j <= k < s.len() && s[k].0 == w
}

/// Deduplication by word over the suffix starting at `i`: a pair
/// survives exactly when its word does not occur again later, so the
/// last occurrence — and its frequency — wins.
pub open spec fn dedup_from(s: Seq<(Seq<u8>, u64)>, i: int) -> Seq<(Seq<u8>, u64)>
    decreases s.len() - i,
{
    if i < 0 || i >= s.len() {
        Seq::empty()
    } else if has_word_from(s, i + 1, s[i].0) {
        dedup_from(s, i + 1)
    } else {
        seq![s[i]] + dedup_from(s, i + 1)
    }
}

/// The deduplicated input: duplicates resolved in favour of the last
/// occurrence, order of the surviving occurrences kept.
pub open spec fn dedup_last(s: Seq<(Seq<u8>, u64)>) -> Seq<(Seq<u8>, u64)> {
    dedup_from(s, 0)
}

/// No two pairs carry the same word.
pub open spec fn words_unique(s: Seq<(Seq<u8>, u64)>) -> bool {
    forall|i: int, j: int| 0 <= i < j < s.len() ==> s[i].0 != s[j].0
}

/// What survives deduplication: pairs of the suffix, with pairwise
/// distinct words.
pub proof fn lemma_dedup_from(s: Seq<(Seq<u8>, u64)>, i: int)
    ensures
        forall|p: (Seq<u8>, u64)| #[trigger] dedup_from(s, i).contains(p) ==> exists|k: int|
            i <= k < s.len() && s[k] == p,
        words_unique(dedup_from(s, i)),
    decreases s.len() - i,
{
    if i < 0 || i >= s.len() {
    } else {
        lemma_dedup_from(s, i + 1);
        let d = dedup_from(s, i);
        let rest = dedup_from(s, i + 1);
        if has_word_from(s, i + 1, s[i].0) {
        } else {
            assert(d == seq![s[i]] + rest);
            assert(d[0] == s[i]);
            assert forall|j1: int, j2: int| 0 <= j1 < j2 < d.len() implies d[j1].0 != d[j2].0 by {
                assert(d[j2] == rest[j2 - 1]);
                if j1 == 0 {
                    assert(rest.contains(rest[j2 - 1]));
                    let k = choose|k: int| i + 1 <= k < s.len() && s[k] == rest[j2 - 1];
                    assert(s[k].0 == d[j2].0);
                    if d[0].0 == d[j2].0 {
                        assert(has_word_from(s, i + 1, s[i].0));
                    }
                } else {
                    assert(d[j1] == rest[j1 - 1]);
                }
            }
            assert forall|p: (Seq<u8>, u64)| #[trigger] d.contains(p) implies exists|k: int|
                i <= k < s.len() && s[k] == p by {
                let j = choose|j: int| 0 <= j < d.len() && d[j] == p;
                if j == 0 {
                    assert(s[i] == p);
                } else {
                    assert(d[j] == rest[j - 1]);
                    assert(rest.contains(rest[j - 1]));
                }
            }
        }
    }
}

/// The input pairs, in rank order.
pub open spec fn rank_sorted(d: Seq<(Seq<u8>, u64)>) -> Seq<(Seq<u8>, u64)> {
    d.sort_by(rank_leq())
}

/// The (word, rank) pairs the builder assigns: position in the rank
/// order, counted from zero.
pub open spec fn ranked(d: Seq<(Seq<u8>, u64)>) -> Seq<(Seq<u8>, u64)> {
    Seq::new(rank_sorted(d).len(), |i: int| (rank_sorted(d)[i].0, i as u64))
}

/// The exact contents of the store built from `input`: deduplicate,
/// rank, and lay the pairs out in word order.
pub open spec fn store_entries(input: Seq<(Seq<u8>, u64)>) -> Seq<(Seq<u8>, u64)> {
    ranked(dedup_last(input)).sort_by(key_leq())
}

/// Inserting anywhere adds one occurrence to the multiset of elements.
pub proof fn lemma_insert_to_multiset<A>(s: Seq<A>, p: int, e: A)
    requires
        0 <= p <= s.len(),
    ensures
        s.insert(p, e).to_multiset() == s.to_multiset().insert(e),
{
    broadcast use vstd::seq_lib::group_to_multiset_ensures;
    broadcast use vstd::multiset::group_multiset_axioms;

    let t = s.insert(p, e);
    assert(t =~= s.take(p) + (seq![e] + s.skip(p)));
    assert(s =~= s.take(p) + s.skip(p));
    vstd::seq_lib::lemma_multiset_commutative(s.take(p), seq![e] + s.skip(p));
    vstd::seq_lib::lemma_multiset_commutative(seq![e], s.skip(p));
    vstd::seq_lib::lemma_multiset_commutative(s.take(p), s.skip(p));
    assert(seq![e] =~= Seq::<A>::empty().push(e));
    assert(Seq::<A>::empty().to_multiset() =~= vstd::multiset::Multiset::<A>::empty());
    assert(t.to_multiset() =~= s.to_multiset().insert(e));
}

/// A permutation keeps any projection pairwise distinct: if no two
/// pairs of `s` agree under `f`, the same holds in `t`.
pub proof fn lemma_perm_distinct_by<K>(
    s: Seq<(Seq<u8>, u64)>,
    t: Seq<(Seq<u8>, u64)>,
    f: spec_fn((Seq<u8>, u64)) -> K,
)
    requires
        s.to_multiset() == t.to_multiset(),
        forall|i: int, j: int| 0 <= i < j < s.len() ==> f(s[i]) != f(s[j]),
    ensures
        forall|i: int, j: int| 0 <= i < j < t.len() ==> f(t[i]) != f(t[j]),
{
    broadcast use vstd::seq_lib::group_to_multiset_ensures;
    broadcast use vstd::multiset::group_multiset_axioms;

    assert forall|i: int, j: int| 0 <= i < j < t.len() implies f(t[i]) != f(t[j]) by {
        if f(t[i]) == f(t[j]) {
            assert(t.contains(t[i]));
            assert(t.contains(t[j]));
            assert(s.to_multiset().count(t[i]) > 0);
            assert(s.to_multiset().count(t[j]) > 0);
            assert(s.contains(t[i]));
            assert(s.contains(t[j]));
            let k1 = choose|k: int| 0 <= k < s.len() && s[k] == t[i];
            let k2 = choose|k: int| 0 <= k < s.len() && s[k] == t[j];
            if t[i] == t[j] {
                let t2 = t.remove(i);
                assert(t2.to_multiset() == t.to_multiset().remove(t[i]));
                assert(t2[j - 1] == t[j]);
                assert(t2.contains(t[j]));
                assert(t2.to_multiset().count(t[j]) > 0);
                assert(t.to_multiset().count(t[i]) >= 2);
                let s2 = s.remove(k1);
                assert(s2.to_multiset() == s.to_multiset().remove(s[k1]));
                assert(s2.to_multiset().count(t[i]) > 0);
                assert(s2.contains(t[i]));
                let k3 = choose|k: int| 0 <= k < s2.len() && s2[k] == t[i];
                if k3 < k1 {
                    assert(s[k3] == t[i]);
                    assert(f(s[k3]) == f(s[k1]));
                } else {
                    assert(s[k3 + 1] == t[i]);
                    assert(f(s[k1]) == f(s[k3 + 1]));
                }
                assert(false);
            } else {
                assert(k1 != k2);
                if k1 < k2 {
                    assert(f(s[k1]) != f(s[k2]));
                } else {
                    assert(f(s[k2]) != f(s[k1]));
                }
                assert(false);
            }
        }
    }
}

/// The rank the store associates with `w`: that of the first pair
/// carrying `w`, if any.
pub open spec fn find_rank(m: Seq<(Seq<u8>, u64)>, w: Seq<u8>) -> Option<u64>
    decreases m.len(),
{
    if m.len() == 0 {
        None
    } else if m.first().0 == w {
        Some(m.first().1)
    } else {
        find_rank(m.drop_first(), w)
    }
}

/// With pairwise distinct words, lookup finds the one pair with the
/// word asked for.
pub proof fn lemma_find_rank_unique(m: Seq<(Seq<u8>, u64)>, w: Seq<u8>, r: u64)
    requires
        words_unique(m),
        m.contains((w, r)),
    ensures
        find_rank(m, w) == Some(r),
    decreases m.len(),
{
    let k = choose|k: int| 0 <= k < m.len() && m[k] == (w, r);
    assert(m[k].0 == w && m[k].1 == r);
    if m.first().0 == w {
        if k != 0 {
            assert(m[0].0 == m[k].0);
            assert(false);
        }
    } else {
        assert(k != 0);
        let m2 = m.drop_first();
        assert(m2[k - 1] == m[k]);
        assert(m2.contains((w, r)));
        assert forall|i: int, j: int| 0 <= i < j < m2.len() implies m2[i].0 != m2[j].0 by {
            assert(m2[i] == m[i + 1]);
            assert(m2[j] == m[j + 1]);
        }
        lemma_find_rank_unique(m2, w, r);
    }
}

/// No pair carries `w`: lookup fails.
pub proof fn lemma_find_rank_absent(m: Seq<(Seq<u8>, u64)>, w: Seq<u8>)
    requires
        forall|k: int| 0 <= k < m.len() ==> m[k].0 != w,
    ensures
        find_rank(m, w) is None,
    decreases m.len(),
{
    if m.len() > 0 {
        let m2 = m.drop_first();
        assert(forall|k: int| 0 <= k < m2.len() ==> m2[k] == m[k + 1]);
        lemma_find_rank_absent(m2, w);
    }
}

/// The mathematical content of stored (word, rank) pairs.
pub open spec fn pairs_model(s: Seq<(Vec<u8>, u64)>) -> Seq<(Seq<u8>, u64)> {
    s.map_values(|p: (Vec<u8>, u64)| (p.0@, p.1))
}

/// The queryable store: (word, rank) pairs in strictly ascending word
/// order, built once and then only read.
pub struct Store {
    /// The pairs, sorted by word.
    pub entries: Vec<(Vec<u8>, u64)>,
}

impl Store {
    /// The pairs held, as mathematical values.
    pub open spec fn model(self) -> Seq<(Seq<u8>, u64)> {
        pairs_model(self.entries@)
    }

    /// The keys, in storage order.
    pub open spec fn keys(self) -> Seq<Seq<u8>> {
        self.model().map_values(|p: (Seq<u8>, u64)| p.0)
    }

    /// Keys strictly ascend: sorted and, in particular, unique.
    pub open spec fn wf(self) -> bool {
        forall|i: int, j: int| 0 <= i < j < self.model().len() ==> lex_lt(
            #[trigger] self.model()[i].0,
            #[trigger] self.model()[j].0,
        )
    }

    /// How many words the store holds.
    pub fn len(&self) -> (n: usize)
        ensures
            n == self.model().len(),
    {
        self.entries.len()
    }

    /// Exact lookup: the rank of `w`, or `None` when `w` is not a key.
    pub fn get(&self, w: &Vec<u8>) -> (r: Option<u64>)
        ensures
            r == find_rank(self.model(), w@),
    {
        let ghost m = self.model();
        proof {
            assert(m.skip(0) =~= m);
        }
        let mut i: usize = 0;
        while i < self.entries.len()
            invariant
                i <= self.entries@.len(),
                m == self.model(),
                find_rank(m, w@) == find_rank(m.skip(i as int), w@),
            decreases self.entries@.len() - i,
        {
            proof {
                assert(m.skip(i as int).len() > 0);
                assert(m.skip(i as int).first() == m[i as int]);
                assert(m.skip(i as int).drop_first() =~= m.skip(i + 1));
            }
            if bytes_eq(&self.entries[i].0, w) {
                return Some(self.entries[i].1);
            }
            i = i + 1;
        }
        proof {
            assert(m.skip(m.len() as int).len() == 0);
        }
        None
    }
}

/// Rank comparison on input pairs.
fn rank_le_entries(a: &Entry, b: &Entry) -> (r: bool)
    ensures
        r == rank_le(entry_model(*a), entry_model(*b)),
{
    if a.freq > b.freq {
        true
    } else if a.freq == b.freq {
        lex_le_bytes(&a.word, &b.word)
    } else {
        false
    }
}

/// Whether the word at `i` occurs again at a later index.
fn word_occurs_later(v: &Vec<Entry>, i: usize) -> (r: bool)
    requires
        i < v@.len(),
    ensures
        r == has_word_from(entries_model(v@), i + 1, v@[i as int].word@),
{
    let ghost s = entries_model(v@);
    let n = v.len();
    let mut j: usize = i + 1;
    let mut found = false;
    while j < n
        invariant
            i < j <= n,
            n == v@.len(),
            s == entries_model(v@),
            found == exists|k: int| i + 1 <= k < j && s[k].0 == v@[i as int].word@,
        decreases n - j,
    {
        let eq = bytes_eq(&v[j].word, &v[i].word);
        proof {
            assert(s[j as int].0 == v@[j as int].word@);
        }
        if eq {
            found = true;
        }
        j = j + 1;
    }
    found
}

/// Keeps, in order, every pair whose word does not occur again later.
fn dedup_entries(v: &Vec<Entry>) -> (out: Vec<Entry>)
    ensures
        entries_model(out@) == dedup_last(entries_model(v@)),
{
    let ghost s = entries_model(v@);
    let mut out: Vec<Entry> = Vec::new();
    let mut i: usize = 0;
    proof {
        assert(entries_model(out@) + dedup_from(s, 0) =~= dedup_from(s, 0));
    }
    while i < v.len()
        invariant
            i <= v@.len(),
            s == entries_model(v@),
            entries_model(out@) + dedup_from(s, i as int) == dedup_from(s, 0),
        decreases v@.len() - i,
    {
        let ghost old_model = entries_model(out@);
        if !word_occurs_later(v, i) {
            let e = Entry { word: clone_bytes(&v[i].word), freq: v[i].freq };
            proof {
                assert(entry_model(e) == s[i as int]);
            }
            out.push(e);
            proof {
                assert(entries_model(out@) =~= old_model + seq![s[i as int]]);
                assert(dedup_from(s, i as int) == seq![s[i as int]] + dedup_from(s, i + 1));
                assert(entries_model(out@) + dedup_from(s, i + 1) =~= old_model + dedup_from(
                    s,
                    i as int,
                ));
            }
        } else {
            proof {
                assert(dedup_from(s, i as int) == dedup_from(s, i + 1));
            }
        }
        i = i + 1;
    }
    proof {
        assert(dedup_from(s, v@.len() as int) =~= Seq::<(Seq<u8>, u64)>::empty());
        assert(entries_model(out@) + Seq::<(Seq<u8>, u64)>::empty() =~= entries_model(out@));
    }
    out
}

/// Insertion sort of the input pairs by the rank order.
fn sort_entries_by_rank(v: &Vec<Entry>) -> (out: Vec<Entry>)
    ensures
        sorted_by(entries_model(out@), rank_leq()),
        entries_model(out@).to_multiset() == entries_model(v@).to_multiset(),
{
    let ghost leq = rank_leq();
    let mut out: Vec<Entry> = Vec::new();
    let mut i: usize = 0;
    proof {
        assert(entries_model(v@.take(0)) =~= Seq::<(Seq<u8>, u64)>::empty());
        assert(entries_model(out@) =~= Seq::<(Seq<u8>, u64)>::empty());
    }
    while i < v.len()
        invariant
            i <= v@.len(),
            leq == rank_leq(),
            sorted_by(entries_model(out@), leq),
            entries_model(out@).to_multiset() == entries_model(v@.take(i as int)).to_multiset(),
        decreases v@.len() - i,
    {
        let e = Entry { word: clone_bytes(&v[i].word), freq: v[i].freq };
        let ghost em = entry_model(e);
        let ghost old_model = entries_model(out@);
        proof {
            assert(em == entries_model(v@)[i as int]);
        }
        let mut p: usize = 0;
        loop
            invariant
                p <= out@.len(),
                em == entry_model(e),
                forall|q: int| 0 <= q < p ==> rank_le(#[trigger] entries_model(out@)[q], em),
            ensures
                p <= out@.len(),
                forall|q: int| 0 <= q < p ==> rank_le(#[trigger] entries_model(out@)[q], em),
                p < out@.len() ==> !rank_le(entries_model(out@)[p as int], em),
            decreases out@.len() - p,
        {
            if p == out.len() {
                break;
            }
            if !rank_le_entries(&out[p], &e) {
                break;
            }
            p = p + 1;
        }
        let ghost p_int = p as int;
        out.insert(p, e);
        proof {
            lemma_rank_total_ordering();
            let new_model = entries_model(out@);
            old_model.insert_ensures(p_int, em);
            assert(new_model =~= old_model.insert(p_int, em));
            lemma_insert_to_multiset(old_model, p_int, em);
            assert(v@.take(i + 1) =~= v@.take(i as int).push(v@[i as int]));
            assert(entries_model(v@.take(i + 1)) =~= entries_model(v@.take(i as int)).push(em));
            vstd::seq_lib::to_multiset_build(entries_model(v@.take(i as int)), em);
            assert(forall|k: int| 0 <= k < p_int ==> new_model[k] == old_model[k]);
            assert(new_model[p_int] == em);
            assert(forall|k: int| p_int < k < new_model.len() ==> new_model[k] == old_model[k
                - 1]);
            if p_int < old_model.len() {
                assert(leq(em, old_model[p_int]) || leq(old_model[p_int], em));
                assert(rank_le(em, old_model[p_int]));
            }
            assert forall|x: int, y: int| 0 <= x < y < new_model.len() implies #[trigger] leq(
                new_model[x],
                new_model[y],
            ) by {
                if y < p_int {
                    assert(leq(old_model[x], old_model[y]));
                } else if y == p_int {
                    assert(rank_le(old_model[x], em));
                } else if x == p_int {
                    if y - 1 > p_int {
                        assert(leq(old_model[p_int], old_model[y - 1]));
                        assert(rank_le(em, old_model[p_int]) && rank_le(
                            old_model[p_int],
                            old_model[y - 1],
                        ));
                    }
                    assert(rank_le(em, old_model[y - 1]));
                } else if x < p_int {
                    assert(leq(old_model[x], old_model[y - 1]));
                } else {
                    assert(leq(old_model[x - 1], old_model[y - 1]));
                }
            }
            assert(sorted_by(new_model, leq));
        }
        i = i + 1;
    }
    proof {
        assert(v@.take(v@.len() as int) =~= v@);
    }
    out
}

/// The mathematical content of one stored pair.
pub open spec fn pair_model(p: (Vec<u8>, u64)) -> (Seq<u8>, u64) {
    (p.0@, p.1)
}

/// The word of a pair, as a projection value.
pub open spec fn word_of() -> spec_fn((Seq<u8>, u64)) -> Seq<u8> {
    |p: (Seq<u8>, u64)| p.0
}

/// Numbers the (already rank-sorted) pairs: position becomes rank.
fn assign_ranks(v: &Vec<Entry>) -> (out: Vec<(Vec<u8>, u64)>)
    ensures
        pairs_model(out@) == Seq::new(
            entries_model(v@).len(),
            |i: int| (entries_model(v@)[i].0, i as u64),
        ),
{
    let ghost target = Seq::new(
        entries_model(v@).len(),
        |i: int| (entries_model(v@)[i].0, i as u64),
    );
    let n = v.len();
    let mut out: Vec<(Vec<u8>, u64)> = Vec::new();
    let mut i: usize = 0;
    proof {
        assert(pairs_model(out@) =~= target.take(0));
    }
    while i < n
        invariant
            i <= n,
            n == v@.len(),
            target == Seq::new(
                entries_model(v@).len(),
                |i: int| (entries_model(v@)[i].0, i as u64),
            ),
            pairs_model(out@) == target.take(i as int),
        decreases n - i,
    {
        proof {
            assert(target.take(i as int).len() == i);
        }
        let w = clone_bytes(&v[i].word);
        out.push((w, i as u64));
        proof {
            assert(pairs_model(out@) =~= target.take(i + 1));
        }
        i = i + 1;
    }
    proof {
        assert(target.take(n as int) =~= target);
    }
    out
}

/// Store-order comparison on stored pairs.
fn key_le_pairs(a: &(Vec<u8>, u64), b: &(Vec<u8>, u64)) -> (r: bool)
    ensures
        r == key_le(pair_model(*a), pair_model(*b)),
{
    if bytes_eq(&a.0, &b.0) {
        proof {
            lemma_lex_irrefl(a.0@);
        }
        a.1 <= b.1
    } else {
        lex_le_bytes(&a.0, &b.0)
    }
}

/// Insertion sort of stored pairs by the store order.
fn sort_pairs_by_key(v: Vec<(Vec<u8>, u64)>) -> (out: Vec<(Vec<u8>, u64)>)
    ensures
        sorted_by(pairs_model(out@), key_leq()),
        pairs_model(out@).to_multiset() == pairs_model(v@).to_multiset(),
{
    let ghost leq = key_leq();
    let mut out: Vec<(Vec<u8>, u64)> = Vec::new();
    let mut i: usize = 0;
    proof {
        assert(pairs_model(v@.take(0)) =~= Seq::<(Seq<u8>, u64)>::empty());
        assert(pairs_model(out@) =~= Seq::<(Seq<u8>, u64)>::empty());
    }
    let n = v.len();
    while i < n
        invariant
            i <= n,
            n == v@.len(),
            leq == key_leq(),
            sorted_by(pairs_model(out@), leq),
            pairs_model(out@).to_multiset() == pairs_model(v@.take(i as int)).to_multiset(),
        decreases n - i,
    {
        let e = (clone_bytes(&v[i].0), v[i].1);
        let ghost em = pair_model(e);
        let ghost old_model = pairs_model(out@);
        proof {
            assert(em == pairs_model(v@)[i as int]);
        }
        let mut p: usize = 0;
        loop
            invariant
                p <= out@.len(),
                em == pair_model(e),
                forall|q: int| 0 <= q < p ==> key_le(#[trigger] pairs_model(out@)[q], em),
            ensures
                p <= out@.len(),
                forall|q: int| 0 <= q < p ==> key_le(#[trigger] pairs_model(out@)[q], em),
                p < out@.len() ==> !key_le(pairs_model(out@)[p as int], em),
            decreases out@.len() - p,
        {
            if p == out.len() {
                break;
            }
            if !key_le_pairs(&out[p], &e) {
                break;
            }
            p = p + 1;
        }
        let ghost p_int = p as int;
        out.insert(p, e);
        proof {
            lemma_key_total_ordering();
            let new_model = pairs_model(out@);
            old_model.insert_ensures(p_int, em);
            assert(new_model =~= old_model.insert(p_int, em));
            lemma_insert_to_multiset(old_model, p_int, em);
            assert(v@.take(i + 1) =~= v@.take(i as int).push(v@[i as int]));
            assert(pairs_model(v@.take(i + 1)) =~= pairs_model(v@.take(i as int)).push(em));
            vstd::seq_lib::to_multiset_build(pairs_model(v@.take(i as int)), em);
            assert(forall|k: int| 0 <= k < p_int ==> new_model[k] == old_model[k]);
            assert(new_model[p_int] == em);
            assert(forall|k: int| p_int < k < new_model.len() ==> new_model[k] == old_model[k
                - 1]);
            if p_int < old_model.len() {
                assert(leq(em, old_model[p_int]) || leq(old_model[p_int], em));
                assert(key_le(em, old_model[p_int]));
            }
            assert forall|x: int, y: int| 0 <= x < y < new_model.len() implies #[trigger] leq(
                new_model[x],
                new_model[y],
            ) by {
                if y < p_int {
                    assert(leq(old_model[x], old_model[y]));
                } else if y == p_int {
                    assert(key_le(old_model[x], em));
                } else if x == p_int {
                    if y - 1 > p_int {
                        assert(leq(old_model[p_int], old_model[y - 1]));
                        assert(key_le(em, old_model[p_int]) && key_le(
                            old_model[p_int],
                            old_model[y - 1],
                        ));
                    }
                    assert(key_le(em, old_model[y - 1]));
                } else if x < p_int {
                    assert(leq(old_model[x], old_model[y - 1]));
                } else {
                    assert(leq(old_model[x - 1], old_model[y - 1]));
                }
            }
            assert(sorted_by(new_model, leq));
        }
        i = i + 1;
    }
    proof {
        assert(v@.take(n as int) =~= v@);
    }
    out
}

/// Builds the store from (word, frequency) pairs: deduplicate with the
/// last occurrence winning, rank by frequency then word, and lay the
/// (word, rank) pairs out in strictly ascending word order.
///
/// The sorted construction step cannot be handed keys out of order —
/// the builder establishes the order itself — so building is total:
/// every input yields a complete, well-formed store.
pub fn build(entries: Vec<Entry>) -> (st: Store)
    ensures
        st.wf(),
        st.model() == store_entries(entries_model(entries@)),
{
    let ghost input = entries_model(entries@);
    let ghost d = dedup_last(input);
    let deduped = dedup_entries(&entries);
    let sorted = sort_entries_by_rank(&deduped);
    proof {
        lemma_rank_total_ordering();
        d.lemma_sort_by_ensures(rank_leq());
        vstd::seq_lib::lemma_sorted_unique(
            entries_model(sorted@),
            d.sort_by(rank_leq()),
            rank_leq(),
        );
        assert(entries_model(sorted@) == rank_sorted(d));
    }
    let pairs = assign_ranks(&sorted);
    proof {
        assert(pairs_model(pairs@) =~= ranked(d));
    }
    let spairs = sort_pairs_by_key(pairs);
    let st = Store { entries: spairs };
    proof {
        lemma_key_total_ordering();
        ranked(d).lemma_sort_by_ensures(key_leq());
        vstd::seq_lib::lemma_sorted_unique(
            pairs_model(spairs@),
            ranked(d).sort_by(key_leq()),
            key_leq(),
        );
        assert(st.model() == store_entries(input));
        lemma_store_entries_wf(input);
    }
    st
}

/// The canonical store contents have pairwise distinct words and are
/// strictly sorted by word.
pub proof fn lemma_store_entries_wf(input: Seq<(Seq<u8>, u64)>)
    ensures
        words_unique(store_entries(input)),
        sorted_by(store_entries(input), key_leq()),
        forall|i: int, j: int| 0 <= i < j < store_entries(input).len() ==> lex_lt(
            #[trigger] store_entries(input)[i].0,
            #[trigger] store_entries(input)[j].0,
        ),
        store_entries(input).len() == dedup_last(input).len(),
{
    let d = dedup_last(input);
    let m = store_entries(input);
    lemma_rank_total_ordering();
    lemma_key_total_ordering();
    d.lemma_sort_by_ensures(rank_leq());
    ranked(d).lemma_sort_by_ensures(key_leq());
    lemma_dedup_from(input, 0);
    broadcast use vstd::seq_lib::group_to_multiset_ensures;

    assert(d.to_multiset().len() == d.len());
    assert(rank_sorted(d).to_multiset().len() == rank_sorted(d).len());
    assert(rank_sorted(d).len() == d.len());
    assert(ranked(d).to_multiset().len() == ranked(d).len());
    assert(m.to_multiset().len() == m.len());
    assert(m.len() == ranked(d).len());
    let f = word_of();
    assert forall|i: int, j: int| 0 <= i < j < d.len() implies f(d[i]) != f(d[j]) by {
        assert(d[i].0 != d[j].0);
    }
    lemma_perm_distinct_by(d, rank_sorted(d), f);
    assert forall|i: int, j: int| 0 <= i < j < ranked(d).len() implies f(ranked(d)[i]) != f(
        ranked(d)[j],
    ) by {
        assert(ranked(d)[i].0 == rank_sorted(d)[i].0);
        assert(ranked(d)[j].0 == rank_sorted(d)[j].0);
        assert(f(rank_sorted(d)[i]) != f(rank_sorted(d)[j]));
    }
    lemma_perm_distinct_by(ranked(d), m, f);
    assert forall|i: int, j: int| 0 <= i < j < m.len() implies lex_lt(
        #[trigger] m[i].0,
        #[trigger] m[j].0,
    ) by {
        assert(key_leq()(m[i], m[j]));
        assert(key_le(m[i], m[j]));
        assert(f(m[i]) != f(m[j]));
    }
    assert forall|i: int, j: int| 0 <= i < j < m.len() implies m[i].0 != m[j].0 by {
        assert(f(m[i]) != f(m[j]));
    }
}

/// Deduplication never grows the input.
pub proof fn lemma_dedup_len(s: Seq<(Seq<u8>, u64)>, i: int)
    requires
        0 <= i,
    ensures
        dedup_from(s, i).len() <= s.len() - i || dedup_from(s, i).len() == 0,
    decreases s.len() - i,
{
    if i < s.len() {
        lemma_dedup_len(s, i + 1);
    }
}

/// The rank of a pair, as a projection value.
pub open spec fn rank_of() -> spec_fn((Seq<u8>, u64)) -> u64 {
    |p: (Seq<u8>, u64)| p.1
}

/// Some stored pair carries rank `r`.
pub open spec fn has_rank(m: Seq<(Seq<u8>, u64)>, r: int) -> bool {
    exists|i: int| 0 <= i < m.len() && (#[trigger] m[i].1 as int) == r
}

/// Law: for every word that survives deduplication, looking it up in
/// the built store returns exactly the rank the builder computed — its
/// position in the frequency-descending, word-ascending order.
pub proof fn lemma_get_returns_builder_rank(input: Seq<(Seq<u8>, u64)>, i: int)
    requires
        0 <= i < dedup_last(input).len(),
        input.len() <= u64::MAX,
    ensures
        find_rank(store_entries(input), rank_sorted(dedup_last(input))[i].0) == Some(i as u64),
{
    broadcast use vstd::seq_lib::group_to_multiset_ensures;
    broadcast use vstd::multiset::group_multiset_axioms;

    let d = dedup_last(input);
    let m = store_entries(input);
    lemma_store_entries_wf(input);
    lemma_rank_total_ordering();
    lemma_key_total_ordering();
    d.lemma_sort_by_ensures(rank_leq());
    ranked(d).lemma_sort_by_ensures(key_leq());
    lemma_dedup_len(input, 0);
    assert(d.to_multiset().len() == d.len());
    assert(rank_sorted(d).to_multiset().len() == rank_sorted(d).len());
    let p = ranked(d)[i];
    assert(p == (rank_sorted(d)[i].0, i as u64));
    assert(ranked(d).contains(p));
    assert(ranked(d).to_multiset().count(p) > 0);
    assert(m.to_multiset().count(p) > 0);
    assert(m.contains(p));
    lemma_find_rank_unique(m, rank_sorted(d)[i].0, i as u64);
}

/// Law: a word that no input pair carries is not a key of the built
/// store: looking it up fails.
pub proof fn lemma_get_unknown_word(input: Seq<(Seq<u8>, u64)>, w: Seq<u8>)
    requires
        !has_word_from(dedup_last(input), 0, w),
    ensures
        find_rank(store_entries(input), w) is None,
{
    broadcast use vstd::seq_lib::group_to_multiset_ensures;
    broadcast use vstd::multiset::group_multiset_axioms;

    let d = dedup_last(input);
    let m = store_entries(input);
    lemma_rank_total_ordering();
    lemma_key_total_ordering();
    d.lemma_sort_by_ensures(rank_leq());
    ranked(d).lemma_sort_by_ensures(key_leq());
    assert(d.to_multiset().len() == d.len());
    assert(rank_sorted(d).to_multiset().len() == rank_sorted(d).len());
    assert forall|k: int| 0 <= k < m.len() implies m[k].0 != w by {
        assert(m.contains(m[k]));
        assert(m.to_multiset().count(m[k]) > 0);
        assert(ranked(d).to_multiset().count(m[k]) > 0);
        assert(ranked(d).contains(m[k]));
        let r = choose|r: int| 0 <= r < ranked(d).len() && ranked(d)[r] == m[k];
        assert(rank_sorted(d)[r].0 == m[k].0);
        assert(rank_sorted(d).contains(rank_sorted(d)[r]));
        assert(rank_sorted(d).to_multiset().count(rank_sorted(d)[r]) > 0);
        assert(d.to_multiset().count(rank_sorted(d)[r]) > 0);
        assert(d.contains(rank_sorted(d)[r]));
        let j = choose|j: int| 0 <= j < d.len() && d[j] == rank_sorted(d)[r];
        if m[k].0 == w {
            assert(d[j].0 == w);
            assert(has_word_from(d, 0, w));
        }
    }
    lemma_find_rank_absent(m, w);
}

/// Law: ranks are a bijection onto {0, …, n−1} for the n surviving
/// words: every stored rank is below n, every value below n occurs,
/// and no rank repeats.
pub proof fn lemma_rank_bijection(input: Seq<(Seq<u8>, u64)>)
    requires
        input.len() <= u64::MAX,
    ensures
        store_entries(input).len() == dedup_last(input).len(),
        forall|i: int| 0 <= i < store_entries(input).len() ==> (
        #[trigger] store_entries(input)[i].1 as int) < dedup_last(input).len(),
        forall|r: int| 0 <= r < dedup_last(input).len() ==> #[trigger] has_rank(
            store_entries(input),
            r,
        ),
        forall|i: int, j: int| 0 <= i < j < store_entries(input).len() ==> store_entries(
            input,
        )[i].1 != store_entries(input)[j].1,
{
    broadcast use vstd::seq_lib::group_to_multiset_ensures;
    broadcast use vstd::multiset::group_multiset_axioms;

    let d = dedup_last(input);
    let n = d.len();
    let m = store_entries(input);
    lemma_store_entries_wf(input);
    lemma_rank_total_ordering();
    lemma_key_total_ordering();
    d.lemma_sort_by_ensures(rank_leq());
    ranked(d).lemma_sort_by_ensures(key_leq());
    lemma_dedup_len(input, 0);
    assert(d.to_multiset().len() == d.len());
    assert(rank_sorted(d).to_multiset().len() == rank_sorted(d).len());
    assert forall|i: int| 0 <= i < m.len() implies (#[trigger] m[i].1 as int) < n by {
        assert(m.contains(m[i]));
        assert(m.to_multiset().count(m[i]) > 0);
        assert(ranked(d).to_multiset().count(m[i]) > 0);
        assert(ranked(d).contains(m[i]));
        let k = choose|k: int| 0 <= k < ranked(d).len() && ranked(d)[k] == m[i];
        assert(m[i].1 == k as u64);
    }
    assert forall|r: int| 0 <= r < n implies #[trigger] has_rank(m, r) by {
        let p = ranked(d)[r];
        assert(ranked(d).contains(p));
        assert(ranked(d).to_multiset().count(p) > 0);
        assert(m.to_multiset().count(p) > 0);
        assert(m.contains(p));
        let i = choose|i: int| 0 <= i < m.len() && m[i] == p;
        assert((m[i].1 as int) == r);
    }
    let f = rank_of();
    assert forall|i: int, j: int| 0 <= i < j < ranked(d).len() implies f(ranked(d)[i]) != f(
        ranked(d)[j],
    ) by {
        assert(ranked(d)[i].1 == i as u64);
        assert(ranked(d)[j].1 == j as u64);
    }
    lemma_perm_distinct_by(ranked(d), m, f);
    assert forall|i: int, j: int| 0 <= i < j < m.len() implies m[i].1 != m[j].1 by {
        assert(f(m[i]) != f(m[j]));
    }
}

/// Law: the word of rank 0 beats every other surviving word — strictly
/// higher frequency, or the lexicographically smaller word at equal
/// frequency.
pub proof fn lemma_rank_zero_most_frequent(input: Seq<(Seq<u8>, u64)>)
    requires
        dedup_last(input).len() > 0,
    ensures
        forall|j: int| 1 <= j < rank_sorted(dedup_last(input)).len()
            ==> rank_sorted(dedup_last(input))[0].1 > #[trigger] rank_sorted(
            dedup_last(input),
        )[j].1 || (rank_sorted(dedup_last(input))[0].1 == rank_sorted(dedup_last(input))[j].1
            && lex_lt(rank_sorted(dedup_last(input))[0].0, rank_sorted(dedup_last(input))[j].0)),
{
    let d = dedup_last(input);
    let s = rank_sorted(d);
    lemma_rank_total_ordering();
    d.lemma_sort_by_ensures(rank_leq());
    lemma_dedup_from(input, 0);
    let f = word_of();
    assert forall|i: int, j: int| 0 <= i < j < d.len() implies f(d[i]) != f(d[j]) by {
        assert(d[i].0 != d[j].0);
    }
    lemma_perm_distinct_by(d, s, f);
    assert forall|j: int| 1 <= j < s.len() implies s[0].1 > #[trigger] s[j].1 || (s[0].1
        == s[j].1 && lex_lt(s[0].0, s[j].0)) by {
        assert(rank_leq()(s[0], s[j]));
        assert(rank_le(s[0], s[j]));
        assert(f(s[0]) != f(s[j]));
    }
}

} // verus!
