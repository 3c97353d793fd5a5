//! Query answering: enumerate the close dictionary words and cap them.
//!
//! For a non-empty query, a fresh matcher is bound to it and walked in
//! lock-step over each stored key in store (lexicographic) order; a key
//! whose state goes dead is abandoned at once, before its remaining
//! bytes are consumed — sound by the matcher's pruning guarantee. The
//! accepted keys are collected in store order until the configured
//! maximum count is reached, at which point the traversal stops early.
//!
//! `suggestions` is the exact specification of the outcome: nothing for
//! the empty query, otherwise the first `top_k` of the keys within
//! `max_edits` of the query, in store order.

use crate::dictionary::Store;
use crate::edits::lev;
use crate::lex::{clone_bytes, lex_lt};
use crate::matcher::Matcher;
use vstd::prelude::*;

verus! {

/// Query-time configuration: the edit budget and the largest number of
/// suggestions returned.
pub struct Config {
    /// Largest tolerated Levenshtein distance.
    pub max_edits: usize,
    /// Largest number of suggestions returned.
    pub top_k: usize,
}

impl Config {
    /// At least one suggestion is asked for, and the edit budget
    /// leaves room for the matcher's cap.
    pub open spec fn wf(self) -> bool {
        self.max_edits < usize::MAX && self.top_k >= 1
    }

    /// The default configuration: at most 2 edits, at most 5 results.
    pub fn new() -> (c: Config)
        ensures
            c.wf(),
            c.max_edits == 2,
            c.top_k == 5,
    {
        Config { max_edits: 2, top_k: 5 }
    }
}

impl Default for Config {
    /// Same values as `Config::new`.
    fn default() -> (c: Config)
        ensures
            c.wf(),
            c.max_edits == 2,
            c.top_k == 5,
    {
        Config { max_edits: 2, top_k: 5 }
    }
}

/// The keys within distance `k` of `q`, in store order.
pub open spec fn close_words(keys: Seq<Seq<u8>>, q: Seq<u8>, k: nat) -> Seq<Seq<u8>> {
    keys.filter(|w: Seq<u8>| lev(q, w) <= k)
}

/// What a query returns: nothing for the empty query, otherwise the
/// first `top_k` close words, in store order.
pub open spec fn suggestions(keys: Seq<Seq<u8>>, q: Seq<u8>, k: nat, top_k: nat) -> Seq<
    Seq<u8>,
> {
    if q.len() == 0 {
        Seq::empty()
    } else {
        let ms = close_words(keys, q, k);
        if top_k <= ms.len() {
            ms.take(top_k as int)
        } else {
            ms
        }
    }
}

/// One filtering step: extending the scanned prefix by one key either
/// appends that key to the close words or leaves them unchanged.
proof fn lemma_filter_step(s: Seq<Seq<u8>>, pred: spec_fn(Seq<u8>) -> bool, i: int)
    requires
        0 <= i < s.len(),
    ensures
        s.take(i + 1).filter(pred) == if pred(s[i]) {
            s.take(i).filter(pred).push(s[i])
        } else {
            s.take(i).filter(pred)
        },
{
    reveal(Seq::filter);
    assert(s.take(i + 1).drop_last() =~= s.take(i));
    assert(s.take(i + 1).last() == s[i]);
    assert(s.take(i + 1).len() == i + 1);
}

/// The close words of a scanned prefix are a prefix of the close words
/// of the whole key sequence.
proof fn lemma_filter_take_prefix(s: Seq<Seq<u8>>, pred: spec_fn(Seq<u8>) -> bool, i: int)
    requires
        0 <= i <= s.len(),
    ensures
        s.take(i).filter(pred).len() <= s.filter(pred).len(),
        forall|j: int| 0 <= j < s.take(i).filter(pred).len() ==> #[trigger] s.filter(pred)[j]
            == s.take(i).filter(pred)[j],
    decreases s.len() - i,
{
    if i == s.len() {
        assert(s.take(i) =~= s);
    } else {
        lemma_filter_step(s, pred, i);
        lemma_filter_take_prefix(s, pred, i + 1);
    }
}

/// Suggestions for `buffer` under an explicit configuration: the close
/// keys in store order, truncated to `config.top_k`; none for the
/// empty buffer.
pub fn candidates_with(store: &Store, buffer: &Vec<u8>, config: &Config) -> (out: Vec<
    Vec<u8>,
>)
    requires
        config.wf(),
        buffer@.len() < usize::MAX,
    ensures
        out@.map_values(|w: Vec<u8>| w@) == suggestions(
            store.keys(),
            buffer@,
            config.max_edits as nat,
            config.top_k as nat,
        ),
        buffer@.len() == 0 ==> out@.len() == 0,
{
    let mut out: Vec<Vec<u8>> = Vec::new();
    if buffer.len() == 0 {
        proof {
            assert(out@.map_values(|w: Vec<u8>| w@) =~= Seq::<Seq<u8>>::empty());
        }
        return out;
    }
    let ghost q = buffer@;
    let ghost k = config.max_edits as nat;
    let ghost keys = store.keys();
    let ghost pred = |w: Seq<u8>| lev(q, w) <= k;
    let m = Matcher::new(clone_bytes(buffer), config.max_edits);
    let n = store.len();
    proof {
        assert(keys.take(0).filter(pred) =~= Seq::<Seq<u8>>::empty());
        assert(out@.map_values(|w: Vec<u8>| w@) =~= Seq::<Seq<u8>>::empty());
    }
    let mut i: usize = 0;
    loop
        invariant_except_break
            out@.len() < config.top_k,
            out@.map_values(|w: Vec<u8>| w@) == keys.take(i as int).filter(pred),
        invariant
            i <= n,
            n == keys.len(),
            q == buffer@,
            q.len() > 0,
            k == config.max_edits as nat,
            keys == store.keys(),
            pred == (|w: Seq<u8>| lev(q, w) <= k),
            config.wf(),
            m.wf(),
            m.query@ == q,
            m.max_edits == config.max_edits,
        ensures
            out@.map_values(|w: Vec<u8>| w@) == suggestions(keys, q, k, config.top_k as nat),
        decreases n - i,
    {
        if i >= n {
            proof {
                assert(keys.take(i as int) =~= keys);
                assert(out@.map_values(|w: Vec<u8>| w@) == suggestions(
                    keys,
                    q,
                    k,
                    config.top_k as nat,
                ));
            }
            break;
        }
        let w = &store.entries[i].0;
        proof {
            assert(keys[i as int] == w@);
        }
        let mut st = m.start();
        let mut j: usize = 0;
        let mut alive = true;
        proof {
            assert(w@.take(0) =~= Seq::<u8>::empty());
        }
        while j < w.len()
            invariant_except_break
                alive,
            invariant
                j <= w@.len(),
                q == buffer@,
                k == config.max_edits as nat,
                m.wf(),
                m.query@ == q,
                m.max_edits == config.max_edits,
                alive ==> m.state_ok(st) && st.consumed@ == w@.take(j as int),
                !alive ==> lev(q, w@) > k,
            ensures
                alive ==> m.state_ok(st) && st.consumed@ == w@.take(j as int) && j == w@.len(),
                !alive ==> lev(q, w@) > k,
            decreases w@.len() - j,
        {
            if !m.can_match(&st) {
                proof {
                    assert(st.consumed@ + w@.skip(j as int) =~= w@);
                    assert(lev(q, st.consumed@ + w@.skip(j as int)) > m.max_edits);
                }
                alive = false;
                break;
            }
            st = m.step(&st, w[j]);
            proof {
                assert(w@.take(j as int).push(w@[j as int]) =~= w@.take(j + 1));
            }
            j = j + 1;
        }
        let mut ok = false;
        if alive {
            proof {
                assert(w@.take(w@.len() as int) =~= w@);
            }
            ok = m.is_accepting(&st);
        }
        proof {
            assert(ok == pred(keys[i as int]));
            lemma_filter_step(keys, pred, i as int);
        }
        let ghost old_model = out@.map_values(|w: Vec<u8>| w@);
        if ok {
            out.push(clone_bytes(w));
            proof {
                assert(out@.map_values(|w: Vec<u8>| w@) =~= old_model.push(keys[i as int]));
            }
            if out.len() == config.top_k {
                proof {
                    let ms = keys.filter(pred);
                    lemma_filter_take_prefix(keys, pred, i + 1);
                    assert(config.top_k as int <= ms.len());
                    assert(out@.map_values(|w: Vec<u8>| w@) =~= ms.take(
                        config.top_k as int,
                    ));
                    assert(out@.map_values(|w: Vec<u8>| w@) == suggestions(
                        keys,
                        q,
                        k,
                        config.top_k as nat,
                    ));
                }
                break;
            }
        }
        i = i + 1;
    }
    out
}

/// Every close word is one of the keys.
proof fn lemma_filter_subset(s: Seq<Seq<u8>>, pred: spec_fn(Seq<u8>) -> bool, j: int)
    requires
        0 <= j < s.filter(pred).len(),
    ensures
        s.contains(s.filter(pred)[j]),
    decreases s.len(),
{
    reveal(Seq::filter);
    broadcast use vstd::prelude::Seq::lemma_filter_len;

    let x = s.filter(pred)[j];
    if j < s.drop_last().filter(pred).len() {
        lemma_filter_subset(s.drop_last(), pred, j);
        let idx = choose|idx: int| 0 <= idx < s.drop_last().len() && s.drop_last()[idx] == x;
        assert(s[idx] == x);
    } else {
        assert(x == s.last());
        assert(s[s.len() - 1] == x);
    }
}

/// Law: a dictionary word within the edit budget of a non-empty query
/// appears among the suggestions, provided fewer than `top_k` accepted
/// words precede it in store order (no competing words cause it to be
/// truncated away).
pub proof fn lemma_close_word_suggested(
    keys: Seq<Seq<u8>>,
    q: Seq<u8>,
    k: nat,
    top_k: nat,
    i: int,
)
    requires
        q.len() > 0,
        0 <= i < keys.len(),
        lev(q, keys[i]) <= k,
        close_words(keys.take(i), q, k).len() < top_k,
    ensures
        suggestions(keys, q, k, top_k).contains(keys[i]),
{
    let pred = |w: Seq<u8>| lev(q, w) <= k;
    let ms = keys.filter(pred);
    let before = keys.take(i).filter(pred);
    lemma_filter_step(keys, pred, i);
    assert(keys.take(i + 1).filter(pred) == before.push(keys[i]));
    lemma_filter_take_prefix(keys, pred, i + 1);
    let pos = before.len() as int;
    assert(before.push(keys[i])[pos] == keys[i]);
    assert(ms[pos] == keys[i]);
    let s = suggestions(keys, q, k, top_k);
    assert(s[pos] == keys[i]);
    assert(s.contains(keys[i]));
}

/// Law: a query equal to a dictionary word always yields that word —
/// distance 0 is within any budget — again provided fewer than `top_k`
/// accepted words precede it in store order.
pub proof fn lemma_exact_match_suggested(keys: Seq<Seq<u8>>, k: nat, top_k: nat, i: int)
    requires
        0 <= i < keys.len(),
        keys[i].len() > 0,
        close_words(keys.take(i), keys[i], k).len() < top_k,
    ensures
        suggestions(keys, keys[i], k, top_k).contains(keys[i]),
{
    crate::edits::lemma_lev_self(keys[i]);
    lemma_close_word_suggested(keys, keys[i], k, top_k, i);
}

/// Law: when every dictionary word is farther from the query than the
/// edit budget, there are no suggestions.
pub proof fn lemma_no_close_words(keys: Seq<Seq<u8>>, q: Seq<u8>, k: nat, top_k: nat)
    requires
        forall|i: int| 0 <= i < keys.len() ==> lev(q, #[trigger] keys[i]) > k,
    ensures
        suggestions(keys, q, k, top_k).len() == 0,
{
    let pred = |w: Seq<u8>| lev(q, w) <= k;
    let ms = keys.filter(pred);
    if ms.len() > 0 {
        keys.lemma_filter_pred(pred, 0);
        lemma_filter_subset(keys, pred, 0);
        assert(keys.contains(ms[0]));
        let j = choose|j: int| 0 <= j < keys.len() && keys[j] == ms[0];
        assert(lev(q, keys[j]) > k);
        assert(false);
    }
}

/// Law: there are never more than `top_k` suggestions, and every
/// suggestion is a dictionary word within the edit budget of the
/// query.
pub proof fn lemma_suggestions_bounded(keys: Seq<Seq<u8>>, q: Seq<u8>, k: nat, top_k: nat)
    ensures
        suggestions(keys, q, k, top_k).len() <= top_k,
        forall|j: int| 0 <= j < suggestions(keys, q, k, top_k).len() ==> lev(
            q,
            #[trigger] suggestions(keys, q, k, top_k)[j],
        ) <= k && keys.contains(suggestions(keys, q, k, top_k)[j]),
{
    let pred = |w: Seq<u8>| lev(q, w) <= k;
    let ms = keys.filter(pred);
    let s = suggestions(keys, q, k, top_k);
    assert forall|j: int| 0 <= j < s.len() implies lev(q, #[trigger] s[j]) <= k
        && keys.contains(s[j]) by {
        if q.len() > 0 {
            assert(s[j] == ms[j]);
            keys.lemma_filter_pred(pred, j);
            lemma_filter_subset(keys, pred, j);
        }
    }
}

/// Law: with strictly ascending keys — the store invariant — the
/// suggestions are themselves in strictly ascending lexicographic
/// order: key order, not rank order.
pub proof fn lemma_suggestions_ordered(keys: Seq<Seq<u8>>, q: Seq<u8>, k: nat, top_k: nat)
    requires
        forall|i: int, j: int| 0 <= i < j < keys.len() ==> lex_lt(
            #[trigger] keys[i],
            #[trigger] keys[j],
        ),
    ensures
        forall|i: int, j: int| 0 <= i < j < suggestions(keys, q, k, top_k).len() ==> lex_lt(
            #[trigger] suggestions(keys, q, k, top_k)[i],
            #[trigger] suggestions(keys, q, k, top_k)[j],
        ),
{
    let pred = |w: Seq<u8>| lev(q, w) <= k;
    lemma_filter_keeps_order(keys, pred);
    let s = suggestions(keys, q, k, top_k);
    let ms = keys.filter(pred);
    assert forall|i: int, j: int| 0 <= i < j < s.len() implies lex_lt(
        #[trigger] s[i],
        #[trigger] s[j],
    ) by {
        if q.len() > 0 {
            assert(s[i] == ms[i] && s[j] == ms[j]);
        }
    }
}

/// Filtering a strictly ascending sequence leaves it strictly
/// ascending.
proof fn lemma_filter_keeps_order(s: Seq<Seq<u8>>, pred: spec_fn(Seq<u8>) -> bool)
    requires
        forall|i: int, j: int| 0 <= i < j < s.len() ==> lex_lt(#[trigger] s[i], #[trigger] s[j]),
    ensures
        forall|i: int, j: int| 0 <= i < j < s.filter(pred).len() ==> lex_lt(
            #[trigger] s.filter(pred)[i],
            #[trigger] s.filter(pred)[j],
        ),
    decreases s.len(),
{
    reveal(Seq::filter);
    if s.len() > 0 {
        let dl = s.drop_last();
        assert(forall|i: int, j: int| 0 <= i < j < dl.len() ==> lex_lt(
            #[trigger] dl[i],
            #[trigger] dl[j],
        ));
        lemma_filter_keeps_order(dl, pred);
        let f = s.filter(pred);
        let fdl = dl.filter(pred);
        assert forall|i: int, j: int| 0 <= i < j < f.len() implies lex_lt(
            #[trigger] f[i],
            #[trigger] f[j],
        ) by {
            if pred(s.last()) && j == f.len() - 1 && f.len() == fdl.len() + 1 {
                assert(f[i] == fdl[i]);
                lemma_filter_subset(dl, pred, i);
                let idx = choose|idx: int| 0 <= idx < dl.len() && dl[idx] == f[i];
                assert(s[idx] == f[i]);
                assert(lex_lt(s[idx], s[s.len() - 1]));
                assert(f[j] == s.last());
            } else {
                assert(f[i] == fdl[i] && f[j] == fdl[j]);
            }
        }
    }
}

/// Suggestions for `buffer` under the default configuration: at most 5
/// words within 2 edits, in store order; none for the empty buffer.
pub fn candidates(store: &Store, buffer: &Vec<u8>) -> (out: Vec<Vec<u8>>)
    requires
        buffer@.len() < usize::MAX,
    ensures
        out@.map_values(|w: Vec<u8>| w@) == suggestions(store.keys(), buffer@, 2, 5),
        buffer@.len() == 0 ==> out@.len() == 0,
{
    let config = Config::new();
    candidates_with(store, buffer, &config)
}

} // verus!
