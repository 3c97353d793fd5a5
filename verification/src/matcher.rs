//! Bounded-edit-distance matcher.
//!
//! A `Matcher` is bound to one query and one maximum edit distance. Its
//! state is one row of the Levenshtein dynamic-programming table, capped
//! at `max_edits + 1` so the entries stay small: entry `j` is the distance
//! from the first `j` bytes of the query to the bytes consumed so far
//! (or the cap, when that distance already exceeds the budget).
//!
//! Stepping the state on a byte advances the row; a state is accepting
//! when the whole query is within budget of the consumed bytes, and a
//! dead state — every entry over the budget — can never be revived by
//! consuming more bytes, which is what lets the enumerator prune.

use crate::edits::{lev, min2, min3, row_min, row_val};
use crate::edits::{
    lemma_lev_extension, lemma_lev_push, lemma_lev_to_empty, lemma_row_min_le,
    lemma_row_min_upto_exists,
};
use vstd::prelude::*;

verus! {

/// The automaton for one query and one edit budget.
pub struct Matcher {
    /// The query the automaton recognizes neighbours of.
    pub query: Vec<u8>,
    /// Largest tolerated Levenshtein distance.
    pub max_edits: usize,
}

/// One automaton state: a capped dynamic-programming row, together with
/// the (ghost) bytes whose consumption produced it.
pub struct MatcherState {
    /// `costs[j]` is the distance from the first `j` query bytes to the
    /// consumed bytes, capped at `max_edits + 1`.
    pub costs: Vec<usize>,
    /// The bytes consumed so far; proof-only bookkeeping.
    pub consumed: Ghost<Seq<u8>>,
}

impl Matcher {
    /// The matcher can cap rows at `max_edits + 1` and index one past
    /// the query without overflow.
    pub open spec fn wf(self) -> bool {
        self.max_edits < usize::MAX && self.query@.len() < usize::MAX
    }

    /// The value every row entry is capped at.
    pub open spec fn cap(self) -> nat {
        self.max_edits as nat + 1
    }

    /// `s` is the state the automaton reaches from its start state by
    /// consuming exactly `s.consumed`.
    pub open spec fn state_ok(self, s: MatcherState) -> bool {
        &&& s.costs@.len() == self.query@.len() + 1
        &&& forall|j: int| 0 <= j <= self.query@.len() ==>
            s.costs@[j] as nat == min2(row_val(self.query@, s.consumed@, j), self.cap())
    }

    /// Binds a fresh automaton to `query` with edit budget `max_edits`.
    pub fn new(query: Vec<u8>, max_edits: usize) -> (m: Matcher)
        requires
            max_edits < usize::MAX,
            query@.len() < usize::MAX,
        ensures
            m.wf(),
            m.query@ == query@,
            m.max_edits == max_edits,
    {
        Matcher { query, max_edits }
    }

    /// The state before any byte is consumed: row entry `j` is `j`
    /// (delete the first `j` query bytes), capped.
    pub fn start(&self) -> (s: MatcherState)
        requires
            self.wf(),
        ensures
            self.state_ok(s),
            s.consumed@ == Seq::<u8>::empty(),
    {
        let n = self.query.len();
        let bound = self.max_edits + 1;
        let mut costs: Vec<usize> = Vec::new();
        let mut j: usize = 0;
        while j <= n
            invariant
                j <= n + 1,
                bound == self.max_edits + 1,
                n == self.query@.len(),
                self.wf(),
                costs@.len() == j,
                forall|jj: int| 0 <= jj < j ==>
                    costs@[jj] as nat == min2(
                        row_val(self.query@, Seq::<u8>::empty(), jj),
                        self.cap(),
                    ),
            decreases n + 1 - j,
        {
            proof {
                let a = self.query@.take(j as int);
                assert(a.len() == j);
                lemma_lev_to_empty(a);
            }
            if j < bound {
                costs.push(j);
            } else {
                costs.push(bound);
            }
            j = j + 1;
        }
        MatcherState { costs, consumed: Ghost(Seq::empty()) }
    }

    /// Advances a state by one consumed byte: the dynamic-programming
    /// row update, with every entry kept capped.
    pub fn step(&self, s: &MatcherState, x: u8) -> (t: MatcherState)
        requires
            self.wf(),
            self.state_ok(*s),
        ensures
            self.state_ok(t),
            t.consumed@ == s.consumed@.push(x),
    {
        let ghost q = self.query@;
        let ghost c = s.consumed@;
        let n = self.query.len();
        let bound = self.max_edits + 1;
        let mut costs: Vec<usize> = Vec::new();
        let c0 = s.costs[0];
        proof {
            assert(q.take(0).len() == 0);
            lemma_lev_push(q.take(0), c, x);
            assert(row_val(q, c, 0) == c.len());
            assert(row_val(q, c.push(x), 0) == c.len() + 1);
        }
        if c0 >= self.max_edits {
            costs.push(bound);
        } else {
            costs.push(c0 + 1);
        }
        let mut j: usize = 1;
        while j <= n
            invariant
                1 <= j <= n + 1,
                bound == self.max_edits + 1,
                self.wf(),
                n == q.len(),
                q == self.query@,
                c == s.consumed@,
                self.state_ok(*s),
                costs@.len() == j,
                forall|jj: int| 0 <= jj < j ==>
                    costs@[jj] as nat == min2(row_val(q, c.push(x), jj), self.cap()),
            decreases n + 1 - j,
        {
            let prev_old = s.costs[j - 1];
            let old_j = s.costs[j];
            let prev_new = costs[j - 1];
            let qc = self.query[j - 1];
            proof {
                let a = q.take(j as int);
                assert(a.len() == j);
                assert(a.last() == q[j - 1]);
                assert(a.drop_last() =~= q.take(j - 1));
                lemma_lev_push(a, c, x);
            }
            if qc == x {
                costs.push(prev_old);
            } else {
                let mut m = prev_new;
                if old_j < m {
                    m = old_j;
                }
                if prev_old < m {
                    m = prev_old;
                }
                proof {
                    assert(m as nat == min3(
                        min2(row_val(q, c.push(x), j - 1), self.cap()),
                        min2(row_val(q, c, j as int), self.cap()),
                        min2(row_val(q, c, j - 1), self.cap()),
                    ));
                }
                if m >= self.max_edits {
                    costs.push(bound);
                } else {
                    costs.push(m + 1);
                }
            }
            j = j + 1;
        }
        MatcherState { costs, consumed: Ghost(c.push(x)) }
    }

    /// Whether the consumed bytes are within the edit budget of the
    /// whole query.
    pub fn is_accepting(&self, s: &MatcherState) -> (r: bool)
        requires
            self.wf(),
            self.state_ok(*s),
        ensures
            r == (lev(self.query@, s.consumed@) <= self.max_edits),
    {
        proof {
            assert(self.query@.take(self.query@.len() as int) =~= self.query@);
        }
        s.costs[self.query.len()] <= self.max_edits
    }

    /// Whether some extension of the consumed bytes could still be
    /// within budget. When this returns false the state is dead: no
    /// sequence that starts with the consumed bytes matches.
    pub fn can_match(&self, s: &MatcherState) -> (r: bool)
        requires
            self.wf(),
            self.state_ok(*s),
        ensures
            r == (row_min(self.query@, s.consumed@) <= self.max_edits),
            !r ==> forall|e: Seq<u8>|
                lev(self.query@, #[trigger] (s.consumed@ + e)) > self.max_edits,
    {
        let ghost q = self.query@;
        let ghost c = s.consumed@;
        let n = self.query.len();
        let mut j: usize = 0;
        let mut found = false;
        while j <= n
            invariant
                j <= n + 1,
                n == q.len(),
                q == self.query@,
                c == s.consumed@,
                self.wf(),
                self.state_ok(*s),
                found == exists|jj: int|
                    0 <= jj < j && row_val(q, c, jj) <= self.max_edits,
            decreases n + 1 - j,
        {
            if s.costs[j] <= self.max_edits {
                found = true;
            }
            j = j + 1;
        }
        proof {
            lemma_row_min_upto_exists(q, c, q.len() as int, self.max_edits as nat);
            if !found {
                assert forall|e: Seq<u8>|
                    lev(q, #[trigger] (c + e)) > self.max_edits by {
                    lemma_lev_extension(q, c, e);
                }
            }
        }
        found
    }
}

} // verus!
