//! Levenshtein edit distance on byte sequences.
//!
//! `lev` is the specification the whole crate is measured against: the
//! minimum number of single-byte insertions, deletions and substitutions
//! turning one sequence into the other, written as the classic recursion
//! on the two final bytes.
//!
//! The row lemmas below justify the matcher: walking a candidate byte by
//! byte keeps, for each prefix length `j` of the query, the distance from
//! that query prefix to the bytes consumed so far (one dynamic-programming
//! row). The smallest entry of the row never shrinks as more bytes are
//! consumed, so once every entry exceeds the edit budget no extension of
//! the consumed bytes can come back within it — the fact that makes
//! pruning sound.

use vstd::prelude::*;

verus! {

/// Smallest of two naturals.
pub open spec fn min2(x: nat, y: nat) -> nat {
    if x <= y {
        x
    } else {
        y
    }
}

/// Smallest of three naturals.
pub open spec fn min3(x: nat, y: nat, z: nat) -> nat {
    min2(x, min2(y, z))
}

/// Levenshtein distance between byte sequences `a` and `b`.
pub open spec fn lev(a: Seq<u8>, b: Seq<u8>) -> nat
    decreases a.len() + b.len(),
{
    if a.len() == 0 {
        b.len()
    } else if b.len() == 0 {
        a.len()
    } else if a.last() == b.last() {
        lev(a.drop_last(), b.drop_last())
    } else {
        min3(lev(a.drop_last(), b), lev(a, b.drop_last()), lev(a.drop_last(), b.drop_last()))
            + 1
    }
}

/// A sequence is at distance zero from itself.
pub proof fn lemma_lev_self(a: Seq<u8>)
    ensures
        lev(a, a) == 0,
    decreases a.len(),
{
    if a.len() > 0 {
        lemma_lev_self(a.drop_last());
    }
}

/// Distance to the empty sequence is the length.
pub proof fn lemma_lev_to_empty(a: Seq<u8>)
    ensures
        lev(a, Seq::<u8>::empty()) == a.len(),
{
}

/// Entry `j` of the dynamic-programming row after consuming `c`:
/// the distance from the first `j` bytes of the query to `c`.
pub open spec fn row_val(q: Seq<u8>, c: Seq<u8>, j: int) -> nat {
    lev(q.take(j), c)
}

/// Smallest row entry among indices `0 ..= j`.
pub open spec fn row_min_upto(q: Seq<u8>, c: Seq<u8>, j: int) -> nat
    decreases j,
{
    if j <= 0 {
        row_val(q, c, 0)
    } else {
        min2(row_min_upto(q, c, j - 1), row_val(q, c, j))
    }
}

/// Smallest entry of the whole row.
pub open spec fn row_min(q: Seq<u8>, c: Seq<u8>) -> nat {
    row_min_upto(q, c, q.len() as int)
}

/// The row minimum is a lower bound for every row entry.
pub proof fn lemma_row_min_le(q: Seq<u8>, c: Seq<u8>, j: int, k: int)
    requires
        0 <= k <= j,
    ensures
        row_min_upto(q, c, j) <= row_val(q, c, k),
    decreases j,
{
    if j > 0 && k < j {
        lemma_row_min_le(q, c, j - 1, k);
    }
}

/// The running minimum is within a threshold exactly when some entry is.
pub proof fn lemma_row_min_upto_exists(q: Seq<u8>, c: Seq<u8>, j: int, k: nat)
    requires
        0 <= j,
    ensures
        row_min_upto(q, c, j) <= k <==> exists|jj: int|
            0 <= jj <= j && row_val(q, c, jj) <= k,
    decreases j,
{
    if j > 0 {
        lemma_row_min_upto_exists(q, c, j - 1, k);
    }
}

/// Unfolds `lev` when the second argument grows by one byte: exactly the
/// dynamic-programming step the matcher implements.
pub proof fn lemma_lev_push(a: Seq<u8>, b: Seq<u8>, x: u8)
    ensures
        lev(a, b.push(x)) == if a.len() == 0 {
            b.len() + 1
        } else if a.last() == x {
            lev(a.drop_last(), b)
        } else {
            (min3(lev(a.drop_last(), b.push(x)), lev(a, b), lev(a.drop_last(), b)) + 1) as nat
        },
{
    assert(b.push(x).len() == b.len() + 1);
    assert(b.push(x).last() == x);
    assert(b.push(x).drop_last() =~= b);
}

/// After consuming one more byte, every row entry still dominates the old
/// row minimum.
pub proof fn lemma_push_row_ge_min(q: Seq<u8>, c: Seq<u8>, x: u8, j: int)
    requires
        0 <= j <= q.len(),
    ensures
        row_val(q, c.push(x), j) >= row_min(q, c),
    decreases j,
{
    lemma_row_min_le(q, c, q.len() as int, j);
    if j == 0 {
        assert(q.take(0).len() == 0);
        lemma_lev_push(q.take(0), c, x);
        assert(row_val(q, c, 0) == c.len());
    } else {
        let a = q.take(j);
        assert(a.len() == j);
        assert(a.last() == q[j - 1]);
        assert(a.drop_last() =~= q.take(j - 1));
        lemma_lev_push(a, c, x);
        lemma_row_min_le(q, c, q.len() as int, j - 1);
        if a.last() == x {
            assert(row_val(q, c.push(x), j) == lev(q.take(j - 1), c));
        } else {
            lemma_push_row_ge_min(q, c, x, j - 1);
            assert(lev(a.drop_last(), c.push(x)) == row_val(q, c.push(x), j - 1));
            assert(lev(a, c) == row_val(q, c, j));
            assert(lev(a.drop_last(), c) == row_val(q, c, j - 1));
        }
    }
}

proof fn lemma_row_min_upto_push_ge(q: Seq<u8>, c: Seq<u8>, x: u8, j: int)
    requires
        0 <= j <= q.len(),
    ensures
        row_min_upto(q, c.push(x), j) >= row_min(q, c),
    decreases j,
{
    lemma_push_row_ge_min(q, c, x, j);
    if j > 0 {
        lemma_row_min_upto_push_ge(q, c, x, j - 1);
    }
}

/// The row minimum never shrinks as bytes are consumed.
pub proof fn lemma_row_min_push(q: Seq<u8>, c: Seq<u8>, x: u8)
    ensures
        row_min(q, c.push(x)) >= row_min(q, c),
{
    lemma_row_min_upto_push_ge(q, c, x, q.len() as int);
}

/// No extension of the consumed bytes can land closer to the query than
/// the current row minimum: the soundness of pruning a dead branch.
pub proof fn lemma_lev_extension(q: Seq<u8>, c: Seq<u8>, e: Seq<u8>)
    ensures
        lev(q, c + e) >= row_min(q, c),
    decreases e.len(),
{
    if e.len() == 0 {
        assert(c + e =~= c);
        assert(q.take(q.len() as int) =~= q);
        lemma_row_min_le(q, c, q.len() as int, q.len() as int);
    } else {
        let c2 = c.push(e.first());
        assert(c + e =~= c2 + e.drop_first());
        lemma_lev_extension(q, c2, e.drop_first());
        lemma_row_min_push(q, c, e.first());
    }
}

} // verus!
