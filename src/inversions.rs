//! Inversion counts of arrangements, and how exchanges and reversals change their parity.
use vstd::prelude::*;
use crate::even_permutations::{lemma_swapped_multiset, swapped};

verus! {

/// The number of entries of `t` greater than `x`.
pub open spec fn count_above(t: Seq<u64>, x: u64) -> int
    decreases t.len(),
{
    if t.len() == 0 {
        0
    } else {
        count_above(t.drop_last(), x) + if t.last() > x {
            1int
        } else {
            0int
        }
    }
}

/// The number of inversions of `s`: pairs of positions `a < b` with `s[a] > s[b]`.
/// An arrangement of distinct entries is an even permutation of their ascending order
/// exactly when this number is even.
pub open spec fn inversions(s: Seq<u64>) -> int
    decreases s.len(),
{
    if s.len() == 0 {
        0
    } else {
        inversions(s.drop_last()) + count_above(s.drop_last(), s.last())
    }
}

/// `s` with the entries from position `lo` up to `hi` in reverse order.
pub open spec fn reversed_block(s: Seq<u64>, lo: int, hi: int) -> Seq<u64> {
    s.take(lo) + s.subrange(lo, hi).reverse() + s.skip(hi)
}

proof fn lemma_count_above_adjacent_swap(t: Seq<u64>, x: u64, k: int)
    requires
        0 <= k,
        k + 1 < t.len(),
    ensures
        count_above(swapped(t, k, k + 1), x) == count_above(t, x),
    decreases t.len(),
{
    let u = swapped(t, k, k + 1);
    if k + 1 < t.len() - 1 {
        assert(u.drop_last() =~= swapped(t.drop_last(), k, k + 1));
        lemma_count_above_adjacent_swap(t.drop_last(), x, k);
    } else {
        reveal_with_fuel(count_above, 3);
        let w = t.drop_last().drop_last();
        assert(u.drop_last().drop_last() =~= w);
        assert(t.drop_last().last() == t[k]);
        assert(u.drop_last().last() == t[k + 1]);
    }
}

/// Exchanging two neighbouring distinct entries adds or removes exactly one inversion.
pub proof fn lemma_inversions_adjacent_swap(s: Seq<u64>, k: int)
    requires
        0 <= k,
        k + 1 < s.len(),
        s[k] != s[k + 1],
    ensures
        inversions(swapped(s, k, k + 1)) == inversions(s) + if s[k] < s[k + 1] {
            1int
        } else {
            -1int
        },
    decreases s.len(),
{
    let u = swapped(s, k, k + 1);
    if k + 1 < s.len() - 1 {
        assert(u.drop_last() =~= swapped(s.drop_last(), k, k + 1));
        lemma_inversions_adjacent_swap(s.drop_last(), k);
        lemma_count_above_adjacent_swap(s.drop_last(), s.last(), k);
    } else {
        reveal_with_fuel(count_above, 3);
        reveal_with_fuel(inversions, 3);
        let w = s.drop_last().drop_last();
        assert(u.drop_last().drop_last() =~= w);
        assert(s.drop_last().drop_last() =~= w);
        assert(count_above(u.drop_last(), s[k]) == count_above(w, s[k]) + if s[k + 1] > s[k] {
            1int
        } else {
            0int
        });
        assert(s.drop_last().last() == s[k]);
        assert(u.drop_last().last() == s[k + 1]);
        assert(u.last() == s[k]);
    }
}

proof fn lemma_swapped_distinct(s: Seq<u64>, i: int, j: int)
    requires
        s.no_duplicates(),
        0 <= i < s.len(),
        0 <= j < s.len(),
    ensures
        swapped(s, i, j).no_duplicates(),
{
    let u = swapped(s, i, j);
    assert forall|a: int, b: int| 0 <= a < u.len() && 0 <= b < u.len() && a != b implies u[a] != u[b] by {
        let sa = if a == j { i } else if a == i { j } else { a };
        let sb = if b == j { i } else if b == i { j } else { b };
        assert(u[a] == s[sa]);
        assert(u[b] == s[sb]);
        assert(s[sa] != s[sb]);
    }
}

/// Exchanging any two distinct entries changes the parity of the inversion count.
pub proof fn lemma_inversions_swap(s: Seq<u64>, i: int, j: int)
    requires
        s.no_duplicates(),
        0 <= i < j < s.len(),
    ensures
        (inversions(swapped(s, i, j)) - inversions(s)) % 2 == 1,
        swapped(s, i, j).no_duplicates(),
    decreases j - i,
{
    lemma_swapped_distinct(s, i, j);
    if j == i + 1 {
        lemma_inversions_adjacent_swap(s, i);
    } else {
        let s1 = swapped(s, j - 1, j);
        let s2 = swapped(s1, i, j - 1);
        let s3 = swapped(s2, j - 1, j);
        assert(s3 =~= swapped(s, i, j));
        lemma_inversions_adjacent_swap(s, j - 1);
        lemma_swapped_distinct(s, j - 1, j);
        lemma_inversions_swap(s1, i, j - 1);
        lemma_inversions_adjacent_swap(s2, j - 1);
        let d1 = inversions(s1) - inversions(s);
        let d2 = inversions(s2) - inversions(s1);
        let d3 = inversions(s3) - inversions(s2);
        assert(d1 == 1 || d1 == -1);
        assert(d3 == 1 || d3 == -1);
        assert(d2 % 2 == 1);
        assert((d1 + d2 + d3) % 2 == 1);
    }
}

/// Reversing a block is exchanging its two ends, then reversing what lies between them.
pub proof fn lemma_reversed_block_step(s: Seq<u64>, lo: int, hi: int)
    requires
        0 <= lo,
        lo + 2 <= hi <= s.len(),
    ensures
        reversed_block(s, lo, hi) == reversed_block(swapped(s, lo, hi - 1), lo + 1, hi - 1),
{
    let s1 = swapped(s, lo, hi - 1);
    let r = reversed_block(s, lo, hi);
    let r1 = reversed_block(s1, lo + 1, hi - 1);
    assert forall|k: int| 0 <= k < s.len() implies #[trigger] r[k] == r1[k] by {
        if k < lo {
            assert(r[k] == s[k]);
            assert(r1[k] == s1[k]);
        } else if k == lo {
            assert(r[k] == s[hi - 1]);
            assert(r1[k] == s1[k]);
        } else if k < hi - 1 {
            assert(r[k] == s[lo + hi - 1 - k]);
            assert(r1[k] == s1[lo + hi - 1 - k]);
        } else if k == hi - 1 {
            assert(r[k] == s[lo]);
            assert(r1[k] == s1[k]);
        } else {
            assert(r[k] == s[k]);
            assert(r1[k] == s1[k]);
        }
    }
    assert(r =~= r1);
}

/// Reversing a block keeps the entries.
pub proof fn lemma_reversed_block_multiset(s: Seq<u64>, lo: int, hi: int)
    requires
        0 <= lo <= hi <= s.len(),
    ensures
        reversed_block(s, lo, hi).to_multiset() == s.to_multiset(),
        reversed_block(s, lo, hi).len() == s.len(),
    decreases hi - lo,
{
    if hi - lo < 2 {
        assert(reversed_block(s, lo, hi) =~= s);
    } else {
        let s1 = swapped(s, lo, hi - 1);
        lemma_swapped_multiset(s, lo, hi - 1);
        lemma_reversed_block_multiset(s1, lo + 1, hi - 1);
        lemma_reversed_block_step(s, lo, hi);
    }
}

/// Reversing a block of `L` distinct entries changes the parity of the inversion count
/// exactly when `L / 2` is odd.
pub proof fn lemma_inversions_reversed_block(s: Seq<u64>, lo: int, hi: int)
    requires
        s.no_duplicates(),
        0 <= lo <= hi <= s.len(),
    ensures
        (inversions(reversed_block(s, lo, hi)) - inversions(s)) % 2 == ((hi - lo) / 2) % 2,
        reversed_block(s, lo, hi).no_duplicates(),
        reversed_block(s, lo, hi).len() == s.len(),
    decreases hi - lo,
{
    if hi - lo < 2 {
        assert(reversed_block(s, lo, hi) =~= s);
    } else {
        let s1 = swapped(s, lo, hi - 1);
        lemma_inversions_swap(s, lo, hi - 1);
        lemma_inversions_reversed_block(s1, lo + 1, hi - 1);
        lemma_reversed_block_step(s, lo, hi);
        let r1 = reversed_block(s1, lo + 1, hi - 1);
        let d1 = inversions(s1) - inversions(s);
        let d2 = inversions(r1) - inversions(s1);
        let m = hi - lo;
        assert(d1 % 2 == 1);
        assert(d2 % 2 == ((m - 2) / 2) % 2);
        assert((m - 2) / 2 == m / 2 - 1);
        assert((d1 + d2) % 2 == (m / 2) % 2);
    }
}

} // verus!
