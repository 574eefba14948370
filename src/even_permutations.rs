//! Enumeration of the even permutations of a list of values.
//!
//! Arrangements are visited in lexicographic order with the classic
//! "next permutation" step; a parity flag tracks how many transpositions
//! separate the current arrangement from the sorted one, and only the
//! arrangements reached by an even number of them are reported.
use vstd::prelude::*;
use vstd::seq_lib::*;
use crate::inversions::{
    count_above, inversions, lemma_inversions_reversed_block, lemma_inversions_swap,
    lemma_reversed_block_multiset, reversed_block,
};

verus! {

/// One more than the largest `u64`: the radix in which an arrangement is read as a number.
pub open spec fn radix() -> int {
    0x1_0000_0000_0000_0000
}

/// `radix()` raised to the power `n`.
pub open spec fn radix_pow(n: nat) -> int
    decreases n,
{
    if n == 0 {
        1
    } else {
        radix_pow((n - 1) as nat) * radix()
    }
}

/// The arrangement read as a number in base `radix()`, first entry most significant.
/// Lexicographic order on arrangements of one length is the order of these numbers.
pub open spec fn place_value(s: Seq<u64>) -> int
    decreases s.len(),
{
    if s.len() == 0 {
        0
    } else {
        place_value(s.drop_last()) * radix() + s.last()
    }
}

/// Position `i` is an ascent of `s`: its entry is smaller than the next one.
pub open spec fn is_ascent(s: Seq<u64>, i: int) -> bool {
    0 <= i && i + 1 < s.len() && s[i] < s[i + 1]
}

/// Some position of `s` is an ascent, so `s` is not the last arrangement in lexicographic order.
pub open spec fn has_ascent(s: Seq<u64>) -> bool {
    exists|i: int| is_ascent(s, i)
}

/// The last ascent of `s` before position `k`, or -1 when there is none.
pub open spec fn last_ascent_before(s: Seq<u64>, k: int) -> int
    decreases k,
{
    if k <= 0 {
        -1
    } else if is_ascent(s, k - 1) {
        k - 1
    } else {
        last_ascent_before(s, k - 1)
    }
}

/// The last ascent of `s`, or -1 when there is none.
pub open spec fn last_ascent(s: Seq<u64>) -> int {
    last_ascent_before(s, s.len() as int)
}

/// The last position `x` with `i < x < k` whose entry exceeds the entry at `i`, or `i` when
/// there is none.
pub open spec fn last_above_before(s: Seq<u64>, i: int, k: int) -> int
    decreases k - i,
{
    if k <= i + 1 {
        i
    } else if s[i] < s[k - 1] {
        k - 1
    } else {
        last_above_before(s, i, k - 1)
    }
}

/// `s` with the entries at `i` and `j` exchanged.
pub open spec fn swapped(s: Seq<u64>, i: int, j: int) -> Seq<u64> {
    s.update(i, s[j]).update(j, s[i])
}

/// The classic step to the next arrangement in lexicographic order, for an `s` with an
/// ascent: the entry at the last ascent is exchanged with the last larger entry after it,
/// and the tail after the ascent is reversed.
pub open spec fn next_arrangement(s: Seq<u64>) -> Seq<u64> {
    let i = last_ascent(s);
    let j = last_above_before(s, i, s.len() as int);
    let t = swapped(s, i, j);
    t.take(i + 1) + t.skip(i + 1).reverse()
}

/// The step from `s` to `next_arrangement(s)` is an odd number of transpositions: one
/// exchange, then the reversal of a tail of length `L`, which is `L / 2` exchanges.
pub open spec fn step_is_odd(s: Seq<u64>) -> bool {
    let tail = s.len() - (last_ascent(s) + 1);
    !(tail % 4 > 1)
}

/// How far `s` lies from the end of the lexicographic order on arrangements of its length:
/// the measure that each step of the enumeration decreases.
pub open spec fn lexicographic_room(s: Seq<u64>) -> int {
    radix_pow(s.len()) - place_value(s)
}

proof fn lemma_place_value_bounds(s: Seq<u64>)
    ensures
        0 <= place_value(s) < radix_pow(s.len()),
    decreases s.len(),
{
    if s.len() > 0 {
        let p = place_value(s.drop_last());
        let q = radix_pow((s.len() - 1) as nat);
        lemma_place_value_bounds(s.drop_last());
        let last = s.last() as int;
        assert(0 <= p * radix() + last < q * radix()) by (nonlinear_arith)
            requires
                0 <= p < q,
                0 <= last < radix(),
                radix() > 0,
        ;
    }
}

proof fn lemma_place_value_lex(s: Seq<u64>, t: Seq<u64>, i: int)
    requires
        s.len() == t.len(),
        0 <= i < s.len(),
        forall|k: int| 0 <= k < i ==> s[k] == t[k],
        s[i] < t[i],
    ensures
        place_value(s) < place_value(t),
    decreases s.len(),
{
    let n = s.len() as int;
    if i == n - 1 {
        assert(s.drop_last() =~= t.drop_last());
    } else {
        lemma_place_value_lex(s.drop_last(), t.drop_last(), i);
        let ps = place_value(s.drop_last());
        let pt = place_value(t.drop_last());
        let ls = s.last() as int;
        let lt = t.last() as int;
        assert(ps * radix() + ls < pt * radix() + lt) by (nonlinear_arith)
            requires
                ps < pt,
                0 <= ls < radix(),
                0 <= lt,
                radix() > 0,
        ;
    }
}

proof fn lemma_last_ascent_before(s: Seq<u64>, k: int)
    requires
        0 <= k <= s.len(),
    ensures
        -1 <= last_ascent_before(s, k) < k,
        last_ascent_before(s, k) == -1 ==> forall|x: int| x < k ==> !is_ascent(s, x),
        last_ascent_before(s, k) >= 0 ==> is_ascent(s, last_ascent_before(s, k)),
        forall|x: int| last_ascent_before(s, k) < x < k ==> !is_ascent(s, x),
    decreases k,
{
    if k > 0 && !is_ascent(s, k - 1) {
        lemma_last_ascent_before(s, k - 1);
    }
}

proof fn lemma_last_ascent(s: Seq<u64>)
    ensures
        has_ascent(s) <==> last_ascent(s) >= 0,
        has_ascent(s) ==> is_ascent(s, last_ascent(s)),
        forall|x: int| last_ascent(s) < x ==> !is_ascent(s, x),
{
    lemma_last_ascent_before(s, s.len() as int);
    if last_ascent(s) >= 0 {
        assert(is_ascent(s, last_ascent(s)));
    }
}

proof fn lemma_last_above_before(s: Seq<u64>, i: int, k: int)
    requires
        0 <= i < s.len(),
        k <= s.len(),
    ensures
        last_above_before(s, i, k) == i || (i < last_above_before(s, i, k) < k && s[i]
            < s[last_above_before(s, i, k)]),
        forall|x: int| last_above_before(s, i, k) < x < k && i < x ==> !(s[i] < s[x]),
        i + 1 < k && s[i] < s[i + 1] ==> last_above_before(s, i, k) > i,
    decreases k - i,
{
    if k > i + 1 && !(s[i] < s[k - 1]) {
        lemma_last_above_before(s, i, k - 1);
    }
}

/// The next arrangement has the length of `s` and comes after it in lexicographic order.
pub proof fn lemma_next_arrangement_greater(s: Seq<u64>)
    requires
        has_ascent(s),
    ensures
        next_arrangement(s).len() == s.len(),
        place_value(s) < place_value(next_arrangement(s)),
        0 < lexicographic_room(next_arrangement(s)) < lexicographic_room(s),
{
    let n = s.len() as int;
    lemma_last_ascent(s);
    let i = last_ascent(s);
    lemma_last_above_before(s, i, n);
    let j = last_above_before(s, i, n);
    let t = swapped(s, i, j);
    let u = next_arrangement(s);
    assert(u.len() == n);
    assert forall|k: int| 0 <= k < i implies s[k] == u[k] by {
        assert(u[k] == t[k]);
    }
    assert(u[i] == t[i]);
    lemma_place_value_lex(s, u, i);
    lemma_place_value_bounds(s);
    lemma_place_value_bounds(u);
}

/// Every arrangement reported after `s` has the length of `s` and comes after it, and
/// each comes after the one before it, in lexicographic order.
pub proof fn lemma_even_arrangements_after_increasing(s: Seq<u64>, odd: bool)
    requires
        has_ascent(s),
    ensures
        forall|a: int| 0 <= a < even_arrangements_after(s, odd).len() ==> (#[trigger] even_arrangements_after(s, odd)[a]).len() == s.len(),
        forall|a: int|
            0 <= a < even_arrangements_after(s, odd).len() ==> place_value(s) < place_value(
                #[trigger] even_arrangements_after(s, odd)[a],
            ),
        forall|a: int, b: int|
            0 <= a < b < even_arrangements_after(s, odd).len() ==> place_value(
                #[trigger] even_arrangements_after(s, odd)[a],
            ) < place_value(#[trigger] even_arrangements_after(s, odd)[b]),
    decreases lexicographic_room(s),
{
    let t = next_arrangement(s);
    let odd_t = odd != step_is_odd(s);
    let here = if odd_t {
        Seq::<Seq<u64>>::empty()
    } else {
        seq![t]
    };
    let e = even_arrangements_after(s, odd);
    lemma_next_arrangement_greater(s);
    if has_ascent(t) {
        lemma_even_arrangements_after_increasing(t, odd_t);
        let rest = even_arrangements_after(t, odd_t);
        assert(e == here + rest);
        assert forall|a: int| 0 <= a < e.len() implies #[trigger] e[a].len() == s.len() && place_value(s) < place_value(e[a]) by {
            if a >= here.len() {
                assert(e[a] == rest[a - here.len()]);
            }
        }
        assert forall|a: int, b: int| 0 <= a < b < e.len() implies place_value(#[trigger] e[a]) < place_value(
            #[trigger] e[b],
        ) by {
            assert(e[b] == rest[b - here.len()]);
            if a >= here.len() {
                assert(e[a] == rest[a - here.len()]);
            }
        }
    } else {
        assert(e == here);
    }
}

/// The arrangements reported after `s`, where `odd` says whether `s` itself is an odd
/// permutation of the first arrangement.
pub open spec fn even_arrangements_after(s: Seq<u64>, odd: bool) -> Seq<Seq<u64>>
    decreases lexicographic_room(s),
    when has_ascent(s)
{
    let t = next_arrangement(s);
    let odd_t = odd != step_is_odd(s);
    let here = if odd_t {
        Seq::<Seq<u64>>::empty()
    } else {
        seq![t]
    };
    if has_ascent(t) {
        proof {
            lemma_next_arrangement_greater(s);
        }
        here + even_arrangements_after(t, odd_t)
    } else {
        here
    }
}

/// The arrangements that `even_permutations` reports when its sorted input is `s`: `s`
/// itself, then, walking from `s` by `next_arrangement` until no ascent is left, each
/// arrangement reached by an even number of transpositions in all. An `s` with no ascent
/// (all entries equal) is its own only arrangement and is reported once.
pub open spec fn even_arrangements(s: Seq<u64>) -> Seq<Seq<u64>> {
    if has_ascent(s) {
        seq![s] + even_arrangements_after(s, false)
    } else {
        seq![s]
    }
}

/// For an `s` with an ascent, each arrangement that `even_arrangements(s)` lists comes
/// strictly after the one before it in lexicographic order, so none is listed twice.
pub proof fn lemma_even_arrangements_increasing(s: Seq<u64>)
    requires
        has_ascent(s),
    ensures
        forall|a: int, b: int|
            0 <= a < b < even_arrangements(s).len() ==> place_value(
                #[trigger] even_arrangements(s)[a],
            ) < place_value(#[trigger] even_arrangements(s)[b]),
{
    let e = even_arrangements(s);
    let rest = even_arrangements_after(s, false);
    lemma_even_arrangements_after_increasing(s, false);
    assert(e == seq![s] + rest);
    assert forall|a: int, b: int| 0 <= a < b < e.len() implies place_value(#[trigger] e[a]) < place_value(
        #[trigger] e[b],
    ) by {
        assert(e[b] == rest[b - 1]);
        if a >= 1 {
            assert(e[a] == rest[a - 1]);
        }
    }
}

proof fn lemma_count_above_none(t: Seq<u64>, x: u64)
    requires
        forall|k: int| 0 <= k < t.len() ==> t[k] <= x,
    ensures
        count_above(t, x) == 0,
    decreases t.len(),
{
    if t.len() > 0 {
        lemma_count_above_none(t.drop_last(), x);
    }
}

/// An arrangement in ascending order has no inversions.
proof fn lemma_sorted_no_inversions(s: Seq<u64>)
    requires
        is_sorted(s),
    ensures
        inversions(s) == 0,
    decreases s.len(),
{
    if s.len() > 0 {
        lemma_sorted_no_inversions(s.drop_last());
        lemma_count_above_none(s.drop_last(), s.last());
    }
}

/// For distinct entries, `step_is_odd(s)` is exactly whether the step to
/// `next_arrangement(s)` changes the parity of the inversion count.
pub proof fn lemma_next_arrangement_parity(s: Seq<u64>)
    requires
        has_ascent(s),
        s.no_duplicates(),
    ensures
        next_arrangement(s).no_duplicates(),
        (inversions(next_arrangement(s)) - inversions(s)) % 2 == if step_is_odd(s) {
            1int
        } else {
            0int
        },
{
    let n = s.len() as int;
    lemma_last_ascent(s);
    let i = last_ascent(s);
    lemma_last_above_before(s, i, n);
    let j = last_above_before(s, i, n);
    let t = swapped(s, i, j);
    lemma_inversions_swap(s, i, j);
    lemma_inversions_reversed_block(t, i + 1, n);
    assert(next_arrangement(s) =~= reversed_block(t, i + 1, n));
    let l = n - (i + 1);
    let d1 = inversions(t) - inversions(s);
    let d2 = inversions(next_arrangement(s)) - inversions(t);
    assert(d1 % 2 == 1);
    assert(d2 % 2 == (l / 2) % 2);
    assert((l % 4 > 1) <==> ((l / 2) % 2 == 1));
}

/// For distinct entries, every arrangement reported after `s` has an even number of
/// inversions, when `odd` tells the parity of the inversions of `s`.
proof fn lemma_even_arrangements_after_even(s: Seq<u64>, odd: bool)
    requires
        has_ascent(s),
        s.no_duplicates(),
        odd == (inversions(s) % 2 == 1),
    ensures
        forall|k: int|
            0 <= k < even_arrangements_after(s, odd).len() ==> inversions(
                #[trigger] even_arrangements_after(s, odd)[k],
            ) % 2 == 0,
    decreases lexicographic_room(s),
{
    let t = next_arrangement(s);
    let odd_t = odd != step_is_odd(s);
    let here = if odd_t {
        Seq::<Seq<u64>>::empty()
    } else {
        seq![t]
    };
    let e = even_arrangements_after(s, odd);
    lemma_next_arrangement_greater(s);
    lemma_next_arrangement_parity(s);
    assert(odd_t == (inversions(t) % 2 == 1));
    if has_ascent(t) {
        lemma_even_arrangements_after_even(t, odd_t);
        let rest = even_arrangements_after(t, odd_t);
        assert(e == here + rest);
        assert forall|k: int| 0 <= k < e.len() implies inversions(#[trigger] e[k]) % 2 == 0 by {
            if k >= here.len() {
                assert(e[k] == rest[k - here.len()]);
            }
        }
    } else {
        assert(e == here);
    }
}

/// For distinct entries in ascending order, every arrangement that `even_arrangements`
/// lists has an even number of inversions: each is an even permutation of `s`.
pub proof fn lemma_even_arrangements_are_even(s: Seq<u64>)
    requires
        is_sorted(s),
        s.no_duplicates(),
    ensures
        forall|k: int|
            0 <= k < even_arrangements(s).len() ==> inversions(#[trigger] even_arrangements(s)[k]) % 2
                == 0,
{
    lemma_sorted_no_inversions(s);
    let e = even_arrangements(s);
    if has_ascent(s) {
        lemma_even_arrangements_after_even(s, false);
        let rest = even_arrangements_after(s, false);
        assert(e == seq![s] + rest);
        assert forall|k: int| 0 <= k < e.len() implies inversions(#[trigger] e[k]) % 2 == 0 by {
            if k >= 1 {
                assert(e[k] == rest[k - 1]);
            }
        }
    } else {
        assert(e == seq![s]);
    }
}

/// The entries of `s` from position `d` on are in descending (non-increasing) order.
pub open spec fn descending_from(s: Seq<u64>, d: int) -> bool {
    forall|a: int, b: int| d <= a <= b < s.len() ==> s[a] >= s[b]
}

/// The entries of `s` from position `d` on are in ascending (non-decreasing) order.
pub open spec fn ascending_from(s: Seq<u64>, d: int) -> bool {
    forall|a: int, b: int| d <= a <= b < s.len() ==> s[a] <= s[b]
}

/// Arrangements of one length with the same place value are equal.
proof fn lemma_place_value_injective(a: Seq<u64>, b: Seq<u64>)
    requires
        a.len() == b.len(),
        place_value(a) == place_value(b),
    ensures
        a == b,
    decreases a.len(),
{
    if a.len() > 0 {
        let pa = place_value(a.drop_last());
        let pb = place_value(b.drop_last());
        let la = a.last() as int;
        let lb = b.last() as int;
        let r = radix();
        assert(pa == pb && la == lb) by (nonlinear_arith)
            requires
                pa * r + la == pb * r + lb,
                0 <= la < r,
                0 <= lb < r,
                r > 0,
        {
            if pa > pb {
                assert((pa - pb) * r >= r);
            } else if pa < pb {
                assert((pb - pa) * r >= r);
            }
        }
        lemma_place_value_injective(a.drop_last(), b.drop_last());
        assert forall|k: int| 0 <= k < a.len() implies a[k] == b[k] by {
            if k < a.len() - 1 {
                assert(a[k] == a.drop_last()[k]);
                assert(b[k] == b.drop_last()[k]);
            }
        }
        assert(a =~= b);
    }
}

proof fn lemma_first_difference_from(a: Seq<u64>, b: Seq<u64>, k: int) -> (d: int)
    requires
        a.len() == b.len(),
        0 <= k <= a.len(),
        forall|q: int| 0 <= q < k ==> a[q] == b[q],
        a != b,
    ensures
        k <= d < a.len(),
        a[d] != b[d],
        forall|q: int| 0 <= q < d ==> a[q] == b[q],
    decreases a.len() - k,
{
    if k == a.len() {
        assert(a =~= b);
        k
    } else if a[k] != b[k] {
        k
    } else {
        lemma_first_difference_from(a, b, k + 1)
    }
}

/// Two arrangements that agree before position `d` hold the same entries from `d` on,
/// and the entry of `p` at `d` stands somewhere at or after `d` in `s`.
proof fn lemma_entry_in_tail(p: Seq<u64>, s: Seq<u64>, d: int) -> (k: int)
    requires
        p.len() == s.len(),
        0 <= d < s.len(),
        forall|q: int| 0 <= q < d ==> p[q] == s[q],
        p.to_multiset() == s.to_multiset(),
    ensures
        d <= k < s.len(),
        s[k] == p[d],
{
    broadcast use vstd::multiset::group_multiset_axioms;

    let pt = p.skip(d);
    let st = s.skip(d);
    assert(p =~= p.take(d) + pt);
    assert(s =~= s.take(d) + st);
    assert(p.take(d) =~= s.take(d));
    lemma_multiset_commutative(p.take(d), pt);
    lemma_multiset_commutative(s.take(d), st);
    pt.to_multiset_ensures();
    st.to_multiset_ensures();
    assert(pt.contains(p[d])) by {
        assert(pt[0] == p[d]);
    }
    let x = p[d];
    assert((p.take(d) + pt).to_multiset().count(x) == p.take(d).to_multiset().count(x) + pt.to_multiset().count(x));
    assert((s.take(d) + st).to_multiset().count(x) == s.take(d).to_multiset().count(x) + st.to_multiset().count(x));
    assert(pt.to_multiset().count(x) == st.to_multiset().count(x));
    assert(st.contains(p[d]));
    let y = choose|y: int| 0 <= y < st.len() && st[y] == p[d];
    d + y
}

proof fn lemma_descending_chain(s: Seq<u64>, d: int, a: int, b: int)
    requires
        0 <= d <= a <= b < s.len(),
        forall|x: int| d <= x ==> !is_ascent(s, x),
    ensures
        s[a] >= s[b],
    decreases b - a,
{
    if a < b {
        lemma_descending_chain(s, d, a, b - 1);
        assert(!is_ascent(s, b - 1));
    }
}

proof fn lemma_no_ascent_from(s: Seq<u64>, d: int)
    requires
        0 <= d,
        forall|x: int| d <= x ==> !is_ascent(s, x),
    ensures
        descending_from(s, d),
{
    assert forall|a: int, b: int| d <= a <= b < s.len() implies s[a] >= s[b] by {
        lemma_descending_chain(s, d, a, b);
    }
}

/// With the same entries and the same first `d` entries, an arrangement whose tail from
/// `d` is descending comes last in lexicographic order.
proof fn lemma_largest_tail(s: Seq<u64>, p: Seq<u64>, d: int)
    requires
        p.len() == s.len(),
        p.to_multiset() == s.to_multiset(),
        0 <= d <= s.len(),
        forall|q: int| 0 <= q < d ==> p[q] == s[q],
        descending_from(s, d),
    ensures
        place_value(p) <= place_value(s),
    decreases s.len() - d,
{
    if d == s.len() {
        assert(p =~= s);
    } else {
        let k = lemma_entry_in_tail(p, s, d);
        if p[d] < s[d] {
            lemma_place_value_lex(p, s, d);
        } else {
            lemma_largest_tail(s, p, d + 1);
        }
    }
}

/// With the same entries and the same first `d` entries, an arrangement whose tail from
/// `d` is ascending comes first in lexicographic order.
proof fn lemma_smallest_tail(s: Seq<u64>, p: Seq<u64>, d: int)
    requires
        p.len() == s.len(),
        p.to_multiset() == s.to_multiset(),
        0 <= d <= s.len(),
        forall|q: int| 0 <= q < d ==> p[q] == s[q],
        ascending_from(s, d),
    ensures
        place_value(s) <= place_value(p),
    decreases s.len() - d,
{
    if d == s.len() {
        assert(p =~= s);
    } else {
        let k = lemma_entry_in_tail(p, s, d);
        if s[d] < p[d] {
            lemma_place_value_lex(s, p, d);
        } else {
            lemma_smallest_tail(s, p, d + 1);
        }
    }
}

/// The next arrangement holds the entries of `s`, and its tail after the last ascent of
/// `s` is ascending.
proof fn lemma_next_arrangement_shape(s: Seq<u64>)
    requires
        has_ascent(s),
    ensures
        next_arrangement(s).to_multiset() == s.to_multiset(),
        next_arrangement(s).len() == s.len(),
        ascending_from(next_arrangement(s), last_ascent(s) + 1),
{
    let n = s.len() as int;
    lemma_last_ascent(s);
    let i = last_ascent(s);
    lemma_last_above_before(s, i, n);
    let j = last_above_before(s, i, n);
    lemma_no_ascent_from(s, i + 1);
    let u = swapped(s, i, j);
    lemma_swapped_multiset(s, i, j);
    lemma_reversed_block_multiset(u, i + 1, n);
    let t = next_arrangement(s);
    assert(t =~= reversed_block(u, i + 1, n));
    assert forall|a: int, b: int| i + 1 <= a <= b < n implies u[a] >= u[b] by {
        if a == j && b != j {
            assert(!(s[i] < s[b]));
        } else if b == j && a != j {
            assert(s[a] >= s[j]);
        }
    }
    assert forall|a: int, b: int| i + 1 <= a <= b < n implies t[a] <= t[b] by {
        assert(t[a] == u[n + i - a]);
        assert(t[b] == u[n + i - b]);
    }
}

/// The next arrangement is the least arrangement of the same entries after `s` in
/// lexicographic order.
pub proof fn lemma_next_arrangement_least(s: Seq<u64>, p: Seq<u64>)
    requires
        has_ascent(s),
        p.to_multiset() == s.to_multiset(),
        place_value(s) < place_value(p),
    ensures
        place_value(next_arrangement(s)) <= place_value(p),
{
    let n = s.len() as int;
    p.to_multiset_ensures();
    s.to_multiset_ensures();
    assert(p.len() == s.len());
    lemma_last_ascent(s);
    let i = last_ascent(s);
    lemma_last_above_before(s, i, n);
    let j = last_above_before(s, i, n);
    lemma_no_ascent_from(s, i + 1);
    lemma_next_arrangement_shape(s);
    let t = next_arrangement(s);
    let u = swapped(s, i, j);
    assert forall|q: int| 0 <= q < i implies t[q] == s[q] by {
        assert(t[q] == u[q]);
    }
    assert(t[i] == s[j]) by {
        assert(t[i] == u[i]);
    }
    assert(s != p);
    let d = lemma_first_difference_from(s, p, 0);
    if p[d] < s[d] {
        lemma_place_value_lex(p, s, d);
    } else if d < i {
        lemma_place_value_lex(t, p, d);
    } else if d > i {
        lemma_largest_tail(s, p, i + 1);
    } else {
        let k = lemma_entry_in_tail(p, s, i);
        assert(k > i);
        assert(k <= j) by {
            if k > j {
                assert(!(s[i] < s[k]));
            }
        }
        assert(s[k] >= s[j]);
        if p[i] > t[i] {
            lemma_place_value_lex(t, p, i);
        } else {
            lemma_smallest_tail(t, p, i + 1);
        }
    }
}

/// For distinct entries, every arrangement of them after `s` with an even number of
/// inversions is reported after `s`, when `odd` tells the parity of the inversions of `s`.
proof fn lemma_even_arrangements_after_reach(s: Seq<u64>, odd: bool, p: Seq<u64>)
    requires
        has_ascent(s),
        s.no_duplicates(),
        odd == (inversions(s) % 2 == 1),
        p.to_multiset() == s.to_multiset(),
        place_value(s) < place_value(p),
        inversions(p) % 2 == 0,
    ensures
        even_arrangements_after(s, odd).contains(p),
    decreases lexicographic_room(s),
{
    let t = next_arrangement(s);
    let odd_t = odd != step_is_odd(s);
    let here = if odd_t {
        Seq::<Seq<u64>>::empty()
    } else {
        seq![t]
    };
    let e = even_arrangements_after(s, odd);
    p.to_multiset_ensures();
    s.to_multiset_ensures();
    lemma_next_arrangement_greater(s);
    lemma_next_arrangement_parity(s);
    lemma_next_arrangement_least(s, p);
    lemma_next_arrangement_shape(s);
    assert(odd_t == (inversions(t) % 2 == 1));
    if place_value(t) == place_value(p) {
        lemma_place_value_injective(t, p);
        if has_ascent(t) {
            assert(e == here + even_arrangements_after(t, odd_t));
        } else {
            assert(e == here);
        }
        assert(e[0] == p);
    } else {
        if !has_ascent(t) {
            lemma_last_ascent(t);
            lemma_no_ascent_from(t, 0);
            lemma_largest_tail(t, p, 0);
        }
        lemma_even_arrangements_after_reach(t, odd_t, p);
        let rest = even_arrangements_after(t, odd_t);
        assert(e == here + rest);
        let x = choose|x: int| 0 <= x < rest.len() && rest[x] == p;
        assert(e[here.len() + x] == p);
    }
}

/// For distinct entries in ascending order, `even_arrangements(s)` lists every
/// arrangement of them that has an even number of inversions: every even permutation.
pub proof fn lemma_even_arrangements_complete(s: Seq<u64>, p: Seq<u64>)
    requires
        is_sorted(s),
        s.no_duplicates(),
        p.to_multiset() == s.to_multiset(),
        inversions(p) % 2 == 0,
    ensures
        even_arrangements(s).contains(p),
{
    let e = even_arrangements(s);
    p.to_multiset_ensures();
    s.to_multiset_ensures();
    assert(p.len() == s.len());
    if p == s {
        assert(e[0] == s);
    } else {
        lemma_smallest_tail(s, p, 0);
        if place_value(s) == place_value(p) {
            lemma_place_value_injective(s, p);
        }
        lemma_last_ascent(s);
        if !has_ascent(s) {
            lemma_no_ascent_from(s, 0);
            lemma_largest_tail(s, p, 0);
        }
        lemma_sorted_no_inversions(s);
        lemma_even_arrangements_after_reach(s, false, p);
        let rest = even_arrangements_after(s, false);
        assert(e == seq![s] + rest);
        let x = choose|x: int| 0 <= x < rest.len() && rest[x] == p;
        assert(e[1 + x] == p);
    }
}

/// The arrangements in `r`, as sequences.
pub open spec fn arrangement_views(r: Seq<Vec<u64>>) -> Seq<Seq<u64>> {
    r.map_values(|a: Vec<u64>| a@)
}

/// The entries of `s` are in ascending order.
pub open spec fn is_sorted(s: Seq<u64>) -> bool {
    forall|a: int, b: int| 0 <= a <= b < s.len() ==> s[a] <= s[b]
}

/// Exchanging two entries keeps the entries.
pub proof fn lemma_swapped_multiset(s: Seq<u64>, i: int, j: int)
    requires
        0 <= i < s.len(),
        0 <= j < s.len(),
    ensures
        swapped(s, i, j).to_multiset() =~= s.to_multiset(),
{
    broadcast use vstd::multiset::group_multiset_axioms;

    let s1 = s.update(i, s[j]);
    to_multiset_update(s, i, s[j]);
    to_multiset_update(s1, j, s[i]);
    s.to_multiset_ensures();
    assert(s.contains(s[i]));
    assert(s1[j] == s[j]);
}

/// Relies on `slice::sort`: afterwards the entries are in ascending order and are the same
/// entries as before.
#[verifier::external_body]
fn sort_ascending(v: &mut Vec<u64>)
    ensures
        final(v)@.len() == old(v)@.len(),
        final(v)@.to_multiset() == old(v)@.to_multiset(),
        is_sorted(final(v)@),
{
    v.sort();
}

fn swap_entries(v: &mut Vec<u64>, i: usize, j: usize)
    requires
        i < old(v).len(),
        j < old(v).len(),
    ensures
        final(v)@ == swapped(old(v)@, i as int, j as int),
        final(v)@.to_multiset() == old(v)@.to_multiset(),
{
    proof {
        lemma_swapped_multiset(v@, i as int, j as int);
    }
    let a = v[i];
    let b = v[j];
    v[i] = b;
    v[j] = a;
    assert(v@ =~= swapped(old(v)@, i as int, j as int));
}

/// Reverses the entries from position `start` to the end.
fn reverse_tail(v: &mut Vec<u64>, start: usize)
    requires
        start <= old(v).len(),
    ensures
        final(v)@ == old(v)@.take(start as int) + old(v)@.skip(start as int).reverse(),
        final(v)@.to_multiset() == old(v)@.to_multiset(),
{
    let ghost s = v@;
    let n = v.len();
    let mut lo = start;
    let mut hi = n;
    while hi - lo > 1
        invariant
            start <= lo <= hi <= n,
            lo - start == n - hi,
            n == s.len(),
            v@.len() == n,
            v@.to_multiset() == s.to_multiset(),
            forall|k: int| 0 <= k < start ==> v@[k] == s[k],
            forall|k: int| start <= k < lo ==> v@[k] == s[n - 1 - k + start],
            forall|k: int| hi <= k < n ==> v@[k] == s[n - 1 - k + start],
            forall|k: int| lo <= k < hi ==> v@[k] == s[k],
        decreases hi - lo,
    {
        swap_entries(v, lo, hi - 1);
        lo = lo + 1;
        hi = hi - 1;
    }
    assert(v@ =~= s.take(start as int) + s.skip(start as int).reverse());
}

fn find_last_ascent(v: &Vec<u64>) -> (r: Option<usize>)
    ensures
        match r {
            Some(i) => i as int == last_ascent(v@),
            None => last_ascent(v@) == -1,
        },
{
    let n = v.len();
    let mut k: usize = n;
    while k > 0
        invariant
            k <= n,
            n == v@.len(),
            last_ascent_before(v@, k as int) == last_ascent(v@),
        decreases k,
    {
        if k < n && v[k - 1] < v[k] {
            return Some(k - 1);
        }
        k = k - 1;
    }
    None
}

fn find_last_above(v: &Vec<u64>, i: usize) -> (r: usize)
    requires
        i < v.len(),
    ensures
        r as int == last_above_before(v@, i as int, v.len() as int),
{
    let n = v.len();
    let mut k: usize = n;
    while k > i + 1
        invariant
            i < n,
            k <= n,
            n == v@.len(),
            last_above_before(v@, i as int, k as int) == last_above_before(v@, i as int, n as int),
        decreases k,
    {
        if v[i] < v[k - 1] {
            return k - 1;
        }
        k = k - 1;
    }
    i
}

/// Lists the even permutations of `values`.
///
/// The entries are first sorted into ascending order and that arrangement is reported.
/// Then the arrangements are walked in lexicographic order by `next_arrangement`, and
/// each one that an even number of transpositions in all has reached is reported. Each
/// reported arrangement holds the entries of `values` and comes after the one before it.
/// When the entries are distinct, the reported arrangements are exactly the even
/// permutations (even number of inversions) of the sorted entries, each once. On return
/// `values` holds the last arrangement, in descending order.
///
/// Entries that are all equal (a single entry among them) have one arrangement, which is
/// reported once. The list must not be empty: it has no first arrangement to start from.
pub fn even_permutations(values: &mut Vec<u64>) -> (r: Vec<Vec<u64>>)
    requires
        old(values).len() >= 1,
    ensures
        r@.len() >= 1,
        is_sorted(r@[0]@),
        r@[0]@.to_multiset() == old(values)@.to_multiset(),
        arrangement_views(r@) == even_arrangements(r@[0]@),
        forall|k: int| 0 <= k < r@.len() ==> (#[trigger] r@[k])@.to_multiset() == old(values)@.to_multiset(),
        final(values)@.to_multiset() == old(values)@.to_multiset(),
        !has_ascent(final(values)@),
        forall|a: int, b: int|
            0 <= a < b < r@.len() ==> place_value((#[trigger] r@[a])@) < place_value((#[trigger] r@[b])@),
        old(values)@.no_duplicates() ==> forall|k: int|
            0 <= k < r@.len() ==> inversions((#[trigger] r@[k])@) % 2 == 0,
        old(values)@.no_duplicates() ==> forall|p: Seq<u64>|
            p.to_multiset() == old(values)@.to_multiset() && #[trigger] inversions(p) % 2 == 0
                ==> arrangement_views(r@).contains(p),
{
    let ghost m = values@.to_multiset();
    let n = values.len();
    let mut odd = false;
    sort_ascending(values);
    let ghost s0 = values@;
    let mut out: Vec<Vec<u64>> = Vec::new();
    out.push(values.clone());
    assert(out@[0]@ =~= s0);
    assert(arrangement_views(out@) =~= seq![s0]);
    proof {
        if old(values)@.no_duplicates() {
            old(values)@.lemma_multiset_has_no_duplicates();
            s0.lemma_multiset_has_no_duplicates_conv();
            lemma_even_arrangements_are_even(s0);
            assert forall|p: Seq<u64>|
                p.to_multiset() == m && #[trigger] inversions(p) % 2 == 0
                    implies even_arrangements(s0).contains(p) by {
                lemma_even_arrangements_complete(s0, p);
            }
        }
    }
    match find_last_ascent(values) {
        None => {
            proof {
                lemma_last_ascent(s0);
            }
            assert forall|k: int| 0 <= k < out@.len() implies (#[trigger] out@[k])@ == even_arrangements(s0)[k] by {
                assert(out@[k]@ == arrangement_views(out@)[k]);
            }
            return out;
        },
        Some(_) => {},
    }
    proof {
        lemma_last_ascent(s0);
        assert(arrangement_views(out@) + even_arrangements_after(s0, false) == even_arrangements(s0));
    }
    loop
        invariant
            n == values@.len(),
            has_ascent(values@),
            values@.to_multiset() == m,
            m == old(values)@.to_multiset(),
            out@.len() >= 1,
            out@[0]@ == s0,
            is_sorted(s0),
            has_ascent(s0),
            s0.to_multiset() == m,
            old(values)@.no_duplicates() ==> forall|k: int|
                0 <= k < even_arrangements(s0).len() ==> inversions(#[trigger] even_arrangements(s0)[k]) % 2 == 0,
            old(values)@.no_duplicates() ==> forall|p: Seq<u64>|
                p.to_multiset() == m && #[trigger] inversions(p) % 2 == 0 ==> even_arrangements(s0).contains(p),
            forall|k: int| 0 <= k < out@.len() ==> (#[trigger] out@[k])@.to_multiset() == m,
            arrangement_views(out@) + even_arrangements_after(values@, odd) == even_arrangements(s0),
        decreases lexicographic_room(values@),
    {
        let ghost s = values@;
        let ghost odd0 = odd;
        proof {
            lemma_last_ascent(s);
            lemma_next_arrangement_greater(s);
        }
        let i = match find_last_ascent(values) {
            Some(i) => i,
            None => {
                return out;
            },
        };
        proof {
            lemma_last_above_before(s, i as int, n as int);
        }
        let j = find_last_above(values, i);
        swap_entries(values, i, j);
        odd = !odd;
        reverse_tail(values, i + 1);
        odd = odd ^ ((n - (i + 1)) % 4 > 1);
        assert(values@ == next_arrangement(s));
        let ghost before = out@;
        if !odd {
            out.push(values.clone());
            assert(out@.last()@ =~= values@);
        }
        proof {
            let t = next_arrangement(s);
            let here = if odd { Seq::<Seq<u64>>::empty() } else { seq![t] };
            assert(arrangement_views(out@) =~= arrangement_views(before) + here);
            assert forall|k: int| 0 <= k < out@.len() implies (#[trigger] out@[k])@.to_multiset() == m by {
                if k < before.len() {
                    assert(out@[k] == before[k]);
                }
            }
            assert(out@[0] == before[0]);
        }
        match find_last_ascent(values) {
            Some(_) => {
                proof {
                    lemma_last_ascent(values@);
                    let t = next_arrangement(s);
                    let here = if odd { Seq::<Seq<u64>>::empty() } else { seq![t] };
                    assert(arrangement_views(before) + here + even_arrangements_after(t, odd)
                        =~= arrangement_views(before) + (here + even_arrangements_after(t, odd)));
                }
            },
            None => {
                proof {
                    lemma_last_ascent(values@);
                    assert(arrangement_views(before) + even_arrangements_after(s, odd0) == even_arrangements(s0));
                    lemma_even_arrangements_increasing(s0);
                    assert forall|a: int, b: int| 0 <= a < b < out@.len() implies place_value(
                        (#[trigger] out@[a])@,
                    ) < place_value((#[trigger] out@[b])@) by {
                        assert(out@[a]@ == arrangement_views(out@)[a]);
                        assert(out@[b]@ == arrangement_views(out@)[b]);
                    }
                    assert forall|k: int| 0 <= k < out@.len() implies (#[trigger] out@[k])@ == even_arrangements(s0)[k] by {
                        assert(out@[k]@ == arrangement_views(out@)[k]);
                    }
                }
                return out;
            },
        }
    }
}

} // verus!
