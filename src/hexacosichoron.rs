//! The 120 vertices of the 600-cell (hexacosichoron), in exact form.
//!
//! Every coordinate of a vertex is one of nine values, which this module writes as a
//! signed level: level `0` is zero and levels `±1`, `±2`, `±3`, `±4` stand for
//! `±1/(2φ)`, `±1/2`, `±φ/2` and `±1`, where `φ = (1 + √5) / 2` is the golden ratio.
//! Levels are ordered as the values they stand for.
use vstd::prelude::*;
use crate::even_permutations::{
    arrangement_views, even_arrangements, even_arrangements_after, even_permutations,
    has_ascent, is_ascent, is_sorted, last_above_before, last_ascent_before,
    lemma_even_arrangements_increasing, next_arrangement, place_value,
};

verus! {

/// A vertex of the 600-cell: four coordinates, each a signed level.
pub type Vertex = [i8; 4];

/// The value of a coordinate level, as `(a, b)` with value `(a + b·√5) / 4`.
pub open spec fn level_value(l: int) -> (int, int) {
    let m = if l < 0 {
        -l
    } else {
        l
    };
    let s: int = if l < 0 {
        -1
    } else {
        1
    };
    if m == 1 {
        (-s, s)
    } else if m == 2 {
        (2 * s, 0)
    } else if m == 3 {
        (s, s)
    } else if m == 4 {
        (4 * s, 0)
    } else {
        (0, 0)
    }
}

/// The square of a coordinate level, as `(c, d)` with value `(c + d·√5) / 16`.
pub open spec fn level_square(l: int) -> (int, int) {
    let (a, b) = level_value(l);
    (a * a + 5 * b * b, 2 * a * b)
}

/// The vertex lies on the unit 3-sphere: its squared length is exactly `16 / 16`.
pub open spec fn is_unit_vertex(v: Seq<i8>) -> bool {
    &&& v.len() == 4
    &&& level_square(v[0] as int).0 + level_square(v[1] as int).0 + level_square(v[2] as int).0
        + level_square(v[3] as int).0 == 16
    &&& level_square(v[0] as int).1 + level_square(v[1] as int).1 + level_square(v[2] as int).1
        + level_square(v[3] as int).1 == 0
}

/// The eight vertices on the axes: `±X`, `±Y`, `±Z`, `±W`, in that order.
pub open spec fn axis_vertices() -> Seq<Seq<i8>> {
    seq![
        seq![4i8, 0, 0, 0],
        seq![-4i8, 0, 0, 0],
        seq![0i8, 4, 0, 0],
        seq![0i8, -4i8, 0, 0],
        seq![0i8, 0, 4, 0],
        seq![0i8, 0, -4i8, 0],
        seq![0i8, 0, 0, 4],
        seq![0i8, 0, 0, -4i8],
    ]
}

/// Bit `b` of `bits` is clear.
pub open spec fn bit_clear(bits: int, b: int) -> bool {
    if b == 0 {
        bits % 2 == 0
    } else if b == 1 {
        (bits / 2) % 2 == 0
    } else if b == 2 {
        (bits / 4) % 2 == 0
    } else {
        (bits / 8) % 2 == 0
    }
}

/// `level` when bit `b` of `bits` is clear, else `-level`.
pub open spec fn signed_level(bits: int, b: int, level: i8) -> i8 {
    if bit_clear(bits, b) {
        level
    } else {
        (-level) as i8
    }
}

/// The vertex `(±1/2, ±1/2, ±1/2, ±1/2)` whose signs are the bits of `i`, lowest bit first.
pub open spec fn half_vertex(i: int) -> Seq<i8> {
    seq![signed_level(i, 0, 2), signed_level(i, 1, 2), signed_level(i, 2, 2), signed_level(i, 3, 2)]
}

/// The first position of `p` that holds level zero (position 3 when none of the others does).
pub open spec fn zero_position(p: Seq<u64>) -> int {
    if p[0] == 0 {
        0
    } else if p[1] == 0 {
        1
    } else if p[2] == 0 {
        2
    } else {
        3
    }
}

/// The vertex with the unsigned levels of `p` and the signs given by the bits of `signs`:
/// the three nonzero coordinates take bits 0, 1 and 2 in the order of their positions, where
/// the last position takes the bit of the zero's position.
pub open spec fn signed_vertex(p: Seq<u64>, signs: int) -> Seq<i8> {
    let z = zero_position(p);
    Seq::new(
        4,
        |k: int|
            if k == z {
                0i8
            } else {
                signed_level(signs, if k == 3 { z } else { k }, p[k] as i8)
            },
    )
}

/// The unsigned levels `0, 1, 2, 3` in ascending order.
pub open spec fn golden_levels() -> Seq<u64> {
    seq![0u64, 1, 2, 3]
}

proof fn lemma_count4(p: Seq<u64>, v: u64)
    requires
        p.len() == 4,
    ensures
        p.to_multiset().count(v) == (if p[0] == v { 1int } else { 0 }) + (if p[1] == v { 1int } else { 0 })
            + (if p[2] == v { 1int } else { 0 }) + (if p[3] == v { 1int } else { 0 }),
{
    broadcast use vstd::multiset::group_multiset_axioms;
    broadcast use vstd::seq_lib::group_seq_properties;

    let e = Seq::<u64>::empty();
    let upto1 = e.push(p[0]);
    let upto2 = upto1.push(p[1]);
    let upto3 = upto2.push(p[2]);
    let upto4 = upto3.push(p[3]);
    assert(p =~= upto4);
    e.to_multiset_ensures();
    upto1.to_multiset_ensures();
    upto2.to_multiset_ensures();
    upto3.to_multiset_ensures();
    assert(e.to_multiset() =~= vstd::multiset::Multiset::empty());
}

/// An arrangement of the levels `0, 1, 2, 3` holds each of them once.
proof fn lemma_arrangement_of_levels(p: Seq<u64>)
    requires
        p.to_multiset() == golden_levels().to_multiset(),
    ensures
        p.len() == 4,
        forall|k: int| 0 <= k < 4 ==> p[k] <= 3,
        p[0] != p[1] && p[0] != p[2] && p[0] != p[3] && p[1] != p[2] && p[1] != p[3] && p[2] != p[3],
{
    p.to_multiset_ensures();
    golden_levels().to_multiset_ensures();
    assert(p.len() == 4);
    let g = golden_levels();
    assert forall|k: int| 0 <= k < 4 implies p[k] <= 3 by {
        lemma_count4(p, p[k]);
        lemma_count4(g, p[k]);
    }
    lemma_count4(p, p[0]);
    lemma_count4(g, p[0]);
    lemma_count4(p, p[1]);
    lemma_count4(g, p[1]);
    lemma_count4(p, p[2]);
    lemma_count4(g, p[2]);
}

proof fn lemma_level_squares()
    ensures
        level_square(0) == (0int, 0int),
        level_square(1) == (6int, -2int),
        level_square(2) == (4int, 0int),
        level_square(3) == (6int, 2int),
        level_square(4) == (16int, 0int),
        level_square(-1) == (6int, -2int),
        level_square(-2) == (4int, 0int),
        level_square(-3) == (6int, 2int),
        level_square(-4) == (16int, 0int),
{
    lemma_level_square_parts(0, 0, 0);
    lemma_level_square_parts(1, -1, 1);
    lemma_level_square_parts(-1, 1, -1);
    lemma_level_square_parts(2, 2, 0);
    lemma_level_square_parts(-2, -2, 0);
    lemma_level_square_parts(3, 1, 1);
    lemma_level_square_parts(-3, -1, -1);
    lemma_level_square_parts(4, 4, 0);
    lemma_level_square_parts(-4, -4, 0);
}

proof fn lemma_level_square_parts(l: int, a: int, b: int)
    requires
        level_value(l) == (a, b),
    ensures
        level_square(l) == (a * a + 5 * b * b, 2 * a * b),
{
}

proof fn lemma_signed_vertex_unit(p: Seq<u64>, signs: int)
    requires
        p.to_multiset() == golden_levels().to_multiset(),
    ensures
        is_unit_vertex(signed_vertex(p, signs)),
{
    lemma_arrangement_of_levels(p);
    let v = signed_vertex(p, signs);
    lemma_level_squares();
    assert forall|k: int| 0 <= k < 4 implies level_square(#[trigger] v[k] as int) == level_square(
        p[k] as int,
    ) by {
        assert(p[zero_position(p)] == 0);
    }
    let w0 = level_square(p[0] as int);
    let w1 = level_square(p[1] as int);
    let w2 = level_square(p[2] as int);
    let w3 = level_square(p[3] as int);
    assert(w0.0 + w1.0 + w2.0 + w3.0 == 16 && w0.1 + w1.1 + w2.1 + w3.1 == 0);
}

/// The sorted arrangement of the levels `0, 1, 2, 3` is `golden_levels()`.
proof fn lemma_sorted_levels(s: Seq<u64>)
    requires
        is_sorted(s),
        s.to_multiset() == golden_levels().to_multiset(),
    ensures
        s == golden_levels(),
{
    lemma_arrangement_of_levels(s);
    assert(s[0] <= s[1] && s[1] <= s[2] && s[2] <= s[3]);
    assert(s =~= golden_levels());
}

/// The arrangement valid for a vertex: the levels `0, 1, 2, 3`, each once.
pub open spec fn is_level_arrangement(p: Seq<u64>) -> bool {
    &&& p.len() == 4
    &&& forall|k: int| 0 <= k < 4 ==> p[k] <= 3
    &&& p[0] != p[1] && p[0] != p[2] && p[0] != p[3] && p[1] != p[2] && p[1] != p[3] && p[2] != p[3]
}

/// The position that takes sign bit `b` (below 3) in `signed_vertex(p, _)`.
pub open spec fn sign_position(p: Seq<u64>, b: int) -> int {
    if b == zero_position(p) {
        3
    } else {
        b
    }
}

proof fn lemma_signed_vertex_parts(p: Seq<u64>, signs: int)
    requires
        is_level_arrangement(p),
        0 <= signs < 8,
    ensures
        signed_vertex(p, signs).len() == 4,
        p[zero_position(p)] == 0,
        forall|k: int| 0 <= k < 4 ==> {
            let c = #[trigger] signed_vertex(p, signs)[k] as int;
            c == p[k] || c == -p[k]
        },
        forall|b: int|
            0 <= b < 3 ==> {
                let c = signed_vertex(p, signs)[#[trigger] sign_position(p, b)] as int;
                &&& 0 <= sign_position(p, b) < 4
                &&& p[sign_position(p, b)] > 0
                &&& (c < 0 <==> !bit_clear(signs, b))
            },
{
}

/// A vertex of the third kind determines its arrangement and its signs.
proof fn lemma_signed_vertex_injective(p: Seq<u64>, s: int, q: Seq<u64>, t: int)
    requires
        is_level_arrangement(p),
        is_level_arrangement(q),
        0 <= s < 8,
        0 <= t < 8,
        signed_vertex(p, s) == signed_vertex(q, t),
    ensures
        p == q,
        s == t,
{
    lemma_signed_vertex_parts(p, s);
    lemma_signed_vertex_parts(q, t);
    let v = signed_vertex(p, s);
    assert forall|k: int| 0 <= k < 4 implies p[k] == q[k] by {
        assert(v[k] == signed_vertex(q, t)[k]);
    }
    assert(p =~= q);
    assert(sign_position(p, 0) == sign_position(q, 0));
    let c0 = v[sign_position(p, 0)] as int;
    let c1 = v[sign_position(p, 1)] as int;
    let c2 = v[sign_position(p, 2)] as int;
    assert(bit_clear(s, 0) == bit_clear(t, 0));
    assert(bit_clear(s, 1) == bit_clear(t, 1));
    assert(bit_clear(s, 2) == bit_clear(t, 2));
}

proof fn lemma_axis_vertices()
    ensures
        forall|k: int|
            0 <= k < 8 ==> #[trigger] axis_vertices()[k] == Seq::new(
                4,
                |c: int|
                    if c == k / 2 {
                        if k % 2 == 0 {
                            4i8
                        } else {
                            -4i8
                        }
                    } else {
                        0i8
                    },
            ),
{
    assert forall|k: int| 0 <= k < 8 implies #[trigger] axis_vertices()[k] == Seq::new(
        4,
        |c: int|
            if c == k / 2 {
                if k % 2 == 0 {
                    4i8
                } else {
                    -4i8
                }
            } else {
                0i8
            },
    ) by {
        let w = Seq::new(
            4,
            |c: int|
                if c == k / 2 {
                    if k % 2 == 0 {
                        4i8
                    } else {
                        -4i8
                    }
                } else {
                    0i8
                },
        );
        assert(axis_vertices()[k] =~= w);
    }
}

/// Any two places of a list laid out as `make_600_cell` promises hold different vertices.
proof fn lemma_cell_vertices_distinct(points: Seq<Seq<i8>>, all: Seq<Seq<u64>>)
    requires
        points.len() == 24 + 8 * all.len(),
        forall|r: int| 0 <= r < all.len() ==> is_level_arrangement(#[trigger] all[r]),
        forall|a: int, b: int|
            0 <= a < b < all.len() ==> place_value(#[trigger] all[a]) < place_value(#[trigger] all[b]),
        forall|k: int| 0 <= k < 8 ==> #[trigger] points[k] == axis_vertices()[k],
        forall|i: int| 0 <= i < 16 ==> #[trigger] points[8 + i] == half_vertex(i),
        forall|r: int, s: int|
            0 <= r < all.len() && 0 <= s < 8 ==> #[trigger] points[24 + 8 * r + s] == signed_vertex(all[r], s),
    ensures
        forall|a: int, b: int| 0 <= a < b < points.len() ==> #[trigger] points[a] != #[trigger] points[b],
{
    lemma_axis_vertices();
    lemma_level_squares();
    assert forall|a: int, b: int| 0 <= a < b < points.len() implies #[trigger] points[a] != #[trigger] points[b] by {
        if a < 8 {
            let va = points[a];
            assert(va == axis_vertices()[a]);
            assert(va[a / 2] == 4 || va[a / 2] == -4);
            if b < 8 {
                assert(points[b] == axis_vertices()[b]);
                if a / 2 == b / 2 {
                    assert(va[a / 2] != points[b][a / 2]);
                } else {
                    assert(va[a / 2] != points[b][a / 2]);
                }
            } else if b < 24 {
                assert(points[8 + (b - 8)] == half_vertex(b - 8));
                assert(points[b][a / 2] == 2 || points[b][a / 2] == -2);
            } else {
                let r = (b - 24) / 8;
                let s = (b - 24) % 8;
                assert(points[24 + 8 * r + s] == signed_vertex(all[r], s));
                lemma_signed_vertex_parts(all[r], s);
                assert(signed_vertex(all[r], s)[a / 2] as int <= 3);
            }
        } else if a < 24 {
            let i = a - 8;
            assert(points[8 + i] == half_vertex(i));
            if b < 24 {
                let j = b - 8;
                assert(points[8 + j] == half_vertex(j));
                if bit_clear(i, 0) != bit_clear(j, 0) {
                    assert(half_vertex(i)[0] != half_vertex(j)[0]);
                } else if bit_clear(i, 1) != bit_clear(j, 1) {
                    assert(half_vertex(i)[1] != half_vertex(j)[1]);
                } else if bit_clear(i, 2) != bit_clear(j, 2) {
                    assert(half_vertex(i)[2] != half_vertex(j)[2]);
                } else {
                    assert(half_vertex(i)[3] != half_vertex(j)[3]);
                }
            } else {
                let r = (b - 24) / 8;
                let s = (b - 24) % 8;
                assert(points[24 + 8 * r + s] == signed_vertex(all[r], s));
                lemma_signed_vertex_parts(all[r], s);
                let z = zero_position(all[r]);
                assert(signed_vertex(all[r], s)[z] == 0);
                assert(half_vertex(i)[z] != 0);
            }
        } else {
            let r = (a - 24) / 8;
            let s = (a - 24) % 8;
            let q = (b - 24) / 8;
            let t = (b - 24) % 8;
            assert(points[24 + 8 * r + s] == signed_vertex(all[r], s));
            assert(points[24 + 8 * q + t] == signed_vertex(all[q], t));
            if points[a] == points[b] {
                lemma_signed_vertex_injective(all[r], s, all[q], t);
                if r < q {
                    assert(place_value(all[r]) < place_value(all[q]));
                }
            }
        }
    }
}

/// The walk from `golden_levels()` reports twelve arrangements.
#[verifier::rlimit(80)]
proof fn lemma_golden_walk()
    ensures
        even_arrangements(golden_levels()).len() == 12,
{
    reveal_with_fuel(last_ascent_before, 5);
    reveal_with_fuel(last_above_before, 5);
    assert(next_arrangement(seq![0u64, 1, 2, 3]) =~= seq![0u64, 1, 3, 2]);
    assert(is_ascent(seq![0u64, 1, 2, 3], 2));
    assert(next_arrangement(seq![0u64, 1, 3, 2]) =~= seq![0u64, 2, 1, 3]);
    assert(is_ascent(seq![0u64, 1, 3, 2], 1));
    assert(next_arrangement(seq![0u64, 2, 1, 3]) =~= seq![0u64, 2, 3, 1]);
    assert(is_ascent(seq![0u64, 2, 1, 3], 2));
    assert(next_arrangement(seq![0u64, 2, 3, 1]) =~= seq![0u64, 3, 1, 2]);
    assert(is_ascent(seq![0u64, 2, 3, 1], 1));
    assert(next_arrangement(seq![0u64, 3, 1, 2]) =~= seq![0u64, 3, 2, 1]);
    assert(is_ascent(seq![0u64, 3, 1, 2], 2));
    assert(next_arrangement(seq![0u64, 3, 2, 1]) =~= seq![1u64, 0, 2, 3]);
    assert(is_ascent(seq![0u64, 3, 2, 1], 0));
    assert(next_arrangement(seq![1u64, 0, 2, 3]) =~= seq![1u64, 0, 3, 2]);
    assert(is_ascent(seq![1u64, 0, 2, 3], 2));
    assert(next_arrangement(seq![1u64, 0, 3, 2]) =~= seq![1u64, 2, 0, 3]);
    assert(is_ascent(seq![1u64, 0, 3, 2], 1));
    assert(next_arrangement(seq![1u64, 2, 0, 3]) =~= seq![1u64, 2, 3, 0]);
    assert(is_ascent(seq![1u64, 2, 0, 3], 2));
    assert(next_arrangement(seq![1u64, 2, 3, 0]) =~= seq![1u64, 3, 0, 2]);
    assert(is_ascent(seq![1u64, 2, 3, 0], 1));
    assert(next_arrangement(seq![1u64, 3, 0, 2]) =~= seq![1u64, 3, 2, 0]);
    assert(is_ascent(seq![1u64, 3, 0, 2], 2));
    assert(next_arrangement(seq![1u64, 3, 2, 0]) =~= seq![2u64, 0, 1, 3]);
    assert(is_ascent(seq![1u64, 3, 2, 0], 0));
    assert(next_arrangement(seq![2u64, 0, 1, 3]) =~= seq![2u64, 0, 3, 1]);
    assert(is_ascent(seq![2u64, 0, 1, 3], 2));
    assert(next_arrangement(seq![2u64, 0, 3, 1]) =~= seq![2u64, 1, 0, 3]);
    assert(is_ascent(seq![2u64, 0, 3, 1], 1));
    assert(next_arrangement(seq![2u64, 1, 0, 3]) =~= seq![2u64, 1, 3, 0]);
    assert(is_ascent(seq![2u64, 1, 0, 3], 2));
    assert(next_arrangement(seq![2u64, 1, 3, 0]) =~= seq![2u64, 3, 0, 1]);
    assert(is_ascent(seq![2u64, 1, 3, 0], 1));
    assert(next_arrangement(seq![2u64, 3, 0, 1]) =~= seq![2u64, 3, 1, 0]);
    assert(is_ascent(seq![2u64, 3, 0, 1], 2));
    assert(next_arrangement(seq![2u64, 3, 1, 0]) =~= seq![3u64, 0, 1, 2]);
    assert(is_ascent(seq![2u64, 3, 1, 0], 0));
    assert(next_arrangement(seq![3u64, 0, 1, 2]) =~= seq![3u64, 0, 2, 1]);
    assert(is_ascent(seq![3u64, 0, 1, 2], 2));
    assert(next_arrangement(seq![3u64, 0, 2, 1]) =~= seq![3u64, 1, 0, 2]);
    assert(is_ascent(seq![3u64, 0, 2, 1], 1));
    assert(next_arrangement(seq![3u64, 1, 0, 2]) =~= seq![3u64, 1, 2, 0]);
    assert(is_ascent(seq![3u64, 1, 0, 2], 2));
    assert(next_arrangement(seq![3u64, 1, 2, 0]) =~= seq![3u64, 2, 0, 1]);
    assert(is_ascent(seq![3u64, 1, 2, 0], 1));
    assert(next_arrangement(seq![3u64, 2, 0, 1]) =~= seq![3u64, 2, 1, 0]);
    assert(is_ascent(seq![3u64, 2, 0, 1], 2));
    assert(!has_ascent(seq![3u64, 2, 1, 0])) by {
        assert forall|x: int| !is_ascent(seq![3u64, 2, 1, 0], x) by {
            if 0 <= x < 3 {
                assert(seq![3u64, 2, 1, 0][x] > seq![3u64, 2, 1, 0][x + 1]);
            }
        }
    }
    assert(even_arrangements_after(seq![3u64, 2, 0, 1], true).len() == 1);
    assert(even_arrangements_after(seq![3u64, 1, 2, 0], true).len() == 1);
    assert(even_arrangements_after(seq![3u64, 1, 0, 2], false).len() == 1);
    assert(even_arrangements_after(seq![3u64, 0, 2, 1], false).len() == 2);
    assert(even_arrangements_after(seq![3u64, 0, 1, 2], true).len() == 3);
    assert(even_arrangements_after(seq![2u64, 3, 1, 0], true).len() == 3);
    assert(even_arrangements_after(seq![2u64, 3, 0, 1], false).len() == 3);
    assert(even_arrangements_after(seq![2u64, 1, 3, 0], false).len() == 4);
    assert(even_arrangements_after(seq![2u64, 1, 0, 3], true).len() == 5);
    assert(even_arrangements_after(seq![2u64, 0, 3, 1], true).len() == 5);
    assert(even_arrangements_after(seq![2u64, 0, 1, 3], false).len() == 5);
    assert(even_arrangements_after(seq![1u64, 3, 2, 0], false).len() == 6);
    assert(even_arrangements_after(seq![1u64, 3, 0, 2], true).len() == 7);
    assert(even_arrangements_after(seq![1u64, 2, 3, 0], true).len() == 7);
    assert(even_arrangements_after(seq![1u64, 2, 0, 3], false).len() == 7);
    assert(even_arrangements_after(seq![1u64, 0, 3, 2], false).len() == 8);
    assert(even_arrangements_after(seq![1u64, 0, 2, 3], true).len() == 9);
    assert(even_arrangements_after(seq![0u64, 3, 2, 1], true).len() == 9);
    assert(even_arrangements_after(seq![0u64, 3, 1, 2], false).len() == 9);
    assert(even_arrangements_after(seq![0u64, 2, 3, 1], false).len() == 10);
    assert(even_arrangements_after(seq![0u64, 2, 1, 3], true).len() == 11);
    assert(even_arrangements_after(seq![0u64, 1, 3, 2], true).len() == 11);
    assert(even_arrangements_after(seq![0u64, 1, 2, 3], false).len() == 11);
    assert(golden_levels() == seq![0u64, 1, 2, 3]);
}


fn sign_by(signs: u8, b: usize, level: i8) -> (r: i8)
    requires
        0 <= level <= 4,
        b < 4,
    ensures
        r == signed_level(signs as int, b as int, level),
{
    let clear = if b == 0 {
        signs % 2 == 0
    } else if b == 1 {
        (signs / 2) % 2 == 0
    } else if b == 2 {
        (signs / 4) % 2 == 0
    } else {
        (signs / 8) % 2 == 0
    };
    if clear {
        level
    } else {
        -level
    }
}

fn signed_vertex_of(p: &Vec<u64>, z: usize, signs: u8) -> (v: Vertex)
    requires
        p@.len() == 4,
        forall|k: int| 0 <= k < 4 ==> p@[k] <= 3,
        z as int == zero_position(p@),
    ensures
        v@ == signed_vertex(p@, signs as int),
{
    let mut v: Vertex = [0, 0, 0, 0];
    let mut k: usize = 0;
    while k < 4
        invariant
            k <= 4,
            p@.len() == 4,
            forall|q: int| 0 <= q < 4 ==> p@[q] <= 3,
            z as int == zero_position(p@),
            forall|q: int| 0 <= q < k ==> v@[q] == signed_vertex(p@, signs as int)[q],
        decreases 4 - k,
    {
        if k != z {
            let slot = if k == 3 {
                z
            } else {
                k
            };
            v[k] = sign_by(signs, slot, p[k] as i8);
        } else {
            v[k] = 0;
        }
        k = k + 1;
    }
    assert(v@ =~= signed_vertex(p@, signs as int));
    v
}

proof fn lemma_golden_levels_multiset()
    ensures
        seq![3u64, 2, 1, 0].to_multiset() == golden_levels().to_multiset(),
{
    let a = seq![3u64, 2, 1, 0];
    let g = golden_levels();
    assert forall|v: u64| a.to_multiset().count(v) == g.to_multiset().count(v) by {
        lemma_count4(a, v);
        lemma_count4(g, v);
    }
    assert(a.to_multiset() =~= g.to_multiset());
}

/// Lists the 120 vertices of the 600-cell, all on the unit 3-sphere.
///
/// First come the eight points `±X, ±Y, ±Z, ±W`, then the sixteen points
/// `(±1/2, ±1/2, ±1/2, ±1/2)`, then for each even permutation of
/// `(φ/2, 1/2, 1/(2φ), 0)`, in the order `even_permutations` reports them, the eight ways
/// of giving signs to its three nonzero coordinates.
pub fn make_600_cell() -> (points: Vec<Vertex>)
    ensures
        points@.len() == 120,
        points@.len() == 24 + 8 * even_arrangements(golden_levels()).len(),
        forall|k: int| 0 <= k < 8 ==> (#[trigger] points@[k])@ == axis_vertices()[k],
        forall|i: int| 0 <= i < 16 ==> (#[trigger] points@[8 + i])@ == half_vertex(i),
        forall|r: int, s: int|
            0 <= r < even_arrangements(golden_levels()).len() && 0 <= s < 8 ==> (#[trigger] points@[24
                + 8 * r + s])@ == signed_vertex(even_arrangements(golden_levels())[r], s),
        forall|k: int| 0 <= k < points@.len() ==> is_unit_vertex((#[trigger] points@[k])@),
        forall|a: int, b: int|
            0 <= a < b < points@.len() ==> (#[trigger] points@[a])@ != (#[trigger] points@[b])@,
{
    proof {
        lemma_level_squares();
    }
    let mut points: Vec<Vertex> = Vec::new();
    points.push([4, 0, 0, 0]);
    points.push([-4, 0, 0, 0]);
    points.push([0, 4, 0, 0]);
    points.push([0, -4, 0, 0]);
    points.push([0, 0, 4, 0]);
    points.push([0, 0, -4, 0]);
    points.push([0, 0, 0, 4]);
    points.push([0, 0, 0, -4]);
    assert forall|k: int| 0 <= k < 8 implies (#[trigger] points@[k])@ == axis_vertices()[k]
        && is_unit_vertex(points@[k]@) by {
        assert(points@[k]@ =~= axis_vertices()[k]);
    }
    let mut i: u8 = 0;
    while i < 16
        invariant
            i <= 16,
            points@.len() == 8 + i,
            forall|k: int| 0 <= k < 8 ==> (#[trigger] points@[k])@ == axis_vertices()[k],
            forall|j: int| 0 <= j < i ==> (#[trigger] points@[8 + j])@ == half_vertex(j),
            forall|k: int| 0 <= k < points@.len() ==> is_unit_vertex((#[trigger] points@[k])@),
        decreases 16 - i,
    {
        let v: Vertex = [sign_by(i, 0, 2), sign_by(i, 1, 2), sign_by(i, 2, 2), sign_by(i, 3, 2)];
        assert(v@ =~= half_vertex(i as int));
        proof {
            lemma_level_squares();
        }
        points.push(v);
        i = i + 1;
    }
    let mut levels: Vec<u64> = vec![3, 2, 1, 0];
    proof {
        lemma_golden_levels_multiset();
        assert(levels@ =~= seq![3u64, 2, 1, 0]);
    }
    let arrangements = even_permutations(&mut levels);
    proof {
        lemma_sorted_levels(arrangements@[0]@);
    }
    let ghost all = even_arrangements(golden_levels());
    let mut r: usize = 0;
    while r < arrangements.len()
        invariant
            r <= arrangements@.len(),
            arrangement_views(arrangements@) == all,
            all.len() == arrangements@.len(),
            forall|k: int| 0 <= k < arrangements@.len() ==> (#[trigger] arrangements@[k])@.to_multiset()
                == golden_levels().to_multiset(),
            points@.len() == 24 + 8 * r,
            forall|k: int| 0 <= k < 8 ==> (#[trigger] points@[k])@ == axis_vertices()[k],
            forall|j: int| 0 <= j < 16 ==> (#[trigger] points@[8 + j])@ == half_vertex(j),
            forall|q: int, s: int|
                0 <= q < r && 0 <= s < 8 ==> (#[trigger] points@[24 + 8 * q + s])@ == signed_vertex(
                    all[q],
                    s,
                ),
            forall|k: int| 0 <= k < points@.len() ==> is_unit_vertex((#[trigger] points@[k])@),
        decreases arrangements@.len() - r,
    {
        let x = &arrangements[r];
        proof {
            lemma_arrangement_of_levels(x@);
            assert(all[r as int] == x@);
        }
        let zero_idx: usize = if x[0] == 0 {
            0
        } else if x[1] == 0 {
            1
        } else if x[2] == 0 {
            2
        } else {
            3
        };
        let mut signs: u8 = 0;
        while signs < 8
            invariant
                signs <= 8,
                r < arrangements@.len(),
                all.len() == arrangements@.len(),
                x@ == all[r as int],
                x@.len() == 4,
                forall|k: int| 0 <= k < 4 ==> x@[k] <= 3,
                x@.to_multiset() == golden_levels().to_multiset(),
                zero_idx as int == zero_position(x@),
                points@.len() == 24 + 8 * r + signs,
                forall|k: int| 0 <= k < 8 ==> (#[trigger] points@[k])@ == axis_vertices()[k],
                forall|j: int| 0 <= j < 16 ==> (#[trigger] points@[8 + j])@ == half_vertex(j),
                forall|q: int, s: int|
                    0 <= q < r && 0 <= s < 8 ==> (#[trigger] points@[24 + 8 * q + s])@
                        == signed_vertex(all[q], s),
                forall|s: int| 0 <= s < signs ==> (#[trigger] points@[24 + 8 * r + s])@ == signed_vertex(all[r as int], s),
                forall|k: int| 0 <= k < points@.len() ==> is_unit_vertex((#[trigger] points@[k])@),
            decreases 8 - signs,
        {
            let v = signed_vertex_of(x, zero_idx, signs);
            proof {
                lemma_signed_vertex_unit(x@, signs as int);
            }
            points.push(v);
            signs = signs + 1;
        }
        r = r + 1;
    }
    proof {
        lemma_golden_walk();
        let g = golden_levels();
        assert(is_ascent(g, 0));
        lemma_even_arrangements_increasing(g);
        assert forall|q: int| 0 <= q < all.len() implies is_level_arrangement(#[trigger] all[q]) by {
            assert(all[q] == arrangements@[q]@);
            lemma_arrangement_of_levels(all[q]);
        }
        let views = points@.map_values(|v: Vertex| v@);
        assert forall|k: int| 0 <= k < 8 implies #[trigger] views[k] == axis_vertices()[k] by {
            assert(views[k] == points@[k]@);
        }
        assert forall|i: int| 0 <= i < 16 implies #[trigger] views[8 + i] == half_vertex(i) by {
            assert(views[8 + i] == points@[8 + i]@);
        }
        assert forall|q: int, t: int| 0 <= q < all.len() && 0 <= t < 8 implies #[trigger] views[24 + 8 * q
            + t] == signed_vertex(all[q], t) by {
            assert(views[24 + 8 * q + t] == points@[24 + 8 * q + t]@);
        }
        lemma_cell_vertices_distinct(views, all);
        assert forall|a: int, b: int| 0 <= a < b < points@.len() implies (#[trigger] points@[a])@ != (
        #[trigger] points@[b])@ by {
            assert(views[a] != views[b]);
        }
    }
    points
}

} // verus!
