//! Pythagorean triples: Euclid's formula, primitive and scaled triples, and
//! the "shares a number" relation between triples.
use crate::number_theory::{
    divides,
    isqrt,
    lemma_divides_multiple,
    lemma_divides_quotient,
    lemma_divisor_le,
    lemma_square_divides,
    lemma_square_root_unique,
    lemma_coprime_product_square,
    lemma_divides_self,
    lemma_common_divisor_divides_gcd,
    lemma_coprime_squares,
    lemma_divides_lincomb,
    lemma_divides_trans,
    lemma_divisor_of_odd,
    lemma_gcd_divides,
    lemma_gcd_positive,
    lemma_gcd_scale,
    lemma_odd_divides_double,
    spec_gcd,
};
use crate::sorted::{is_asymmetric, lemma_filter_sorted, lemma_sorted_lists_equal, strictly_sorted};
use vstd::prelude::*;

verus! {

/// Pythagorean triples and their graph structure
#[derive(Debug, Clone, Copy)]
pub struct PythagoreanTriple {
    pub a: u64,
    pub b: u64,
    pub c: u64,
}

impl View for PythagoreanTriple {
    type V = (int, int, int);

    open spec fn view(&self) -> (int, int, int) {
        (self.a as int, self.b as int, self.c as int)
    }
}

/// Euclid's formula for `m > n`: legs `m² - n²` and `2mn`, hypotenuse
/// `m² + n²`, with the legs put in ascending order.
pub open spec fn euclid_triple(m: int, n: int) -> (int, int, int) {
    let odd = m * m - n * n;
    let even = 2 * m * n;
    if odd <= even {
        (odd, even, m * m + n * n)
    } else {
        (even, odd, m * m + n * n)
    }
}

/// The pairs `(m, n)` that `primitive(max_c)` turns into triples: coprime,
/// `m > n >= 1`, not both odd, and with hypotenuse at most `max_c`.
pub open spec fn is_generator(m: int, n: int, max_c: int) -> bool {
    &&& 1 <= n < m
    &&& (m - n) % 2 == 1
    &&& spec_gcd(m as nat, n as nat) == 1
    &&& m * m + n * n <= max_c
}

/// The odd leg of a triple (the first leg when both are odd).
pub open spec fn odd_leg(t: (int, int, int)) -> int {
    if t.0 % 2 == 1 {
        t.0
    } else {
        t.1
    }
}

/// Order of the list that `primitive` returns: by hypotenuse, then by odd leg.
pub open spec fn precedes(s: (int, int, int), t: (int, int, int)) -> bool {
    s.2 < t.2 || (s.2 == t.2 && odd_leg(s) < odd_leg(t))
}

/// `t` is the triple of some generator for `max_c`.
pub open spec fn from_generator(t: (int, int, int), max_c: int) -> bool {
    exists|m: int, n: int| #[trigger] euclid_triple(m, n) == t && is_generator(m, n, max_c)
}

/// `ts` lists the triples of all generators for `max_c`, once each, in
/// `precedes` order; each is primitive with hypotenuse at most `max_c`.
pub open spec fn is_primitive_list(ts: Seq<(int, int, int)>, max_c: int) -> bool {
    &&& forall|i: int| 0 <= i < ts.len() ==> from_generator(#[trigger] ts[i], max_c)
    &&& forall|m: int, n: int|
        #[trigger] is_generator(m, n, max_c) ==> ts.contains(euclid_triple(m, n))
    &&& forall|i: int, j: int| #![trigger ts[i], ts[j]] 0 <= i < j < ts.len() ==> precedes(ts[i], ts[j])
    &&& forall|i: int|
        0 <= i < ts.len() ==> is_primitive_triple(#[trigger] ts[i]) && ts[i].2 <= max_c
}

/// A Pythagorean triple in canonical form: `0 < a <= b` and `a² + b² = c²`.
pub open spec fn is_pythagorean_triple(t: (int, int, int)) -> bool {
    0 < t.0 <= t.1 && t.0 * t.0 + t.1 * t.1 == t.2 * t.2
}

/// A primitive Pythagorean triple in canonical form: `0 < a <= b`,
/// `a² + b² = c²` and `gcd(a, b, c) = 1`.
pub open spec fn is_primitive_triple(t: (int, int, int)) -> bool {
    &&& 0 < t.0 <= t.1
    &&& t.0 * t.0 + t.1 * t.1 == t.2 * t.2
    &&& spec_gcd(spec_gcd(t.0 as nat, t.1 as nat), t.2 as nat) == 1
}

/// Euclid's formula on coprime `m > n >= 1` of opposite parity gives a
/// primitive Pythagorean triple whose odd leg is `m² - n²`.
pub proof fn lemma_euclid_triple_primitive(m: int, n: int)
    requires
        1 <= n < m,
        (m - n) % 2 == 1,
        spec_gcd(m as nat, n as nat) == 1,
    ensures
        is_primitive_triple(euclid_triple(m, n)),
        odd_leg(euclid_triple(m, n)) == m * m - n * n,
{
    let o = m * m - n * n;
    let e = 2 * m * n;
    let c = m * m + n * n;
    let t = euclid_triple(m, n);
    assert(o > 0 && e > 0) by (nonlinear_arith)
        requires
            1 <= n < m,
            o == m * m - n * n,
            e == 2 * m * n,
    ;
    let d = m - n;
    let h = d / 2;
    assert(o % 2 == 1) by (nonlinear_arith)
        requires
            d == m - n,
            d == 2 * h + 1,
            o == m * m - n * n,
    {
        assert(o == (2 * h + 1) * (2 * h + 1 + 2 * n));
        assert(o == 2 * (2 * h * h + 2 * h * n + 2 * h + n) + 1);
    }
    assert(e % 2 == 0) by (nonlinear_arith)
        requires
            e == 2 * m * n,
    {
        assert(e == 2 * (m * n));
    }
    assert(o * o + e * e == c * c) by (nonlinear_arith)
        requires
            o == m * m - n * n,
            e == 2 * m * n,
            c == m * m + n * n,
    ;
    assert(t.0 * t.0 + t.1 * t.1 == t.2 * t.2);
    // gcd(gcd(a, b), c) == 1
    let a = t.0 as nat;
    let b = t.1 as nat;
    let cn = t.2 as nat;
    lemma_gcd_positive(a, b);
    let g1 = spec_gcd(a, b);
    lemma_gcd_divides(a, b);
    lemma_gcd_positive(g1, cn);
    let g = spec_gcd(g1, cn) as int;
    lemma_gcd_divides(g1, cn);
    lemma_divides_trans(g, g1 as int, a as int);
    lemma_divides_trans(g, g1 as int, b as int);
    assert(divides(g, o) && divides(g, e));
    lemma_divides_lincomb(g, c, o, 1, 1);
    lemma_divides_lincomb(g, c, o, 1, -1);
    assert(1 * c + 1 * o == 2 * (m * m));
    assert(1 * c + (-1) * o == 2 * (n * n));
    lemma_divisor_of_odd(g, o);
    lemma_odd_divides_double(g, m * m);
    lemma_odd_divides_double(g, n * n);
    assert(m * m == (m as nat * m as nat) as int);
    assert(n * n == (n as nat * n as nat) as int);
    lemma_coprime_squares(m as nat, n as nat, g);
}

/// Two generated triples with the same hypotenuse are ordered by `m`.
proof fn lemma_same_hypotenuse_order(m1: int, n1: int, m2: int, n2: int)
    requires
        1 <= n1 < m1,
        1 <= n2 < m2,
        (m1 - n1) % 2 == 1,
        (m2 - n2) % 2 == 1,
        spec_gcd(m1 as nat, n1 as nat) == 1,
        spec_gcd(m2 as nat, n2 as nat) == 1,
        m1 < m2 || (m1 == m2 && n1 < n2),
        euclid_triple(m1, n1).2 == euclid_triple(m2, n2).2,
    ensures
        odd_leg(euclid_triple(m1, n1)) < odd_leg(euclid_triple(m2, n2)),
{
    lemma_euclid_triple_primitive(m1, n1);
    lemma_euclid_triple_primitive(m2, n2);
    if m1 == m2 {
        assert(n1 * n1 < n2 * n2) by (nonlinear_arith)
            requires
                1 <= n1 < n2,
        ;
    } else {
        assert(m1 * m1 < m2 * m2) by (nonlinear_arith)
            requires
                1 <= m1 < m2,
        ;
    }
}

/// `(m, n)` occurs in `gens`.
pub open spec fn listed(gens: Seq<(int, int)>, m: int, n: int) -> bool {
    exists|i: int| 0 <= i < gens.len() && gens[i] == (m, n)
}

proof fn lemma_listed_insert(gens: Seq<(int, int)>, pos: int, x: (int, int), m: int, n: int)
    requires
        0 <= pos <= gens.len(),
        listed(gens, m, n) || x == (m, n),
    ensures
        listed(gens.insert(pos, x), m, n),
{
    gens.insert_ensures(pos, x);
    if x == (m, n) {
        assert(gens.insert(pos, x)[pos] == (m, n));
    } else {
        let i = choose|i: int| 0 <= i < gens.len() && gens[i] == (m, n);
        if i < pos {
            assert(gens.insert(pos, x)[i] == (m, n));
        } else {
            assert(gens.insert(pos, x)[i + 1] == (m, n));
        }
    }
}

/// Lexicographic order on `(m, n)`.
pub open spec fn before(p: (int, int), m: int, n: int) -> bool {
    p.0 < m || (p.0 == m && p.1 < n)
}

/// The views of a list of triples.
pub open spec fn views(v: Seq<PythagoreanTriple>) -> Seq<(int, int, int)> {
    v.map_values(|t: PythagoreanTriple| t@)
}

/// What `primitive(max_c)` has built once it has looked at every pair
/// before `(m, n)`: `ts[i]` comes from the generator `gens[i]`, every
/// generator before `(m, n)` is listed, and `ts` is in `precedes` order.
#[verifier::opaque]
pub open spec fn primitive_prefix(
    ts: Seq<(int, int, int)>,
    gens: Seq<(int, int)>,
    max_c: int,
    m: int,
    n: int,
) -> bool {
    &&& ts.len() == gens.len()
    &&& forall|i: int|
        #![trigger gens[i]]
        #![trigger ts[i]]
        0 <= i < gens.len() ==> {
            &&& is_generator(gens[i].0, gens[i].1, max_c)
            &&& ts[i] == euclid_triple(gens[i].0, gens[i].1)
            &&& before(gens[i], m, n)
        }
    &&& forall|mp: int, np: int|
        #[trigger] is_generator(mp, np, max_c) && before((mp, np), m, n) ==> listed(gens, mp, np)
    &&& forall|i: int, j: int|
        #![trigger ts[i], ts[j]]
        0 <= i < j < ts.len() ==> precedes(ts[i], ts[j])
}

proof fn lemma_prefix_start(max_c: int)
    ensures
        primitive_prefix(Seq::empty(), Seq::empty(), max_c, 2, 0),
{
    reveal(primitive_prefix);
    assert forall|mp: int, np: int|
        #[trigger] is_generator(mp, np, max_c) && before((mp, np), 2, 0) implies listed(
        Seq::<(int, int)>::empty(),
        mp,
        np,
    ) by {}
}

proof fn lemma_prefix_sorted(ts: Seq<(int, int, int)>, gens: Seq<(int, int)>, max_c: int, m: int, n: int)
    requires
        primitive_prefix(ts, gens, max_c, m, n),
    ensures
        ts.len() == gens.len(),
        forall|i: int, j: int| 0 <= i < j < ts.len() ==> ts[i].2 <= ts[j].2,
{
    reveal(primitive_prefix);
}

/// A pair that is no generator is passed over.
proof fn lemma_prefix_skip(ts: Seq<(int, int, int)>, gens: Seq<(int, int)>, max_c: int, m: int, n: int)
    requires
        primitive_prefix(ts, gens, max_c, m, n),
        !is_generator(m, n, max_c),
    ensures
        primitive_prefix(ts, gens, max_c, m, n + 1),
{
    reveal(primitive_prefix);
}

/// Once no pair `(m, n')` with `n' >= n` is a generator, the row `m` is done.
proof fn lemma_prefix_row_end(ts: Seq<(int, int, int)>, gens: Seq<(int, int)>, max_c: int, m: int, n: int)
    requires
        primitive_prefix(ts, gens, max_c, m, n),
        1 <= n,
        n >= m || m * m + n * n > max_c,
    ensures
        primitive_prefix(ts, gens, max_c, m + 1, 0),
{
    reveal(primitive_prefix);
    assert forall|mp: int, np: int|
        #[trigger] is_generator(mp, np, max_c) && before((mp, np), m + 1, 0) implies listed(
        gens,
        mp,
        np,
    ) by {
        if mp == m && np >= n {
            assert(np * np >= n * n) by (nonlinear_arith)
                requires
                    np >= n >= 1,
            ;
        }
    }
}

/// A generator's triple, inserted after every triple with a hypotenuse at
/// most its own, keeps the list in order.
proof fn lemma_prefix_insert(
    ts: Seq<(int, int, int)>,
    gens: Seq<(int, int)>,
    max_c: int,
    m: int,
    n: int,
    pos: int,
)
    requires
        primitive_prefix(ts, gens, max_c, m, n),
        is_generator(m, n, max_c),
        0 <= pos <= ts.len(),
        forall|k: int| 0 <= k < pos ==> ts[k].2 <= euclid_triple(m, n).2,
        forall|k: int| pos <= k < ts.len() ==> ts[k].2 > euclid_triple(m, n).2,
    ensures
        primitive_prefix(
            ts.insert(pos, euclid_triple(m, n)),
            gens.insert(pos, (m, n)),
            max_c,
            m,
            n + 1,
        ),
{
    reveal(primitive_prefix);
    let t = euclid_triple(m, n);
    let g = (m, n);
    let ts2 = ts.insert(pos, t);
    let gens2 = gens.insert(pos, g);
    ts.insert_ensures(pos, t);
    gens.insert_ensures(pos, g);
    assert forall|i: int|
        #![trigger gens2[i]]
        0 <= i < gens2.len() implies {
        &&& is_generator(gens2[i].0, gens2[i].1, max_c)
        &&& ts2[i] == euclid_triple(gens2[i].0, gens2[i].1)
        &&& before(gens2[i], m, n + 1)
    } by {
        if i < pos {
            assert(gens2[i] == gens[i]);
            assert(ts2[i] == ts[i]);
        } else if i > pos {
            assert(gens2[i] == gens[i - 1]);
            assert(ts2[i] == ts[i - 1]);
        }
    }
    assert forall|mp: int, np: int|
        #[trigger] is_generator(mp, np, max_c) && before((mp, np), m, n + 1) implies listed(
        gens2,
        mp,
        np,
    ) by {
        lemma_listed_insert(gens, pos, g, mp, np);
    }
    assert forall|i: int, j: int|
        #![trigger ts2[i], ts2[j]]
        0 <= i < j < ts2.len() implies precedes(ts2[i], ts2[j]) by {
        if j < pos {
            assert(ts2[i] == ts[i]);
            assert(ts2[j] == ts[j]);
        } else if i > pos {
            assert(ts2[i] == ts[i - 1]);
            assert(ts2[j] == ts[j - 1]);
        } else if i < pos && j > pos {
            assert(ts2[i] == ts[i]);
            assert(ts2[j] == ts[j - 1]);
        } else if i == pos {
            assert(ts2[j] == ts[j - 1]);
        } else {
            assert(ts2[i] == ts[i]);
            let gi = gens[i];
            assert(ts[i] == euclid_triple(gi.0, gi.1));
            if ts[i].2 == t.2 {
                lemma_same_hypotenuse_order(gi.0, gi.1, m, n);
            }
        }
    }
}

/// After the last row every generator is listed.
proof fn lemma_prefix_done(
    ts: Seq<(int, int, int)>,
    gens: Seq<(int, int)>,
    max_c: int,
    m: int,
    r: int,
)
    requires
        primitive_prefix(ts, gens, max_c, m, 0),
        0 <= r,
        max_c < (r + 1) * (r + 1),
        m > r,
    ensures
        is_primitive_list(ts, max_c),
{
    reveal(primitive_prefix);
    assert forall|mp: int, np: int| #[trigger] is_generator(mp, np, max_c) implies ts.contains(
        euclid_triple(mp, np),
    ) by {
        if mp >= m {
            assert(mp * mp > max_c) by (nonlinear_arith)
                requires
                    mp >= r + 1,
                    max_c < (r + 1) * (r + 1),
                    r >= 0,
            ;
            assert(np * np >= 0) by (nonlinear_arith);
        }
        assert(listed(gens, mp, np));
        let i = choose|i: int| 0 <= i < gens.len() && gens[i] == (mp, np);
        assert(ts[i] == euclid_triple(mp, np));
    }
    assert forall|i: int| 0 <= i < ts.len() implies from_generator(#[trigger] ts[i], max_c) by {
        assert(ts[i] == euclid_triple(gens[i].0, gens[i].1));
    }
    assert forall|i: int| 0 <= i < ts.len() implies is_primitive_triple(#[trigger] ts[i]) && ts[i].2
        <= max_c by {
        assert(ts[i] == euclid_triple(gens[i].0, gens[i].1));
        lemma_euclid_triple_primitive(gens[i].0, gens[i].1);
    }
}

proof fn lemma_views_insert(v: Seq<PythagoreanTriple>, pos: int, t: PythagoreanTriple)
    requires
        0 <= pos <= v.len(),
    ensures
        views(v.insert(pos, t)) == views(v).insert(pos, t@),
{
    v.insert_ensures(pos, t);
    views(v).insert_ensures(pos, t@);
    assert(views(v.insert(pos, t)) =~= views(v).insert(pos, t@));
}

/// `t` with every side multiplied by `k`.
pub open spec fn scale(t: (int, int, int), k: int) -> (int, int, int) {
    (k * t.0, k * t.1, k * t.2)
}

/// `gcd(a, b, c)` of a triple.
pub open spec fn triple_gcd(t: (int, int, int)) -> int {
    spec_gcd(spec_gcd(t.0 as nat, t.1 as nat), t.2 as nat) as int
}

/// A triple divided by the gcd of its sides: its primitive triple.
pub open spec fn primitive_part(t: (int, int, int)) -> (int, int, int) {
    let g = triple_gcd(t);
    (t.0 / g, t.1 / g, t.2 / g)
}

/// Order of the list that `all` returns: by hypotenuse, then in the order of
/// the primitive triples that the two are multiples of.
pub open spec fn all_precedes(s: (int, int, int), t: (int, int, int)) -> bool {
    s.2 < t.2 || (s.2 == t.2 && precedes(primitive_part(s), primitive_part(t)))
}

/// `(m, n, k)` gives the multiple `k` of a generator's triple that fits under `max_c`.
pub open spec fn is_multiple_generator(m: int, n: int, k: int, max_c: int) -> bool {
    &&& is_generator(m, n, max_c)
    &&& 1 <= k
    &&& k * euclid_triple(m, n).2 <= max_c
}

/// `t` is a multiple of some generator's triple, with hypotenuse at most `max_c`.
pub open spec fn from_multiple_generator(t: (int, int, int), max_c: int) -> bool {
    exists|m: int, n: int, k: int|
        #[trigger] scale(euclid_triple(m, n), k) == t && is_multiple_generator(m, n, k, max_c)
}

/// `ts` lists every multiple of every primitive triple with hypotenuse at
/// most `max_c`, once each, in `all_precedes` order.
pub open spec fn is_all_list(ts: Seq<(int, int, int)>, max_c: int) -> bool {
    &&& forall|i: int| 0 <= i < ts.len() ==> from_multiple_generator(#[trigger] ts[i], max_c)
    &&& forall|m: int, n: int, k: int|
        #[trigger] is_multiple_generator(m, n, k, max_c) ==> ts.contains(
            scale(euclid_triple(m, n), k),
        )
    &&& forall|i: int, j: int|
        #![trigger ts[i], ts[j]]
        0 <= i < j < ts.len() ==> all_precedes(ts[i], ts[j])
}

/// A multiple `k` of a primitive triple has gcd `k` and that primitive triple as
/// its primitive part; it is again a Pythagorean triple.
pub proof fn lemma_scaled_primitive(t: (int, int, int), k: int)
    requires
        is_primitive_triple(t),
        t.2 >= 0,
        k >= 1,
    ensures
        t.1 < t.2,
        triple_gcd(scale(t, k)) == k,
        primitive_part(scale(t, k)) == t,
        0 < scale(t, k).0 <= scale(t, k).1,
        scale(t, k).0 * scale(t, k).0 + scale(t, k).1 * scale(t, k).1 == scale(t, k).2 * scale(
            t,
            k,
        ).2,
{
    let s = scale(t, k);
    assert(t.1 < t.2) by (nonlinear_arith)
        requires
            0 < t.0 <= t.1,
            t.2 >= 0,
            t.0 * t.0 + t.1 * t.1 == t.2 * t.2,
    {
        assert(t.0 * t.0 > 0);
        if t.2 <= t.1 {
            assert(t.2 * t.2 <= t.1 * t.1);
        }
    }
    assert(0 < s.0 <= s.1 && s.2 > 0) by (nonlinear_arith)
        requires
            0 < t.0 <= t.1,
            t.2 > 0,
            k >= 1,
            s == scale(t, k),
    ;
    let kk = k * k;
    let (t0, t1, t2) = t;
    assert((k * t0) * (k * t0) == kk * (t0 * t0)) by (nonlinear_arith)
        requires
            kk == k * k,
    ;
    assert((k * t1) * (k * t1) == kk * (t1 * t1)) by (nonlinear_arith)
        requires
            kk == k * k,
    ;
    assert((k * t2) * (k * t2) == kk * (t2 * t2)) by (nonlinear_arith)
        requires
            kk == k * k,
    ;
    assert(kk * (t0 * t0) + kk * (t1 * t1) == kk * (t0 * t0 + t1 * t1)) by (nonlinear_arith);
    assert(s.0 * s.0 + s.1 * s.1 == s.2 * s.2);
    let kn = k as nat;
    let a = t.0 as nat;
    let b = t.1 as nat;
    let c = t.2 as nat;
    lemma_gcd_scale(kn, a, b);
    assert(s.0 as nat == kn * a && s.1 as nat == kn * b && s.2 as nat == kn * c);
    lemma_gcd_scale(kn, spec_gcd(a, b), c);
    assert(triple_gcd(s) == k * 1);
    assert(s.0 / k == t.0 && s.1 / k == t.1 && s.2 / k == t.2) by (nonlinear_arith)
        requires
            s == scale(t, k),
            k >= 1,
    {
        vstd::arithmetic::div_mod::lemma_div_multiples_vanish(t.0, k);
        vstd::arithmetic::div_mod::lemma_div_multiples_vanish(t.1, k);
        vstd::arithmetic::div_mod::lemma_div_multiples_vanish(t.2, k);
    }
}

/// What `all(max_c)` has built from the primitive list `ps` once it has gone
/// through every pair (index, multiplier) before `(idx, k)`.
#[verifier::opaque]
pub open spec fn all_prefix(
    ts: Seq<(int, int, int)>,
    w: Seq<(int, int)>,
    ps: Seq<(int, int, int)>,
    max_c: int,
    idx: int,
    k: int,
) -> bool {
    &&& ts.len() == w.len()
    &&& forall|i: int|
        #![trigger w[i]]
        #![trigger ts[i]]
        0 <= i < w.len() ==> {
            &&& 0 <= w[i].0 < ps.len()
            &&& 1 <= w[i].1
            &&& w[i].1 * ps[w[i].0].2 <= max_c
            &&& ts[i] == scale(ps[w[i].0], w[i].1)
            &&& before(w[i], idx, k)
        }
    &&& forall|j: int, kk: int|
        0 <= j < ps.len() && 1 <= kk && #[trigger] (kk * ps[j].2) <= max_c && before(
            (j, kk),
            idx,
            k,
        ) ==> listed(w, j, kk)
    &&& forall|i: int, j: int|
        #![trigger ts[i], ts[j]]
        0 <= i < j < ts.len() ==> ts[i].2 < ts[j].2 || (ts[i].2 == ts[j].2 && w[i].0 < w[j].0)
}

proof fn lemma_all_start(ps: Seq<(int, int, int)>, max_c: int)
    ensures
        all_prefix(Seq::empty(), Seq::empty(), ps, max_c, 0, 0),
{
    reveal(all_prefix);
}

proof fn lemma_all_sorted(
    ts: Seq<(int, int, int)>,
    w: Seq<(int, int)>,
    ps: Seq<(int, int, int)>,
    max_c: int,
    idx: int,
    k: int,
)
    requires
        all_prefix(ts, w, ps, max_c, idx, k),
    ensures
        ts.len() == w.len(),
        forall|i: int, j: int| 0 <= i < j < ts.len() ==> ts[i].2 <= ts[j].2,
{
    reveal(all_prefix);
}

/// Multiplier 0 is never used, so a row starts at 1.
proof fn lemma_all_row_start(
    ts: Seq<(int, int, int)>,
    w: Seq<(int, int)>,
    ps: Seq<(int, int, int)>,
    max_c: int,
    idx: int,
)
    requires
        all_prefix(ts, w, ps, max_c, idx, 0),
    ensures
        all_prefix(ts, w, ps, max_c, idx, 1),
{
    reveal(all_prefix);
}

/// Once `k * c` passes `max_c`, no larger multiplier fits either.
proof fn lemma_all_row_end(
    ts: Seq<(int, int, int)>,
    w: Seq<(int, int)>,
    ps: Seq<(int, int, int)>,
    max_c: int,
    idx: int,
    k: int,
)
    requires
        all_prefix(ts, w, ps, max_c, idx, k),
        0 <= idx < ps.len(),
        ps[idx].2 > 0,
        1 <= k,
        k * ps[idx].2 > max_c,
    ensures
        all_prefix(ts, w, ps, max_c, idx + 1, 0),
{
    reveal(all_prefix);
    assert forall|j: int, kk: int|
        0 <= j < ps.len() && 1 <= kk && #[trigger] (kk * ps[j].2) <= max_c && before(
            (j, kk),
            idx + 1,
            0,
        ) implies listed(w, j, kk) by {
        if j == idx && kk >= k {
            assert(kk * ps[j].2 >= k * ps[j].2) by (nonlinear_arith)
                requires
                    kk >= k,
                    ps[j].2 > 0,
            ;
        }
    }
}

proof fn lemma_all_insert(
    ts: Seq<(int, int, int)>,
    w: Seq<(int, int)>,
    ps: Seq<(int, int, int)>,
    max_c: int,
    idx: int,
    k: int,
    pos: int,
)
    requires
        all_prefix(ts, w, ps, max_c, idx, k),
        0 <= idx < ps.len(),
        ps[idx].2 > 0,
        1 <= k,
        k * ps[idx].2 <= max_c,
        0 <= pos <= ts.len(),
        forall|q: int| 0 <= q < pos ==> ts[q].2 <= k * ps[idx].2,
        forall|q: int| pos <= q < ts.len() ==> ts[q].2 > k * ps[idx].2,
    ensures
        all_prefix(
            ts.insert(pos, scale(ps[idx], k)),
            w.insert(pos, (idx, k)),
            ps,
            max_c,
            idx,
            k + 1,
        ),
{
    reveal(all_prefix);
    let t = scale(ps[idx], k);
    let g = (idx, k);
    let ts2 = ts.insert(pos, t);
    let w2 = w.insert(pos, g);
    ts.insert_ensures(pos, t);
    w.insert_ensures(pos, g);
    assert forall|i: int|
        #![trigger w2[i]]
        0 <= i < w2.len() implies {
        &&& 0 <= w2[i].0 < ps.len()
        &&& 1 <= w2[i].1
        &&& w2[i].1 * ps[w2[i].0].2 <= max_c
        &&& ts2[i] == scale(ps[w2[i].0], w2[i].1)
        &&& before(w2[i], idx, k + 1)
    } by {
        if i < pos {
            assert(w2[i] == w[i]);
            assert(ts2[i] == ts[i]);
        } else if i > pos {
            assert(w2[i] == w[i - 1]);
            assert(ts2[i] == ts[i - 1]);
        }
    }
    assert forall|j: int, kk: int|
        0 <= j < ps.len() && 1 <= kk && #[trigger] (kk * ps[j].2) <= max_c && before(
            (j, kk),
            idx,
            k + 1,
        ) implies listed(w2, j, kk) by {
        lemma_listed_insert(w, pos, g, j, kk);
    }
    assert forall|i: int, j: int|
        #![trigger ts2[i], ts2[j]]
        0 <= i < j < ts2.len() implies ts2[i].2 < ts2[j].2 || (ts2[i].2 == ts2[j].2 && w2[i].0
        < w2[j].0) by {
        if j < pos {
            assert(ts2[i] == ts[i] && w2[i] == w[i]);
            assert(ts2[j] == ts[j] && w2[j] == w[j]);
        } else if i > pos {
            assert(ts2[i] == ts[i - 1] && w2[i] == w[i - 1]);
            assert(ts2[j] == ts[j - 1] && w2[j] == w[j - 1]);
        } else if i < pos && j > pos {
            assert(ts2[i] == ts[i]);
            assert(ts2[j] == ts[j - 1]);
        } else if i == pos {
            assert(ts2[j] == ts[j - 1]);
        } else {
            assert(ts2[i] == ts[i] && w2[i] == w[i]);
            let wi = w[i];
            if wi.0 == idx {
                assert(wi.1 < k);
                assert(wi.1 * ps[idx].2 < k * ps[idx].2) by (nonlinear_arith)
                    requires
                        wi.1 < k,
                        ps[idx].2 > 0,
                ;
                assert(ts[i].2 == wi.1 * ps[idx].2);
            }
        }
    }
}

/// After the last primitive triple, the list is the whole `all` list.
proof fn lemma_all_done(
    ts: Seq<(int, int, int)>,
    w: Seq<(int, int)>,
    ps: Seq<(int, int, int)>,
    max_c: int,
)
    requires
        all_prefix(ts, w, ps, max_c, ps.len() as int, 0),
        is_primitive_list(ps, max_c),
    ensures
        is_all_list(ts, max_c),
{
    reveal(all_prefix);
    assert forall|i: int| 0 <= i < ts.len() implies from_multiple_generator(
        #[trigger] ts[i],
        max_c,
    ) by {
        let p = ps[w[i].0];
        assert(from_generator(p, max_c));
        let (m, n) = choose|m: int, n: int|
            #[trigger] euclid_triple(m, n) == p && is_generator(m, n, max_c);
        assert(scale(euclid_triple(m, n), w[i].1) == ts[i]);
        assert(is_multiple_generator(m, n, w[i].1, max_c));
    }
    assert forall|m: int, n: int, k: int| #[trigger]
        is_multiple_generator(m, n, k, max_c) implies ts.contains(
        scale(euclid_triple(m, n), k),
    ) by {
        assert(ps.contains(euclid_triple(m, n)));
        let j = choose|j: int| 0 <= j < ps.len() && ps[j] == euclid_triple(m, n);
        assert(k * ps[j].2 <= max_c);
        assert(listed(w, j, k));
        let i = choose|i: int| 0 <= i < w.len() && w[i] == (j, k);
        assert(ts[i] == scale(euclid_triple(m, n), k));
    }
    assert forall|i: int, j: int|
        #![trigger ts[i], ts[j]]
        0 <= i < j < ts.len() implies all_precedes(ts[i], ts[j]) by {
        if ts[i].2 == ts[j].2 {
            let pi = ps[w[i].0];
            let pj = ps[w[j].0];
            assert(is_primitive_triple(pi));
            assert(is_primitive_triple(pj));
            lemma_scaled_primitive(pi, w[i].1);
            lemma_scaled_primitive(pj, w[j].1);
            assert(precedes(ps[w[i].0], ps[w[j].0]));
        }
    }
}

/// Two triples share a number: a side of one equals a side of the other.
pub open spec fn spec_shares_number(s: (int, int, int), t: (int, int, int)) -> bool {
    let xs = seq![s.0, s.1, s.2];
    let ys = seq![t.0, t.1, t.2];
    exists|i: int, j: int| 0 <= i < 3 && 0 <= j < 3 && #[trigger] xs[i] == #[trigger] ys[j]
}

/// Every primitive triple up to `max_c` is among all triples up to `max_c`
/// (it is its own multiple by 1).
pub proof fn lemma_primitive_in_all(ps: Seq<(int, int, int)>, ts: Seq<(int, int, int)>, max_c: int)
    requires
        is_primitive_list(ps, max_c),
        is_all_list(ts, max_c),
    ensures
        forall|i: int| 0 <= i < ps.len() ==> ts.contains(#[trigger] ps[i]),
{
    assert forall|i: int| 0 <= i < ps.len() implies ts.contains(#[trigger] ps[i]) by {
        assert(from_generator(ps[i], max_c));
        let (m, n) = choose|m: int, n: int|
            #[trigger] euclid_triple(m, n) == ps[i] && is_generator(m, n, max_c);
        let e = euclid_triple(m, n);
        assert(1 * e.2 == e.2);
        assert(is_multiple_generator(m, n, 1, max_c));
        assert(scale(e, 1) == e);
    }
}

/// Every triple that `all(max_c)` lists is a Pythagorean triple `a² + b² = c²`
/// with `0 < a <= b` and `c <= max_c`, whose primitive part is a primitive
/// triple listed by `primitive(max_c)`.
pub proof fn lemma_all_pythagorean(ts: Seq<(int, int, int)>, ps: Seq<(int, int, int)>, max_c: int)
    requires
        is_all_list(ts, max_c),
        is_primitive_list(ps, max_c),
    ensures
        forall|i: int|
            0 <= i < ts.len() ==> {
                &&& 0 < (#[trigger] ts[i]).0 <= ts[i].1
                &&& ts[i].0 * ts[i].0 + ts[i].1 * ts[i].1 == ts[i].2 * ts[i].2
                &&& ts[i].2 <= max_c
                &&& is_primitive_triple(primitive_part(ts[i]))
                &&& ps.contains(primitive_part(ts[i]))
            },
{
    assert forall|i: int| 0 <= i < ts.len() implies {
        &&& 0 < (#[trigger] ts[i]).0 <= ts[i].1
        &&& ts[i].0 * ts[i].0 + ts[i].1 * ts[i].1 == ts[i].2 * ts[i].2
        &&& ts[i].2 <= max_c
        &&& is_primitive_triple(primitive_part(ts[i]))
        &&& ps.contains(primitive_part(ts[i]))
    } by {
        assert(from_multiple_generator(ts[i], max_c));
        let (m, n, k) = choose|m: int, n: int, k: int|
            #[trigger] scale(euclid_triple(m, n), k) == ts[i] && is_multiple_generator(
                m,
                n,
                k,
                max_c,
            );
        let e = euclid_triple(m, n);
        lemma_euclid_triple_primitive(m, n);
        assert(e.2 >= 0) by (nonlinear_arith)
            requires
                e.2 == m * m + n * n,
        ;
        lemma_scaled_primitive(e, k);
        assert(ps.contains(e));
    }
}

/// Sharing a number is symmetric, so the connection graph of triples is
/// undirected.
pub proof fn lemma_shares_number_symmetric(s: (int, int, int), t: (int, int, int))
    ensures
        spec_shares_number(s, t) == spec_shares_number(t, s),
{
    let xs = seq![s.0, s.1, s.2];
    let ys = seq![t.0, t.1, t.2];
    if spec_shares_number(s, t) {
        let (i, j) = choose|i: int, j: int| 0 <= i < 3 && 0 <= j < 3 && #[trigger] xs[i] == #[trigger] ys[j];
        assert(ys[j] == xs[i]);
    }
    if spec_shares_number(t, s) {
        let (i, j) = choose|i: int, j: int| 0 <= i < 3 && 0 <= j < 3 && #[trigger] ys[i] == #[trigger] xs[j];
        assert(xs[j] == ys[i]);
    }
}

/// The list of primitive triples up to `max_c` is determined by `max_c`:
/// the contract of `primitive` admits a single result.
pub proof fn lemma_primitive_list_unique(ps1: Seq<(int, int, int)>, ps2: Seq<(int, int, int)>, max_c: int)
    requires
        is_primitive_list(ps1, max_c),
        is_primitive_list(ps2, max_c),
    ensures
        ps1 == ps2,
{
    let lt = |s: (int, int, int), t: (int, int, int)| precedes(s, t);
    assert(strictly_sorted(ps1, lt));
    assert(strictly_sorted(ps2, lt));
    assert(is_asymmetric(lt));
    assert forall|x: (int, int, int)| ps1.contains(x) <==> ps2.contains(x) by {
        if ps1.contains(x) {
            let i = choose|i: int| 0 <= i < ps1.len() && ps1[i] == x;
            assert(from_generator(ps1[i], max_c));
            let (m, n) = choose|m: int, n: int|
                #[trigger] euclid_triple(m, n) == ps1[i] && is_generator(m, n, max_c);
            assert(ps2.contains(euclid_triple(m, n)));
        }
        if ps2.contains(x) {
            let i = choose|i: int| 0 <= i < ps2.len() && ps2[i] == x;
            assert(from_generator(ps2[i], max_c));
            let (m, n) = choose|m: int, n: int|
                #[trigger] euclid_triple(m, n) == ps2[i] && is_generator(m, n, max_c);
            assert(ps1.contains(euclid_triple(m, n)));
        }
    }
    lemma_sorted_lists_equal(ps1, ps2, lt);
}

/// The list of all triples up to `max_c` is determined by `max_c`: the
/// contract of `all` admits a single result.
pub proof fn lemma_all_list_unique(ts1: Seq<(int, int, int)>, ts2: Seq<(int, int, int)>, max_c: int)
    requires
        is_all_list(ts1, max_c),
        is_all_list(ts2, max_c),
    ensures
        ts1 == ts2,
{
    let lt = |s: (int, int, int), t: (int, int, int)| all_precedes(s, t);
    assert(strictly_sorted(ts1, lt));
    assert(strictly_sorted(ts2, lt));
    assert(is_asymmetric(lt));
    assert forall|x: (int, int, int)| ts1.contains(x) <==> ts2.contains(x) by {
        if ts1.contains(x) {
            let i = choose|i: int| 0 <= i < ts1.len() && ts1[i] == x;
            assert(from_multiple_generator(ts1[i], max_c));
            let (m, n, k) = choose|m: int, n: int, k: int|
                #[trigger] scale(euclid_triple(m, n), k) == ts1[i] && is_multiple_generator(
                    m,
                    n,
                    k,
                    max_c,
                );
            assert(ts2.contains(scale(euclid_triple(m, n), k)));
        }
        if ts2.contains(x) {
            let i = choose|i: int| 0 <= i < ts2.len() && ts2[i] == x;
            assert(from_multiple_generator(ts2[i], max_c));
            let (m, n, k) = choose|m: int, n: int, k: int|
                #[trigger] scale(euclid_triple(m, n), k) == ts2[i] && is_multiple_generator(
                    m,
                    n,
                    k,
                    max_c,
                );
            assert(ts1.contains(scale(euclid_triple(m, n), k)));
        }
    }
    lemma_sorted_lists_equal(ts1, ts2, lt);
}

/// Squares keep the parity; an even square is 0 and an odd one 1 modulo 4.
proof fn lemma_square_parity(x: int)
    requires
        x >= 0,
    ensures
        (x * x) % 2 == x % 2,
        x % 2 == 0 ==> (x * x) % 4 == 0,
        x % 2 == 1 ==> (x * x) % 4 == 1,
{
    let h = x / 2;
    let r = x % 2;
    assert(x == 2 * h + r);
    assert(x * x == 4 * (h * h + h * r) + r * r) by (nonlinear_arith)
        requires
            x == 2 * h + r,
    ;
    assert(r * r == r) by (nonlinear_arith)
        requires
            0 <= r <= 1,
    ;
}

/// Euclid's theorem: every primitive Pythagorean triple is the triple of a
/// coprime pair `m > n >= 1` of opposite parity.
pub proof fn lemma_primitive_triple_has_generator(t: (int, int, int)) -> (mn: (int, int))
    requires
        is_primitive_triple(t),
        t.2 >= 0,
    ensures
        1 <= mn.1 < mn.0,
        (mn.0 - mn.1) % 2 == 1,
        spec_gcd(mn.0 as nat, mn.1 as nat) == 1,
        euclid_triple(mn.0, mn.1) == t,
{
    let a = t.0;
    let b = t.1;
    let c = t.2;
    let g1 = spec_gcd(a as nat, b as nat);
    lemma_square_parity(a);
    lemma_square_parity(b);
    lemma_square_parity(c);
    // exactly one leg is odd
    if a % 2 == 0 && b % 2 == 0 {
        assert((c * c) % 2 == 0);
        lemma_divides_multiple(2, a / 2);
        lemma_divides_multiple(2, b / 2);
        lemma_divides_multiple(2, c / 2);
        lemma_common_divisor_divides_gcd(a as nat, b as nat, 2);
        lemma_common_divisor_divides_gcd(g1, c as nat, 2);
        assert(false);
    }
    if a % 2 == 1 && b % 2 == 1 {
        assert((c * c) % 4 == 2);
        assert(false);
    }
    let o = if a % 2 == 1 { a } else { b };
    let e = if a % 2 == 1 { b } else { a };
    assert(o * o + e * e == c * c);
    assert(o % 2 == 1 && e % 2 == 0);
    lemma_square_parity(o);
    lemma_square_parity(e);
    assert(c % 2 == 1);
    assert(c > o) by (nonlinear_arith)
        requires
            o * o + e * e == c * c,
            e > 0,
            o > 0,
            c >= 0,
    {
        assert(e * e > 0);
        if c <= o {
            assert(c * c <= o * o);
        }
    }
    let x = (c + o) / 2;
    let y = (c - o) / 2;
    let z = e / 2;
    assert(c + o == 2 * x && c - o == 2 * y && e == 2 * z);
    assert(y >= 1 && x > y && z >= 1);
    assert(x * y == z * z) by (nonlinear_arith)
        requires
            c + o == 2 * x,
            c - o == 2 * y,
            e == 2 * z,
            o * o + e * e == c * c,
    {
        assert((c + o) * (c - o) == c * c - o * o);
        assert(4 * (x * y) == (2 * x) * (2 * y));
        assert(4 * (z * z) == (2 * z) * (2 * z));
    }
    // gcd(o, c) == 1
    lemma_gcd_positive(o as nat, c as nat);
    lemma_gcd_divides(o as nat, c as nat);
    let d = spec_gcd(o as nat, c as nat);
    lemma_divides_quotient(d as int, o);
    lemma_divides_quotient(d as int, c);
    let o1 = o / d as int;
    let c1 = c / d as int;
    assert(e * e == (d * d) * (c1 * c1 - o1 * o1)) by (nonlinear_arith)
        requires
            o == d * o1,
            c == d * c1,
            o * o + e * e == c * c,
    ;
    assert(d * d > 0) by (nonlinear_arith)
        requires
            d > 0,
    ;
    lemma_divides_multiple((d * d) as int, c1 * c1 - o1 * o1);
    assert((e * e) as nat == (e as nat) * (e as nat));
    lemma_square_divides(d, e as nat);
    lemma_common_divisor_divides_gcd(a as nat, b as nat, d as int);
    lemma_common_divisor_divides_gcd(g1, c as nat, d as int);
    lemma_divisor_le(d as int, 1);
    assert(d == 1);
    // gcd(x, y) == 1
    lemma_gcd_positive(x as nat, y as nat);
    lemma_gcd_divides(x as nat, y as nat);
    let dxy = spec_gcd(x as nat, y as nat) as int;
    lemma_divides_lincomb(dxy, x, y, 1, 1);
    lemma_divides_lincomb(dxy, x, y, 1, -1);
    assert(1 * x + 1 * y == c && 1 * x + (-1) * y == o);
    lemma_common_divisor_divides_gcd(o as nat, c as nat, dxy);
    lemma_divisor_le(dxy, 1);
    // gcd(y, x) == 1 too
    lemma_gcd_positive(y as nat, x as nat);
    lemma_gcd_divides(y as nat, x as nat);
    let dyx = spec_gcd(y as nat, x as nat) as int;
    lemma_common_divisor_divides_gcd(x as nat, y as nat, dyx);
    lemma_divisor_le(dyx, 1);
    // x and y are squares
    assert((x * y) as nat == (x as nat) * (y as nat));
    assert((z * z) as nat == (z as nat) * (z as nat));
    assert(y * x == z * z) by (nonlinear_arith)
        requires
            x * y == z * z,
    ;
    assert((y as nat) * (x as nat) == (z as nat) * (z as nat));
    lemma_coprime_product_square(x as nat, y as nat, z as nat);
    lemma_coprime_product_square(y as nat, x as nat, z as nat);
    let m = spec_gcd(x as nat, z as nat) as int;
    let n = spec_gcd(y as nat, z as nat) as int;
    assert(x == m * m && y == n * n);
    assert(m >= 1 && n >= 1) by (nonlinear_arith)
        requires
            x == m * m,
            y == n * n,
            x >= 1,
            y >= 1,
            m >= 0,
            n >= 0,
    ;
    assert(m > n) by (nonlinear_arith)
        requires
            x == m * m,
            y == n * n,
            x > y,
            n >= 1,
            m >= 1,
    {
        if m <= n {
            assert(m * m <= n * n);
        }
    }
    // 2mn == e
    assert((2 * m * n) * (2 * m * n) == e * e) by (nonlinear_arith)
        requires
            x == m * m,
            y == n * n,
            x * y == z * z,
            e == 2 * z,
    ;
    assert(2 * m * n >= 0) by (nonlinear_arith)
        requires
            m >= 1,
            n >= 1,
    ;
    lemma_square_root_unique(2 * m * n, e);
    // gcd(m, n) == 1
    lemma_gcd_positive(m as nat, n as nat);
    lemma_gcd_divides(m as nat, n as nat);
    let gmn = spec_gcd(m as nat, n as nat) as int;
    lemma_divides_lincomb(gmn, m, n, m, 0);
    lemma_divides_lincomb(gmn, m, n, 0, n);
    assert(m * m + 0 * n == x && 0 * m + n * n == y);
    lemma_common_divisor_divides_gcd(x as nat, y as nat, gmn);
    lemma_divisor_le(gmn, 1);
    // opposite parity
    lemma_square_parity(m);
    lemma_square_parity(n);
    assert(m * m + n * n == c);
    assert((m - n) % 2 == 1);
    assert(m * m - n * n == o);
    let r = euclid_triple(m, n);
    if a % 2 == 1 {
        assert(r == t);
    } else {
        assert(e < o);
        assert(r == t);
    }
    (m, n)
}

/// Every primitive Pythagorean triple with hypotenuse at most `max_c` is
/// listed by `primitive(max_c)`.
pub proof fn lemma_primitive_complete(ps: Seq<(int, int, int)>, max_c: int, t: (int, int, int))
    requires
        is_primitive_list(ps, max_c),
        is_primitive_triple(t),
        0 <= t.2 <= max_c,
    ensures
        ps.contains(t),
{
    let (m, n) = lemma_primitive_triple_has_generator(t);
    assert(is_generator(m, n, max_c));
}

/// Every Pythagorean triple `0 < a <= b`, `a² + b² = c²` with `c <= max_c`
/// is listed by `all(max_c)`.
pub proof fn lemma_all_complete(ts: Seq<(int, int, int)>, max_c: int, t: (int, int, int))
    requires
        is_all_list(ts, max_c),
        0 < t.0 <= t.1,
        0 <= t.2 <= max_c,
        t.0 * t.0 + t.1 * t.1 == t.2 * t.2,
    ensures
        ts.contains(t),
{
    let a = t.0 as nat;
    let b = t.1 as nat;
    let c = t.2 as nat;
    lemma_gcd_positive(a, b);
    let g1 = spec_gcd(a, b);
    lemma_gcd_positive(g1, c);
    let g = spec_gcd(g1, c);
    lemma_gcd_divides(a, b);
    lemma_gcd_divides(g1, c);
    lemma_divides_trans(g as int, g1 as int, a as int);
    lemma_divides_trans(g as int, g1 as int, b as int);
    lemma_divides_quotient(g as int, a as int);
    lemma_divides_quotient(g as int, b as int);
    lemma_divides_quotient(g as int, c as int);
    let a1 = a / g;
    let b1 = b / g;
    let c1 = c / g;
    assert(a == g * a1 && b == g * b1 && c == g * c1);
    let p = (a1 as int, b1 as int, c1 as int);
    // p is primitive
    lemma_gcd_scale(g, a1, b1);
    lemma_gcd_scale(g, spec_gcd(a1, b1), c1);
    let h = spec_gcd(spec_gcd(a1, b1), c1);
    assert(h == 1) by (nonlinear_arith)
        requires
            g == g * h,
            g > 0,
    ;
    assert(0 < a1 <= b1) by (nonlinear_arith)
        requires
            a == g * a1,
            b == g * b1,
            0 < a <= b,
            g > 0,
    ;
    assert(a1 * a1 + b1 * b1 == c1 * c1) by (nonlinear_arith)
        requires
            a == g * a1,
            b == g * b1,
            c == g * c1,
            a * a + b * b == c * c,
            g > 0,
    {
        assert((g * g) * (a1 * a1 + b1 * b1) == (g * g) * (c1 * c1));
        assert(g * g > 0);
    }
    assert(is_primitive_triple(p));
    let (m, n) = lemma_primitive_triple_has_generator(p);
    let k = g as int;
    assert(k * c1 <= max_c);
    assert(is_multiple_generator(m, n, k, max_c));
    assert(scale(euclid_triple(m, n), k) == t);
}

/// The legs of a triple have no common factor.
pub open spec fn has_coprime_legs(t: (int, int, int)) -> bool {
    spec_gcd(t.0 as nat, t.1 as nat) == 1
}

/// The legs of a primitive triple are coprime.
pub proof fn lemma_primitive_legs_coprime(t: (int, int, int))
    requires
        is_primitive_triple(t),
        t.2 >= 0,
    ensures
        has_coprime_legs(t),
{
    let a = t.0 as nat;
    let b = t.1 as nat;
    let c = t.2 as nat;
    lemma_gcd_positive(a, b);
    lemma_gcd_divides(a, b);
    let g = spec_gcd(a, b);
    lemma_divides_quotient(g as int, a as int);
    lemma_divides_quotient(g as int, b as int);
    let a1 = a / g;
    let b1 = b / g;
    assert(c * c == (g * g) * (a1 * a1 + b1 * b1)) by (nonlinear_arith)
        requires
            a == g * a1,
            b == g * b1,
            a * a + b * b == c * c,
    ;
    assert(g * g > 0) by (nonlinear_arith)
        requires
            g > 0,
    ;
    lemma_divides_multiple((g * g) as int, (a1 * a1 + b1 * b1) as int);
    lemma_square_divides(g, c);
    lemma_divides_self(g as int);
    lemma_common_divisor_divides_gcd(g, c, g as int);
    assert(spec_gcd(g, c) == 1);
    lemma_divisor_le(g as int, 1);
}

/// A multiple `k` of a generator's triple has coprime legs exactly when
/// `k == 1`.
proof fn lemma_multiple_coprime_legs(m: int, n: int, k: int)
    requires
        1 <= n < m,
        (m - n) % 2 == 1,
        spec_gcd(m as nat, n as nat) == 1,
        k >= 1,
    ensures
        has_coprime_legs(scale(euclid_triple(m, n), k)) <==> k == 1,
        scale(euclid_triple(m, n), 1) == euclid_triple(m, n),
{
    let e = euclid_triple(m, n);
    lemma_euclid_triple_primitive(m, n);
    assert(e.2 >= 0) by (nonlinear_arith)
        requires
            e.2 == m * m + n * n,
    ;
    lemma_primitive_legs_coprime(e);
    let s = scale(e, k);
    lemma_gcd_scale(k as nat, e.0 as nat, e.1 as nat);
    assert(s.0 as nat == (k as nat) * (e.0 as nat) && s.1 as nat == (k as nat) * (e.1 as nat)) by (
    nonlinear_arith)
        requires
            s == scale(e, k),
            e.0 > 0,
            e.1 > 0,
            k >= 1,
    ;
    assert(k * 1 == k);
    assert(scale(e, 1) == e);
}

/// The triples of `all(max_c)` whose legs are coprime are, in order, the
/// triples of `primitive(max_c)`.
pub proof fn lemma_all_coprime_legs_are_primitive(
    ts: Seq<(int, int, int)>,
    ps: Seq<(int, int, int)>,
    max_c: int,
)
    requires
        is_all_list(ts, max_c),
        is_primitive_list(ps, max_c),
    ensures
        ts.filter(|t: (int, int, int)| has_coprime_legs(t)) == ps,
{
    let pred = |t: (int, int, int)| has_coprime_legs(t);
    let f = ts.filter(pred);
    let alt = |s: (int, int, int), t: (int, int, int)| all_precedes(s, t);
    let lt = |s: (int, int, int), t: (int, int, int)| precedes(s, t);
    assert(strictly_sorted(ts, alt));
    lemma_filter_sorted(ts, pred, alt);
    // a member of the filtered list is the triple of a generator
    assert forall|x: (int, int, int)| #[trigger] f.contains(x) implies from_generator(x, max_c)
        && primitive_part(x) == x && ts.contains(x) by {
        ts.lemma_filter_contains_rev(pred, x);
        let i = choose|i: int| 0 <= i < f.len() && f[i] == x;
        ts.lemma_filter_pred(pred, i);
        let j = choose|j: int| 0 <= j < ts.len() && ts[j] == x;
        assert(from_multiple_generator(ts[j], max_c));
        let (m, n, k) = choose|m: int, n: int, k: int|
            #[trigger] scale(euclid_triple(m, n), k) == ts[j] && is_multiple_generator(
                m,
                n,
                k,
                max_c,
            );
        lemma_multiple_coprime_legs(m, n, k);
        lemma_euclid_triple_primitive(m, n);
        assert(euclid_triple(m, n).2 >= 0) by (nonlinear_arith)
            requires
                euclid_triple(m, n).2 == m * m + n * n,
        ;
        lemma_scaled_primitive(euclid_triple(m, n), 1);
    }
    assert forall|i: int, j: int| #![trigger f[i], f[j]] 0 <= i < j < f.len() implies lt(
        f[i],
        f[j],
    ) by {
        assert(f.contains(f[i]) && f.contains(f[j]));
        assert(alt(f[i], f[j]));
    }
    assert(strictly_sorted(f, lt));
    assert(strictly_sorted(ps, lt));
    assert(is_asymmetric(lt));
    assert forall|x: (int, int, int)| f.contains(x) <==> ps.contains(x) by {
        if f.contains(x) {
            assert(from_generator(x, max_c));
            let (m, n) = choose|m: int, n: int|
                #[trigger] euclid_triple(m, n) == x && is_generator(m, n, max_c);
            assert(ps.contains(euclid_triple(m, n)));
        }
        if ps.contains(x) {
            let i = choose|i: int| 0 <= i < ps.len() && ps[i] == x;
            assert(from_generator(ps[i], max_c));
            let (m, n) = choose|m: int, n: int|
                #[trigger] euclid_triple(m, n) == ps[i] && is_generator(m, n, max_c);
            lemma_multiple_coprime_legs(m, n, 1);
            assert(1 * euclid_triple(m, n).2 == euclid_triple(m, n).2);
            assert(is_multiple_generator(m, n, 1, max_c));
            assert(ts.contains(scale(euclid_triple(m, n), 1)));
            let j = choose|j: int| 0 <= j < ts.len() && ts[j] == x;
            assert(pred(ts[j]));
            ts.lemma_filter_contains(pred, j);
        }
    }
    lemma_sorted_lists_equal(f, ps, lt);
}

/// Number of multiples `k * p` (`k >= 1`) of the triples `p` of `ps` with
/// hypotenuse at most `max_c`: the sum of `max_c / p.c`.
pub open spec fn multiples_count(ps: Seq<(int, int, int)>, max_c: int) -> int
    decreases ps.len(),
{
    if ps.len() == 0 {
        0
    } else {
        multiples_count(ps.drop_last(), max_c) + max_c / ps.last().2
    }
}

/// The multiples `1 * p, 2 * p, ..., q * p`.
pub open spec fn multiples_of(p: (int, int, int), q: int) -> Seq<(int, int, int)> {
    Seq::new(q as nat, |i: int| scale(p, i + 1))
}

/// The multiples of the triples of `ps` with hypotenuse at most `max_c`,
/// triple by triple.
pub open spec fn multiples_seq(ps: Seq<(int, int, int)>, max_c: int) -> Seq<(int, int, int)>
    decreases ps.len(),
{
    if ps.len() == 0 {
        Seq::empty()
    } else {
        multiples_seq(ps.drop_last(), max_c) + multiples_of(ps.last(), max_c / ps.last().2)
    }
}

/// `x` is a multiple `k * ps[j]`, `k >= 1`, with hypotenuse at most `max_c`.
pub open spec fn is_listed_multiple(ps: Seq<(int, int, int)>, max_c: int, x: (int, int, int)) -> bool {
    exists|j: int, k: int|
        0 <= j < ps.len() && 1 <= k && k * ps[j].2 <= max_c && x == #[trigger] scale(ps[j], k)
}

proof fn lemma_mul_le_div(k: int, c: int, bound: int)
    requires
        c > 0,
        bound >= 0,
        k >= 0,
    ensures
        k * c <= bound <==> k <= bound / c,
{
    let q = bound / c;
    let r = bound % c;
    vstd::arithmetic::div_mod::lemma_fundamental_div_mod(bound, c);
    assert(k * c <= bound <==> k <= q) by (nonlinear_arith)
        requires
            bound == c * q + r,
            0 <= r < c,
            k >= 0,
            c > 0,
    {
        if k <= q {
            assert(k * c <= q * c);
        } else {
            assert(k * c >= (q + 1) * c);
        }
    }
}

proof fn lemma_multiples_seq_len(ps: Seq<(int, int, int)>, max_c: int)
    requires
        max_c >= 0,
        forall|j: int| 0 <= j < ps.len() ==> (#[trigger] ps[j]).2 > 0,
    ensures
        multiples_seq(ps, max_c).len() == multiples_count(ps, max_c),
    decreases ps.len(),
{
    if ps.len() > 0 {
        let d = ps.drop_last();
        assert forall|j: int| 0 <= j < d.len() implies (#[trigger] d[j]).2 > 0 by {
            assert(d[j] == ps[j]);
        }
        lemma_multiples_seq_len(d, max_c);
        assert(ps.last().2 > 0);
        assert(max_c / ps.last().2 >= 0) by (nonlinear_arith)
            requires
                max_c >= 0,
                ps.last().2 > 0,
        ;
    }
}

proof fn lemma_multiples_seq_contains(ps: Seq<(int, int, int)>, max_c: int, x: (int, int, int))
    requires
        max_c >= 0,
        forall|j: int| 0 <= j < ps.len() ==> (#[trigger] ps[j]).2 > 0,
    ensures
        multiples_seq(ps, max_c).contains(x) <==> is_listed_multiple(ps, max_c, x),
    decreases ps.len(),
{
    if ps.len() > 0 {
        let d = ps.drop_last();
        let p = ps.last();
        let q = max_c / p.2;
        assert forall|j: int| 0 <= j < d.len() implies (#[trigger] d[j]).2 > 0 by {
            assert(d[j] == ps[j]);
        }
        lemma_multiples_seq_contains(d, max_c, x);
        let md = multiples_seq(d, max_c);
        let mo = multiples_of(p, q);
        assert(multiples_seq(ps, max_c) == md + mo);
        if (md + mo).contains(x) {
            let i = choose|i: int| 0 <= i < (md + mo).len() && (md + mo)[i] == x;
            if i < md.len() {
                assert(md.contains(x));
                let (j, k) = choose|j: int, k: int|
                    0 <= j < d.len() && 1 <= k && k * d[j].2 <= max_c && x == #[trigger] scale(
                        d[j],
                        k,
                    );
                assert(d[j] == ps[j]);
                assert(x == scale(ps[j], k));
            } else {
                let i2 = i - md.len();
                assert(mo[i2] == x);
                assert(0 <= i2 < q);
                lemma_mul_le_div(i2 + 1, p.2, max_c);
                assert(ps[ps.len() - 1] == p);
                assert(x == scale(ps[ps.len() - 1], i2 + 1));
            }
        }
        if is_listed_multiple(ps, max_c, x) {
            let (j, k) = choose|j: int, k: int|
                0 <= j < ps.len() && 1 <= k && k * ps[j].2 <= max_c && x == #[trigger] scale(
                    ps[j],
                    k,
                );
            if j < d.len() {
                assert(d[j] == ps[j]);
                assert(x == scale(d[j], k));
                assert(is_listed_multiple(d, max_c, x));
                let i = choose|i: int| 0 <= i < md.len() && md[i] == x;
                assert((md + mo)[i] == x);
            } else {
                lemma_mul_le_div(k, p.2, max_c);
                assert(mo[k - 1] == x);
                assert((md + mo)[md.len() + k - 1] == x);
            }
        }
    }
}

proof fn lemma_multiples_seq_no_duplicates(ps: Seq<(int, int, int)>, max_c: int)
    requires
        max_c >= 0,
        ps.no_duplicates(),
        forall|j: int|
            0 <= j < ps.len() ==> is_primitive_triple(#[trigger] ps[j]) && ps[j].2 >= 0,
    ensures
        multiples_seq(ps, max_c).no_duplicates(),
    decreases ps.len(),
{
    if ps.len() > 0 {
        let d = ps.drop_last();
        let p = ps.last();
        assert(ps[ps.len() - 1] == p);
        lemma_scaled_primitive(p, 1);
        let q = max_c / p.2;
        assert forall|j: int| 0 <= j < d.len() implies is_primitive_triple(#[trigger] d[j]) && d[j].2
            >= 0 by {
            assert(d[j] == ps[j]);
        }
        assert(d.no_duplicates()) by {
            assert forall|i: int, j: int| 0 <= i < d.len() && 0 <= j < d.len() && i != j implies d[i]
                != d[j] by {
                assert(d[i] == ps[i] && d[j] == ps[j]);
            }
        }
        lemma_multiples_seq_no_duplicates(d, max_c);
        let md = multiples_seq(d, max_c);
        let mo = multiples_of(p, q);
        assert(mo.no_duplicates()) by {
            assert forall|i: int, j: int| 0 <= i < mo.len() && 0 <= j < mo.len() && i != j implies mo[i]
                != mo[j] by {
                if mo[i] == mo[j] {
                    assert((i + 1) * p.2 == (j + 1) * p.2);
                    assert(i + 1 == j + 1) by (nonlinear_arith)
                        requires
                            (i + 1) * p.2 == (j + 1) * p.2,
                            p.2 > 0,
                    ;
                }
            }
        }
        assert forall|i: int, j: int| 0 <= i < md.len() && 0 <= j < mo.len() implies md[i]
            != mo[j] by {
            let x = md[i];
            assert(md.contains(x));
            assert forall|jj: int| 0 <= jj < d.len() implies (#[trigger] d[jj]).2 > 0 by {
                lemma_scaled_primitive(d[jj], 1);
            }
            lemma_multiples_seq_contains(d, max_c, x);
            let (jj, k) = choose|jj: int, k: int|
                0 <= jj < d.len() && 1 <= k && k * d[jj].2 <= max_c && x == #[trigger] scale(
                    d[jj],
                    k,
                );
            if x == mo[j] {
                lemma_scaled_primitive(d[jj], k);
                lemma_scaled_primitive(p, j + 1);
                assert(d[jj] == p);
                assert(ps[jj] == ps[ps.len() - 1]);
            }
        }
        vstd::seq_lib::lemma_no_dup_in_concat(md, mo);
        assert(multiples_seq(ps, max_c) == md + mo);
    }
}

/// Every triple of `all(max_c)` is a multiple `k * p`, `k >= 1`, of a triple
/// `p` of `primitive(max_c)`, and the list has one entry per such multiple:
/// its length is the sum of `max_c / p.c` over `primitive(max_c)`.
pub proof fn lemma_all_len(ts: Seq<(int, int, int)>, ps: Seq<(int, int, int)>, max_c: int)
    requires
        is_all_list(ts, max_c),
        is_primitive_list(ps, max_c),
        max_c >= 0,
    ensures
        forall|i: int| 0 <= i < ts.len() ==> is_listed_multiple(ps, max_c, #[trigger] ts[i]),
        ts.len() == multiples_count(ps, max_c),
{
    let ms = multiples_seq(ps, max_c);
    assert forall|j: int| 0 <= j < ps.len() implies (#[trigger] ps[j]).2 > 0 by {
        assert(from_generator(ps[j], max_c));
        let (m, n) = choose|m: int, n: int|
            #[trigger] euclid_triple(m, n) == ps[j] && is_generator(m, n, max_c);
        assert(m * m + n * n > 0) by (nonlinear_arith)
            requires
                1 <= n < m,
        ;
    }
    // the same values on both sides
    assert forall|x: (int, int, int)| ts.contains(x) <==> is_listed_multiple(ps, max_c, x) by {
        if ts.contains(x) {
            let i = choose|i: int| 0 <= i < ts.len() && ts[i] == x;
            assert(from_multiple_generator(ts[i], max_c));
            let (m, n, k) = choose|m: int, n: int, k: int|
                #[trigger] scale(euclid_triple(m, n), k) == ts[i] && is_multiple_generator(
                    m,
                    n,
                    k,
                    max_c,
                );
            assert(ps.contains(euclid_triple(m, n)));
            let j = choose|j: int| 0 <= j < ps.len() && ps[j] == euclid_triple(m, n);
            assert(x == scale(ps[j], k));
        }
        if is_listed_multiple(ps, max_c, x) {
            let (j, k) = choose|j: int, k: int|
                0 <= j < ps.len() && 1 <= k && k * ps[j].2 <= max_c && x == #[trigger] scale(
                    ps[j],
                    k,
                );
            assert(from_generator(ps[j], max_c));
            let (m, n) = choose|m: int, n: int|
                #[trigger] euclid_triple(m, n) == ps[j] && is_generator(m, n, max_c);
            assert(is_multiple_generator(m, n, k, max_c));
        }
    }
    assert forall|i: int| 0 <= i < ts.len() implies is_listed_multiple(ps, max_c, #[trigger] ts[i]) by {
        assert(ts.contains(ts[i]));
    }
    // no duplicates on either side
    assert(ts.no_duplicates()) by {
        assert forall|i: int, j: int| 0 <= i < ts.len() && 0 <= j < ts.len() && i != j implies ts[i]
            != ts[j] by {
            if i < j {
                assert(all_precedes(ts[i], ts[j]));
            } else {
                assert(all_precedes(ts[j], ts[i]));
            }
        }
    }
    assert(ps.no_duplicates()) by {
        assert forall|i: int, j: int| 0 <= i < ps.len() && 0 <= j < ps.len() && i != j implies ps[i]
            != ps[j] by {
            if i < j {
                assert(precedes(ps[i], ps[j]));
            } else {
                assert(precedes(ps[j], ps[i]));
            }
        }
    }
    lemma_multiples_seq_no_duplicates(ps, max_c);
    assert forall|x: (int, int, int)| ts.contains(x) <==> ms.contains(x) by {
        lemma_multiples_seq_contains(ps, max_c, x);
    }
    assert(ts.to_set() =~= ms.to_set());
    ts.unique_seq_to_set();
    ms.unique_seq_to_set();
    lemma_multiples_seq_len(ps, max_c);
}

/// Two triples share a number exactly when one of the nine pairs of sides
/// (a side of the first, a side of the second) is equal.
pub proof fn lemma_shares_number_sides(s: (int, int, int), t: (int, int, int))
    ensures
        spec_shares_number(s, t) <==> (s.0 == t.0 || s.0 == t.1 || s.0 == t.2 || s.1 == t.0 || s.1
            == t.1 || s.1 == t.2 || s.2 == t.0 || s.2 == t.1 || s.2 == t.2),
{
    let xs = seq![s.0, s.1, s.2];
    let ys = seq![t.0, t.1, t.2];
    if spec_shares_number(s, t) {
        let (i, j) = choose|i: int, j: int|
            0 <= i < 3 && 0 <= j < 3 && #[trigger] xs[i] == #[trigger] ys[j];
        assert(xs[i] == ys[j]);
    }
    if s.0 == t.0 {
        assert(xs[0] == ys[0]);
    } else if s.0 == t.1 {
        assert(xs[0] == ys[1]);
    } else if s.0 == t.2 {
        assert(xs[0] == ys[2]);
    } else if s.1 == t.0 {
        assert(xs[1] == ys[0]);
    } else if s.1 == t.1 {
        assert(xs[1] == ys[1]);
    } else if s.1 == t.2 {
        assert(xs[1] == ys[2]);
    } else if s.2 == t.0 {
        assert(xs[2] == ys[0]);
    } else if s.2 == t.1 {
        assert(xs[2] == ys[1]);
    } else if s.2 == t.2 {
        assert(xs[2] == ys[2]);
    }
}

/// Triples with the same hypotenuse (or the same leg) share a number, so
/// they are joined in the connection graph.
pub proof fn lemma_equal_sides_share(s: (int, int, int), t: (int, int, int))
    ensures
        s.2 == t.2 ==> spec_shares_number(s, t),
        s.0 == t.0 ==> spec_shares_number(s, t),
        s.1 == t.1 ==> spec_shares_number(s, t),
{
    lemma_shares_number_sides(s, t);
}

impl PythagoreanTriple {
    /// A triple with its legs put in ascending order.
    pub fn new(a: u64, b: u64, c: u64) -> (t: Self)
        ensures
            t.a <= t.b,
            t.c == c,
            (t.a == a && t.b == b) || (t.a == b && t.b == a),
    {
        // Ensure a <= b for canonical form
        if a <= b {
            PythagoreanTriple { a, b, c }
        } else {
            PythagoreanTriple { a: b, b: a, c }
        }
    }

    /// Greatest common divisor by Euclid's algorithm: a common divisor of
    /// `a` and `b` that every common divisor divides (`gcd(0, 0) == 0`).
    pub fn gcd(a: u64, b: u64) -> (g: u64)
        ensures
            g == spec_gcd(a as nat, b as nat),
            a > 0 || b > 0 ==> divides(g as int, a as int) && divides(g as int, b as int),
            a == 0 && b == 0 ==> g == 0,
            forall|d: int|
                divides(d, a as int) && divides(d, b as int) ==> #[trigger] divides(d, g as int),
    {
        proof {
            if a > 0 || b > 0 {
                lemma_gcd_divides(a as nat, b as nat);
            }
            assert forall|d: int| divides(d, a as int) && divides(d, b as int) implies #[trigger] divides(
                d,
                spec_gcd(a as nat, b as nat) as int,
            ) by {
                lemma_common_divisor_divides_gcd(a as nat, b as nat, d);
            }
        }
        let mut a = a;
        let mut b = b;
        let ghost a0 = a;
        let ghost b0 = b;
        while b != 0
            invariant
                spec_gcd(a as nat, b as nat) == spec_gcd(a0 as nat, b0 as nat),
            decreases b,
        {
            let t = b;
            b = a % b;
            a = t;
        }
        a
    }

    /// Insert `t` after every triple whose hypotenuse is at most `t.c`,
    /// in a list sorted by hypotenuse.
    fn insert_by_hypotenuse(triples: &mut Vec<PythagoreanTriple>, t: PythagoreanTriple) -> (pos:
        usize)
        requires
            forall|i: int, j: int|
                0 <= i < j < old(triples).len() ==> old(triples)@[i].c <= old(triples)@[j].c,
        ensures
            pos <= old(triples).len(),
            final(triples)@ == old(triples)@.insert(pos as int, t),
            forall|k: int| 0 <= k < pos ==> old(triples)@[k].c <= t.c,
            forall|k: int| pos <= k < old(triples).len() ==> old(triples)@[k].c > t.c,
    {
        let mut pos: usize = triples.len();
        while pos > 0 && triples[pos - 1].c > t.c
            invariant
                pos <= triples.len(),
                forall|k: int| pos <= k < triples.len() ==> triples@[k].c > t.c,
            decreases pos,
        {
            pos = pos - 1;
        }
        assert forall|k: int| 0 <= k < pos implies triples@[k].c <= t.c by {
            if k < pos - 1 {
                assert(triples@[k].c <= triples@[pos - 1].c);
            }
        }
        triples.insert(pos, t);
        pos
    }

    /// Generate primitive triples using Euclid's formula:
    /// a = m²-n², b = 2mn, c = m²+n² for coprime m>n, not both odd.
    /// The result is sorted by hypotenuse; triples with the same hypotenuse
    /// come in ascending order of `m`, that is of the odd leg.
    pub fn primitive(max_c: u64) -> (res: Vec<PythagoreanTriple>)
        ensures
            is_primitive_list(views(res@), max_c as int),
            forall|t: (int, int, int)|
                #[trigger] is_primitive_triple(t) && 0 <= t.2 <= max_c ==> views(res@).contains(t),
            forall|i: int, j: int|
                0 <= i < j < res.len() ==> (#[trigger] res@[i]).c < (#[trigger] res@[j]).c || (
                res@[i].c == res@[j].c && (if res@[i].a % 2 == 1 {
                    res@[i].a
                } else {
                    res@[i].b
                }) < (if res@[j].a % 2 == 1 {
                    res@[j].a
                } else {
                    res@[j].b
                })),
    {
        let mut triples: Vec<PythagoreanTriple> = Vec::new();
        let ghost mut gens: Seq<(int, int)> = Seq::empty();
        let r = isqrt(max_c);
        assert(r < 0x1_0000_0000) by (nonlinear_arith)
            requires
                r * r <= max_c,
                max_c < 0x1_0000_0000_0000_0000,
        ;
        let m_max: u64 = r + 1;
        let mut m: u64 = 2;
        proof {
            lemma_prefix_start(max_c as int);
            assert(views(triples@) =~= Seq::empty());
        }
        while m <= m_max
            invariant
                2 <= m <= m_max + 1,
                m_max == r + 1,
                r * r <= max_c < (r + 1) * (r + 1),
                m_max <= 0x1_0000_0000,
                primitive_prefix(views(triples@), gens, max_c as int, m as int, 0),
            decreases m_max + 1 - m,
        {
            let mut n: u64 = 1;
            proof {
                reveal(primitive_prefix);
                assert(primitive_prefix(views(triples@), gens, max_c as int, m as int, 1));
            }
            let mut row_done = false;
            assert(m * m <= 0x1_0000_0000 * 0x1_0000_0000) by (nonlinear_arith)
                requires
                    0 <= m <= 0x1_0000_0000,
            ;
            while n < m && !row_done
                invariant
                    2 <= m <= m_max,
                    1 <= n <= m,
                    m_max <= 0x1_0000_0000,
                    row_done ==> m * m + n * n > max_c,
                    primitive_prefix(views(triples@), gens, max_c as int, m as int, n as int),
                decreases m - n + (if row_done { 0int } else { 1int }),
            {
                assert(n * n <= m * m && m * m <= 0x1_0000_0000 * 0x1_0000_0000 && 2 * m * n
                    <= 2 * 0x1_0000_0000 * 0x1_0000_0000) by (nonlinear_arith)
                    requires
                        1 <= n < m <= 0x1_0000_0000,
                ;
                let mm: u128 = (m as u128) * (m as u128);
                let nn: u128 = (n as u128) * (n as u128);
                assert(mm == m * m && nn == n * n && nn < mm && mm <= 0x1_0000_0000_0000_0000)
                    by (nonlinear_arith)
                    requires
                        mm == m * m,
                        nn == n * n,
                        1 <= n < m <= 0x1_0000_0000,
                ;
                let c: u128 = mm + nn;
                if c > max_c as u128 {
                    row_done = true;
                } else if (m - n) % 2 == 1 && Self::gcd(m, n) == 1 {
                    let a: u128 = mm - nn;
                    let b: u128 = 2 * (m as u128) * (n as u128);
                    assert(b <= c) by (nonlinear_arith)
                        requires
                            b == 2 * m * n,
                            c == m * m + n * n,
                    {
                        assert((m - n) * (m - n) >= 0);
                    }
                    let t = Self::new(a as u64, b as u64, c as u64);
                    proof {
                        assert(t@ == euclid_triple(m as int, n as int));
                        lemma_prefix_sorted(views(triples@), gens, max_c as int, m as int, n as int);
                        assert forall|i: int, j: int|
                            0 <= i < j < triples.len() implies triples@[i].c <= triples@[j].c by {
                            assert(views(triples@)[i] == triples@[i]@);
                            assert(views(triples@)[j] == triples@[j]@);
                        }
                    }
                    let ghost old_triples = triples@;
                    let pos = Self::insert_by_hypotenuse(&mut triples, t);
                    proof {
                        assert forall|k: int| 0 <= k < pos implies views(old_triples)[k].2
                            <= euclid_triple(m as int, n as int).2 by {
                            assert(views(old_triples)[k] == old_triples[k]@);
                        }
                        assert forall|k: int| pos <= k < views(old_triples).len() implies views(
                            old_triples,
                        )[k].2 > euclid_triple(m as int, n as int).2 by {
                            assert(views(old_triples)[k] == old_triples[k]@);
                        }
                        lemma_prefix_insert(
                            views(old_triples),
                            gens,
                            max_c as int,
                            m as int,
                            n as int,
                            pos as int,
                        );
                        lemma_views_insert(old_triples, pos as int, t);
                        gens = gens.insert(pos as int, (m as int, n as int));
                    }
                    n = n + 1;
                } else {
                    proof {
                        lemma_prefix_skip(views(triples@), gens, max_c as int, m as int, n as int);
                    }
                    n = n + 1;
                }
            }
            proof {
                lemma_prefix_row_end(views(triples@), gens, max_c as int, m as int, n as int);
            }
            m = m + 1;
        }
        proof {
            lemma_prefix_done(views(triples@), gens, max_c as int, m as int, r as int);
            assert forall|i: int, j: int|
                0 <= i < j < triples.len() implies (#[trigger] triples@[i]).c < (
                #[trigger] triples@[j]).c || (triples@[i].c == triples@[j].c && (if triples@[i].a % 2
                == 1 {
                triples@[i].a
            } else {
                triples@[i].b
            }) < (if triples@[j].a % 2 == 1 {
                triples@[j].a
            } else {
                triples@[j].b
            })) by {
                assert(views(triples@)[i] == triples@[i]@ && views(triples@)[j] == triples@[j]@);
                assert(precedes(views(triples@)[i], views(triples@)[j]));
            }
            assert forall|t: (int, int, int)|
                #[trigger] is_primitive_triple(t) && 0 <= t.2 <= max_c implies views(
                triples@,
            ).contains(t) by {
                lemma_primitive_complete(views(triples@), max_c as int, t);
            }
        }
        triples
    }
    /// All triples up to max_c (primitive * k)
    pub fn all(max_c: u64) -> (res: Vec<PythagoreanTriple>)
        ensures
            is_all_list(views(res@), max_c as int),
            forall|t: (int, int, int)|
                #[trigger] is_pythagorean_triple(t) && 0 <= t.2 <= max_c ==> views(res@).contains(
                    t,
                ),
            forall|i: int|
                0 <= i < res.len() ==> is_pythagorean_triple(#[trigger] views(res@)[i]) && views(
                    res@,
                )[i].2 <= max_c,
            forall|i: int, j: int|
                0 <= i < j < res.len() ==> (#[trigger] res@[i]).c <= (#[trigger] res@[j]).c,
            forall|ps: Seq<(int, int, int)>|
                #[trigger] is_primitive_list(ps, max_c as int) ==> {
                    &&& views(res@).len() == multiples_count(ps, max_c as int)
                    &&& views(res@).filter(|t: (int, int, int)| has_coprime_legs(t)) == ps
                },
    {
        let primitives = Self::primitive(max_c);
        let ghost ps = views(primitives@);
        let mut all: Vec<PythagoreanTriple> = Vec::new();
        let ghost mut w: Seq<(int, int)> = Seq::empty();
        proof {
            lemma_all_start(ps, max_c as int);
            assert(views(all@) =~= Seq::empty());
        }
        let mut idx: usize = 0;
        while idx < primitives.len()
            invariant
                ps == views(primitives@),
                is_primitive_list(ps, max_c as int),
                0 <= idx <= primitives.len(),
                all_prefix(views(all@), w, ps, max_c as int, idx as int, 0),
            decreases primitives.len() - idx,
        {
            let prim = &primitives[idx];
            proof {
                assert(ps[idx as int] == prim@);
                assert(is_primitive_triple(ps[idx as int]));
                lemma_scaled_primitive(prim@, 1);
                lemma_all_row_start(views(all@), w, ps, max_c as int, idx as int);
            }
            let mut k: u64 = 1;
            let mut row_done = false;
            while !row_done
                invariant
                    ps == views(primitives@),
                    0 <= idx < primitives.len(),
                    prim == &primitives[idx as int],
                    0 < prim.a <= prim.b < prim.c,
                    1 <= k <= max_c + 1,
                    k * prim.c <= max_c + prim.c,
                    row_done ==> k * prim.c > max_c,
                    all_prefix(views(all@), w, ps, max_c as int, idx as int, k as int),
                decreases max_c + 2 - k + (if row_done { 0int } else { 1int }),
            {
                assert(prim.c * k <= 2 * 0xffff_ffff_ffff_ffff) by (nonlinear_arith)
                    requires
                        k * prim.c <= max_c + prim.c,
                        max_c <= 0xffff_ffff_ffff_ffff,
                        prim.c <= 0xffff_ffff_ffff_ffff,
                ;
                let c: u128 = (prim.c as u128) * (k as u128);
                assert(c == k * prim.c) by (nonlinear_arith)
                    requires
                        c == prim.c * k,
                ;
                if c > max_c as u128 {
                    row_done = true;
                } else {
                    assert(prim.a * k <= prim.b * k <= prim.c * k && k <= max_c && k * prim.a
                        == prim.a * k && k * prim.b == prim.b * k && k * prim.c == prim.c * k)
                        by (nonlinear_arith)
                        requires
                            prim.a <= prim.b,
                            prim.b < prim.c,
                            k >= 1,
                            prim.c * k <= max_c,
                    ;
                    let t = Self::new(prim.a * k, prim.b * k, c as u64);
                    proof {
                        assert(ps[idx as int] == prim@);
                        assert(t@ == scale(ps[idx as int], k as int));
                        lemma_all_sorted(views(all@), w, ps, max_c as int, idx as int, k as int);
                        assert forall|i: int, j: int|
                            0 <= i < j < all.len() implies all@[i].c <= all@[j].c by {
                            assert(views(all@)[i] == all@[i]@);
                            assert(views(all@)[j] == all@[j]@);
                        }
                    }
                    let ghost old_all = all@;
                    let pos = Self::insert_by_hypotenuse(&mut all, t);
                    proof {
                        assert forall|q: int| 0 <= q < pos implies views(old_all)[q].2 <= k
                            * ps[idx as int].2 by {
                            assert(views(old_all)[q] == old_all[q]@);
                        }
                        assert forall|q: int| pos <= q < views(old_all).len() implies views(
                            old_all,
                        )[q].2 > k * ps[idx as int].2 by {
                            assert(views(old_all)[q] == old_all[q]@);
                        }
                        lemma_all_insert(
                            views(old_all),
                            w,
                            ps,
                            max_c as int,
                            idx as int,
                            k as int,
                            pos as int,
                        );
                        lemma_views_insert(old_all, pos as int, t);
                        w = w.insert(pos as int, (idx as int, k as int));
                    }
                    assert((k + 1) * prim.c == k * prim.c + prim.c) by (nonlinear_arith);
                    k = k + 1;
                }
            }
            proof {
                lemma_all_row_end(views(all@), w, ps, max_c as int, idx as int, k as int);
            }
            idx = idx + 1;
        }
        proof {
            lemma_all_done(views(all@), w, ps, max_c as int);
            assert forall|t: (int, int, int)|
                #[trigger] is_pythagorean_triple(t) && 0 <= t.2 <= max_c implies views(
                all@,
            ).contains(t) by {
                lemma_all_complete(views(all@), max_c as int, t);
            }
            lemma_all_pythagorean(views(all@), ps, max_c as int);
            assert forall|i: int, j: int|
                0 <= i < j < all.len() implies (#[trigger] all@[i]).c <= (#[trigger] all@[j]).c by {
                assert(views(all@)[i] == all@[i]@ && views(all@)[j] == all@[j]@);
                assert(all_precedes(views(all@)[i], views(all@)[j]));
            }
            assert forall|ps2: Seq<(int, int, int)>| #[trigger]
                is_primitive_list(ps2, max_c as int) implies {
                &&& views(all@).len() == multiples_count(ps2, max_c as int)
                &&& views(all@).filter(|t: (int, int, int)| has_coprime_legs(t)) == ps2
            } by {
                lemma_all_len(views(all@), ps2, max_c as int);
                lemma_all_coprime_legs_are_primitive(views(all@), ps2, max_c as int);
            }
        }
        all
    }

    /// Whether `x² + y² == z²`.
    pub fn is_pythagorean(x: u64, y: u64, z: u64) -> (r: bool)
        ensures
            r == (x * x + y * y == z * z),
    {
        assert(x * x <= u64::MAX * u64::MAX && y * y <= u64::MAX * u64::MAX && z * z <= u64::MAX
            * u64::MAX) by (nonlinear_arith)
            requires
                x <= u64::MAX,
                y <= u64::MAX,
                z <= u64::MAX,
        ;
        let xx: u128 = (x as u128) * (x as u128);
        let yy: u128 = (y as u128) * (y as u128);
        let zz: u128 = (z as u128) * (z as u128);
        match xx.checked_add(yy) {
            Some(sum) => sum == zz,
            None => {
                assert(zz <= u128::MAX);
                false
            },
        }
    }

    /// Whether the two triples share a number.
    pub fn shares_number(&self, other: &PythagoreanTriple) -> (r: bool)
        ensures
            r == spec_shares_number(self@, other@),
            r == (self.a == other.a || self.a == other.b || self.a == other.c || self.b == other.a
                || self.b == other.b || self.b == other.c || self.c == other.a || self.c == other.b
                || self.c == other.c),
    {
        let r = self.a == other.a || self.a == other.b || self.a == other.c || self.b == other.a
            || self.b == other.b || self.b == other.c || self.c == other.a || self.c == other.b
            || self.c == other.c;
        proof {
            let xs = seq![self@.0, self@.1, self@.2];
            let ys = seq![other@.0, other@.1, other@.2];
            if r {
                if self.a == other.a {
                    assert(xs[0] == ys[0]);
                } else if self.a == other.b {
                    assert(xs[0] == ys[1]);
                } else if self.a == other.c {
                    assert(xs[0] == ys[2]);
                } else if self.b == other.a {
                    assert(xs[1] == ys[0]);
                } else if self.b == other.b {
                    assert(xs[1] == ys[1]);
                } else if self.b == other.c {
                    assert(xs[1] == ys[2]);
                } else if self.c == other.a {
                    assert(xs[2] == ys[0]);
                } else if self.c == other.b {
                    assert(xs[2] == ys[1]);
                } else {
                    assert(xs[2] == ys[2]);
                }
            } else {
                assert forall|i: int, j: int| 0 <= i < 3 && 0 <= j < 3 implies xs[i] != ys[j] by {}
            }
        }
        r
    }

    /// Connection graph of triples: entry `(i, j)` is set when `i != j` and
    /// the two triples share a number.
    pub fn triple_adjacency(triples: &Vec<PythagoreanTriple>) -> (adj: Vec<Vec<bool>>)
        ensures
            adj.len() == triples.len(),
            forall|i: int| 0 <= i < adj.len() ==> (#[trigger] adj@[i]).len() == triples.len(),
            forall|i: int, j: int|
                0 <= i < triples.len() && 0 <= j < triples.len() ==> (#[trigger] adj@[i]@[j] <==> (
                i != j && spec_shares_number(triples@[i]@, triples@[j]@))),
            forall|i: int, j: int|
                0 <= i < triples.len() && 0 <= j < triples.len() ==> (#[trigger] adj@[i]@[j] <==> (
                i != j && (triples@[i].a == triples@[j].a || triples@[i].a == triples@[j].b
                    || triples@[i].a == triples@[j].c || triples@[i].b == triples@[j].a
                    || triples@[i].b == triples@[j].b || triples@[i].b == triples@[j].c
                    || triples@[i].c == triples@[j].a || triples@[i].c == triples@[j].b
                    || triples@[i].c == triples@[j].c))),
    {
        let n = triples.len();
        let mut adj: Vec<Vec<bool>> = Vec::new();
        let mut i: usize = 0;
        while i < n
            invariant
                n == triples.len(),
                i <= n,
                adj.len() == i,
                forall|r: int| 0 <= r < i ==> (#[trigger] adj@[r]).len() == n,
                forall|r: int, j: int|
                    0 <= r < i && 0 <= j < n ==> (#[trigger] adj@[r]@[j] <==> (r != j
                        && spec_shares_number(triples@[r]@, triples@[j]@))),
            decreases n - i,
        {
            let mut row: Vec<bool> = Vec::new();
            let mut j: usize = 0;
            while j < n
                invariant
                    n == triples.len(),
                    i < n,
                    j <= n,
                    row.len() == j,
                    forall|q: int|
                        0 <= q < j ==> (#[trigger] row@[q] <==> (i != q && spec_shares_number(
                            triples@[i as int]@,
                            triples@[q]@,
                        ))),
                decreases n - j,
            {
                let e = i != j && triples[i].shares_number(&triples[j]);
                row.push(e);
                j = j + 1;
            }
            adj.push(row);
            i = i + 1;
        }
        proof {
            assert forall|i: int, j: int|
                0 <= i < triples.len() && 0 <= j < triples.len() implies (#[trigger] adj@[i]@[j] <==> (
                i != j && (triples@[i].a == triples@[j].a || triples@[i].a == triples@[j].b
                    || triples@[i].a == triples@[j].c || triples@[i].b == triples@[j].a
                    || triples@[i].b == triples@[j].b || triples@[i].b == triples@[j].c
                    || triples@[i].c == triples@[j].a || triples@[i].c == triples@[j].b
                    || triples@[i].c == triples@[j].c))) by {
                lemma_shares_number_sides(triples@[i]@, triples@[j]@);
            }
        }
        adj
    }
}

} // verus!
