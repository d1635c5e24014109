//! Eisenstein integers `a + bω`: their norm and the points of the hexagonal
//! lattice up to a given norm.
use crate::lattice::{adjacency, is_adjacency, triangular_steps};
use crate::number_theory::isqrt;
use crate::sorted::{is_asymmetric, lemma_sorted_lists_equal, strictly_sorted};
use vstd::prelude::*;

verus! {

/// Eisenstein integers: a + bω where ω = e^(2πi/6) = (-1+i√3)/2
/// The hexagonal lattice.
pub struct EisensteinInt;

/// Norm: |a + bω|² = a² - ab + b²
pub open spec fn spec_norm(a: int, b: int) -> int {
    a * a - a * b + b * b
}

/// `4 * norm(a, b) == (2a - b)² + 3b²`, so the norm is never negative and
/// bounds `b` (and, symmetrically, `a`).
pub proof fn lemma_norm_bounds(a: int, b: int)
    ensures
        4 * spec_norm(a, b) == (2 * a - b) * (2 * a - b) + 3 * (b * b),
        4 * spec_norm(a, b) == (2 * b - a) * (2 * b - a) + 3 * (a * a),
        spec_norm(a, b) >= 0,
        3 * (a * a) <= 4 * spec_norm(a, b),
        3 * (b * b) <= 4 * spec_norm(a, b),
        spec_norm(a, b) == 0 <==> (a == 0 && b == 0),
{
    assert(4 * spec_norm(a, b) == (2 * a - b) * (2 * a - b) + 3 * (b * b)) by (nonlinear_arith);
    assert(4 * spec_norm(a, b) == (2 * b - a) * (2 * b - a) + 3 * (a * a)) by (nonlinear_arith);
    assert((2 * a - b) * (2 * a - b) >= 0 && b * b >= 0 && (2 * b - a) * (2 * b - a) >= 0 && a * a
        >= 0) by (nonlinear_arith);
    if spec_norm(a, b) == 0 {
        assert(b * b == 0 && a * a == 0);
        assert(a == 0 && b == 0) by (nonlinear_arith)
            requires
                a * a == 0,
                b * b == 0,
        ;
    }
}

/// The norm is multiplicative: with `ω² = -1 - ω`, the product
/// `(a + bω)(c + dω)` is `(ac - bd) + (ad + bc - bd)ω`, and its norm is the
/// product of the two norms.
pub proof fn lemma_norm_multiplicative(a: int, b: int, c: int, d: int)
    ensures
        spec_norm(a * c - b * d, a * d + b * c - b * d) == spec_norm(a, b) * spec_norm(c, d),
{
    let u1 = a * c;
    let u2 = b * d;
    let u3 = a * d;
    let u4 = b * c;
    let x = u1 - u2;
    let y = u3 + u4 - u2;
    assert(x * x - x * y + y * y == u1 * u1 + u2 * u2 + u3 * u3 + u4 * u4 - u1 * u2 - u1 * u3 - u1
        * u4 - u2 * u3 - u2 * u4 + 2 * (u3 * u4)) by (nonlinear_arith)
        requires
            x == u1 - u2,
            y == u3 + u4 - u2,
    ;
    let aa = a * a;
    let bb = b * b;
    let cc = c * c;
    let dd = d * d;
    let ab = a * b;
    let cd = c * d;
    assert(u1 * u1 == aa * cc) by (nonlinear_arith)
        requires
            u1 == a * c,
            aa == a * a,
            cc == c * c,
    ;
    assert(u2 * u2 == bb * dd) by (nonlinear_arith)
        requires
            u2 == b * d,
            bb == b * b,
            dd == d * d,
    ;
    assert(u3 * u3 == aa * dd) by (nonlinear_arith)
        requires
            u3 == a * d,
            aa == a * a,
            dd == d * d,
    ;
    assert(u4 * u4 == bb * cc) by (nonlinear_arith)
        requires
            u4 == b * c,
            bb == b * b,
            cc == c * c,
    ;
    assert(u1 * u2 == ab * cd) by (nonlinear_arith)
        requires
            u1 == a * c,
            u2 == b * d,
            ab == a * b,
            cd == c * d,
    ;
    assert(u1 * u3 == aa * cd) by (nonlinear_arith)
        requires
            u1 == a * c,
            u3 == a * d,
            aa == a * a,
            cd == c * d,
    ;
    assert(u1 * u4 == ab * cc) by (nonlinear_arith)
        requires
            u1 == a * c,
            u4 == b * c,
            ab == a * b,
            cc == c * c,
    ;
    assert(u2 * u3 == ab * dd) by (nonlinear_arith)
        requires
            u2 == b * d,
            u3 == a * d,
            ab == a * b,
            dd == d * d,
    ;
    assert(u2 * u4 == bb * cd) by (nonlinear_arith)
        requires
            u2 == b * d,
            u4 == b * c,
            bb == b * b,
            cd == c * d,
    ;
    assert(u3 * u4 == ab * cd) by (nonlinear_arith)
        requires
            u3 == a * d,
            u4 == b * c,
            ab == a * b,
            cd == c * d,
    ;
    assert((aa - ab + bb) * (cc - cd + dd) == aa * cc - aa * cd + aa * dd - ab * cc + ab * cd - ab
        * dd + bb * cc - bb * cd + bb * dd) by (nonlinear_arith);
}

/// Order of the list that `with_norm` returns: by norm, then by `a`, then by `b`.
pub open spec fn norm_precedes(p: (i64, i64, u64), q: (i64, i64, u64)) -> bool {
    ||| p.2 < q.2
    ||| (p.2 == q.2 && p.0 < q.0)
    ||| (p.2 == q.2 && p.0 == q.0 && p.1 < q.1)
}

/// A lattice point other than the origin with norm at most `max_norm`.
pub open spec fn in_norm_ball(a: int, b: int, max_norm: int) -> bool {
    0 < spec_norm(a, b) <= max_norm
}

/// `ps` lists every Eisenstein integer `a + bω` with `0 < norm <= max_norm`
/// as `(a, b, norm)`, once each, in `norm_precedes` order.
pub open spec fn is_norm_list(ps: Seq<(i64, i64, u64)>, max_norm: int) -> bool {
    &&& forall|i: int|
        0 <= i < ps.len() ==> in_norm_ball(#[trigger] ps[i].0 as int, ps[i].1 as int, max_norm)
            && ps[i].2 == spec_norm(ps[i].0 as int, ps[i].1 as int)
    &&& forall|a: int, b: int|
        #[trigger] in_norm_ball(a, b, max_norm) ==> exists|i: int|
            0 <= i < ps.len() && ps[i].0 == a && ps[i].1 == b
    &&& forall|i: int, j: int|
        #![trigger ps[i], ps[j]]
        0 <= i < j < ps.len() ==> norm_precedes(ps[i], ps[j])
}

/// Lexicographic order on `(a, b)`.
pub open spec fn lex_before(x: int, y: int, a: int, b: int) -> bool {
    x < a || (x == a && y < b)
}

/// What `with_norm` has built once it has looked at every pair before `(a, b)`.
#[verifier::opaque]
pub open spec fn norm_prefix(ps: Seq<(i64, i64, u64)>, max_norm: int, a: int, b: int) -> bool {
    &&& forall|i: int|
        #![trigger ps[i]]
        0 <= i < ps.len() ==> {
            &&& in_norm_ball(ps[i].0 as int, ps[i].1 as int, max_norm)
            &&& ps[i].2 == spec_norm(ps[i].0 as int, ps[i].1 as int)
            &&& lex_before(ps[i].0 as int, ps[i].1 as int, a, b)
        }
    &&& forall|x: int, y: int|
        #[trigger] in_norm_ball(x, y, max_norm) && lex_before(x, y, a, b) ==> exists|i: int|
            0 <= i < ps.len() && ps[i].0 == x && ps[i].1 == y
    &&& forall|i: int, j: int|
        #![trigger ps[i], ps[j]]
        0 <= i < j < ps.len() ==> norm_precedes(ps[i], ps[j])
}

proof fn lemma_norm_prefix_start(max_norm: int, bound: int)
    requires
        forall|x: int, y: int| #[trigger] in_norm_ball(x, y, max_norm) ==> -bound <= x && -bound <= y,
    ensures
        norm_prefix(Seq::empty(), max_norm, -bound, -bound),
{
    reveal(norm_prefix);
    assert forall|x: int, y: int|
        #[trigger] in_norm_ball(x, y, max_norm) implies !lex_before(x, y, -bound, -bound) by {}
}

proof fn lemma_norm_prefix_sorted(ps: Seq<(i64, i64, u64)>, max_norm: int, a: int, b: int)
    requires
        norm_prefix(ps, max_norm, a, b),
    ensures
        forall|i: int, j: int| 0 <= i < j < ps.len() ==> ps[i].2 <= ps[j].2,
{
    reveal(norm_prefix);
}

/// A pair outside the ball is passed over.
proof fn lemma_norm_prefix_skip(ps: Seq<(i64, i64, u64)>, max_norm: int, a: int, b: int)
    requires
        norm_prefix(ps, max_norm, a, b),
        !in_norm_ball(a, b, max_norm),
    ensures
        norm_prefix(ps, max_norm, a, b + 1),
{
    reveal(norm_prefix);
}

/// The end of a row `a`: no pair `(a, y)` with `y >= b` is in the ball.
proof fn lemma_norm_prefix_row_end(ps: Seq<(i64, i64, u64)>, max_norm: int, a: int, b: int, bound: int)
    requires
        norm_prefix(ps, max_norm, a, b),
        forall|x: int, y: int| #[trigger] in_norm_ball(x, y, max_norm) ==> -bound <= y < b,
        b == bound + 1,
    ensures
        norm_prefix(ps, max_norm, a + 1, -bound),
{
    reveal(norm_prefix);
    assert forall|x: int, y: int|
        #[trigger] in_norm_ball(x, y, max_norm) && lex_before(x, y, a + 1, -bound) implies exists|
        i: int,
    | 0 <= i < ps.len() && ps[i].0 == x && ps[i].1 == y by {
        assert(y < b);
        if x == a + 1 {
            assert(y < -bound);
        }
        assert(lex_before(x, y, a, b));
    }
}

proof fn lemma_norm_prefix_insert(
    ps: Seq<(i64, i64, u64)>,
    max_norm: int,
    a: int,
    b: int,
    p: (i64, i64, u64),
    pos: int,
)
    requires
        norm_prefix(ps, max_norm, a, b),
        p.0 == a,
        p.1 == b,
        in_norm_ball(a, b, max_norm),
        p.2 == spec_norm(a, b),
        0 <= pos <= ps.len(),
        forall|k: int| 0 <= k < pos ==> ps[k].2 <= p.2,
        forall|k: int| pos <= k < ps.len() ==> ps[k].2 > p.2,
    ensures
        norm_prefix(ps.insert(pos, p), max_norm, a, b + 1),
{
    reveal(norm_prefix);
    let ps2 = ps.insert(pos, p);
    ps.insert_ensures(pos, p);
    assert forall|i: int|
        #![trigger ps2[i]]
        0 <= i < ps2.len() implies {
        &&& in_norm_ball(ps2[i].0 as int, ps2[i].1 as int, max_norm)
        &&& ps2[i].2 == spec_norm(ps2[i].0 as int, ps2[i].1 as int)
        &&& lex_before(ps2[i].0 as int, ps2[i].1 as int, a, b + 1)
    } by {
        if i < pos {
            assert(ps2[i] == ps[i]);
        } else if i > pos {
            assert(ps2[i] == ps[i - 1]);
        }
    }
    assert forall|x: int, y: int|
        #[trigger] in_norm_ball(x, y, max_norm) && lex_before(x, y, a, b + 1) implies exists|i: int|
        0 <= i < ps2.len() && ps2[i].0 == x && ps2[i].1 == y by {
        if x == a && y == b {
            assert(ps2[pos] == p);
        } else {
            let i = choose|i: int| 0 <= i < ps.len() && ps[i].0 == x && ps[i].1 == y;
            if i < pos {
                assert(ps2[i] == ps[i]);
            } else {
                assert(ps2[i + 1] == ps[i]);
            }
        }
    }
    assert forall|i: int, j: int|
        #![trigger ps2[i], ps2[j]]
        0 <= i < j < ps2.len() implies norm_precedes(ps2[i], ps2[j]) by {
        if j < pos {
            assert(ps2[i] == ps[i]);
            assert(ps2[j] == ps[j]);
        } else if i > pos {
            assert(ps2[i] == ps[i - 1]);
            assert(ps2[j] == ps[j - 1]);
        } else if i < pos && j > pos {
            assert(ps2[i] == ps[i]);
            assert(ps2[j] == ps[j - 1]);
        } else if i == pos {
            assert(ps2[j] == ps[j - 1]);
        } else {
            assert(ps2[i] == ps[i]);
        }
    }
}

proof fn lemma_norm_prefix_done(ps: Seq<(i64, i64, u64)>, max_norm: int, a: int, bound: int)
    requires
        norm_prefix(ps, max_norm, a, -bound),
        forall|x: int, y: int| #[trigger] in_norm_ball(x, y, max_norm) ==> x < a,
    ensures
        is_norm_list(ps, max_norm),
{
    reveal(norm_prefix);
    assert forall|x: int, y: int| #[trigger] in_norm_ball(x, y, max_norm) implies exists|i: int|
        0 <= i < ps.len() && ps[i].0 == x && ps[i].1 == y by {
        assert(x < a);
        assert(lex_before(x, y, a, -bound));
    }
}

/// The coordinates `(a, b)` of a list of `(a, b, norm)` points.
pub open spec fn coordinates(ps: Seq<(i64, i64, u64)>) -> Seq<(i64, i64)> {
    ps.map_values(|p: (i64, i64, u64)| (p.0, p.1))
}

/// A point of the square lattice other than the origin inside the disc of
/// radius `n`.
pub open spec fn in_disc(x: int, y: int, n: int) -> bool {
    -n <= x <= n && -n <= y <= n && x * x + y * y <= n * n && (x != 0 || y != 0)
}

/// `ps` lists the points `in_disc` of radius `n`, once each, in
/// lexicographic order.
pub open spec fn is_disc_list(ps: Seq<(i64, i64)>, n: int) -> bool {
    &&& forall|i: int| 0 <= i < ps.len() ==> in_disc(#[trigger] ps[i].0 as int, ps[i].1 as int, n)
    &&& forall|x: int, y: int|
        #[trigger] in_disc(x, y, n) ==> exists|i: int| 0 <= i < ps.len() && ps[i].0 == x && ps[i].1 == y
    &&& forall|i: int, j: int|
        #![trigger ps[i], ps[j]]
        0 <= i < j < ps.len() ==> lex_before(ps[i].0 as int, ps[i].1 as int, ps[j].0 as int, ps[j].1 as int)
}

/// The list of Eisenstein integers up to norm `max_norm` is determined by
/// `max_norm`: the contract of `with_norm` admits a single result.
pub proof fn lemma_norm_list_unique(ps1: Seq<(i64, i64, u64)>, ps2: Seq<(i64, i64, u64)>, max_norm: int)
    requires
        is_norm_list(ps1, max_norm),
        is_norm_list(ps2, max_norm),
    ensures
        ps1 == ps2,
{
    let lt = |p: (i64, i64, u64), q: (i64, i64, u64)| norm_precedes(p, q);
    assert(strictly_sorted(ps1, lt));
    assert(strictly_sorted(ps2, lt));
    assert(is_asymmetric(lt));
    assert forall|x: (i64, i64, u64)| ps1.contains(x) <==> ps2.contains(x) by {
        if ps1.contains(x) {
            let i = choose|i: int| 0 <= i < ps1.len() && ps1[i] == x;
            assert(in_norm_ball(ps1[i].0 as int, ps1[i].1 as int, max_norm));
            let j = choose|j: int| 0 <= j < ps2.len() && ps2[j].0 == x.0 && ps2[j].1 == x.1;
            assert(ps2[j] == x);
        }
        if ps2.contains(x) {
            let i = choose|i: int| 0 <= i < ps2.len() && ps2[i] == x;
            assert(in_norm_ball(ps2[i].0 as int, ps2[i].1 as int, max_norm));
            let j = choose|j: int| 0 <= j < ps1.len() && ps1[j].0 == x.0 && ps1[j].1 == x.1;
            assert(ps1[j] == x);
        }
    }
    lemma_sorted_lists_equal(ps1, ps2, lt);
}

/// The list of square-lattice points in the disc of radius `n` is
/// determined by `n`: the contract of `square_disc_points` admits a single
/// result.
pub proof fn lemma_disc_list_unique(ps1: Seq<(i64, i64)>, ps2: Seq<(i64, i64)>, n: int)
    requires
        is_disc_list(ps1, n),
        is_disc_list(ps2, n),
    ensures
        ps1 == ps2,
{
    let lt = |p: (i64, i64), q: (i64, i64)| lex_before(p.0 as int, p.1 as int, q.0 as int, q.1 as int);
    assert(strictly_sorted(ps1, lt));
    assert(strictly_sorted(ps2, lt));
    assert(is_asymmetric(lt));
    assert forall|x: (i64, i64)| ps1.contains(x) <==> ps2.contains(x) by {
        if ps1.contains(x) {
            let i = choose|i: int| 0 <= i < ps1.len() && ps1[i] == x;
            assert(in_disc(ps1[i].0 as int, ps1[i].1 as int, n));
            let j = choose|j: int| 0 <= j < ps2.len() && ps2[j].0 == x.0 && ps2[j].1 == x.1;
            assert(ps2[j] == x);
        }
        if ps2.contains(x) {
            let i = choose|i: int| 0 <= i < ps2.len() && ps2[i] == x;
            assert(in_disc(ps2[i].0 as int, ps2[i].1 as int, n));
            let j = choose|j: int| 0 <= j < ps1.len() && ps1[j].0 == x.0 && ps1[j].1 == x.1;
            assert(ps1[j] == x);
        }
    }
    lemma_sorted_lists_equal(ps1, ps2, lt);
}

/// The disc of radius `n >= 0` is the Euclidean one: a lattice point other
/// than the origin lies in it exactly when `x² + y² <= n²`.
pub proof fn lemma_in_disc_euclidean(x: int, y: int, n: int)
    requires
        n >= 0,
    ensures
        in_disc(x, y, n) <==> (x * x + y * y <= n * n && !(x == 0 && y == 0)),
{
    if x * x + y * y <= n * n {
        assert(x * x >= 0 && y * y >= 0) by (nonlinear_arith);
        assert(-n <= x <= n && -n <= y <= n) by (nonlinear_arith)
            requires
                x * x <= n * n,
                y * y <= n * n,
                n >= 0,
        {
            if x > n {
                assert(x * x > n * n);
            }
            if x < -n {
                assert(x * x > n * n);
            }
            if y > n {
                assert(y * y > n * n);
            }
            if y < -n {
                assert(y * y > n * n);
            }
        }
    }
}

impl EisensteinInt {
    /// Norm: |a + bω|² = a² - ab + b²
    pub fn norm(a: i64, b: i64) -> (n: u64)
        requires
            i64::MIN <= a * a <= i64::MAX,
            i64::MIN <= a * b <= i64::MAX,
            i64::MIN <= b * b <= i64::MAX,
            i64::MIN <= a * a - a * b <= i64::MAX,
            i64::MIN <= a * a - a * b + b * b <= i64::MAX,
        ensures
            n == spec_norm(a as int, b as int),
    {
        proof {
            lemma_norm_bounds(a as int, b as int);
        }
        (a * a - a * b + b * b) as u64
    }

    /// The norm computed without overflow for coordinates up to 2^34.
    fn wide_norm(a: i64, b: i64) -> (n: i128)
        requires
            -0x4_0000_0000 <= a <= 0x4_0000_0000,
            -0x4_0000_0000 <= b <= 0x4_0000_0000,
        ensures
            n == spec_norm(a as int, b as int),
    {
        let a = a as i128;
        let b = b as i128;
        assert(a * a <= 0x10_0000_0000_0000_0000 && b * b <= 0x10_0000_0000_0000_0000 && -0x10_0000_0000_0000_0000
            <= a * b <= 0x10_0000_0000_0000_0000) by (nonlinear_arith)
            requires
                -0x4_0000_0000 <= a <= 0x4_0000_0000,
                -0x4_0000_0000 <= b <= 0x4_0000_0000,
        ;
        assert(0 <= a * a && 0 <= b * b) by (nonlinear_arith);
        a * a - a * b + b * b
    }

    /// Insert `p` after every point whose norm is at most `p.2`, in a list
    /// sorted by norm.
    fn insert_by_norm(points: &mut Vec<(i64, i64, u64)>, p: (i64, i64, u64)) -> (pos: usize)
        requires
            forall|i: int, j: int|
                0 <= i < j < old(points).len() ==> old(points)@[i].2 <= old(points)@[j].2,
        ensures
            pos <= old(points).len(),
            final(points)@ == old(points)@.insert(pos as int, p),
            forall|k: int| 0 <= k < pos ==> old(points)@[k].2 <= p.2,
            forall|k: int| pos <= k < old(points).len() ==> old(points)@[k].2 > p.2,
    {
        let mut pos: usize = points.len();
        while pos > 0 && points[pos - 1].2 > p.2
            invariant
                pos <= points.len(),
                forall|k: int| pos <= k < points.len() ==> points@[k].2 > p.2,
            decreases pos,
        {
            pos = pos - 1;
        }
        assert forall|k: int| 0 <= k < pos implies points@[k].2 <= p.2 by {
            if k < pos - 1 {
                assert(points@[k].2 <= points@[pos - 1].2);
            }
        }
        points.insert(pos, p);
        pos
    }

    /// Generate Eisenstein integers with norm <= max_norm, as `(a, b, norm)`,
    /// sorted by norm, then by `a`, then by `b`.  The origin is left out.
    pub fn with_norm(max_norm: u64) -> (res: Vec<(i64, i64, u64)>)
        ensures
            is_norm_list(res@, max_norm as int),
            forall|i: int|
                0 <= i < res.len() ==> (#[trigger] res@[i]).2 == res@[i].0 * res@[i].0 - res@[i].0
                    * res@[i].1 + res@[i].1 * res@[i].1 && 0 < res@[i].2 <= max_norm,
            forall|a: i64, b: i64|
                0 < a * a - a * b + b * b <= max_norm ==> #[trigger] res@.contains(
                    (a, b, (a * a - a * b + b * b) as u64),
                ),
            forall|i: int, j: int|
                0 <= i < j < res.len() ==> (#[trigger] res@[i]).2 < (#[trigger] res@[j]).2 || (
                res@[i].2 == res@[j].2 && (res@[i].0 < res@[j].0 || (res@[i].0 == res@[j].0
                    && res@[i].1 < res@[j].1))),
    {
        let mut result: Vec<(i64, i64, u64)> = Vec::new();
        let r = isqrt(max_norm);
        assert(r < 0x1_0000_0000) by (nonlinear_arith)
            requires
                r * r <= max_norm,
                max_norm < 0x1_0000_0000_0000_0000,
        ;
        // every point of the ball has |a|, |b| < 2 (r + 1)
        let bound: i64 = 2 * (r as i64) + 2;
        proof {
            assert forall|x: int, y: int| #[trigger] in_norm_ball(x, y, max_norm as int) implies -bound
                < x < bound && -bound < y < bound by {
                lemma_norm_bounds(x, y);
                assert(x * x < bound * bound && y * y < bound * bound) by (nonlinear_arith)
                    requires
                        3 * (x * x) <= 4 * spec_norm(x, y),
                        3 * (y * y) <= 4 * spec_norm(x, y),
                        spec_norm(x, y) <= max_norm,
                        max_norm < (r + 1) * (r + 1),
                        bound == 2 * r + 2,
                        r >= 0,
                ;
                assert(-bound < x < bound && -bound < y < bound) by (nonlinear_arith)
                    requires
                        x * x < bound * bound,
                        y * y < bound * bound,
                        bound > 0,
                ;
            }
            lemma_norm_prefix_start(max_norm as int, bound as int);
        }
        let mut a: i64 = -bound;
        while a <= bound
            invariant
                0 < bound <= 0x2_0000_0000,
                -bound <= a <= bound + 1,
                forall|x: int, y: int| #[trigger] in_norm_ball(x, y, max_norm as int) ==> -bound
                    < x < bound && -bound < y < bound,
                norm_prefix(result@, max_norm as int, a as int, -bound as int),
            decreases bound + 1 - a,
        {
            let mut b: i64 = -bound;
            while b <= bound
                invariant
                    0 < bound <= 0x2_0000_0000,
                    -bound <= a <= bound,
                    -bound <= b <= bound + 1,
                    norm_prefix(result@, max_norm as int, a as int, b as int),
                decreases bound + 1 - b,
            {
                let n = Self::wide_norm(a, b);
                if 0 < n && n <= max_norm as i128 {
                    let p = (a, b, n as u64);
                    proof {
                        lemma_norm_prefix_sorted(result@, max_norm as int, a as int, b as int);
                    }
                    let ghost old_result = result@;
                    let pos = Self::insert_by_norm(&mut result, p);
                    proof {
                        lemma_norm_prefix_insert(
                            old_result,
                            max_norm as int,
                            a as int,
                            b as int,
                            p,
                            pos as int,
                        );
                    }
                } else {
                    proof {
                        lemma_norm_prefix_skip(result@, max_norm as int, a as int, b as int);
                    }
                }
                b = b + 1;
            }
            proof {
                lemma_norm_prefix_row_end(
                    result@,
                    max_norm as int,
                    a as int,
                    b as int,
                    bound as int,
                );
            }
            a = a + 1;
        }
        proof {
            lemma_norm_prefix_done(result@, max_norm as int, a as int, bound as int);
            assert forall|x: i64, y: i64|
                0 < x * x - x * y + y * y <= max_norm implies #[trigger] result@.contains(
                (x, y, (x * x - x * y + y * y) as u64),
            ) by {
                assert(in_norm_ball(x as int, y as int, max_norm as int));
                let i = choose|i: int| 0 <= i < result.len() && result@[i].0 == x && result@[i].1 == y;
                assert(result@[i] == (x, y, (x * x - x * y + y * y) as u64));
            }
            assert forall|i: int, j: int|
                0 <= i < j < result.len() implies (#[trigger] result@[i]).2 < (
                #[trigger] result@[j]).2 || (result@[i].2 == result@[j].2 && (result@[i].0
                < result@[j].0 || (result@[i].0 == result@[j].0 && result@[i].1 < result@[j].1))) by {
                assert(norm_precedes(result@[i], result@[j]));
            }
        }
        result
    }

    /// Hexagonal lattice adjacency (6 neighbors in Eisenstein lattice) on
    /// the given points: entry `(i, j)` is set when `points[j] - points[i]`
    /// is one of ±1, ±ω, ±(1 - ω).
    pub fn lattice_adjacency(points: &Vec<(i64, i64, u64)>) -> (adj: Vec<Vec<bool>>)
        ensures
            is_adjacency(
                adj@,
                coordinates(points@),
                seq![
                    (1i64, 0i64),
                    (-1i64, 0i64),
                    (0i64, 1i64),
                    (0i64, -1i64),
                    (1i64, -1i64),
                    (-1i64, 1i64),
                ],
            ),
    {
        let mut coords: Vec<(i64, i64)> = Vec::new();
        let mut i: usize = 0;
        while i < points.len()
            invariant
                i <= points.len(),
                coords@ == coordinates(points@).take(i as int),
            decreases points.len() - i,
        {
            coords.push((points[i].0, points[i].1));
            i = i + 1;
        }
        assert(coords@ =~= coordinates(points@));
        let steps = triangular_steps();
        adjacency(&coords, &steps)
    }

    /// The square lattice (Z²) points other than the origin within radius
    /// `n`, in lexicographic order.
    pub fn square_disc_points(n: usize) -> (points: Vec<(i64, i64)>)
        requires
            n < 0x8000_0000,
        ensures
            is_disc_list(points@, n as int),
            forall|i: int|
                0 <= i < points.len() ==> (#[trigger] points@[i]).0 * points@[i].0 + points@[i].1
                    * points@[i].1 <= n * n && !(points@[i].0 == 0 && points@[i].1 == 0),
            forall|x: i64, y: i64|
                x * x + y * y <= n * n && !(x == 0 && y == 0) ==> #[trigger] points@.contains((x, y)),
            forall|i: int, j: int|
                0 <= i < j < points.len() ==> (#[trigger] points@[i]).0 < (#[trigger] points@[j]).0 || (
                points@[i].0 == points@[j].0 && points@[i].1 < points@[j].1),
    {
        let bound: i64 = n as i64;
        let mut points: Vec<(i64, i64)> = Vec::new();
        let mut x: i64 = -bound;
        while x <= bound
            invariant
                bound == n,
                0 <= bound < 0x8000_0000,
                -bound <= x <= bound + 1,
                forall|i: int| 0 <= i < points.len() ==> in_disc(#[trigger] points@[i].0 as int, points@[i].1 as int, bound as int)
                    && points@[i].0 < x,
                forall|p: int, q: int| #[trigger] in_disc(p, q, bound as int) && p < x ==> exists|i: int|
                    0 <= i < points.len() && points@[i].0 == p && points@[i].1 == q,
                forall|i: int, j: int|
                    #![trigger points@[i], points@[j]]
                    0 <= i < j < points.len() ==> lex_before(points@[i].0 as int, points@[i].1 as int, points@[j].0 as int, points@[j].1 as int),
            decreases bound + 1 - x,
        {
            let mut y: i64 = -bound;
            while y <= bound
                invariant
                    bound == n,
                    0 <= bound < 0x8000_0000,
                    -bound <= x <= bound,
                    -bound <= y <= bound + 1,
                    forall|i: int| 0 <= i < points.len() ==> in_disc(#[trigger] points@[i].0 as int, points@[i].1 as int, bound as int)
                        && lex_before(points@[i].0 as int, points@[i].1 as int, x as int, y as int),
                    forall|p: int, q: int| #[trigger] in_disc(p, q, bound as int) && lex_before(p, q, x as int, y as int) ==> exists|i: int|
                        0 <= i < points.len() && points@[i].0 == p && points@[i].1 == q,
                    forall|i: int, j: int|
                        #![trigger points@[i], points@[j]]
                        0 <= i < j < points.len() ==> lex_before(points@[i].0 as int, points@[i].1 as int, points@[j].0 as int, points@[j].1 as int),
                decreases bound + 1 - y,
            {
                assert(x * x <= bound * bound && y * y <= bound * bound && bound * bound < 0x4000_0000_0000_0000) by (nonlinear_arith)
                    requires
                        -bound <= x <= bound,
                        -bound <= y <= bound,
                        0 <= bound < 0x8000_0000,
                ;
                assert(x * x >= 0 && y * y >= 0) by (nonlinear_arith);
                if x * x + y * y <= bound * bound && (x != 0 || y != 0) {
                    let ghost old_points = points@;
                    points.push((x, y));
                    proof {
                        assert forall|p: int, q: int| #[trigger] in_disc(p, q, bound as int) && lex_before(p, q, x as int, y + 1) implies exists|i: int|
                            0 <= i < points.len() && points@[i].0 == p && points@[i].1 == q by {
                            if p == x && q == y {
                                assert(points@[old_points.len() as int] == (x, y));
                            } else {
                                let i = choose|i: int| 0 <= i < old_points.len() && old_points[i].0 == p && old_points[i].1 == q;
                                assert(points@[i] == old_points[i]);
                            }
                        }
                        assert forall|i: int, j: int|
                            #![trigger points@[i], points@[j]]
                            0 <= i < j < points.len() implies lex_before(points@[i].0 as int, points@[i].1 as int, points@[j].0 as int, points@[j].1 as int) by {
                            if j < old_points.len() {
                                assert(points@[i] == old_points[i]);
                                assert(points@[j] == old_points[j]);
                            } else {
                                assert(points@[i] == old_points[i]);
                            }
                        }
                    }
                }
                y = y + 1;
            }
            x = x + 1;
        }
        proof {
            assert forall|i: int|
                0 <= i < points.len() implies (#[trigger] points@[i]).0 * points@[i].0 + points@[i].1
                * points@[i].1 <= n * n && !(points@[i].0 == 0 && points@[i].1 == 0) by {
                lemma_in_disc_euclidean(points@[i].0 as int, points@[i].1 as int, n as int);
            }
            assert forall|x: i64, y: i64|
                x * x + y * y <= n * n && !(x == 0 && y == 0) implies #[trigger] points@.contains(
                (x, y),
            ) by {
                lemma_in_disc_euclidean(x as int, y as int, n as int);
                assert(in_disc(x as int, y as int, n as int));
                let i = choose|i: int| 0 <= i < points.len() && points@[i].0 == x && points@[i].1 == y;
                assert(points@[i] == (x, y));
            }
        }
        points
    }
}

} // verus!
