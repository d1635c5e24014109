//! Integer facts behind the triple generators: Euclid's algorithm, Bezout
//! coefficients, and integer square roots.
use vstd::arithmetic::div_mod::*;
use vstd::prelude::*;

verus! {

/// Greatest common divisor, by Euclid's algorithm.
pub open spec fn spec_gcd(a: nat, b: nat) -> nat
    decreases b,
{
    if b == 0 {
        a
    } else {
        spec_gcd(b, a % b)
    }
}

/// `d` divides `x` (for a positive `d`).
pub open spec fn divides(d: int, x: int) -> bool {
    d > 0 && x % d == 0
}

/// Bezout coefficients `(x, y)` with `a * x + b * y == gcd(a, b)`,
/// following the steps of Euclid's algorithm.
pub open spec fn bezout(a: nat, b: nat) -> (int, int)
    decreases b,
{
    if b == 0 {
        (1, 0)
    } else {
        let r = bezout(b, a % b);
        (r.1, r.0 - (a / b) as int * r.1)
    }
}

/// A multiple of `d` is divisible by `d`.
pub proof fn lemma_divides_multiple(d: int, k: int)
    requires
        d > 0,
    ensures
        divides(d, d * k),
{
    lemma_mod_multiples_basic(k, d);
    assert(k * d == d * k) by (nonlinear_arith);
}

/// Something that `d` divides is `d` times its quotient.
pub proof fn lemma_divides_quotient(d: int, x: int)
    requires
        divides(d, x),
    ensures
        x == d * (x / d),
{
    lemma_fundamental_div_mod(x, d);
}

/// Divisibility is closed under integer linear combinations.
pub proof fn lemma_divides_lincomb(d: int, x: int, y: int, p: int, q: int)
    requires
        divides(d, x),
        divides(d, y),
    ensures
        divides(d, p * x + q * y),
{
    lemma_divides_quotient(d, x);
    lemma_divides_quotient(d, y);
    let qx = x / d;
    let qy = y / d;
    assert(p * x + q * y == d * (p * qx + q * qy)) by (nonlinear_arith)
        requires
            x == d * qx,
            y == d * qy,
    ;
    lemma_divides_multiple(d, p * qx + q * qy);
}

/// Divisibility is transitive.
pub proof fn lemma_divides_trans(d: int, e: int, x: int)
    requires
        divides(d, e),
        divides(e, x),
    ensures
        divides(d, x),
{
    lemma_divides_quotient(d, e);
    lemma_divides_quotient(e, x);
    let q1 = e / d;
    let q2 = x / e;
    assert(x == d * (q1 * q2)) by (nonlinear_arith)
        requires
            e == d * q1,
            x == e * q2,
    ;
    lemma_divides_multiple(d, q1 * q2);
}

/// The gcd of two numbers, not both zero, is positive.
pub proof fn lemma_gcd_positive(a: nat, b: nat)
    requires
        a > 0 || b > 0,
    ensures
        spec_gcd(a, b) > 0,
    decreases b,
{
    if b > 0 {
        lemma_gcd_positive(b, a % b);
    }
}

/// The gcd divides both of its arguments.
pub proof fn lemma_gcd_divides(a: nat, b: nat)
    requires
        a > 0 || b > 0,
    ensures
        divides(spec_gcd(a, b) as int, a as int),
        divides(spec_gcd(a, b) as int, b as int),
    decreases b,
{
    lemma_gcd_positive(a, b);
    let g = spec_gcd(a, b) as int;
    if b == 0 {
        lemma_divides_multiple(g, 1);
        lemma_divides_multiple(g, 0);
    } else {
        lemma_gcd_divides(b, a % b);
        lemma_fundamental_div_mod(a as int, b as int);
        let q = (a / b) as int;
        let r = (a % b) as int;
        lemma_divides_lincomb(g, b as int, r, q, 1);
        assert(q * b + 1 * r == a) by (nonlinear_arith)
            requires
                a == b * q + r,
        ;
    }
}

/// Every common divisor of `a` and `b` divides their gcd.
pub proof fn lemma_common_divisor_divides_gcd(a: nat, b: nat, d: int)
    requires
        divides(d, a as int),
        divides(d, b as int),
    ensures
        divides(d, spec_gcd(a, b) as int),
    decreases b,
{
    if b > 0 {
        lemma_fundamental_div_mod(a as int, b as int);
        let q = (a / b) as int;
        let r = (a % b) as int;
        lemma_divides_lincomb(d, a as int, b as int, 1, -q);
        assert(1 * a + (-q) * b == r) by (nonlinear_arith)
            requires
                a == b * q + r,
        ;
        lemma_common_divisor_divides_gcd(b, a % b, d);
    }
}

/// Bezout's identity for the coefficients that Euclid's algorithm yields.
pub proof fn lemma_bezout(a: nat, b: nat)
    ensures
        a * bezout(a, b).0 + b * bezout(a, b).1 == spec_gcd(a, b),
    decreases b,
{
    if b > 0 {
        lemma_bezout(b, a % b);
        lemma_fundamental_div_mod(a as int, b as int);
        let r = bezout(b, a % b);
        let x = r.0;
        let y = r.1;
        let q = (a / b) as int;
        let rem = (a % b) as int;
        assert(a * y + b * (x - q * y) == b * x + rem * y) by (nonlinear_arith)
            requires
                a == b * q + rem,
        ;
        assert(b * x + rem * y == spec_gcd(b, a % b));
        assert(bezout(a, b) == (y, x - q * y));
        assert(spec_gcd(a, b) == spec_gcd(b, a % b));
        assert(a * bezout(a, b).0 + b * bezout(a, b).1 == a * y + b * (x - q * y));
    } else {
        assert(a * 1 + b * 0 == a) by (nonlinear_arith);
    }
}

/// When `gcd(m, n) == 1`, a common divisor of `m * m` and `n * n` is 1.
pub proof fn lemma_coprime_squares(m: nat, n: nat, g: int)
    requires
        spec_gcd(m, n) == 1,
        divides(g, (m * m) as int),
        divides(g, (n * n) as int),
    ensures
        g == 1,
{
    lemma_bezout(m, n);
    let x = bezout(m, n).0;
    let y = bezout(m, n).1;
    let mi = m as int;
    let ni = n as int;
    lemma_divides_quotient(g, mi * mi);
    lemma_divides_quotient(g, ni * ni);
    let p = (mi * mi) / g;
    let q = (ni * ni) / g;
    let s = mi * x + ni * y;
    let u = mi * x * x * x + 3 * ni * x * x * y;
    let v = 3 * mi * x * y * y + ni * y * y * y;
    lemma_cube_expansion(mi, ni, x, y);
    assert(s * s * s == 1) by (nonlinear_arith)
        requires
            s == 1,
    ;
    assert((mi * mi) * u + (ni * ni) * v == g * (p * u + q * v)) by (nonlinear_arith)
        requires
            mi * mi == g * p,
            ni * ni == g * q,
    ;
    let k = p * u + q * v;
    assert(g == 1) by (nonlinear_arith)
        requires
            g * k == 1,
            g > 0,
    ;
}

/// `(m x + n y)^3` regrouped around `m * m` and `n * n`.
pub proof fn lemma_cube_expansion(m: int, n: int, x: int, y: int)
    ensures
        (m * x + n * y) * (m * x + n * y) * (m * x + n * y) == (m * m) * (m * x * x * x + 3 * n
            * x * x * y) + (n * n) * (3 * m * x * y * y + n * y * y * y),
{
    let p = m * x;
    let q = n * y;
    assert((p + q) * (p + q) * (p + q) == p * p * p + 3 * p * p * q + 3 * p * q * q + q * q * q)
        by (nonlinear_arith);
    assert(p * p * p == (m * m) * (m * x * x * x)) by (nonlinear_arith)
        requires
            p == m * x,
    ;
    assert(3 * p * p * q == (m * m) * (3 * n * x * x * y)) by (nonlinear_arith)
        requires
            p == m * x,
            q == n * y,
    ;
    assert(3 * p * q * q == (n * n) * (3 * m * x * y * y)) by (nonlinear_arith)
        requires
            p == m * x,
            q == n * y,
    ;
    assert(q * q * q == (n * n) * (n * y * y * y)) by (nonlinear_arith)
        requires
            q == n * y,
    ;
    assert((m * m) * (m * x * x * x) + (m * m) * (3 * n * x * x * y) == (m * m) * (m * x * x * x
        + 3 * n * x * x * y)) by (nonlinear_arith);
    assert((n * n) * (3 * m * x * y * y) + (n * n) * (n * y * y * y) == (n * n) * (3 * m * x * y
        * y + n * y * y * y)) by (nonlinear_arith);
}

/// An odd divisor of `2 * x` divides `x`.
pub proof fn lemma_odd_divides_double(g: int, x: int)
    requires
        divides(g, 2 * x),
        g % 2 == 1,
    ensures
        divides(g, x),
{
    lemma_divides_quotient(g, 2 * x);
    let q = (2 * x) / g;
    assert(q % 2 == 0) by (nonlinear_arith)
        requires
            2 * x == g * q,
            g % 2 == 1,
    {
        if q % 2 == 1 {
            assert((g * q) % 2 == 1) by (nonlinear_arith)
                requires
                    g % 2 == 1,
                    q % 2 == 1,
            {
                let gh = g / 2;
                let qh = q / 2;
                assert(g == 2 * gh + 1);
                assert(q == 2 * qh + 1);
                assert(g * q == 2 * (2 * gh * qh + gh + qh) + 1);
            }
        }
    }
    let h = q / 2;
    assert(x == g * h) by (nonlinear_arith)
        requires
            2 * x == g * q,
            q == 2 * h,
    ;
    lemma_divides_multiple(g, h);
}

/// A divisor of an odd number is odd.
pub proof fn lemma_divisor_of_odd(g: int, x: int)
    requires
        divides(g, x),
        x % 2 == 1,
    ensures
        g % 2 == 1,
{
    lemma_divides_quotient(g, x);
    let q = x / g;
    if g % 2 == 0 {
        let h = g / 2;
        assert(x == 2 * (h * q)) by (nonlinear_arith)
            requires
                x == g * q,
                g == 2 * h,
        ;
        assert(false);
    }
}

/// Scaling both arguments scales the gcd.
pub proof fn lemma_gcd_scale(k: nat, a: nat, b: nat)
    ensures
        spec_gcd(k * a, k * b) == k * spec_gcd(a, b),
    decreases b,
{
    if b == 0 {
        assert(k * b == 0) by (nonlinear_arith)
            requires
                b == 0,
        ;
    } else if k == 0 {
        assert(k * a == 0 && k * b == 0 && k * spec_gcd(a, b) == 0) by (nonlinear_arith)
            requires
                k == 0,
        ;
    } else {
        lemma_fundamental_div_mod(a as int, b as int);
        let q = (a / b) as int;
        let r = (a % b) as int;
        let ki = k as int;
        assert(ki * a == q * (ki * b) + ki * r && 0 <= ki * r < ki * b) by (nonlinear_arith)
            requires
                a == b * q + r,
                0 <= r < b,
                ki > 0,
        ;
        lemma_fundamental_div_mod_converse((k * a) as int, (k * b) as int, q, ki * r);
        assert((k * a) % (k * b) == k * (a % b));
        lemma_gcd_scale(k, b, a % b);
    }
}

/// A divisor of a positive number is at most that number.
pub proof fn lemma_divisor_le(d: int, x: int)
    requires
        divides(d, x),
        x > 0,
    ensures
        d <= x,
{
    lemma_divides_quotient(d, x);
    let q = x / d;
    assert(d <= x) by (nonlinear_arith)
        requires
            x == d * q,
            x > 0,
            d > 0,
    {
        if q <= 0 {
            assert(d * q <= 0);
        }
        assert(d * q >= d * 1);
    }
}

/// Positive numbers that divide each other are equal.
pub proof fn lemma_divides_antisym(u: int, v: int)
    requires
        divides(u, v),
        divides(v, u),
    ensures
        u == v,
{
    lemma_divisor_le(u, v);
    lemma_divisor_le(v, u);
}

/// Every positive number divides itself.
pub proof fn lemma_divides_self(d: int)
    requires
        d > 0,
    ensures
        divides(d, d),
{
    lemma_divides_multiple(d, 1);
}

/// Nonnegative numbers with equal squares are equal.
pub proof fn lemma_square_root_unique(p: int, q: int)
    requires
        p >= 0,
        q >= 0,
        p * p == q * q,
    ensures
        p == q,
{
    if p < q {
        assert(p * p < q * q) by (nonlinear_arith)
            requires
                0 <= p < q,
        ;
    }
    if q < p {
        assert(q * q < p * p) by (nonlinear_arith)
            requires
                0 <= q < p,
        ;
    }
}

/// The gcd of two squares is the square of the gcd.
pub proof fn lemma_gcd_square(a: nat, b: nat)
    requires
        a > 0 || b > 0,
    ensures
        spec_gcd(a * a, b * b) == spec_gcd(a, b) * spec_gcd(a, b),
{
    lemma_gcd_positive(a, b);
    lemma_gcd_divides(a, b);
    let g = spec_gcd(a, b);
    lemma_divides_quotient(g as int, a as int);
    lemma_divides_quotient(g as int, b as int);
    let a1 = a / g;
    let b1 = b / g;
    assert(a == g * a1 && b == g * b1);
    lemma_gcd_scale(g, a1, b1);
    let h = spec_gcd(a1, b1);
    assert(h == 1) by (nonlinear_arith)
        requires
            g == g * h,
            g > 0,
    ;
    assert(a1 > 0 || b1 > 0) by (nonlinear_arith)
        requires
            a == g * a1,
            b == g * b1,
            a > 0 || b > 0,
    ;
    assert(a1 * a1 > 0 || b1 * b1 > 0) by (nonlinear_arith)
        requires
            a1 > 0 || b1 > 0,
    ;
    lemma_gcd_positive(a1 * a1, b1 * b1);
    lemma_gcd_divides(a1 * a1, b1 * b1);
    let d = spec_gcd(a1 * a1, b1 * b1);
    lemma_coprime_squares(a1, b1, d as int);
    lemma_gcd_scale(g * g, a1 * a1, b1 * b1);
    assert(a * a == (g * g) * (a1 * a1) && b * b == (g * g) * (b1 * b1)) by (nonlinear_arith)
        requires
            a == g * a1,
            b == g * b1,
    ;
}

/// When coprime `x` and `y` multiply to a square `z²`, `x` is the square of
/// `gcd(x, z)`.
pub proof fn lemma_coprime_product_square(x: nat, y: nat, z: nat)
    requires
        x > 0,
        spec_gcd(x, y) == 1,
        x * y == z * z,
    ensures
        x == spec_gcd(x, z) * spec_gcd(x, z),
{
    lemma_gcd_square(x, z);
    lemma_gcd_scale(x, x, y);
    assert(x * 1 == x);
}

/// If `d²` divides `e²` then `d` divides `e`.
pub proof fn lemma_square_divides(d: nat, e: nat)
    requires
        d > 0,
        divides((d * d) as int, (e * e) as int),
    ensures
        divides(d as int, e as int),
{
    assert(d * d > 0) by (nonlinear_arith)
        requires
            d > 0,
    ;
    lemma_gcd_positive(d * d, e * e);
    lemma_gcd_divides(d * d, e * e);
    let g2 = spec_gcd(d * d, e * e);
    lemma_divides_self((d * d) as int);
    lemma_common_divisor_divides_gcd(d * d, e * e, (d * d) as int);
    lemma_divides_antisym(g2 as int, (d * d) as int);
    lemma_gcd_square(d, e);
    let g = spec_gcd(d, e);
    lemma_square_root_unique(g as int, d as int);
    lemma_gcd_divides(d, e);
}

/// Integer square root: the largest `r` with `r * r <= x`.
pub fn isqrt(x: u64) -> (r: u64)
    ensures
        r * r <= x,
        x < (r + 1) * (r + 1),
{
    let mut lo: u64 = 0;
    let mut hi: u64 = 0x1_0000_0000;
    assert(x < hi * hi);
    while hi - lo > 1
        invariant
            lo < hi <= 0x1_0000_0000,
            lo * lo <= x,
            x < hi * hi,
        decreases hi - lo,
    {
        let mid: u64 = lo + (hi - lo) / 2;
        assert((mid as int) * (mid as int) <= 0x1_0000_0000 * 0x1_0000_0000) by (nonlinear_arith)
            requires
                0 <= mid <= 0x1_0000_0000,
        ;
        let sq: u128 = (mid as u128) * (mid as u128);
        if sq <= x as u128 {
            lo = mid;
        } else {
            hi = mid;
        }
    }
    lo
}

} // verus!
