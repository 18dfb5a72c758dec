//! Exact comparison of distance values.
//!
//! Edge queries compare squared distances held as exact rationals. Vertex
//! queries compare values of the form `sqrt(sqd) + h`; such a value is
//! encoded exactly by the integer key `isqrt(sqd * S^2) + h * S` at a fixed
//! scale `S` chosen so large that the key order coincides with the real
//! order. Executable code decides the key order through a closed form that
//! never computes the huge keys.

use vstd::prelude::*;
use crate::geometry::sq;

verus! {

/// Strict order on rationals `n1/d1 < n2/d2`, by cross-multiplication;
/// meaningful for positive denominators.
pub open spec fn rat_lt(n1: int, d1: int, n2: int, d2: int) -> bool {
    n1 * d2 < n2 * d1
}

/// The floor of the square root: zero at or below zero, else the unique
/// `r >= 0` with `r^2 <= n < (r+1)^2`.
pub open spec fn isqrt(n: int) -> int
    decreases n,
{
    if n <= 0 {
        0
    } else {
        let r = isqrt(n - 1);
        if (r + 1) * (r + 1) <= n {
            r + 1
        } else {
            r
        }
    }
}

/// The scale of the vertex-distance keys. It exceeds every quantity the
/// geometry can produce by so much that one key unit is far below the least
/// possible gap between two distinct vertex-distance values.
pub open spec fn vscale() -> int {
    0x1_0000_0000_0000_0000_0000_0000_0000_0000_0000_0000_0000_0000_0000int
}

/// The exact integer key of the vertex-distance value `sqrt(sqd) + h`.
pub open spec fn vkey(sqd: int, h: int) -> int {
    isqrt(sqd * (vscale() * vscale())) + h * vscale()
}

/// Strict order on vertex-distance values.
pub open spec fn vlt(s1: int, h1: int, s2: int, h2: int) -> bool {
    vkey(s1, h1) < vkey(s2, h2)
}

/// Closed form of `sqrt(a) <= sqrt(b) + u` over the integers, for
/// `a, b >= 0`, obtained by isolating the root and squaring twice.
pub open spec fn sle_cf(a: int, u: int, b: int) -> bool {
    if u >= 0 {
        a <= b + u * u || sq(a - (b + u * u)) <= 4 * (u * u) * b
    } else {
        b >= a + u * u && 4 * (u * u) * a <= sq(b - (a + u * u))
    }
}

/// Multiplication distributes over addition.
proof fn lemma_mul_dist(p: int, q: int, t: int)
    by (nonlinear_arith)
    ensures
        (p + q) * t == p * t + q * t,
{
}

/// Multiplying by a non-negative factor preserves order.
proof fn lemma_mul_mono(a: int, b: int, t: int)
    by (nonlinear_arith)
    requires
        a <= b,
        t >= 0,
    ensures
        a * t <= b * t,
{
}

/// Multiplying by a positive factor preserves strict order.
proof fn lemma_mul_mono_strict(a: int, b: int, t: int)
    by (nonlinear_arith)
    requires
        a < b,
        t >= 1,
    ensures
        a * t < b * t,
{
}

/// Cancelling a positive factor preserves order.
proof fn lemma_mul_cancel(a: int, b: int, t: int)
    by (nonlinear_arith)
    requires
        a * t <= b * t,
        t >= 1,
    ensures
        a <= b,
{
}

/// Cancelling a positive factor preserves strict order.
proof fn lemma_mul_cancel_strict(a: int, b: int, t: int)
    by (nonlinear_arith)
    requires
        a * t < b * t,
        t >= 1,
    ensures
        a < b,
{
}

/// A product of non-negative factors is non-negative.
proof fn lemma_mul_nonneg(a: int, b: int)
    by (nonlinear_arith)
    requires
        a >= 0,
        b >= 0,
    ensures
        a * b >= 0,
{
}

/// Expansion of `(x + y)^2`.
proof fn lemma_expand_sq2(x: int, y: int)
    by (nonlinear_arith)
    ensures
        (x + y) * (x + y) == x * x + 2 * (x * y) + y * y,
{
}

/// Expansion of `(x + y + 1)^2`.
proof fn lemma_expand_sq3(x: int, y: int)
    by (nonlinear_arith)
    ensures
        (x + y + 1) * (x + y + 1) == x * x + y * y + 1 + 2 * (x * y) + 2 * x + 2 * y,
{
}

/// Squares of non-negative integers are strictly monotone.
proof fn lemma_sq_lt(a: int, b: int)
    by (nonlinear_arith)
    requires
        0 <= a < b,
    ensures
        a * a < b * b,
{
}

/// The square of an integer at least one is at least one.
proof fn lemma_sq_ge_one(s: int)
    by (nonlinear_arith)
    requires
        s >= 1,
    ensures
        s * s >= s,
        s * s >= 1,
{
}

/// Expansion of `(x + 1)^2`.
proof fn lemma_expand_sq1(x: int)
    by (nonlinear_arith)
    ensures
        (x + 1) * (x + 1) == x * x + 2 * x + 1,
{
}

/// Products regroup pairwise.
proof fn lemma_mul_swap(a: int, b: int, c: int, d: int)
    by (nonlinear_arith)
    ensures
        (a * b) * (c * d) == (a * c) * (b * d),
{
}

/// The characterizing bounds of `isqrt`.
pub proof fn lemma_isqrt_bounds(n: int)
    requires
        n >= 0,
    ensures
        isqrt(n) >= 0,
        isqrt(n) * isqrt(n) <= n,
        n < (isqrt(n) + 1) * (isqrt(n) + 1),
    decreases n,
{
    if n == 0 {
    } else {
        lemma_isqrt_bounds(n - 1);
        let r = isqrt(n - 1);
        if (r + 1) * (r + 1) <= n {
            assert(n - 1 < (r + 1) * (r + 1));
            assert(n == (r + 1) * (r + 1));
            assert((r + 2) * (r + 2) > (r + 1) * (r + 1)) by (nonlinear_arith)
                requires r >= 0;
        } else {
        }
    }
}

/// Any non-negative integer whose square is at most `n` is at most
/// `isqrt(n)`.
pub proof fn lemma_isqrt_ge(n: int, x: int)
    requires
        n >= 0,
        x >= 0,
        x * x <= n,
    ensures
        isqrt(n) >= x,
{
    lemma_isqrt_bounds(n);
    if isqrt(n) < x {
        lemma_sq_lt(isqrt(n) + 1, x + 1);
        assert((isqrt(n) + 1) * (isqrt(n) + 1) <= x * x) by (nonlinear_arith)
            requires 0 <= isqrt(n) + 1 <= x;
    }
}

/// Any non-negative integer whose square exceeds `n` exceeds `isqrt(n)`.
pub proof fn lemma_isqrt_lt(n: int, x: int)
    requires
        n >= 0,
        x >= 0,
        n < x * x,
    ensures
        isqrt(n) < x,
{
    lemma_isqrt_bounds(n);
    if isqrt(n) >= x {
        assert(x * x <= isqrt(n) * isqrt(n)) by (nonlinear_arith)
            requires 0 <= x <= isqrt(n);
    }
}

/// `isqrt` is monotone.
pub proof fn lemma_isqrt_mono(a: int, b: int)
    requires
        0 <= a <= b,
    ensures
        isqrt(a) <= isqrt(b),
{
    lemma_isqrt_bounds(a);
    lemma_isqrt_ge(b, isqrt(a));
}

/// Multiplication commutes.
proof fn lemma_mul_comm(a: int, b: int)
    by (nonlinear_arith)
    ensures
        a * b == b * a,
{
}

/// Difference of squares.
proof fn lemma_diff_sq(x: int, y: int)
    by (nonlinear_arith)
    ensures
        x * x - y * y == (x - y) * (x + y),
{
}

/// Regrouping a product of four factors against a squared scale.
proof fn lemma_regroup4(p: int, b: int, t: int)
    by (nonlinear_arith)
    ensures
        (4 * p * b) * (t * t) == 4 * ((p * t) * (b * t)),
{
}

/// `4 p^2 q^2` as the square of `2 p q`.
proof fn lemma_twice_sq(p: int, q: int)
    by (nonlinear_arith)
    ensures
        (4 * (p * p)) * (q * q) == (2 * (p * q)) * (2 * (p * q)),
{
}

/// Shared setting of the two bridge lemmas: a squared quantity scaled by
/// `vscale()^2` and its integer root, with the root's coarse upper bound.
proof fn lemma_root_setup(a: int)
    requires
        0 <= a <= 4_000_000_000_000_000,
    ensures
        a * (vscale() * vscale()) >= 0,
        isqrt(a * (vscale() * vscale())) >= 0,
        isqrt(a * (vscale() * vscale())) * isqrt(a * (vscale() * vscale())) <= a * (vscale() * vscale()),
        a * (vscale() * vscale()) < (isqrt(a * (vscale() * vscale())) + 1) * (isqrt(a * (vscale() * vscale())) + 1),
        isqrt(a * (vscale() * vscale())) <= 100_000_000 * vscale(),
{
    let s = vscale();
    let ss = s * s;
    lemma_mul_nonneg(s, s);
    lemma_mul_nonneg(a, ss);
    lemma_isqrt_bounds(a * ss);
    lemma_sq_ge_one(s);
    lemma_mul_mono(a, 4_000_000_000_000_000, ss);
    lemma_mul_mono_strict(4_000_000_000_000_000, 10_000_000_000_000_000, ss);
    lemma_mul_swap(100_000_000, s, 100_000_000, s);
    assert(a * ss < (100_000_000 * s) * (100_000_000 * s));
    lemma_isqrt_lt(a * ss, 100_000_000 * s);
}

/// The key of a vertex-distance value is monotone in both the squared
/// distance and the height offset.
pub proof fn lemma_vkey_mono(s1: int, h1: int, s2: int, h2: int)
    requires
        0 <= s1 <= s2,
        h1 <= h2,
    ensures
        vkey(s1, h1) <= vkey(s2, h2),
{
    let ss = vscale() * vscale();
    lemma_mul_nonneg(vscale(), vscale());
    lemma_mul_mono(s1, s2, ss);
    lemma_mul_nonneg(s1, ss);
    lemma_isqrt_mono(s1 * ss, s2 * ss);
    lemma_mul_mono(h1, h2, vscale());
}

/// Soundness of the closed form: when it grants `sqrt(a) <= sqrt(b) + u`,
/// the integer keys are ordered the same way.
proof fn lemma_sle_cf_key(a: int, u: int, b: int)
    requires
        0 <= a <= 4_000_000_000_000_000,
        0 <= b <= 4_000_000_000_000_000,
        -2_000_000 <= u <= 2_000_000,
        sle_cf(a, u, b),
    ensures
        isqrt(a * (vscale() * vscale())) <= isqrt(b * (vscale() * vscale())) + u * vscale(),
{
    let s = vscale();
    let ss = s * s;
    let ra = isqrt(a * ss);
    let rb = isqrt(b * ss);
    lemma_root_setup(a);
    lemma_root_setup(b);
    lemma_sq_ge_one(s);
    lemma_expand_sq1(ra);
    lemma_expand_sq1(rb);
    assert(b * ss <= rb * rb + 2 * rb);
    assert(a * ss <= ra * ra + 2 * ra);
    if ra > rb + u * s {
        // Derive a contradiction from ra >= rb + u*s + 1.
        if u >= 0 {
            let us = u * s;
            lemma_mul_nonneg(u, s);
            lemma_mul_swap(u, s, u, s);
            assert(us * us == (u * u) * ss);
            lemma_expand_sq3(rb, us);
            assert((rb + us + 1) * (rb + us + 1) <= ra * ra) by (nonlinear_arith)
                requires
                    0 <= rb + us + 1,
                    rb + us + 1 <= ra,
            ;
            lemma_mul_nonneg(rb, us);
            if a <= b + u * u {
                lemma_mul_mono(a, b + u * u, ss);
                lemma_mul_dist(b, u * u, ss);
                // a*ss <= b*ss + us*us, b*ss <= rb^2 + 2rb, and the
                // expansion of (rb + us + 1)^2 give 1 + 2 rb us + 2 us <= 0.
                assert(rb * rb + us * us + 1 + 2 * (rb * us) + 2 * rb + 2 * us <= rb * rb + 2 * rb
                    + us * us);
                assert(false);
            } else {
                let d = a - (b + u * u);
                assert(d >= 1);
                assert(sq(d) <= 4 * (u * u) * b);
                if u == 0 {
                    assert(sq(d) >= 1) by (nonlinear_arith)
                        requires d >= 1;
                    assert(u * u == 0) by (nonlinear_arith)
                        requires u == 0;
                    assert(4 * (u * u) * b == 0) by (nonlinear_arith)
                        requires u * u == 0;
                    assert(false);
                }
                assert(u >= 1);
                // a*ss == b*ss + us^2 + d*ss
                lemma_mul_dist(b + u * u, d, ss);
                lemma_mul_dist(b, u * u, ss);
                assert(a * ss == b * ss + us * us + d * ss);
                assert(1 + 2 * (rb * us) + 2 * us <= d * ss);
                let t = us * (rb + 1);
                lemma_mul_dist(rb, 1, us);
                lemma_mul_comm(rb, us);
                lemma_mul_comm(us, rb + 1);
                assert(t == rb * us + us);
                lemma_mul_nonneg(us, rb + 1);
                let x = d * ss;
                assert(x >= 2 * t + 1);
                assert(x * x > (2 * t) * (2 * t)) by (nonlinear_arith)
                    requires
                        x >= 2 * t + 1,
                        t >= 0,
                ;
                // Meanwhile d^2 <= 4 u^2 b forces x^2 <= (2t)^2.
                lemma_mul_swap(d, ss, d, ss);
                assert(x * x == (d * d) * (ss * ss));
                lemma_mul_nonneg(ss, ss);
                lemma_mul_mono(d * d, 4 * (u * u) * b, ss * ss);
                lemma_regroup4(u * u, b, ss);
                assert((d * d) * (ss * ss) <= 4 * (((u * u) * ss) * (b * ss)));
                assert(b * ss <= (rb + 1) * (rb + 1));
                lemma_mul_nonneg(u * u, ss);
                lemma_mul_mono(b * ss, (rb + 1) * (rb + 1), (u * u) * ss);
                lemma_mul_comm(b * ss, (u * u) * ss);
                lemma_mul_comm((rb + 1) * (rb + 1), (u * u) * ss);
                lemma_twice_sq(us, rb + 1);
                assert((4 * (us * us)) * ((rb + 1) * (rb + 1)) == (2 * t) * (2 * t));
                assert(x * x <= (2 * t) * (2 * t)) by (nonlinear_arith)
                    requires
                        x * x == (d * d) * (ss * ss),
                        (d * d) * (ss * ss) <= 4 * (((u * u) * ss) * (b * ss)),
                        ((u * u) * ss) * (b * ss) <= ((u * u) * ss) * ((rb + 1) * (rb + 1)),
                        (4 * (us * us)) * ((rb + 1) * (rb + 1)) == (2 * t) * (2 * t),
                        us * us == (u * u) * ss,
                ;
                assert(false);
            }
        } else {
            let m = -u;
            let ms = m * s;
            lemma_mul_nonneg(m, s);
            assert(u * s == -ms) by (nonlinear_arith)
                requires
                    u == -m,
                    ms == m * s,
            ;
            let e = b - (a + u * u);
            assert(e >= 0);
            assert(4 * (u * u) * a <= sq(e));
            assert(u * u == m * m) by (nonlinear_arith)
                requires u == -m;
            assert(4 * (m * m) * a <= e * e);
            // rb + 1 <= ra + ms, so b*ss < (ra + ms)^2.
            assert(rb + 1 <= ra + ms);
            assert((rb + 1) * (rb + 1) <= (ra + ms) * (ra + ms)) by (nonlinear_arith)
                requires
                    0 <= rb + 1,
                    rb + 1 <= ra + ms,
            ;
            lemma_expand_sq2(ra, ms);
            lemma_mul_dist(a + m * m, e, ss);
            lemma_mul_dist(a, m * m, ss);
            lemma_mul_swap(m, s, m, s);
            assert(b * ss == a * ss + ms * ms + e * ss);
            assert(e * ss < 2 * (ra * ms));
            // e*s < 2 ra m after cancelling one factor of s.
            assert(e * ss == (e * s) * s) by (nonlinear_arith)
                requires ss == s * s;
            assert(2 * (ra * ms) == (2 * (m * ra)) * s) by (nonlinear_arith)
                requires ms == m * s;
            lemma_mul_cancel_strict(e * s, 2 * (m * ra), s);
            // But e^2 >= 4 m^2 a forces e*s >= 2 m ra.
            lemma_mul_nonneg(ss, 1);
            lemma_mul_mono(4 * (m * m) * a, e * e, ss);
            lemma_regroup4(m * m, a, ss);
            assert((4 * (m * m) * a) * (ss * ss) == 4 * (((m * m) * ss) * (a * ss)));
            // Work at scale ss directly instead.
            lemma_mul_mono(ra * ra, a * ss, 4 * (m * m));
            lemma_mul_comm(ra * ra, 4 * (m * m));
            lemma_mul_comm(a * ss, 4 * (m * m));
            lemma_twice_sq(m, ra);
            assert((2 * (m * ra)) * (2 * (m * ra)) <= (4 * (m * m)) * (a * ss));
            lemma_mul_swap(e, s, e, s);
            assert((e * s) * (e * s) == (e * e) * ss);
            lemma_mul_comm(4 * (m * m) * a, ss);
            lemma_mul_dist_flip(4 * (m * m), a, ss);
            assert((e * e) * ss >= (4 * (m * m)) * (a * ss));
            assert((e * s) * (e * s) >= (2 * (m * ra)) * (2 * (m * ra)));
            lemma_mul_nonneg(e, s);
            lemma_mul_nonneg(m, ra);
            assert(e * s >= 2 * (m * ra)) by (nonlinear_arith)
                requires
                    (e * s) * (e * s) >= (2 * (m * ra)) * (2 * (m * ra)),
                    e * s >= 0,
                    m * ra >= 0,
            ;
            assert(false);
        }
    }
}

/// Regrouping `(c p) t` as `c (p t)` for a literal-style coefficient.
proof fn lemma_mul_dist_flip(c: int, p: int, t: int)
    by (nonlinear_arith)
    ensures
        (c * p) * t == c * (p * t),
{
}

/// Completeness of the closed form: when it denies `sqrt(a) <= sqrt(b) + u`,
/// the integer keys are strictly ordered the other way. The scale is so
/// large that the least possible gap between the two real values still
/// exceeds the rounding of both integer roots.
proof fn lemma_nsle_cf_key(a: int, u: int, b: int)
    requires
        0 <= a <= 4_000_000_000_000_000,
        0 <= b <= 4_000_000_000_000_000,
        -2_000_000 <= u <= 2_000_000,
        !sle_cf(a, u, b),
    ensures
        isqrt(a * (vscale() * vscale())) > isqrt(b * (vscale() * vscale())) + u * vscale(),
{
    let s = vscale();
    let ss = s * s;
    let ra = isqrt(a * ss);
    let rb = isqrt(b * ss);
    lemma_root_setup(a);
    lemma_root_setup(b);
    lemma_sq_ge_one(s);
    lemma_expand_sq1(ra);
    lemma_expand_sq1(rb);
    assert(b * ss <= rb * rb + 2 * rb);
    assert(a * ss <= ra * ra + 2 * ra);
    if u >= 0 {
        let us = u * s;
        lemma_mul_nonneg(u, s);
        lemma_mul_swap(u, s, u, s);
        assert(us * us == (u * u) * ss);
        assert(us <= 2_000_000 * s) by (nonlinear_arith)
            requires
                us == u * s,
                u <= 2_000_000,
                s >= 1,
        ;
        let d = a - (b + u * u);
        assert(d >= 1);
        assert(sq(d) > 4 * (u * u) * b);
        // It is enough that (rb + us + 1)^2 <= a * ss.
        lemma_mul_dist(b + u * u, d, ss);
        lemma_mul_dist(b, u * u, ss);
        assert(a * ss == b * ss + us * us + d * ss);
        lemma_expand_sq3(rb, us);
        lemma_mul_nonneg(rb, us);
        assert(rb * rb <= b * ss);
        if u == 0 {
            assert(us == 0) by (nonlinear_arith)
                requires
                    us == u * s,
                    u == 0,
            ;
            // d*ss >= ss dominates the rounding terms.
            lemma_mul_comm(d, ss);
            lemma_mul_mono(1, d, ss);
            lemma_mul_comm(1, ss);
            assert(ss >= 1 * ss);
            assert(d * ss >= ss) by (nonlinear_arith)
                requires
                    d >= 1,
                    ss >= 1,
            ;
            assert(2 * rb + 1 <= ss) by (nonlinear_arith)
                requires
                    rb <= 100_000_000 * s,
                    ss == s * s,
                    s >= 1_000_000_000,
            ;
            assert((rb + us + 1) * (rb + us + 1) <= a * ss);
        } else {
            assert(u >= 1);
            let p = d * s;
            let q = 2 * (u * rb);
            // p^2 - q^2 >= ss, so p - q is positive and large.
            lemma_mul_swap(d, s, d, s);
            assert(p * p == (d * d) * ss);
            assert(d * d >= 4 * (u * u) * b + 1);
            lemma_mul_mono(4 * (u * u) * b + 1, d * d, ss);
            lemma_mul_dist(4 * (u * u) * b, 1, ss);
            lemma_mul_comm(1, ss);
            lemma_mul_dist_flip(4 * (u * u), b, ss);
            assert((4 * (u * u) * b) * ss == 4 * (u * u) * (b * ss)) by (nonlinear_arith);
            lemma_mul_mono(rb * rb, b * ss, 4 * (u * u));
            lemma_mul_comm(rb * rb, 4 * (u * u));
            lemma_mul_comm(b * ss, 4 * (u * u));
            lemma_twice_sq(u, rb);
            assert(q * q <= 4 * (u * u) * (b * ss));
            assert(p * p >= q * q + ss);
            lemma_diff_sq(p, q);
            assert((p - q) * (p + q) >= ss);
            // Coarse bounds on p + q.
            assert(p <= 4_000_000_000_000_000 * s) by (nonlinear_arith)
                requires
                    p == d * s,
                    d <= 4_000_000_000_000_000,
                    s >= 1,
            ;
            assert(q <= 400_000_000_000_000 * s) by (nonlinear_arith)
                requires
                    q == 2 * (u * rb),
                    u <= 2_000_000,
                    0 <= rb,
                    rb <= 100_000_000 * s,
                    s >= 1,
            ;
            assert(p + q <= 10_000_000_000_000_000 * s);
            lemma_mul_nonneg(u, rb);
            assert(p >= 1) by (nonlinear_arith)
                requires
                    p == d * s,
                    d >= 1,
                    s >= 1,
            ;
            let f = p - q;
            assert(f >= 1) by (nonlinear_arith)
                requires
                    f * (p + q) >= ss,
                    ss >= 1,
                    p + q >= 1,
            ;
            assert(f * (10_000_000_000_000_000 * s) >= f * (p + q)) by (nonlinear_arith)
                requires
                    f >= 1,
                    p + q <= 10_000_000_000_000_000 * s,
            ;
            // The rounding terms, blown up by the same coarse factor, still
            // fit under ss.
            assert((2 * rb + 2 * us + 1) * 10_000_000_000_000_000 <= ss) by (nonlinear_arith)
                requires
                    0 <= rb,
                    rb <= 100_000_000 * s,
                    0 <= us,
                    us <= 2_000_000 * s,
                    ss == s * s,
                    s >= 10_000_000_000_000_000_000_000_000,
            ;
            assert(f * (10_000_000_000_000_000 * s) == (f * s) * 10_000_000_000_000_000)
                by (nonlinear_arith);
            assert((f * s) * 10_000_000_000_000_000 >= ss);
            lemma_mul_cancel(2 * rb + 2 * us + 1, f * s, 10_000_000_000_000_000);
            assert(f * s >= 2 * rb + 2 * us + 1);
            // Unscale f * s back to d * ss - 2 (rb * us).
            assert(f * s == d * ss - 2 * (rb * us)) by (nonlinear_arith)
                requires
                    f == d * s - 2 * (u * rb),
                    ss == s * s,
                    us == u * s,
            ;
            assert((rb + us + 1) * (rb + us + 1) <= a * ss);
        }
        lemma_isqrt_ge(a * ss, rb + us + 1);
    } else {
        let m = -u;
        let ms = m * s;
        lemma_mul_nonneg(m, s);
        assert(u * s == -ms) by (nonlinear_arith)
            requires
                u == -m,
                ms == m * s,
        ;
        assert(u * u == m * m) by (nonlinear_arith)
            requires u == -m;
        assert(ms <= 2_000_000 * s) by (nonlinear_arith)
            requires
                ms == m * s,
                m <= 2_000_000,
                s >= 1,
        ;
        let e = b - (a + m * m);
        // Either the shifted root does not reach b at all, or it does but
        // not by the required square margin.
        lemma_expand_sq2(ra, ms);
        assert(ra * ra <= a * ss);
        lemma_mul_nonneg(ra, ms);
        if e < 0 {
            // b <= a + m^2 - 1
            lemma_mul_mono(b, a + m * m - 1, ss);
            lemma_mul_dist(a + m * m, -1, ss);
            lemma_mul_dist(a, m * m, ss);
            lemma_mul_swap(m, s, m, s);
            assert(b * ss <= a * ss + ms * ms - ss) by (nonlinear_arith)
                requires
                    b * ss <= (a + m * m - 1) * ss,
                    (a + m * m - 1) * ss == a * ss + (m * m) * ss + (-1) * ss,
                    (m * m) * ss == ms * ms,
                    (-1) * ss == -ss,
            ;
            assert((-1) * ss == -ss) by (nonlinear_arith);
            assert(2 * ra + 1 <= ss) by (nonlinear_arith)
                requires
                    0 <= ra,
                    ra <= 100_000_000 * s,
                    ss == s * s,
                    s >= 1_000_000_000,
            ;
            assert(b * ss < (ra + ms) * (ra + ms));
        } else {
            assert(e * e < 4 * (m * m) * a);
            assert(e * e <= 4 * (m * m) * a - 1);
            lemma_mul_dist(a + m * m, e, ss);
            lemma_mul_dist(a, m * m, ss);
            lemma_mul_swap(m, s, m, s);
            assert(b * ss == a * ss + ms * ms + e * ss);
            let es = e * s;
            let g2 = 2 * (m * (ra + 1));
            // g2^2 - es^2 >= ss.
            lemma_mul_swap(e, s, e, s);
            assert(es * es == (e * e) * ss);
            lemma_mul_mono(e * e, 4 * (m * m) * a - 1, ss);
            lemma_mul_dist(4 * (m * m) * a, -1, ss);
            assert((-1) * ss == -ss) by (nonlinear_arith);
            lemma_mul_dist_flip(4 * (m * m), a, ss);
            assert((4 * (m * m) * a) * ss == 4 * (m * m) * (a * ss)) by (nonlinear_arith);
            lemma_mul_mono(a * ss, ra * ra + 2 * ra, 4 * (m * m));
            lemma_mul_comm(a * ss, 4 * (m * m));
            lemma_mul_comm(ra * ra + 2 * ra, 4 * (m * m));
            lemma_expand_sq1(ra);
            lemma_twice_sq(m, ra + 1);
            assert(4 * (m * m) * ((ra + 1) * (ra + 1)) == g2 * g2) by (nonlinear_arith)
                requires
                    g2 == 2 * (m * (ra + 1)),
                    (4 * (m * m)) * ((ra + 1) * (ra + 1)) == (2 * (m * (ra + 1))) * (2 * (m * (ra
                        + 1))),
            ;
            assert(4 * (m * m) * (ra * ra + 2 * ra) <= g2 * g2 - 4 * (m * m)) by (nonlinear_arith)
                requires
                    4 * (m * m) * ((ra + 1) * (ra + 1)) == g2 * g2,
                    (ra + 1) * (ra + 1) == ra * ra + 2 * ra + 1,
            ;
            assert(m * m >= 1) by (nonlinear_arith)
                requires m >= 1;
            assert(es * es <= g2 * g2 - ss - 4 * (m * m));
            lemma_diff_sq(g2, es);
            assert((g2 - es) * (g2 + es) >= ss);
            // Coarse bounds.
            lemma_mul_nonneg(e, s);
            assert(es <= 4_000_000_000_000_000 * s) by (nonlinear_arith)
                requires
                    es == e * s,
                    e <= 4_000_000_000_000_000,
                    s >= 1,
            ;
            assert(g2 <= 400_000_000_000_000 * s + 4_000_000) by (nonlinear_arith)
                requires
                    g2 == 2 * (m * (ra + 1)),
                    1 <= m <= 2_000_000,
                    0 <= ra,
                    ra <= 100_000_000 * s,
                    s >= 1,
            ;
            assert(g2 + es <= 10_000_000_000_000_000 * s) by (nonlinear_arith)
                requires
                    es <= 4_000_000_000_000_000 * s,
                    g2 <= 400_000_000_000_000 * s + 4_000_000,
                    s >= 1_000_000_000,
            ;
            assert(g2 >= 2) by (nonlinear_arith)
                requires
                    g2 == 2 * (m * (ra + 1)),
                    m >= 1,
                    ra >= 0,
            ;
            let g = g2 - es;
            assert(g >= 1) by (nonlinear_arith)
                requires
                    g * (g2 + es) >= ss,
                    ss >= 1,
                    g2 + es >= 1,
            ;
            assert(g * (10_000_000_000_000_000 * s) >= g * (g2 + es)) by (nonlinear_arith)
                requires
                    g >= 1,
                    g2 + es <= 10_000_000_000_000_000 * s,
            ;
            assert((2 * ra + 2 * ms + 1) * 10_000_000_000_000_000 <= ss) by (nonlinear_arith)
                requires
                    0 <= ra,
                    ra <= 100_000_000 * s,
                    0 <= ms,
                    ms <= 2_000_000 * s,
                    ss == s * s,
                    s >= 10_000_000_000_000_000_000_000_000,
            ;
            assert(g * (10_000_000_000_000_000 * s) == (g * s) * 10_000_000_000_000_000)
                by (nonlinear_arith);
            assert((g * s) * 10_000_000_000_000_000 >= ss);
            lemma_mul_cancel(2 * ra + 2 * ms + 1, g * s, 10_000_000_000_000_000);
            assert(g * s >= 2 * ra + 2 * ms + 1);
            // Unscale: e * ss == g2 * s - g * s, and g2 * s expands to
            // 2 (ra * ms) + 2 (ms).
            assert(e * ss == (2 * (ra * ms) + 2 * ms) - g * s) by (nonlinear_arith)
                requires
                    g == 2 * (m * (ra + 1)) - e * s,
                    ss == s * s,
                    ms == m * s,
            ;
            assert(e * ss < 2 * (ra * ms) - 2 * ra);
            assert(b * ss < (ra + ms) * (ra + ms));
        }
        assert(ra + ms >= 0);
        lemma_isqrt_lt(b * ss, ra + ms);
        assert(rb < ra + ms);
    }
}

/// Rotating the middle factor out of a product.
proof fn lemma_mul_rot(a: int, b: int, c: int)
    by (nonlinear_arith)
    ensures
        (a * b) * c == (a * c) * b,
{
}

/// A subtree bound below every candidate: a candidate that is at least the
/// integer bound `g`, where `g` is itself no better than the best rational
/// seen, cannot improve on the best.
pub proof fn lemma_rat_prune(g: int, cn: int, cd: int, bn: int, bd: int)
    requires
        cd >= 1,
        bd >= 1,
        g * cd <= cn,
        bn <= g * bd,
    ensures
        !rat_lt(cn, cd, bn, bd),
{
    lemma_mul_mono(bn, g * bd, cd);
    lemma_mul_mono(g * cd, cn, bd);
    lemma_mul_rot(g, bd, cd);
    lemma_mul_rot(g, cd, bd);
    assert(bn * cd <= (g * cd) * bd);
}

/// The closed form decides exactly the key order: `sqrt(a) <= sqrt(b) + u`
/// holds in the key encoding if and only if the closed form holds.
pub proof fn lemma_sle_key(a: int, u: int, b: int)
    requires
        0 <= a <= 4_000_000_000_000_000,
        0 <= b <= 4_000_000_000_000_000,
        -2_000_000 <= u <= 2_000_000,
    ensures
        sle_cf(a, u, b) <==> isqrt(a * (vscale() * vscale())) <= isqrt(b * (vscale() * vscale()))
            + u * vscale(),
{
    if sle_cf(a, u, b) {
        lemma_sle_cf_key(a, u, b);
    } else {
        lemma_nsle_cf_key(a, u, b);
    }
}

/// Compares two rational squared distances exactly, by cross-multiplication.
pub fn rat_less(n1: i128, d1: i128, n2: i128, d2: i128) -> (r: bool)
    requires
        0 <= n1 as int <= 4_000_000_000_000_000_000_000_000,
        0 <= n2 as int <= 4_000_000_000_000_000_000_000_000,
        1 <= d1 as int <= 4_000_000_000_000,
        1 <= d2 as int <= 4_000_000_000_000,
    ensures
        r == rat_lt(n1 as int, d1 as int, n2 as int, d2 as int),
{
    proof {
        lemma_mul_le_order(n1 as int, d2 as int);
        lemma_mul_le_order(n2 as int, d1 as int);
    }
    n1 * d2 < n2 * d1
}

/// Bound for the cross-multiplied comparison.
proof fn lemma_mul_le_order(n: int, d: int)
    by (nonlinear_arith)
    requires
        0 <= n <= 4_000_000_000_000_000_000_000_000,
        1 <= d <= 4_000_000_000_000,
    ensures
        0 <= n * d <= 16_000_000_000_000_000_000_000_000_000_000_000_000,
{
}

/// Decides the strict key order of two vertex-distance values
/// `sqrt(s1) + h1 < sqrt(s2) + h2` through the closed form, without ever
/// computing the huge keys.
pub fn vertex_lt(s1: i64, h1: i64, s2: i64, h2: i64) -> (r: bool)
    requires
        0 <= s1 as int <= 4_000_000_000_000,
        0 <= s2 as int <= 4_000_000_000_000,
        -1_000_000 <= h1 as int <= 1_000_000,
        -1_000_000 <= h2 as int <= 1_000_000,
    ensures
        r == vlt(s1 as int, h1 as int, s2 as int, h2 as int),
{
    // The value order says sqrt(s1) + h1 < sqrt(s2) + h2, which fails
    // exactly when sqrt(s2) <= sqrt(s1) + (h1 - h2): evaluate that closed
    // form and negate.
    let a: i128 = s2 as i128;
    let b: i128 = s1 as i128;
    let u: i128 = (h1 - h2) as i128;
    proof {
        lemma_vertex_cf_bounds(a as int, u as int, b as int);
    }
    let holds: bool = if u >= 0 {
        if a <= b + u * u {
            true
        } else {
            let d: i128 = a - (b + u * u);
            d * d <= 4 * (u * u) * b
        }
    } else {
        if b >= a + u * u {
            let e: i128 = b - (a + u * u);
            4 * (u * u) * a <= e * e
        } else {
            false
        }
    };
    proof {
        let ai = s2 as int;
        let bi = s1 as int;
        let ui = h1 as int - h2 as int;
        assert(holds == sle_cf(ai, ui, bi));
        lemma_sle_key(ai, ui, bi);
        let s = vscale();
        let ss = s * s;
        assert((h1 as int - h2 as int) * s == h1 as int * s - h2 as int * s) by (nonlinear_arith);
        assert(vlt(s1 as int, h1 as int, s2 as int, h2 as int) == !(vkey(ai, h2 as int) <= vkey(
            bi, h1 as int)));
        assert((isqrt(ai * ss) <= isqrt(bi * ss) + ui * s) == (vkey(ai, h2 as int) <= vkey(bi,
            h1 as int)));
    }
    !holds
}

/// The intermediate quantities of the closed form stay well within `i128`.
proof fn lemma_vertex_cf_bounds(a: int, u: int, b: int)
    by (nonlinear_arith)
    requires
        0 <= a <= 4_000_000_000_000,
        0 <= b <= 4_000_000_000_000,
        -2_000_000 <= u <= 2_000_000,
    ensures
        0 <= u * u <= 4_000_000_000_000,
        -9_000_000_000_000 <= a - (b + u * u) <= 9_000_000_000_000,
        (a - (b + u * u)) * (a - (b + u * u)) <= 100_000_000_000_000_000_000_000_000,
        0 <= 4 * (u * u) * b <= 64_000_000_000_000_000_000_000_000,
        0 <= 4 * (u * u) * a <= 64_000_000_000_000_000_000_000_000,
        (b - (a + u * u)) * (b - (a + u * u)) <= 100_000_000_000_000_000_000_000_000,
        (b - (a + u * u)) * (b - (a + u * u)) >= 0,
        (a - (b + u * u)) * (a - (b + u * u)) >= 0,
{
}

} // verus!
