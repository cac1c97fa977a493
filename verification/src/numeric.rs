//! Integer arithmetic that the metrics share.

use vstd::arithmetic::div_mod::{
    lemma_div_is_ordered, lemma_div_multiples_vanish, lemma_div_pos_is_pos,
    lemma_fundamental_div_mod, lemma_mod_pos_bound,
};
use vstd::prelude::*;

verus! {

/// The quotient of `a` by a positive `b`, rounded toward zero.
pub open spec fn trunc_div(a: int, b: int) -> int {
    if a >= 0 {
        a / b
    } else {
        -((-a) / b)
    }
}

/// Dividing by a positive number and rounding toward zero brings a number
/// nearer to zero, and never across it.
pub proof fn lemma_trunc_div_shrinks(a: int, d: int)
    requires
        d >= 1,
    ensures
        0 <= trunc_div(a, d) <= a || a <= trunc_div(a, d) <= 0,
{
    if a >= 0 {
        lemma_div_pos_is_pos(a, d);
        assert(a <= d * a) by (nonlinear_arith)
            requires
                a >= 0,
                d >= 1,
        ;
        lemma_div_is_ordered(a, d * a, d);
        lemma_div_multiples_vanish(a, d);
    } else {
        lemma_div_pos_is_pos(-a, d);
        assert(-a <= d * (-a)) by (nonlinear_arith)
            requires
                -a >= 0,
                d >= 1,
        ;
        lemma_div_is_ordered(-a, d * (-a), d);
        lemma_div_multiples_vanish(-a, d);
    }
}

/// Whether `r` is the largest number whose square is at most `x`.
pub open spec fn is_root_of(r: int, x: int) -> bool {
    0 <= r && r * r <= x < (r + 1) * (r + 1)
}

/// Calls `num::integer::sqrt`, whose documentation gives the truncated
/// principal square root: the `r` with `r * r <= x < (r + 1) * (r + 1)`.
#[verifier::external_body]
pub(crate) fn integer_sqrt(x: u128) -> (r: u128)
    ensures
        is_root_of(r as int, x as int),
{
    num::integer::sqrt(x)
}

/// Numbers below this are widened before their root is taken, so that the
/// root is not rounded away.
pub const WIDE: u128 = 0x1000_0000_0000_0000_0000_0000_0000_0000;

/// The factor that widens `x`: `m` doubled for as long as `x`, taken four times
/// with each doubling, stays below `WIDE`.
pub open spec fn widened(x: int, m: int) -> int
    decreases
            if x < WIDE {
                WIDE - x
            } else {
                0
            },
{
    if 0 < x < WIDE {
        widened(4 * x, 2 * m)
    } else {
        m
    }
}

/// The factor that widens is at least the one it starts from.
pub proof fn lemma_widened_grows(x: int, m: int)
    requires
        m >= 1,
    ensures
        widened(x, m) >= m,
    decreases
            if x < WIDE {
                WIDE - x
            } else {
                0
            },
{
    if 0 < x < WIDE {
        lemma_widened_grows(4 * x, 2 * m);
    }
}

/// A number that is widened by its factor lies between `WIDE` and four times
/// `WIDE`: where `x` is `p` times the square of `m`, `p` times the square of the
/// factor does.
pub proof fn lemma_widened_wide(p: int, x: int, m: int)
    requires
        1 <= p,
        1 <= m,
        x == p * m * m,
        x < 4 * WIDE,
    ensures
        WIDE <= p * widened(x, m) * widened(x, m) < 4 * WIDE,
        widened(x, m) >= 1,
    decreases
            if x < WIDE {
                WIDE - x
            } else {
                0
            },
{
    assert(x >= 1) by (nonlinear_arith)
        requires
            x == p * m * m,
            1 <= p,
            1 <= m,
    ;
    if x < WIDE {
        assert(p * (2 * m) * (2 * m) == 4 * (p * m * m)) by (nonlinear_arith);
        lemma_widened_wide(p, 4 * x, 2 * m);
    }
}

/// The number `x` widened, and the factor that widens it.
pub fn widen(x: u128) -> (r: (u128, i128))
    requires
        0 < x < 4 * WIDE,
    ensures
        r.1 == widened(x as int, 1),
        r.0 == x * r.1 * r.1,
        WIDE <= r.0 < 4 * WIDE,
        1 <= r.1 < 0x8000_0000_0000_0000,
{
    let mut w: u128 = x;
    let mut k: i128 = 1;
    while w < WIDE
        invariant
            1 <= x,
            1 <= k <= w,
            w < 4 * WIDE,
            w == x * k * k,
            widened(w as int, k as int) == widened(x as int, 1),
        decreases
                if w < WIDE {
                    WIDE - w
                } else {
                    0
                },
    {
        assert(x * (2 * k) * (2 * k) == 4 * (x * k * k)) by (nonlinear_arith);
        w = 4 * w;
        k = 2 * k;
    }
    assert(k < 0x8000_0000_0000_0000) by (nonlinear_arith)
        requires
            w == x * k * k,
            x >= 1,
            k >= 1,
            w < 0x4000_0000_0000_0000_0000_0000_0000_0000,
    ;
    (w, k)
}

/// The sum of the squares of the components of `v`.
pub fn sum_of_squares(v: &[i32]) -> (r: u128)
    ensures
        r == sum_squares(v@),
        r <= 0x4000_0000_0000_0000 * v@.len(),
        r < 4 * WIDE,
{
    let mut acc: u128 = 0;
    let mut z: usize = 0;
    while z < v.len()
        invariant
            z <= v@.len(),
            acc == sum_squares(v@.take(z as int)),
            acc <= 0x4000_0000_0000_0000 * z,
        decreases v@.len() - z,
    {
        assert(v@.take(z + 1).drop_last() =~= v@.take(z as int));
        proof {
            lemma_product_bound(v@[z as int] as int, v@[z as int] as int);
            assert(v@[z as int] * v@[z as int] >= 0) by (nonlinear_arith);
        }
        let square: i128 = (v[z] as i128) * (v[z] as i128);
        acc = acc + square as u128;
        z += 1;
    }
    assert(v@.take(z as int) =~= v@);
    acc
}

/// The sum of the products of the components of `x` and `y`, over their common
/// positions from the end.
pub open spec fn dot(x: Seq<i32>, y: Seq<i32>) -> int
    decreases x.len(),
{
    if x.len() == 0 || y.len() == 0 {
        0
    } else {
        dot(x.drop_last(), y.drop_last()) + x.last() * y.last()
    }
}

/// The sum of the squares of the components of `x`.
pub open spec fn sum_squares(x: Seq<i32>) -> int {
    dot(x, x)
}

/// A sum of squares is not negative.
pub proof fn lemma_sum_squares_sign(x: Seq<i32>)
    ensures
        sum_squares(x) >= 0,
    decreases x.len(),
{
    if x.len() > 0 {
        lemma_sum_squares_sign(x.drop_last());
        let a = x.last() as int;
        assert(a * a >= 0) by (nonlinear_arith);
    }
}

/// The square of a component is at most the sum of the squares.
pub proof fn lemma_component_square(x: Seq<i32>, z: int)
    requires
        0 <= z < x.len(),
    ensures
        x[z] * x[z] <= sum_squares(x),
    decreases x.len(),
{
    lemma_sum_squares_sign(x.drop_last());
    let a = x.last() as int;
    assert(a * a >= 0) by (nonlinear_arith);
    if z < x.len() - 1 {
        lemma_component_square(x.drop_last(), z);
        assert(x.drop_last()[z] == x[z]);
    }
}

/// For `p`, `q`, `r` with `r * r <= p * q`, adding one component to each of two
/// vectors keeps the square of their dot product below the product of their
/// sums of squares.
proof fn lemma_schwarz_step(p: int, q: int, r: int, a: int, b: int)
    requires
        0 <= p,
        0 <= q,
        r * r <= p * q,
    ensures
        (r + a * b) * (r + a * b) <= (p + a * a) * (q + b * b),
{
    let aa = a * a;
    let bb = b * b;
    let ab = a * b;
    let u = p * bb + q * aa;
    let w = 2 * (r * ab);
    assert(aa >= 0 && bb >= 0) by (nonlinear_arith)
        requires
            aa == a * a,
            bb == b * b,
    ;
    assert(ab * ab == aa * bb) by (nonlinear_arith)
        requires
            aa == a * a,
            bb == b * b,
            ab == a * b,
    ;
    assert(u >= 0) by (nonlinear_arith)
        requires
            u == p * bb + q * aa,
            p >= 0,
            q >= 0,
            aa >= 0,
            bb >= 0,
    ;
    let rr = r * r;
    let pq = p * q;
    let m = aa * bb;
    assert(m >= 0) by (nonlinear_arith)
        requires
            m == aa * bb,
            aa >= 0,
            bb >= 0,
    ;
    assert(rr * m <= pq * m) by (nonlinear_arith)
        requires
            rr <= pq,
            m >= 0,
    ;
    assert(w * w == 4 * (rr * m)) by (nonlinear_arith)
        requires
            w == 2 * (r * ab),
            rr == r * r,
            ab * ab == m,
    ;
    let d = p * bb - q * aa;
    assert(u * u == d * d + 4 * (pq * m)) by (nonlinear_arith)
        requires
            u == p * bb + q * aa,
            d == p * bb - q * aa,
            pq == p * q,
            m == aa * bb,
    ;
    assert(d * d >= 0) by (nonlinear_arith);
    assert(w * w <= u * u);
    assert(w <= u) by (nonlinear_arith)
        requires
            w * w <= u * u,
            u >= 0,
    ;
    assert((r + ab) * (r + ab) == rr + w + m) by (nonlinear_arith)
        requires
            rr == r * r,
            w == 2 * (r * ab),
            m == ab * ab,
    ;
    assert((p + aa) * (q + bb) == pq + u + m) by (nonlinear_arith)
        requires
            pq == p * q,
            u == p * bb + q * aa,
            m == aa * bb,
    ;
}

/// The square of a dot product is at most the product of the two sums of
/// squares.
pub proof fn lemma_dot_bound(x: Seq<i32>, y: Seq<i32>)
    requires
        x.len() == y.len(),
    ensures
        dot(x, y) * dot(x, y) <= sum_squares(x) * sum_squares(y),
    decreases x.len(),
{
    if x.len() > 0 {
        lemma_dot_bound(x.drop_last(), y.drop_last());
        lemma_sum_squares_sign(x.drop_last());
        lemma_sum_squares_sign(y.drop_last());
        lemma_schwarz_step(
            sum_squares(x.drop_last()),
            sum_squares(y.drop_last()),
            dot(x.drop_last(), y.drop_last()),
            x.last() as int,
            y.last() as int,
        );
    } else {
        assert(dot(x, y) * dot(x, y) == 0);
        assert(sum_squares(x) * sum_squares(y) == 0);
    }
}

/// The number whose square comes nearest to `x` from below.
pub open spec fn root(x: int) -> int {
    choose|r: int| is_root_of(r, x)
}

/// Every number that is not negative has a root.
pub proof fn lemma_root_exists(x: int)
    requires
        0 <= x,
    ensures
        is_root_of(root(x), x),
    decreases x,
{
    if x == 0 {
        assert(is_root_of(0, x));
    } else {
        lemma_root_exists(x - 1);
        let r = root(x - 1);
        if (r + 1) * (r + 1) <= x {
            assert((r + 1) * (r + 1) == x) by (nonlinear_arith)
                requires
                    (r + 1) * (r + 1) <= x,
                    x - 1 < (r + 1) * (r + 1),
            ;
            assert(x < (r + 2) * (r + 2)) by (nonlinear_arith)
                requires
                    (r + 1) * (r + 1) == x,
                    r >= 0,
            ;
            assert(is_root_of(r + 1, x));
        } else {
            assert(is_root_of(r, x));
        }
    }
}

/// Only one number is the root of `x`.
pub proof fn lemma_root_unique(r: int, x: int)
    requires
        is_root_of(r, x),
    ensures
        root(x) == r,
{
    let s = root(x);
    assert(is_root_of(s, x));
    if s < r {
        assert((s + 1) * (s + 1) <= r * r) by (nonlinear_arith)
            requires
                0 <= s + 1 <= r,
        ;
    }
    if r < s {
        assert((r + 1) * (r + 1) <= s * s) by (nonlinear_arith)
            requires
                0 <= r + 1 <= s,
        ;
    }
}

/// What dividing by a positive `d` and rounding toward zero gives: the
/// quotient `t` with `t * d` between `a` and zero and less than `d` from `a`.
pub proof fn lemma_trunc_div_facts(a: int, d: int)
    requires
        d >= 1,
    ensures
        a >= 0 ==> trunc_div(a, d) * d <= a < (trunc_div(a, d) + 1) * d,
        a < 0 ==> (trunc_div(a, d) - 1) * d < a <= trunc_div(a, d) * d,
{
    if a >= 0 {
        lemma_fundamental_div_mod(a, d);
        lemma_mod_pos_bound(a, d);
        assert((a / d) * d == d * (a / d)) by (nonlinear_arith);
        assert((a / d + 1) * d == d * (a / d) + d) by (nonlinear_arith);
    } else {
        let n = -a;
        lemma_fundamental_div_mod(n, d);
        lemma_mod_pos_bound(n, d);
        let t = n / d;
        assert((-t) * d == -(d * t)) by (nonlinear_arith);
        assert((-t - 1) * d == -(d * t) - d) by (nonlinear_arith);
    }
}

/// The product of two 32-bit numbers is at most `2^62` in size.
pub proof fn lemma_product_bound(a: int, b: int)
    requires
        -0x8000_0000 <= a <= 0x8000_0000,
        -0x8000_0000 <= b <= 0x8000_0000,
    ensures
        -0x4000_0000_0000_0000 <= a * b <= 0x4000_0000_0000_0000,
{
    assert(-0x4000_0000_0000_0000 <= a * b <= 0x4000_0000_0000_0000) by (nonlinear_arith)
        requires
            -0x8000_0000 <= a <= 0x8000_0000,
            -0x8000_0000 <= b <= 0x8000_0000,
    ;
}

/// The dot product of the first `f` components of `x` and `y`.
pub fn dot_product(x: &[i32], y: &[i32], f: usize) -> (r: i128)
    requires
        f <= x@.len(),
        f <= y@.len(),
        f <= i32::MAX,
    ensures
        r == dot(x@.take(f as int), y@.take(f as int)),
        -0x4000_0000_0000_0000 * f <= r <= 0x4000_0000_0000_0000 * f,
{
    let mut acc: i128 = 0;
    let mut z: usize = 0;
    while z < f
        invariant
            z <= f,
            f <= x@.len(),
            f <= y@.len(),
            f <= i32::MAX,
            acc == dot(x@.take(z as int), y@.take(z as int)),
            -0x4000_0000_0000_0000 * z <= acc <= 0x4000_0000_0000_0000 * z,
        decreases f - z,
    {
        assert(x@.take(z + 1).drop_last() =~= x@.take(z as int));
        assert(y@.take(z + 1).drop_last() =~= y@.take(z as int));
        proof {
            lemma_product_bound(x@[z as int] as int, y@[z as int] as int);
        }
        acc = acc + (x[z] as i128) * (y[z] as i128);
        z += 1;
    }
    acc
}

} // verus!
