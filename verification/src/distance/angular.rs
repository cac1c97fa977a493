//! Angular distance, with splits through the origin.

use crate::distance::{
    difference, means_of, normalize, normalized, side_of, spanned, subtract, two_means, within,
    Distance, Metric, UNIT,
};
use crate::node::Node;
use crate::numeric::{
    dot, dot_product, integer_sqrt, lemma_dot_bound, lemma_root_exists, lemma_root_unique,
    lemma_sum_squares_sign, lemma_trunc_div_facts, lemma_trunc_div_shrinks, lemma_widened_grows,
    root, sum_squares, trunc_div, widen, widened,
};
use crate::random::random_flip;
use rand::rngs::StdRng;
use vstd::prelude::*;

verus! {

/// The angular metric: vectors are compared by the angle between them. It
/// admits components of up to 32767 in size: the product of two sums of
/// squares must fit 128 bits at every dimension that an index can have.
pub struct Angular {}

/// The angular distance of two vectors with the dot product `pq` and the
/// product `ppqq` of their sums of squares, in parts of `UNIT`: twice the
/// cosine of the angle between them, taken from 2. The cosine is the dot
/// product divided by the root of `ppqq`, both widened by the same factor
/// before the root is taken. Where `ppqq` is zero the distance is 2.
pub open spec fn cosine_gap(pq: int, ppqq: int) -> int {
    if ppqq > 0 {
        let k = widened(ppqq, 1);
        2 * UNIT - trunc_div(2 * UNIT * (pq * k), root(ppqq * k * k))
    } else {
        2 * UNIT
    }
}

/// The angular distance between `x` and `y`, in parts of `UNIT`.
pub open spec fn angle_gap(x: Seq<i32>, y: Seq<i32>) -> int {
    cosine_gap(dot(x, y), sum_squares(x) * sum_squares(y))
}

/// Whether whole numbers cannot tell the directions of `x` and `y` apart:
/// neither is the zero vector, and their widened dot product is the root,
/// rounded down, of the widened product of their sums of squares. Vectors that
/// point the same way are such, and so are some that very nearly do.
pub open spec fn not_told_apart(x: Seq<i32>, y: Seq<i32>) -> bool {
    let ppqq = sum_squares(x) * sum_squares(y);
    let k = widened(ppqq, 1);
    ppqq > 0 && dot(x, y) * k == root(ppqq * k * k)
}

/// Whether `v` is the normal of the split through the origin that parts the
/// centroids `iv` and `jv`: their difference, brought to the length `UNIT`.
pub open spec fn parts(v: Seq<i32>, iv: Seq<i32>, jv: Seq<i32>) -> bool {
    iv.len() == jv.len() && v == normalized(difference(iv, jv))
}

/// What holds of the angular distance wherever the square of the dot product
/// is at most the product of the sums of squares: it lies between 0 and 4, and
/// it is 0 only where the widened dot product is the root of the widened
/// product.
pub proof fn lemma_cosine_gap(pq: int, ppqq: int)
    requires
        0 <= ppqq,
        pq * pq <= ppqq,
    ensures
        0 <= cosine_gap(pq, ppqq) <= 4 * UNIT,
        cosine_gap(pq, ppqq) == 0 <==> ppqq > 0 && pq * widened(ppqq, 1) == root(
            ppqq * widened(ppqq, 1) * widened(ppqq, 1),
        ),
{
    if ppqq > 0 {
        let k = widened(ppqq, 1);
        lemma_widened_grows(ppqq, 1);
        let w = ppqq * k * k;
        let p = pq * k;
        assert(w >= 1 && p * p <= w) by (nonlinear_arith)
            requires
                w == ppqq * k * k,
                p == pq * k,
                pq * pq <= ppqq,
                ppqq >= 1,
                k >= 1,
        ;
        lemma_root_exists(w);
        let r = root(w);
        assert(r >= 1) by (nonlinear_arith)
            requires
                w < (r + 1) * (r + 1),
                w >= 1,
                r >= 0,
        ;
        if p > r {
            assert(p * p >= (r + 1) * (r + 1)) by (nonlinear_arith)
                requires
                    p >= r + 1,
                    r >= 0,
            ;
        }
        if p < -r {
            assert(p * p >= (r + 1) * (r + 1)) by (nonlinear_arith)
                requires
                    -p >= r + 1,
                    r >= 0,
            ;
        }
        let u = 2 * UNIT;
        lemma_trunc_div_facts(u * p, r);
        lemma_trunc_div_shrinks(u * p, r);
        let t = trunc_div(u * p, r);
        if p >= 0 {
            assert(u * p >= 0) by (nonlinear_arith)
                requires
                    p >= 0,
                    u >= 0,
            ;
            assert(t <= u) by (nonlinear_arith)
                requires
                    t * r <= u * p,
                    p <= r,
                    r >= 1,
                    u >= 0,
            ;
            if p == r {
                assert(t >= u) by (nonlinear_arith)
                    requires
                        u * r < (t + 1) * r,
                        r >= 1,
                ;
            }
            if t == u {
                assert(p >= r) by (nonlinear_arith)
                    requires
                        t * r <= u * p,
                        t == u,
                        u > 0,
                ;
            }
        } else {
            assert(u * p < 0) by (nonlinear_arith)
                requires
                    p < 0,
                    u > 0,
            ;
            assert(t >= -u) by (nonlinear_arith)
                requires
                    u * p <= t * r,
                    -r <= p,
                    r >= 1,
                    u >= 0,
            ;
        }
    }
}

/// Vectors that point the same way, which is where the square of their dot
/// product is the product of their sums of squares and the dot product is not
/// negative, are not told apart: their angular distance is 0.
pub proof fn lemma_same_way_is_zero(x: Seq<i32>, y: Seq<i32>)
    requires
        0 <= dot(x, y),
        0 < sum_squares(x) * sum_squares(y),
        dot(x, y) * dot(x, y) == sum_squares(x) * sum_squares(y),
    ensures
        not_told_apart(x, y),
        angle_gap(x, y) == 0,
{
    let pq = dot(x, y);
    let ppqq = sum_squares(x) * sum_squares(y);
    let k = widened(ppqq, 1);
    lemma_widened_grows(ppqq, 1);
    let w = ppqq * k * k;
    let p = pq * k;
    assert(p * p == w && p >= 0 && w < (p + 1) * (p + 1)) by (nonlinear_arith)
        requires
            p == pq * k,
            w == ppqq * k * k,
            pq * pq == ppqq,
            pq >= 0,
            k >= 1,
    ;
    lemma_root_unique(p, w);
    lemma_cosine_gap(pq, ppqq);
}

/// No angular distance is negative or above 4, in parts of `UNIT`.
pub proof fn lemma_angle_gap_range(x: Seq<i32>, y: Seq<i32>)
    requires
        x.len() == y.len(),
    ensures
        0 <= angle_gap(x, y) <= 4 * UNIT,
{
    lemma_sum_squares_sign(x);
    lemma_sum_squares_sign(y);
    lemma_dot_bound(x, y);
    let ppqq = sum_squares(x) * sum_squares(y);
    assert(ppqq >= 0) by (nonlinear_arith)
        requires
            ppqq == sum_squares(x) * sum_squares(y),
            sum_squares(x) >= 0,
            sum_squares(y) >= 0,
    ;
    lemma_cosine_gap(dot(x, y), ppqq);
}

/// Whether `v` is the normal of a split against vectors of dimension `f`.
pub open spec fn is_normal(v: Seq<i32>, f: nat) -> bool {
    &&& v.len() == f
    &&& f <= i32::MAX
}

/// The signed margin of `y` against the split through the origin with normal
/// `n.v`: their dot product.
pub fn origin_margin(n: &Node, y: &[i32]) -> (r: i128)
    requires
        is_normal(n.v@, y@.len()),
    ensures
        r == dot(n.v@, y@),
        r > i128::MIN,
{
    let f = y.len();
    assert(n.v@.take(f as int) =~= n.v@);
    assert(y@.take(f as int) =~= y@);
    let d = dot_product(n.v.as_slice(), y, f);
    assert(-0x4000_0000_0000_0000 * 0x8000_0000 <= d <= 0x4000_0000_0000_0000 * 0x8000_0000)
        by (nonlinear_arith)
        requires
            -0x4000_0000_0000_0000 * f <= d <= 0x4000_0000_0000_0000 * f,
            0 <= f <= 0x8000_0000,
    ;
    d
}

impl Metric for Angular {
    open spec fn reach() -> int {
        0x7fff
    }

    fn reach_limit() -> (r: i64) {
        0x7fff
    }

    open spec fn distance_of(x: Seq<i32>, y: Seq<i32>) -> int {
        angle_gap(x, y)
    }

    open spec fn alike(x: Seq<i32>, y: Seq<i32>) -> bool {
        not_told_apart(x, y)
    }

    proof fn lemma_distance_zero(x: Seq<i32>, y: Seq<i32>) {
        lemma_angle_gap_range(x, y);
        lemma_sum_squares_sign(x);
        lemma_sum_squares_sign(y);
        lemma_dot_bound(x, y);
        let ppqq = sum_squares(x) * sum_squares(y);
        assert(ppqq >= 0) by (nonlinear_arith)
            requires
                ppqq == sum_squares(x) * sum_squares(y),
                sum_squares(x) >= 0,
                sum_squares(y) >= 0,
        ;
        lemma_cosine_gap(dot(x, y), ppqq);
    }

    fn distance(x: &[i32], y: &[i32], f: usize) -> (r: i128) {
        let mut pp: i128 = 0;
        let mut qq: i128 = 0;
        let mut pq: i128 = 0;
        let mut z: usize = 0;
        while z < f
            invariant
                z <= f,
                f <= x@.len(),
                f <= y@.len(),
                f <= i32::MAX,
                within(x@.take(f as int), 0x7fff),
                within(y@.take(f as int), 0x7fff),
                pp == sum_squares(x@.take(z as int)),
                qq == sum_squares(y@.take(z as int)),
                pq == dot(x@.take(z as int), y@.take(z as int)),
                0 <= pp <= 0x4000_0000 * z,
                0 <= qq <= 0x4000_0000 * z,
                -0x4000_0000 * z <= pq <= 0x4000_0000 * z,
            decreases f - z,
        {
            assert(x@.take(z + 1).drop_last() =~= x@.take(z as int));
            assert(y@.take(z + 1).drop_last() =~= y@.take(z as int));
            assert(x@.take(f as int)[z as int] == x@[z as int]);
            assert(y@.take(f as int)[z as int] == y@[z as int]);
            let a: i128 = x[z] as i128;
            let b: i128 = y[z] as i128;
            assert(0 <= a * a <= 0x4000_0000 && 0 <= b * b <= 0x4000_0000 && -0x4000_0000 <= a * b
                <= 0x4000_0000) by (nonlinear_arith)
                requires
                    -0x7fff <= a <= 0x7fff,
                    -0x7fff <= b <= 0x7fff,
            ;
            pp = pp + a * a;
            qq = qq + b * b;
            pq = pq + a * b;
            z += 1;
        }
        assert(0 <= pp * qq <= 0x2000_0000_0000_0000 * 0x2000_0000_0000_0000) by (nonlinear_arith)
            requires
                0 <= pp <= 0x4000_0000 * f,
                0 <= qq <= 0x4000_0000 * f,
                0 <= f <= 0x8000_0000,
        ;
        assert(-0x2000_0000_0000_0000 <= pq <= 0x2000_0000_0000_0000) by (nonlinear_arith)
            requires
                -0x4000_0000 * f <= pq <= 0x4000_0000 * f,
                0 <= f <= 0x8000_0000,
        ;
        let ppqq: i128 = pp * qq;
        proof {
            assert(x@.take(z as int) =~= x@.take(f as int));
            assert(y@.take(z as int) =~= y@.take(f as int));
            lemma_dot_bound(x@.take(f as int), y@.take(f as int));
            lemma_cosine_gap(pq as int, ppqq as int);
        }
        if ppqq > 0 {
            let (w, k) = widen(ppqq as u128);
            let s = integer_sqrt(w);
            proof {
                lemma_root_unique(s as int, w as int);
                assert(-0x2000_0000_0000_0000 * 0x8000_0000_0000_0000 <= pq * k
                    <= 0x2000_0000_0000_0000 * 0x8000_0000_0000_0000) by (nonlinear_arith)
                    requires
                        -0x2000_0000_0000_0000 <= pq <= 0x2000_0000_0000_0000,
                        1 <= k < 0x8000_0000_0000_0000,
                ;
            }
            let p: i128 = pq * k;
            proof {
                assert(p * p <= w) by (nonlinear_arith)
                    requires
                        p == pq * k,
                        w == ppqq * k * k,
                        pq * pq <= ppqq,
                        k >= 1,
                ;
                assert(1 <= s < 0x8000_0000_0000_0000 && -s <= p <= s) by (nonlinear_arith)
                    requires
                        s * s <= w,
                        w < (s + 1) * (s + 1),
                        p * p <= w,
                        1 <= w < 0x4000_0000_0000_0000_0000_0000_0000_0000,
                        0 <= s,
                ;
                assert(-0x2_0000 * 0x8000_0000_0000_0000 <= 0x2_0000 * p <= 0x2_0000
                    * 0x8000_0000_0000_0000) by (nonlinear_arith)
                    requires
                        -0x8000_0000_0000_0000 <= p <= 0x8000_0000_0000_0000,
                ;
            }
            let num: i128 = 2 * (UNIT as i128) * p;
            let t: i128 = num / (s as i128);
            assert(t == trunc_div(2 * UNIT * (pq * k), s as int));
            2 * (UNIT as i128) - t
        } else {
            2 * (UNIT as i128)
        }
    }
}

impl Distance for Angular {
    open spec fn is_split(v: Seq<i32>, a: int, f: nat) -> bool {
        is_normal(v, f)
    }

    open spec fn margin_of(v: Seq<i32>, a: int, y: Seq<i32>) -> int {
        dot(v, y)
    }

    /// The normal of the split parts two centroids that the two-means heuristic
    /// can find among the items.
    open spec fn made_of(nodes: Seq<&Node>, f: nat, v: Seq<i32>, a: int) -> bool {
        exists|iv: Seq<i32>, jv: Seq<i32>| #[trigger]
            parts(v, iv, jv) && means_of::<Angular>(nodes, iv, jv) && spanned(nodes, iv)
                && spanned(nodes, jv)
    }

    fn holds_split(n: &Node, f: usize) -> (r: bool) {
        n.v.len() == f && f <= i32::MAX as usize
    }

    fn margin(n: &Node, y: &[i32]) -> (r: i128) {
        origin_margin(n, y)
    }

    fn side(n: &Node, y: &[i32], rng: &mut StdRng) -> (r: bool) {
        let m = origin_margin(n, y);
        let coin = m == 0 && random_flip(rng);
        side_of(m, coin)
    }

    fn create_split(nodes: &Vec<&Node>, n: &mut Node, f: usize, rng: &mut StdRng)
        ensures
            final(n).a == old(n).a,
    {
        let means = two_means::<Angular>(rng, nodes, f);
        let diff = subtract(means.0.as_slice(), means.1.as_slice());
        n.v = normalize(diff.as_slice());
        assert(parts(n.v@, means.0@, means.1@));
    }
}

} // verus!
