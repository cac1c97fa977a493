//! The metric plug-ins: what a metric must provide, and helpers they share.

use crate::node::Node;
use crate::numeric::{
    integer_sqrt, is_root_of, lemma_component_square, lemma_root_exists, lemma_root_unique,
    lemma_sum_squares_sign, lemma_trunc_div_facts, lemma_trunc_div_shrinks, lemma_widened_wide,
    root, sum_of_squares, sum_squares, trunc_div, widen, widened, WIDE,
};
use crate::random::{random_u64, random_usize};
use rand::rngs::StdRng;
use vstd::arithmetic::div_mod::{
    lemma_div_is_ordered, lemma_div_multiples_vanish, lemma_div_pos_is_pos,
};
use vstd::prelude::*;

pub mod angular;
pub mod euclidean;
pub mod hamming;
pub mod manhattan;

pub use angular::Angular;
pub use euclidean::Euclidean;
pub use hamming::Hamming;
pub use manhattan::Manhattan;

verus! {

/// No raw distance is larger than this in size, so that a distance can be
/// weighted by a count.
pub const DISTANCE_LIMIT: i128 = 0x10_0000_0000_0000_0000_0000_0000;

/// No offset of a split is larger than this in size.
pub const OFFSET_LIMIT: i128 = 0x10_0000_0000_0000_0000_0000_0000;

/// The rounds of the two-means heuristic.
pub const ITERATION_STEPS: usize = 200;

/// Whether no component of `v` is larger than `reach` in size.
pub open spec fn within(v: Seq<i32>, reach: int) -> bool {
    forall|i: int| 0 <= i < v.len() ==> -reach <= #[trigger] v[i] <= reach
}

/// How two vectors are compared.
pub trait Metric: Sized {
    /// The largest size of a component that the metric's arithmetic can hold.
    spec fn reach() -> int;

    /// The raw distance between `x` and `y`.
    spec fn distance_of(x: Seq<i32>, y: Seq<i32>) -> int;

    /// Whether the metric takes `x` and `y` for the same vector.
    spec fn alike(x: Seq<i32>, y: Seq<i32>) -> bool;

    /// No distance is negative, and the distance is zero between the vectors
    /// that the metric takes for the same, and only between them.
    proof fn lemma_distance_zero(x: Seq<i32>, y: Seq<i32>)
        requires
            x.len() == y.len(),
            within(x, Self::reach()),
            within(y, Self::reach()),
        ensures
            Self::distance_of(x, y) >= 0,
            Self::distance_of(x, y) == 0 <==> Self::alike(x, y),
    ;

    /// The largest size of a component that the metric's arithmetic can hold.
    fn reach_limit() -> (r: i64)
        ensures
            r == Self::reach(),
            0 <= r <= 0x8000_0000,
    ;

    /// The raw distance between the first `f` components of `x` and of `y`.
    fn distance(x: &[i32], y: &[i32], f: usize) -> (r: i128)
        requires
            f <= x@.len(),
            f <= y@.len(),
            f <= i32::MAX,
            within(x@.take(f as int), Self::reach()),
            within(y@.take(f as int), Self::reach()),
        ensures
            r == Self::distance_of(x@.take(f as int), y@.take(f as int)),
            -DISTANCE_LIMIT <= r <= DISTANCE_LIMIT,
    ;
}

/// A metric together with its splits: how a set of items is divided in two.
pub trait Distance: Metric {
    /// Whether the vector `v` and the offset `a` describe a split that `margin`
    /// and `side` can evaluate against vectors of dimension `f`.
    spec fn is_split(v: Seq<i32>, a: int, f: nat) -> bool;

    /// The signed margin of `y` against the split that `v` and `a` describe.
    spec fn margin_of(v: Seq<i32>, a: int, y: Seq<i32>) -> int;

    /// Whether the vector `v` and the offset `a` describe a split that the
    /// metric can make of the items `nodes` of dimension `f`, whatever is drawn.
    spec fn made_of(nodes: Seq<&Node>, f: nat, v: Seq<i32>, a: int) -> bool;

    /// Whether `n` holds a split against vectors of dimension `f`.
    fn holds_split(n: &Node, f: usize) -> (r: bool)
        ensures
            r == Self::is_split(n.v@, n.a as int, f as nat),
    ;

    /// The signed margin of `y` against the split held in `n`. It is never the
    /// least number, so that it can be negated.
    fn margin(n: &Node, y: &[i32]) -> (r: i128)
        requires
            Self::is_split(n.v@, n.a as int, y@.len()),
        ensures
            r == Self::margin_of(n.v@, n.a as int, y@),
            r > i128::MIN,
    ;

    /// The side of the split held in `n` that `y` lies on: that of its margin's
    /// sign, and either side where the margin is zero.
    fn side(n: &Node, y: &[i32], rng: &mut StdRng) -> (r: bool)
        requires
            Self::is_split(n.v@, n.a as int, y@.len()),
        ensures
            Self::margin_of(n.v@, n.a as int, y@) != 0 ==> r == (Self::margin_of(
                n.v@,
                n.a as int,
                y@,
            ) > 0),
    ;

    /// Fills `n` with a split of the items `nodes`.
    fn create_split(nodes: &Vec<&Node>, n: &mut Node, f: usize, rng: &mut StdRng)
        requires
            0 < f <= i32::MAX,
            nodes@.len() >= 2,
            forall|i: int|
                0 <= i < nodes@.len() ==> (#[trigger] nodes@[i]).v@.len() == f && within(
                    nodes@[i].v@,
                    Self::reach(),
                ),
            old(n).v@.len() == f,
        ensures
            Self::is_split(final(n).v@, final(n).a as int, f as nat),
            Self::made_of(nodes@, f as nat, final(n).v@, final(n).a as int),
            final(n).v@.len() == f,
            final(n).children == old(n).children,
            final(n).n_descendants == old(n).n_descendants,
    ;
}

/// The side that a margin and a coin decide: that of the margin's sign, and
/// that of the coin where the margin is zero.
pub fn side_of(margin: i128, coin: bool) -> (r: bool)
    ensures
        r == if margin != 0 {
            margin > 0
        } else {
            coin
        },
{
    if margin != 0 {
        margin > 0
    } else {
        coin
    }
}

/// Whether every component of `v` is within the reach of the metric `D`.
pub open spec fn admits<D: Metric>(v: Seq<i32>) -> bool {
    within(v, D::reach())
}

/// Whether every component of `v` is within the reach of the metric `D`.
pub fn accepts<D: Metric>(v: &[i32]) -> (r: bool)
    ensures
        r == admits::<D>(v@),
{
    let reach = D::reach_limit();
    let mut i: usize = 0;
    while i < v.len()
        invariant
            i <= v@.len(),
            reach == D::reach(),
            0 <= reach <= 0x8000_0000,
            forall|j: int| 0 <= j < i ==> -D::reach() <= #[trigger] v@[j] <= D::reach(),
        decreases v@.len() - i,
    {
        if (v[i] as i64) < -reach || (v[i] as i64) > reach {
            return false;
        }
        i += 1;
    }
    true
}

/// The square root of the sum of the squares of the components of `v`, rounded
/// down.
pub fn get_norm(v: &[i32]) -> (r: u64)
    ensures
        is_root_of(r as int, sum_squares(v@)),
{
    let acc = sum_of_squares(v);
    let r = integer_sqrt(acc);
    assert(r < 0x1_0000_0000_0000_0000) by (nonlinear_arith)
        requires
            r * r <= acc,
            acc < 0x4000_0000_0000_0000_0000_0000_0000_0000,
            0 <= r,
    ;
    r as u64
}

/// The length that a normalized vector is brought to: a component of a
/// normalized vector stands for as many parts of `UNIT` as it holds.
pub const UNIT: i32 = 0x1_0000;

/// Component `x` of a vector whose squares sum to `sum`, as parts of `UNIT` of
/// the vector's length, rounded toward zero. The length is the root of `sum`;
/// both it and the component are widened by the same factor before the root
/// is taken, so that the length is not rounded to a whole number. A component
/// of the zero vector is left as it is.
pub open spec fn scaled(x: i32, sum: int) -> int {
    if sum <= 0 {
        x as int
    } else {
        let k = widened(sum, 1);
        trunc_div(x * UNIT * k, root(sum * k * k))
    }
}

/// The vector `v` brought to the length `UNIT`.
pub open spec fn normalized(v: Seq<i32>) -> Seq<i32> {
    Seq::new(v.len(), |z: int| scaled(v[z], sum_squares(v)) as i32)
}

/// What holds of a component of a vector that is not zero, once it is brought
/// to the length `UNIT`: with `r` the root of the widened sum of squares and
/// `c` the factor times `UNIT`, the component times `r` lies within `r` of the
/// old component times `c`, toward zero.
pub proof fn lemma_scaled(v: Seq<i32>, z: int)
    requires
        0 <= z < v.len(),
        0 < sum_squares(v) < 4 * WIDE,
    ensures
        -UNIT <= scaled(v[z], sum_squares(v)) <= UNIT,
        ({
            let k = widened(sum_squares(v), 1);
            let r = root(sum_squares(v) * k * k);
            let o = scaled(v[z], sum_squares(v));
            &&& o * o * (r * r) <= v[z] * v[z] * (UNIT * k * (UNIT * k))
            &&& v[z] * v[z] * (UNIT * k * (UNIT * k)) <= (o * o + 2 * UNIT + 1) * (r * r)
        }),
{
    let s = sum_squares(v);
    let k = widened(s, 1);
    lemma_widened_wide(s, s, 1);
    let w = s * k * k;
    lemma_root_exists(w);
    let r = root(w);
    let x = v[z] as int;
    lemma_component_square(v, z);
    let xk = x * k;
    assert(xk * xk <= w) by (nonlinear_arith)
        requires
            xk == x * k,
            w == s * k * k,
            x * x <= s,
            k >= 1,
    ;
    assert(r >= UNIT && -r <= xk <= r) by (nonlinear_arith)
        requires
            xk * xk <= w,
            r * r <= w,
            w < (r + 1) * (r + 1),
            w >= 0x1000_0000_0000_0000_0000_0000_0000_0000,
            r >= 0,
            UNIT == 0x1_0000,
    ;
    let c = UNIT * k;
    let a = x * UNIT * k;
    assert(a == x * c && a == UNIT * xk) by (nonlinear_arith)
        requires
            a == x * UNIT * k,
            c == UNIT * k,
            xk == x * k,
    ;
    lemma_trunc_div_facts(a, r);
    lemma_trunc_div_shrinks(a, r);
    let o = trunc_div(a, r);
    assert(-UNIT <= o <= UNIT) by (nonlinear_arith)
        requires
            a == UNIT * xk,
            -r <= xk <= r,
            r >= 1,
            a >= 0 ==> o * r <= a,
            a < 0 ==> a <= o * r,
            0 <= o <= a || a <= o <= 0,
            UNIT == 0x1_0000,
    ;
    assert((o >= 0 ==> o * r >= 0) && (o <= 0 ==> o * r <= 0)) by (nonlinear_arith)
        requires
            r >= 1,
    ;
    assert(o * o * (r * r) <= a * a) by (nonlinear_arith)
        requires
            a >= 0 ==> 0 <= o * r <= a,
            a < 0 ==> a <= o * r <= 0,
    ;
    assert(a * a <= (o * o + 2 * UNIT + 1) * (r * r)) by (nonlinear_arith)
        requires
            a >= 0 ==> 0 <= o && a < (o + 1) * r,
            a < 0 ==> o <= 0 && (o - 1) * r < a,
            -UNIT <= o <= UNIT,
            r >= 1,
            UNIT == 0x1_0000,
    ;
    assert(a * a == x * x * (c * c)) by (nonlinear_arith)
        requires
            a == x * c,
    ;
}

/// Two vectors whose squares, each times a weight, bound each other component
/// by component do so in sum.
proof fn lemma_sums_bound(a: Seq<i32>, b: Seq<i32>, rr: int, cc: int, e: int)
    requires
        a.len() == b.len(),
        forall|z: int|
            0 <= z < a.len() ==> (#[trigger] a[z]) * a[z] * rr <= b[z] * b[z] * cc && b[z] * b[z]
                * cc <= (a[z] * a[z] + e) * rr,
    ensures
        sum_squares(a) * rr <= sum_squares(b) * cc,
        sum_squares(b) * cc <= (sum_squares(a) + a.len() * e) * rr,
    decreases a.len(),
{
    if a.len() > 0 {
        let n = a.len() - 1;
        assert forall|z: int|
            0 <= z < a.drop_last().len() implies (#[trigger] a.drop_last()[z]) * a.drop_last()[z]
            * rr <= b.drop_last()[z] * b.drop_last()[z] * cc && b.drop_last()[z] * b.drop_last()[z]
            * cc <= (a.drop_last()[z] * a.drop_last()[z] + e) * rr by {
            assert(a.drop_last()[z] == a[z]);
            assert(b.drop_last()[z] == b[z]);
            assert(a[z] * a[z] * rr <= b[z] * b[z] * cc);
        }
        lemma_sums_bound(a.drop_last(), b.drop_last(), rr, cc, e);
        let sa = sum_squares(a.drop_last());
        let sb = sum_squares(b.drop_last());
        let x = a[n] * a[n];
        let y = b[n] * b[n];
        assert(a[n] * a[n] * rr <= b[n] * b[n] * cc);
        assert((sa + x) * rr <= (sb + y) * cc && (sb + y) * cc <= (sa + x + (n + 1) * e) * rr)
            by (nonlinear_arith)
            requires
                sa * rr <= sb * cc,
                sb * cc <= (sa + n * e) * rr,
                x * rr <= y * cc,
                y * cc <= (x + e) * rr,
        ;
    } else {
        assert(sum_squares(a) * rr == 0 && sum_squares(b) * cc == 0 && (sum_squares(a) + a.len()
            * e) * rr == 0) by (nonlinear_arith)
            requires
                sum_squares(a) == 0,
                sum_squares(b) == 0,
                a.len() == 0,
        ;
    }
}

/// A vector that is not zero has, once it is normalized, the length `UNIT` as
/// nearly as whole numbers allow: the sum of its squares lies below the square
/// of `UNIT + 1`, and below the square of `UNIT` by no more than what rounding
/// each component toward zero can take away.
pub proof fn lemma_normalized_length(v: Seq<i32>)
    requires
        0 < sum_squares(v) < 4 * WIDE,
    ensures
        sum_squares(normalized(v)) < (UNIT + 1) * (UNIT + 1),
        sum_squares(normalized(v)) >= UNIT * UNIT - v.len() * (2 * UNIT + 1),
{
    let s = sum_squares(v);
    let k = widened(s, 1);
    lemma_widened_wide(s, s, 1);
    let w = s * k * k;
    lemma_root_exists(w);
    let r = root(w);
    let out = normalized(v);
    let c = UNIT * k;
    assert forall|z: int|
        0 <= z < out.len() implies (#[trigger] out[z]) * out[z] * (r * r) <= v[z] * v[z] * (c * c)
        && v[z] * v[z] * (c * c) <= (out[z] * out[z] + (2 * UNIT + 1)) * (r * r) by {
        lemma_scaled(v, z);
        assert(out[z] == scaled(v[z], s));
    }
    lemma_sums_bound(out, v, r * r, c * c, 2 * UNIT + 1);
    let so = sum_squares(out);
    lemma_sum_squares_sign(out);
    let d = v.len() as int;
    assert(s * (c * c) == (UNIT * UNIT) * w) by (nonlinear_arith)
        requires
            c == UNIT * k,
            w == s * k * k,
    ;
    assert(r >= UNIT) by (nonlinear_arith)
        requires
            w < (r + 1) * (r + 1),
            w >= 0x1000_0000_0000_0000_0000_0000_0000_0000,
            r >= 0,
            UNIT == 0x1_0000,
    ;
    let u = UNIT as int;
    let ur = u * r;
    assert(so < (u + 1) * (u + 1)) by (nonlinear_arith)
        requires
            so * (r * r) <= (u * u) * w,
            w < (r + 1) * (r + 1),
            r >= u,
            u >= 1,
            so >= 0,
    ;
    assert(so + d * (2 * u + 1) >= u * u) by (nonlinear_arith)
        requires
            (u * u) * w <= (so + d * (2 * u + 1)) * (r * r),
            r * r <= w,
            r >= 1,
            u >= 1,
    ;
}

/// The vector `v` brought to the length `UNIT`: each component is multiplied by
/// `UNIT` and divided by the length of `v`, rounded toward zero. The zero
/// vector comes back as it is.
pub fn normalize(v: &[i32]) -> (out: Vec<i32>)
    ensures
        out@ == normalized(v@),
        forall|z: int| 0 <= z < v@.len() ==> -UNIT <= (#[trigger] out@[z]) <= UNIT,
        sum_squares(v@) > 0 ==> UNIT * UNIT - v@.len() * (2 * UNIT + 1) <= sum_squares(out@) < (UNIT
            + 1) * (UNIT + 1),
{
    let sum = sum_of_squares(v);
    proof {
        if sum > 0 {
            lemma_normalized_length(v@);
        }
    }
    let mut out: Vec<i32> = Vec::new();
    if sum == 0 {
        let mut z: usize = 0;
        while z < v.len()
            invariant
                z <= v@.len(),
                sum == 0,
                sum == sum_squares(v@),
                out@.len() == z,
                forall|j: int| 0 <= j < z ==> (#[trigger] out@[j]) == scaled(v@[j], sum as int),
                forall|j: int| 0 <= j < z ==> -UNIT <= (#[trigger] out@[j]) <= UNIT,
            decreases v@.len() - z,
        {
            proof {
                lemma_component_square(v@, z as int);
                let x = v@[z as int] as int;
                assert(x == 0) by (nonlinear_arith)
                    requires
                        x * x <= 0,
                ;
            }
            out.push(v[z]);
            z += 1;
        }
    } else {
        let (w, k) = widen(sum);
        let r = integer_sqrt(w);
        proof {
            lemma_root_unique(r as int, w as int);
            assert(1 <= r < 0x8000_0000_0000_0000) by (nonlinear_arith)
                requires
                    r * r <= w,
                    w < (r + 1) * (r + 1),
                    1 <= w < 0x4000_0000_0000_0000_0000_0000_0000_0000,
                    0 <= r,
            ;
        }
        let mut z: usize = 0;
        while z < v.len()
            invariant
                z <= v@.len(),
                0 < sum < 4 * WIDE,
                sum == sum_squares(v@),
                k == widened(sum as int, 1),
                1 <= k < 0x8000_0000_0000_0000,
                w == sum * k * k,
                r == root(w as int),
                1 <= r < 0x8000_0000_0000_0000,
                out@.len() == z,
                forall|j: int| 0 <= j < z ==> (#[trigger] out@[j]) == scaled(v@[j], sum as int),
                forall|j: int| 0 <= j < z ==> -UNIT <= (#[trigger] out@[j]) <= UNIT,
            decreases v@.len() - z,
        {
            proof {
                lemma_scaled(v@, z as int);
                assert(-0x8000_0000 * 0x1_0000 * 0x8000_0000_0000_0000 <= v@[z as int] * UNIT * k
                    <= 0x8000_0000 * 0x1_0000 * 0x8000_0000_0000_0000) by (nonlinear_arith)
                    requires
                        -0x8000_0000 <= v@[z as int] <= 0x8000_0000,
                        1 <= k <= 0x8000_0000_0000_0000,
                        UNIT == 0x1_0000,
                ;
                assert(-0x8000_0000 * 0x1_0000 <= v@[z as int] * UNIT <= 0x8000_0000 * 0x1_0000)
                    by (nonlinear_arith)
                    requires
                        -0x8000_0000 <= v@[z as int] <= 0x8000_0000,
                        UNIT == 0x1_0000,
                ;
            }
            let a: i128 = (v[z] as i128) * (UNIT as i128) * k;
            let q: i128 = a / (r as i128);
            assert(q == scaled(v@[z as int], sum as int));
            out.push(q as i32);
            z += 1;
        }
    }
    assert(out@ =~= normalized(v@));
    out
}

/// The mean of a centroid component `c` that stands for `w` items and one more
/// item's component `x`, rounded toward zero.
pub open spec fn mean_of(c: int, w: int, x: int) -> int {
    trunc_div(c * w + x, w + 1)
}

/// The mean of a centroid component and an item's component lies between them.
pub proof fn lemma_mean_between(c: int, w: int, x: int)
    requires
        w >= 1,
    ensures
        c <= mean_of(c, w, x) <= x || x <= mean_of(c, w, x) <= c,
{
    let s = c * w + x;
    let d = w + 1;
    let lo = if c <= x { c } else { x };
    let hi = if c <= x { x } else { c };
    assert(lo * d <= s <= hi * d) by (nonlinear_arith)
        requires
            s == c * w + x,
            d == w + 1,
            w >= 1,
            lo <= c <= hi,
            lo <= x <= hi,
    ;
    if s >= 0 {
        lemma_div_pos_is_pos(s, d);
        assert(hi * d == d * hi) by (nonlinear_arith);
        lemma_div_is_ordered(s, d * hi, d);
        lemma_div_multiples_vanish(hi, d);
        if lo > 0 {
            assert(lo * d == d * lo) by (nonlinear_arith);
            lemma_div_is_ordered(d * lo, s, d);
            lemma_div_multiples_vanish(lo, d);
        }
    } else {
        lemma_div_pos_is_pos(-s, d);
        assert(-s <= d * (-lo)) by (nonlinear_arith)
            requires
                lo * d <= s,
        ;
        lemma_div_is_ordered(-s, d * (-lo), d);
        lemma_div_multiples_vanish(-lo, d);
        if hi < 0 {
            assert(d * (-hi) <= -s) by (nonlinear_arith)
                requires
                    s <= hi * d,
            ;
            lemma_div_is_ordered(d * (-hi), -s, d);
            lemma_div_multiples_vanish(-hi, d);
        }
    }
}

/// The centroid `c`, which stands for `w` items, after it is moved toward the
/// item `x`: each component is the mean of the `w + 1` items.
pub open spec fn pulled(c: Seq<i32>, w: int, x: Seq<i32>) -> Seq<i32> {
    Seq::new(c.len(), |z: int| mean_of(c[z] as int, w, x[z] as int) as i32)
}

/// Moves the centroid `c`, which stands for `w` items, toward the item `x`: each
/// component becomes the mean of the `w + 1` items.
pub fn pull(c: &mut Vec<i32>, w: i64, x: &[i32])
    requires
        1 <= w <= 0x1_0000_0000,
        old(c)@.len() == x@.len(),
    ensures
        final(c)@ == pulled(old(c)@, w as int, x@),
        forall|z: int|
            0 <= z < x@.len() ==> {
                ||| old(c)@[z] <= (#[trigger] final(c)@[z]) <= x@[z]
                ||| x@[z] <= final(c)@[z] <= old(c)@[z]
            },
{
    let mut z: usize = 0;
    while z < c.len()
        invariant
            z <= c@.len(),
            1 <= w <= 0x1_0000_0000,
            c@.len() == old(c)@.len(),
            c@.len() == x@.len(),
            forall|j: int| z <= j < c@.len() ==> c@[j] == old(c)@[j],
            forall|j: int|
                0 <= j < z ==> (#[trigger] c@[j]) == mean_of(
                    old(c)@[j] as int,
                    w as int,
                    x@[j] as int,
                ),
            forall|j: int|
                0 <= j < z ==> {
                    ||| old(c)@[j] <= (#[trigger] c@[j]) <= x@[j]
                    ||| x@[j] <= c@[j] <= old(c)@[j]
                },
        decreases c@.len() - z,
    {
        proof {
            lemma_mean_between(c@[z as int] as int, w as int, x@[z as int] as int);
            assert(-0x8000_0000 * 0x1_0000_0000 <= c@[z as int] * w <= 0x8000_0000
                * 0x1_0000_0000) by (nonlinear_arith)
                requires
                    -0x8000_0000 <= c@[z as int] <= 0x8000_0000,
                    1 <= w <= 0x1_0000_0000,
            ;
        }
        let s: i128 = (c[z] as i128) * (w as i128) + (x[z] as i128);
        let m: i128 = s / ((w as i128) + 1);
        assert(m == mean_of(c@[z as int] as int, w as int, x@[z as int] as int));
        c.set(z, m as i32);
        z += 1;
    }
    assert(c@ =~= pulled(old(c)@, w as int, x@));
}

/// The least component `z` among the vectors of `nodes`.
pub open spec fn least(nodes: Seq<&Node>, z: int) -> int
    decreases nodes.len(),
{
    if nodes.len() == 0 {
        i32::MAX as int
    } else if nodes.last().v@[z] < least(nodes.drop_last(), z) {
        nodes.last().v@[z] as int
    } else {
        least(nodes.drop_last(), z)
    }
}

/// The greatest component `z` among the vectors of `nodes`.
pub open spec fn greatest(nodes: Seq<&Node>, z: int) -> int
    decreases nodes.len(),
{
    if nodes.len() == 0 {
        i32::MIN as int
    } else if nodes.last().v@[z] > greatest(nodes.drop_last(), z) {
        nodes.last().v@[z] as int
    } else {
        greatest(nodes.drop_last(), z)
    }
}

/// Whether each component of `c` lies between the least and the greatest of
/// that component among the vectors of `nodes`.
pub open spec fn spanned(nodes: Seq<&Node>, c: Seq<i32>) -> bool {
    forall|z: int| 0 <= z < c.len() ==> least(nodes, z) <= #[trigger] c[z] <= greatest(nodes, z)
}

/// Each component of an item lies between the least and the greatest.
pub proof fn lemma_item_spanned(nodes: Seq<&Node>, k: int, z: int)
    requires
        0 <= k < nodes.len(),
    ensures
        least(nodes, z) <= nodes[k].v@[z] <= greatest(nodes, z),
    decreases nodes.len(),
{
    if k < nodes.len() - 1 {
        lemma_item_spanned(nodes.drop_last(), k, z);
        assert(nodes.drop_last()[k] == nodes[k]);
    }
}

/// Where all items hold the vector `v`, the least and the greatest of each
/// component are that of `v`: only `v` is spanned.
pub proof fn lemma_equal_items_span(nodes: Seq<&Node>, v: Seq<i32>, z: int)
    requires
        nodes.len() >= 1,
        0 <= z < v.len(),
        forall|k: int| 0 <= k < nodes.len() ==> (#[trigger] nodes[k]).v@ == v,
    ensures
        least(nodes, z) == v[z],
        greatest(nodes, z) == v[z],
    decreases nodes.len(),
{
    assert(nodes[nodes.len() - 1].v@ == v);
    assert(nodes.last().v@[z] == v[z]);
    if nodes.len() == 1 {
        assert(nodes.drop_last().len() == 0);
        assert(least(nodes.drop_last(), z) == i32::MAX);
        assert(greatest(nodes.drop_last(), z) == i32::MIN);
    }
    if nodes.len() > 1 {
        assert forall|k: int| 0 <= k < nodes.drop_last().len() implies (
        #[trigger] nodes.drop_last()[k]).v@ == v by {
            assert(nodes.drop_last()[k] == nodes[k]);
        }
        lemma_equal_items_span(nodes.drop_last(), v, z);
    }
}

/// The two centroids with their counts after one round for the item `nk`: the
/// centroid whose distance to `nk`, multiplied by its count, is strictly
/// smaller is pulled toward `nk` and counts one more.
pub open spec fn after_round<D: Metric>(
    s: (Seq<i32>, int, Seq<i32>, int),
    nk: Seq<i32>,
) -> (Seq<i32>, int, Seq<i32>, int) {
    let di = s.1 * D::distance_of(s.0, nk);
    let dj = s.3 * D::distance_of(s.2, nk);
    if di < dj {
        (pulled(s.0, s.1, nk), s.1 + 1, s.2, s.3)
    } else if dj < di {
        (s.0, s.1, pulled(s.2, s.3, nk), s.3 + 1)
    } else {
        s
    }
}

/// The two centroids with their counts after one round for each of the items
/// that `picks` names, in their order.
pub open spec fn after_rounds<D: Metric>(
    start: (Seq<i32>, int, Seq<i32>, int),
    nodes: Seq<&Node>,
    picks: Seq<int>,
) -> (Seq<i32>, int, Seq<i32>, int)
    decreases picks.len(),
{
    if picks.len() == 0 {
        start
    } else {
        after_round::<D>(
            after_rounds::<D>(start, nodes, picks.drop_last()),
            nodes[picks.last()].v@,
        )
    }
}

/// Whether `iv` and `jv` are the centroids that the two-means heuristic finds
/// when it draws the items `i` and `j` as seeds and then the items `picks`.
pub open spec fn drawn<D: Metric>(
    nodes: Seq<&Node>,
    i: int,
    j: int,
    picks: Seq<int>,
    iv: Seq<i32>,
    jv: Seq<i32>,
) -> bool {
    let end = after_rounds::<D>((nodes[i].v@, 1, nodes[j].v@, 1), nodes, picks);
    &&& 0 <= i < nodes.len()
    &&& 0 <= j < nodes.len()
    &&& i != j
    &&& picks.len() == ITERATION_STEPS
    &&& forall|w: int| 0 <= w < picks.len() ==> 0 <= #[trigger] picks[w] < nodes.len()
    &&& end.0 == iv
    &&& end.2 == jv
}

/// Whether `iv` and `jv` are centroids that the two-means heuristic can find
/// among `nodes`: those of some two different seeds and some draws.
pub open spec fn means_of<D: Metric>(nodes: Seq<&Node>, iv: Seq<i32>, jv: Seq<i32>) -> bool {
    exists|i: int, j: int, picks: Seq<int>| #[trigger] drawn::<D>(nodes, i, j, picks, iv, jv)
}

/// One round of the two-means heuristic for the item `nk`: of the centroids
/// `iv` and `jv`, which stand for `ic` and `jc` items, the one whose distance to
/// `nk`, multiplied by its count, is strictly smaller is pulled toward `nk` and
/// counts one more. Where the two are equal nothing moves.
pub fn round<D: Metric>(
    iv: &mut Vec<i32>,
    ic: &mut i64,
    jv: &mut Vec<i32>,
    jc: &mut i64,
    nk: &[i32],
    f: usize,
)
    requires
        0 < f <= i32::MAX,
        old(iv)@.len() == f,
        old(jv)@.len() == f,
        nk@.len() == f,
        admits::<D>(old(iv)@),
        admits::<D>(old(jv)@),
        admits::<D>(nk@),
        1 <= *old(ic) <= ITERATION_STEPS,
        1 <= *old(jc) <= ITERATION_STEPS,
    ensures
        final(iv)@.len() == f,
        final(jv)@.len() == f,
        admits::<D>(final(iv)@),
        admits::<D>(final(jv)@),
        (final(iv)@, *final(ic) as int, final(jv)@, *final(jc) as int) == after_round::<D>(
            (old(iv)@, *old(ic) as int, old(jv)@, *old(jc) as int),
            nk@,
        ),
        ({
            let di = *old(ic) * D::distance_of(old(iv)@, nk@);
            let dj = *old(jc) * D::distance_of(old(jv)@, nk@);
            &&& final(iv)@ == if di < dj {
                pulled(old(iv)@, *old(ic) as int, nk@)
            } else {
                old(iv)@
            }
            &&& *final(ic) == if di < dj {
                *old(ic) + 1
            } else {
                *old(ic) as int
            }
            &&& final(jv)@ == if dj < di {
                pulled(old(jv)@, *old(jc) as int, nk@)
            } else {
                old(jv)@
            }
            &&& *final(jc) == if dj < di {
                *old(jc) + 1
            } else {
                *old(jc) as int
            }
        }),
{
    assert(nk@.take(f as int) =~= nk@);
    assert(iv@.take(f as int) =~= iv@);
    assert(jv@.take(f as int) =~= jv@);
    let raw_i = D::distance(iv.as_slice(), nk, f);
    let raw_j = D::distance(jv.as_slice(), nk, f);
    assert(-200 * DISTANCE_LIMIT <= *ic * raw_i <= 200 * DISTANCE_LIMIT) by (nonlinear_arith)
        requires
            1 <= *ic <= 200,
            -DISTANCE_LIMIT <= raw_i <= DISTANCE_LIMIT,
    ;
    assert(-200 * DISTANCE_LIMIT <= *jc * raw_j <= 200 * DISTANCE_LIMIT) by (nonlinear_arith)
        requires
            1 <= *jc <= 200,
            -DISTANCE_LIMIT <= raw_j <= DISTANCE_LIMIT,
    ;
    let di: i128 = (*ic as i128) * raw_i;
    let dj: i128 = (*jc as i128) * raw_j;
    if di < dj {
        pull(iv, *ic, nk);
        *ic = *ic + 1;
    } else if dj < di {
        pull(jv, *jc, nk);
        *jc = *jc + 1;
    }
}

/// The two seeds that the draws `a` and `b` pick among `count` items: the first
/// is `a` reduced to the items, the second is `b` reduced to the other items,
/// so that the two differ.
pub fn seed_pair(a: u64, b: u64, count: usize) -> (r: (usize, usize))
    requires
        count >= 2,
    ensures
        r.0 == a as int % count as int,
        r.1 == b as int % (count - 1) + if b as int % (count - 1) >= r.0 {
            1int
        } else {
            0int
        },
        r.0 < count,
        r.1 < count,
        r.0 != r.1,
{
    let i: usize = (a % (count as u64)) as usize;
    let mut j: usize = (b % ((count - 1) as u64)) as usize;
    if j >= i {
        j += 1;
    }
    (i, j)
}

/// Two centroids of the items `nodes`, found by the two-means heuristic: two
/// different items are drawn as seeds, and in each of `ITERATION_STEPS` rounds
/// one more item is drawn and the centroid that is nearer to it, by its distance
/// weighted with the number of items it stands for, is pulled toward it.
pub fn two_means<D: Metric>(rng: &mut StdRng, nodes: &Vec<&Node>, f: usize) -> (r: (
    Vec<i32>,
    Vec<i32>,
))
    requires
        0 < f <= i32::MAX,
        nodes@.len() >= 2,
        forall|i: int|
            0 <= i < nodes@.len() ==> (#[trigger] nodes@[i]).v@.len() == f && admits::<D>(
                nodes@[i].v@,
            ),
    ensures
        r.0@.len() == f,
        r.1@.len() == f,
        admits::<D>(r.0@),
        admits::<D>(r.1@),
        means_of::<D>(nodes@, r.0@, r.1@),
        spanned(nodes@, r.0@),
        spanned(nodes@, r.1@),
{
    let count = nodes.len();
    let a = random_u64(rng);
    let b = random_u64(rng);
    let (i, j) = seed_pair(a, b, count);
    let mut iv = nodes[i].v.clone();
    let mut jv = nodes[j].v.clone();
    assert(iv@ == nodes@[i as int].v@);
    assert(jv@ == nodes@[j as int].v@);
    let mut ic: i64 = 1;
    let mut jc: i64 = 1;
    let mut step: usize = 0;
    let ghost start = (nodes@[i as int].v@, 1int, nodes@[j as int].v@, 1int);
    let ghost mut picks: Seq<int> = Seq::empty();
    proof {
        assert forall|z: int| 0 <= z < f implies least(nodes@, z) <= #[trigger] iv@[z] <= greatest(
            nodes@,
            z,
        ) by {
            lemma_item_spanned(nodes@, i as int, z);
        }
        assert forall|z: int| 0 <= z < f implies least(nodes@, z) <= #[trigger] jv@[z] <= greatest(
            nodes@,
            z,
        ) by {
            lemma_item_spanned(nodes@, j as int, z);
        }
    }
    while step < ITERATION_STEPS
        invariant
            step <= ITERATION_STEPS,
            picks.len() == step,
            forall|w: int| 0 <= w < picks.len() ==> 0 <= #[trigger] picks[w] < nodes@.len(),
            (iv@, ic as int, jv@, jc as int) == after_rounds::<D>(start, nodes@, picks),
            spanned(nodes@, iv@),
            spanned(nodes@, jv@),
            0 < f <= i32::MAX,
            count == nodes@.len(),
            count >= 2,
            1 <= ic <= step + 1,
            1 <= jc <= step + 1,
            ic + jc <= step + 2,
            iv@.len() == f,
            jv@.len() == f,
            admits::<D>(iv@),
            admits::<D>(jv@),
            forall|w: int|
                0 <= w < nodes@.len() ==> (#[trigger] nodes@[w]).v@.len() == f && admits::<D>(
                    nodes@[w].v@,
                ),
        decreases ITERATION_STEPS - step,
    {
        let k: usize = random_usize(rng) % count;
        let nk = nodes[k].v.as_slice();
        assert(nk@ == nodes@[k as int].v@);
        let ghost before = (iv@, ic as int, jv@, jc as int);
        round::<D>(&mut iv, &mut ic, &mut jv, &mut jc, nk, f);
        proof {
            let grown = picks.push(k as int);
            assert(grown.drop_last() =~= picks);
            assert(after_rounds::<D>(start, nodes@, grown) == after_round::<D>(before, nk@));
            assert forall|z: int| 0 <= z < f implies least(nodes@, z) <= #[trigger] iv@[z]
                <= greatest(nodes@, z) by {
                lemma_item_spanned(nodes@, k as int, z);
                lemma_mean_between(before.0[z] as int, before.1, nk@[z] as int);
            }
            assert forall|z: int| 0 <= z < f implies least(nodes@, z) <= #[trigger] jv@[z]
                <= greatest(nodes@, z) by {
                lemma_item_spanned(nodes@, k as int, z);
                lemma_mean_between(before.2[z] as int, before.3, nk@[z] as int);
            }
            picks = grown;
        }
        step += 1;
    }
    proof {
        assert(drawn::<D>(nodes@, i as int, j as int, picks, iv@, jv@));
    }
    (iv, jv)
}

/// The difference of `a` and `b`, held to what a component can hold.
pub open spec fn held_difference(a: i32, b: i32) -> i32 {
    if a - b > i32::MAX {
        i32::MAX
    } else if a - b < -i32::MAX {
        (-i32::MAX) as i32
    } else {
        (a - b) as i32
    }
}

/// The vector of the differences of the components of `x` and `y`, each held
/// to what a component can hold.
pub open spec fn difference(x: Seq<i32>, y: Seq<i32>) -> Seq<i32> {
    Seq::new(x.len(), |z: int| held_difference(x[z], y[z]))
}

/// The vector of the differences of the components of `x` and `y`, each held
/// to what a component can hold.
pub fn subtract(x: &[i32], y: &[i32]) -> (out: Vec<i32>)
    requires
        x@.len() == y@.len(),
    ensures
        out@ == difference(x@, y@),
{
    let mut out: Vec<i32> = Vec::new();
    let mut z: usize = 0;
    while z < x.len()
        invariant
            z <= x@.len(),
            x@.len() == y@.len(),
            out@.len() == z,
            forall|j: int| 0 <= j < z ==> out@[j] == held_difference(x@[j], y@[j]),
        decreases x@.len() - z,
    {
        let d: i64 = (x[z] as i64) - (y[z] as i64);
        let held: i32 = if d > i32::MAX as i64 {
            i32::MAX
        } else if d < -(i32::MAX as i64) {
            -i32::MAX
        } else {
            d as i32
        };
        out.push(held);
        z += 1;
    }
    assert(out@ =~= difference(x@, y@));
    out
}

/// The offset that puts the split with normal `v` halfway between the centroids
/// `iv` and `jv`: the sum over the components of `-v * (iv + jv)`, halved and
/// rounded toward zero.
pub open spec fn offset_of(v: Seq<i32>, iv: Seq<i32>, jv: Seq<i32>) -> int
    decreases v.len(),
{
    if v.len() == 0 || iv.len() == 0 || jv.len() == 0 {
        0
    } else {
        offset_of(v.drop_last(), iv.drop_last(), jv.drop_last()) + trunc_div(
            -v.last() * (iv.last() + jv.last()),
            2,
        )
    }
}

/// The offset that puts the split with normal `v` halfway between the centroids
/// `iv` and `jv`.
pub fn offset(v: &[i32], iv: &[i32], jv: &[i32]) -> (a: i128)
    requires
        v@.len() == iv@.len(),
        v@.len() == jv@.len(),
        v@.len() <= i32::MAX,
    ensures
        a == offset_of(v@, iv@, jv@),
        -OFFSET_LIMIT <= a <= OFFSET_LIMIT,
{
    let mut a: i128 = 0;
    let mut z: usize = 0;
    while z < v.len()
        invariant
            z <= v@.len(),
            v@.len() == iv@.len(),
            v@.len() == jv@.len(),
            v@.len() <= i32::MAX,
            a == offset_of(v@.take(z as int), iv@.take(z as int), jv@.take(z as int)),
            -0x8000_0000_0000_0000 * z <= a <= 0x8000_0000_0000_0000 * z,
        decreases v@.len() - z,
    {
        assert(v@.take(z + 1).drop_last() =~= v@.take(z as int));
        assert(iv@.take(z + 1).drop_last() =~= iv@.take(z as int));
        assert(jv@.take(z + 1).drop_last() =~= jv@.take(z as int));
        let sum: i128 = (iv[z] as i128) + (jv[z] as i128);
        let neg: i128 = -(v[z] as i128);
        assert(-0x8000_0000_0000_0000 <= neg * sum <= 0x8000_0000_0000_0000) by (nonlinear_arith)
            requires
                -0x8000_0000 <= neg <= 0x8000_0000,
                -0x1_0000_0000 <= sum <= 0x1_0000_0000,
        ;
        let t: i128 = neg * sum;
        let half: i128 = t / 2;
        assert(half == trunc_div(-v@[z as int] * (iv@[z as int] + jv@[z as int]), 2));
        a = a + half;
        z += 1;
    }
    assert(v@.take(z as int) =~= v@);
    assert(iv@.take(z as int) =~= iv@);
    assert(jv@.take(z as int) =~= jv@);
    a
}

} // verus!
