//! Squared Euclidean distance, with splits that bisect two centroids.

use crate::distance::{
    difference, means_of, normalize, normalized, offset, offset_of, side_of, spanned, subtract,
    two_means, Distance, Metric, DISTANCE_LIMIT, OFFSET_LIMIT,
};
use crate::node::Node;
use crate::numeric::{dot, dot_product};
use crate::random::random_flip;
use rand::rngs::StdRng;
use vstd::prelude::*;

verus! {

/// The Euclidean metric: vectors are compared by the sum of the squares of the
/// differences of their components.
pub struct Euclidean {}

/// The sum of the squares of the differences of the components of `x` and `y`.
pub open spec fn squared_difference(x: Seq<i32>, y: Seq<i32>) -> int
    decreases x.len(),
{
    if x.len() == 0 || y.len() == 0 {
        0
    } else {
        squared_difference(x.drop_last(), y.drop_last()) + (x.last() - y.last()) * (x.last()
            - y.last())
    }
}

/// Whether `v` and `a` describe a hyperplane against vectors of dimension `f`.
pub open spec fn is_hyperplane(v: Seq<i32>, a: int, f: nat) -> bool {
    &&& v.len() == f
    &&& f <= i32::MAX
    &&& -OFFSET_LIMIT <= a <= OFFSET_LIMIT
}

/// Whether `n` holds a hyperplane against vectors of dimension `f`.
pub fn holds_hyperplane(n: &Node, f: usize) -> (r: bool)
    ensures
        r == is_hyperplane(n.v@, n.a as int, f as nat),
{
    n.v.len() == f && f <= i32::MAX as usize && -OFFSET_LIMIT <= n.a && n.a <= OFFSET_LIMIT
}

/// The signed margin of `y` against the hyperplane with normal `n.v` and offset
/// `n.a`: their dot product plus the offset.
pub fn hyperplane_margin(n: &Node, y: &[i32]) -> (r: i128)
    requires
        is_hyperplane(n.v@, n.a as int, y@.len()),
    ensures
        r == dot(n.v@, y@) + n.a,
        r > i128::MIN,
{
    let f = y.len();
    assert(n.v@.take(f as int) =~= n.v@);
    assert(y@.take(f as int) =~= y@);
    let d = dot_product(n.v.as_slice(), y, f);
    assert(-0x4000_0000_0000_0000 * 0x8000_0000 <= d <= 0x4000_0000_0000_0000 * 0x8000_0000)
        by (nonlinear_arith)
        requires
            -0x4000_0000_0000_0000 * f <= d <= 0x4000_0000_0000_0000 * f,
            0 <= f <= 0x8000_0000,
    ;
    d + n.a
}

/// Whether the normal `v` and the offset `a` describe the hyperplane that
/// bisects the centroids `iv` and `jv`: the normal is their difference, brought
/// to the length `UNIT`, and the offset puts the hyperplane halfway between
/// them.
pub open spec fn bisects(v: Seq<i32>, a: int, iv: Seq<i32>, jv: Seq<i32>) -> bool {
    &&& iv.len() == jv.len()
    &&& v == normalized(difference(iv, jv))
    &&& a == offset_of(v, iv, jv)
}

/// Fills `n` with the hyperplane that bisects the centroids `iv` and `jv`.
pub fn bisect(iv: &[i32], jv: &[i32], n: &mut Node)
    requires
        iv@.len() == jv@.len(),
        iv@.len() <= i32::MAX,
    ensures
        bisects(final(n).v@, final(n).a as int, iv@, jv@),
        is_hyperplane(final(n).v@, final(n).a as int, iv@.len()),
        final(n).children == old(n).children,
        final(n).n_descendants == old(n).n_descendants,
{
    let diff = subtract(iv, jv);
    n.v = normalize(diff.as_slice());
    n.a = offset(n.v.as_slice(), iv, jv);
}

impl Metric for Euclidean {
    open spec fn reach() -> int {
        0x8000_0000
    }

    fn reach_limit() -> (r: i64) {
        0x8000_0000
    }

    open spec fn distance_of(x: Seq<i32>, y: Seq<i32>) -> int {
        squared_difference(x, y)
    }

    open spec fn alike(x: Seq<i32>, y: Seq<i32>) -> bool {
        x == y
    }

    proof fn lemma_distance_zero(x: Seq<i32>, y: Seq<i32>)
        decreases x.len(),
    {
        if x.len() > 0 {
            Self::lemma_distance_zero(x.drop_last(), y.drop_last());
            let a = x.last();
            let b = y.last();
            let t = a - b;
            assert(t * t >= 0 && (t * t == 0 <==> t == 0)) by (nonlinear_arith);
            if squared_difference(x, y) == 0 {
                assert(x.drop_last() == y.drop_last());
                assert(x =~= x.drop_last().push(a));
                assert(y =~= y.drop_last().push(b));
            }
            if x == y {
                assert(x.drop_last() == y.drop_last());
            }
        } else {
            assert(x =~= y);
        }
    }

    fn distance(x: &[i32], y: &[i32], f: usize) -> (r: i128)
        ensures
            r >= 0,
    {
        let mut d: i128 = 0;
        let mut i: usize = 0;
        while i < f
            invariant
                i <= f,
                f <= x@.len(),
                f <= y@.len(),
                f <= i32::MAX,
                d == squared_difference(x@.take(i as int), y@.take(i as int)),
                0 <= d <= 0x1_0000_0000_0000_0000 * i,
            decreases f - i,
        {
            assert(x@.take(i + 1).drop_last() =~= x@.take(i as int));
            assert(y@.take(i + 1).drop_last() =~= y@.take(i as int));
            let t: i128 = (x[i] as i128) - (y[i] as i128);
            assert(0 <= t * t <= 0x1_0000_0000_0000_0000) by (nonlinear_arith)
                requires
                    -0x1_0000_0000 <= t <= 0x1_0000_0000,
            ;
            d = d + t * t;
            i += 1;
        }
        assert(0x1_0000_0000_0000_0000 * f <= DISTANCE_LIMIT) by (nonlinear_arith)
            requires
                0 <= f <= 0x8000_0000,
                DISTANCE_LIMIT == 0x10_0000_0000_0000_0000_0000_0000,
        ;
        d
    }
}

impl Distance for Euclidean {
    open spec fn is_split(v: Seq<i32>, a: int, f: nat) -> bool {
        is_hyperplane(v, a, f)
    }

    open spec fn margin_of(v: Seq<i32>, a: int, y: Seq<i32>) -> int {
        dot(v, y) + a
    }

    /// The split bisects two centroids that the two-means heuristic can find
    /// among the items.
    open spec fn made_of(nodes: Seq<&Node>, f: nat, v: Seq<i32>, a: int) -> bool {
        exists|iv: Seq<i32>, jv: Seq<i32>| #[trigger]
            bisects(v, a, iv, jv) && means_of::<Euclidean>(nodes, iv, jv) && spanned(nodes, iv)
                && spanned(nodes, jv)
    }

    fn holds_split(n: &Node, f: usize) -> (r: bool) {
        holds_hyperplane(n, f)
    }

    fn margin(n: &Node, y: &[i32]) -> (r: i128) {
        hyperplane_margin(n, y)
    }

    fn side(n: &Node, y: &[i32], rng: &mut StdRng) -> (r: bool) {
        let m = hyperplane_margin(n, y);
        let coin = m == 0 && random_flip(rng);
        side_of(m, coin)
    }

    fn create_split(nodes: &Vec<&Node>, n: &mut Node, f: usize, rng: &mut StdRng) {
        let means = two_means::<Euclidean>(rng, nodes, f);
        bisect(means.0.as_slice(), means.1.as_slice(), n);
        assert(bisects(n.v@, n.a as int, means.0@, means.1@));
    }
}

} // verus!
