//! Manhattan distance, with splits that bisect two centroids.

use crate::distance::euclidean::{
    bisect, bisects, holds_hyperplane, hyperplane_margin, is_hyperplane,
};
use crate::distance::{means_of, side_of, spanned, two_means, Distance, Metric};
use crate::node::Node;
use crate::numeric::dot;
use crate::random::random_flip;
use rand::rngs::StdRng;
use vstd::prelude::*;

verus! {

/// The Manhattan metric: vectors are compared by the sum of the sizes of the
/// differences of their components.
pub struct Manhattan {}

/// The size of the difference of `a` and `b`.
pub open spec fn gap(a: int, b: int) -> int {
    if a >= b {
        a - b
    } else {
        b - a
    }
}

/// The sum of the sizes of the differences of the components of `x` and `y`.
pub open spec fn absolute_difference(x: Seq<i32>, y: Seq<i32>) -> int
    decreases x.len(),
{
    if x.len() == 0 || y.len() == 0 {
        0
    } else {
        absolute_difference(x.drop_last(), y.drop_last()) + gap(x.last() as int, y.last() as int)
    }
}

impl Metric for Manhattan {
    open spec fn reach() -> int {
        0x8000_0000
    }

    fn reach_limit() -> (r: i64) {
        0x8000_0000
    }

    open spec fn distance_of(x: Seq<i32>, y: Seq<i32>) -> int {
        absolute_difference(x, y)
    }

    open spec fn alike(x: Seq<i32>, y: Seq<i32>) -> bool {
        x == y
    }

    proof fn lemma_distance_zero(x: Seq<i32>, y: Seq<i32>)
        decreases x.len(),
    {
        if x.len() > 0 {
            Self::lemma_distance_zero(x.drop_last(), y.drop_last());
            let a = x.last();
            let b = y.last();
            if absolute_difference(x, y) == 0 {
                assert(x.drop_last() == y.drop_last());
                assert(x =~= x.drop_last().push(a));
                assert(y =~= y.drop_last().push(b));
            }
            if x == y {
                assert(x.drop_last() == y.drop_last());
            }
        } else {
            assert(x =~= y);
        }
    }

    fn distance(x: &[i32], y: &[i32], f: usize) -> (r: i128)
        ensures
            r >= 0,
    {
        let mut d: i128 = 0;
        let mut i: usize = 0;
        while i < f
            invariant
                i <= f,
                f <= x@.len(),
                f <= y@.len(),
                f <= i32::MAX,
                d == absolute_difference(x@.take(i as int), y@.take(i as int)),
                0 <= d <= 0x1_0000_0000 * i,
            decreases f - i,
        {
            assert(x@.take(i + 1).drop_last() =~= x@.take(i as int));
            assert(y@.take(i + 1).drop_last() =~= y@.take(i as int));
            let a: i128 = x[i] as i128;
            let b: i128 = y[i] as i128;
            let t: i128 = if a >= b {
                a - b
            } else {
                b - a
            };
            d = d + t;
            i += 1;
        }
        d
    }
}

impl Distance for Manhattan {
    open spec fn is_split(v: Seq<i32>, a: int, f: nat) -> bool {
        is_hyperplane(v, a, f)
    }

    open spec fn margin_of(v: Seq<i32>, a: int, y: Seq<i32>) -> int {
        dot(v, y) + a
    }

    /// The split bisects two centroids that the two-means heuristic can find
    /// among the items.
    open spec fn made_of(nodes: Seq<&Node>, f: nat, v: Seq<i32>, a: int) -> bool {
        exists|iv: Seq<i32>, jv: Seq<i32>| #[trigger]
            bisects(v, a, iv, jv) && means_of::<Manhattan>(nodes, iv, jv) && spanned(nodes, iv)
                && spanned(nodes, jv)
    }

    fn holds_split(n: &Node, f: usize) -> (r: bool) {
        holds_hyperplane(n, f)
    }

    fn margin(n: &Node, y: &[i32]) -> (r: i128) {
        hyperplane_margin(n, y)
    }

    fn side(n: &Node, y: &[i32], rng: &mut StdRng) -> (r: bool) {
        let m = hyperplane_margin(n, y);
        let coin = m == 0 && random_flip(rng);
        side_of(m, coin)
    }

    fn create_split(nodes: &Vec<&Node>, n: &mut Node, f: usize, rng: &mut StdRng) {
        let means = two_means::<Manhattan>(rng, nodes, f);
        bisect(means.0.as_slice(), means.1.as_slice(), n);
        assert(bisects(n.v@, n.a as int, means.0@, means.1@));
    }
}

} // verus!
