//! How the trees of a forest are shared out to the workers that build them.

use vstd::arithmetic::div_mod::{
    lemma_basic_div, lemma_div_is_ordered, lemma_div_multiples_vanish, lemma_div_pos_is_pos,
    lemma_fundamental_div_mod, lemma_fundamental_div_mod_converse, lemma_mod_pos_bound,
};
use vstd::prelude::*;

verus! {

/// The number of workers that the trees of a forest are shared out to.
pub const BUILD_WORKERS: usize = 10;

/// The number of trees that worker `worker` of `workers` builds when `q` trees
/// are asked for.
pub open spec fn worker_share(q: int, worker: int, workers: int) -> int {
    (q + worker) / workers
}

/// The number of trees that the first `upto` workers build together.
pub open spec fn shares_total(q: int, workers: int, upto: int) -> int
    decreases upto,
{
    if upto <= 0 {
        0
    } else {
        shares_total(q, workers, upto - 1) + worker_share(q, upto - 1, workers)
    }
}

/// The first `upto` workers build `q / workers` trees each, and the last
/// `q % workers` workers one more.
pub proof fn lemma_shares_prefix(q: int, workers: int, upto: int)
    requires
        0 <= q,
        0 <= upto <= workers,
        0 < workers,
    ensures
        shares_total(q, workers, upto) == (q / workers) * upto + if upto > workers - q % workers {
            upto - (workers - q % workers)
        } else {
            0
        },
    decreases upto,
{
    let a = q / workers;
    let b = q % workers;
    if upto > 0 {
        lemma_shares_prefix(q, workers, upto - 1);
        lemma_fundamental_div_mod(q, workers);
        lemma_mod_pos_bound(q, workers);
        let x = q + upto - 1;
        assert(shares_total(q, workers, upto) == shares_total(q, workers, upto - 1) + x / workers);
        if b + upto - 1 < workers {
            assert(x == a * workers + (b + upto - 1)) by (nonlinear_arith)
                requires
                    x == q + upto - 1,
                    q == workers * a + b,
            ;
            lemma_fundamental_div_mod_converse(x, workers, a, b + upto - 1);
            assert(x / workers == a);
        } else {
            assert(x == (a + 1) * workers + (b + upto - 1 - workers)) by (nonlinear_arith)
                requires
                    x == q + upto - 1,
                    q == workers * a + b,
            ;
            lemma_fundamental_div_mod_converse(x, workers, a + 1, b + upto - 1 - workers);
            assert(x / workers == a + 1);
        }
        assert(a * upto == a * (upto - 1) + a) by (nonlinear_arith);
    } else {
        assert(a * upto == 0) by (nonlinear_arith)
            requires
                upto == 0,
        ;
    }
}

/// The first `upto` workers never build more than the `q` trees that were asked
/// for.
pub proof fn lemma_shares_within(q: int, workers: int, upto: int)
    requires
        0 <= q,
        0 <= upto <= workers,
        0 < workers,
    ensures
        0 <= shares_total(q, workers, upto) <= q,
{
    lemma_shares_prefix(q, workers, upto);
    lemma_fundamental_div_mod(q, workers);
    lemma_mod_pos_bound(q, workers);
    lemma_div_pos_is_pos(q, workers);
    let a = q / workers;
    assert(0 <= a * upto <= workers * a) by (nonlinear_arith)
        requires
            0 <= a,
            0 <= upto <= workers,
    ;
}

/// All workers together build exactly the `q` trees that were asked for.
pub proof fn lemma_shares_sum(q: int, workers: int)
    requires
        0 <= q,
        0 < workers,
    ensures
        shares_total(q, workers, workers) == q,
{
    lemma_shares_prefix(q, workers, workers);
    lemma_fundamental_div_mod(q, workers);
    assert((q / workers) * workers == workers * (q / workers)) by (nonlinear_arith);
}

/// The number of trees that worker `worker` of `workers` builds when `q` trees
/// are asked for.
pub fn share_of(q: i64, worker: usize, workers: usize) -> (r: i64)
    requires
        0 <= q,
        worker < workers,
    ensures
        r == worker_share(q as int, worker as int, workers as int),
        0 <= r <= q,
{
    let total: u128 = q as u128 + worker as u128;
    let r: u128 = total / (workers as u128);
    proof {
        let x = q + worker;
        let d = workers as int;
        assert(r == x / d);
        lemma_div_pos_is_pos(x, d);
        if q == 0 {
            lemma_basic_div(x, d);
        } else {
            assert(x <= d * q) by (nonlinear_arith)
                requires
                    x == q + worker,
                    worker < d,
                    q >= 1,
            ;
            lemma_div_is_ordered(x, d * q, d);
            lemma_div_multiples_vanish(q as int, d);
        }
    }
    r as i64
}

/// Whether the arena has ids for `q` trees over `present` items.
pub open spec fn room_for(n_items: int, present: int, q: int) -> bool {
    if q == -1 {
        2 * n_items + 2 * present <= i64::MAX
    } else {
        n_items + q * (2 * present) <= i64::MAX
    }
}

} // verus!
