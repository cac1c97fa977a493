//! Hamming distance over bit-coded words.

use crate::distance::{Distance, Metric};
use crate::node::Node;
use crate::random::random_usize;
use rand::rngs::StdRng;
use vstd::arithmetic::power2::{lemma2_to64, lemma_pow2_unfold, pow2};
use vstd::prelude::*;

verus! {

/// The Hamming metric: vectors are words of bits and are compared by the
/// number of bits in which they differ.
pub struct Hamming {}

/// The number of one bits in `w`.
pub open spec fn popcount(w: u32) -> nat
    decreases w,
{
    if w == 0 {
        0
    } else {
        (w % 2) as nat + popcount(w / 2)
    }
}

/// `u32::count_ones` of std returns the number of ones in the binary
/// representation of its argument.
pub assume_specification[ u32::count_ones ](w: u32) -> (r: u32)
    ensures
        r == popcount(w),
;

/// The bits of a word, read as an unsigned number.
pub open spec fn word_bits(x: i32) -> u32 {
    x as u32
}

/// The number of bit positions in which `x` and `y` differ, summed over their
/// common length.
pub open spec fn bit_difference(x: Seq<i32>, y: Seq<i32>) -> int
    decreases x.len(),
{
    if x.len() == 0 || y.len() == 0 {
        0
    } else {
        bit_difference(x.drop_last(), y.drop_last()) + popcount(
            word_bits(x.last()) ^ word_bits(y.last()),
        )
    }
}

/// The number of bits in one word of a split's bit index.
pub const WORD_BITS: i32 = 32;

/// How often a random bit is tried before every bit is tried in turn.
pub const MAX_ITERATIONS: usize = 20;

/// The word of `y` that bit index `b` falls in.
pub open spec fn bit_chunk(b: int) -> int {
    b / 32
}

/// The mask that selects bit index `b` inside its word, counted from the most
/// significant bit.
pub open spec fn bit_mask(b: int) -> u32 {
    1u32 << ((31 - b % 32) as u32)
}

/// Bit `b` of `y`: zero when it is clear, the mask's value when it is set.
pub open spec fn bit_of(b: int, y: Seq<i32>) -> int {
    (word_bits(y[bit_chunk(b)]) & bit_mask(b)) as int
}

/// The number of `nodes` whose vector has bit `b` set.
pub open spec fn count_set(nodes: Seq<&Node>, b: int) -> nat
    decreases nodes.len(),
{
    if nodes.len() == 0 {
        0
    } else {
        count_set(nodes.drop_last(), b) + if bit_of(b, nodes.last().v@) > 0 {
            1nat
        } else {
            0nat
        }
    }
}

/// Whether bit `b` is set in some of `nodes` and clear in others.
pub open spec fn separates(nodes: Seq<&Node>, b: int) -> bool {
    0 < count_set(nodes, b) < nodes.len()
}

impl Hamming {
    /// Bit `b` of `y`, as `bit_of` defines it.
    pub fn bit(b: i32, y: &[i32]) -> (r: i128)
        requires
            0 <= b,
            bit_chunk(b as int) < y@.len(),
        ensures
            r == bit_of(b as int, y@),
            r >= 0,
    {
        let chunk: usize = (b / WORD_BITS) as usize;
        let shift: u32 = (31 - b % WORD_BITS) as u32;
        let mask: u32 = 1u32 << shift;
        let word: u32 = #[verifier::truncate] (y[chunk] as u32);
        (word & mask) as i128
    }

    /// The number of `nodes` whose vector has bit `b` set.
    pub fn count_on_side(nodes: &Vec<&Node>, b: i32) -> (r: usize)
        requires
            0 <= b,
            forall|i: int| 0 <= i < nodes@.len() ==> bit_chunk(b as int) < (#[trigger] nodes@[i]).v@.len(),
        ensures
            r == count_set(nodes@, b as int),
    {
        let mut count: usize = 0;
        let mut i: usize = 0;
        while i < nodes.len()
            invariant
                i <= nodes@.len(),
                0 <= b,
                count == count_set(nodes@.take(i as int), b as int),
                count <= i,
                forall|j: int| 0 <= j < nodes@.len() ==> bit_chunk(b as int) < (#[trigger] nodes@[j]).v@.len(),
            decreases nodes@.len() - i,
        {
            assert(nodes@.take(i + 1).drop_last() =~= nodes@.take(i as int));
            if Self::bit(b, nodes[i].v.as_slice()) > 0 {
                count += 1;
            }
            i += 1;
        }
        assert(nodes@.take(i as int) =~= nodes@);
        count
    }
}

impl Metric for Hamming {
    open spec fn reach() -> int {
        0x8000_0000
    }

    fn reach_limit() -> (r: i64) {
        0x8000_0000
    }

    open spec fn distance_of(x: Seq<i32>, y: Seq<i32>) -> int {
        bit_difference(x, y)
    }

    open spec fn alike(x: Seq<i32>, y: Seq<i32>) -> bool {
        x == y
    }

    proof fn lemma_distance_zero(x: Seq<i32>, y: Seq<i32>)
        decreases x.len(),
    {
        if x.len() > 0 {
            Self::lemma_distance_zero(x.drop_last(), y.drop_last());
            let a = x.last();
            let b = y.last();
            lemma_popcount_zero(word_bits(a) ^ word_bits(b));
            assert((a as u32) ^ (b as u32) == 0 <==> a == b) by (bit_vector);
            if bit_difference(x, y) == 0 {
                assert(x.drop_last() == y.drop_last());
                assert(x =~= x.drop_last().push(a));
                assert(y =~= y.drop_last().push(b));
            }
            if x == y {
                assert(x.drop_last() == y.drop_last());
            }
        } else {
            assert(x =~= y);
        }
    }

    fn distance(x: &[i32], y: &[i32], f: usize) -> (r: i128) {
        let mut dist: i128 = 0;
        let mut i: usize = 0;
        while i < f
            invariant
                i <= f,
                f <= x@.len(),
                f <= y@.len(),
                dist == bit_difference(x@.take(i as int), y@.take(i as int)),
                0 <= dist <= 32 * i,
            decreases f - i,
        {
            assert(x@.take(i + 1).drop_last() =~= x@.take(i as int));
            assert(y@.take(i + 1).drop_last() =~= y@.take(i as int));
            let a: u32 = #[verifier::truncate] (x[i] as u32);
            let b: u32 = #[verifier::truncate] (y[i] as u32);
            let w: u32 = (a ^ b).count_ones();
            proof {
                lemma_popcount_bound(a ^ b);
            }
            dist += w as i128;
            i += 1;
        }
        dist
    }
}

impl Distance for Hamming {
    open spec fn is_split(v: Seq<i32>, a: int, f: nat) -> bool {
        &&& v.len() >= 1
        &&& 0 <= v[0]
        &&& bit_chunk(v[0] as int) < f
    }

    open spec fn margin_of(v: Seq<i32>, a: int, y: Seq<i32>) -> int {
        bit_of(v[0] as int, y)
    }

    /// The split names a bit below `f`, and one that is set in some of the
    /// items and clear in others wherever there is such a bit.
    open spec fn made_of(nodes: Seq<&Node>, f: nat, v: Seq<i32>, a: int) -> bool {
        &&& 0 <= v[0] < f
        &&& (exists|b: int| 0 <= b < f && separates(nodes, b)) ==> separates(nodes, v[0] as int)
    }

    fn holds_split(n: &Node, f: usize) -> (r: bool) {
        n.v.len() >= 1 && n.v[0] >= 0 && ((n.v[0] / WORD_BITS) as usize) < f
    }

    fn margin(n: &Node, y: &[i32]) -> (r: i128) {
        Self::bit(n.v[0], y)
    }

    fn side(n: &Node, y: &[i32], rng: &mut StdRng) -> (r: bool)
        ensures
            r == (Self::margin_of(n.v@, n.a as int, y@) > 0),
    {
        Self::margin(n, y) > 0
    }

    fn create_split(nodes: &Vec<&Node>, n: &mut Node, f: usize, rng: &mut StdRng) {
        let mut tries: usize = 0;
        let mut found: bool = false;
        n.v.set(0, 0);
        while tries < MAX_ITERATIONS && !found
            invariant
                0 < f <= i32::MAX,
                n.v@.len() == f,
                0 <= n.v@[0] < f,
                n.children == old(n).children,
                n.n_descendants == old(n).n_descendants,
                found ==> separates(nodes@, n.v@[0] as int),
                forall|i: int| 0 <= i < nodes@.len() ==> (#[trigger] nodes@[i]).v@.len() == f,
            decreases MAX_ITERATIONS - tries + if found { 0int } else { 1int },
        {
            let rnd: usize = random_usize(rng) % f;
            n.v.set(0, rnd as i32);
            let cur: usize = Self::count_on_side(nodes, rnd as i32);
            if cur > 0 && cur < nodes.len() {
                found = true;
            } else {
                tries += 1;
            }
        }
        if !found {
            let mut j: usize = 0;
            while j < f && !found
                invariant
                    0 < f <= i32::MAX,
                    j <= f,
                    n.v@.len() == f,
                    0 <= n.v@[0] < f,
                    n.children == old(n).children,
                    n.n_descendants == old(n).n_descendants,
                    found ==> separates(nodes@, n.v@[0] as int),
                    !found ==> forall|b: int| 0 <= b < j ==> !separates(nodes@, b),
                    forall|i: int| 0 <= i < nodes@.len() ==> (#[trigger] nodes@[i]).v@.len() == f,
                decreases f - j + if found { 0int } else { 1int },
            {
                n.v.set(0, j as i32);
                let cur: usize = Self::count_on_side(nodes, j as i32);
                if cur > 0 && cur < nodes.len() {
                    found = true;
                } else {
                    j += 1;
                }
            }
        }
    }
}

/// Only the word 0 has no one bits.
pub proof fn lemma_popcount_zero(w: u32)
    ensures
        popcount(w) == 0 <==> w == 0,
    decreases w,
{
    if w != 0 {
        lemma_popcount_zero(w / 2);
    }
}

proof fn lemma_popcount_below(w: u32, k: nat)
    requires
        w < pow2(k),
    ensures
        popcount(w) <= k,
    decreases k,
{
    lemma2_to64();
    if w != 0 {
        lemma_pow2_unfold(k);
        lemma_popcount_below(w / 2, (k - 1) as nat);
    }
}

/// A word has at most 32 one bits.
pub proof fn lemma_popcount_bound(w: u32)
    ensures
        popcount(w) <= 32,
{
    lemma2_to64();
    lemma_popcount_below(w, 32);
}

} // verus!
