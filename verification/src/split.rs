//! Dividing a list of item ids in two.

use crate::distance::{admits, Distance};
use crate::node::Node;
use crate::random::random_flip;
use rand::rngs::StdRng;
use vstd::prelude::*;

verus! {

/// The ids of `indices` whose side is `want`, in their order. `sides` gives the
/// side of each id by position.
pub open spec fn pick(indices: Seq<i64>, sides: Seq<bool>, want: bool) -> Seq<i64>
    decreases indices.len(),
{
    if indices.len() == 0 {
        Seq::empty()
    } else {
        let rest = pick(indices.drop_last(), sides.drop_last(), want);
        if sides.last() == want {
            rest.push(indices.last())
        } else {
            rest
        }
    }
}

/// Every id lands on exactly one side, and each side holds only ids of the list.
pub proof fn lemma_pick_covers(indices: Seq<i64>, sides: Seq<bool>)
    requires
        sides.len() == indices.len(),
    ensures
        pick(indices, sides, false).len() + pick(indices, sides, true).len() == indices.len(),
        forall|j: int|
            0 <= j < pick(indices, sides, false).len() ==> indices.contains(
                #[trigger] pick(indices, sides, false)[j],
            ),
        forall|j: int|
            0 <= j < pick(indices, sides, true).len() ==> indices.contains(
                #[trigger] pick(indices, sides, true)[j],
            ),
    decreases indices.len(),
{
    if indices.len() > 0 {
        let head = indices.drop_last();
        lemma_pick_covers(head, sides.drop_last());
        let last = indices.len() - 1;
        assert(indices[last] == indices.last());
        assert forall|want: bool, j: int|
            0 <= j < pick(indices, sides, want).len() implies indices.contains(
            #[trigger] pick(indices, sides, want)[j],
        ) by {
            let rest = pick(head, sides.drop_last(), want);
            if j < rest.len() {
                let x = rest[j];
                assert(head.contains(x));
                let w = choose|w: int| 0 <= w < head.len() && head[w] == x;
                assert(indices[w] == x);
            }
        }
    }
}

/// A side of a list without repeats has no repeats.
pub proof fn lemma_pick_distinct(indices: Seq<i64>, sides: Seq<bool>, want: bool)
    requires
        sides.len() == indices.len(),
        indices.no_duplicates(),
    ensures
        pick(indices, sides, want).no_duplicates(),
    decreases indices.len(),
{
    if indices.len() > 0 {
        let head = indices.drop_last();
        let rest = pick(head, sides.drop_last(), want);
        lemma_pick_distinct(head, sides.drop_last(), want);
        lemma_pick_covers(head, sides.drop_last());
        if sides.last() == want {
            assert forall|i: int, j: int|
                0 <= i < rest.len() + 1 && 0 <= j < rest.len() + 1 && i != j implies rest.push(
                indices.last(),
            )[i] != rest.push(indices.last())[j] by {
                if i < rest.len() && j < rest.len() {
                } else {
                    let k = if i < rest.len() { i } else { j };
                    assert(head.contains(rest[k]));
                    let w = choose|w: int| 0 <= w < head.len() && head[w] == rest[k];
                    assert(indices[w] == rest[k]);
                    assert(indices[indices.len() - 1] == indices.last());
                }
            }
        }
    }
}

/// Every id of the list is on the side that its position names.
pub proof fn lemma_pick_complete(indices: Seq<i64>, sides: Seq<bool>, i: int)
    requires
        sides.len() == indices.len(),
        0 <= i < indices.len(),
    ensures
        pick(indices, sides, sides[i]).contains(indices[i]),
    decreases indices.len(),
{
    let head = pick(indices.drop_last(), sides.drop_last(), sides[i]);
    if i < indices.len() - 1 {
        lemma_pick_complete(indices.drop_last(), sides.drop_last(), i);
        let w = choose|w: int| 0 <= w < head.len() && head[w] == indices[i];
        assert(pick(indices, sides, sides[i])[w] == indices[i]);
    } else {
        assert(pick(indices, sides, sides[i])[head.len() as int] == indices[i]);
    }
}

/// The side of position `i` is not empty.
pub proof fn lemma_pick_inhabited(indices: Seq<i64>, sides: Seq<bool>, i: int)
    requires
        sides.len() == indices.len(),
        0 <= i < indices.len(),
    ensures
        pick(indices, sides, sides[i]).len() >= 1,
    decreases indices.len(),
{
    if i < indices.len() - 1 {
        lemma_pick_inhabited(indices.drop_last(), sides.drop_last(), i);
    }
}

/// Divides `indices` by `sides`: the ids whose side is `false` come back first,
/// those whose side is `true` second, each in the order of `indices`.
pub fn split_by(indices: &Vec<i64>, sides: &Vec<bool>) -> (parts: (Vec<i64>, Vec<i64>))
    requires
        sides@.len() == indices@.len(),
    ensures
        parts.0@ == pick(indices@, sides@, false),
        parts.1@ == pick(indices@, sides@, true),
{
    let mut left: Vec<i64> = Vec::new();
    let mut right: Vec<i64> = Vec::new();
    let mut i: usize = 0;
    while i < indices.len()
        invariant
            i <= indices@.len(),
            sides@.len() == indices@.len(),
            left@ == pick(indices@.take(i as int), sides@.take(i as int), false),
            right@ == pick(indices@.take(i as int), sides@.take(i as int), true),
        decreases indices@.len() - i,
    {
        assert(indices@.take(i + 1).drop_last() =~= indices@.take(i as int));
        assert(sides@.take(i + 1).drop_last() =~= sides@.take(i as int));
        if sides[i] {
            right.push(indices[i]);
        } else {
            left.push(indices[i]);
        }
        i += 1;
    }
    assert(indices@.take(i as int) =~= indices@);
    assert(sides@.take(i as int) =~= sides@);
    (left, right)
}

/// How many rounds of coin flips are tried on a split that leaves one side
/// empty, before the list is divided by position.
pub const MAX_FLIP_ROUNDS: usize = 64;

/// One coin flip for each of `n` positions.
pub(crate) fn coin_flips(n: usize, rng: &mut StdRng) -> (sides: Vec<bool>)
    ensures
        sides@.len() == n,
{
    let mut sides: Vec<bool> = Vec::new();
    let mut i: usize = 0;
    while i < n
        invariant
            i <= n,
            sides@.len() == i,
        decreases n - i,
    {
        let flip = random_flip(rng);
        sides.push(flip);
        i += 1;
    }
    sides
}

/// The sides that divide `n` positions by parity: even positions `false`, odd
/// positions `true`.
pub fn alternate(n: usize) -> (sides: Vec<bool>)
    ensures
        sides@.len() == n,
        forall|i: int| 0 <= i < n ==> sides@[i] == (i % 2 == 1),
{
    let mut sides: Vec<bool> = Vec::new();
    let mut i: usize = 0;
    while i < n
        invariant
            i <= n,
            sides@.len() == i,
            forall|j: int| 0 <= j < i ==> sides@[j] == (j % 2 == 1),
        decreases n - i,
    {
        sides.push(i % 2 == 1);
        i += 1;
    }
    sides
}

/// Whether `parts` divides `indices` by some assignment of sides.
pub open spec fn divides(indices: Seq<i64>, parts: (Vec<i64>, Vec<i64>)) -> bool {
    exists|sides: Seq<bool>|
        sides.len() == indices.len() && parts.0@ == pick(indices, sides, false) && parts.1@
            == #[trigger] pick(indices, sides, true)
}

/// Whether `sides` puts each of `children` on the side of the split `v`, `a`
/// that the sign of its margin names, wherever the margin is not zero.
pub open spec fn agrees<D: Distance>(
    v: Seq<i32>,
    a: int,
    children: Seq<&Node>,
    sides: Seq<bool>,
) -> bool {
    &&& sides.len() == children.len()
    &&& forall|i: int|
        0 <= i < children.len() && D::margin_of(v, a, (#[trigger] children[i]).v@) != 0
            ==> sides[i] == (D::margin_of(v, a, children[i].v@) > 0)
}

/// Whether `parts` are the two sides of the split held in `m`, unless one of
/// the sides is empty: some assignment of sides agrees with the margins, and
/// where it leaves neither part empty the parts are divided by it.
pub open spec fn keeps_sides<D: Distance>(
    v: Seq<i32>,
    a: int,
    indices: Seq<i64>,
    children: Seq<&Node>,
    left: Seq<i64>,
    right: Seq<i64>,
) -> bool {
    exists|first: Seq<bool>| #[trigger]
        agrees::<D>(v, a, children, first) && (pick(indices, first, false).len() >= 1 && pick(
            indices,
            first,
            true,
        ).len() >= 1 ==> left == pick(indices, first, false) && right == pick(
            indices,
            first,
            true,
        ))
}

/// Fills `m` with a split of the items `children` and divides `indices` by it:
/// the ids on the split's `false` side come back first, those on its `true` side
/// second. A split that leaves one side empty is replaced by coin flips, and
/// after `MAX_FLIP_ROUNDS` such rounds by the parity of the position, so that
/// neither part is empty.
pub(crate) fn random_split_index<D: Distance>(
    f: usize,
    m: &mut Node,
    indices: &Vec<i64>,
    children: &Vec<&Node>,
    rng: &mut StdRng,
) -> (parts: (Vec<i64>, Vec<i64>))
    requires
        0 < f <= i32::MAX,
        indices@.len() >= 2,
        children@.len() == indices@.len(),
        forall|i: int|
            0 <= i < children@.len() ==> (#[trigger] children@[i]).v@.len() == f && admits::<D>(
                children@[i].v@,
            ),
        old(m).v@.len() == f,
    ensures
        D::is_split(final(m).v@, final(m).a as int, f as nat),
        D::made_of(children@, f as nat, final(m).v@, final(m).a as int),
        final(m).v@.len() == f,
        final(m).children == old(m).children,
        final(m).n_descendants == old(m).n_descendants,
        parts.0@.len() >= 1,
        parts.1@.len() >= 1,
        divides(indices@, parts),
        keeps_sides::<D>(
            final(m).v@,
            final(m).a as int,
            indices@,
            children@,
            parts.0@,
            parts.1@,
        ),
{
    D::create_split(children, m, f, rng);
    let n = indices.len();
    let mut sides: Vec<bool> = Vec::new();
    let mut i: usize = 0;
    while i < n
        invariant
            i <= n,
            n == indices@.len(),
            children@.len() == n,
            sides@.len() == i,
            forall|j: int| 0 <= j < children@.len() ==> (#[trigger] children@[j]).v@.len() == f,
            D::is_split(m.v@, m.a as int, f as nat),
            forall|j: int|
                0 <= j < i && D::margin_of(m.v@, m.a as int, (#[trigger] children@[j]).v@) != 0
                    ==> sides@[j] == (D::margin_of(m.v@, m.a as int, children@[j].v@) > 0),
        decreases n - i,
    {
        let side = D::side(m, children[i].v.as_slice(), rng);
        sides.push(side);
        i += 1;
    }
    let mut parts = split_by(indices, &sides);
    let ghost first = sides@;
    let ghost whole = pick(indices@, first, false).len() >= 1 && pick(indices@, first, true).len()
        >= 1;
    assert(agrees::<D>(m.v@, m.a as int, children@, first));
    let mut round: usize = 0;
    while (parts.0.len() == 0 || parts.1.len() == 0) && round < MAX_FLIP_ROUNDS
        invariant
            n == indices@.len(),
            divides(indices@, parts),
            whole == (pick(indices@, first, false).len() >= 1 && pick(indices@, first, true).len()
                >= 1),
            whole ==> parts.0@ == pick(indices@, first, false) && parts.1@ == pick(
                indices@,
                first,
                true,
            ),
        decreases MAX_FLIP_ROUNDS - round,
    {
        sides = coin_flips(n, rng);
        parts = split_by(indices, &sides);
        round += 1;
    }
    if parts.0.len() == 0 || parts.1.len() == 0 {
        sides = alternate(n);
        parts = split_by(indices, &sides);
        proof {
            lemma_pick_inhabited(indices@, sides@, 0);
            lemma_pick_inhabited(indices@, sides@, 1);
        }
    }
    parts
}

} // verus!
