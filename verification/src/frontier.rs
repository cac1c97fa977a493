//! The frontier of a search and the ranking of what it finds.
//!
//! An entry is a pair of a scalar and an id, ordered by the scalar first and by
//! the id second.

use vstd::prelude::*;

verus! {

/// Whether the scalar `d` with the id `id` comes strictly before the scalar `e`
/// with the id `other`: by the scalar first and by the id second.
pub open spec fn precedes(d: int, id: i64, e: int, other: i64) -> bool {
    d < e || (d == e && id < other)
}

/// Whether entry `a` comes strictly before entry `b`.
pub open spec fn before(a: (i128, i64), b: (i128, i64)) -> bool {
    precedes(a.0 as int, a.1, b.0 as int, b.1)
}

/// The position of the greatest entry of `fr`: the first one, where it occurs
/// more than once.
pub open spec fn top_of(fr: Seq<(i128, i64)>) -> int
    decreases fr.len(),
{
    if fr.len() <= 1 {
        0
    } else {
        let t = top_of(fr.drop_last());
        if before(fr[t], fr.last()) {
            fr.len() - 1
        } else {
            t
        }
    }
}

/// The top of a frontier is one of its positions, and no entry comes after it.
pub proof fn lemma_top_is_greatest(fr: Seq<(i128, i64)>)
    requires
        fr.len() > 0,
    ensures
        0 <= top_of(fr) < fr.len(),
        forall|i: int| 0 <= i < fr.len() ==> !before(fr[top_of(fr)], #[trigger] fr[i]),
    decreases fr.len(),
{
    if fr.len() > 1 {
        lemma_top_is_greatest(fr.drop_last());
        let t = top_of(fr.drop_last());
        assert forall|i: int| 0 <= i < fr.len() implies !before(
            fr[top_of(fr)],
            #[trigger] fr[i],
        ) by {
            if i < fr.len() - 1 {
                assert(fr.drop_last()[i] == fr[i]);
            }
        }
    }
}

/// The position of the greatest entry of the frontier.
pub fn find_top(fr: &Vec<(i128, i64)>) -> (t: usize)
    requires
        fr@.len() > 0,
    ensures
        t == top_of(fr@),
        t < fr@.len(),
{
    let mut best: usize = 0;
    let mut i: usize = 1;
    assert(fr@.take(1).len() == 1);
    while i < fr.len()
        invariant
            1 <= i <= fr@.len(),
            best < i,
            best == top_of(fr@.take(i as int)),
        decreases fr@.len() - i,
    {
        assert(fr@.take(i + 1).drop_last() =~= fr@.take(i as int));
        let cur = fr[i];
        let top = fr[best];
        if top.0 < cur.0 || (top.0 == cur.0 && top.1 < cur.1) {
            best = i;
        }
        i += 1;
    }
    assert(fr@.take(i as int) =~= fr@);
    best
}

/// Whether each entry of `list` comes strictly before the next.
pub open spec fn ranked(list: Seq<(i128, i64)>) -> bool {
    forall|i: int, j: int| 0 <= i < j < list.len() ==> before(#[trigger] list[i], #[trigger] list[j])
}

/// Puts `e` in its place in the ranked `list`, unless it is there already.
pub fn insert_ranked(list: &mut Vec<(i128, i64)>, e: (i128, i64))
    requires
        ranked(old(list)@),
    ensures
        ranked(final(list)@),
        forall|x: (i128, i64)| final(list)@.contains(x) <==> (old(list)@.contains(x) || x == e),
        old(list)@.contains(e) ==> final(list)@ == old(list)@,
        !old(list)@.contains(e) ==> final(list)@.len() == old(list)@.len() + 1,
{
    let mut i: usize = 0;
    while i < list.len() && (list[i].0 < e.0 || (list[i].0 == e.0 && list[i].1 < e.1))
        invariant
            i <= list@.len(),
            list@ == old(list)@,
            forall|j: int| 0 <= j < i ==> before(#[trigger] list@[j], e),
        decreases list@.len() - i,
    {
        i += 1;
    }
    let ghost prior = list@;
    if i < list.len() && list[i].0 == e.0 && list[i].1 == e.1 {
        assert(prior[i as int] == e);
        assert(prior.contains(e));
    } else {
        assert(!prior.contains(e)) by {
            if prior.contains(e) {
                let w = choose|w: int| 0 <= w < prior.len() && prior[w] == e;
                if w < i {
                    assert(before(prior[w], e));
                } else if w > i {
                    assert(before(prior[i as int], prior[w]));
                }
            }
        }
        list.insert(i, e);
        assert forall|a: int, b: int| 0 <= a < b < list@.len() implies before(
            #[trigger] list@[a],
            #[trigger] list@[b],
        ) by {
            let pa = if a < i { a } else { a - 1 };
            let pb = if b < i { b } else { b - 1 };
            if a != i && b != i {
                assert(before(prior[pa], prior[pb]));
            } else if b == i {
                assert(before(prior[pa], e));
            } else {
                assert(list@[b] == prior[pb]);
                if pb > i {
                    assert(before(prior[i as int], prior[pb]));
                }
            }
        }
        assert forall|x: (i128, i64)| list@.contains(x) <==> (prior.contains(x) || x == e) by {
            if list@.contains(x) {
                let w = choose|w: int| 0 <= w < list@.len() && list@[w] == x;
                if w < i {
                    assert(prior[w] == x);
                } else if w > i {
                    assert(prior[w - 1] == x);
                }
            }
            if prior.contains(x) {
                let w = choose|w: int| 0 <= w < prior.len() && prior[w] == x;
                if w < i {
                    assert(list@[w] == x);
                } else {
                    assert(list@[w + 1] == x);
                }
            }
            if x == e {
                assert(list@[i as int] == x);
            }
        }
    }
}

} // verus!
