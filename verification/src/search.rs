//! What a best-first search over all trees gathers.

use crate::distance::Distance;
use crate::forest::{forest_ok, inner_ok, is_bucket, is_item, item_ok};
use crate::frontier::{lemma_top_is_greatest, top_of};
use crate::node::Node;
use vstd::prelude::*;

verus! {

/// The smaller of a priority and a margin.
pub open spec fn lower(p: i128, m: int) -> i128 {
    if m < p {
        m as i128
    } else {
        p
    }
}

/// The frontier that a search starts from: every root, with priority 0.
pub open spec fn seed(roots: Seq<i64>) -> Seq<(i128, i64)> {
    Seq::new(roots.len(), |i: int| (0i128, roots[i]))
}

/// The candidates that a best-first search gathers.
///
/// While fewer than `budget` candidates are found and the frontier `fr` is
/// not empty, its greatest entry leaves it. An item becomes a candidate, a
/// bucket adds its items to the candidates, and a split puts its two children
/// on the frontier: the second with the smaller of the entry's priority and
/// the margin of `q`, the first with the smaller of the priority and the
/// negated margin. `fuel` bounds the number of entries that are taken.
pub open spec fn search<D: Distance>(
    nodes: Map<i64, Node>,
    n_items: int,
    q: Seq<i32>,
    fr: Seq<(i128, i64)>,
    found: Seq<i64>,
    budget: int,
    fuel: nat,
) -> Seq<i64>
    decreases fuel,
{
    if fuel == 0 || found.len() >= budget || fr.len() == 0 {
        found
    } else {
        let t = top_of(fr);
        let p = fr[t].0;
        let id = fr[t].1;
        let rest = fr.remove(t);
        let n = nodes[id];
        if !nodes.dom().contains(id) {
            search::<D>(nodes, n_items, q, rest, found, budget, (fuel - 1) as nat)
        } else if n.n_descendants == 1 && id < n_items {
            search::<D>(nodes, n_items, q, rest, found.push(id), budget, (fuel - 1) as nat)
        } else if is_bucket(n) {
            search::<D>(nodes, n_items, q, rest, found + n.children@, budget, (fuel - 1) as nat)
        } else {
            let m = D::margin_of(n.v@, n.a as int, q);
            search::<D>(
                nodes,
                n_items,
                q,
                rest.push((lower(p, m), n.children@[1])).push((lower(p, -m), n.children@[0])),
                found,
                budget,
                (fuel - 1) as nat,
            )
        }
    }
}

/// In a sound forest a search that starts from nodes of the arena and from items
/// finds items only.
pub proof fn lemma_search_finds_items<D: Distance>(
    nodes: Map<i64, Node>,
    n_items: int,
    n_nodes: int,
    f: nat,
    roots: Seq<i64>,
    q: Seq<i32>,
    fr: Seq<(i128, i64)>,
    found: Seq<i64>,
    budget: int,
    fuel: nat,
)
    requires
        forest_ok::<D>(nodes, n_items, n_nodes, f, roots),
        forall|j: int| 0 <= j < fr.len() ==> nodes.dom().contains((#[trigger] fr[j]).1),
        forall|j: int| 0 <= j < found.len() ==> is_item(nodes, n_items, #[trigger] found[j]),
    ensures
        forall|j: int|
            0 <= j < search::<D>(nodes, n_items, q, fr, found, budget, fuel).len() ==> is_item(
                nodes,
                n_items,
                #[trigger] search::<D>(nodes, n_items, q, fr, found, budget, fuel)[j],
            ),
    decreases fuel,
{
    if !(fuel == 0 || found.len() >= budget || fr.len() == 0) {
        lemma_top_is_greatest(fr);
        let t = top_of(fr);
        let p = fr[t].0;
        let id = fr[t].1;
        let rest = fr.remove(t);
        let left = (fuel - 1) as nat;
        let n = nodes[id];
        assert forall|j: int| 0 <= j < rest.len() implies nodes.dom().contains(
            (#[trigger] rest[j]).1,
        ) by {
            if j < t {
                assert(rest[j] == fr[j]);
            } else {
                assert(rest[j] == fr[j + 1]);
            }
        }
        assert(nodes.dom().contains(fr[t].1));
        let whole = search::<D>(nodes, n_items, q, fr, found, budget, fuel);
        if n.n_descendants == 1 && id < n_items {
            assert(whole == search::<D>(nodes, n_items, q, rest, found.push(id), budget, left));
            assert forall|j: int| 0 <= j < found.push(id).len() implies is_item(
                nodes,
                n_items,
                #[trigger] found.push(id)[j],
            ) by {
                if j < found.len() {
                    assert(found.push(id)[j] == found[j]);
                }
            }
            lemma_search_finds_items::<D>(
                nodes,
                n_items,
                n_nodes,
                f,
                roots,
                q,
                rest,
                found.push(id),
                budget,
                left,
            );
        } else {
            if id < n_items {
                assert(item_ok::<D>(nodes[id], f));
            }
            assert(inner_ok::<D>(nodes, n_items, f, roots, id));
            if is_bucket(n) {
                assert(whole == search::<D>(
                    nodes,
                    n_items,
                    q,
                    rest,
                    found + n.children@,
                    budget,
                    left,
                ));
                assert forall|j: int| 0 <= j < (found + n.children@).len() implies is_item(
                    nodes,
                    n_items,
                    #[trigger] (found + n.children@)[j],
                ) by {
                    if j < found.len() {
                        assert((found + n.children@)[j] == found[j]);
                    } else {
                        assert((found + n.children@)[j] == n.children@[j - found.len()]);
                    }
                }
                lemma_search_finds_items::<D>(
                    nodes,
                    n_items,
                    n_nodes,
                    f,
                    roots,
                    q,
                    rest,
                    found + n.children@,
                    budget,
                    left,
                );
            } else {
                let m = D::margin_of(n.v@, n.a as int, q);
                let next = rest.push((lower(p, m), n.children@[1])).push(
                    (lower(p, -m), n.children@[0]),
                );
                assert(whole == search::<D>(nodes, n_items, q, next, found, budget, left));
                assert forall|j: int| 0 <= j < next.len() implies nodes.dom().contains(
                    (#[trigger] next[j]).1,
                ) by {
                    if j < rest.len() {
                        assert(next[j] == rest[j]);
                    }
                }
                lemma_search_finds_items::<D>(
                    nodes,
                    n_items,
                    n_nodes,
                    f,
                    roots,
                    q,
                    rest.push((lower(p, m), n.children@[1])).push((lower(p, -m), n.children@[0])),
                    found,
                    budget,
                    left,
                );
            }
        }
    }
}

/// A bound on the entries that a search can still take from the frontier `fr`.
pub open spec fn weight(nodes: Map<i64, Node>, fr: Seq<(i128, i64)>) -> int
    decreases fr.len(),
{
    if fr.len() == 0 {
        0
    } else {
        weight(nodes, fr.drop_last()) + 2 * nodes[fr.last().1].n_descendants - 1
    }
}

pub proof fn lemma_weight_push(nodes: Map<i64, Node>, fr: Seq<(i128, i64)>, e: (i128, i64))
    ensures
        weight(nodes, fr.push(e)) == weight(nodes, fr) + 2 * nodes[e.1].n_descendants - 1,
{
    assert(fr.push(e).drop_last() =~= fr);
}

pub proof fn lemma_weight_remove(nodes: Map<i64, Node>, fr: Seq<(i128, i64)>, t: int)
    requires
        0 <= t < fr.len(),
    ensures
        weight(nodes, fr.remove(t)) == weight(nodes, fr) - (2 * nodes[fr[t].1].n_descendants - 1),
    decreases fr.len(),
{
    if t == fr.len() - 1 {
        assert(fr.remove(t) =~= fr.drop_last());
    } else {
        lemma_weight_remove(nodes, fr.drop_last(), t);
        assert(fr.remove(t).drop_last() =~= fr.drop_last().remove(t));
        assert(fr.remove(t).last() == fr.last());
    }
}

pub proof fn lemma_weight_floor(nodes: Map<i64, Node>, fr: Seq<(i128, i64)>)
    requires
        forall|i: int| 0 <= i < fr.len() ==> nodes[(#[trigger] fr[i]).1].n_descendants >= 1,
    ensures
        weight(nodes, fr) >= fr.len(),
    decreases fr.len(),
{
    if fr.len() > 0 {
        assert forall|i: int| 0 <= i < fr.drop_last().len() implies nodes[(
        #[trigger] fr.drop_last()[i]).1].n_descendants >= 1 by {
            assert(fr.drop_last()[i] == fr[i]);
        }
        lemma_weight_floor(nodes, fr.drop_last());
        assert(nodes[fr[fr.len() - 1].1].n_descendants >= 1);
    }
}

pub proof fn lemma_weight_seed(nodes: Map<i64, Node>, roots: Seq<i64>, n_items: int)
    requires
        forall|i: int| 0 <= i < roots.len() ==> nodes[#[trigger] roots[i]].n_descendants == n_items,
    ensures
        weight(nodes, seed(roots)) == roots.len() * (2 * n_items - 1),
    decreases roots.len(),
{
    if roots.len() > 0 {
        lemma_weight_seed(nodes, roots.drop_last(), n_items);
        assert(seed(roots).drop_last() =~= seed(roots.drop_last()));
        assert(roots.len() * (2 * n_items - 1) == (roots.len() - 1) * (2 * n_items - 1) + (2
            * n_items - 1)) by (nonlinear_arith);
    } else {
        assert(roots.len() * (2 * n_items - 1) == 0) by (nonlinear_arith)
            requires
                roots.len() == 0,
        ;
    }
}

} // verus!
