//! Taking an arena down as a list of records and reading it back.
//!
//! A record is a node with its id. The records of the roots come first, so that
//! the trees are found again as the longest run of leading records that count
//! as much as the first and have an id that is not an item's. Where the first
//! record is the leaf of an item there are no trees.

use crate::forest::{
    forest_ok, inner_ok, is_bucket, is_item, item_ok, lemma_present_frame, node_ok, present_below,
    K,
};
use crate::search::{lower, search};
use crate::frontier::top_of;
use crate::node::same_node;
use crate::distance::{accepts, Distance};
use crate::node::Node;
use std::collections::HashMap;
use vstd::prelude::*;

verus! {

broadcast use vstd::std_specs::hash::group_hash_axioms;

/// Whether some record has the id `id`.
pub open spec fn names(records: Seq<(i64, Node)>, id: i64) -> bool {
    exists|j: int| 0 <= j < records.len() && (#[trigger] records[j]).0 == id
}

/// The position of a record with the id `id`.
pub open spec fn place_of(records: Seq<(i64, Node)>, id: i64) -> int {
    choose|j: int| 0 <= j < records.len() && (#[trigger] records[j]).0 == id
}

/// The arena that the records describe.
pub open spec fn arena_of(records: Seq<(i64, Node)>) -> Map<i64, Node> {
    Map::new(|id: i64| names(records, id), |id: i64| records[place_of(records, id)].1)
}

/// Whether no two records have the same id.
pub open spec fn ids_distinct(records: Seq<(i64, Node)>) -> bool {
    forall|i: int, j: int|
        0 <= i < records.len() && 0 <= j < records.len() && i != j ==> (#[trigger] records[i]).0
            != (#[trigger] records[j]).0
}

/// Under distinct ids the arena holds each record's node under its id.
pub proof fn lemma_arena_of_holds(records: Seq<(i64, Node)>, j: int)
    requires
        ids_distinct(records),
        0 <= j < records.len(),
    ensures
        arena_of(records).dom().contains(records[j].0),
        arena_of(records)[records[j].0] == records[j].1,
{
    let id = records[j].0;
    assert(names(records, id));
    let w = place_of(records, id);
    assert(w == j);
}

/// Whether the node has the shape of an item's leaf: it counts itself and has
/// two child slots. A root that counts one item lists that item alone.
pub open spec fn leaf_shaped(n: Node) -> bool {
    n.n_descendants == 1 && n.children@.len() == 2
}

/// What `n_items` is read as: the number of items that the first record counts,
/// or, where the first record is a leaf and so no record is a root, one more
/// than the largest id.
pub open spec fn count_of(records: Seq<(i64, Node)>) -> int {
    if leaf_shaped(records[0].1) {
        bound_of(records)
    } else {
        records[0].1.n_descendants as int
    }
}

/// Whether record `j` is read as a root: the first record is no leaf, record
/// `j` counts as much as the first, and its id is not an item's.
pub open spec fn leads(records: Seq<(i64, Node)>, j: int) -> bool {
    &&& !leaf_shaped(records[0].1)
    &&& records[j].1.n_descendants == records[0].1.n_descendants
    &&& records[j].0 >= count_of(records)
}

/// The length of the run of records from `from` on that are read as roots.
pub open spec fn run_from(records: Seq<(i64, Node)>, from: int) -> int
    decreases records.len() - from,
{
    if 0 <= from < records.len() && leads(records, from) {
        1 + run_from(records, from + 1)
    } else {
        0
    }
}

/// The number of leading records that are read as roots.
pub open spec fn root_count(records: Seq<(i64, Node)>) -> int {
    run_from(records, 0)
}

/// The ids of the leading records that are read as roots.
pub open spec fn roots_of(records: Seq<(i64, Node)>) -> Seq<i64> {
    Seq::new(root_count(records) as nat, |i: int| records[i].0)
}

/// One more than the largest id of the records.
pub open spec fn bound_of(records: Seq<(i64, Node)>) -> int
    decreases records.len(),
{
    if records.len() == 0 {
        0
    } else {
        let rest = bound_of(records.drop_last());
        if records.last().0 + 1 > rest {
            records.last().0 + 1
        } else {
            rest
        }
    }
}

/// Whether the records describe a forest over vectors of dimension `f`.
pub open spec fn describes_forest<D: Distance>(f: nat, records: Seq<(i64, Node)>) -> bool {
    &&& records.len() > 0
    &&& 1 <= count_of(records) <= i64::MAX
    &&& count_of(records) <= usize::MAX
    &&& root_count(records) == 0 ==> bound_of(records) == count_of(records)
    &&& forall|j: int| 0 <= j < records.len() ==> 0 <= (#[trigger] records[j]).0 < i64::MAX
    &&& ids_distinct(records)
    &&& names(records, (count_of(records) - 1) as i64)
    &&& forest_ok::<D>(
        arena_of(records),
        count_of(records),
        bound_of(records),
        f,
        roots_of(records),
    )
}

/// The run of roots from `from` on ends at the first record that is not read as
/// a root.
pub proof fn lemma_run_ends(records: Seq<(i64, Node)>, from: int, to: int)
    requires
        0 <= from <= to <= records.len(),
        forall|j: int| from <= j < to ==> leads(records, j),
        to == records.len() || !leads(records, to),
    ensures
        run_from(records, from) == to - from,
    decreases to - from,
{
    if from < to {
        lemma_run_ends(records, from + 1, to);
    }
}

/// No id of the records reaches their bound.
pub proof fn lemma_bound_of(records: Seq<(i64, Node)>, j: int)
    requires
        0 <= j < records.len(),
    ensures
        records[j].0 < bound_of(records),
    decreases records.len(),
{
    if j < records.len() - 1 {
        lemma_bound_of(records.drop_last(), j);
    }
}

/// Whether two arenas hold the same values under the same ids.
pub open spec fn same_arena(a: Map<i64, Node>, b: Map<i64, Node>) -> bool {
    &&& forall|id: i64| a.dom().contains(id) <==> b.dom().contains(id)
    &&& forall|id: i64| a.dom().contains(id) ==> same_node(#[trigger] a[id], b[id])
}

/// An arena that holds the same values as a sound one is sound.
pub proof fn lemma_same_arena_forest<D: Distance>(
    a: Map<i64, Node>,
    b: Map<i64, Node>,
    n_items: int,
    n_nodes: int,
    f: nat,
    roots: Seq<i64>,
    ceiling: int,
)
    requires
        same_arena(a, b),
        forest_ok::<D>(a, n_items, n_nodes, f, roots),
        forall|id: i64| #[trigger] b.dom().contains(id) ==> id < ceiling,
        ceiling <= n_nodes,
    ensures
        forest_ok::<D>(b, n_items, ceiling, f, roots),
{
    lemma_present_frame(a, b, n_items);
    assert forall|id: i64| #[trigger] b.dom().contains(id) && id < n_items implies item_ok::<D>(
        b[id],
        f,
    ) by {
        assert(a.dom().contains(id));
        assert(item_ok::<D>(a[id], f));
        assert(same_node(a[id], b[id]));
    }
    assert forall|id: i64| #[trigger] b.dom().contains(id) && id >= n_items implies inner_ok::<D>(
        b,
        n_items,
        f,
        roots,
        id,
    ) by {
        assert(a.dom().contains(id));
        assert(inner_ok::<D>(a, n_items, f, roots, id));
        assert(same_node(a[id], b[id]));
        let n = a[id];
        if is_bucket(n) {
            assert forall|j: int| 0 <= j < b[id].children@.len() implies is_item(
                b,
                n_items,
                #[trigger] b[id].children@[j],
            ) by {
                assert(is_item(a, n_items, n.children@[j]));
            }
        } else {
            assert(same_node(a[n.children@[0]], b[n.children@[0]]));
            assert(same_node(a[n.children@[1]], b[n.children@[1]]));
        }
    }
    assert forall|id: i64| #[trigger] b.dom().contains(id) implies 0 <= id by {
        assert(a.dom().contains(id));
    }
    assert forall|i: int| 0 <= i < roots.len() implies b.dom().contains(#[trigger] roots[i])
        && roots[i] >= n_items by {
        assert(a.dom().contains(roots[i]));
    }
}

/// A search gathers the same candidates in two arenas that hold the same
/// values.
pub proof fn lemma_same_arena_search<D: Distance>(
    a: Map<i64, Node>,
    b: Map<i64, Node>,
    n_items: int,
    q: Seq<i32>,
    fr: Seq<(i128, i64)>,
    found: Seq<i64>,
    budget: int,
    fuel: nat,
)
    requires
        same_arena(a, b),
    ensures
        search::<D>(a, n_items, q, fr, found, budget, fuel) == search::<D>(
            b,
            n_items,
            q,
            fr,
            found,
            budget,
            fuel,
        ),
    decreases fuel,
{
    if !(fuel == 0 || found.len() >= budget || fr.len() == 0) {
        let t = top_of(fr);
        let p = fr[t].0;
        let id = fr[t].1;
        let rest = fr.remove(t);
        let left = (fuel - 1) as nat;
        if !a.dom().contains(id) {
            lemma_same_arena_search::<D>(a, b, n_items, q, rest, found, budget, left);
        } else {
            let n = a[id];
            assert(same_node(a[id], b[id]));
            if n.n_descendants == 1 && id < n_items {
                lemma_same_arena_search::<D>(a, b, n_items, q, rest, found.push(id), budget, left);
            } else if is_bucket(n) {
                lemma_same_arena_search::<D>(
                    a,
                    b,
                    n_items,
                    q,
                    rest,
                    found + n.children@,
                    budget,
                    left,
                );
            } else {
                let m = D::margin_of(n.v@, n.a as int, q);
                lemma_same_arena_search::<D>(
                    a,
                    b,
                    n_items,
                    q,
                    rest.push((lower(p, m), n.children@[1])).push((lower(p, -m), n.children@[0])),
                    found,
                    budget,
                    left,
                );
            }
        }
    }
}

/// The number of registered items below `n_items`.
pub fn count_present(nodes: &HashMap<i64, Node>, n_items: i64) -> (present: i64)
    requires
        0 <= n_items,
    ensures
        present == present_below(nodes@, n_items as int),
{
    let mut present: i64 = 0;
    let mut i: i64 = 0;
    while i < n_items
        invariant
            0 <= i <= n_items,
            present == present_below(nodes@, i as int),
            present <= i,
        decreases n_items - i,
    {
        if nodes.contains_key(&i) {
            present += 1;
        }
        i += 1;
    }
    present
}

/// Whether no id occurs twice in `c`.
pub fn all_distinct(c: &Vec<i64>) -> (r: bool)
    ensures
        r == c@.no_duplicates(),
{
    let mut i: usize = 0;
    while i < c.len()
        invariant
            i <= c@.len(),
            forall|a: int, b: int| 0 <= a < i && 0 <= b < c@.len() && a != b ==> c@[a] != c@[b],
        decreases c@.len() - i,
    {
        let mut j: usize = 0;
        while j < c.len()
            invariant
                i < c@.len(),
                j <= c@.len(),
                forall|b: int| 0 <= b < j && i != b ==> c@[i as int] != c@[b],
            decreases c@.len() - j,
        {
            if i != j && c[i] == c[j] {
                return false;
            }
            j += 1;
        }
        i += 1;
    }
    true
}

/// Whether every id in `c` names a registered item.
pub fn all_items(nodes: &HashMap<i64, Node>, n_items: i64, c: &Vec<i64>) -> (r: bool)
    ensures
        r == (forall|j: int| 0 <= j < c@.len() ==> is_item(nodes@, n_items as int, #[trigger] c@[j])),
{
    let mut j: usize = 0;
    while j < c.len()
        invariant
            j <= c@.len(),
            forall|w: int| 0 <= w < j ==> is_item(nodes@, n_items as int, #[trigger] c@[w]),
        decreases c@.len() - j,
    {
        let id = c[j];
        if id < 0 || id >= n_items || !nodes.contains_key(&id) {
            assert(!is_item(nodes@, n_items as int, c@[j as int]));
            return false;
        }
        j += 1;
    }
    true
}

/// Whether the node under `id` is sound: as an item's node where `id` is below
/// `n_items`, and else as a root or as another node above the items.
pub fn check_node<D: Distance>(
    nodes: &HashMap<i64, Node>,
    n_items: i64,
    present: i64,
    f: usize,
    root: bool,
    id: i64,
) -> (r: bool)
    requires
        0 <= n_items,
        present == present_below(nodes@, n_items as int),
        nodes@.dom().contains(id),
    ensures
        r == if id < n_items {
            item_ok::<D>(nodes@[id], f as nat)
        } else {
            node_ok::<D>(nodes@, n_items as int, f as nat, root, id)
        },
{
    match nodes.get(&id) {
        None => false,
        Some(n) => {
            if id < n_items {
                n.n_descendants == 1 && n.children.len() == 2 && n.v.len() == f && accepts::<D>(
                    n.v.as_slice(),
                )
            } else if n.n_descendants <= K || n.children.len() != 2 {
                let len = n.children.len();
                if len < 1 || len > K {
                    return false;
                }
                if !all_items(nodes, n_items, &n.children) {
                    return false;
                }
                if !all_distinct(&n.children) {
                    return false;
                }
                if root {
                    n.n_descendants as u128 == n_items as u128 && len as i128 == present as i128
                } else {
                    n.n_descendants == len && (len as i128) < (n_items as i128)
                }
            } else {
                let c0 = n.children[0];
                let c1 = n.children[1];
                if c0 < 0 || c0 >= id || c1 < 0 || c1 >= id {
                    return false;
                }
                match nodes.get(&c0) {
                    None => false,
                    Some(first) => match nodes.get(&c1) {
                        None => false,
                        Some(second) => {
                            if first.n_descendants < 1 || first.n_descendants
                                > second.n_descendants {
                                return false;
                            }
                            if !D::holds_split(n, f) {
                                return false;
                            }
                            let sum: u128 = first.n_descendants as u128
                                + second.n_descendants as u128;
                            if root {
                                n.n_descendants as u128 == n_items as u128 && sum
                                    == present as u128
                            } else {
                                n.n_descendants as u128 == sum && (n.n_descendants as u128)
                                    < (n_items as u128)
                            }
                        },
                    },
                }
            }
        },
    }
}

/// Whether the arena holds a node under every id from `from` up to `to`.
pub fn no_gaps(nodes: &HashMap<i64, Node>, from: i64, to: i64) -> (r: bool)
    ensures
        r == (forall|id: i64| from <= id < to ==> #[trigger] nodes@.dom().contains(id)),
{
    let mut i: i64 = from;
    while i < to
        invariant
            from <= i || i == from,
            forall|id: i64| from <= id < i ==> #[trigger] nodes@.dom().contains(id),
        decreases to - i,
    {
        if !nodes.contains_key(&i) {
            return false;
        }
        i += 1;
    }
    true
}

/// No bound of records lies above a bound of all their ids.
pub proof fn lemma_bound_below(records: Seq<(i64, Node)>, ceiling: int)
    requires
        0 <= ceiling,
        forall|j: int| 0 <= j < records.len() ==> (#[trigger] records[j]).0 < ceiling,
    ensures
        bound_of(records) <= ceiling,
    decreases records.len(),
{
    if records.len() > 0 {
        assert forall|j: int| 0 <= j < records.drop_last().len() implies (
        #[trigger] records.drop_last()[j]).0 < ceiling by {
            assert(records.drop_last()[j] == records[j]);
        }
        lemma_bound_below(records.drop_last(), ceiling);
        assert(records[records.len() - 1].0 < ceiling);
    }
}

/// The ids of the records in their order, and one more than the largest of
/// them, unless an id is negative or the largest number.
pub fn scan_ids(records: &Vec<(i64, Node)>) -> (r: Option<(Vec<i64>, i64)>)
    ensures
        r is Some <==> forall|j: int|
            0 <= j < records@.len() ==> 0 <= (#[trigger] records@[j]).0 < i64::MAX,
        r matches Some(found) ==> {
            &&& found.0@.len() == records@.len()
            &&& forall|w: int| 0 <= w < records@.len() ==> found.0@[w] == (#[trigger] records@[w]).0
            &&& found.1 == bound_of(records@)
        },
{
    let mut ids: Vec<i64> = Vec::new();
    let mut bound: i64 = 0;
    let mut j: usize = 0;
    while j < records.len()
        invariant
            j <= records@.len(),
            ids@.len() == j,
            forall|w: int|
                0 <= w < j ==> ids@[w] == (#[trigger] records@[w]).0 && 0 <= records@[w].0
                    < i64::MAX,
            bound == bound_of(records@.take(j as int)),
            0 <= bound,
        decreases records@.len() - j,
    {
        let id = records[j].0;
        if id < 0 || id == i64::MAX {
            assert(!(0 <= records@[j as int].0 < i64::MAX));
            return None;
        }
        assert(records@.take(j + 1).drop_last() =~= records@.take(j as int));
        if id + 1 > bound {
            bound = id + 1;
        }
        ids.push(id);
        j += 1;
    }
    assert(records@.take(j as int) =~= records@);
    Some((ids, bound))
}

/// The number of leading records that are read as roots, where `m` is what
/// `n_items` is read as.
pub fn count_roots(records: &Vec<(i64, Node)>, m: i64) -> (n: usize)
    requires
        records@.len() > 0,
        m == count_of(records@),
    ensures
        n == root_count(records@),
        n <= records@.len(),
        forall|w: int| 0 <= w < n ==> leads(records@, w),
{
    let first = records[0].1.n_descendants;
    let leafy = first == 1 && records[0].1.children.len() == 2;
    let mut n: usize = 0;
    while !leafy && n < records.len() && records[n].1.n_descendants == first && records[n].0 >= m
        invariant
            n <= records@.len(),
            records@.len() > 0,
            first == records@[0].1.n_descendants,
            leafy == leaf_shaped(records@[0].1),
            m == count_of(records@),
            forall|w: int| 0 <= w < n ==> leads(records@, w),
        decreases records@.len() - n,
    {
        n += 1;
    }
    proof {
        lemma_run_ends(records@, 0, n as int);
    }
    n
}

/// The first `n` of `ids`.
pub fn first_of(ids: &Vec<i64>, n: usize) -> (r: Vec<i64>)
    requires
        n <= ids@.len(),
    ensures
        r@ == ids@.take(n as int),
{
    let mut r: Vec<i64> = Vec::new();
    let mut w: usize = 0;
    while w < n
        invariant
            w <= n <= ids@.len(),
            r@ == ids@.take(w as int),
        decreases n - w,
    {
        r.push(ids[w]);
        assert(r@ =~= ids@.take(w + 1));
        w += 1;
    }
    r
}

/// The arena that the records describe, unless two of them have the same id.
#[verifier::loop_isolation(false)]
pub fn into_arena(records: Vec<(i64, Node)>) -> (r: Option<HashMap<i64, Node>>)
    ensures
        r is Some <==> ids_distinct(records@),
        r matches Some(nodes) ==> nodes@ == arena_of(records@),
{
    let ghost orig = records@;
    let ghost total = orig.len() as int;
    let mut rest = records;
    let mut nodes: HashMap<i64, Node> = HashMap::new();
    let mut left: usize = rest.len();
    while left > 0
        invariant
            left <= total,
            total == orig.len(),
            rest@ == orig.take(left as int),
            forall|u: int|
                left <= u < total ==> nodes@.dom().contains((#[trigger] orig[u]).0)
                    && nodes@[orig[u].0] == orig[u].1,
            forall|id: i64| #[trigger]
                nodes@.dom().contains(id) ==> exists|u: int|
                    left <= u < total && (#[trigger] orig[u]).0 == id,
            forall|a: int, b: int|
                left <= a < total && left <= b < total && a != b ==> (#[trigger] orig[a]).0
                    != (#[trigger] orig[b]).0,
        decreases left,
    {
        let ghost held = nodes@;
        match rest.pop() {
            Some(rec) => {
                assert(rec == orig[left - 1]);
                if nodes.contains_key(&rec.0) {
                    proof {
                        let u = choose|u: int|
                            left <= u < total && (#[trigger] orig[u]).0 == rec.0;
                        assert(orig[left - 1].0 == orig[u].0);
                        assert(!ids_distinct(orig));
                    }
                    return None;
                }
                nodes.insert(rec.0, rec.1);
                proof {
                    assert forall|id: i64| #[trigger] nodes@.dom().contains(id) implies exists|
                        u: int,
                    |
                        left - 1 <= u < total && (#[trigger] orig[u]).0 == id by {
                        if id == rec.0 {
                            assert(orig[left - 1].0 == id);
                        } else {
                            assert(held.dom().contains(id));
                            let u = choose|u: int|
                                left <= u < total && (#[trigger] orig[u]).0 == id;
                            assert(orig[u].0 == id);
                        }
                    }
                    assert forall|a: int, b: int|
                        left - 1 <= a < total && left - 1 <= b < total && a != b implies (
                    #[trigger] orig[a]).0 != (#[trigger] orig[b]).0 by {
                        if a == left - 1 {
                            assert(held.dom().contains(orig[b].0));
                        } else if b == left - 1 {
                            assert(held.dom().contains(orig[a].0));
                        }
                    }
                }
                left -= 1;
                assert(rest@ =~= orig.take(left as int));
            },
            None => {
                proof {
                    assert(false);
                }
            },
        }
    }
    proof {
        assert(ids_distinct(orig));
        assert forall|id: i64| nodes@.dom().contains(id) <==> names(orig, id) by {
            if names(orig, id) {
                let u = place_of(orig, id);
                assert(nodes@.dom().contains(orig[u].0));
            }
            if nodes@.dom().contains(id) {
                let u = choose|u: int| 0 <= u < total && (#[trigger] orig[u]).0 == id;
                assert(orig[u].0 == id);
            }
        }
        assert forall|id: i64| nodes@.dom().contains(id) implies #[trigger] nodes@[id] == arena_of(
            orig,
        )[id] by {
            let u = place_of(orig, id);
            lemma_arena_of_holds(orig, u);
        }
        assert(nodes@ =~= arena_of(orig));
    }
    Some(nodes)
}

/// Whether every node of the arena is sound, with the first `n_roots` of `ids`
/// as the roots. `ids` names every node of the arena once.
pub fn check_nodes<D: Distance>(
    nodes: &HashMap<i64, Node>,
    ids: &Vec<i64>,
    n_roots: usize,
    n_items: i64,
    f: usize,
) -> (r: bool)
    requires
        0 < n_items,
        n_roots <= ids@.len(),
        ids@.no_duplicates(),
        forall|id: i64| nodes@.dom().contains(id) <==> ids@.contains(id),
    ensures
        r == {
            &&& forall|id: i64| #[trigger]
                nodes@.dom().contains(id) && id < n_items ==> item_ok::<D>(nodes@[id], f as nat)
            &&& forall|id: i64| #[trigger]
                nodes@.dom().contains(id) && id >= n_items ==> inner_ok::<D>(
                    nodes@,
                    n_items as int,
                    f as nat,
                    ids@.take(n_roots as int),
                    id,
                )
        },
{
    let present = count_present(nodes, n_items);
    let ghost roots = ids@.take(n_roots as int);
    let mut j: usize = 0;
    while j < ids.len()
        invariant
            j <= ids@.len(),
            0 < n_items,
            n_roots <= ids@.len(),
            roots == ids@.take(n_roots as int),
            ids@.no_duplicates(),
            forall|id: i64| nodes@.dom().contains(id) <==> ids@.contains(id),
            present == present_below(nodes@, n_items as int),
            forall|w: int|
                0 <= w < j ==> if (#[trigger] ids@[w]) < n_items {
                    item_ok::<D>(nodes@[ids@[w]], f as nat)
                } else {
                    inner_ok::<D>(nodes@, n_items as int, f as nat, roots, ids@[w])
                },
        decreases ids@.len() - j,
    {
        let id = ids[j];
        proof {
            assert(ids@.contains(ids@[j as int]));
            if roots.contains(id) {
                let u = choose|u: int| 0 <= u < roots.len() && roots[u] == id;
                assert(ids@[u] == ids@[j as int]);
            }
            if j < n_roots {
                assert(roots[j as int] == id);
            }
            assert(roots.contains(id) == (j < n_roots));
        }
        if !check_node::<D>(nodes, n_items, present, f, j < n_roots, id) {
            return false;
        }
        j += 1;
    }
    proof {
        assert forall|id: i64| #[trigger]
            nodes@.dom().contains(id) && id < n_items implies item_ok::<D>(
            nodes@[id],
            f as nat,
        ) by {
            assert(ids@.contains(id));
            let u = choose|u: int| 0 <= u < ids@.len() && ids@[u] == id;
            assert(ids@[u] == id);
        }
        assert forall|id: i64| #[trigger]
            nodes@.dom().contains(id) && id >= n_items implies inner_ok::<D>(
            nodes@,
            n_items as int,
            f as nat,
            roots,
            id,
        ) by {
            assert(ids@.contains(id));
            let u = choose|u: int| 0 <= u < ids@.len() && ids@[u] == id;
            assert(ids@[u] == id);
        }
    }
    true
}

} // verus!
