//! What a sound forest is: the shapes of the nodes of the arena and how they
//! hang together.

use crate::distance::{admits, Distance};
use crate::split::{agrees, keeps_sides, pick};
use crate::node::Node;
use vstd::prelude::*;

verus! {

/// The largest number of items that is kept as a bucket instead of being split.
pub const K: usize = 6;

/// Whether `id` names a registered item of `nodes`.
pub open spec fn is_item(nodes: Map<i64, Node>, n_items: int, id: i64) -> bool {
    0 <= id < n_items && nodes.dom().contains(id)
}

/// The number of item ids below `n` that are registered in `nodes`.
pub open spec fn present_below(nodes: Map<i64, Node>, n: int) -> nat
    decreases n,
{
    if n <= 0 {
        0
    } else {
        present_below(nodes, n - 1) + if nodes.dom().contains((n - 1) as i64) {
            1nat
        } else {
            0nat
        }
    }
}

/// The item ids below `n` that are registered in `nodes`, in increasing order.
pub open spec fn item_list(nodes: Map<i64, Node>, n: int) -> Seq<i64>
    decreases n,
{
    if n <= 0 {
        Seq::empty()
    } else if nodes.dom().contains((n - 1) as i64) {
        item_list(nodes, n - 1).push((n - 1) as i64)
    } else {
        item_list(nodes, n - 1)
    }
}

/// What holds of the node of an item: it counts itself, has its two child
/// slots, and holds a vector of the index's dimension that the metric admits.
pub open spec fn item_ok<D: Distance>(n: Node, f: nat) -> bool {
    &&& n.n_descendants == 1
    &&& n.children@.len() == 2
    &&& n.v@.len() == f
    &&& admits::<D>(n.v@)
}

/// Whether the node is read as a bucket: a list of item ids.
pub open spec fn is_bucket(n: Node) -> bool {
    n.n_descendants <= K || n.children@.len() != 2
}

/// What holds of a node above the items. A bucket lists distinct registered
/// items. A split has two earlier nodes as children, the smaller one first. A
/// root counts `n_items` and covers every registered item; any other node counts
/// what lies below it, which is less than `n_items`.
pub open spec fn node_ok<D: Distance>(
    nodes: Map<i64, Node>,
    n_items: int,
    f: nat,
    root: bool,
    id: i64,
) -> bool {
    let n = nodes[id];
    let c = n.children@;
    if is_bucket(n) {
        &&& 1 <= c.len() <= K
        &&& forall|j: int| 0 <= j < c.len() ==> is_item(nodes, n_items, #[trigger] c[j])
        &&& c.no_duplicates()
        &&& if root {
            n.n_descendants == n_items && c.len() == present_below(nodes, n_items)
        } else {
            n.n_descendants == c.len() && c.len() < n_items
        }
    } else {
        &&& 0 <= c[0] < id
        &&& 0 <= c[1] < id
        &&& nodes.dom().contains(c[0])
        &&& nodes.dom().contains(c[1])
        &&& 1 <= nodes[c[0]].n_descendants <= nodes[c[1]].n_descendants
        &&& D::is_split(n.v@, n.a as int, f)
        &&& if root {
            n.n_descendants == n_items && nodes[c[0]].n_descendants + nodes[c[1]].n_descendants
                == present_below(nodes, n_items)
        } else {
            n.n_descendants == nodes[c[0]].n_descendants + nodes[c[1]].n_descendants
                && n.n_descendants < n_items
        }
    }
}

/// What holds of the node `id` above the items: what `node_ok` says of a root if
/// it is one of `roots`, and of any other node if it is not.
pub open spec fn inner_ok<D: Distance>(
    nodes: Map<i64, Node>,
    n_items: int,
    f: nat,
    roots: Seq<i64>,
    id: i64,
) -> bool {
    node_ok::<D>(nodes, n_items, f, roots.contains(id), id)
}

/// Whether a list of `len` items becomes a bucket: it is not a single item below
/// a root, it is short enough, and where it is a root's list either all items
/// are few or it is a single item.
pub open spec fn is_short(len: int, is_root: bool, n_items: int) -> bool {
    &&& is_root || len >= 2
    &&& len <= K
    &&& !is_root || n_items <= K || len == 1
}

/// What holds of the whole arena and the list of roots. Every id from
/// `n_items` up to `n_nodes` is taken, and no other id above the items.
pub open spec fn forest_ok<D: Distance>(
    nodes: Map<i64, Node>,
    n_items: int,
    n_nodes: int,
    f: nat,
    roots: Seq<i64>,
) -> bool {
    &&& forall|id: i64| #[trigger] nodes.dom().contains(id) ==> 0 <= id < n_nodes
    &&& forall|id: i64| n_items <= id < n_nodes ==> #[trigger] nodes.dom().contains(id)
    &&& forall|id: i64| #[trigger]
        nodes.dom().contains(id) && id < n_items ==> item_ok::<D>(nodes[id], f)
    &&& forall|id: i64| #[trigger]
        nodes.dom().contains(id) && id >= n_items ==> inner_ok::<D>(nodes, n_items, f, roots, id)
    &&& forall|i: int|
        0 <= i < roots.len() ==> nodes.dom().contains(#[trigger] roots[i]) && roots[i] >= n_items
    &&& roots.no_duplicates()
}

/// The nodes of the items `indices`, in their order.
pub open spec fn item_nodes<'a>(nodes: Map<i64, Node>, indices: Seq<i64>) -> Seq<&'a Node> {
    Seq::new(indices.len(), |j: int| &nodes[indices[j]])
}

/// Whether a list of `len` items becomes a split: it is neither a single item
/// below a root nor a bucket.
pub open spec fn is_long(len: int, is_root: bool, n_items: int) -> bool {
    (is_root || len >= 2) && !is_short(len, is_root, n_items)
}

/// Whether the children of the split `id` hold the two sides of its split among
/// the items `indices`, unless one of the sides is empty: some assignment of
/// sides agrees with the margins of the items against the split, and where it
/// leaves neither side empty one child holds the items of the one side and the
/// other child those of the other.
pub open spec fn sided<D: Distance>(
    nodes: Map<i64, Node>,
    n_items: int,
    id: i64,
    indices: Seq<i64>,
) -> bool {
    let n = nodes[id];
    exists|first: Seq<bool>| #[trigger]
        agrees::<D>(n.v@, n.a as int, item_nodes(nodes, indices), first) && (pick(
            indices,
            first,
            false,
        ).len() >= 1 && pick(indices, first, true).len() >= 1 ==> {
            let l = pick(indices, first, false).to_set();
            let r = pick(indices, first, true).to_set();
            ||| leaves(nodes, n_items, n.children@[0]) == l && leaves(
                nodes,
                n_items,
                n.children@[1],
            ) == r
            ||| leaves(nodes, n_items, n.children@[0]) == r && leaves(
                nodes,
                n_items,
                n.children@[1],
            ) == l
        })
}

/// A split whose two subtrees hold the two parts that its items were divided
/// in keeps its sides.
pub proof fn lemma_sided<D: Distance>(
    nodes: Map<i64, Node>,
    n_items: int,
    id: i64,
    indices: Seq<i64>,
    left: Seq<i64>,
    right: Seq<i64>,
    first: i64,
    second: i64,
)
    requires
        keeps_sides::<D>(
            nodes[id].v@,
            nodes[id].a as int,
            indices,
            item_nodes(nodes, indices),
            left,
            right,
        ),
        nodes[id].children@ == seq![first, second] || nodes[id].children@ == seq![second, first],
        leaves(nodes, n_items, first) == left.to_set(),
        leaves(nodes, n_items, second) == right.to_set(),
    ensures
        sided::<D>(nodes, n_items, id, indices),
{
    let n = nodes[id];
    let kids = item_nodes(nodes, indices);
    let sides = choose|sides: Seq<bool>| #[trigger]
        agrees::<D>(n.v@, n.a as int, kids, sides) && (pick(indices, sides, false).len() >= 1
            && pick(indices, sides, true).len() >= 1 ==> left == pick(indices, sides, false)
            && right == pick(indices, sides, true));
    assert(agrees::<D>(n.v@, n.a as int, item_nodes(nodes, indices), sides));
    assert(n.children@[0] == first && n.children@[1] == second || n.children@[0] == second
        && n.children@[1] == first);
}

/// Nodes that are added to a forest leave a split with its sides.
pub proof fn lemma_sided_frame<D: Distance>(
    before: Map<i64, Node>,
    after: Map<i64, Node>,
    n_items: int,
    n_nodes: int,
    f: nat,
    roots: Seq<i64>,
    id: i64,
    indices: Seq<i64>,
)
    requires
        forest_ok::<D>(before, n_items, n_nodes, f, roots),
        forall|i: i64| #[trigger]
            before.dom().contains(i) ==> after.dom().contains(i) && after[i] == before[i],
        before.dom().contains(id),
        id >= n_items,
        !is_bucket(before[id]),
        forall|j: int| 0 <= j < indices.len() ==> before.dom().contains(#[trigger] indices[j]),
        sided::<D>(before, n_items, id, indices),
    ensures
        sided::<D>(after, n_items, id, indices),
        item_nodes(after, indices) == item_nodes(before, indices),
{
    let n = before[id];
    assert(inner_ok::<D>(before, n_items, f, roots, id));
    lemma_leaves_frame::<D>(before, after, n_items, n_nodes, f, roots, n.children@[0]);
    lemma_leaves_frame::<D>(before, after, n_items, n_nodes, f, roots, n.children@[1]);
    assert(item_nodes(after, indices) =~= item_nodes(before, indices));
    let first = choose|first: Seq<bool>| #[trigger]
        agrees::<D>(n.v@, n.a as int, item_nodes(before, indices), first) && (pick(
            indices,
            first,
            false,
        ).len() >= 1 && pick(indices, first, true).len() >= 1 ==> {
            let l = pick(indices, first, false).to_set();
            let r = pick(indices, first, true).to_set();
            ||| leaves(before, n_items, n.children@[0]) == l && leaves(
                before,
                n_items,
                n.children@[1],
            ) == r
            ||| leaves(before, n_items, n.children@[0]) == r && leaves(
                before,
                n_items,
                n.children@[1],
            ) == l
        });
    assert(agrees::<D>(after[id].v@, after[id].a as int, item_nodes(after, indices), first));
}

/// Whether slot `s` of the node `p` holds a child above the items: `p` is a
/// split of the arena and its child is no item.
pub open spec fn holds_inner(nodes: Map<i64, Node>, n_items: int, p: i64, s: int) -> bool {
    &&& nodes.dom().contains(p)
    &&& p >= n_items
    &&& !is_bucket(nodes[p])
    &&& (s == 0 || s == 1)
    &&& nodes[p].children@[s] >= n_items
}

/// Whether no node above the items is a child twice: neither of two splits
/// nor in both slots of one. No two trees then share a node above the items.
pub open spec fn unshared(nodes: Map<i64, Node>, n_items: int) -> bool {
    forall|p: i64, s: int, q: i64, t: int|
        #[trigger] holds_inner(nodes, n_items, p, s) && #[trigger] holds_inner(
            nodes,
            n_items,
            q,
            t,
        ) && (p != q || s != t) ==> nodes[p].children@[s] != nodes[q].children@[t]
}

/// The items that the tree below the node `id` holds.
pub open spec fn leaves(nodes: Map<i64, Node>, n_items: int, id: i64) -> Set<i64>
    decreases id,
{
    if id < 0 || !nodes.dom().contains(id) {
        Set::empty()
    } else if id < n_items {
        set![id]
    } else {
        let n = nodes[id];
        if is_bucket(n) {
            n.children@.to_set()
        } else if 0 <= n.children@[0] < id && 0 <= n.children@[1] < id {
            leaves(nodes, n_items, n.children@[0]).union(leaves(nodes, n_items, n.children@[1]))
        } else {
            Set::empty()
        }
    }
}

/// The registered items.
pub open spec fn item_set(nodes: Map<i64, Node>, n_items: int) -> Set<i64> {
    Set::new(|id: i64| is_item(nodes, n_items, id))
}

/// Nodes that are added to a forest leave the trees that are there as they are.
pub proof fn lemma_leaves_frame<D: Distance>(
    before: Map<i64, Node>,
    after: Map<i64, Node>,
    n_items: int,
    n_nodes: int,
    f: nat,
    roots: Seq<i64>,
    id: i64,
)
    requires
        forest_ok::<D>(before, n_items, n_nodes, f, roots),
        forall|i: i64| #[trigger]
            before.dom().contains(i) ==> after.dom().contains(i) && after[i] == before[i],
        before.dom().contains(id),
    ensures
        leaves(after, n_items, id) == leaves(before, n_items, id),
    decreases id,
{
    if id >= n_items {
        let n = before[id];
        assert(inner_ok::<D>(before, n_items, f, roots, id));
        if !is_bucket(n) {
            lemma_leaves_frame::<D>(before, after, n_items, n_nodes, f, roots, n.children@[0]);
            lemma_leaves_frame::<D>(before, after, n_items, n_nodes, f, roots, n.children@[1]);
        }
    }
}

/// Registering nothing below `n` leaves the count of registered items unchanged.
pub proof fn lemma_present_frame(a: Map<i64, Node>, b: Map<i64, Node>, n: int)
    requires
        forall|id: i64| id < n ==> (a.dom().contains(id) <==> b.dom().contains(id)),
    ensures
        present_below(a, n) == present_below(b, n),
    decreases n,
{
    if n > 0 {
        lemma_present_frame(a, b, n - 1);
    }
}

/// Where every id below `n` is registered, `n` items are registered below `n`.
pub proof fn lemma_present_dense(nodes: Map<i64, Node>, n: int)
    requires
        0 <= n <= i64::MAX,
        forall|id: i64| 0 <= id < n ==> #[trigger] nodes.dom().contains(id),
    ensures
        present_below(nodes, n) == n,
    decreases n,
{
    if n > 0 {
        lemma_present_dense(nodes, n - 1);
        assert(nodes.dom().contains((n - 1) as i64));
    }
}

/// There are at most `n` registered items below `n`.
pub proof fn lemma_present_bound(nodes: Map<i64, Node>, n: int)
    requires
        0 <= n,
    ensures
        present_below(nodes, n) <= n,
    decreases n,
{
    if n > 0 {
        lemma_present_bound(nodes, n - 1);
    }
}

/// Writing a sound node under the next free id keeps the forest sound.
pub proof fn lemma_insert_keeps_forest<D: Distance>(
    before: Map<i64, Node>,
    n_items: int,
    item: i64,
    m: Node,
    f: nat,
    roots: Seq<i64>,
    roots_after: Seq<i64>,
)
    requires
        forest_ok::<D>(before, n_items, item as int, f, roots),
        0 <= n_items <= item < i64::MAX,
        roots_after == roots || roots_after == roots.push(item),
        inner_ok::<D>(before.insert(item, m), n_items, f, roots_after, item),
    ensures
        forest_ok::<D>(before.insert(item, m), n_items, item + 1, f, roots_after),
{
    let after = before.insert(item, m);
    assert(!before.dom().contains(item));
    lemma_present_frame(before, after, n_items);
    assert forall|id: i64| #[trigger]
        after.dom().contains(id) && id >= n_items implies inner_ok::<D>(
        after,
        n_items,
        f,
        roots_after,
        id,
    ) by {
        if id != item {
            assert(before.dom().contains(id));
            assert(inner_ok::<D>(before, n_items, f, roots, id));
            assert(roots_after.contains(id) <==> roots.contains(id)) by {
                if roots_after.contains(id) {
                    let w = choose|w: int| 0 <= w < roots_after.len() && roots_after[w] == id;
                    assert(roots[w] == id);
                }
                if roots.contains(id) {
                    let w = choose|w: int| 0 <= w < roots.len() && roots[w] == id;
                    assert(roots_after[w] == id);
                }
            }
            let n = before[id];
            assert(after[id] == n);
            if is_bucket(n) {
                assert forall|j: int| 0 <= j < n.children@.len() implies is_item(
                    after,
                    n_items,
                    #[trigger] n.children@[j],
                ) by {
                    assert(is_item(before, n_items, n.children@[j]));
                }
            } else {
                assert(after[n.children@[0]] == before[n.children@[0]]);
                assert(after[n.children@[1]] == before[n.children@[1]]);
            }
        }
    }
    assert forall|i: int| 0 <= i < roots_after.len() implies after.dom().contains(
        #[trigger] roots_after[i],
    ) && roots_after[i] >= n_items by {
        if i < roots.len() {
            assert(roots_after[i] == roots[i]);
        }
    }
}

/// A bucket that is written under a free id shares nothing.
pub proof fn lemma_bucket_keeps_unshared(
    before: Map<i64, Node>,
    n_items: int,
    item: i64,
    m: Node,
    floor: int,
)
    requires
        unshared(before, n_items),
        !before.dom().contains(item),
        is_bucket(m),
        forall|p: i64, s: int| #[trigger]
            holds_inner(before, n_items, p, s) && p >= floor ==> before[p].children@[s] >= floor,
    ensures
        unshared(before.insert(item, m), n_items),
        forall|p: i64, s: int| #[trigger]
            holds_inner(before.insert(item, m), n_items, p, s) && p >= floor ==> before.insert(
                item,
                m,
            )[p].children@[s] >= floor,
{
    let after = before.insert(item, m);
    assert forall|p: i64, s: int| #[trigger] holds_inner(after, n_items, p, s) implies holds_inner(
        before,
        n_items,
        p,
        s,
    ) && after[p] == before[p] by {}
    assert forall|p: i64, s: int, q: i64, t: int|
        #[trigger] holds_inner(after, n_items, p, s) && #[trigger] holds_inner(
            after,
            n_items,
            q,
            t,
        ) && (p != q || s != t) implies after[p].children@[s] != after[q].children@[t] by {
        assert(holds_inner(before, n_items, p, s));
        assert(holds_inner(before, n_items, q, t));
    }
}

/// A split that is written under the next free id, over two subtrees that were
/// built one after the other, shares nothing: its children are the tops of
/// the two subtrees, and no earlier node holds either.
pub proof fn lemma_split_keeps_unshared<D: Distance>(
    a1: Map<i64, Node>,
    a2: Map<i64, Node>,
    n_items: int,
    f: nat,
    roots: Seq<i64>,
    n0: int,
    n1: int,
    n2: int,
    first: i64,
    second: i64,
    m: Node,
)
    requires
        forest_ok::<D>(a1, n_items, n1, f, roots),
        forest_ok::<D>(a2, n_items, n2, f, roots),
        unshared(a2, n_items),
        0 <= n_items <= n0 <= n1 <= n2 < i64::MAX,
        forall|i: i64| #[trigger] a1.dom().contains(i) ==> a2.dom().contains(i) && a2[i] == a1[i],
        forall|i: i64| #[trigger] a2.dom().contains(i) && !a1.dom().contains(i) ==> n1 <= i,
        forall|p: i64, s: int| #[trigger]
            holds_inner(a1, n_items, p, s) && p >= n0 ==> a1[p].children@[s] >= n0,
        forall|p: i64, s: int| #[trigger]
            holds_inner(a2, n_items, p, s) && p >= n1 ==> a2[p].children@[s] >= n1,
        0 <= first < n1,
        first >= n_items ==> first == n1 - 1 && first >= n0,
        0 <= second < n2,
        second >= n_items ==> second == n2 - 1 && second >= n1,
        !is_bucket(m),
        m.children@ == seq![first, second] || m.children@ == seq![second, first],
    ensures
        unshared(a2.insert(n2 as i64, m), n_items),
        forall|p: i64, s: int| #[trigger]
            holds_inner(a2.insert(n2 as i64, m), n_items, p, s) && p >= n0 ==> a2.insert(
                n2 as i64,
                m,
            )[p].children@[s] >= n0,
{
    let item = n2 as i64;
    let after = a2.insert(item, m);
    assert(!a2.dom().contains(item));
    // what an earlier node holds lies below both tops
    assert forall|q: i64, t: int| #[trigger] holds_inner(a2, n_items, q, t) implies a2[q].children@[t]
        != second && a2[q].children@[t] != first && (q >= n0 ==> a2[q].children@[t] >= n0) by {
        assert(inner_ok::<D>(a2, n_items, f, roots, q));
        let c = a2[q].children@[t];
        assert(c < q);
        if q >= n1 {
            assert(c >= n1);
        } else {
            assert(a1.dom().contains(q));
            assert(a2[q] == a1[q]);
            assert(holds_inner(a1, n_items, q, t));
            assert(inner_ok::<D>(a1, n_items, f, roots, q));
        }
    }
    assert forall|p: i64, s: int| #[trigger]
        holds_inner(after, n_items, p, s) && p >= n0 implies after[p].children@[s] >= n0 by {
        if p != item {
            assert(holds_inner(a2, n_items, p, s));
        }
    }
    assert forall|p: i64, s: int, q: i64, t: int|
        #[trigger] holds_inner(after, n_items, p, s) && #[trigger] holds_inner(
            after,
            n_items,
            q,
            t,
        ) && (p != q || s != t) implies after[p].children@[s] != after[q].children@[t] by {
        if p != item {
            assert(holds_inner(a2, n_items, p, s));
        }
        if q != item {
            assert(holds_inner(a2, n_items, q, t));
        }
    }
}

/// The id that a child `c` has once the nodes above the items are moved up by
/// `shift`: an item keeps its id.
pub open spec fn moved(c: i64, n_items: int, shift: int) -> int {
    if c >= n_items {
        c + shift
    } else {
        c as int
    }
}

/// Whether `new` is the node `old` moved up by `shift`: it holds what `old`
/// holds, with the children of a split moved as well.
pub open spec fn moved_node(new: Node, old: Node, n_items: int, shift: int) -> bool {
    &&& new.v@ == old.v@
    &&& new.a == old.a
    &&& new.n_descendants == old.n_descendants
    &&& if is_bucket(old) {
        new.children@ == old.children@
    } else {
        new.children@.len() == 2 && new.children@[0] == moved(old.children@[0], n_items, shift)
            && new.children@[1] == moved(old.children@[1], n_items, shift)
    }
}

/// The ids from `n_items` up to `upto` of the nodes of `nodes` that count
/// `n_items`, which are the roots, in increasing order and moved up by `shift`.
pub open spec fn moved_roots(nodes: Map<i64, Node>, n_items: int, upto: int, shift: int) -> Seq<
    i64,
>
    decreases upto - n_items,
{
    if upto <= n_items {
        Seq::empty()
    } else if nodes[(upto - 1) as i64].n_descendants == n_items {
        moved_roots(nodes, n_items, upto - 1, shift).push((upto - 1 + shift) as i64)
    } else {
        moved_roots(nodes, n_items, upto - 1, shift)
    }
}

/// Where a node from `n_items` up to `upto` counts `n_items`, there is a moved
/// root.
pub proof fn lemma_moved_roots_has(
    nodes: Map<i64, Node>,
    n_items: int,
    upto: int,
    shift: int,
    r: i64,
)
    requires
        n_items <= r < upto,
        nodes[r].n_descendants == n_items,
    ensures
        moved_roots(nodes, n_items, upto, shift).len() >= 1,
    decreases upto - n_items,
{
    if r < upto - 1 {
        lemma_moved_roots_has(nodes, n_items, upto - 1, shift, r);
    }
}

/// A node above the items is a root where it counts `n_items`, and only there.
pub proof fn lemma_root_counts<D: Distance>(
    nodes: Map<i64, Node>,
    n_items: int,
    n_nodes: int,
    f: nat,
    roots: Seq<i64>,
    id: i64,
)
    requires
        forest_ok::<D>(nodes, n_items, n_nodes, f, roots),
        nodes.dom().contains(id),
        id >= n_items,
    ensures
        roots.contains(id) <==> nodes[id].n_descendants == n_items,
{
    assert(inner_ok::<D>(nodes, n_items, f, roots, id));
}

/// A node of one forest that is moved into another forest over the same items,
/// above everything that is there and after the nodes below it, is sound
/// there.
pub proof fn lemma_moved_node_ok<D: Distance>(
    theirs: Map<i64, Node>,
    their_nodes: int,
    their_roots: Seq<i64>,
    mine: Map<i64, Node>,
    n_items: int,
    f: nat,
    id: i64,
    shift: int,
    m: Node,
)
    requires
        forest_ok::<D>(theirs, n_items, their_nodes, f, their_roots),
        theirs.dom().contains(id),
        0 <= n_items <= id,
        0 <= shift,
        id + shift < i64::MAX,
        moved_node(m, theirs[id], n_items, shift),
        forall|i: i64| #[trigger] mine.dom().contains(i) ==> 0 <= i,
        forall|i: i64|
            0 <= i < n_items ==> (#[trigger] mine.dom().contains(i) <==> theirs.dom().contains(i)),
        forall|i: i64|
            0 <= i < n_items && #[trigger] mine.dom().contains(i) ==> mine[i].n_descendants == 1,
        forall|c: i64|
            n_items <= c < id ==> mine.dom().contains((c + shift) as i64) && (#[trigger] mine[(c
                + shift) as i64]).n_descendants == theirs[c].n_descendants,
        !mine.dom().contains((id + shift) as i64),
    ensures
        node_ok::<D>(
            mine.insert((id + shift) as i64, m),
            n_items,
            f,
            their_roots.contains(id),
            (id + shift) as i64,
        ),
{
    let at = (id + shift) as i64;
    let after = mine.insert(at, m);
    let old = theirs[id];
    assert(inner_ok::<D>(theirs, n_items, f, their_roots, id));
    assert forall|i: i64| i < n_items implies (theirs.dom().contains(i) <==> after.dom().contains(
        i,
    )) by {}
    lemma_present_frame(theirs, after, n_items);
    assert(is_bucket(m) == is_bucket(old));
    if is_bucket(old) {
        assert forall|j: int| 0 <= j < m.children@.len() implies is_item(
            after,
            n_items,
            #[trigger] m.children@[j],
        ) by {
            assert(is_item(theirs, n_items, old.children@[j]));
        }
    } else {
        let c0 = old.children@[0];
        let c1 = old.children@[1];
        assert(theirs.dom().contains(c0) && theirs.dom().contains(c1));
        if c0 < n_items {
            assert(item_ok::<D>(theirs[c0], f));
            assert(mine.dom().contains(c0));
        } else {
            assert(mine[(c0 + shift) as i64].n_descendants == theirs[c0].n_descendants);
        }
        if c1 < n_items {
            assert(item_ok::<D>(theirs[c1], f));
            assert(mine.dom().contains(c1));
        } else {
            assert(mine[(c1 + shift) as i64].n_descendants == theirs[c1].n_descendants);
        }
        assert(after[m.children@[0]].n_descendants == theirs[c0].n_descendants);
        assert(after[m.children@[1]].n_descendants == theirs[c1].n_descendants);
    }
}

} // verus!
