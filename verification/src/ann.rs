//! The index: item ingest, forest construction and search.

use crate::distance::{accepts, admits, Distance};
use crate::error::AnnoyError;
use crate::forest::{
    forest_ok, holds_inner, inner_ok, is_bucket, is_item, is_long, is_short, item_list,
    item_nodes, item_ok, item_set, leaves, lemma_bucket_keeps_unshared, lemma_insert_keeps_forest,
    lemma_moved_node_ok, lemma_moved_roots_has, lemma_root_counts, lemma_sided, lemma_sided_frame,
    lemma_split_keeps_unshared, moved_node, moved_roots, sided, unshared,
    lemma_leaves_frame, lemma_present_bound, lemma_present_dense, lemma_present_frame,
    present_below, K,
};
use crate::frontier::{before, find_top, insert_ranked, precedes, ranked};
use crate::node::{same_node, same_vector, Node, NodeImpl};
use crate::random::{seeded_rng, seeded_source};
use crate::search::{
    lemma_search_finds_items, lemma_weight_floor, lemma_weight_push, lemma_weight_remove,
    lemma_weight_seed, search, seed, weight,
};
use crate::shares::{
    lemma_shares_sum, lemma_shares_within, room_for, share_of, shares_total, worker_share,
    BUILD_WORKERS,
};
use crate::snapshot::{
    arena_of, bound_of, check_nodes, count_of, count_roots, describes_forest, first_of,
    ids_distinct, into_arena, leads, leaf_shaped, lemma_arena_of_holds, lemma_bound_below,
    lemma_bound_of, lemma_run_ends, no_gaps,
    lemma_same_arena_forest, lemma_same_arena_search, names, place_of, roots_of, same_arena,
    scan_ids,
};
use crate::split::{
    lemma_pick_complete, lemma_pick_covers, lemma_pick_distinct, pick, random_split_index,
};
use rand::rngs::StdRng;
use std::collections::HashMap;
use std::marker::PhantomData;
use vstd::prelude::*;

verus! {

broadcast use vstd::std_specs::hash::group_hash_axioms;

/// An approximate nearest-neighbour index under the metric `D`.
pub struct Annoy<D: Distance> {
    f: usize,
    n_nodes: i64,
    n_items: i64,
    nodes: HashMap<i64, Node>,
    roots: Vec<i64>,
    built: bool,
    rng: StdRng,
    metric: PhantomData<D>,
}

impl<D: Distance> Annoy<D> {
    /// The arena: every node by its id.
    pub closed spec fn arena(&self) -> Map<i64, Node> {
        self.nodes@
    }

    /// The roots of the trees, in the order in which they were built.
    pub closed spec fn root_ids(&self) -> Seq<i64> {
        self.roots@
    }

    /// The dimension of every vector.
    pub closed spec fn dimension(&self) -> nat {
        self.f as nat
    }

    /// One more than the largest item id seen.
    pub closed spec fn item_bound(&self) -> int {
        self.n_items as int
    }

    /// The next id that the arena hands out.
    pub closed spec fn node_bound(&self) -> int {
        self.n_nodes as int
    }

    /// Whether the forest has been built.
    pub closed spec fn is_built(&self) -> bool {
        self.built
    }

    /// The random source that the next draws are taken from.
    pub closed spec fn source(&self) -> StdRng {
        self.rng
    }

    /// The bound below which every id of the arena lies: `n_items` while only
    /// items are registered, and the next free id once the forest is built.
    pub open spec fn ceiling(&self) -> int {
        if self.is_built() {
            self.node_bound()
        } else {
            self.item_bound()
        }
    }

    /// The invariant of the index. Until the forest is built the arena holds
    /// items only, and the counter of node ids is not used.
    pub open spec fn wf(&self) -> bool {
        &&& 0 < self.dimension() <= i32::MAX
        &&& 0 <= self.item_bound() <= Self::id_limit()
        &&& 0 <= self.node_bound() <= i64::MAX
        &&& self.is_built() ==> 1 <= self.item_bound() <= self.node_bound()
        &&& self.is_built() && self.root_ids().len() == 0 ==> self.node_bound()
            == self.item_bound()
        &&& self.item_bound() > 0 ==> self.arena().dom().contains((self.item_bound() - 1) as i64)
        &&& !self.is_built() ==> self.root_ids().len() == 0
        &&& forest_ok::<D>(
            self.arena(),
            self.item_bound(),
            self.ceiling(),
            self.dimension(),
            self.root_ids(),
        )
    }

    /// Whether a vector is registered under `item`.
    pub open spec fn has_item(&self, item: i64) -> bool {
        is_item(self.arena(), self.item_bound(), item)
    }

    /// Whether a vector is registered under every id below `n_items`.
    pub open spec fn dense(&self) -> bool {
        forall|id: i64| 0 <= id < self.item_bound() ==> #[trigger] self.arena().dom().contains(id)
    }

    /// Whether every tree of the forest holds every registered item.
    pub open spec fn covers(&self) -> bool {
        forall|i: int|
            0 <= i < self.root_ids().len() ==> leaves(
                self.arena(),
                self.item_bound(),
                #[trigger] self.root_ids()[i],
            ) == item_set(self.arena(), self.item_bound())
    }

    /// An empty index of dimension `f`. Its random source starts from seed 0.
    pub fn new(f: usize) -> (r: Result<Self, AnnoyError>)
        ensures
            (f == 0 || f > i32::MAX) <==> r is Err,
            r is Err ==> r == Err::<Self, AnnoyError>(AnnoyError::InvalidDimension),
            r matches Ok(ann) ==> {
                &&& ann.wf()
                &&& ann.dimension() == f
                &&& ann.item_bound() == 0
                &&& ann.node_bound() == 0
                &&& ann.arena() == Map::<i64, Node>::empty()
                &&& ann.root_ids().len() == 0
                &&& ann.source() == seeded_source(0)
                &&& !ann.is_built()
            },
    {
        if f == 0 || f > i32::MAX as usize {
            return Err(AnnoyError::InvalidDimension);
        }
        let ann = Annoy {
            f,
            n_nodes: 0,
            n_items: 0,
            nodes: HashMap::new(),
            roots: Vec::new(),
            built: false,
            rng: seeded_rng(0),
            metric: PhantomData,
        };
        Ok(ann)
    }

    /// Restarts the random source from `seed`: the index then holds the
    /// generator that is made of `seed`, whatever it held before. Nothing else
    /// changes.
    pub fn set_seed(&mut self, seed: u64)
        requires
            old(self).wf(),
        ensures
            final(self).wf(),
            final(self).source() == seeded_source(seed),
            final(self).arena() == old(self).arena(),
            final(self).root_ids() == old(self).root_ids(),
            final(self).dimension() == old(self).dimension(),
            final(self).item_bound() == old(self).item_bound(),
            final(self).node_bound() == old(self).node_bound(),
            final(self).is_built() == old(self).is_built(),
    {
        self.rng = seeded_rng(seed);
    }

    /// The dimension of every vector.
    pub fn f(&self) -> (r: usize)
        ensures
            r == self.dimension(),
    {
        self.f
    }

    /// One more than the largest item id seen.
    pub fn n_items(&self) -> (r: i64)
        ensures
            r == self.item_bound(),
    {
        self.n_items
    }

    /// The next id that the arena hands out.
    pub fn n_nodes(&self) -> (r: i64)
        ensures
            r == self.node_bound(),
    {
        self.n_nodes
    }

    /// Whether the forest has been built.
    pub fn built(&self) -> (r: bool)
        ensures
            r == self.is_built(),
    {
        self.built
    }

    /// The roots of the trees, in the order in which they were built.
    pub fn roots(&self) -> (r: Vec<i64>)
        ensures
            r@ == self.root_ids(),
    {
        self.roots.clone()
    }

    /// What the node under `id` holds, if there is one.
    pub fn node(&self, id: i64) -> (r: Option<Node>)
        ensures
            r is Some <==> self.arena().dom().contains(id),
            r matches Some(n) ==> same_node(n, self.arena()[id]),
    {
        match self.nodes.get(&id) {
            Some(n) => Some(n.duplicate()),
            None => None,
        }
    }

    /// The number of ids that can name an item: an id must leave room for
    /// `n_items` to be counted.
    pub open spec fn id_limit() -> int {
        if usize::MAX < i64::MAX {
            usize::MAX as int
        } else {
            i64::MAX as int
        }
    }

    /// Why `add_item(item, w)` is refused, if it is.
    pub open spec fn add_refusal(&self, item: i64, w: Seq<i32>) -> Option<AnnoyError> {
        if self.is_built() {
            Some(AnnoyError::AlreadyBuilt)
        } else if item < 0 || item >= Self::id_limit() {
            Some(AnnoyError::InvalidId)
        } else if w.len() != self.dimension() {
            Some(AnnoyError::ShapeMismatch)
        } else if !admits::<D>(w) {
            Some(AnnoyError::OutOfRange)
        } else {
            None
        }
    }

    /// Registers the vector `w` under the id `item`, in place of any vector that
    /// was registered under it before.
    pub fn add_item(&mut self, item: i64, w: &[i32]) -> (r: Result<(), AnnoyError>)
        requires
            old(self).wf(),
        ensures
            final(self).wf(),
            match old(self).add_refusal(item, w@) {
                Some(e) => r == Err::<(), AnnoyError>(e) && *final(self) == *old(self),
                None => {
                    &&& r == Ok::<(), AnnoyError>(())
                    &&& !final(self).is_built()
                    &&& final(self).dimension() == old(self).dimension()
                    &&& final(self).item_bound() == if item >= old(self).item_bound() {
                        item + 1
                    } else {
                        old(self).item_bound()
                    }
                    &&& final(self).arena().dom() == old(self).arena().dom().insert(item)
                    &&& final(self).arena()[item].v@ == w@
                    &&& final(self).arena()[item].n_descendants == 1
                    &&& final(self).arena()[item].children@ == seq![0i64, 0i64]
                    &&& final(self).arena()[item].a == 0
                    &&& final(self).node_bound() == old(self).node_bound()
                    &&& final(self).root_ids() == old(self).root_ids()
                    &&& final(self).source() == old(self).source()
                    &&& forall|id: i64|
                        id != item && #[trigger] old(self).arena().dom().contains(id)
                            ==> final(self).arena()[id] == old(self).arena()[id]
                },
            },
    {
        if self.built {
            return Err(AnnoyError::AlreadyBuilt);
        }
        if item < 0 || item == i64::MAX || (item as u64) >= (usize::MAX as u64) {
            return Err(AnnoyError::InvalidId);
        }
        if w.len() != self.f {
            return Err(AnnoyError::ShapeMismatch);
        }
        if !accepts::<D>(w) {
            return Err(AnnoyError::OutOfRange);
        }
        let mut n = Node::new(self.f);
        n.reset(w);
        let ghost before = self.nodes@;
        self.nodes.insert(item, n);
        if item >= self.n_items {
            self.n_items = item + 1;
        }
        proof {
            assert(self.nodes@.dom() =~= before.dom().insert(item));
            assert forall|id: i64| #[trigger]
                self.nodes@.dom().contains(id) && id < self.n_items implies item_ok::<D>(
                self.nodes@[id],
                self.f as nat,
            ) by {
                if id != item {
                    assert(before.dom().contains(id));
                }
            }
            assert(self.roots@.len() == 0);
        }
        Ok(())
    }

    /// Whether the trees were built until the arena was full and no further:
    /// when every tree but the last was done, the arena held fewer than twice
    /// `n_items` nodes.
    pub open spec fn stopped_when_full(&self) -> bool {
        forall|i: int|
            0 <= i < self.root_ids().len() - 1 ==> (#[trigger] self.root_ids()[i]) + 1 < 2
                * self.item_bound()
    }

    /// Whether every tree is a single bucket that lists `list`: the roots have
    /// the ids from `n_items` on, one after the other, and the arena holds
    /// nothing else above the items.
    pub open spec fn all_buckets(&self, list: Seq<i64>) -> bool {
        &&& self.node_bound() == self.item_bound() + self.root_ids().len()
        &&& forall|i: int|
            0 <= i < self.root_ids().len() ==> (#[trigger] self.root_ids()[i]) == self.item_bound()
                + i && self.arena()[self.root_ids()[i]].children@ == list
    }

    /// Whether every root is a split that the metric made of the items `list`
    /// and whose children hold its two sides, unless one side is empty.
    pub open spec fn all_splits(&self, list: Seq<i64>) -> bool {
        forall|i: int|
            0 <= i < self.root_ids().len() ==> {
                let n = self.arena()[#[trigger] self.root_ids()[i]];
                &&& !is_bucket(n)
                &&& D::made_of(item_nodes(self.arena(), list), self.dimension(), n.v@, n.a as int)
                &&& sided::<D>(self.arena(), self.item_bound(), self.root_ids()[i], list)
            }
    }

    /// Why `build(q)` is refused, if it is.
    pub open spec fn build_refusal(&self, q: i64) -> Option<AnnoyError> {
        if self.is_built() {
            Some(AnnoyError::AlreadyBuilt)
        } else if q < -1 {
            Some(AnnoyError::InvalidTreeCount)
        } else if self.item_bound() == 0 {
            Some(AnnoyError::EmptyIndex)
        } else if !room_for(
            self.item_bound(),
            present_below(self.arena(), self.item_bound()) as int,
            q as int,
        ) {
            Some(AnnoyError::CapacityExceeded)
        } else {
            None
        }
    }

    /// Builds the forest: `q` trees, each over all registered items, or with
    /// `q == -1` as many trees as it takes for the arena to hold twice as many
    /// nodes as `n_items`. The trees are shared out to `BUILD_WORKERS` workers,
    /// which run one after the other. The items themselves are not touched.
    pub fn build(&mut self, q: i64) -> (r: Result<(), AnnoyError>)
        requires
            old(self).wf(),
        ensures
            final(self).wf(),
            match old(self).build_refusal(q) {
                Some(e) => r == Err::<(), AnnoyError>(e) && *final(self) == *old(self),
                None => {
                    &&& r == Ok::<(), AnnoyError>(())
                    &&& final(self).is_built()
                    &&& final(self).covers()
                    &&& unshared(final(self).arena(), final(self).item_bound())
                    &&& final(self).dimension() == old(self).dimension()
                    &&& final(self).item_bound() == old(self).item_bound()
                    &&& q >= 0 ==> final(self).root_ids().len() == q
                    &&& is_short(
                        present_below(old(self).arena(), old(self).item_bound()) as int,
                        true,
                        old(self).item_bound(),
                    ) ==> final(self).all_buckets(
                        item_list(old(self).arena(), old(self).item_bound()),
                    )
                    &&& is_long(
                        present_below(old(self).arena(), old(self).item_bound()) as int,
                        true,
                        old(self).item_bound(),
                    ) ==> final(self).all_splits(
                        item_list(old(self).arena(), old(self).item_bound()),
                    )
                    &&& q == -1 ==> final(self).root_ids().len() >= 1 && final(self).node_bound()
                        >= 2 * final(self).item_bound() && final(self).stopped_when_full()
                    &&& forall|id: i64| #[trigger]
                        old(self).arena().dom().contains(id) ==> final(self).arena().dom().contains(
                            id,
                        ) && final(self).arena()[id] == old(self).arena()[id]
                    &&& forall|id: i64| #[trigger]
                        final(self).arena().dom().contains(id)
                            && !old(self).arena().dom().contains(id) ==> id >= old(self).item_bound()
                },
            },
    {
        if self.built {
            return Err(AnnoyError::AlreadyBuilt);
        }
        if q < -1 {
            return Err(AnnoyError::InvalidTreeCount);
        }
        if self.n_items == 0 {
            return Err(AnnoyError::EmptyIndex);
        }
        let indices = self.item_ids();
        let present: u128 = indices.len() as u128;
        let limit: u128 = i64::MAX as u128;
        proof {
            lemma_present_bound(self.nodes@, self.n_items as int);
        }
        if q == -1 {
            if 2 * (self.n_items as u128) + 2 * present > limit {
                return Err(AnnoyError::CapacityExceeded);
            }
        } else {
            assert((q as u128) * (2 * present) <= 0x7fff_ffff_ffff_ffff * 0xffff_ffff_ffff_fffe)
                by (nonlinear_arith)
                requires
                    0 <= q as u128 <= 0x7fff_ffff_ffff_ffff,
                    0 <= 2 * present <= 0xffff_ffff_ffff_fffe,
            ;
            if (self.n_items as u128) + (q as u128) * (2 * present) > limit {
                return Err(AnnoyError::CapacityExceeded);
            }
        }
        let ghost before = self.nodes@;
        self.n_nodes = self.n_items;
        proof {
            assert forall|p: i64, s: int| !#[trigger] holds_inner(
                self.nodes@,
                self.n_items as int,
                p,
                s,
            ) by {}
        }
        if q == -1 {
            while (self.n_nodes as i128) < 2 * (self.n_items as i128)
                invariant
                    self.f == old(self).f,
                    self.n_items == old(self).n_items,
                    self.growing(before, indices@),
                    2 * self.n_items + 2 * indices@.len() <= i64::MAX,
                    self.n_nodes > self.n_items ==> self.roots@.len() >= 1,
                    forall|j: int|
                        0 <= j < self.roots@.len() - 1 ==> (#[trigger] self.roots@[j]) + 1 < 2
                            * self.n_items,
                decreases
                        if 2 * self.n_items > self.n_nodes {
                            2 * self.n_items - self.n_nodes
                        } else {
                            0
                        },
            {
                self.plant(&indices, Ghost(before));
            }
        } else {
            let mut worker: usize = 0;
            while worker < BUILD_WORKERS
                invariant
                    0 <= q,
                    worker <= BUILD_WORKERS,
                    self.f == old(self).f,
                    self.n_items == old(self).n_items,
                    self.growing(before, indices@),
                    self.n_items + q * (2 * indices@.len()) <= i64::MAX,
                    self.roots@.len() == shares_total(q as int, BUILD_WORKERS as int, worker as int),
                    self.n_nodes <= self.n_items + self.roots@.len() * (2 * indices@.len()),
                decreases BUILD_WORKERS - worker,
            {
                let share = share_of(q, worker, BUILD_WORKERS);
                let mut made: i64 = 0;
                proof {
                    lemma_shares_within(q as int, BUILD_WORKERS as int, worker as int + 1);
                }
                while made < share
                    invariant
                        0 <= q,
                        0 <= made <= share,
                        worker < BUILD_WORKERS,
                        share == worker_share(q as int, worker as int, BUILD_WORKERS as int),
                        shares_total(q as int, BUILD_WORKERS as int, worker as int + 1) <= q,
                        self.f == old(self).f,
                        self.n_items == old(self).n_items,
                        self.growing(before, indices@),
                        self.n_items + q * (2 * indices@.len()) <= i64::MAX,
                        self.roots@.len() == shares_total(
                            q as int,
                            BUILD_WORKERS as int,
                            worker as int,
                        ) + made,
                        self.n_nodes <= self.n_items + self.roots@.len() * (2 * indices@.len()),
                    decreases share - made,
                {
                    let ghost count = self.roots@.len() as int;
                    let ghost width = 2 * indices@.len() as int;
                    proof {
                        assert((count + 1) * width <= q * width) by (nonlinear_arith)
                            requires
                                count + 1 <= q,
                                0 <= width,
                        ;
                        assert((count + 1) * width == count * width + width) by (nonlinear_arith);
                    }
                    self.plant(&indices, Ghost(before));
                    made += 1;
                }
                worker += 1;
            }
            proof {
                lemma_shares_sum(q as int, BUILD_WORKERS as int);
            }
        }
        proof {
            assert(item_set(self.nodes@, self.n_items as int) =~= item_set(
                before,
                self.n_items as int,
            ));
        }
        self.built = true;
        Ok(())
    }

    /// What holds while the trees over the items `indices` are built one after
    /// the other in an arena that started as `before`: the forest is sound and
    /// shares nothing, the items are as they were, and every tree built so far
    /// holds every item, as a bucket that lists them or as a split made of them
    /// that keeps its sides.
    spec fn growing(&self, before: Map<i64, Node>, indices: Seq<i64>) -> bool {
        let nodes = self.nodes@;
        let n_items = self.n_items as int;
        let roots = self.roots@;
        &&& !self.built
        &&& 0 < self.f <= i32::MAX
        &&& 0 < self.n_items <= self.n_nodes
        &&& self.n_items <= usize::MAX
        &&& nodes.dom().contains((self.n_items - 1) as i64)
        &&& forest_ok::<D>(nodes, n_items, self.n_nodes as int, self.f as nat, roots)
        &&& unshared(nodes, n_items)
        &&& indices.len() == present_below(nodes, n_items)
        &&& indices.no_duplicates()
        &&& forall|j: int| 0 <= j < indices.len() ==> is_item(nodes, n_items, #[trigger] indices[j])
        &&& roots.len() >= 1 ==> roots[roots.len() - 1] + 1 == self.n_nodes
        &&& forall|j: int|
            0 <= j < roots.len() ==> leaves(nodes, n_items, #[trigger] roots[j]) == indices.to_set()
        &&& is_short(indices.len() as int, true, n_items) ==> self.n_nodes == n_items + roots.len()
            && forall|j: int|
            0 <= j < roots.len() ==> (#[trigger] roots[j]) == n_items + j
                && nodes[roots[j]].children@ == indices
        &&& is_long(indices.len() as int, true, n_items) ==> forall|j: int|
            0 <= j < roots.len() ==> self.split_root(#[trigger] roots[j], indices)
        &&& forall|id: i64| #[trigger]
            before.dom().contains(id) ==> nodes.dom().contains(id) && nodes[id] == before[id]
        &&& forall|id: i64| #[trigger]
            nodes.dom().contains(id) && !before.dom().contains(id) ==> id >= n_items
    }

    /// Whether the root `r` is a split that the metric made of the items
    /// `indices` and whose children hold its two sides.
    spec fn split_root(&self, r: i64, indices: Seq<i64>) -> bool {
        let n = self.nodes@[r];
        &&& !is_bucket(n)
        &&& D::made_of(item_nodes(self.nodes@, indices), self.f as nat, n.v@, n.a as int)
        &&& sided::<D>(self.nodes@, self.n_items as int, r, indices)
    }

    /// Builds one more tree over the items `indices` and takes its root among
    /// the roots.
    fn plant(&mut self, indices: &Vec<i64>, Ghost(before): Ghost<Map<i64, Node>>)
        requires
            old(self).growing(before, indices@),
            old(self).n_nodes + 2 * indices@.len() <= i64::MAX,
        ensures
            final(self).growing(before, indices@),
            final(self).f == old(self).f,
            final(self).n_items == old(self).n_items,
            final(self).roots@ == old(self).roots@.push((final(self).n_nodes - 1) as i64),
            old(self).n_nodes < final(self).n_nodes <= old(self).n_nodes + 2 * indices@.len() - 1,
    {
        let ghost mid = self.nodes@;
        let ghost top = self.n_nodes as int;
        let ghost planted = self.roots@;
        let ghost n_items = self.n_items as int;
        proof {
            lemma_present_bound(mid, n_items);
        }
        let id = self.make_tree(indices, true);
        self.roots.push(id);
        proof {
            lemma_present_frame(mid, self.nodes@, n_items);
            assert forall|j: int| 0 <= j < indices@.len() implies is_item(
                self.nodes@,
                n_items,
                #[trigger] indices@[j],
            ) by {
                assert(is_item(mid, n_items, indices@[j]));
            }
            assert forall|j: int| 0 <= j < self.roots@.len() implies leaves(
                self.nodes@,
                n_items,
                #[trigger] self.roots@[j],
            ) == indices@.to_set() by {
                if j < planted.len() {
                    assert(self.roots@[j] == planted[j]);
                    lemma_leaves_frame::<D>(
                        mid,
                        self.nodes@,
                        n_items,
                        top,
                        self.f as nat,
                        planted,
                        planted[j],
                    );
                }
            }
            if is_long(indices@.len() as int, true, n_items) {
                assert forall|j: int| 0 <= j < self.roots@.len() implies self.split_root(
                    #[trigger] self.roots@[j],
                    indices@,
                ) by {
                    if j < planted.len() {
                        let r = planted[j];
                        assert(self.roots@[j] == r);
                        assert(old(self).split_root(r, indices@));
                        assert forall|w: int| 0 <= w < indices@.len() implies mid.dom().contains(
                            #[trigger] indices@[w],
                        ) by {
                            assert(is_item(mid, n_items, indices@[w]));
                        }
                        lemma_sided_frame::<D>(
                            mid,
                            self.nodes@,
                            n_items,
                            top,
                            self.f as nat,
                            planted,
                            r,
                            indices@,
                        );
                    }
                }
            }
        }
    }

    /// The item ids below `n_items` under which a vector is registered, in
    /// increasing order.
    fn item_ids(&self) -> (indices: Vec<i64>)
        requires
            0 <= self.n_items,
            forall|id: i64| #[trigger]
                self.nodes@.dom().contains(id) && id < self.n_items ==> item_ok::<D>(
                    self.nodes@[id],
                    self.f as nat,
                ),
        ensures
            indices@.len() == present_below(self.nodes@, self.n_items as int),
            indices@.no_duplicates(),
            forall|j: int|
                0 <= j < indices@.len() ==> is_item(
                    self.nodes@,
                    self.n_items as int,
                    #[trigger] indices@[j],
                ),
            indices@.to_set() == item_set(self.nodes@, self.n_items as int),
            indices@ == item_list(self.nodes@, self.n_items as int),
    {
        let mut indices: Vec<i64> = Vec::new();
        let mut i: i64 = 0;
        while i < self.n_items
            invariant
                0 <= i <= self.n_items,
                indices@ == item_list(self.nodes@, i as int),
                forall|id: i64|
                    0 <= id < i && self.nodes@.dom().contains(id) ==> #[trigger] indices@.contains(
                        id,
                    ),
                indices@.len() == present_below(self.nodes@, i as int),
                forall|j: int|
                    0 <= j < indices@.len() ==> (#[trigger] indices@[j]) < i && is_item(
                        self.nodes@,
                        self.n_items as int,
                        indices@[j],
                    ),
                indices@.no_duplicates(),
                forall|id: i64| #[trigger]
                    self.nodes@.dom().contains(id) && id < self.n_items ==> item_ok::<D>(
                        self.nodes@[id],
                        self.f as nat,
                    ),
            decreases self.n_items - i,
        {
            let ghost had = indices@;
            match self.nodes.get(&i) {
                Some(n) => {
                    if n.descendant() >= 1 {
                        indices.push(i);
                    }
                },
                None => {},
            }
            proof {
                assert forall|id: i64|
                    0 <= id < i + 1 && self.nodes@.dom().contains(
                        id,
                    ) implies #[trigger] indices@.contains(id) by {
                    if id < i {
                        assert(had.contains(id));
                        let w = choose|w: int| 0 <= w < had.len() && had[w] == id;
                        assert(indices@[w] == id);
                    } else {
                        assert(item_ok::<D>(self.nodes@[id], self.f as nat));
                        assert(indices@[had.len() as int] == id);
                    }
                }
            }
            i += 1;
        }
        proof {
            assert forall|id: i64| indices@.to_set().contains(id) implies item_set(
                self.nodes@,
                self.n_items as int,
            ).contains(id) by {
                let w = choose|w: int| 0 <= w < indices@.len() && indices@[w] == id;
                assert(is_item(self.nodes@, self.n_items as int, indices@[w]));
            }
            assert(indices@.to_set() =~= item_set(self.nodes@, self.n_items as int));
        }
        indices
    }

    /// Builds one tree over the items `indices` and returns the id of its top node.
    ///
    /// A single item that is not a root is its own tree. A short list becomes a
    /// bucket. A longer list is divided by a split of the metric, each part
    /// becomes a subtree, and the larger part becomes the second child. A root
    /// counts `n_items`; every other node counts its items.
    #[verifier::rlimit(40)]
    fn make_tree(&mut self, indices: &Vec<i64>, is_root: bool) -> (id: i64)
        requires
            0 < old(self).f <= i32::MAX,
            0 <= old(self).n_items <= old(self).n_nodes,
            old(self).n_items <= usize::MAX,
            forest_ok::<D>(
                old(self).nodes@,
                old(self).n_items as int,
                old(self).n_nodes as int,
                old(self).f as nat,
                old(self).roots@,
            ),
            indices@.len() >= 1,
            old(self).n_nodes + 2 * indices@.len() <= i64::MAX,
            forall|j: int|
                0 <= j < indices@.len() ==> is_item(
                    old(self).nodes@,
                    old(self).n_items as int,
                    #[trigger] indices@[j],
                ),
            indices@.no_duplicates(),
            is_root ==> indices@.len() == present_below(
                old(self).nodes@,
                old(self).n_items as int,
            ),
            !is_root ==> indices@.len() < old(self).n_items,
            unshared(old(self).nodes@, old(self).n_items as int),
        ensures
            unshared(final(self).nodes@, final(self).n_items as int),
            forall|p: i64, s: int| #[trigger]
                holds_inner(final(self).nodes@, final(self).n_items as int, p, s)
                    && p >= old(self).n_nodes ==> final(self).nodes@[p].children@[s]
                    >= old(self).n_nodes,
            final(self).f == old(self).f,
            final(self).n_items == old(self).n_items,
            final(self).roots == old(self).roots,
            final(self).built == old(self).built,
            old(self).n_nodes <= final(self).n_nodes <= old(self).n_nodes + 2 * indices@.len() - 1,
            forest_ok::<D>(
                final(self).nodes@,
                final(self).n_items as int,
                final(self).n_nodes as int,
                final(self).f as nat,
                if is_root {
                    old(self).roots@.push(id)
                } else {
                    old(self).roots@
                },
            ),
            forall|i: i64| #[trigger]
                old(self).nodes@.dom().contains(i) ==> final(self).nodes@.dom().contains(i)
                    && final(self).nodes@[i] == old(self).nodes@[i],
            forall|i: i64| #[trigger]
                final(self).nodes@.dom().contains(i) && !old(self).nodes@.dom().contains(i)
                    ==> old(self).n_nodes <= i,
            final(self).nodes@.dom().contains(id),
            0 <= id < final(self).n_nodes,
            !is_root ==> final(self).nodes@[id].n_descendants == indices@.len(),
            !is_root && indices@.len() == 1 ==> id == indices@[0]
                && final(self).nodes@ == old(self).nodes@
                && final(self).n_nodes == old(self).n_nodes,
            is_root || indices@.len() >= 2 ==> id == final(self).n_nodes - 1
                && id >= old(self).n_nodes,
            is_short(indices@.len() as int, is_root, old(self).n_items as int)
                ==> final(self).n_nodes == old(self).n_nodes + 1
                && final(self).nodes@[id].children@ == indices@,
            leaves(final(self).nodes@, final(self).n_items as int, id) == indices@.to_set(),
            is_long(indices@.len() as int, is_root, old(self).n_items as int) ==> !is_bucket(
                final(self).nodes@[id],
            ) && D::made_of(
                item_nodes(final(self).nodes@, indices@),
                final(self).f as nat,
                final(self).nodes@[id].v@,
                final(self).nodes@[id].a as int,
            ) && sided::<D>(final(self).nodes@, final(self).n_items as int, id, indices@),
        decreases indices@.len(),
    {
        if indices.len() == 1 && !is_root {
            proof {
                assert(is_item(self.nodes@, self.n_items as int, indices@[0]));
                assert(indices@.to_set() =~= set![indices@[0]]) by {
                    assert forall|x: i64| indices@.to_set().contains(x) implies x == indices@[0] by {
                        let w = choose|w: int| 0 <= w < indices@.len() && indices@[w] == x;
                    }
                    assert(indices@.contains(indices@[0]));
                }
            }
            return indices[0];
        }
        if indices.len() <= K && (!is_root || self.n_items <= K as i64 || indices.len() == 1) {
            let item = self.n_nodes;
            let mut m = Node::new(self.f);
            m.set_descendant(if is_root {
                self.n_items as usize
            } else {
                indices.len()
            });
            m.set_children(indices.clone());
            proof {
                let after = self.nodes@.insert(item, m);
                let roots_after = if is_root {
                    self.roots@.push(item)
                } else {
                    self.roots@
                };
                lemma_present_frame(self.nodes@, after, self.n_items as int);
                assert(roots_after.contains(item) <==> is_root) by {
                    if is_root {
                        assert(roots_after[self.roots@.len() as int] == item);
                    }
                    if self.roots@.contains(item) {
                        let w = choose|w: int| 0 <= w < self.roots@.len() && self.roots@[w] == item;
                        assert(self.nodes@.dom().contains(self.roots@[w]));
                    }
                }
                assert forall|j: int| 0 <= j < m.children@.len() implies is_item(
                    after,
                    self.n_items as int,
                    #[trigger] m.children@[j],
                ) by {
                    assert(is_item(self.nodes@, self.n_items as int, indices@[j]));
                }
                lemma_insert_keeps_forest::<D>(
                    self.nodes@,
                    self.n_items as int,
                    item,
                    m,
                    self.f as nat,
                    self.roots@,
                    roots_after,
                );
                assert(is_bucket(m));
                assert forall|p: i64, s: int| #[trigger]
                    holds_inner(self.nodes@, self.n_items as int, p, s)
                        && p >= self.n_nodes implies self.nodes@[p].children@[s]
                    >= self.n_nodes by {}
                lemma_bucket_keeps_unshared(
                    self.nodes@,
                    self.n_items as int,
                    item,
                    m,
                    self.n_nodes as int,
                );
            }
            self.n_nodes = self.n_nodes + 1;
            self.nodes.insert(item, m);
            return item;
        }
        let mut m = Node::new(self.f);
        let ghost entry = self.nodes@;
        let ghost mut kids: Seq<&Node> = Seq::empty();
        let parts = {
            let mut children: Vec<&Node> = Vec::new();
            let mut i: usize = 0;
            while i < indices.len()
                invariant
                    i <= indices@.len(),
                    children@.len() == i,
                    forall|j: int| 0 <= j < i ==> *(#[trigger] children@[j]) == self.nodes@[indices@[j]],
                    forall|j: int|
                        0 <= j < i ==> (#[trigger] children@[j]).v@.len() == self.f && admits::<D>(
                            children@[j].v@,
                        ),
                    forall|j: int|
                        0 <= j < indices@.len() ==> is_item(
                            self.nodes@,
                            self.n_items as int,
                            #[trigger] indices@[j],
                        ),
                    forall|id: i64| #[trigger]
                        self.nodes@.dom().contains(id) && id < self.n_items ==> item_ok::<D>(
                            self.nodes@[id],
                            self.f as nat,
                        ),
                decreases indices@.len() - i,
            {
                assert(is_item(self.nodes@, self.n_items as int, indices@[i as int]));
                match self.nodes.get(&indices[i]) {
                    Some(n) => {
                        children.push(n);
                    },
                    None => {
                        proof {
                            assert(false);
                        }
                    },
                }
                i += 1;
            }
            proof {
                kids = children@;
                assert(kids =~= item_nodes(entry, indices@));
            }
            random_split_index::<D>(self.f, &mut m, indices, &children, &mut self.rng)
        };
        let ghost split_v = m.v@;
        let ghost split_a = m.a as int;
        let left = parts.0;
        let right = parts.1;
        proof {
            let sides = choose|sides: Seq<bool>|
                sides.len() == indices@.len() && left@ == pick(indices@, sides, false) && right@
                    == #[trigger] pick(indices@, sides, true);
            lemma_pick_covers(indices@, sides);
            lemma_pick_distinct(indices@, sides, false);
            lemma_pick_distinct(indices@, sides, true);
            assert forall|j: int| 0 <= j < left@.len() implies is_item(
                self.nodes@,
                self.n_items as int,
                #[trigger] left@[j],
            ) by {
                let w = choose|w: int| 0 <= w < indices@.len() && indices@[w] == left@[j];
                assert(is_item(self.nodes@, self.n_items as int, indices@[w]));
            }
            assert forall|j: int| 0 <= j < right@.len() implies is_item(
                self.nodes@,
                self.n_items as int,
                #[trigger] right@[j],
            ) by {
                let w = choose|w: int| 0 <= w < indices@.len() && indices@[w] == right@[j];
                assert(is_item(self.nodes@, self.n_items as int, indices@[w]));
            }
        }
        let flip = left.len() > right.len();
        m.set_descendant(if is_root {
            self.n_items as usize
        } else {
            indices.len()
        });
        let ghost before = self.nodes@;
        let ghost floor = self.n_nodes as int;
        proof {
            lemma_present_bound(before, self.n_items as int);
        }
        let first = self.make_tree(&left, false);
        let ghost between = self.nodes@;
        let ghost ceiling = self.n_nodes as int;
        proof {
            assert forall|j: int| 0 <= j < right@.len() implies is_item(
                self.nodes@,
                self.n_items as int,
                #[trigger] right@[j],
            ) by {
                assert(is_item(before, self.n_items as int, right@[j]));
            }
        }
        let second = self.make_tree(&right, false);
        let mut children: Vec<i64> = Vec::new();
        if flip {
            children.push(second);
            children.push(first);
        } else {
            children.push(first);
            children.push(second);
        }
        m.set_children(children);
        let item = self.n_nodes;
        proof {
            let after = self.nodes@.insert(item, m);
            let roots_after = if is_root {
                self.roots@.push(item)
            } else {
                self.roots@
            };
            lemma_present_frame(self.nodes@, after, self.n_items as int);
            lemma_present_frame(before, self.nodes@, self.n_items as int);
            assert(self.nodes@.dom().contains(first));
            assert(self.nodes@[first] == between[first]);
            assert(roots_after.contains(item) <==> is_root) by {
                if is_root {
                    assert(roots_after[self.roots@.len() as int] == item);
                }
                if self.roots@.contains(item) {
                    let w = choose|w: int| 0 <= w < self.roots@.len() && self.roots@[w] == item;
                    assert(self.nodes@.dom().contains(self.roots@[w]));
                }
            }
            assert(after[first] == self.nodes@[first]);
            assert(after[second] == self.nodes@[second]);
            lemma_present_bound(before, self.n_items as int);
            assert(!is_bucket(m));
            assert(m.children@ =~= seq![first, second] || m.children@ =~= seq![second, first]);
            assert(m.v@ == split_v && m.a == split_a);
            assert(item_nodes(after, indices@) =~= kids) by {
                assert forall|j: int| 0 <= j < indices@.len() implies after[indices@[j]]
                    == entry[indices@[j]] by {
                    assert(is_item(entry, self.n_items as int, indices@[j]));
                    assert(between.dom().contains(indices@[j]));
                }
            }
            lemma_split_keeps_unshared::<D>(
                between,
                self.nodes@,
                self.n_items as int,
                self.f as nat,
                self.roots@,
                floor,
                ceiling,
                self.n_nodes as int,
                first,
                second,
                m,
            );
            lemma_leaves_frame::<D>(
                between,
                self.nodes@,
                self.n_items as int,
                ceiling,
                self.f as nat,
                self.roots@,
                first,
            );
            lemma_leaves_frame::<D>(
                self.nodes@,
                after,
                self.n_items as int,
                self.n_nodes as int,
                self.f as nat,
                self.roots@,
                first,
            );
            lemma_leaves_frame::<D>(
                self.nodes@,
                after,
                self.n_items as int,
                self.n_nodes as int,
                self.f as nat,
                self.roots@,
                second,
            );
            lemma_sided::<D>(
                after,
                self.n_items as int,
                item,
                indices@,
                left@,
                right@,
                first,
                second,
            );
            assert(leaves(after, self.n_items as int, item) =~= indices@.to_set()) by {
                let sides = choose|sides: Seq<bool>|
                    sides.len() == indices@.len() && left@ == pick(indices@, sides, false)
                        && right@ == #[trigger] pick(indices@, sides, true);
                lemma_pick_covers(indices@, sides);
                assert(leaves(after, self.n_items as int, item) == left@.to_set().union(
                    right@.to_set(),
                ));
                assert forall|x: i64| indices@.to_set().contains(x) implies left@.to_set().union(
                    right@.to_set(),
                ).contains(x) by {
                    let w = choose|w: int| 0 <= w < indices@.len() && indices@[w] == x;
                    lemma_pick_complete(indices@, sides, w);
                }
                assert forall|x: i64|
                    left@.to_set().union(right@.to_set()).contains(
                        x,
                    ) implies indices@.to_set().contains(x) by {
                    if left@.to_set().contains(x) {
                        let w = choose|w: int| 0 <= w < left@.len() && left@[w] == x;
                        assert(indices@.contains(left@[w]));
                    } else {
                        let w = choose|w: int| 0 <= w < right@.len() && right@[w] == x;
                        assert(indices@.contains(right@[w]));
                    }
                }
            }
            assert(inner_ok::<D>(after, self.n_items as int, self.f as nat, roots_after, item));
            lemma_insert_keeps_forest::<D>(
                self.nodes@,
                self.n_items as int,
                item,
                m,
                self.f as nat,
                self.roots@,
                roots_after,
            );
        }
        self.n_nodes = self.n_nodes + 1;
        self.nodes.insert(item, m);
        item
    }

    /// The number of candidates that a search for `k` neighbours gathers before
    /// it stops: `search_k`, or with `search_k == -1` as many as `k` for each tree.
    pub open spec fn budget(&self, k: usize, search_k: i64) -> int {
        if search_k == -1 {
            k * self.root_ids().len()
        } else {
            search_k as int
        }
    }

    /// The candidates that a search for `k` neighbours of `q` gathers, in the
    /// order in which it finds them. An item that several trees lead to occurs
    /// several times.
    pub open spec fn candidates(&self, q: Seq<i32>, k: usize, search_k: i64) -> Seq<i64> {
        search::<D>(
            self.arena(),
            self.item_bound(),
            q,
            seed(self.root_ids()),
            Seq::empty(),
            self.budget(k, search_k),
            (self.root_ids().len() * (2 * self.item_bound() - 1)) as nat,
        )
    }

    /// The entry that item `c` is ranked by in a search for `q`: its raw distance
    /// to `q`, followed by `c`.
    spec fn key_of(&self, q: Seq<i32>, c: i64) -> (i128, i64) {
        (D::distance_of(q, self.arena()[c].v@) as i128, c)
    }

    /// Whether `ids` and `dists` are the answer to a search for `k` neighbours of
    /// `q`: the candidates, each once, in the order of their distance to `q` and
    /// then of their id, cut off after the first `k`. A candidate that is left
    /// out comes after every one that is named.
    pub open spec fn answers(
        &self,
        q: Seq<i32>,
        k: usize,
        search_k: i64,
        ids: Seq<i64>,
        dists: Seq<i128>,
    ) -> bool {
        let cands = self.candidates(q, k, search_k);
        &&& ids.len() == dists.len()
        &&& ids.len() <= k
        &&& forall|i: int|
            0 <= i < ids.len() ==> cands.contains(#[trigger] ids[i]) && self.has_item(ids[i])
                && dists[i] == D::distance_of(q, self.arena()[ids[i]].v@)
        &&& forall|i: int, j: int|
            0 <= i < j < ids.len() ==> before(
                (#[trigger] dists[i], ids[i]),
                (#[trigger] dists[j], ids[j]),
            )
        &&& forall|w: int|
            0 <= w < cands.len() ==> ids.contains(#[trigger] cands[w]) || (ids.len() == k
                && forall|i: int|
                0 <= i < ids.len() ==> precedes(
                    #[trigger] dists[i] as int,
                    ids[i],
                    D::distance_of(q, self.arena()[cands[w]].v@),
                    cands[w],
                ))
    }

    /// Why a search for the neighbours of `q` is refused, if it is.
    pub open spec fn search_refusal(&self, q: Seq<i32>, search_k: i64) -> Option<AnnoyError> {
        if self.item_bound() == 0 {
            Some(AnnoyError::EmptyIndex)
        } else if !self.is_built() {
            Some(AnnoyError::NotBuilt)
        } else if q.len() != self.dimension() {
            Some(AnnoyError::ShapeMismatch)
        } else if !admits::<D>(q) {
            Some(AnnoyError::OutOfRange)
        } else if search_k < -1 {
            Some(AnnoyError::InvalidSearchBudget)
        } else {
            None
        }
    }

    /// The `n` nearest of the candidates that a best-first search over all trees
    /// gathers for `v`, nearest first, with their raw distances to `v`. Items at
    /// the same distance come in the order of their ids.
    pub fn get_nns_by_vector(&self, v: &[i32], n: usize, search_k: i64) -> (r: Result<
        (Vec<i64>, Vec<i128>),
        AnnoyError,
    >)
        requires
            self.wf(),
        ensures
            match self.search_refusal(v@, search_k) {
                Some(e) => r == Err::<(Vec<i64>, Vec<i128>), AnnoyError>(e),
                None => r matches Ok(found) && self.answers(v@, n, search_k, found.0@, found.1@),
            },
    {
        if self.n_items == 0 {
            return Err(AnnoyError::EmptyIndex);
        }
        if !self.built {
            return Err(AnnoyError::NotBuilt);
        }
        if v.len() != self.f {
            return Err(AnnoyError::ShapeMismatch);
        }
        if !accepts::<D>(v) {
            return Err(AnnoyError::OutOfRange);
        }
        if search_k < -1 {
            return Err(AnnoyError::InvalidSearchBudget);
        }
        let nns = self.gather(v, n, search_k);
        Ok(self.rank(v, n, &nns, Ghost(search_k)))
    }

    /// The neighbours of the vector that is registered under `item`.
    pub fn get_nns_by_item(&self, item: i64, n: usize, search_k: i64) -> (r: Result<
        (Vec<i64>, Vec<i128>),
        AnnoyError,
    >)
        requires
            self.wf(),
        ensures
            !self.has_item(item) ==> r == Err::<(Vec<i64>, Vec<i128>), AnnoyError>(
                AnnoyError::UnknownItem,
            ),
            self.has_item(item) ==> match self.search_refusal(self.arena()[item].v@, search_k) {
                Some(e) => r == Err::<(Vec<i64>, Vec<i128>), AnnoyError>(e),
                None => r matches Ok(found) && self.answers(
                    self.arena()[item].v@,
                    n,
                    search_k,
                    found.0@,
                    found.1@,
                ),
            },
    {
        if item < 0 || item >= self.n_items {
            return Err(AnnoyError::UnknownItem);
        }
        match self.nodes.get(&item) {
            None => Err(AnnoyError::UnknownItem),
            Some(m) => self.get_nns_by_vector(m.vector(), n, search_k),
        }
    }

    /// The raw distance between the vectors registered under `i` and `j`.
    pub fn get_distance(&self, i: i64, j: i64) -> (r: Result<i128, AnnoyError>)
        requires
            self.wf(),
        ensures
            !(self.has_item(i) && self.has_item(j)) ==> r == Err::<i128, AnnoyError>(
                AnnoyError::UnknownItem,
            ),
            self.has_item(i) && self.has_item(j) ==> (r matches Ok(d) && d == D::distance_of(
                self.arena()[i].v@,
                self.arena()[j].v@,
            ) && d >= 0 && (d == 0 <==> D::alike(self.arena()[i].v@, self.arena()[j].v@))),
    {
        if i < 0 || i >= self.n_items || j < 0 || j >= self.n_items {
            return Err(AnnoyError::UnknownItem);
        }
        match self.nodes.get(&i) {
            None => Err(AnnoyError::UnknownItem),
            Some(x) => match self.nodes.get(&j) {
                None => Err(AnnoyError::UnknownItem),
                Some(y) => {
                    assert(item_ok::<D>(self.nodes@[i], self.f as nat));
                    assert(item_ok::<D>(self.nodes@[j], self.f as nat));
                    assert(x.v@.take(self.f as int) =~= x.v@);
                    assert(y.v@.take(self.f as int) =~= y.v@);
                    proof {
                        D::lemma_distance_zero(x.v@, y.v@);
                    }
                    Ok(D::distance(x.vector(), y.vector(), self.f))
                },
            },
        }
    }

    /// Runs the best-first search and returns the candidates it gathers.
    fn gather(&self, v: &[i32], n: usize, search_k: i64) -> (nns: Vec<i64>)
        requires
            self.wf(),
            self.built,
            self.n_items >= 1,
            v@.len() == self.f,
            search_k >= -1,
        ensures
            nns@ == self.candidates(v@, n, search_k),
            forall|j: int|
                0 <= j < nns@.len() ==> is_item(self.nodes@, self.n_items as int, #[trigger] nns@[j]),
    {
        let budget: u128 = if search_k == -1 {
            assert((n as u128) * (self.roots.len() as u128) <= 0xffff_ffff_ffff_ffff
                * 0xffff_ffff_ffff_ffff) by (nonlinear_arith)
                requires
                    0 <= n as u128 <= 0xffff_ffff_ffff_ffff,
                    0 <= self.roots.len() as u128 <= 0xffff_ffff_ffff_ffff,
            ;
            (n as u128) * (self.roots.len() as u128)
        } else {
            search_k as u128
        };
        let mut frontier: Vec<(i128, i64)> = Vec::new();
        let mut i: usize = 0;
        while i < self.roots.len()
            invariant
                i <= self.roots@.len(),
                frontier@ == seed(self.roots@.take(i as int)),
            decreases self.roots@.len() - i,
        {
            frontier.push((0, self.roots[i]));
            assert(frontier@ =~= seed(self.roots@.take(i + 1)));
            i += 1;
        }
        assert(self.roots@.take(i as int) =~= self.roots@);
        let ghost nodes = self.nodes@;
        let ghost n_items = self.n_items as int;
        let ghost room = self.budget(n, search_k);
        let ghost fuel0 = (self.roots@.len() * (2 * n_items - 1)) as nat;
        let ghost mut fuel: nat = fuel0;
        let mut nns: Vec<i64> = Vec::new();
        proof {
            assert forall|i: int| 0 <= i < self.roots@.len() implies nodes[
            #[trigger] self.roots@[i]].n_descendants == n_items by {
                let r = self.roots@[i];
                assert(nodes.dom().contains(r));
                assert(inner_ok::<D>(nodes, n_items, self.f as nat, self.roots@, r));
                assert(self.roots@.contains(r));
            }
            lemma_weight_seed(nodes, self.roots@, n_items);
            assert(self.roots@.len() * (2 * n_items - 1) >= 0) by (nonlinear_arith)
                requires
                    self.roots@.len() >= 0,
                    n_items >= 1,
            ;
            assert(nns@ =~= Seq::<i64>::empty());
        }
        while (nns.len() as u128) < budget && frontier.len() > 0
            invariant
                self.wf(),
                self.built,
                v@.len() == self.f,
                nodes == self.nodes@,
                n_items == self.n_items,
                n_items >= 1,
                room == budget,
                search::<D>(nodes, n_items, v@, frontier@, nns@, room, fuel) == search::<D>(
                    nodes,
                    n_items,
                    v@,
                    seed(self.roots@),
                    Seq::empty(),
                    room,
                    fuel0,
                ),
                weight(nodes, frontier@) <= fuel,
                forall|j: int|
                    0 <= j < frontier@.len() ==> nodes.dom().contains((#[trigger] frontier@[j]).1)
                        && nodes[frontier@[j].1].n_descendants >= 1,
                forall|j: int| 0 <= j < nns@.len() ==> is_item(nodes, n_items, #[trigger] nns@[j]),
            decreases fuel,
        {
            let t = find_top(&frontier);
            let ghost fr = frontier@;
            let ghost had = nns@;
            proof {
                lemma_weight_floor(nodes, fr);
                lemma_weight_remove(nodes, fr, t as int);
            }
            let entry = frontier.remove(t);
            let p = entry.0;
            let id = entry.1;
            assert(nodes.dom().contains(fr[t as int].1));
            assert forall|j: int| 0 <= j < frontier@.len() implies nodes.dom().contains(
                (#[trigger] frontier@[j]).1,
            ) && nodes[frontier@[j].1].n_descendants >= 1 by {
                if j < t {
                    assert(frontier@[j] == fr[j]);
                } else {
                    assert(frontier@[j] == fr[j + 1]);
                }
            }
            match self.nodes.get(&id) {
                None => {
                    proof {
                        assert(false);
                    }
                },
                Some(nd) => {
                    if nd.descendant() == 1 && id < self.n_items {
                        nns.push(id);
                    } else if nd.descendant() <= K || nd.children.len() != 2 {
                        assert(id >= n_items) by {
                            if id < n_items {
                                assert(item_ok::<D>(nodes[id], self.f as nat));
                            }
                        }
                        assert(inner_ok::<D>(nodes, n_items, self.f as nat, self.roots@, id));
                        let mut j: usize = 0;
                        while j < nd.children.len()
                            invariant
                                j <= nd.children@.len(),
                                nns@ == had + nd.children@.take(j as int),
                                forall|w: int|
                                    0 <= w < nd.children@.len() ==> is_item(
                                        nodes,
                                        n_items,
                                        #[trigger] nd.children@[w],
                                    ),
                                forall|w: int|
                                    0 <= w < had.len() ==> is_item(nodes, n_items, #[trigger] had[w]),
                            decreases nd.children@.len() - j,
                        {
                            nns.push(nd.children[j]);
                            assert(nns@ =~= had + nd.children@.take(j + 1));
                            j += 1;
                        }
                        assert(nd.children@.take(j as int) =~= nd.children@);
                    } else {
                        assert(id >= n_items) by {
                            if id < n_items {
                                assert(item_ok::<D>(nodes[id], self.f as nat));
                            }
                        }
                        assert(inner_ok::<D>(nodes, n_items, self.f as nat, self.roots@, id));
                        let m = D::margin(nd, v);
                        let toward = if m < p {
                            m
                        } else {
                            p
                        };
                        let away = if -m < p {
                            -m
                        } else {
                            p
                        };
                        proof {
                            lemma_present_bound(nodes, n_items);
                            lemma_weight_push(nodes, frontier@, (toward, nd.children@[1]));
                            lemma_weight_push(
                                nodes,
                                frontier@.push((toward, nd.children@[1])),
                                (away, nd.children@[0]),
                            );
                        }
                        frontier.push((toward, nd.children[1]));
                        frontier.push((away, nd.children[0]));
                    }
                },
            }
            proof {
                fuel = (fuel - 1) as nat;
            }
        }
        nns
    }

    /// Ranks the candidates `nns` by their distance to `v` and returns the first
    /// `n` of them, each once.
    fn rank(&self, v: &[i32], n: usize, nns: &Vec<i64>, Ghost(search_k): Ghost<i64>) -> (found: (
        Vec<i64>,
        Vec<i128>,
    ))
        requires
            self.wf(),
            v@.len() == self.f,
            admits::<D>(v@),
            nns@ == self.candidates(v@, n, search_k),
            forall|j: int|
                0 <= j < nns@.len() ==> is_item(self.nodes@, self.n_items as int, #[trigger] nns@[j]),
        ensures
            self.answers(v@, n, search_k, found.0@, found.1@),
    {
        let mut list: Vec<(i128, i64)> = Vec::new();
        let mut j: usize = 0;
        while j < nns.len()
            invariant
                self.wf(),
                v@.len() == self.f,
                admits::<D>(v@),
                j <= nns@.len(),
                ranked(list@),
                forall|w: int|
                    0 <= w < nns@.len() ==> is_item(
                        self.nodes@,
                        self.n_items as int,
                        #[trigger] nns@[w],
                    ),
                forall|w: int| 0 <= w < j ==> list@.contains(self.key_of(v@, #[trigger] nns@[w])),
                forall|w: int|
                    0 <= w < list@.len() ==> nns@.contains((#[trigger] list@[w]).1) && list@[w]
                        == self.key_of(v@, list@[w].1) && list@[w].0 == D::distance_of(
                        v@,
                        self.nodes@[list@[w].1].v@,
                    ),
            decreases nns@.len() - j,
        {
            let c = nns[j];
            assert(is_item(self.nodes@, self.n_items as int, nns@[j as int]));
            match self.nodes.get(&c) {
                None => {
                    proof {
                        assert(false);
                    }
                },
                Some(nd) => {
                    assert(item_ok::<D>(self.nodes@[c], self.f as nat));
                    assert(v@.take(self.f as int) =~= v@);
                    assert(nd.v@.take(self.f as int) =~= nd.v@);
                    let d = D::distance(v, nd.vector(), self.f);
                    let ghost prior = list@;
                    insert_ranked(&mut list, (d, c));
                    assert forall|w: int| 0 <= w < list@.len() implies nns@.contains(
                        (#[trigger] list@[w]).1,
                    ) && list@[w] == self.key_of(v@, list@[w].1) && list@[w].0
                        == D::distance_of(v@, self.nodes@[list@[w].1].v@) by {
                        assert(list@.contains(list@[w]));
                        if prior.contains(list@[w]) {
                            let u = choose|u: int| 0 <= u < prior.len() && prior[u] == list@[w];
                            assert(nns@.contains(prior[u].1));
                        }
                    }
                    assert forall|w: int| 0 <= w < j + 1 implies list@.contains(
                        self.key_of(v@, #[trigger] nns@[w]),
                    ) by {
                        if w < j {
                            assert(prior.contains(self.key_of(v@, nns@[w])));
                        }
                    }
                },
            }
            j += 1;
        }
        let p: usize = if n < list.len() {
            n
        } else {
            list.len()
        };
        let mut ids: Vec<i64> = Vec::new();
        let mut dists: Vec<i128> = Vec::new();
        let mut i: usize = 0;
        while i < p
            invariant
                i <= p <= list@.len(),
                ids@.len() == i,
                dists@.len() == i,
                forall|w: int| 0 <= w < i ==> (dists@[w], ids@[w]) == #[trigger] list@[w],
            decreases p - i,
        {
            dists.push(list[i].0);
            ids.push(list[i].1);
            i += 1;
        }
        proof {
            let cands = self.candidates(v@, n, search_k);
            assert forall|a: int, b: int| 0 <= a < b < ids@.len() implies before(
                (#[trigger] dists@[a], ids@[a]),
                (#[trigger] dists@[b], ids@[b]),
            ) by {
                assert(before(list@[a], list@[b]));
            }
            assert forall|w: int| 0 <= w < cands.len() implies ids@.contains(#[trigger] cands[w])
                || (ids@.len() == n && forall|i: int|
                0 <= i < ids@.len() ==> precedes(
                    #[trigger] dists@[i] as int,
                    ids@[i],
                    D::distance_of(v@, self.arena()[cands[w]].v@),
                    cands[w],
                )) by {
                let key = self.key_of(v@, cands[w]);
                assert(list@.contains(self.key_of(v@, nns@[w])));
                let u = choose|u: int| 0 <= u < list@.len() && list@[u] == key;
                assert(list@[u].1 == cands[w]);
                assert(list@[u].0 == D::distance_of(v@, self.nodes@[list@[u].1].v@));
                if u < p {
                    assert(ids@[u] == cands[w]);
                } else {
                    assert forall|i: int| 0 <= i < ids@.len() implies precedes(
                        #[trigger] dists@[i] as int,
                        ids@[i],
                        D::distance_of(v@, self.arena()[cands[w]].v@),
                        cands[w],
                    ) by {
                        assert(before(list@[i], list@[u]));
                        assert((dists@[i], ids@[i]) == list@[i]);
                    }
                }
            }
            assert forall|i: int| 0 <= i < ids@.len() implies cands.contains(#[trigger] ids@[i])
                && self.has_item(ids@[i]) && dists@[i] == D::distance_of(
                v@,
                self.arena()[ids@[i]].v@,
            ) by {
                assert((dists@[i], ids@[i]) == list@[i]);
                let u = choose|u: int| 0 <= u < nns@.len() && nns@[u] == list@[i].1;
                assert(is_item(self.nodes@, self.n_items as int, nns@[u]));
            }
        }
        (ids, dists)
    }

    /// Whether the two indexes hold the same items: the same bound, and under
    /// each id below it either both hold nothing or both hold the same vector.
    pub open spec fn same_items(&self, other: &Self) -> bool {
        &&& self.item_bound() == other.item_bound()
        &&& forall|id: i64|
            0 <= id < self.item_bound() ==> (#[trigger] self.arena().dom().contains(id)
                <==> other.arena().dom().contains(id))
        &&& forall|id: i64|
            0 <= id < self.item_bound() && #[trigger] self.arena().dom().contains(id)
                ==> self.arena()[id].v@ == other.arena()[id].v@
    }

    /// Whether the two indexes hold the same items.
    fn holds_same_items(&self, other: &Self) -> (r: bool)
        requires
            self.wf(),
            other.wf(),
        ensures
            r == self.same_items(other),
    {
        if self.n_items != other.n_items {
            return false;
        }
        let mut id: i64 = 0;
        while id < self.n_items
            invariant
                0 <= id <= self.n_items,
                self.n_items == other.n_items,
                forall|i: i64|
                    0 <= i < id ==> (#[trigger] self.nodes@.dom().contains(i)
                        <==> other.nodes@.dom().contains(i)),
                forall|i: i64|
                    0 <= i < id && #[trigger] self.nodes@.dom().contains(i) ==> self.nodes@[i].v@
                        == other.nodes@[i].v@,
            decreases self.n_items - id,
        {
            match self.nodes.get(&id) {
                Some(mine) => match other.nodes.get(&id) {
                    Some(theirs) => {
                        if !same_vector(&mine.v, &theirs.v) {
                            assert(self.arena().dom().contains(id));
                            assert(self.arena()[id].v@ != other.arena()[id].v@);
                            return false;
                        }
                    },
                    None => {
                        assert(self.arena().dom().contains(id));
                        assert(!other.arena().dom().contains(id));
                        return false;
                    },
                },
                None => {
                    if other.nodes.contains_key(&id) {
                        assert(!self.arena().dom().contains(id));
                        assert(other.arena().dom().contains(id));
                        return false;
                    }
                },
            }
            id += 1;
        }
        true
    }

    /// Why `absorb(other)` is refused, if it is.
    pub open spec fn absorb_refusal(&self, other: &Self) -> Option<AnnoyError> {
        if !self.is_built() || !other.is_built() {
            Some(AnnoyError::NotBuilt)
        } else if self.dimension() != other.dimension() || !self.same_items(other) {
            Some(AnnoyError::Mismatch)
        } else if self.node_bound() + other.node_bound() - other.item_bound() > i64::MAX {
            Some(AnnoyError::CapacityExceeded)
        } else {
            None
        }
    }

    /// Whether this index is `start` with the trees of `other` taken in: the
    /// nodes of `start` are as they were, the nodes that `other` holds above
    /// the items follow them in their order, moved up by as many ids as
    /// `start` held above the items, and the roots of `other` follow the roots
    /// of `start` in the order of their ids.
    pub open spec fn absorbed(&self, start: Self, other: &Self) -> bool {
        let shift = start.node_bound() - start.item_bound();
        let n = other.item_bound();
        &&& self.is_built()
        &&& self.dimension() == start.dimension()
        &&& self.item_bound() == start.item_bound()
        &&& self.node_bound() == start.node_bound() + other.node_bound() - n
        &&& forall|id: i64| #[trigger]
            start.arena().dom().contains(id) ==> self.arena().dom().contains(id)
                && self.arena()[id] == start.arena()[id]
        &&& forall|id: i64|
            n <= id < other.node_bound() ==> self.arena().dom().contains((id + shift) as i64)
                && moved_node(
                #[trigger] self.arena()[(id + shift) as i64],
                other.arena()[id],
                n,
                shift,
            )
        &&& self.root_ids() == start.root_ids() + moved_roots(
            other.arena(),
            n,
            other.node_bound(),
            shift,
        )
    }

    /// Takes the trees of `other`, an index over the same items, into this
    /// index: each node above the items gets the next free id here, and a
    /// split's children are moved with it. Both forests must be built.
    pub fn absorb(&mut self, other: &Self) -> (r: Result<(), AnnoyError>)
        requires
            old(self).wf(),
            other.wf(),
        ensures
            final(self).wf(),
            match old(self).absorb_refusal(other) {
                Some(e) => r == Err::<(), AnnoyError>(e) && *final(self) == *old(self),
                None => r == Ok::<(), AnnoyError>(()) && final(self).absorbed(*old(self), other),
            },
    {
        if !self.built || !other.built {
            return Err(AnnoyError::NotBuilt);
        }
        if self.f != other.f || !self.holds_same_items(other) {
            return Err(AnnoyError::Mismatch);
        }
        if (self.n_nodes as i128) + (other.n_nodes as i128) - (other.n_items as i128)
            > i64::MAX as i128 {
            return Err(AnnoyError::CapacityExceeded);
        }
        let n = self.n_items;
        let shift: i64 = self.n_nodes - n;
        let ghost start = self.nodes@;
        let ghost start_roots = self.roots@;
        let ghost start_nodes = self.n_nodes as int;
        let mut id: i64 = n;
        proof {
            assert(self.roots@ =~= start_roots + moved_roots(
                other.nodes@,
                n as int,
                id as int,
                shift as int,
            ));
        }
        while id < other.n_nodes
            invariant
                other.wf(),
                other.built,
                self.built,
                self.f == old(self).f,
                self.f == other.f,
                self.n_items == n,
                other.n_items == n,
                1 <= n <= id <= other.n_nodes,
                shift == start_nodes - n,
                0 <= shift,
                self.n_nodes == start_nodes + (id - n),
                start_nodes + other.n_nodes - n <= i64::MAX,
                0 < self.f <= i32::MAX,
                n <= Self::id_limit(),
                self.nodes@.dom().contains((n - 1) as i64),
                forest_ok::<D>(
                    self.nodes@,
                    n as int,
                    self.n_nodes as int,
                    self.f as nat,
                    self.roots@,
                ),
                forall|i: i64|
                    0 <= i < n ==> (#[trigger] self.nodes@.dom().contains(i)
                        <==> other.nodes@.dom().contains(i)),
                forall|i: i64| #[trigger]
                    start.dom().contains(i) ==> self.nodes@.dom().contains(i) && self.nodes@[i]
                        == start[i],
                forall|c: i64|
                    n <= c < id ==> self.nodes@.dom().contains((c + shift) as i64) && moved_node(
                        #[trigger] self.nodes@[(c + shift) as i64],
                        other.nodes@[c],
                        n as int,
                        shift as int,
                    ),
                self.roots@ == start_roots + moved_roots(
                    other.nodes@,
                    n as int,
                    id as int,
                    shift as int,
                ),
            decreases other.n_nodes - id,
        {
            let ghost mine = self.nodes@;
            let ghost roots = self.roots@;
            let at: i64 = id + shift;
            proof {
                assert(other.nodes@.dom().contains(id));
                lemma_root_counts::<D>(
                    other.nodes@,
                    n as int,
                    other.n_nodes as int,
                    other.f as nat,
                    other.roots@,
                    id,
                );
                assert(inner_ok::<D>(other.nodes@, n as int, other.f as nat, other.roots@, id));
            }
            match other.nodes.get(&id) {
                None => {
                    proof {
                        assert(false);
                    }
                },
                Some(theirs) => {
                    let mut m = theirs.duplicate();
                    let top = theirs.n_descendants as u128 == n as u128;
                    if !(theirs.n_descendants <= K || theirs.children.len() != 2) {
                        let c0 = theirs.children[0];
                        let c1 = theirs.children[1];
                        let mut children: Vec<i64> = Vec::new();
                        children.push(
                            if c0 >= n {
                                c0 + shift
                            } else {
                                c0
                            },
                        );
                        children.push(
                            if c1 >= n {
                                c1 + shift
                            } else {
                                c1
                            },
                        );
                        m.set_children(children);
                    }
                    proof {
                        assert(moved_node(m, other.nodes@[id], n as int, shift as int));
                        assert forall|i: i64|
                            0 <= i < n && #[trigger] mine.dom().contains(
                                i,
                            ) implies mine[i].n_descendants == 1 by {
                            assert(item_ok::<D>(mine[i], self.f as nat));
                        }
                        lemma_moved_node_ok::<D>(
                            other.nodes@,
                            other.n_nodes as int,
                            other.roots@,
                            mine,
                            n as int,
                            self.f as nat,
                            id,
                            shift as int,
                            m,
                        );
                        let roots_after = if top {
                            roots.push(at)
                        } else {
                            roots
                        };
                        assert(roots_after.contains(at) <==> top) by {
                            if top {
                                assert(roots_after[roots.len() as int] == at);
                            }
                            if roots.contains(at) {
                                let w = choose|w: int| 0 <= w < roots.len() && roots[w] == at;
                                assert(mine.dom().contains(roots[w]));
                            }
                        }
                        lemma_insert_keeps_forest::<D>(
                            mine,
                            n as int,
                            at,
                            m,
                            self.f as nat,
                            roots,
                            roots_after,
                        );
                    }
                    self.nodes.insert(at, m);
                    self.n_nodes = self.n_nodes + 1;
                    if top {
                        self.roots.push(at);
                    }
                    proof {
                        assert(self.roots@ =~= start_roots + moved_roots(
                            other.nodes@,
                            n as int,
                            id + 1,
                            shift as int,
                        ));
                        assert forall|c: i64| n <= c < id + 1 implies self.nodes@.dom().contains(
                            (c + shift) as i64,
                        ) && moved_node(
                            #[trigger] self.nodes@[(c + shift) as i64],
                            other.nodes@[c],
                            n as int,
                            shift as int,
                        ) by {
                            if c < id {
                                assert(moved_node(
                                    mine[(c + shift) as i64],
                                    other.nodes@[c],
                                    n as int,
                                    shift as int,
                                ));
                            }
                        }
                    }
                },
            }
            id += 1;
        }
        proof {
            if other.roots@.len() >= 1 {
                let r = other.roots@[0];
                assert(other.roots@.contains(r));
                assert(other.nodes@.dom().contains(r));
                lemma_root_counts::<D>(
                    other.nodes@,
                    n as int,
                    other.n_nodes as int,
                    other.f as nat,
                    other.roots@,
                    r,
                );
                lemma_moved_roots_has(
                    other.nodes@,
                    n as int,
                    other.n_nodes as int,
                    shift as int,
                    r,
                );
            }
        }
        Ok(())
    }

    /// Whether `recs` is what `records` gives of this index: one record for each
    /// node of the arena, those of the roots first and in their order, the others
    /// after them in the order of their ids.
    pub open spec fn recorded(&self, recs: Seq<(i64, Node)>) -> bool {
        let n = self.root_ids().len();
        &&& ids_distinct(recs)
        &&& forall|id: i64| names(recs, id) <==> self.arena().dom().contains(id)
        &&& forall|j: int|
            0 <= j < recs.len() ==> same_node((#[trigger] recs[j]).1, self.arena()[recs[j].0])
        &&& recs.len() >= n
        &&& forall|j: int| 0 <= j < n ==> (#[trigger] recs[j]).0 == self.root_ids()[j]
        &&& forall|j: int| n <= j < recs.len() ==> !self.root_ids().contains((#[trigger] recs[j]).0)
        &&& forall|i: int, j: int|
            n <= i < j < recs.len() ==> (#[trigger] recs[i]).0 < (#[trigger] recs[j]).0
    }

    /// Takes the arena down as a list of records.
    pub fn records(&self) -> (recs: Vec<(i64, Node)>)
        requires
            self.wf(),
        ensures
            self.recorded(recs@),
    {
        let mut recs: Vec<(i64, Node)> = Vec::new();
        let mut i: usize = 0;
        while i < self.roots.len()
            invariant
                self.wf(),
                i <= self.roots@.len(),
                recs@.len() == i,
                forall|j: int| 0 <= j < i ==> (#[trigger] recs@[j]).0 == self.roots@[j],
                forall|j: int|
                    0 <= j < i ==> same_node((#[trigger] recs@[j]).1, self.nodes@[recs@[j].0]),
            decreases self.roots@.len() - i,
        {
            let r = self.roots[i];
            assert(self.nodes@.dom().contains(self.roots@[i as int]));
            match self.nodes.get(&r) {
                Some(n) => {
                    recs.push((r, n.duplicate()));
                },
                None => {
                    proof {
                        assert(false);
                    }
                },
            }
            i += 1;
        }
        let ghost n = self.roots@.len() as int;
        let top: i64 = if self.built {
            self.n_nodes
        } else {
            self.n_items
        };
        let mut id: i64 = 0;
        while id < top
            invariant
                self.wf(),
                n == self.roots@.len(),
                top == self.ceiling(),
                0 <= id <= top,
                recs@.len() >= n,
                forall|j: int| 0 <= j < n ==> (#[trigger] recs@[j]).0 == self.roots@[j],
                forall|j: int|
                    n <= j < recs@.len() ==> (#[trigger] recs@[j]).0 < id
                        && !self.roots@.contains(recs@[j].0) && self.nodes@.dom().contains(
                        recs@[j].0,
                    ),
                forall|j: int|
                    0 <= j < recs@.len() ==> same_node(
                        (#[trigger] recs@[j]).1,
                        self.nodes@[recs@[j].0],
                    ),
                forall|a: int, b: int|
                    n <= a < b < recs@.len() ==> (#[trigger] recs@[a]).0 < (#[trigger] recs@[b]).0,
                forall|x: i64|
                    0 <= x < id && self.nodes@.dom().contains(x) && !self.roots@.contains(x)
                        ==> #[trigger] names(recs@, x),
            decreases top - id,
        {
            let ghost had = recs@;
            match self.nodes.get(&id) {
                Some(node) => {
                    let top = id >= self.n_items && node.n_descendants as u128
                        == self.n_items as u128;
                    proof {
                        if id >= self.n_items {
                            assert(inner_ok::<D>(
                                self.nodes@,
                                self.n_items as int,
                                self.f as nat,
                                self.roots@,
                                id,
                            ));
                        }
                        if self.roots@.contains(id) {
                            let w = choose|w: int|
                                0 <= w < self.roots@.len() && self.roots@[w] == id;
                            assert(self.roots@[w] >= self.n_items);
                        }
                        assert(top == self.roots@.contains(id));
                    }
                    if !top {
                        recs.push((id, node.duplicate()));
                        proof {
                            assert(recs@[had.len() as int].0 == id);
                            assert(names(recs@, id));
                        }
                    }
                },
                None => {},
            }
            proof {
                assert forall|x: i64|
                    0 <= x < id + 1 && self.nodes@.dom().contains(x) && !self.roots@.contains(
                        x,
                    ) implies #[trigger] names(recs@, x) by {
                    if x < id {
                        assert(names(had, x));
                        let w = choose|w: int| 0 <= w < had.len() && (#[trigger] had[w]).0 == x;
                        assert(recs@[w].0 == x);
                    }
                }
            }
            id += 1;
        }
        proof {
            assert forall|x: i64| names(recs@, x) <==> self.arena().dom().contains(x) by {
                if names(recs@, x) {
                    let w = choose|w: int| 0 <= w < recs@.len() && (#[trigger] recs@[w]).0 == x;
                    if w < n {
                        assert(self.nodes@.dom().contains(self.roots@[w]));
                    }
                }
                if self.nodes@.dom().contains(x) {
                    if self.roots@.contains(x) {
                        let w = choose|w: int| 0 <= w < self.roots@.len() && self.roots@[w] == x;
                        assert(recs@[w].0 == x);
                    }
                }
            }
            assert forall|a: int, b: int|
                0 <= a < recs@.len() && 0 <= b < recs@.len() && a != b implies (
            #[trigger] recs@[a]).0 != (#[trigger] recs@[b]).0 by {
                if a < n && b < n {
                    assert(self.roots@[a] != self.roots@[b]);
                } else if a < n {
                    assert(self.roots@.contains(self.roots@[a]));
                } else if b < n {
                    assert(self.roots@.contains(self.roots@[b]));
                } else if a < b {
                    assert(recs@[a].0 < recs@[b].0);
                } else {
                    assert(recs@[b].0 < recs@[a].0);
                }
            }
        }
        recs
    }

    /// Replaces the index by the forest that `records` describe. The leading
    /// records that count as much as the first, and whose ids are not below
    /// that count, are the roots, and that count is `n_items`. Records that do
    /// not describe a forest are refused, and the index stays as it was.
    pub fn load(&mut self, records: Vec<(i64, Node)>) -> (r: Result<(), AnnoyError>)
        requires
            old(self).wf(),
        ensures
            final(self).wf(),
            final(self).dimension() == old(self).dimension(),
            describes_forest::<D>(old(self).dimension(), records@) <==> r is Ok,
            r is Err ==> r == Err::<(), AnnoyError>(AnnoyError::Malformed) && *final(self) == *old(
                self,
            ),
            r is Ok ==> {
                &&& final(self).arena() == arena_of(records@)
                &&& final(self).root_ids() == roots_of(records@)
                &&& final(self).item_bound() == count_of(records@)
                &&& final(self).node_bound() == bound_of(records@)
                &&& final(self).is_built()
            },
    {
        let ghost orig = records@;
        if records.len() == 0 {
            return Err(AnnoyError::Malformed);
        }
        let (ids, bound) = match scan_ids(&records) {
            Some(found) => found,
            None => {
                return Err(AnnoyError::Malformed);
            },
        };
        let m_raw = records[0].1.n_descendants;
        let leafy = m_raw == 1 && records[0].1.children.len() == 2;
        if !leafy && (m_raw == 0 || m_raw as u128 > i64::MAX as u128) {
            return Err(AnnoyError::Malformed);
        }
        let m: i64 = if leafy {
            bound
        } else {
            m_raw as i64
        };
        proof {
            lemma_bound_of(orig, 0);
        }
        if m as u128 > usize::MAX as u128 {
            return Err(AnnoyError::Malformed);
        }
        let n_roots = count_roots(&records, m);
        if n_roots == 0 && bound != m {
            return Err(AnnoyError::Malformed);
        }
        let roots = first_of(&ids, n_roots);
        assert(roots@ =~= roots_of(orig));
        let nodes = match into_arena(records) {
            Some(nodes) => nodes,
            None => {
                return Err(AnnoyError::Malformed);
            },
        };
        proof {
            assert forall|a: int, b: int|
                0 <= a < ids@.len() && 0 <= b < ids@.len() && a != b implies ids@[a] != ids@[b] by {
                assert(orig[a].0 != orig[b].0);
            }
            assert forall|id: i64| nodes@.dom().contains(id) <==> ids@.contains(id) by {
                if nodes@.dom().contains(id) {
                    let u = place_of(orig, id);
                    assert(ids@[u] == id);
                }
                if ids@.contains(id) {
                    let u = choose|u: int| 0 <= u < ids@.len() && ids@[u] == id;
                    assert(orig[u].0 == id);
                }
            }
        }
        let last = m - 1;
        if !nodes.contains_key(&last) {
            return Err(AnnoyError::Malformed);
        }
        if !no_gaps(&nodes, m, bound) {
            return Err(AnnoyError::Malformed);
        }
        if !check_nodes::<D>(&nodes, &ids, n_roots, m, self.f) {
            return Err(AnnoyError::Malformed);
        }
        proof {
            assert forall|id: i64| #[trigger] nodes@.dom().contains(id) implies 0 <= id
                < bound by {
                let u = place_of(orig, id);
                lemma_bound_of(orig, u);
            }
            assert forall|i: int| 0 <= i < roots@.len() implies nodes@.dom().contains(
                #[trigger] roots@[i],
            ) && roots@[i] >= m by {
                assert(leads(orig, i));
                lemma_arena_of_holds(orig, i);
            }
            assert(roots@.no_duplicates());
        }
        self.nodes = nodes;
        self.roots = roots;
        self.n_items = m;
        self.n_nodes = bound;
        self.built = true;
        Ok(())
    }

    /// The node of an item counts 1. A bucket counts the items it lists and a
    /// split counts what its two children count together, unless it is a root of
    /// an index with unregistered ids below `n_items`: a root counts `n_items`.
    pub proof fn lemma_counts_add_up(&self, id: i64)
        requires
            self.wf(),
            self.arena().dom().contains(id),
        ensures
            id < self.item_bound() ==> self.arena()[id].n_descendants == 1,
            id >= self.item_bound() && (self.dense() || !self.root_ids().contains(id)) ==> {
                let n = self.arena()[id];
                if is_bucket(n) {
                    n.n_descendants == n.children@.len()
                } else {
                    n.n_descendants == self.arena()[n.children@[0]].n_descendants
                        + self.arena()[n.children@[1]].n_descendants
                }
            },
    {
        if id < self.item_bound() {
            assert(item_ok::<D>(self.arena()[id], self.dimension()));
        } else {
            assert(inner_ok::<D>(
                self.arena(),
                self.item_bound(),
                self.dimension(),
                self.root_ids(),
                id,
            ));
            if self.dense() {
                lemma_present_dense(self.arena(), self.item_bound());
            }
        }
    }

    /// Every root counts `n_items`.
    pub proof fn lemma_roots_count_all(&self, i: int)
        requires
            self.wf(),
            0 <= i < self.root_ids().len(),
        ensures
            self.arena().dom().contains(self.root_ids()[i]),
            self.arena()[self.root_ids()[i]].n_descendants == self.item_bound(),
    {
        let r = self.root_ids()[i];
        assert(self.root_ids().contains(r));
        assert(inner_ok::<D>(
            self.arena(),
            self.item_bound(),
            self.dimension(),
            self.root_ids(),
            r,
        ));
    }

    /// Every candidate of a search is a registered item.
    pub proof fn lemma_candidates_are_items(&self, q: Seq<i32>, k: usize, search_k: i64)
        requires
            self.wf(),
        ensures
            forall|w: int|
                0 <= w < self.candidates(q, k, search_k).len() ==> self.has_item(
                    #[trigger] self.candidates(q, k, search_k)[w],
                ),
    {
        lemma_search_finds_items::<D>(
            self.arena(),
            self.item_bound(),
            self.ceiling(),
            self.dimension(),
            self.root_ids(),
            q,
            seed(self.root_ids()),
            Seq::empty(),
            self.budget(k, search_k),
            (self.root_ids().len() * (2 * self.item_bound() - 1)) as nat,
        );
    }

    /// An answer names each item at most once, names registered items only, and
    /// its distances never decrease.
    pub proof fn lemma_answers_are_ranked(
        &self,
        q: Seq<i32>,
        k: usize,
        search_k: i64,
        ids: Seq<i64>,
        dists: Seq<i128>,
    )
        requires
            self.answers(q, k, search_k, ids, dists),
        ensures
            ids.no_duplicates(),
            forall|i: int| 0 <= i < ids.len() ==> 0 <= #[trigger] ids[i] < self.item_bound(),
            forall|i: int, j: int|
                0 <= i <= j < dists.len() ==> #[trigger] dists[i] <= #[trigger] dists[j],
    {
        assert forall|i: int, j: int| 0 <= i < ids.len() && 0 <= j < ids.len() && i != j implies
            ids[i] != ids[j] by {
            if i < j {
                assert(before((dists[i], ids[i]), (dists[j], ids[j])));
            } else {
                assert(before((dists[j], ids[j]), (dists[i], ids[i])));
            }
        }
        assert forall|i: int| 0 <= i < ids.len() implies 0 <= #[trigger] ids[i]
            < self.item_bound() by {
            assert(self.has_item(ids[i]));
        }
        assert forall|i: int, j: int| 0 <= i <= j < dists.len() implies #[trigger] dists[i]
            <= #[trigger] dists[j] by {
            if i < j {
                assert(before((dists[i], ids[i]), (dists[j], ids[j])));
            }
        }
    }

    /// The records of a built index describe a forest, with trees or without:
    /// `load` accepts them, finds the same roots and the same `n_items`, and
    /// the arena it builds holds the same values.
    pub proof fn lemma_records_describe(&self, recs: Seq<(i64, Node)>)
        requires
            self.wf(),
            self.is_built(),
            self.recorded(recs),
        ensures
            describes_forest::<D>(self.dimension(), recs),
            roots_of(recs) == self.root_ids(),
            count_of(recs) == self.item_bound(),
            same_arena(self.arena(), arena_of(recs)),
    {
        let n = self.root_ids().len() as int;
        let nodes = self.arena();
        let roots = self.root_ids();
        let m = self.item_bound();
        assert forall|j: int| 0 <= j < recs.len() implies arena_of(recs).dom().contains(
            (#[trigger] recs[j]).0,
        ) && arena_of(recs)[recs[j].0] == recs[j].1 by {
            lemma_arena_of_holds(recs, j);
        }
        assert forall|i: int| 0 <= i < n implies nodes[#[trigger] roots[i]].n_descendants
            == m by {
            self.lemma_roots_count_all(i);
        }
        assert(names(recs, (m - 1) as i64));
        let last = place_of(recs, (m - 1) as i64);
        lemma_bound_of(recs, last);
        assert forall|j: int| 0 <= j < recs.len() implies (#[trigger] recs[j]).0
            < self.node_bound() by {
            assert(names(recs, recs[j].0));
        }
        lemma_bound_below(recs, self.node_bound());
        assert(names(recs, recs[0].0));
        assert(same_node(recs[0].1, nodes[recs[0].0]));
        if n >= 1 {
            let r = roots[0];
            assert(recs[0].0 == r);
            assert(roots.contains(r));
            assert(inner_ok::<D>(nodes, m, self.dimension(), roots, r));
            lemma_present_bound(nodes, m);
            assert(!leaf_shaped(recs[0].1));
        } else {
            assert(item_ok::<D>(nodes[recs[0].0], self.dimension()));
            assert(leaf_shaped(recs[0].1));
        }
        assert(count_of(recs) == m);
        assert forall|j: int| 0 <= j < n implies leads(recs, j) by {
            assert(recs[j].0 == roots[j]);
            assert(same_node(recs[j].1, nodes[recs[j].0]));
        }
        if n < recs.len() {
            let id = recs[n].0;
            assert(names(recs, id));
            assert(same_node(recs[n].1, nodes[id]));
            assert(!roots.contains(id));
            if id >= m {
                assert(inner_ok::<D>(nodes, m, self.dimension(), roots, id));
            }
            assert(!leads(recs, n));
        }
        lemma_run_ends(recs, 0, n);
        assert(roots_of(recs) =~= roots);
        assert forall|id: i64| nodes.dom().contains(id) implies same_node(
            #[trigger] nodes[id],
            arena_of(recs)[id],
        ) by {
            assert(names(recs, id));
            let u = place_of(recs, id);
            assert(same_node(recs[u].1, nodes[recs[u].0]));
        }
        assert(same_arena(nodes, arena_of(recs)));
        assert forall|id: i64| #[trigger] arena_of(recs).dom().contains(id) implies id
            < bound_of(recs) by {
            let u = place_of(recs, id);
            lemma_bound_of(recs, u);
        }
        lemma_same_arena_forest::<D>(
            nodes,
            arena_of(recs),
            m,
            self.node_bound(),
            self.dimension(),
            roots,
            bound_of(recs),
        );
        assert forall|j: int| 0 <= j < recs.len() implies 0 <= (#[trigger] recs[j]).0
            < i64::MAX by {
            assert(names(recs, recs[j].0));
        }
    }

    /// An answer of this index is an answer of an index whose arena holds the
    /// same values, with the same roots and the same `n_items`.
    proof fn lemma_answers_carry_over(
        &self,
        other: &Self,
        q: Seq<i32>,
        k: usize,
        search_k: i64,
        ids: Seq<i64>,
        dists: Seq<i128>,
    )
        requires
            self.wf(),
            same_arena(self.arena(), other.arena()),
            self.root_ids() == other.root_ids(),
            self.item_bound() == other.item_bound(),
            self.answers(q, k, search_k, ids, dists),
        ensures
            self.candidates(q, k, search_k) == other.candidates(q, k, search_k),
            other.answers(q, k, search_k, ids, dists),
    {
        lemma_same_arena_search::<D>(
            self.arena(),
            other.arena(),
            self.item_bound(),
            q,
            seed(self.root_ids()),
            Seq::empty(),
            self.budget(k, search_k),
            (self.root_ids().len() * (2 * self.item_bound() - 1)) as nat,
        );
        self.lemma_candidates_are_items(q, k, search_k);
        let cands = self.candidates(q, k, search_k);
        assert forall|i: int| 0 <= i < ids.len() implies other.has_item(#[trigger] ids[i])
            && dists[i] == D::distance_of(q, other.arena()[ids[i]].v@) by {
            assert(self.has_item(ids[i]));
            assert(same_node(self.arena()[ids[i]], other.arena()[ids[i]]));
        }
        assert forall|w: int| 0 <= w < cands.len() implies ids.contains(#[trigger] cands[w]) || (
        ids.len() == k && forall|i: int|
            0 <= i < ids.len() ==> precedes(
                #[trigger] dists[i] as int,
                ids[i],
                D::distance_of(q, other.arena()[cands[w]].v@),
                cands[w],
            )) by {
            assert(self.has_item(cands[w]));
            assert(same_node(self.arena()[cands[w]], other.arena()[cands[w]]));
        }
    }

    /// Two indexes whose arenas hold the same values, with the same roots and
    /// the same `n_items`, answer every search alike.
    pub proof fn lemma_same_answers(
        &self,
        other: &Self,
        q: Seq<i32>,
        k: usize,
        search_k: i64,
        ids: Seq<i64>,
        dists: Seq<i128>,
    )
        requires
            self.wf(),
            other.wf(),
            same_arena(self.arena(), other.arena()),
            self.root_ids() == other.root_ids(),
            self.item_bound() == other.item_bound(),
        ensures
            self.candidates(q, k, search_k) == other.candidates(q, k, search_k),
            self.answers(q, k, search_k, ids, dists) == other.answers(q, k, search_k, ids, dists),
    {
        lemma_same_arena_search::<D>(
            self.arena(),
            other.arena(),
            self.item_bound(),
            q,
            seed(self.root_ids()),
            Seq::empty(),
            self.budget(k, search_k),
            (self.root_ids().len() * (2 * self.item_bound() - 1)) as nat,
        );
        if self.answers(q, k, search_k, ids, dists) {
            self.lemma_answers_carry_over(other, q, k, search_k, ids, dists);
        }
        if other.answers(q, k, search_k, ids, dists) {
            assert(same_arena(other.arena(), self.arena())) by {
                assert forall|id: i64| other.arena().dom().contains(id) implies same_node(
                    #[trigger] other.arena()[id],
                    self.arena()[id],
                ) by {
                    assert(same_node(self.arena()[id], other.arena()[id]));
                }
            }
            other.lemma_answers_carry_over(self, q, k, search_k, ids, dists);
        }
    }

    /// An index that was loaded from the records of a built index answers every
    /// search as that index does.
    pub proof fn lemma_load_restores(
        &self,
        recs: Seq<(i64, Node)>,
        loaded: &Self,
        q: Seq<i32>,
        k: usize,
        search_k: i64,
        ids: Seq<i64>,
        dists: Seq<i128>,
    )
        requires
            self.wf(),
            self.is_built(),
            self.recorded(recs),
            loaded.wf(),
            loaded.is_built(),
            loaded.dimension() == self.dimension(),
            loaded.arena() == arena_of(recs),
            loaded.root_ids() == roots_of(recs),
            loaded.item_bound() == count_of(recs),
        ensures
            describes_forest::<D>(self.dimension(), recs),
            self.search_refusal(q, search_k) == loaded.search_refusal(q, search_k),
            self.answers(q, k, search_k, ids, dists) == loaded.answers(q, k, search_k, ids, dists),
    {
        self.lemma_records_describe(recs);
        self.lemma_same_answers(loaded, q, k, search_k, ids, dists);
    }
}

} // verus!
