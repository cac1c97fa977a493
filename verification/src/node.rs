//! The arena's record type.

use vstd::prelude::*;
use vstd::slice::slice_to_vec;

verus! {

/// One vertex of the forest.
///
/// A node with `n_descendants == 1` stored under an item id is a leaf and `v` is
/// the item's vector. A bucket holds the ids of its items in `children`. A split
/// holds its two subtrees in `children`, and `v` and `a` describe the split.
pub struct Node {
    pub children: Vec<i64>,
    pub v: Vec<i32>,
    pub n_descendants: usize,
    pub a: i128,
}

/// Whether two nodes hold the same values.
pub open spec fn same_node(a: Node, b: Node) -> bool {
    &&& a.children@ == b.children@
    &&& a.v@ == b.v@
    &&& a.n_descendants == b.n_descendants
    &&& a.a == b.a
}

impl Node {
    /// A node that holds what this one holds.
    pub fn duplicate(&self) -> (n: Node)
        ensures
            same_node(n, *self),
    {
        Node {
            children: self.children.clone(),
            v: self.v.clone(),
            n_descendants: self.n_descendants,
            a: self.a,
        }
    }
}

/// Whether two vectors hold the same components.
pub fn same_vector(a: &Vec<i32>, b: &Vec<i32>) -> (r: bool)
    ensures
        r == (a@ == b@),
{
    if a.len() != b.len() {
        return false;
    }
    let mut z: usize = 0;
    while z < a.len()
        invariant
            z <= a@.len(),
            a@.len() == b@.len(),
            forall|j: int| 0 <= j < z ==> a@[j] == b@[j],
        decreases a@.len() - z,
    {
        if a[z] != b[z] {
            return false;
        }
        z += 1;
    }
    assert(a@ =~= b@);
    true
}

/// A vector of `f` zeros.
pub fn zeros(f: usize) -> (v: Vec<i32>)
    ensures
        v@.len() == f,
        forall|z: int| 0 <= z < f ==> v@[z] == 0,
{
    let mut v: Vec<i32> = Vec::new();
    let mut z: usize = 0;
    while z < f
        invariant
            z <= f,
            v@.len() == z,
            forall|j: int| 0 <= j < z ==> v@[j] == 0,
        decreases f - z,
    {
        v.push(0);
        z += 1;
    }
    v
}

/// What the index does with a node.
pub trait NodeImpl: Sized {
    fn new(f: usize) -> Self;

    fn reset(&mut self, w: &[i32]);

    fn copy(&mut self, other: Self);

    fn descendant(&self) -> usize;

    fn set_descendant(&mut self, other: usize);

    fn vector(&self) -> &[i32];

    fn set_vector(&self, _other: &[i32]) {
    }

    fn mut_vector(&mut self) -> &mut Vec<i32>;

    fn children(&self) -> Vec<i64>;

    fn set_children(&mut self, other: Vec<i64>);
}

impl NodeImpl for Node {
    /// An empty node of dimension `f`: no descendants, both child slots 0, a zero
    /// vector and a zero offset.
    fn new(f: usize) -> (n: Node)
        ensures
            n.children@ == seq![0i64, 0i64],
            n.v@.len() == f,
            forall|z: int| 0 <= z < f ==> n.v@[z] == 0,
            n.n_descendants == 0,
            n.a == 0,
    {
        let mut children: Vec<i64> = Vec::new();
        children.push(0);
        children.push(0);
        assert(children@ =~= seq![0i64, 0i64]);
        Node { children, v: zeros(f), n_descendants: 0, a: 0 }
    }

    /// Makes the node the leaf of an item with vector `w`.
    fn reset(&mut self, w: &[i32])
        ensures
            final(self).children@ == seq![0i64, 0i64],
            final(self).v@ == w@,
            final(self).n_descendants == 1,
            final(self).a == old(self).a,
    {
        let mut children: Vec<i64> = Vec::new();
        children.push(0);
        children.push(0);
        assert(children@ =~= seq![0i64, 0i64]);
        self.children = children;
        self.n_descendants = 1;
        self.v = slice_to_vec(w);
    }

    /// Takes over everything that `other` holds.
    fn copy(&mut self, other: Self)
        ensures
            *final(self) == other,
    {
        self.n_descendants = other.n_descendants;
        self.children = other.children;
        self.v = other.v;
        self.a = other.a;
    }

    fn descendant(&self) -> (r: usize)
        ensures
            r == self.n_descendants,
    {
        self.n_descendants
    }

    fn set_descendant(&mut self, other: usize)
        ensures
            final(self).n_descendants == other,
            final(self).children == old(self).children,
            final(self).v == old(self).v,
            final(self).a == old(self).a,
    {
        self.n_descendants = other;
    }

    fn vector(&self) -> (r: &[i32])
        ensures
            r@ == self.v@,
    {
        self.v.as_slice()
    }

    fn mut_vector(&mut self) -> (r: &mut Vec<i32>)
        ensures
            *r == old(self).v,
            final(self).v == *final(r),
            final(self).children == old(self).children,
            final(self).n_descendants == old(self).n_descendants,
            final(self).a == old(self).a,
    {
        &mut self.v
    }

    fn children(&self) -> (r: Vec<i64>)
        ensures
            r@ == self.children@,
    {
        self.children.clone()
    }

    fn set_children(&mut self, other: Vec<i64>)
        ensures
            final(self).children == other,
            final(self).n_descendants == old(self).n_descendants,
            final(self).v == old(self).v,
            final(self).a == old(self).a,
    {
        self.children = other;
    }
}

} // verus!
