//! Ordered rooted trees of the middle-levels Gray code.
//!
//! The first `2n` bits of a vertex trace a tree with `n + 1` nodes: a 1 goes
//! down to a new child, a 0 goes back up to the parent.
use vstd::prelude::*;
use crate::midlevel::vertex::{
    bitstrings_equal, bitstrings_less_than, is_middle, ones_upto, valid_vertex, MidVertex,
};

verus! {

/// The number of nodes of the tree of a vertex with `s.len()` bits.
pub open spec fn tree_size(s: Seq<i32>) -> int {
    (s.len() - 1) / 2 + 1
}

/// The children lists, parent pointers, current node and next fresh node
/// after the first `k` bits of `s` have been traced.
pub open spec fn trace(s: Seq<i32>, k: int) -> (Seq<Seq<usize>>, Seq<usize>, int, int)
    decreases k,
{
    if k <= 0 {
        (
            Seq::new(tree_size(s) as nat, |i: int| Seq::<usize>::empty()),
            Seq::new(tree_size(s) as nat, |i: int| 0usize),
            0,
            1,
        )
    } else {
        let prev = trace(s, k - 1);
        let c = prev.0;
        let p = prev.1;
        let u = prev.2;
        let n = prev.3;
        if s[k - 1] == 1 {
            (c.update(u, c[u].push(n as usize)), p.update(n, u as usize), n, n + 1)
        } else {
            (c, p, p[u] as int, n)
        }
    }
}

/// `s` with every occurrence of `x` removed.
pub open spec fn without(s: Seq<usize>, x: usize) -> Seq<usize>
    decreases s.len(),
{
    if s.len() == 0 {
        s
    } else if s.last() == x {
        without(s.drop_last(), x)
    } else {
        without(s.drop_last(), x).push(s.last())
    }
}

/// The bound below which the sizes of a tree stay.
pub open spec fn size_bound() -> int {
    0x4000_0000
}

/// Removing entries never lengthens a list.
pub proof fn lemma_without_len(s: Seq<usize>, x: usize)
    ensures
        without(s, x).len() <= s.len(),
        forall|k: int|
            0 <= k < without(s, x).len() ==> #[trigger] s.contains(without(s, x)[k]),
    decreases s.len(),
{
    if s.len() > 0 {
        lemma_without_len(s.drop_last(), x);
        assert forall|k: int| 0 <= k < without(s, x).len() implies #[trigger] s.contains(
            without(s, x)[k],
        ) by {
            if k < without(s.drop_last(), x).len() {
                let w = without(s.drop_last(), x)[k];
                assert(s.drop_last().contains(w));
                let j = choose|j: int| 0 <= j < s.drop_last().len() && s.drop_last()[j] == w;
                assert(s[j] == w);
            } else {
                assert(s[s.len() - 1] == s.last());
            }
        }
    }
}

/// The smaller of two integers.
pub open spec fn min_int(a: int, b: int) -> int {
    if a < b {
        a
    } else {
        b
    }
}

/// `x` with the bits of `w` written from position `p` on, as far as `x`
/// reaches.
pub open spec fn overwrite(x: Seq<i32>, p: int, w: Seq<i32>) -> Seq<i32> {
    Seq::new(x.len(), |k: int| if p <= k < p + w.len() { w[k - p] } else { x[k] })
}

/// The walk below node `u` through its first `k` children, at most `depth`
/// levels deep: for each child a 1, the walk below it, and a 0.
pub open spec fn walk_upto(t: &MidTree, u: int, depth: nat, k: int) -> Seq<i32>
    decreases depth, k,
{
    if k <= 0 {
        Seq::empty()
    } else {
        let c = t.kids(u)[k - 1] as int;
        let sub = if depth > 0 {
            walk_upto(t, c, (depth - 1) as nat, t.kids(c).len() as int)
        } else {
            Seq::empty()
        };
        walk_upto(t, u, depth, k - 1) + seq![1i32] + sub + seq![0i32]
    }
}

/// A walk holds only zeros and ones.
proof fn lemma_walk_bits(t: &MidTree, u: int, depth: nat, k: int)
    ensures
        forall|i: int|
            0 <= i < walk_upto(t, u, depth, k).len() ==> (#[trigger] walk_upto(t, u, depth, k)[i] == 0
                || walk_upto(t, u, depth, k)[i] == 1),
    decreases depth, k,
{
    if k > 0 {
        let c = t.kids(u)[k - 1] as int;
        lemma_walk_bits(t, u, depth, k - 1);
        if depth > 0 {
            lemma_walk_bits(t, c, (depth - 1) as nat, t.kids(c).len() as int);
        }
        let sub = if depth > 0 {
            walk_upto(t, c, (depth - 1) as nat, t.kids(c).len() as int)
        } else {
            Seq::empty()
        };
        let prev = walk_upto(t, u, depth, k - 1);
        let w = walk_upto(t, u, depth, k);
        assert(w == prev + seq![1i32] + sub + seq![0i32]);
        assert forall|i: int| 0 <= i < w.len() implies (#[trigger] w[i] == 0 || w[i] == 1) by {
            if i < prev.len() {
                assert(w[i] == prev[i]);
            } else if i == prev.len() {
            } else if i < prev.len() + 1 + sub.len() {
                assert(w[i] == sub[i - prev.len() - 1]);
            }
        }
    }
}

/// Writing nothing changes nothing.
proof fn lemma_overwrite_empty(x: Seq<i32>, p: int)
    ensures
        overwrite(x, p, Seq::empty()) == x,
{
    assert(overwrite(x, p, Seq::empty()) =~= x);
}

/// Writing `a` and then `b` right after it is writing `a + b`.
proof fn lemma_overwrite_concat(x: Seq<i32>, p: int, a: Seq<i32>, b: Seq<i32>)
    requires
        0 <= p,
        p + a.len() <= x.len(),
    ensures
        overwrite(overwrite(x, p, a), p + a.len(), b) == overwrite(x, p, a + b),
{
    assert(overwrite(overwrite(x, p, a), p + a.len(), b) =~= overwrite(x, p, a + b));
}

/// Once the written bits reach the end of `x`, writing a longer sequence
/// that starts with them gives the same result.
proof fn lemma_overwrite_cut(x: Seq<i32>, p: int, a: Seq<i32>, b: Seq<i32>)
    requires
        0 <= p,
        p + a.len() >= x.len(),
        a.len() <= b.len(),
        a == b.subrange(0, a.len() as int),
    ensures
        overwrite(x, p, a) == overwrite(x, p, b),
{
    let oa = overwrite(x, p, a);
    let ob = overwrite(x, p, b);
    assert forall|k: int| 0 <= k < x.len() implies #[trigger] oa[k] == ob[k] by {
        if p <= k < p + a.len() {
            assert(b.subrange(0, a.len() as int)[k - p] == b[k - p]);
        }
    }
    assert(oa =~= ob);
}

/// The walk through the first `i` children starts the walk through the
/// first `j`.
proof fn lemma_walk_prefix(t: &MidTree, u: int, depth: nat, i: int, j: int)
    requires
        0 <= i <= j,
    ensures
        walk_upto(t, u, depth, i).len() <= walk_upto(t, u, depth, j).len(),
        walk_upto(t, u, depth, i) == walk_upto(t, u, depth, j).subrange(0, walk_upto(t, u, depth, i).len() as int),
    decreases j - i,
{
    if i < j {
        lemma_walk_prefix(t, u, depth, i, j - 1);
        let a = walk_upto(t, u, depth, i);
        let b = walk_upto(t, u, depth, j - 1);
        let c = walk_upto(t, u, depth, j);
        assert(c.subrange(0, b.len() as int) =~= b);
        assert(c.subrange(0, a.len() as int) =~= b.subrange(0, a.len() as int));
    } else {
        assert(walk_upto(t, u, depth, i).subrange(0, walk_upto(t, u, depth, i).len() as int) =~= walk_upto(
            t,
            u,
            depth,
            i,
        ));
    }
}

/// An ordered rooted tree on the nodes `0..num_vertices`: each node lists its
/// children in order and points at its parent.
pub struct MidTree {
    pub num_vertices: usize,
    pub root: usize,
    pub children: Vec<Vec<usize>>,
    pub parent: Vec<usize>,
}

impl MidTree {
    /// The tree is well formed: one list and one parent per node, every node
    /// it names exists, and its sizes stay below 2^30.
    pub open spec fn wf(&self) -> bool {
        &&& self.num_vertices < size_bound()
        &&& self.children@.len() == self.num_vertices
        &&& self.parent@.len() == self.num_vertices
        &&& self.root < self.num_vertices
        &&& forall|u: int|
            0 <= u < self.num_vertices ==> (#[trigger] self.parent@[u] as int) < self.num_vertices
        &&& forall|u: int|
            0 <= u < self.num_vertices ==> (#[trigger] self.children@[u]@).len() < size_bound()
        &&& forall|u: int, k: int|
            0 <= u < self.num_vertices && 0 <= k < self.children@[u]@.len() ==> (
            #[trigger] self.children@[u]@[k] as int) < self.num_vertices
    }

    /// The tree as its root, the children of each node and the parents.
    pub open spec fn shape(&self) -> (usize, Seq<Seq<usize>>, Seq<usize>) {
        (self.root, Seq::new(self.num_vertices as nat, |q: int| self.kids(q)), self.parent@)
    }

    /// The children of node `u`.
    pub open spec fn kids(&self, u: int) -> Seq<usize> {
        self.children@[u]@
    }

    /// Every node is the parent of each of its children, and lists each
    /// child once and never itself.
    pub open spec fn consistent(&self) -> bool {
        &&& forall|q: int, j: int|
            0 <= q < self.num_vertices && 0 <= j < self.kids(q).len() ==> {
                &&& self.parent@[#[trigger] self.kids(q)[j] as int] == q
                &&& self.kids(q)[j] != q
            }
        &&& forall|q: int| 0 <= q < self.num_vertices ==> (#[trigger] self.kids(q)).no_duplicates()
    }

    /// `t` is this tree with `leaf` taken out of its parent's list and put at
    /// position `pos` among the children of `new_parent`.
    pub open spec fn leaf_moved(&self, t: &MidTree, leaf: int, new_parent: int, pos: int) -> bool {
        &&& t.wf()
        &&& t.root == self.root
        &&& t.num_vertices == self.num_vertices
        &&& t.parent@ == self.parent@.update(leaf, new_parent as usize)
        &&& forall|q: int|
            0 <= q < self.num_vertices ==> #[trigger] t.kids(q) == {
                let op = self.parent@[leaf] as int;
                let c = if q == op {
                    without(self.kids(q), leaf as usize)
                } else {
                    self.kids(q)
                };
                if q == new_parent {
                    c.insert(pos, leaf as usize)
                } else {
                    c
                }
            }
    }

    /// The tree that the first `2n` bits of `x` trace from node 0; `x` must
    /// hold as many ones as zeros there.
    pub fn new(x: &MidVertex) -> (r: Self)
        requires
            valid_vertex(x@),
            is_middle(x@),
        ensures
            r.wf(),
            r.num_vertices == tree_size(x@),
            r.root == 0,
            r.children@.len() == tree_size(x@),
            forall|u: int|
                0 <= u < r.num_vertices ==> #[trigger] r.kids(u) == trace(x@, x@.len() - 1).0[u],
            r.parent@ == trace(x@, x@.len() - 1).1,
    {
        let xv = x.get_bits();
        let ghost s = x@;
        let num_vertices = (xv.len() - 1) / 2 + 1;
        let mut children: Vec<Vec<usize>> = Vec::new();
        let mut j: usize = 0;
        while j < num_vertices
            invariant
                j <= num_vertices,
                children@.len() == j,
                forall|q: int| 0 <= q < j ==> (#[trigger] children@[q])@ == Seq::<usize>::empty(),
            decreases num_vertices - j,
        {
            children.push(Vec::new());
            j = j + 1;
        }
        let mut parent: Vec<usize> = vec![0usize; num_vertices];
        let root: usize = 0;
        let mut u = root;
        let mut n: usize = 1;
        let mut i: usize = 0;
        let last = xv.len() - 1;
        proof {
            assert(parent@ =~= trace(s, 0).1);
            assert forall|q: int| 0 <= q < num_vertices implies #[trigger] children@[q]@ == trace(
                s,
                0,
            ).0[q] by {}
        }
        while i < last
            invariant
                valid_vertex(s),
                is_middle(s),
                xv@ == s,
                last == s.len() - 1,
                num_vertices == tree_size(s),
                i <= last,
                children@.len() == num_vertices,
                parent@.len() == num_vertices,
                u < num_vertices,
                u < n,
                n == 1 + ones_upto(s, i as int),
                u as int == trace(s, i as int).2,
                n as int == trace(s, i as int).3,
                parent@ == trace(s, i as int).1,
                trace(s, i as int).0.len() == num_vertices,
                forall|q: int| 0 <= q < num_vertices ==> #[trigger] children@[q]@ == trace(s, i as int).0[q],
                forall|q: int| 0 <= q < num_vertices ==> (#[trigger] parent@[q] as int) < n,
                forall|q: int, k: int|
                    0 <= q < num_vertices && 0 <= k < children@[q]@.len() ==> (
                    #[trigger] children@[q]@[k] as int) < n,
                forall|q: int| 0 <= q < num_vertices ==> (#[trigger] children@[q]@).len() < n,
            decreases last - i,
        {
            proof {
                lemma_ones_mono(s, i as int + 1, last as int);
            }
            let ghost c0 = children@;
            let ghost p0 = parent@;
            let ghost tr = trace(s, i as int);
            if xv[i] == 1 {
                children[u].push(n);
                parent.set(n, u);
                proof {
                    assert(trace(s, i + 1) == (tr.0.update(u as int, tr.0[u as int].push(n)), tr.1.update(n as int, u), n as int, n + 1));
                    assert forall|q: int| 0 <= q < num_vertices implies #[trigger] children@[q]@ == trace(s, i + 1).0[q] by {
                        if q != u {
                            assert(children@[q] == c0[q]);
                        }
                    }
                }
                u = n;
                n = n + 1;
            } else {
                u = parent[u];
            }
            i = i + 1;
        }
        let r = MidTree { num_vertices, root, children, parent };
        r
    }

    /// The number of neighbours of node `u`: its children and, but for the
    /// root, its parent.
    pub fn deg(&self, u: usize) -> (r: usize)
        requires
            self.wf(),
            u < self.num_vertices,
        ensures
            r == self.kids(u as int).len() + if u == self.root { 0int } else { 1int },
    {
        if u == self.root {
            self.children[u].len()
        } else {
            self.children[u].len() + 1
        }
    }

    /// The number of children of node `u`.
    pub fn num_children(&self, u: usize) -> (r: usize)
        requires
            self.wf(),
            u < self.num_vertices,
        ensures
            r == self.kids(u as int).len(),
    {
        self.children[u].len()
    }

    /// The `i`-th child of node `u`.
    pub fn ith_child(&self, u: usize, i: usize) -> (r: usize)
        requires
            self.wf(),
            u < self.num_vertices,
            i < self.kids(u as int).len(),
        ensures
            r == self.kids(u as int)[i as int],
            r < self.num_vertices,
    {
        self.children[u][i]
    }

    /// The tree has at least three nodes, the root's first child has a child,
    /// and that grandchild is a leaf.
    pub open spec fn tau_preimage(&self) -> bool {
        &&& self.num_vertices >= 3
        &&& self.kids(self.root as int).len() > 0
        &&& self.kids(self.kids(self.root as int)[0] as int).len() > 0
        &&& self.kids(self.kids(self.kids(self.root as int)[0] as int)[0] as int).len() == 0
    }

    /// The tree has at least three nodes, the root has two children or more,
    /// and its first child is a leaf.
    pub open spec fn tau_image(&self) -> bool {
        &&& self.num_vertices >= 3
        &&& self.kids(self.root as int).len() >= 2
        &&& self.kids(self.kids(self.root as int)[0] as int).len() == 0
    }

    /// Whether the first grandchild through the first child is a leaf (see
    /// [`MidTree::tau_preimage`]). A tree of three nodes or more must give its
    /// root a child.
    pub fn is_tau_preimage(&self) -> (r: bool)
        requires
            self.wf(),
            self.num_vertices >= 3 ==> self.kids(self.root as int).len() > 0,
        ensures
            r == self.tau_preimage(),
    {
        if self.num_vertices < 3 {
            return false;
        }
        let u = self.ith_child(self.root, 0);
        if self.num_children(u) == 0 {
            return false;
        }
        let v = self.ith_child(u, 0);
        self.num_children(v) == 0
    }

    /// Whether the root has two children or more and its first child is a
    /// leaf (see [`MidTree::tau_image`]).
    pub fn is_tau_image(&self) -> (r: bool)
        requires
            self.wf(),
        ensures
            r == self.tau_image(),
    {
        self.num_vertices >= 3 && self.num_children(self.root) >= 2 && self.num_children(
            self.ith_child(self.root, 0),
        ) <= 0
    }

    /// Moves the leaf under the root's first child up to be the root's first
    /// child.
    pub fn tau(&mut self)
        requires
            old(self).wf(),
            old(self).tau_preimage(),
            old(self).kids(old(self).root as int).len() + 1 < size_bound(),
        ensures
            final(self).wf(),
            final(self).root == old(self).root,
            final(self).num_vertices == old(self).num_vertices,
            old(self).leaf_moved(
                &*final(self),
                old(self).kids(old(self).kids(old(self).root as int)[0] as int)[0] as int,
                old(self).root as int,
                0,
            ),
    {
        let u = self.ith_child(self.root, 0);
        let v = self.ith_child(u, 0);
        let r = self.root;
        proof {
            lemma_without_len(self.kids(self.parent@[v as int] as int), v);
        }
        if self.parent[v] == r {
            proof {
                lemma_without_len(self.kids(r as int), v);
            }
        }
        self.move_leaf(v, r, 0);
    }

    /// Moves the root's first child, a leaf, down to be the first child of the
    /// root's second child.
    pub fn tau_inverse(&mut self)
        requires
            old(self).wf(),
            old(self).tau_image(),
            old(self).kids(old(self).kids(old(self).root as int)[1] as int).len() + 1 < size_bound(),
        ensures
            final(self).wf(),
            final(self).root == old(self).root,
            final(self).num_vertices == old(self).num_vertices,
            old(self).leaf_moved(
                &*final(self),
                old(self).kids(old(self).root as int)[0] as int,
                old(self).kids(old(self).root as int)[1] as int,
                0,
            ),
    {
        let v0 = self.ith_child(self.root, 0);
        let u = self.ith_child(self.root, 1);
        self.move_leaf(v0, u, 0);
    }

    /// Detaches the leaf from its parent (every occurrence of it in the
    /// parent's list) and inserts it at position `pos` among the children of
    /// `new_parent`.
    pub fn move_leaf(&mut self, leaf: usize, new_parent: usize, pos: usize)
        requires
            old(self).wf(),
            leaf < old(self).num_vertices,
            new_parent < old(self).num_vertices,
            old(self).kids(leaf as int).len() == 0,
            old(self).kids(new_parent as int).len() + 1 < size_bound(),
            pos <= (if new_parent == old(self).parent@[leaf as int] {
                without(old(self).kids(new_parent as int), leaf).len()
            } else {
                old(self).kids(new_parent as int).len()
            }),
        ensures
            final(self).wf(),
            final(self).root == old(self).root,
            final(self).num_vertices == old(self).num_vertices,
            final(self).parent@ == old(self).parent@.update(leaf as int, new_parent),
            forall|q: int|
                0 <= q < old(self).num_vertices ==> #[trigger] final(self).kids(q) == {
                    let op = old(self).parent@[leaf as int] as int;
                    let c = if q == op {
                        without(old(self).kids(q), leaf)
                    } else {
                        old(self).kids(q)
                    };
                    if q == new_parent {
                        c.insert(pos as int, leaf)
                    } else {
                        c
                    }
                },
    {
        let old_parent = self.parent[leaf];
        let ghost ks = self.kids(old_parent as int);
        let ghost nv = self.num_vertices as int;
        let mut kept: Vec<usize> = Vec::new();
        let mut k: usize = 0;
        let m = self.children[old_parent].len();
        while k < m
            invariant
                self.wf(),
                old_parent < self.num_vertices,
                ks == self.kids(old_parent as int),
                m == ks.len(),
                k <= m,
                kept@ == without(ks.subrange(0, k as int), leaf),
                forall|q: int| 0 <= q < kept@.len() ==> (#[trigger] kept@[q] as int) < nv,
                nv == self.num_vertices,
            decreases m - k,
        {
            let w = self.children[old_parent][k];
            proof {
                assert(ks.subrange(0, k + 1).drop_last() =~= ks.subrange(0, k as int));
            }
            if w != leaf {
                kept.push(w);
            }
            k = k + 1;
        }
        proof {
            assert(ks.subrange(0, m as int) =~= ks);
            lemma_without_len(ks, leaf);
        }
        self.children.set(old_parent, kept);
        self.children[new_parent].insert(pos, leaf);
        self.parent.set(leaf, new_parent);
        proof {
            assert forall|u: int, j: int|
                0 <= u < self.num_vertices && 0 <= j < self.children@[u]@.len() implies (
                #[trigger] self.children@[u]@[j] as int) < self.num_vertices by {
                if u == new_parent {
                    let c = if u == old_parent {
                        without(ks, leaf)
                    } else {
                        old(self).kids(u)
                    };
                    assert(self.children@[u]@ == c.insert(pos as int, leaf));
                    if j < pos {
                        assert(self.children@[u]@[j] == c[j]);
                    } else if j > pos {
                        assert(self.children@[u]@[j] == c[j - 1]);
                    }
                }
            }
        }
    }

    /// The number of neighbours of node `u` (see [`MidTree::deg`]).
    pub open spec fn degree(&self, u: int) -> int {
        self.kids(u).len() + if u == self.root as int { 0int } else { 1int }
    }

    /// Whether the tree is a star with more than three nodes: the root or its
    /// first child is joined to every other node. A tree of more than three
    /// nodes must give its root a child.
    pub fn is_star(&self) -> (r: bool)
        requires
            self.wf(),
            self.num_vertices > 3 ==> self.kids(self.root as int).len() > 0,
        ensures
            r == (self.num_vertices > 3 && (self.degree(self.root as int) == self.num_vertices - 1
                || self.degree(self.kids(self.root as int)[0] as int) == self.num_vertices - 1)),
    {
        if self.num_vertices <= 3 {
            return false;
        }
        self.deg(self.root) == self.num_vertices - 1 || self.deg(self.ith_child(self.root, 0))
            == self.num_vertices - 1
    }

    /// Whether the tree is a light dumbbell: at least five nodes, and the
    /// root's first child has more children than the root has besides it,
    /// with all but one node among those. The root must have a child.
    pub fn is_light_dumbbell(&self) -> (r: bool)
        requires
            self.wf(),
            self.kids(self.root as int).len() > 0,
        ensures
            r == (self.num_vertices >= 5 && {
                let k = self.kids(self.kids(self.root as int)[0] as int).len() as int;
                let l = self.kids(self.root as int).len() - 1;
                k + l + 1 >= self.num_vertices - 1 && k > l
            }),
    {
        if self.num_vertices < 5 {
            return false;
        }
        let u = self.ith_child(self.root, 0);
        let k = self.num_children(u);
        let l = self.num_children(self.root) - 1;
        k + l + 1 >= self.num_vertices - 1 && k > l
    }

    /// Whether `u` is a thin leaf: a leaf whose one neighbour has degree two.
    /// A root of degree one or less must have a child.
    pub fn is_thin_leaf(&self, u: usize) -> (r: bool)
        requires
            self.wf(),
            u < self.num_vertices,
            u == self.root && self.degree(u as int) <= 1 ==> self.kids(u as int).len() > 0,
        ensures
            r == (self.degree(u as int) <= 1 && if u == self.root {
                self.degree(self.kids(u as int)[0] as int) == 2
            } else {
                self.degree(self.parent@[u as int] as int) == 2
            }),
    {
        if self.deg(u) > 1 {
            return false;
        }
        if u == self.root {
            self.deg(self.ith_child(u, 0)) == 2
        } else {
            self.deg(self.parent[u]) == 2
        }
    }

    /// Whether some node is a thin leaf. A root of degree one or less must
    /// have a child.
    pub fn has_thin_leaf(&self) -> (r: bool)
        requires
            self.wf(),
            self.degree(self.root as int) <= 1 ==> self.kids(self.root as int).len() > 0,
        ensures
            r == exists|u: int| 0 <= u < self.num_vertices && #[trigger] self.thin_leaf(u),
    {
        let mut i: usize = 0;
        while i < self.num_vertices
            invariant
                self.wf(),
                self.degree(self.root as int) <= 1 ==> self.kids(self.root as int).len() > 0,
                i <= self.num_vertices,
                forall|u: int| 0 <= u < i ==> !#[trigger] self.thin_leaf(u),
            decreases self.num_vertices - i,
        {
            if self.is_thin_leaf(i) {
                assert(self.thin_leaf(i as int));
                return true;
            }
            i = i + 1;
        }
        false
    }

    /// Node `u` is a thin leaf (see [`MidTree::is_thin_leaf`]).
    pub open spec fn thin_leaf(&self, u: int) -> bool {
        self.degree(u) <= 1 && if u == self.root as int {
            self.degree(self.kids(u)[0] as int) == 2
        } else {
            self.degree(self.parent@[u] as int) == 2
        }
    }

    /// The number of leaves that open the list of children of `u`, up to its
    /// first child that is not a leaf.
    pub fn count_pending_edges(&self, u: usize) -> (r: usize)
        requires
            self.wf(),
            u < self.num_vertices,
        ensures
            r <= self.kids(u as int).len(),
            forall|j: int| 0 <= j < r ==> #[trigger] self.kids(self.kids(u as int)[j] as int).len() == 0,
            r < self.kids(u as int).len() ==> self.kids(self.kids(u as int)[r as int] as int).len() > 0,
    {
        let mut c: usize = 0;
        let n = self.num_children(u);
        let mut i: usize = 0;
        while i < n
            invariant
                self.wf(),
                u < self.num_vertices,
                n == self.kids(u as int).len(),
                i <= n,
                c == i,
                forall|j: int| 0 <= j < i ==> #[trigger] self.kids(self.kids(u as int)[j] as int).len() == 0,
            decreases n - i,
        {
            let v = self.ith_child(u, i);
            if self.num_children(v) == 0 {
                c = c + 1;
            } else {
                return c;
            }
            i = i + 1;
        }
        c
    }

    /// Writes the tree as a bitstring into `x`: a 1 for each edge walked down,
    /// a 0 for each edge walked back up, children in order. The walk goes at
    /// most `num_vertices` levels deep, and what does not fit in `x` is cut.
    pub fn to_bitstring(&self, x: &mut Vec<i32>)
        requires
            self.wf(),
        ensures
            final(x)@ == overwrite(
                old(x)@,
                0,
                walk_upto(self, self.root as int, self.num_vertices as nat, self.kids(self.root as int).len() as int),
            ),
            forall|k: int|
                0 <= k < old(x)@.len() ==> (#[trigger] final(x)@[k] == old(x)@[k] || final(x)@[k] == 0
                    || final(x)@[k] == 1),
    {
        let mut pos: usize = 0;
        self.to_bitstring_rec(x, self.root, &mut pos, self.num_vertices);
        proof {
            lemma_walk_bits(
                self,
                self.root as int,
                self.num_vertices as nat,
                self.kids(self.root as int).len() as int,
            );
        }
    }

    /// Writes the walk of the subtree below `u` into `x` from position `pos`
    /// on, at most `depth` levels deep; `pos` ends after what was written.
    fn to_bitstring_rec(&self, x: &mut Vec<i32>, u: usize, pos: &mut usize, depth: usize)
        requires
            self.wf(),
            u < self.num_vertices,
            *old(pos) <= old(x)@.len(),
        ensures
            ({
                let w = walk_upto(self, u as int, depth as nat, self.kids(u as int).len() as int);
                &&& final(x)@ == overwrite(old(x)@, *old(pos) as int, w)
                &&& *final(pos) == min_int(*old(pos) + w.len(), old(x)@.len() as int)
            }),
        decreases depth,
    {
        let ghost x0 = x@;
        let ghost p0 = *pos as int;
        let ghost n0 = self.kids(u as int).len() as int;
        proof {
            lemma_overwrite_empty(x0, p0);
        }
        if self.num_children(u) == 0 {
            return ;
        }
        let n = self.num_children(u);
        let mut i: usize = 0;
        while i < n
            invariant
                self.wf(),
                u < self.num_vertices,
                n == self.kids(u as int).len(),
                n0 == n,
                i <= n,
                x0 == old(x)@,
                p0 == *old(pos),
                0 <= p0 <= x0.len(),
                x@.len() == x0.len(),
                x@ == overwrite(x0, p0, walk_upto(self, u as int, depth as nat, i as int)),
                *pos as int == p0 + walk_upto(self, u as int, depth as nat, i as int).len(),
                *pos <= x@.len(),
            decreases n - i,
        {
            let it = self.ith_child(u, i);
            let ghost w_i = walk_upto(self, u as int, depth as nat, i as int);
            let ghost sub = if depth > 0 {
                walk_upto(self, it as int, (depth - 1) as nat, self.kids(it as int).len() as int)
            } else {
                Seq::<i32>::empty()
            };
            proof {
                assert(walk_upto(self, u as int, depth as nat, i + 1) == w_i + seq![1i32] + sub + seq![0i32]);
                lemma_walk_prefix(self, u as int, depth as nat, i + 1, n0);
            }
            if *pos >= x.len() {
                proof {
                    let ww = walk_upto(self, u as int, depth as nat, n0);
                    lemma_walk_prefix(self, u as int, depth as nat, i as int, n0);
                    lemma_overwrite_cut(x0, p0, w_i, ww);
                    assert(x@ == overwrite(x0, p0, ww));
                    assert(*pos == x@.len());
                    assert(p0 + ww.len() >= x0.len());
                }
                return ;
            }
            let ghost x1 = x@;
            x.set(*pos, 1);
            *pos = *pos + 1;
            proof {
                lemma_overwrite_concat(x0, p0, w_i, seq![1i32]);
                assert(x@ == overwrite(x1, p0 + w_i.len(), seq![1i32]));
            }
            if depth > 0 {
                self.to_bitstring_rec(x, it, pos, depth - 1);
            }
            proof {
                lemma_overwrite_concat(x0, p0, w_i + seq![1i32], sub);
                if depth == 0 {
                    lemma_overwrite_empty(x@, *pos as int);
                    assert(w_i + seq![1i32] + sub =~= w_i + seq![1i32]);
                }
            }
            if *pos >= x.len() {
                proof {
                    let ww = walk_upto(self, u as int, depth as nat, n0);
                    let a = w_i + seq![1i32] + sub;
                    let w1 = walk_upto(self, u as int, depth as nat, i + 1);
                    assert(w1 == a + seq![0i32]);
                    assert(w1 == ww.subrange(0, w1.len() as int));
                    assert(a =~= ww.subrange(0, a.len() as int)) by {
                        assert forall|k: int| 0 <= k < a.len() implies a[k] == ww[k] by {
                            assert(w1[k] == a[k]);
                            assert(ww.subrange(0, w1.len() as int)[k] == ww[k]);
                        }
                    }
                    lemma_overwrite_cut(x0, p0, a, ww);
                }
                return ;
            }
            x.set(*pos, 0);
            *pos = *pos + 1;
            proof {
                lemma_overwrite_concat(x0, p0, w_i + seq![1i32] + sub, seq![0i32]);
            }
            i = i + 1;
        }
    }

    /// The start of the least rotation of `x`, found with Booth's algorithm
    /// over `x` written twice.
    pub fn min_string_rotation(x: &[i32]) -> (r: usize)
        requires
            x@.len() < size_bound(),
        ensures
            x@.len() == 0 ==> r == 0,
            x@.len() > 0 ==> r < 2 * x@.len(),
    {
        let length = x.len() as isize;
        let double = (2 * length) as usize;
        let mut xx: Vec<i32> = vec![0i32; double];
        let mut i: isize = 0;
        while i < length
            invariant
                0 <= i <= length,
                length == x@.len(),
                length < size_bound(),
                xx@.len() == 2 * length,
            decreases length - i,
        {
            xx.set(i as usize, x[i as usize]);
            xx.set((i + length) as usize, x[i as usize]);
            i = i + 1;
        }
        let mut fail: Vec<isize> = vec![-1isize; double];
        let mut k: isize = 0;
        let mut j: isize = 1;
        while j < 2 * length
            invariant
                length == x@.len(),
                length < size_bound(),
                xx@.len() == 2 * length,
                fail@.len() == 2 * length,
                1 <= j,
                j <= 2 * length || length == 0,
                0 <= k < j,
                length == 0 ==> k == 0,
                forall|t: int| 0 <= t < 2 * length ==> -1 <= #[trigger] fail@[t] < t,
            decreases 2 * length - j,
        {
            let xj = xx[j as usize];
            let fi = fail[(j - k - 1) as usize];
            let mut i = fi;
            while i != -1 && xj != xx[(k + i + 1) as usize]
                invariant
                    length == x@.len(),
                    length < size_bound(),
                    xx@.len() == 2 * length,
                    fail@.len() == 2 * length,
                    1 <= j < 2 * length,
                    0 <= k < j,
                    -1 <= i < j - k - 1,
                    forall|t: int| 0 <= t < 2 * length ==> -1 <= #[trigger] fail@[t] < t,
                decreases i + 1,
            {
                if xj < xx[(k + i + 1) as usize] {
                    k = j - i - 1;
                }
                i = fail[i as usize];
            }
            if xj != xx[(k + i + 1) as usize] {
                if xj < xx[k as usize] {
                    k = j;
                }
                fail.set((j - k) as usize, -1);
            } else {
                fail.set((j - k) as usize, i + 1);
            }
            j = j + 1;
        }
        k as usize
    }

    /// One centre of the tree (`c1`) and, for a tree with two centres, the
    /// other (`c2`, else -1), found by peeling off leaves layer by layer.
    /// When the peeling does not come down to one or two nodes, `c1` falls
    /// back to the root.
    pub fn compute_center(&self, c1: &mut usize, c2: &mut i32)
        requires
            self.wf(),
        ensures
            *final(c1) < self.num_vertices,
            *final(c2) == -1 || (0 <= *final(c2) < self.num_vertices),
    {
        let nv = self.num_vertices;
        let mut degs: Vec<usize> = vec![0usize; nv];
        let mut leaves: Vec<usize> = vec![0usize; nv];
        let mut num_leaves: usize = 0;
        let mut i: usize = 0;
        while i < nv
            invariant
                self.wf(),
                nv == self.num_vertices,
                i <= nv,
                degs@.len() == nv,
                leaves@.len() == nv,
                num_leaves <= i,
                forall|q: int| 0 <= q < nv ==> (#[trigger] leaves@[q] as int) < nv,
            decreases nv - i,
        {
            let d = self.deg(i);
            degs.set(i, d);
            if d == 1 {
                leaves.set(num_leaves, i);
                num_leaves = num_leaves + 1;
            }
            i = i + 1;
        }
        let mut remaining = nv;
        let mut num_new_leaves: usize = 0;
        while remaining > 2
            invariant
                self.wf(),
                nv == self.num_vertices,
                degs@.len() == nv,
                leaves@.len() == nv,
                num_leaves <= nv,
                num_new_leaves == 0,
                forall|q: int| 0 <= q < nv ==> (#[trigger] leaves@[q] as int) < nv,
            decreases remaining,
        {
            if num_leaves == 0 || num_leaves > remaining {
                break;
            }
            let mut li: usize = 0;
            while li < num_leaves
                invariant
                    self.wf(),
                    nv == self.num_vertices,
                    degs@.len() == nv,
                    leaves@.len() == nv,
                    num_leaves <= nv,
                    li <= num_leaves,
                    num_new_leaves <= nv,
                    forall|q: int| 0 <= q < nv ==> (#[trigger] leaves@[q] as int) < nv,
                decreases num_leaves - li,
            {
                let u = leaves[li];
                let nc = self.children[u].len();
                let mut ci: usize = 0;
                while ci < nc
                    invariant
                        self.wf(),
                        nv == self.num_vertices,
                        u < nv,
                        nc == self.kids(u as int).len(),
                        ci <= nc,
                        degs@.len() == nv,
                        leaves@.len() == nv,
                        num_new_leaves <= nv,
                        forall|q: int| 0 <= q < nv ==> (#[trigger] leaves@[q] as int) < nv,
                    decreases nc - ci,
                {
                    let it = self.children[u][ci];
                    if degs[it] > 0 {
                        let d = degs[it] - 1;
                        degs.set(it, d);
                        if d == 1 && num_new_leaves < nv {
                            leaves.set(num_new_leaves, it);
                            num_new_leaves = num_new_leaves + 1;
                        }
                    }
                    ci = ci + 1;
                }
                if u != self.root {
                    let p = self.parent[u];
                    if degs[p] > 0 {
                        let d = degs[p] - 1;
                        degs.set(p, d);
                        if d == 1 && num_new_leaves < nv {
                            leaves.set(num_new_leaves, p);
                            num_new_leaves = num_new_leaves + 1;
                        }
                    }
                }
                li = li + 1;
            }
            remaining = remaining - num_leaves;
            num_leaves = num_new_leaves;
            num_new_leaves = 0;
        }
        if num_leaves == 1 {
            *c1 = leaves[0];
            *c2 = -1;
        } else if num_leaves >= 2 {
            *c1 = leaves[0];
            *c2 = leaves[1] as i32;
        } else {
            *c1 = self.root;
            *c2 = -1;
        }
    }

    /// Whether the root has a child and rotating once more keeps every list
    /// of children within bounds.
    fn can_rotate(&self) -> (r: bool)
        requires
            self.wf(),
        ensures
            r == (self.kids(self.root as int).len() > 0 && self.kids(
                self.kids(self.root as int)[0] as int,
            ).len() + 1 < size_bound()),
    {
        if self.children[self.root].len() == 0 {
            return false;
        }
        let c = self.children[self.root][0];
        self.children[c].len() + 1 < 0x4000_0000
    }

    /// Rotates the root's children until `c` comes first; gives up after one
    /// round.
    fn rotate_children_to(&mut self, c: usize)
        requires
            old(self).wf(),
            old(self).kids(old(self).root as int).len() > 0,
        ensures
            final(self).wf(),
            final(self).num_vertices == old(self).num_vertices,
            final(self).root == old(self).root,
            final(self).kids(final(self).root as int).len() > 0,
            final(self).parent@ == old(self).parent@,
            forall|q: int|
                0 <= q < old(self).num_vertices && q != old(self).root ==> #[trigger] final(self).kids(q)
                    == old(self).kids(q),
            exists|t: int|
                0 <= t <= old(self).kids(old(self).root as int).len() && final(self).kids(
                    old(self).root as int,
                ) == rotation(old(self).kids(old(self).root as int), t),
            old(self).kids(old(self).root as int).contains(c) ==> final(self).kids(
                old(self).root as int,
            )[0] == c,
    {
        let ghost r = self.root as int;
        let ghost c0 = self.kids(r);
        let ghost mut t: int = 0;
        let mut fuel = self.children[self.root].len();
        proof {
            assert(rotation(c0, 0) =~= c0);
        }
        while self.children[self.root][0] != c && fuel > 0
            invariant
                self.wf(),
                self.num_vertices == old(self).num_vertices,
                self.root == old(self).root,
                r == self.root,
                c0 == old(self).kids(r),
                self.kids(self.root as int).len() > 0,
                self.parent@ == old(self).parent@,
                forall|q: int|
                    0 <= q < old(self).num_vertices && q != r ==> #[trigger] self.kids(q) == old(self).kids(q),
                0 <= t <= c0.len(),
                fuel == c0.len() - t,
                self.kids(r) == rotation(c0, t),
                c0.contains(c) ==> self.kids(r)[0] == c || exists|p: int| t <= p < c0.len() && c0[p] == c,
            decreases fuel,
        {
            proof {
                lemma_rotation_step(c0, t);
                if c0.contains(c) {
                    let p = choose|p: int| t <= p < c0.len() && c0[p] == c;
                    assert(self.kids(r)[0] == c0[t]);
                    assert(p != t);
                    assert(t + 1 <= p < c0.len() && c0[p] == c);
                }
            }
            self.rotate_children();
            proof {
                t = t + 1;
            }
            fuel = fuel - 1;
        }
    }

    /// Re-roots the tree canonically: at its centre, with the children in the
    /// order whose bitstring is least among the rotations.
    pub fn root_canonically(&mut self)
        requires
            old(self).wf(),
            old(self).num_vertices >= 2,
        ensures
            final(self).wf(),
            final(self).num_vertices == old(self).num_vertices,
    {
        let mut c1: usize = 0;
        let mut c2: i32 = -1;
        self.compute_center(&mut c1, &mut c2);
        let num_bits = 2 * (self.num_vertices - 1);
        if c2 != -1 {
            let c2u = c2 as usize;
            self.rotate_to_vertex(c1);
            if self.children[self.root].len() == 0 {
                return ;
            }
            self.rotate_children_to(c2u);
            let mut x1: Vec<i32> = vec![0i32; num_bits];
            self.to_bitstring(&mut x1);
            if !self.can_rotate() {
                return ;
            }
            self.rotate();
            let n = self.num_children(self.root);
            self.rotate_children_by(n - 1);
            let mut x2: Vec<i32> = vec![0i32; num_bits];
            self.to_bitstring(&mut x2);
            if bitstrings_less_than(&x1, &x2) {
                if !self.can_rotate() {
                    return ;
                }
                self.rotate();
                let n = self.num_children(self.root);
                self.rotate_children_by(n - 1);
            }
        } else {
            self.rotate_to_vertex(c1);
            let mut x: Vec<i32> = vec![0i32; num_bits];
            self.to_bitstring(&mut x);
            let mut subtree_count: Vec<usize> = vec![0usize; num_bits];
            let mut c: usize = 0;
            let mut depth: i32 = 0;
            let mut i: usize = 0;
            while i < num_bits
                invariant
                    num_bits == x@.len(),
                    num_bits < 2 * size_bound(),
                    subtree_count@.len() == num_bits,
                    i <= num_bits,
                    -(i as int) <= depth <= i,
                    c <= i,
                decreases num_bits - i,
            {
                if x[i] == 1 {
                    depth = depth + 1;
                } else {
                    depth = depth - 1;
                }
                subtree_count.set(i, c);
                if depth == 0 {
                    c = c + 1;
                }
                i = i + 1;
            }
            if num_bits >= 0x4000_0000 {
                return ;
            }
            let k = Self::min_string_rotation(&x);
            if k < num_bits && self.children[self.root].len() > 0 {
                self.rotate_children_by(subtree_count[k]);
            }
        }
    }

    /// The first child of the root has a single child, which is a leaf.
    pub open spec fn pendant_first_child(&self) -> bool {
        let v = self.kids(self.root as int)[0] as int;
        self.kids(v).len() == 1 && self.kids(self.kids(v)[0] as int).len() == 0
    }

    /// Whether the first child of the root has a single child, which is a
    /// leaf.
    fn first_child_has_pendant(&self) -> (r: bool)
        requires
            self.wf(),
            self.kids(self.root as int).len() > 0,
        ensures
            r == ({
                let v = self.kids(self.root as int)[0] as int;
                self.kids(v).len() == 1 && self.kids(self.kids(v)[0] as int).len() == 0
            }),
    {
        let v = self.ith_child(self.root, 0);
        self.num_children(v) == 1 && self.num_children(self.ith_child(v, 0)) == 0
    }

    /// Whether the tree is the image of its canonical form under the flip
    /// map. The tree is rotated on the way and turned back to its root and
    /// first child at the end; a check that cannot go on (a root without
    /// children, a list of children at its bound) answers `false`.
    pub fn is_flip_tree_tau(&mut self) -> (r: bool)
        requires
            old(self).wf(),
            old(self).num_vertices >= 2,
            old(self).kids(old(self).root as int).len() > 0,
        ensures
            final(self).wf(),
            final(self).num_vertices == old(self).num_vertices,
            r ==> !(old(self).num_vertices > 3 && (old(self).degree(old(self).root as int) == old(
                self,
            ).num_vertices - 1 || old(self).degree(old(self).kids(old(self).root as int)[0] as int)
                == old(self).num_vertices - 1)),
            r && !old(self).pendant_first_child() ==> !(exists|u: int|
                0 <= u < old(self).num_vertices && #[trigger] old(self).thin_leaf(u)) && !(old(
                self,
            ).num_vertices >= 5 && {
                let k = old(self).kids(old(self).kids(old(self).root as int)[0] as int).len() as int;
                let l = old(self).kids(old(self).root as int).len() - 1;
                k + l + 1 >= old(self).num_vertices - 1 && k > l
            }),
    {
        if self.is_star() {
            return false;
        }
        let r = self.root;
        let u = self.ith_child(self.root, 0);
        let num_bits = 2 * (self.num_vertices - 1);
        let mut this_bitstring: Vec<i32> = vec![0i32; num_bits];
        let mut canon_bitstring: Vec<i32> = vec![0i32; num_bits];
        if self.first_child_has_pendant() {
            self.to_bitstring(&mut this_bitstring);
            self.root_canonically();
            let mut fuel = 2 * self.num_vertices;
            loop
                invariant
                    self.wf(),
                    self.num_vertices == old(self).num_vertices,
                    self.num_vertices >= 2,
                decreases fuel,
            {
                if self.children[self.root].len() == 0 {
                    return false;
                }
                if self.first_child_has_pendant() || fuel == 0 {
                    break;
                }
                if !self.can_rotate() {
                    return false;
                }
                self.rotate();
                fuel = fuel - 1;
            }
        } else {
            if self.has_thin_leaf() {
                return false;
            }
            let v2 = self.ith_child(self.root, 0);
            let c = self.count_pending_edges(v2);
            if c < self.num_children(v2) || c < 2 || self.is_light_dumbbell() {
                return false;
            }
            self.to_bitstring(&mut this_bitstring);
            self.root_canonically();
            let mut fuel = 2 * self.num_vertices;
            loop
                invariant
                    self.wf(),
                    self.num_vertices == old(self).num_vertices,
                    self.num_vertices >= 2,
                decreases fuel,
            {
                if self.children[self.root].len() == 0 {
                    return false;
                }
                let v2 = self.ith_child(self.root, 0);
                let c = self.count_pending_edges(v2);
                if !(c < self.num_children(v2) || c < 2) || fuel == 0 {
                    break;
                }
                if !self.can_rotate() {
                    return false;
                }
                self.rotate();
                self.rotate_children_by(c);
                fuel = fuel - 1;
            }
        }
        self.to_bitstring(&mut canon_bitstring);
        self.rotate_to_vertex(r);
        if self.children[self.root].len() == 0 {
            return false;
        }
        self.rotate_children_to(u);
        bitstrings_equal(&this_bitstring, &canon_bitstring)
    }

    /// Applies the flip map to the tree when it is defined there and tells
    /// whether it was: `tau` on a preimage whose image is canonical, else
    /// `tau` undone on an image whose preimage is canonical (the tree is put
    /// back when it is not).
    pub fn flip_tree(&mut self) -> (r: bool)
        requires
            old(self).wf(),
            old(self).num_vertices >= 2,
            old(self).kids(old(self).root as int).len() > 0,
        ensures
            final(self).wf(),
            final(self).num_vertices == old(self).num_vertices,
            r ==> old(self).tau_preimage() || old(self).tau_image(),
            !old(self).tau_preimage() && !old(self).tau_image() ==> !r && *final(self) == *old(self),
    {
        if self.is_tau_preimage() && self.is_flip_tree_tau() {
            if self.children[self.root].len() > 0 && self.is_tau_preimage()
                && self.children[self.root].len() + 1 < 0x4000_0000 {
                self.tau();
            }
            return true;
        }
        if self.children[self.root].len() > 0 && self.is_tau_image() {
            let w = self.children[self.root][1];
            if self.children[w].len() + 1 >= 0x4000_0000 {
                return false;
            }
            self.tau_inverse();
            if self.children[self.root].len() == 0 {
                return false;
            }
            if self.is_flip_tree_tau() {
                return true;
            }
            if self.children[self.root].len() > 0 && self.is_tau_preimage()
                && self.children[self.root].len() + 1 < 0x4000_0000 {
                self.tau();
            }
        }
        false
    }

    /// Makes the root's first child the new root; the old root becomes the
    /// last child of the new one.
    pub fn rotate(&mut self)
        requires
            old(self).wf(),
            old(self).num_vertices >= 2,
            old(self).kids(old(self).root as int).len() > 0,
            old(self).kids(old(self).kids(old(self).root as int)[0] as int).len() + 1 < size_bound(),
        ensures
            final(self).wf(),
            final(self).num_vertices == old(self).num_vertices,
            final(self).root == old(self).kids(old(self).root as int)[0],
            final(self).parent@ == old(self).parent@.update(
                old(self).root as int,
                old(self).kids(old(self).root as int)[0],
            ),
            forall|q: int|
                0 <= q < old(self).num_vertices ==> #[trigger] final(self).kids(q) == {
                    let r = old(self).root as int;
                    let u = old(self).kids(r)[0] as int;
                    let tail = old(self).kids(r).subrange(1, old(self).kids(r).len() as int);
                    if q == u {
                        (if u == r {
                            tail
                        } else {
                            old(self).kids(u)
                        }).push(r as usize)
                    } else if q == r {
                        tail
                    } else {
                        old(self).kids(q)
                    }
                },
            final(self).kids(final(self).root as int).len() > 0,
    {
        let r = self.root;
        let u = self.ith_child(r, 0);
        self.parent.set(r, u);
        let ghost ks = self.kids(r as int);
        let mut tail: Vec<usize> = Vec::new();
        let n = self.children[r].len();
        let mut k: usize = 1;
        while k < n
            invariant
                self.wf(),
                r < self.num_vertices,
                ks == self.kids(r as int),
                n == ks.len(),
                1 <= k <= n,
                tail@ == ks.subrange(1, k as int),
            decreases n - k,
        {
            tail.push(self.children[r][k]);
            k = k + 1;
        }
        self.children.set(r, tail);
        self.children[u].push(r);
        self.root = u;
    }

    /// Rotates until `u` is the root; gives up after `2 * num_vertices`
    /// rotations, which take any node of a tree to the root.
    pub fn rotate_to_vertex(&mut self, u: usize)
        requires
            old(self).wf(),
            old(self).num_vertices >= 2,
        ensures
            final(self).wf(),
            final(self).num_vertices == old(self).num_vertices,
            final(self).root == u || final(self).root == old(self).root || final(self).kids(
                final(self).root as int,
            ).len() > 0,
            exists|t: nat|
                t <= 2 * old(self).num_vertices && final(self).shape() == rotated_shape_times(old(self).shape(), t)
                    && (final(self).root == u || t == 2 * old(self).num_vertices || final(self).kids(
                    final(self).root as int,
                ).len() == 0 || final(self).kids(final(self).kids(final(self).root as int)[0] as int).len() + 1
                    >= size_bound()),
    {
        let mut fuel = 2 * self.num_vertices;
        let ghost mut t: nat = 0;
        while self.root != u && fuel > 0
            invariant
                self.wf(),
                self.num_vertices >= 2,
                self.num_vertices == old(self).num_vertices,
                self.root == u || self.root == old(self).root || self.kids(self.root as int).len()
                    > 0,
                t + fuel == 2 * old(self).num_vertices,
                self.shape() == rotated_shape_times(old(self).shape(), t),
            decreases fuel,
        {
            if self.children[self.root].len() == 0 {
                return ;
            }
            let c = self.children[self.root][0];
            if self.children[c].len() + 1 >= 0x4000_0000 {
                return ;
            }
            let ghost before = self.shape();
            self.rotate();
            proof {
                let after = rotated_shape(before);
                assert(self.shape().1 =~= after.1);
                assert(self.shape() == after);
                t = t + 1;
            }
            fuel = fuel - 1;
        }
    }

    /// Rotates the root's children by one place.
    pub fn rotate_children(&mut self)
        requires
            old(self).wf(),
            old(self).kids(old(self).root as int).len() > 0,
        ensures
            final(self).wf(),
            final(self).num_vertices == old(self).num_vertices,
            final(self).root == old(self).root,
            final(self).parent@ == old(self).parent@,
            final(self).kids(final(self).root as int).len() == old(self).kids(
                old(self).root as int,
            ).len(),
            forall|q: int|
                0 <= q < old(self).num_vertices ==> #[trigger] final(self).kids(q) == if q == old(self).root {
                    rotation(old(self).kids(q), 1int % old(self).kids(q).len() as int)
                } else {
                    old(self).kids(q)
                },
    {
        self.rotate_children_by(1);
    }

    /// Rotates the root's children left by `k` places (modulo their number).
    pub fn rotate_children_by(&mut self, k: usize)
        requires
            old(self).wf(),
            old(self).kids(old(self).root as int).len() > 0,
        ensures
            final(self).wf(),
            final(self).num_vertices == old(self).num_vertices,
            final(self).root == old(self).root,
            final(self).parent@ == old(self).parent@,
            forall|q: int|
                0 <= q < old(self).num_vertices ==> #[trigger] final(self).kids(q) == {
                    let r = old(self).root as int;
                    let c = old(self).kids(r);
                    let kk = k as int % c.len() as int;
                    if q == r {
                        c.subrange(kk, c.len() as int) + c.subrange(0, kk)
                    } else {
                        old(self).kids(q)
                    }
                },
            final(self).kids(final(self).root as int).len() == old(self).kids(
                old(self).root as int,
            ).len(),
    {
        let r = self.root;
        let n = self.children[r].len();
        let k = k % n;
        let ghost c = self.kids(r as int);
        if k == 0 {
            assert(c.subrange(0, c.len() as int) + c.subrange(0, 0) =~= c);
            return ;
        }
        let mut v: Vec<usize> = Vec::new();
        let mut j: usize = k;
        while j < n
            invariant
                self.wf(),
                r < self.num_vertices,
                c == self.kids(r as int),
                n == c.len(),
                k <= j <= n,
                v@ == c.subrange(k as int, j as int),
            decreases n - j,
        {
            v.push(self.children[r][j]);
            j = j + 1;
        }
        j = 0;
        while j < k
            invariant
                self.wf(),
                r < self.num_vertices,
                c == self.kids(r as int),
                n == c.len(),
                k < n,
                j <= k,
                v@ == c.subrange(k as int, n as int) + c.subrange(0, j as int),
            decreases k - j,
        {
            v.push(self.children[r][j]);
            proof {
                assert(c.subrange(0, j + 1) =~= c.subrange(0, j as int).push(c[j as int]));
            }
            j = j + 1;
        }
        self.children.set(r, v);
    }
}

/// The number of ones never shrinks along a bitstring.
pub proof fn lemma_ones_mono(s: Seq<i32>, i: int, j: int)
    requires
        0 <= i <= j,
    ensures
        ones_upto(s, i) <= ones_upto(s, j),
    decreases j - i,
{
    if j > i {
        lemma_ones_mono(s, i, j - 1);
    }
}

/// Dropping `x` from a list that holds it only at the front leaves the rest.
proof fn lemma_without_front(s: Seq<usize>, x: usize)
    requires
        s.len() > 0,
        s[0] == x,
        !s.drop_first().contains(x),
    ensures
        without(s, x) == s.drop_first(),
    decreases s.len(),
{
    if s.len() == 1 {
        assert(without(s.drop_last(), x) == Seq::<usize>::empty());
        assert(s.drop_first() =~= Seq::<usize>::empty());
    } else {
        let t = s.drop_last();
        assert(t.drop_first() =~= s.drop_first().drop_last());
        assert(!t.drop_first().contains(x)) by {
            if t.drop_first().contains(x) {
                let j = choose|j: int| 0 <= j < t.drop_first().len() && t.drop_first()[j] == x;
                assert(s.drop_first()[j] == x);
            }
        }
        lemma_without_front(t, x);
        assert(s.last() == s.drop_first().last());
        assert(s.last() != x);
        assert(s.drop_first() =~= t.drop_first().push(s.last()));
    }
}

/// Dropping an absent `x` changes nothing.
proof fn lemma_without_absent(s: Seq<usize>, x: usize)
    requires
        !s.contains(x),
    ensures
        without(s, x) == s,
    decreases s.len(),
{
    if s.len() > 0 {
        assert(!s.drop_last().contains(x)) by {
            if s.drop_last().contains(x) {
                let j = choose|j: int| 0 <= j < s.drop_last().len() && s.drop_last()[j] == x;
                assert(s[j] == x);
            }
        }
        lemma_without_absent(s.drop_last(), x);
        assert(s.last() != x) by {
            assert(s[s.len() - 1] == s.last());
        }
        assert(s =~= s.drop_last().push(s.last()));
    }
}

/// `tau_inverse` undoes `tau`: on a consistent tree whose first grandchild
/// through the first child is a leaf, moving that leaf up to be the root's
/// first child and then back down gives the tree back.
pub proof fn law_tau_round_trip(t0: &MidTree, t1: &MidTree, t2: &MidTree)
    requires
        t0.wf(),
        t0.consistent(),
        t0.tau_preimage(),
        t0.leaf_moved(t1, t0.kids(t0.kids(t0.root as int)[0] as int)[0] as int, t0.root as int, 0),
        t1.leaf_moved(t2, t1.kids(t1.root as int)[0] as int, t1.kids(t1.root as int)[1] as int, 0),
    ensures
        t1.tau_image(),
        t2.root == t0.root,
        t2.num_vertices == t0.num_vertices,
        t2.parent@ == t0.parent@,
        forall|q: int| 0 <= q < t0.num_vertices ==> #[trigger] t2.kids(q) == t0.kids(q),
{
    let r = t0.root as int;
    let u = t0.kids(r)[0] as int;
    let v = t0.kids(u)[0] as int;
    assert(t0.parent@[u] == r && u != r);
    assert(t0.parent@[v] == u && v != u);
    assert(t0.kids(r).len() > 0);
    assert(v != r) by {
        if v == r {
            assert(t0.parent@[r] == u);
        }
    }
    // after tau
    assert(!t0.kids(u).drop_first().contains(v as usize)) by {
        if t0.kids(u).drop_first().contains(v as usize) {
            let j = choose|j: int| 0 <= j < t0.kids(u).drop_first().len() && t0.kids(u).drop_first()[j] == v;
            assert(t0.kids(u)[j + 1] == t0.kids(u)[0]);
        }
    }
    lemma_without_front(t0.kids(u), v as usize);
    assert(t1.kids(u) == t0.kids(u).drop_first());
    assert(t1.kids(r) == t0.kids(r).insert(0, v as usize));
    assert(t1.kids(r)[0] == v && t1.kids(r)[1] == u);
    assert(t1.kids(v) == t0.kids(v));
    assert(t1.tau_image());
    // after tau_inverse
    assert(t1.parent@[v] == r);
    assert(!t0.kids(r).contains(v as usize)) by {
        if t0.kids(r).contains(v as usize) {
            let j = choose|j: int| 0 <= j < t0.kids(r).len() && t0.kids(r)[j] == v;
            assert(t0.parent@[t0.kids(r)[j] as int] == r);
        }
    }
    assert(t1.kids(r).drop_first() =~= t0.kids(r));
    assert(!t1.kids(r).drop_first().contains(v as usize));
    lemma_without_front(t1.kids(r), v as usize);
    assert(t2.kids(r) == t0.kids(r));
    assert(t2.kids(u) =~= t0.kids(u));
    assert(t2.parent@ =~= t0.parent@);
    assert forall|q: int| 0 <= q < t0.num_vertices implies #[trigger] t2.kids(q) == t0.kids(q) by {
        if q != r && q != u {
            assert(t1.kids(q) == t0.kids(q));
        }
    }
}

/// The shape after one rotation: the root's first child becomes the root
/// and the old root its last child (no change where the root has no child).
pub open spec fn rotated_shape(s: (usize, Seq<Seq<usize>>, Seq<usize>)) -> (usize, Seq<Seq<usize>>, Seq<usize>) {
    let r = s.0 as int;
    let ks = s.1;
    if ks[r].len() == 0 {
        s
    } else {
        let u = ks[r][0] as int;
        let tail = ks[r].subrange(1, ks[r].len() as int);
        (
            ks[r][0],
            Seq::new(
                ks.len(),
                |q: int|
                    if q == u {
                        (if u == r {
                            tail
                        } else {
                            ks[u]
                        }).push(s.0)
                    } else if q == r {
                        tail
                    } else {
                        ks[q]
                    },
            ),
            s.2.update(r, ks[r][0]),
        )
    }
}

/// The shape after `t` rotations.
pub open spec fn rotated_shape_times(s: (usize, Seq<Seq<usize>>, Seq<usize>), t: nat) -> (
    usize,
    Seq<Seq<usize>>,
    Seq<usize>,
)
    decreases t,
{
    if t == 0 {
        s
    } else {
        rotated_shape(rotated_shape_times(s, (t - 1) as nat))
    }
}

/// The sequence `s` rotated left by `t` places (`0 <= t <= s.len()`).
pub open spec fn rotation(s: Seq<usize>, t: int) -> Seq<usize> {
    s.subrange(t, s.len() as int) + s.subrange(0, t)
}

/// Rotating by one more place is rotating the rotation by one.
pub proof fn lemma_rotation_step(s: Seq<usize>, t: int)
    requires
        0 <= t < s.len(),
    ensures
        rotation(rotation(s, t), 1int % s.len() as int) == rotation(s, t + 1),
        rotation(s, t).len() == s.len(),
        rotation(s, t)[0] == s[t],
{
    let a = rotation(s, t);
    if s.len() == 1 {
        assert(rotation(a, 0) =~= a);
        assert(a =~= s);
        assert(rotation(s, 1) =~= s);
    } else {
        let n = s.len() as int;
        assert(1int % n == 1) by (nonlinear_arith)
            requires
                n > 1,
        ;
        assert(rotation(a, 1) =~= rotation(s, t + 1));
    }
}

} // verus!
