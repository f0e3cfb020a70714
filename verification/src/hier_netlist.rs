//! Hierarchical netlist for multi-level partitioning: a netlist that also
//! records how its modules map to the modules of the level below, so that a
//! partition can be projected down and up between levels.
use std::collections::HashMap;
use vstd::prelude::*;
use crate::hypergraph::{
    Hypergraph,
    graph_edges,
    graph_node_count,
    neighbor_order,
    graph_new_undirected,
    graph_add_node,
    graph_add_edge,
    graph_neighbors,
    graph_count_nodes,
};

verus! {

broadcast use vstd::std_specs::hash::group_hash_axioms;

/// The largest number of neighbours among the nodes `0 .. k` of a graph with
/// edge list `edges`, 0 when `k == 0`.
pub open spec fn max_degree_upto(g: petgraph::Graph<(), (), petgraph::Undirected>, k: nat) -> nat
    decreases k,
{
    if k == 0 {
        0
    } else {
        let d = neighbor_order(g, (k - 1) as usize).len();
        let m = max_degree_upto(g, (k - 1) as nat);
        if d > m {
            d
        } else {
            m
        }
    }
}

/// The number of neighbours of the nodes `lo .. k`.
pub open spec fn pins_between(g: petgraph::Graph<(), (), petgraph::Undirected>, lo: int, k: int) -> nat
    decreases k - lo,
{
    if k <= lo {
        0
    } else {
        pins_between(g, lo, k - 1) + neighbor_order(g, (k - 1) as usize).len()
    }
}

/// `part_down` after the cells `0 .. k` wrote their parts: cell `v1` writes
/// `part[v1]` at `node_down_list[v1]` where both indices are in range.
pub open spec fn cells_down(part: Seq<u8>, part_down: Seq<u8>, down: Seq<usize>, k: int) -> Seq<u8>
    decreases k,
{
    if k <= 0 {
        part_down
    } else {
        let pd = cells_down(part, part_down, down, k - 1);
        let v2 = down[k - 1];
        if k - 1 < part.len() && v2 < pd.len() {
            pd.update(v2 as int, part[k - 1])
        } else {
            pd
        }
    }
}

/// `part_down` after writing `p` at each of the first `k` positions of
/// `targets` that are in range.
pub open spec fn fill_down(part_down: Seq<u8>, targets: Seq<usize>, p: u8, k: int) -> Seq<u8>
    decreases k,
{
    if k <= 0 {
        part_down
    } else {
        let pd = fill_down(part_down, targets, p, k - 1);
        if targets[k - 1] < pd.len() {
            pd.update(targets[k - 1] as int, p)
        } else {
            pd
        }
    }
}

/// Hierarchical netlist: a bipartite graph of modules and nets (modules
/// first), with module and net weights and the map to the level below.
pub struct HierNetlist {
    /// The netlist of the level below, when there is one.
    pub parent: Option<Box<HierNetlist>>,
    /// Number of modules (the first nodes of the graph).
    pub num_modules: usize,
    /// Graph representation (modules and nets are nodes, pins are edges).
    pub gr: petgraph::Graph<(), (), petgraph::Undirected>,
    /// Module weights.
    pub module_weight: Vec<u32>,
    /// Net weights; a net that is not listed weighs 1.
    pub net_weight: HashMap<usize, u32>,
    /// The nets of the level below that became the clustered modules.
    pub clusters: Vec<usize>,
    /// For each module, a module of the level below that it stands for.
    pub node_down_list: Vec<usize>,
}

impl HierNetlist {
    /// The netlist's invariant: the modules are a prefix of the nodes, every
    /// edge joins two nodes, and petgraph can still add a node.
    pub open spec fn inv(&self) -> bool {
        &&& self.num_modules <= graph_node_count(self.gr) < u32::MAX
        &&& forall|i: int|
            0 <= i < graph_edges(self.gr).len() ==> graph_edges(self.gr)[i].0 < graph_node_count(
                self.gr,
            ) && graph_edges(self.gr)[i].1 < graph_node_count(self.gr)
    }

    /// A netlist with `num_modules` modules of weight 1, `num_nets` nets, no
    /// pins, no level below and no clusters.
    pub fn new(num_modules: usize, num_nets: usize) -> (r: Self)
        requires
            num_modules + num_nets < u32::MAX,
        ensures
            r.inv(),
            r.parent is None,
            r.num_modules == num_modules,
            graph_node_count(r.gr) == num_modules + num_nets,
            graph_edges(r.gr) == Seq::<(usize, usize)>::empty(),
            r.module_weight@ == Seq::new(num_modules as nat, |i: int| 1u32),
            r.net_weight@ == Map::<usize, u32>::empty(),
            r.clusters@ == Seq::<usize>::empty(),
            r.node_down_list@ == Seq::<usize>::empty(),
    {
        let total = num_modules + num_nets;
        let mut gr = graph_new_undirected();
        let mut i: usize = 0;
        while i < total
            invariant
                i <= total,
                total < u32::MAX,
                graph_node_count(gr) == i,
                graph_edges(gr) == Seq::<(usize, usize)>::empty(),
            decreases total - i,
        {
            graph_add_node(&mut gr);
            i = i + 1;
        }
        let module_weight = vec![1u32; num_modules];
        let r = HierNetlist {
            parent: None,
            num_modules,
            gr,
            module_weight,
            net_weight: HashMap::new(),
            clusters: Vec::new(),
            node_down_list: Vec::new(),
        };
        assert(r.module_weight@ == Seq::new(num_modules as nat, |i: int| 1u32));
        r
    }

    /// Connect a module and a net (adds the pin `(module, net)`).
    pub fn add_edge(&mut self, module: usize, net: usize)
        requires
            old(self).inv(),
            module < graph_node_count(old(self).gr),
            net < graph_node_count(old(self).gr),
            graph_edges(old(self).gr).len() < u32::MAX,
        ensures
            final(self).inv(),
            graph_node_count(final(self).gr) == graph_node_count(old(self).gr),
            graph_edges(final(self).gr) == graph_edges(old(self).gr).push((module, net)),
            *final(self) == (HierNetlist { gr: final(self).gr, ..*old(self) }),
    {
        graph_add_edge(&mut self.gr, module, net);
    }

    /// Number of modules.
    pub fn number_of_modules(&self) -> (r: usize)
        ensures
            r == self.num_modules,
    {
        self.num_modules
    }

    /// Number of nets: the nodes that are not modules.
    pub fn number_of_nets(&self) -> (r: usize)
        requires
            self.inv(),
        ensures
            r == graph_node_count(self.gr) - self.num_modules,
    {
        graph_count_nodes(&self.gr) - self.num_modules
    }

    /// Number of pins: the neighbours of all nets, counted together.
    pub fn number_of_pins(&self) -> (r: usize)
        requires
            self.inv(),
            pins_between(self.gr, self.num_modules as int, graph_node_count(self.gr) as int)
                <= usize::MAX,
        ensures
            r == pins_between(self.gr, self.num_modules as int, graph_node_count(self.gr) as int),
    {
        let total = graph_count_nodes(&self.gr);
        let mut count: usize = 0;
        let mut k: usize = self.num_modules;
        while k < total
            invariant
                self.inv(),
                total == graph_node_count(self.gr),
                self.num_modules <= k <= total,
                count == pins_between(self.gr, self.num_modules as int, k as int),
                pins_between(self.gr, self.num_modules as int, total as int) <= usize::MAX,
            decreases total - k,
        {
            proof {
                lemma_pins_mono(self.gr, self.num_modules as int, k + 1, total as int);
            }
            count = count + graph_neighbors(&self.gr, k).len();
            k = k + 1;
        }
        count
    }

    /// The largest degree among the modules (0 when there is none).
    pub fn get_max_degree(&self) -> (r: usize)
        requires
            self.inv(),
        ensures
            r == max_degree_upto(self.gr, self.num_modules as nat),
    {
        let mut best: usize = 0;
        let mut i: usize = 0;
        while i < self.num_modules
            invariant
                self.inv(),
                i <= self.num_modules,
                best == max_degree_upto(self.gr, i as nat),
            decreases self.num_modules - i,
        {
            let d = graph_neighbors(&self.gr, i).len();
            if d > best {
                best = d;
            }
            i = i + 1;
        }
        best
    }

    /// Project a partition of this level down to the level below: each cell
    /// hands its part to the module it stands for, then each cluster hands
    /// its part to every module of the net of the level below that it was
    /// made from. Positions out of range are skipped.
    pub fn projection_down(&self, part: &[u8], part_down: &mut [u8])
        requires
            self.clusters@.len() <= self.node_down_list@.len(),
            self.clusters@.len() > 0 ==> self.node_down_list@.len() <= part@.len(),
        ensures
            ({
                let down = self.node_down_list@;
                let num_cells = down.len() - self.clusters@.len();
                let after_cells = cells_down(part@, old(part_down)@, down, num_cells);
                final(part_down)@ == self.clusters_down(part@, after_cells, num_cells, self.clusters@.len() as int)
            }),
            final(part_down)@.len() == old(part_down)@.len(),
            forall|i: int, v: usize|
                0 <= i < self.clusters@.len() && #[trigger] cluster_pins(self, i).contains(v) && v
                    < old(part_down)@.len() && (forall|j: int|
                    i < j < self.clusters@.len() ==> !(#[trigger] cluster_pins(self, j)).contains(v))
                    ==> final(part_down)@[v as int] == part@[self.node_down_list@.len() - self.clusters@.len() + i],
            forall|c: int|
                0 <= c < self.node_down_list@.len() - self.clusters@.len() && c < part@.len() && #[trigger] self.node_down_list@[c]
                    < old(part_down)@.len() && (forall|c2: int|
                    c < c2 < self.node_down_list@.len() - self.clusters@.len() ==> #[trigger] self.node_down_list@[c2]
                        != self.node_down_list@[c]) && (forall|i: int|
                    0 <= i < self.clusters@.len() ==> !(#[trigger] cluster_pins(self, i)).contains(self.node_down_list@[c]))
                    ==> final(part_down)@[self.node_down_list@[c] as int] == part@[c],
    {
        let num_cells = self.node_down_list.len() - self.clusters.len();
        let mut v1: usize = 0;
        while v1 < num_cells
            invariant
                num_cells == self.node_down_list@.len() - self.clusters@.len(),
                v1 <= num_cells,
                part_down@.len() == old(part_down)@.len(),
                part_down@ == cells_down(part@, old(part_down)@, self.node_down_list@, v1 as int),
            decreases num_cells - v1,
        {
            let v2 = self.node_down_list[v1];
            proof {
                lemma_cells_down_len(part@, old(part_down)@, self.node_down_list@, v1 as int);
            }
            if v1 < part.len() && v2 < part_down.len() {
                part_down[v2] = part[v1];
            }
            v1 = v1 + 1;
        }
        let ghost after_cells = part_down@;
        let mut i_v: usize = 0;
        while i_v < self.clusters.len()
            invariant
                num_cells == self.node_down_list@.len() - self.clusters@.len(),
                num_cells + self.clusters@.len() == self.node_down_list.len(),
                self.clusters@.len() > 0 ==> self.node_down_list@.len() <= part@.len(),
                i_v <= self.clusters@.len(),
                after_cells.len() == old(part_down)@.len(),
                part_down@ == self.clusters_down(part@, after_cells, num_cells as int, i_v as int),
            decreases self.clusters@.len() - i_v,
        {
            let net = self.clusters[i_v];
            let p = part[num_cells + i_v];
            let ghost before = part_down@;
            match &self.parent {
                Some(parent) => {
                    if net < graph_count_nodes(&parent.gr) {
                        let nbrs = graph_neighbors(&parent.gr, net);
                        let mut k: usize = 0;
                        while k < nbrs.len()
                            invariant
                                k <= nbrs@.len(),
                                part_down@.len() == before.len(),
                                part_down@ == fill_down(before, nbrs@, p, k as int),
                            decreases nbrs@.len() - k,
                        {
                            let v2 = nbrs[k];
                            proof {
                                lemma_fill_down_len(before, nbrs@, p, k as int);
                            }
                            if v2 < part_down.len() {
                                part_down[v2] = p;
                            }
                            k = k + 1;
                        }
                    }
                },
                None => {},
            }
            proof {
                lemma_clusters_down_len(self, part@, after_cells, num_cells as int, i_v as int);
                if self.parent is Some {
                    let g = self.parent->0.gr;
                    let nb = if net < graph_node_count(g) {
                        neighbor_order(g, net)
                    } else {
                        Seq::<usize>::empty()
                    };
                    assert(part_down@ == fill_down(before, nb, p, nb.len() as int));
                }
            }
            i_v = i_v + 1;
        }
        proof {
            assert forall|i: int, v: usize|
                0 <= i < self.clusters@.len() && #[trigger] cluster_pins(self, i).contains(v) && v
                    < old(part_down)@.len() && (forall|j: int|
                    i < j < self.clusters@.len() ==> !(#[trigger] cluster_pins(self, j)).contains(v))
                    implies part_down@[v as int] == part@[self.node_down_list@.len() - self.clusters@.len() + i] by {
                lemma_clusters_down_at(self, part@, after_cells, num_cells as int, self.clusters@.len() as int, i, v);
            }
            lemma_clusters_down_len(self, part@, after_cells, num_cells as int, self.clusters@.len() as int);
            assert forall|c: int|
                0 <= c < num_cells && c < part@.len() && #[trigger] self.node_down_list@[c] < old(part_down)@.len()
                    && (forall|c2: int| c < c2 < num_cells ==> #[trigger] self.node_down_list@[c2] != self.node_down_list@[c])
                    && (forall|i: int|
                    0 <= i < self.clusters@.len() ==> !(#[trigger] cluster_pins(self, i)).contains(self.node_down_list@[c]))
                    implies part_down@[self.node_down_list@[c] as int] == part@[c] by {
                lemma_cells_down_at(part@, old(part_down)@, self.node_down_list@, num_cells as int, c);
                lemma_clusters_down_at(
                    self,
                    part@,
                    after_cells,
                    num_cells as int,
                    self.clusters@.len() as int,
                    0,
                    self.node_down_list@[c],
                );
            }
        }
    }

    /// `part_down` after the clusters `0 .. k` wrote their parts.
    pub open spec fn clusters_down(&self, part: Seq<u8>, part_down: Seq<u8>, num_cells: int, k: int) -> Seq<u8>
        decreases k,
    {
        if k <= 0 {
            part_down
        } else {
            let pd = self.clusters_down(part, part_down, num_cells, k - 1);
            let net = self.clusters@[k - 1];
            let p = part[num_cells + k - 1];
            match self.parent {
                Some(parent) => {
                    let nb = if net < graph_node_count(parent.gr) {
                        neighbor_order(parent.gr, net)
                    } else {
                        Seq::<usize>::empty()
                    };
                    fill_down(pd, nb, p, nb.len() as int)
                },
                None => pd,
            }
        }
    }

    /// Project a partition of the level below up to this level: each module
    /// takes the part of the module it stands for. Positions out of range
    /// are skipped.
    pub fn projection_up(&self, part: &[u8], part_up: &mut [u8])
        ensures
            final(part_up)@.len() == old(part_up)@.len(),
            forall|v1: int|
                0 <= v1 < old(part_up)@.len() ==> #[trigger] final(part_up)@[v1] == if v1
                    < self.node_down_list@.len() && self.node_down_list@[v1] < part@.len() {
                    part@[self.node_down_list@[v1] as int]
                } else {
                    old(part_up)@[v1]
                },
    {
        let n = self.node_down_list.len();
        let mut v1: usize = 0;
        while v1 < n
            invariant
                n == self.node_down_list@.len(),
                v1 <= n,
                part_up@.len() == old(part_up)@.len(),
                forall|j: int|
                    0 <= j < part_up@.len() ==> #[trigger] part_up@[j] == if j < v1
                        && self.node_down_list@[j] < part@.len() {
                        part@[self.node_down_list@[j] as int]
                    } else {
                        old(part_up)@[j]
                    },
            decreases n - v1,
        {
            let v2 = self.node_down_list[v1];
            if v2 < part.len() && v1 < part_up.len() {
                part_up[v1] = part[v2];
            }
            v1 = v1 + 1;
        }
    }
}

impl Hypergraph for HierNetlist {
    open spec fn wf(&self) -> bool {
        self.inv()
    }

    open spec fn spec_num_modules(&self) -> nat {
        self.num_modules as nat
    }

    open spec fn spec_num_nodes(&self) -> nat {
        graph_node_count(self.gr)
    }

    open spec fn spec_neighbors(&self, node: usize) -> Seq<usize> {
        neighbor_order(self.gr, node)
    }

    open spec fn spec_module_weight(&self, v: usize) -> u32 {
        if v < self.module_weight@.len() {
            self.module_weight@[v as int]
        } else {
            1
        }
    }

    open spec fn spec_net_weight(&self, net: usize) -> u32 {
        if self.net_weight@.contains_key(net) {
            self.net_weight@[net]
        } else {
            1
        }
    }

    open spec fn spec_max_degree(&self) -> nat {
        max_degree_upto(self.gr, self.num_modules as nat)
    }

    proof fn lemma_node_counts(&self) {
    }

    fn modules(&self) -> (r: Vec<usize>) {
        let mut r: Vec<usize> = Vec::new();
        let mut i: usize = 0;
        while i < self.num_modules
            invariant
                i <= self.num_modules,
                r@.len() == i,
                forall|j: int| 0 <= j < r@.len() ==> r@[j] == j,
            decreases self.num_modules - i,
        {
            r.push(i);
            i = i + 1;
        }
        r
    }

    fn nets(&self) -> (r: Vec<usize>) {
        let total = graph_count_nodes(&self.gr);
        let mut r: Vec<usize> = Vec::new();
        let mut i: usize = self.num_modules;
        while i < total
            invariant
                self.num_modules <= i <= total,
                total == graph_node_count(self.gr),
                r@.len() == i - self.num_modules,
                forall|j: int| 0 <= j < r@.len() ==> r@[j] == self.num_modules + j,
            decreases total - i,
        {
            r.push(i);
            i = i + 1;
        }
        r
    }

    fn neighbors(&self, node: usize) -> (r: Vec<usize>) {
        graph_neighbors(&self.gr, node)
    }

    fn degree(&self, node: usize) -> (r: usize) {
        graph_neighbors(&self.gr, node).len()
    }

    fn get_module_weight(&self, v: usize) -> (r: u32) {
        if v < self.module_weight.len() {
            self.module_weight[v]
        } else {
            1
        }
    }

    fn get_net_weight(&self, net: usize) -> (r: u32) {
        match self.net_weight.get(&net) {
            Some(w) => *w,
            None => 1,
        }
    }

    fn number_of_modules(&self) -> (r: usize) {
        self.num_modules
    }

    fn get_max_degree(&self) -> (r: usize) {
        HierNetlist::get_max_degree(self)
    }

    fn module_index(&self, v: usize) -> (r: usize) {
        v
    }
}

/// Counting more nodes counts more pins.
proof fn lemma_pins_mono(g: petgraph::Graph<(), (), petgraph::Undirected>, lo: int, a: int, b: int)
    requires
        lo <= a <= b,
    ensures
        pins_between(g, lo, a) <= pins_between(g, lo, b),
    decreases b - a,
{
    if a < b {
        lemma_pins_mono(g, lo, a, b - 1);
    }
}

/// Writing parts keeps the length.
proof fn lemma_cells_down_len(part: Seq<u8>, part_down: Seq<u8>, down: Seq<usize>, k: int)
    ensures
        cells_down(part, part_down, down, k).len() == part_down.len(),
    decreases k,
{
    if k > 0 {
        lemma_cells_down_len(part, part_down, down, k - 1);
    }
}

/// Writing parts keeps the length.
proof fn lemma_fill_down_len(part_down: Seq<u8>, targets: Seq<usize>, p: u8, k: int)
    ensures
        fill_down(part_down, targets, p, k).len() == part_down.len(),
    decreases k,
{
    if k > 0 {
        lemma_fill_down_len(part_down, targets, p, k - 1);
    }
}

/// After writing `p` at the first `k` targets, a target among them that is
/// in range holds `p`; any other position keeps its part.
proof fn lemma_fill_down_at(part_down: Seq<u8>, targets: Seq<usize>, p: u8, k: int, v: usize)
    requires
        0 <= k <= targets.len(),
        v < part_down.len(),
    ensures
        targets.subrange(0, k).contains(v) ==> fill_down(part_down, targets, p, k)[v as int] == p,
        !targets.subrange(0, k).contains(v) ==> fill_down(part_down, targets, p, k)[v as int] == part_down[v as int],
    decreases k,
{
    if k > 0 {
        lemma_fill_down_at(part_down, targets, p, k - 1, v);
        lemma_fill_down_len(part_down, targets, p, k - 1);
        let s0 = targets.subrange(0, k - 1);
        let s1 = targets.subrange(0, k);
        assert(s1 =~= s0.push(targets[k - 1]));
        if s0.contains(v) {
            let t = choose|t: int| 0 <= t < s0.len() && s0[t] == v;
            assert(s1[t] == s0[t]);
        }
        if s1.contains(v) && targets[k - 1] != v {
            let t = choose|t: int| 0 <= t < s1.len() && s1[t] == v;
            assert(t < k - 1);
            assert(s0[t] == s1[t]);
        }
        let pd = fill_down(part_down, targets, p, k - 1);
        assert(fill_down(part_down, targets, p, k) == if targets[k - 1] < pd.len() {
            pd.update(targets[k - 1] as int, p)
        } else {
            pd
        });
        if targets[k - 1] == v {
            assert(s1[k - 1] == v);
            assert(fill_down(part_down, targets, p, k)[v as int] == p);
        } else {
            assert(fill_down(part_down, targets, p, k)[v as int] == pd[v as int]);
        }
    }
}

/// After the cells `0 .. k` wrote their parts, the target of cell `c` holds
/// `part[c]` unless a later cell writes there too.
proof fn lemma_cells_down_at(part: Seq<u8>, part_down: Seq<u8>, down: Seq<usize>, k: int, c: int)
    requires
        0 <= c < k <= down.len(),
        c < part.len(),
        down[c] < part_down.len(),
        forall|c2: int| c < c2 < k ==> #[trigger] down[c2] != down[c],
    ensures
        cells_down(part, part_down, down, k)[down[c] as int] == part[c],
    decreases k,
{
    lemma_cells_down_len(part, part_down, down, k - 1);
    if c < k - 1 {
        lemma_cells_down_at(part, part_down, down, k - 1, c);
        assert(down[k - 1] != down[c]);
    }
}

/// Writing parts keeps the length.
proof fn lemma_clusters_down_len(h: &HierNetlist, part: Seq<u8>, part_down: Seq<u8>, num_cells: int, k: int)
    ensures
        h.clusters_down(part, part_down, num_cells, k).len() == part_down.len(),
    decreases k,
{
    if k > 0 {
        lemma_clusters_down_len(h, part, part_down, num_cells, k - 1);
        let pd = h.clusters_down(part, part_down, num_cells, k - 1);
        match h.parent {
            Some(parent) => {
                let net = h.clusters@[k - 1];
                let nb = if net < graph_node_count(parent.gr) {
                    neighbor_order(parent.gr, net)
                } else {
                    Seq::<usize>::empty()
                };
                lemma_fill_down_len(pd, nb, part[num_cells + k - 1], nb.len() as int);
            },
            None => {},
        }
    }
}

/// The modules of the level below in the net that cluster `i` of `h` was
/// made from (none without a level below).
pub open spec fn cluster_pins(h: &HierNetlist, i: int) -> Seq<usize> {
    match h.parent {
        Some(parent) => if h.clusters@[i] < graph_node_count(parent.gr) {
            neighbor_order(parent.gr, h.clusters@[i])
        } else {
            Seq::<usize>::empty()
        },
        None => Seq::<usize>::empty(),
    }
}

/// After the clusters `0 .. k` wrote their parts, a module in range that lies
/// in the net of cluster `i < k` and of no later cluster below `k` holds
/// the part of that cluster's module, `part[num_cells + i]`; a module in no
/// such net keeps its part.
proof fn lemma_clusters_down_at(
    h: &HierNetlist,
    part: Seq<u8>,
    part_down: Seq<u8>,
    num_cells: int,
    k: int,
    i: int,
    v: usize,
)
    requires
        0 <= k <= h.clusters@.len(),
        v < part_down.len(),
    ensures
        0 <= i < k && cluster_pins(h, i).contains(v) && (forall|j: int|
            i < j < k ==> !(#[trigger] cluster_pins(h, j)).contains(v)) ==> h.clusters_down(
            part,
            part_down,
            num_cells,
            k,
        )[v as int] == part[num_cells + i],
        (forall|j: int| 0 <= j < k ==> !(#[trigger] cluster_pins(h, j)).contains(v)) ==> h.clusters_down(
            part,
            part_down,
            num_cells,
            k,
        )[v as int] == part_down[v as int],
    decreases k,
{
    if k > 0 {
        lemma_clusters_down_at(h, part, part_down, num_cells, k - 1, i, v);
        lemma_clusters_down_len(h, part, part_down, num_cells, k - 1);
        let pd = h.clusters_down(part, part_down, num_cells, k - 1);
        let nb = cluster_pins(h, k - 1);
        let p = part[num_cells + k - 1];
        lemma_fill_down_at(pd, nb, p, nb.len() as int, v);
        assert(nb.subrange(0, nb.len() as int) =~= nb);
        match h.parent {
            Some(parent) => {
                assert(h.clusters_down(part, part_down, num_cells, k) == fill_down(pd, nb, p, nb.len() as int));
            },
            None => {},
        }
    }
}

} // verus!
