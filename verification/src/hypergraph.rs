use vstd::prelude::*;
use vstd::multiset::Multiset;

verus! {

/// The undirected graph that backs a [`SimpleNetlist`]: modules and nets are
/// both nodes, a pin is an edge between a module and a net.
#[verifier::external_type_specification]
#[verifier::external_body]
#[verifier::reject_recursive_types(N)]
#[verifier::reject_recursive_types(E)]
#[verifier::reject_recursive_types(Ty)]
#[verifier::reject_recursive_types(Ix)]
pub struct ExGraph<N, E, Ty, Ix>(petgraph::Graph<N, E, Ty, Ix>);

/// Marker type for undirected edges.
#[verifier::external_type_specification]
#[verifier::external_body]
pub struct ExUndirected(petgraph::Undirected);

/// The sequence of edges of a petgraph graph, in the order petgraph stores
/// them: the order they were added, as long as none was removed.
pub uninterp spec fn graph_edges(g: petgraph::Graph<(), (), petgraph::Undirected>) -> Seq<(usize, usize)>;

/// The number of nodes of a petgraph graph.
pub uninterp spec fn graph_node_count(g: petgraph::Graph<(), (), petgraph::Undirected>) -> nat;

/// The order in which petgraph lists the neighbours of node `a` of the
/// undirected graph `g`. petgraph's documentation leaves the order open;
/// its source fixes it from the graph's edge links, which removals relink,
/// so it is a function of the graph and not of its edge list alone.
pub uninterp spec fn neighbor_order(g: petgraph::Graph<(), (), petgraph::Undirected>, a: usize) -> Seq<usize>;

/// The neighbours of `a` in an undirected graph with edge list `edges`, counted
/// with multiplicity: an edge `(a, b)` contributes `b`, an edge `(b, a)` with
/// `b != a` contributes `b` (a self-loop is listed once).
pub open spec fn adjacency(edges: Seq<(usize, usize)>, a: usize) -> Multiset<usize>
    decreases edges.len(),
{
    if edges.len() == 0 {
        Multiset::empty()
    } else {
        let e = edges.last();
        let rest = adjacency(edges.drop_last(), a);
        if e.0 == a {
            rest.insert(e.1)
        } else if e.1 == a {
            rest.insert(e.0)
        } else {
            rest
        }
    }
}

/// `petgraph::Graph::new_undirected`: an empty graph.
#[verifier::external_body]
pub(crate) fn graph_new_undirected() -> (g: petgraph::Graph<(), (), petgraph::Undirected>)
    ensures
        graph_edges(g) == Seq::<(usize, usize)>::empty(),
        graph_node_count(g) == 0,
{
    petgraph::Graph::new_undirected()
}

/// `petgraph::Graph::add_node`: appends one node and returns its index; the
/// edges stay as they were. It panics at `u32::MAX` nodes (default index type).
#[verifier::external_body]
pub(crate) fn graph_add_node(g: &mut petgraph::Graph<(), (), petgraph::Undirected>) -> (r: usize)
    requires
        graph_node_count(*old(g)) < u32::MAX,
    ensures
        graph_node_count(*final(g)) == graph_node_count(*old(g)) + 1,
        graph_edges(*final(g)) == graph_edges(*old(g)),
        r == graph_node_count(*old(g)),
{
    g.add_node(()).index()
}

/// `petgraph::Graph::add_edge`: appends the edge `(a, b)` to the edge list.
/// It panics when an endpoint is not a node or at `u32::MAX` edges.
#[verifier::external_body]
pub(crate) fn graph_add_edge(g: &mut petgraph::Graph<(), (), petgraph::Undirected>, a: usize, b: usize)
    requires
        a < graph_node_count(*old(g)),
        b < graph_node_count(*old(g)),
        graph_edges(*old(g)).len() < u32::MAX,
    ensures
        graph_node_count(*final(g)) == graph_node_count(*old(g)),
        graph_edges(*final(g)) == graph_edges(*old(g)).push((a, b)),
{
    g.add_edge(petgraph::graph::NodeIndex::new(a), petgraph::graph::NodeIndex::new(b), ());
}

/// `petgraph::Graph::neighbors` on an undirected graph: all nodes joined to
/// `a` by an edge, as indices. The documentation leaves the order open, so
/// only the multiset of neighbours is stated beside the named order.
#[verifier::external_body]
pub(crate) fn graph_neighbors(g: &petgraph::Graph<(), (), petgraph::Undirected>, a: usize) -> (r: Vec<usize>)
    requires
        a < graph_node_count(*g),
    ensures
        r@ == neighbor_order(*g, a),
        r@.to_multiset() == adjacency(graph_edges(*g), a),
{
    g.neighbors(petgraph::graph::NodeIndex::new(a)).map(|n| n.index()).collect()
}

/// `petgraph::Graph::node_count`.
#[verifier::external_body]
pub(crate) fn graph_count_nodes(g: &petgraph::Graph<(), (), petgraph::Undirected>) -> (r: usize)
    ensures
        r == graph_node_count(*g),
{
    g.node_count()
}

/// Trait abstracting a hypergraph (netlist) for partitioning algorithms.
///
/// Modules are the nodes `0 .. number_of_modules()`, nets are the nodes that
/// follow them; a node is identified by its index.
pub trait Hypergraph: Sized {
    /// The representation invariant of the implementing type.
    spec fn wf(&self) -> bool;

    /// Number of modules.
    spec fn spec_num_modules(&self) -> nat;

    /// Number of nodes (modules and nets).
    spec fn spec_num_nodes(&self) -> nat;

    /// The neighbours of a node, in the order `neighbors` lists them.
    spec fn spec_neighbors(&self, node: usize) -> Seq<usize>;

    /// The weight of a module.
    spec fn spec_module_weight(&self, v: usize) -> u32;

    /// The weight of a net.
    spec fn spec_net_weight(&self, net: usize) -> u32;

    /// The largest degree among the modules (0 when there is none).
    spec fn spec_max_degree(&self) -> nat;

    /// Modules are a prefix of the nodes, and node indices fit in `usize`.
    proof fn lemma_node_counts(&self)
        requires
            self.wf(),
        ensures
            self.spec_num_modules() <= self.spec_num_nodes() <= usize::MAX,
    ;

    /// All modules in the hypergraph, in index order.
    fn modules(&self) -> (r: Vec<usize>)
        requires
            self.wf(),
        ensures
            r@.len() == self.spec_num_modules(),
            forall|i: int| 0 <= i < r@.len() ==> r@[i] == i,
    ;

    /// All nets in the hypergraph, in index order.
    fn nets(&self) -> (r: Vec<usize>)
        requires
            self.wf(),
        ensures
            r@.len() == self.spec_num_nodes() - self.spec_num_modules(),
            forall|i: int| 0 <= i < r@.len() ==> r@[i] == self.spec_num_modules() + i,
    ;

    /// The neighbours of a node (the nets of a module, the modules of a net).
    fn neighbors(&self, node: usize) -> (r: Vec<usize>)
        requires
            self.wf(),
            node < self.spec_num_nodes(),
        ensures
            r@ == self.spec_neighbors(node),
    ;

    /// The degree of a node: the number of its neighbours.
    fn degree(&self, node: usize) -> (r: usize)
        requires
            self.wf(),
            node < self.spec_num_nodes(),
        ensures
            r == self.spec_neighbors(node).len(),
    ;

    /// The weight of a module.
    fn get_module_weight(&self, v: usize) -> (r: u32)
        requires
            self.wf(),
        ensures
            r == self.spec_module_weight(v),
    ;

    /// The weight of a net.
    fn get_net_weight(&self, net: usize) -> (r: u32)
        requires
            self.wf(),
        ensures
            r == self.spec_net_weight(net),
    ;

    /// Number of modules.
    fn number_of_modules(&self) -> (r: usize)
        requires
            self.wf(),
        ensures
            r == self.spec_num_modules(),
    ;

    /// Maximum degree among all modules (0 when there is none).
    fn get_max_degree(&self) -> (r: usize)
        requires
            self.wf(),
        ensures
            r == self.spec_max_degree(),
    ;

    /// The index of a module in partition arrays.
    fn module_index(&self, v: usize) -> (r: usize)
        ensures
            r == v,
    ;
}

/// A shared hypergraph is read like the hypergraph itself.
impl<'a, G: Hypergraph> Hypergraph for &'a G {
    open spec fn wf(&self) -> bool {
        (**self).wf()
    }

    open spec fn spec_num_modules(&self) -> nat {
        (**self).spec_num_modules()
    }

    open spec fn spec_num_nodes(&self) -> nat {
        (**self).spec_num_nodes()
    }

    open spec fn spec_neighbors(&self, node: usize) -> Seq<usize> {
        (**self).spec_neighbors(node)
    }

    open spec fn spec_module_weight(&self, v: usize) -> u32 {
        (**self).spec_module_weight(v)
    }

    open spec fn spec_net_weight(&self, net: usize) -> u32 {
        (**self).spec_net_weight(net)
    }

    open spec fn spec_max_degree(&self) -> nat {
        (**self).spec_max_degree()
    }

    proof fn lemma_node_counts(&self) {
        (**self).lemma_node_counts();
    }

    fn modules(&self) -> (r: Vec<usize>) {
        (**self).modules()
    }

    fn nets(&self) -> (r: Vec<usize>) {
        (**self).nets()
    }

    fn neighbors(&self, node: usize) -> (r: Vec<usize>) {
        (**self).neighbors(node)
    }

    fn degree(&self, node: usize) -> (r: usize) {
        (**self).degree(node)
    }

    fn get_module_weight(&self, v: usize) -> (r: u32) {
        (**self).get_module_weight(v)
    }

    fn get_net_weight(&self, net: usize) -> (r: u32) {
        (**self).get_net_weight(net)
    }

    fn number_of_modules(&self) -> (r: usize) {
        (**self).number_of_modules()
    }

    fn get_max_degree(&self) -> (r: usize) {
        (**self).get_max_degree()
    }

    fn module_index(&self, v: usize) -> (r: usize) {
        (**self).module_index(v)
    }
}

/// A hypergraph that the partitioning algorithms accept: every node lists
/// distinct neighbours, modules are joined only to nets and nets only to
/// modules, and adjacency is symmetric.
pub open spec fn is_netlist<G: Hypergraph>(g: &G) -> bool {
    &&& g.spec_num_modules() <= g.spec_num_nodes() <= usize::MAX
    &&& forall|x: usize|
        #![trigger g.spec_neighbors(x)]
        x < g.spec_num_nodes() ==> {
            &&& g.spec_neighbors(x).no_duplicates()
            &&& forall|j: int|
                0 <= j < g.spec_neighbors(x).len() ==> {
                    &&& g.spec_neighbors(x)[j] < g.spec_num_nodes()
                    &&& ((x < g.spec_num_modules()) != (g.spec_neighbors(x)[j]
                        < g.spec_num_modules()))
                }
        }
    &&& forall|x: usize, y: usize|
        #![trigger g.spec_neighbors(x).contains(y), g.spec_neighbors(y)]
        x < g.spec_num_nodes() && y < g.spec_num_nodes() ==> (g.spec_neighbors(x).contains(y)
            <==> g.spec_neighbors(y).contains(x))
}

/// Node `x` of `g` lists distinct neighbours, each a node on the other side
/// (a net for a module, a module for a net).
pub open spec fn node_ok<G: Hypergraph>(g: &G, x: usize) -> bool {
    &&& g.spec_neighbors(x).no_duplicates()
    &&& forall|j: int|
        0 <= j < g.spec_neighbors(x).len() ==> {
            &&& #[trigger] g.spec_neighbors(x)[j] < g.spec_num_nodes()
            &&& ((x < g.spec_num_modules()) != (g.spec_neighbors(x)[j] < g.spec_num_modules()))
        }
}

/// Whether `x` is among `s`.
fn vec_contains(s: &Vec<usize>, x: usize) -> (r: bool)
    ensures
        r == s@.contains(x),
{
    let mut i: usize = 0;
    while i < s.len()
        invariant
            i <= s@.len(),
            forall|t: int| 0 <= t < i ==> s@[t] != x,
        decreases s@.len() - i,
    {
        if s[i] == x {
            return true;
        }
        i = i + 1;
    }
    false
}

/// Whether `g` is a netlist that the partitioning algorithms accept: every
/// node lists distinct neighbours on the other side, and adjacency is
/// symmetric.
pub fn check_netlist<G: Hypergraph>(g: &G) -> (r: bool)
    requires
        g.wf(),
    ensures
        r == is_netlist(g),
{
    proof {
        g.lemma_node_counts();
    }
    let m = g.number_of_modules();
    let total = m + g.nets().len();
    let mut x: usize = 0;
    while x < total
        invariant
            g.wf(),
            m == g.spec_num_modules(),
            total == g.spec_num_nodes(),
            total <= usize::MAX,
            x <= total,
            forall|u: usize| u < x ==> #[trigger] node_ok(g, u),
        decreases total - x,
    {
        let nb = g.neighbors(x);
        let mut j: usize = 0;
        while j < nb.len()
            invariant
                g.wf(),
                m == g.spec_num_modules(),
                total == g.spec_num_nodes(),
                x < total,
                nb@ == g.spec_neighbors(x),
                j <= nb@.len(),
                forall|t: int|
                    0 <= t < j ==> nb@[t] < total && ((x < m) != (nb@[t] < m)) && forall|k: int|
                        0 <= k < t ==> nb@[k] != nb@[t],
            decreases nb@.len() - j,
        {
            let y = nb[j];
            if y >= total || ((x < m) == (y < m)) {
                proof {
                    assert(!node_ok(g, x));
                    assert(!is_netlist(g)) by {
                        assert(g.spec_neighbors(x) == nb@);
                    }
                }
                return false;
            }
            let mut k: usize = 0;
            while k < j
                invariant
                    nb@ == g.spec_neighbors(x),
                    x < total,
                    total == g.spec_num_nodes(),
                    j < nb@.len(),
                    y == nb@[j as int],
                    k <= j,
                    forall|t: int| 0 <= t < k ==> nb@[t] != y,
                decreases j - k,
            {
                if nb[k] == y {
                    proof {
                        assert(!is_netlist(g)) by {
                            assert(nb@[k as int] == nb@[j as int]);
                            assert(!g.spec_neighbors(x).no_duplicates());
                        }
                    }
                    return false;
                }
                k = k + 1;
            }
            j = j + 1;
        }
        proof {
            assert(node_ok(g, x)) by {
                assert forall|a: int, b: int|
                    0 <= a < nb@.len() && 0 <= b < nb@.len() && a != b implies nb@[a] != nb@[b] by {
                    if a < b {
                        assert(nb@[a] != nb@[b]);
                    } else {
                        assert(nb@[b] != nb@[a]);
                    }
                }
            }
        }
        x = x + 1;
    }
    let mut x: usize = 0;
    while x < total
        invariant
            g.wf(),
            m == g.spec_num_modules(),
            total == g.spec_num_nodes(),
            x <= total,
            forall|u: usize| u < total ==> #[trigger] node_ok(g, u),
            forall|u: usize, w: usize|
                u < x && #[trigger] g.spec_neighbors(u).contains(w) ==> g.spec_neighbors(w).contains(u),
        decreases total - x,
    {
        let nb = g.neighbors(x);
        proof {
            assert(node_ok(g, x));
        }
        let mut j: usize = 0;
        while j < nb.len()
            invariant
                g.wf(),
                total == g.spec_num_nodes(),
                x < total,
                nb@ == g.spec_neighbors(x),
                node_ok(g, x),
                j <= nb@.len(),
                forall|t: int| 0 <= t < j ==> g.spec_neighbors(#[trigger] nb@[t]).contains(x),
            decreases nb@.len() - j,
        {
            let y = nb[j];
            proof {
                assert(y < total);
            }
            let nby = g.neighbors(y);
            if !vec_contains(&nby, x) {
                proof {
                    assert(g.spec_neighbors(x).contains(y));
                    assert(!g.spec_neighbors(y).contains(x));
                }
                return false;
            }
            j = j + 1;
        }
        proof {
            assert forall|u: usize, w: usize|
                u < x + 1 && #[trigger] g.spec_neighbors(u).contains(w) implies g.spec_neighbors(w).contains(u) by {
                if u == x {
                    let t = choose|t: int| 0 <= t < nb@.len() && nb@[t] == w;
                    assert(g.spec_neighbors(nb@[t]).contains(x));
                }
            }
        }
        x = x + 1;
    }
    proof {
        assert forall|u: usize, w: usize|
            u < total && w < total implies (#[trigger] g.spec_neighbors(u).contains(w) <==> g.spec_neighbors(
            w,
        ).contains(u)) by {
            if g.spec_neighbors(w).contains(u) {
                assert(g.spec_neighbors(u).contains(w));
            }
        }
        assert forall|u: usize| #![trigger g.spec_neighbors(u)] u < total implies {
            &&& g.spec_neighbors(u).no_duplicates()
            &&& forall|j: int|
                0 <= j < g.spec_neighbors(u).len() ==> {
                    &&& g.spec_neighbors(u)[j] < total
                    &&& ((u < m) != (g.spec_neighbors(u)[j] < m))
                }
        } by {
            assert(node_ok(g, u));
        }
    }
    true
}

/// A simple netlist backed by petgraph.
///
/// The first `num_modules` nodes of the graph are the modules, the others
/// are the nets.
pub struct SimpleNetlist {
    /// Number of modules (first `num_modules` nodes in the graph)
    pub num_modules: usize,
    /// Graph representation
    pub gr: petgraph::Graph<(), (), petgraph::Undirected>,
    /// Module weights
    pub module_weight: Vec<u32>,
}

impl SimpleNetlist {
    /// The largest degree among the first `k` modules, 0 when `k == 0`.
    pub open spec fn max_degree_upto(&self, k: nat) -> nat
        decreases k,
    {
        if k == 0 {
            0
        } else {
            let d = neighbor_order(self.gr, (k - 1) as usize).len();
            let m = self.max_degree_upto((k - 1) as nat);
            if d > m {
                d
            } else {
                m
            }
        }
    }

    /// The netlist's invariant: the modules are a prefix of the nodes, every
    /// edge joins two nodes, and petgraph can still add a node.
    pub open spec fn inv(&self) -> bool {
        &&& self.num_modules <= graph_node_count(self.gr) < u32::MAX
        &&& forall|i: int|
            0 <= i < graph_edges(self.gr).len() ==> graph_edges(self.gr)[i].0 < graph_node_count(
                self.gr,
            ) && graph_edges(self.gr)[i].1 < graph_node_count(self.gr)
    }

    /// A netlist with `num_modules` modules of weight 1, `num_nets` nets and
    /// no pins.
    pub fn new(num_modules: usize, num_nets: usize) -> (nl: Self)
        requires
            num_modules + num_nets < u32::MAX,
        ensures
            nl.inv(),
            nl.num_modules == num_modules,
            graph_node_count(nl.gr) == num_modules + num_nets,
            graph_edges(nl.gr) == Seq::<(usize, usize)>::empty(),
            nl.module_weight@ == Seq::new(num_modules as nat, |i: int| 1u32),
    {
        let total = num_modules + num_nets;
        let mut gr = graph_new_undirected();
        let mut i: usize = 0;
        while i < total
            invariant
                i <= total,
                total < u32::MAX,
                graph_node_count(gr) == i,
                graph_edges(gr) == Seq::<(usize, usize)>::empty(),
            decreases total - i,
        {
            graph_add_node(&mut gr);
            i = i + 1;
        }
        let module_weight = vec![1u32; num_modules];
        let nl = SimpleNetlist { num_modules, gr, module_weight };
        assert(nl.module_weight@ == Seq::new(num_modules as nat, |i: int| 1u32));
        nl
    }

    /// Connect a module and a net (adds the pin `(module, net)`).
    pub fn add_edge(&mut self, module: usize, net: usize)
        requires
            old(self).inv(),
            module < graph_node_count(old(self).gr),
            net < graph_node_count(old(self).gr),
            graph_edges(old(self).gr).len() < u32::MAX,
        ensures
            final(self).inv(),
            final(self).num_modules == old(self).num_modules,
            final(self).module_weight == old(self).module_weight,
            graph_node_count(final(self).gr) == graph_node_count(old(self).gr),
            graph_edges(final(self).gr) == graph_edges(old(self).gr).push((module, net)),
    {
        graph_add_edge(&mut self.gr, module, net);
    }
}

impl Hypergraph for SimpleNetlist {
    open spec fn wf(&self) -> bool {
        self.inv()
    }

    open spec fn spec_num_modules(&self) -> nat {
        self.num_modules as nat
    }

    open spec fn spec_num_nodes(&self) -> nat {
        graph_node_count(self.gr)
    }

    open spec fn spec_neighbors(&self, node: usize) -> Seq<usize> {
        neighbor_order(self.gr, node)
    }

    open spec fn spec_module_weight(&self, v: usize) -> u32 {
        if v < self.module_weight@.len() {
            self.module_weight@[v as int]
        } else {
            1
        }
    }

    open spec fn spec_net_weight(&self, net: usize) -> u32 {
        1
    }

    open spec fn spec_max_degree(&self) -> nat {
        self.max_degree_upto(self.num_modules as nat)
    }

    proof fn lemma_node_counts(&self) {
    }

    fn modules(&self) -> (r: Vec<usize>) {
        let mut r: Vec<usize> = Vec::new();
        let mut i: usize = 0;
        while i < self.num_modules
            invariant
                i <= self.num_modules,
                r@.len() == i,
                forall|j: int| 0 <= j < r@.len() ==> r@[j] == j,
            decreases self.num_modules - i,
        {
            r.push(i);
            i = i + 1;
        }
        r
    }

    fn nets(&self) -> (r: Vec<usize>) {
        let total = graph_count_nodes(&self.gr);
        let mut r: Vec<usize> = Vec::new();
        let mut i: usize = self.num_modules;
        while i < total
            invariant
                self.num_modules <= i <= total,
                total == graph_node_count(self.gr),
                r@.len() == i - self.num_modules,
                forall|j: int| 0 <= j < r@.len() ==> r@[j] == self.num_modules + j,
            decreases total - i,
        {
            r.push(i);
            i = i + 1;
        }
        r
    }

    fn neighbors(&self, node: usize) -> (r: Vec<usize>) {
        graph_neighbors(&self.gr, node)
    }

    fn degree(&self, node: usize) -> (r: usize) {
        graph_neighbors(&self.gr, node).len()
    }

    fn get_module_weight(&self, v: usize) -> (r: u32) {
        if v < self.module_weight.len() {
            self.module_weight[v]
        } else {
            1
        }
    }

    fn get_net_weight(&self, net: usize) -> (r: u32) {
        1
    }

    fn number_of_modules(&self) -> (r: usize) {
        self.num_modules
    }

    fn get_max_degree(&self) -> (r: usize) {
        let mut best: usize = 0;
        let mut i: usize = 0;
        while i < self.num_modules
            invariant
                self.inv(),
                i <= self.num_modules,
                best == self.max_degree_upto(i as nat),
            decreases self.num_modules - i,
        {
            let d = self.degree(i);
            if d > best {
                best = d;
            }
            i = i + 1;
        }
        best
    }

    fn module_index(&self, v: usize) -> (r: usize) {
        v
    }
}

} // verus!
