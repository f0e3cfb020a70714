//! Contraction of a hypergraph for the multi-level partitioners: the nets of
//! a minimum-weight maximal matching become clustered modules, the modules
//! they do not cover stay as cells, the other nets are rebuilt over the new
//! modules, and duplicate nets next to the clusters are merged.
use vstd::prelude::*;
use std::collections::HashMap;
use crate::hier_netlist::HierNetlist;
use crate::hypergraph::{
    Hypergraph, is_netlist, graph_edges, graph_node_count, neighbor_order, graph_new_undirected, graph_add_node,
    graph_add_edge, graph_neighbors, graph_count_nodes, adjacency,
};
use vstd::multiset::Multiset;

verus! {

/// Nets of at most this many pins are compared pin by pin.
pub const LOW_PIN_NET_THRESHOLD: usize = 5;

/// The number of hashes in a MinHash signature.
pub const MINHASH_SIG_SIZE: usize = 64;

/// Nets of more pins than this are never taken for duplicates.
pub const MINHASH_MAX_DEGREE: usize = 200;

/// The nets (numbered from 0) that `netlistx_rs::min_maximal_matching`
/// picks, from no matched net and no covered module, on the netlist of
/// `num_modules` modules and `num_nets` nets whose graph has the edge list
/// `edges` (module nodes first), with the net weights `weight`.
pub uninterp spec fn primal_dual_matching(
    edges: Seq<(usize, usize)>,
    num_modules: usize,
    num_nets: usize,
    weight: Seq<u32>,
) -> Set<usize>;

/// Every edge joins a module (a node below `num_modules`) to a net, and both
/// ends are nodes.
pub open spec fn module_net_edges(edges: Seq<(usize, usize)>, num_modules: usize, num_nodes: int) -> bool {
    forall|e: int|
        0 <= e < edges.len() ==> ((#[trigger] edges[e]).0 < num_modules) != (edges[e].1 < num_modules)
            && edges[e].0 < num_nodes && edges[e].1 < num_nodes
}

/// `netlistx_rs::min_maximal_matching` (the primal-dual minimum-weight
/// maximal matching), from an empty matching and no covered module, on the
/// netlist that `netlistx_rs::Netlist::from_graph` makes of the graph with
/// `num_modules + num_nets` nodes and the edge list `edges` (the graph is
/// written in netlistx-rs's own petgraph, which this crate cannot name, so
/// it is built here): the nets it matches, each once. The source shows that
/// every matched net is a net of the netlist; it does not show that matched
/// nets share no module, so that is not claimed. It panics where the graph
/// would reach `u32::MAX` nodes or edges, where a module
/// is joined to a module (an index underflows), where `weight` has fewer
/// entries than there are nets, or where the costs it sums leave `u32`;
/// `requires` leaves these out (each sum adds at most one weight per net).
#[verifier::external_body]
fn min_maximal_matching(num_modules: usize, num_nets: usize, edges: &Vec<(usize, usize)>, weight: &Vec<u32>) -> (r:
    Vec<usize>)
    requires
        num_modules + num_nets < u32::MAX,
        edges@.len() < u32::MAX,
        weight@.len() == num_nets,
        module_net_edges(edges@, num_modules, num_modules + num_nets),
        forall|k: int| 0 <= k < weight@.len() ==> (#[trigger] weight@[k]) * weight@.len() <= u32::MAX,
    ensures
        r@.no_duplicates(),
        forall|q: int| 0 <= q < r@.len() ==> (#[trigger] r@[q]) < num_nets,
        r@.to_set() == primal_dual_matching(edges@, num_modules, num_nets, weight@),
{
    let mut gr = netlistx_rs::Netlist::new().gr;
    let mut nodes = Vec::new();
    for _ in 0..num_modules + num_nets {
        nodes.push(gr.add_node(()));
    }
    for &(a, b) in edges.iter() {
        gr.add_edge(nodes[a], nodes[b], ());
    }
    let nl = netlistx_rs::Netlist::from_graph(gr, num_modules, num_nets);
    let mut matchset = std::collections::HashSet::new();
    let mut dep = std::collections::HashSet::new();
    let (matched, _) = netlistx_rs::min_maximal_matching(&nl, weight.as_slice(), &mut matchset, &mut dep);
    matched.into_iter().collect()
}

/// The pins of the first `k` nets of `g`, as edges from net to pin, net by
/// net.
pub open spec fn net_pin_edges<G: Hypergraph>(g: &G, k: int) -> Seq<(usize, usize)>
    decreases k,
{
    if k <= 0 {
        Seq::empty()
    } else {
        let net = (g.spec_num_modules() + k - 1) as usize;
        net_pin_edges(g, k - 1) + g.spec_neighbors(net).map_values(|p: usize| (net, p))
    }
}

/// The number of nets of `g`.
pub open spec fn net_count<G: Hypergraph>(g: &G) -> int {
    g.spec_num_nodes() - g.spec_num_modules()
}

/// The edges of the netlist that `netlistx_rs` reads the hypergraph as:
/// one from each net to each of its pins, net by net.
fn to_netlist_edges<G: Hypergraph>(g: &G) -> (r: Vec<(usize, usize)>)
    requires
        g.wf(),
        is_netlist(g),
    ensures
        r@ == net_pin_edges(g, net_count(g)),
        module_net_edges(r@, g.spec_num_modules() as usize, g.spec_num_nodes() as int),
{
    proof {
        g.lemma_node_counts();
    }
    let nodes = g.nets();
    let m = g.number_of_modules();
    let mut r: Vec<(usize, usize)> = Vec::new();
    let mut k: usize = 0;
    while k < nodes.len()
        invariant
            g.wf(),
            is_netlist(g),
            m == g.spec_num_modules(),
            nodes@.len() == net_count(g),
            forall|q: int| 0 <= q < nodes@.len() ==> nodes@[q] == m + q,
            k <= nodes@.len(),
            r@ == net_pin_edges(g, k as int),
            module_net_edges(r@, m, g.spec_num_nodes() as int),
        decreases nodes@.len() - k,
    {
        let net = nodes[k];
        let pins = g.neighbors(net);
        let ghost before = r@;
        let mut j: usize = 0;
        while j < pins.len()
            invariant
                g.wf(),
                is_netlist(g),
                m == g.spec_num_modules(),
                net == m + k,
                m <= net < g.spec_num_nodes(),
                pins@ == g.spec_neighbors(net),
                j <= pins@.len(),
                r@ == before + pins@.subrange(0, j as int).map_values(|p: usize| (net, p)),
                module_net_edges(r@, m, g.spec_num_nodes() as int),
            decreases pins@.len() - j,
        {
            let p = pins[j];
            proof {
                assert(g.spec_neighbors(net)[j as int] == p);
                assert(p < g.spec_num_nodes());
                assert((net < m) != (p < m));
            }
            r.push((net, p));
            proof {
                assert(pins@.subrange(0, j + 1).map_values(|p: usize| (net, p)) =~= pins@.subrange(
                    0,
                    j as int,
                ).map_values(|p: usize| (net, p)).push((net, p)));
            }
            j = j + 1;
        }
        proof {
            assert(pins@.subrange(0, pins@.len() as int) =~= pins@);
            assert(net == (g.spec_num_modules() + (k + 1) - 1) as usize);
        }
        k = k + 1;
    }
    r
}

/// The weight of module `v`: its entry of `module_weight`, or 1 beyond it.
pub open spec fn cell_weight(module_weight: Seq<u32>, v: usize) -> int {
    if v < module_weight.len() {
        module_weight[v as int] as int
    } else {
        1
    }
}

/// The summed weight of the first `j` pins of `pins`.
pub open spec fn pins_weight(module_weight: Seq<u32>, pins: Seq<usize>, j: int) -> int
    decreases j,
{
    if j <= 0 {
        0
    } else {
        pins_weight(module_weight, pins, j - 1) + cell_weight(module_weight, pins[j - 1])
    }
}

/// The weight of the cluster that `net` would become: the summed weight of
/// its modules.
pub open spec fn cluster_weight<G: Hypergraph>(g: &G, module_weight: Seq<u32>, net: usize) -> int {
    pins_weight(module_weight, g.spec_neighbors(net), g.spec_neighbors(net).len() as int)
}

/// The weight of the cluster of each net, net by net.
fn cluster_weights<G: Hypergraph>(g: &G, module_weight: &[u32]) -> (r: Vec<u32>)
    requires
        g.wf(),
        forall|k: int|
            0 <= k < net_count(g) ==> #[trigger] cluster_weight(
                g,
                module_weight@,
                (g.spec_num_modules() + k) as usize,
            ) <= u32::MAX,
    ensures
        r@.len() == net_count(g),
        forall|k: int|
            0 <= k < r@.len() ==> (#[trigger] r@[k]) == cluster_weight(
                g,
                module_weight@,
                (g.spec_num_modules() + k) as usize,
            ),
{
    proof {
        g.lemma_node_counts();
    }
    let nets = g.nets();
    let mut r: Vec<u32> = Vec::new();
    let mut k: usize = 0;
    while k < nets.len()
        invariant
            g.wf(),
            nets@.len() == net_count(g),
            forall|q: int| 0 <= q < nets@.len() ==> nets@[q] == g.spec_num_modules() + q,
            k <= nets@.len(),
            r@.len() == k,
            forall|q: int|
                0 <= q < k ==> (#[trigger] r@[q]) == cluster_weight(
                    g,
                    module_weight@,
                    (g.spec_num_modules() + q) as usize,
                ),
            forall|q: int|
                0 <= q < net_count(g) ==> #[trigger] cluster_weight(
                    g,
                    module_weight@,
                    (g.spec_num_modules() + q) as usize,
                ) <= u32::MAX,
        decreases nets@.len() - k,
    {
        let net = nets[k];
        let pins = g.neighbors(net);
        let mut w: u32 = 0;
        let mut j: usize = 0;
        proof {
            assert(net == (g.spec_num_modules() + k) as usize);
            assert(cluster_weight(g, module_weight@, net) <= u32::MAX);
        }
        while j < pins.len()
            invariant
                pins@ == g.spec_neighbors(net),
                j <= pins@.len(),
                w == pins_weight(module_weight@, pins@, j as int),
                pins_weight(module_weight@, pins@, pins@.len() as int) <= u32::MAX,
            decreases pins@.len() - j,
        {
            let v = pins[j];
            proof {
                lemma_pins_weight_mono(module_weight@, pins@, j + 1, pins@.len() as int);
            }
            let cw = if v < module_weight.len() {
                module_weight[v]
            } else {
                1
            };
            w = w + cw;
            j = j + 1;
        }
        r.push(w);
        k = k + 1;
    }
    r
}

/// Pin weights only grow with the number of pins counted.
proof fn lemma_pins_weight_mono(module_weight: Seq<u32>, pins: Seq<usize>, a: int, b: int)
    requires
        a <= b,
    ensures
        pins_weight(module_weight, pins, a) <= pins_weight(module_weight, pins, b),
    decreases b - a,
{
    if a < b {
        lemma_pins_weight_mono(module_weight, pins, a, b - 1);
    }
}

/// The hash of `x` under seed `seed`: `seed` xor-ed with `x` plus a fixed
/// odd constant plus `seed` shifted left by 6 and right by 2.
pub open spec fn seeded_hash(x: u32, seed: u64) -> u64 {
    seed ^ ((x as u64 + 0x9e3779b97f4a7c15u64 + (seed << 6u64) + (seed >> 2u64)) as u64)
}

/// `x` mixed with `seed`, one of the hashes of a MinHash signature.
fn hash_with_seed(x: u32, seed: u64) -> (r: u64)
    requires
        seed < MINHASH_SIG_SIZE,
    ensures
        r == seeded_hash(x, seed),
{
    let mut h = seed;
    assert((seed << 6u64) <= 4032 && (seed >> 2u64) <= 15) by (bit_vector)
        requires
            seed < 64,
    ;
    let a = (x as u64).wrapping_add(0x9e3779b97f4a7c15);
    assert(a == x as u64 + 0x9e3779b97f4a7c15u64);
    h = h ^ (a + (h << 6u64) + (h >> 2u64));
    h
}

/// The least hash under `seed` of the first `j` pins of `pins` (each pin
/// read as a `u32`), or `u64::MAX`.
pub open spec fn min_hash(pins: Seq<usize>, seed: u64, j: int) -> u64
    decreases j,
{
    if j <= 0 {
        u64::MAX
    } else {
        let h = seeded_hash(pins[j - 1] as u32, seed);
        let m = min_hash(pins, seed, j - 1);
        if h < m {
            h
        } else {
            m
        }
    }
}

/// The MinHash signature of the pins `pins`: for each seed, the least hash
/// of a pin.
fn minhash_signature(pins: &Vec<usize>) -> (r: Vec<u64>)
    ensures
        r@.len() == MINHASH_SIG_SIZE,
        forall|i: int| 0 <= i < MINHASH_SIG_SIZE ==> #[trigger] r@[i] == min_hash(pins@, i as u64, pins@.len() as int),
{
    let mut sig: Vec<u64> = vec![u64::MAX; MINHASH_SIG_SIZE];
    let mut q: usize = 0;
    while q < pins.len()
        invariant
            sig@.len() == MINHASH_SIG_SIZE,
            q <= pins@.len(),
            forall|i: int| 0 <= i < MINHASH_SIG_SIZE ==> #[trigger] sig@[i] == min_hash(pins@, i as u64, q as int),
        decreases pins@.len() - q,
    {
        let x = pins[q] as u32;
        let mut i: usize = 0;
        while i < MINHASH_SIG_SIZE
            invariant
                sig@.len() == MINHASH_SIG_SIZE,
                q < pins@.len(),
                x == pins@[q as int] as u32,
                i <= MINHASH_SIG_SIZE,
                forall|t: int|
                    0 <= t < MINHASH_SIG_SIZE ==> #[trigger] sig@[t] == if t < i {
                        min_hash(pins@, t as u64, q + 1)
                    } else {
                        min_hash(pins@, t as u64, q as int)
                    },
            decreases MINHASH_SIG_SIZE - i,
        {
            let h = hash_with_seed(x, i as u64);
            if h < sig[i] {
                sig.set(i, h);
            }
            i = i + 1;
        }
        q = q + 1;
    }
    sig
}

/// Whether every pin of `a` is a pin of `b`.
fn all_pins_in(a: &Vec<usize>, b: &Vec<usize>) -> (r: bool)
    ensures
        r == forall|i: int| 0 <= i < a@.len() ==> b@.contains(#[trigger] a@[i]),
{
    let mut i: usize = 0;
    while i < a.len()
        invariant
            i <= a@.len(),
            forall|q: int| 0 <= q < i ==> b@.contains(#[trigger] a@[q]),
        decreases a@.len() - i,
    {
        let x = a[i];
        let mut j: usize = 0;
        let mut found = false;
        while j < b.len()
            invariant
                j <= b@.len(),
                found == exists|t: int| 0 <= t < j && b@[t] == x,
            decreases b@.len() - j,
        {
            if b[j] == x {
                found = true;
            }
            j = j + 1;
        }
        if !found {
            proof {
                assert(!b@.contains(a@[i as int]));
            }
            return false;
        }
        proof {
            let t = choose|t: int| 0 <= t < j && b@[t] == x;
            assert(b@.contains(a@[i as int]));
        }
        i = i + 1;
    }
    true
}

/// How many of the first `k` seeds give the pins `a` and `b` the same
/// least hash.
pub open spec fn agreeing_seeds(a: Seq<usize>, b: Seq<usize>, k: int) -> int
    decreases k,
{
    if k <= 0 {
        0
    } else {
        agreeing_seeds(a, b, k - 1) + if min_hash(a, (k - 1) as u64, a.len() as int) == min_hash(
            b,
            (k - 1) as u64,
            b.len() as int,
        ) {
            1int
        } else {
            0int
        }
    }
}

/// Whether nets with pins `a` and `b` (of one degree) are taken for
/// duplicates: up to `LOW_PIN_NET_THRESHOLD` pins when every pin of `a` is a
/// pin of `b`; up to `MINHASH_MAX_DEGREE` pins when besides at least 80% of
/// their MinHash signatures agree; never beyond.
pub open spec fn same_pins_spec(a: Seq<usize>, b: Seq<usize>) -> bool {
    let all_in = forall|i: int| 0 <= i < a.len() ==> b.contains(#[trigger] a[i]);
    if a.len() <= LOW_PIN_NET_THRESHOLD {
        all_in
    } else if a.len() <= MINHASH_MAX_DEGREE {
        5 * agreeing_seeds(a, b, MINHASH_SIG_SIZE as int) >= 4 * MINHASH_SIG_SIZE && all_in
    } else {
        false
    }
}

/// Whether the nets with pins `a` and `b` (of one degree) are taken for
/// duplicates: up to `LOW_PIN_NET_THRESHOLD` pins they are when every pin
/// of `a` is a pin of `b`; up to `MINHASH_MAX_DEGREE` pins, when besides at
/// least 80% of their MinHash signatures agree; never beyond.
fn same_pins(a: &Vec<usize>, b: &Vec<usize>) -> (r: bool)
    requires
        a@.len() == b@.len(),
    ensures
        r == same_pins_spec(a@, b@),
        r ==> a@.len() <= MINHASH_MAX_DEGREE && forall|i: int| 0 <= i < a@.len() ==> b@.contains(#[trigger] a@[i]),
        a@.len() <= LOW_PIN_NET_THRESHOLD ==> (r == forall|i: int|
            0 <= i < a@.len() ==> b@.contains(#[trigger] a@[i])),
        LOW_PIN_NET_THRESHOLD < a@.len() <= MINHASH_MAX_DEGREE ==> (r == (5 * agreeing_seeds(
            a@,
            b@,
            MINHASH_SIG_SIZE as int,
        ) >= 4 * MINHASH_SIG_SIZE && forall|i: int| 0 <= i < a@.len() ==> b@.contains(#[trigger] a@[i]))),
{
    let deg = a.len();
    if deg <= LOW_PIN_NET_THRESHOLD {
        all_pins_in(a, b)
    } else if deg <= MINHASH_MAX_DEGREE {
        let s1 = minhash_signature(a);
        let s2 = minhash_signature(b);
        let mut matches: usize = 0;
        let mut i: usize = 0;
        while i < MINHASH_SIG_SIZE
            invariant
                s1@.len() == MINHASH_SIG_SIZE,
                s2@.len() == MINHASH_SIG_SIZE,
                matches <= i <= MINHASH_SIG_SIZE,
                forall|t: int| 0 <= t < MINHASH_SIG_SIZE ==> #[trigger] s1@[t] == min_hash(a@, t as u64, a@.len() as int),
                forall|t: int| 0 <= t < MINHASH_SIG_SIZE ==> #[trigger] s2@[t] == min_hash(b@, t as u64, b@.len() as int),
                matches == agreeing_seeds(a@, b@, i as int),
            decreases MINHASH_SIG_SIZE - i,
        {
            if s1[i] == s2[i] {
                matches = matches + 1;
            }
            i = i + 1;
        }
        if 5 * matches >= 4 * MINHASH_SIG_SIZE {
            all_pins_in(a, b)
        } else {
            false
        }
    } else {
        false
    }
}

/// Node `x` is a neighbour of one of the `num_clusters` cluster nodes, the
/// last module nodes before `num_modules`.
pub open spec fn near_cluster(g: petgraph::Graph<(), (), petgraph::Undirected>, num_modules: int, num_clusters: int, x: usize) -> bool {
    exists|c: int|
        num_modules - num_clusters <= c < num_modules && #[trigger] neighbor_order(g, c as usize).contains(x)
}

/// The weights of the nets and which of them have gone, while the nets next
/// to the clusters are merged.
pub type PurgeState = (Seq<u32>, Seq<bool>);

/// Comparing net `n1` (pins `nb1`) with a net `n2` next to the same
/// cluster: where `n2` is another net with the same pins, it goes and its
/// weight is added to that of `n1` (held at `u32::MAX`).
pub open spec fn purge_pair(
    g: petgraph::Graph<(), (), petgraph::Undirected>,
    st: PurgeState,
    num_modules: int,
    total: int,
    n1: usize,
    nb1: Seq<usize>,
    n2: usize,
) -> PurgeState {
    if n2 != n1 && n2 < total && nb1.len() == neighbor_order(g, n2).len() && same_pins_spec(
        nb1,
        neighbor_order(g, n2),
    ) {
        let w2: u32 = if n2 >= num_modules {
            st.0[n2 - num_modules]
        } else {
            1u32
        };
        let gone = if n2 >= num_modules {
            st.1.update(n2 - num_modules, true)
        } else {
            st.1
        };
        let w1 = st.0[n1 - num_modules];
        (st.0.update(n1 - num_modules, w1.saturating_add(w2)), gone)
    } else {
        st
    }
}

/// Net `n1` compared in turn with the first `b` nets of `nets`.
pub open spec fn purge_compare_upto(
    g: petgraph::Graph<(), (), petgraph::Undirected>,
    st: PurgeState,
    num_modules: int,
    total: int,
    n1: usize,
    nets: Seq<usize>,
    b: int,
) -> PurgeState
    decreases b,
{
    if b <= 0 {
        st
    } else {
        purge_pair(
            g,
            purge_compare_upto(g, st, num_modules, total, n1, nets, b - 1),
            num_modules,
            total,
            n1,
            neighbor_order(g, n1),
            nets[b - 1],
        )
    }
}

/// Net `n1` next to cluster `c`, where it is a net that has not gone: with
/// a single pin it goes, else it is compared with every net next to `c`.
pub open spec fn purge_net(
    g: petgraph::Graph<(), (), petgraph::Undirected>,
    st: PurgeState,
    num_modules: int,
    total: int,
    c: usize,
    n1: usize,
) -> PurgeState {
    if num_modules <= n1 < total && !st.1[n1 - num_modules] {
        if neighbor_order(g, n1).len() == 1 {
            (st.0, st.1.update(n1 - num_modules, true))
        } else {
            let nets = neighbor_order(g, c);
            purge_compare_upto(g, st, num_modules, total, n1, nets, nets.len() as int)
        }
    } else {
        st
    }
}

/// The first `a` nets next to cluster `c`, taken in turn.
pub open spec fn purge_cluster_upto(
    g: petgraph::Graph<(), (), petgraph::Undirected>,
    st: PurgeState,
    num_modules: int,
    total: int,
    c: usize,
    a: int,
) -> PurgeState
    decreases a,
{
    if a <= 0 {
        st
    } else {
        purge_net(
            g,
            purge_cluster_upto(g, st, num_modules, total, c, a - 1),
            num_modules,
            total,
            c,
            neighbor_order(g, c)[a - 1],
        )
    }
}

/// The clusters `first .. c`, taken in turn.
pub open spec fn purge_upto(
    g: petgraph::Graph<(), (), petgraph::Undirected>,
    st: PurgeState,
    num_modules: int,
    total: int,
    first: int,
    c: int,
) -> PurgeState
    decreases c - first,
{
    if c <= first {
        st
    } else {
        let cc = (c - 1) as usize;
        purge_cluster_upto(
            g,
            purge_upto(g, st, num_modules, total, first, c - 1),
            num_modules,
            total,
            cc,
            neighbor_order(g, cc).len() as int,
        )
    }
}

/// The nets among `num_modules .. num_modules + k` that have not gone, in
/// order.
pub open spec fn kept_upto(gone: Seq<bool>, num_modules: int, k: int) -> Seq<usize>
    decreases k,
{
    if k <= 0 {
        Seq::empty()
    } else if !gone[k - 1] {
        kept_upto(gone, num_modules, k - 1).push((num_modules + k - 1) as usize)
    } else {
        kept_upto(gone, num_modules, k - 1)
    }
}

/// The weights and the nets that stay after the duplicate nets next to the
/// last `num_clusters` modules of `g` are merged, the nets being the nodes
/// from `num_modules` on with weights `net_weight`.
pub open spec fn purge_spec(
    g: petgraph::Graph<(), (), petgraph::Undirected>,
    net_weight: Seq<u32>,
    num_clusters: int,
    num_modules: int,
) -> (Seq<u32>, Seq<usize>) {
    let n = net_weight.len() as int;
    let st = purge_upto(
        g,
        (net_weight, Seq::new(n as nat, |i: int| false)),
        num_modules,
        num_modules + n,
        num_modules - num_clusters,
        num_modules,
    );
    (st.0, kept_upto(st.1, num_modules, n))
}

/// Merges the duplicate nets next to the clusters. The nets are the nodes
/// `num_modules ..` of `ugraph`, net `num_modules + i` weighing
/// `net_weight[i]`; the clusters are the last `num_clusters` module nodes.
/// For each net next to a cluster that has not gone yet: a net with a
/// single pin goes; otherwise each other net next to that cluster with the
/// same pins (as `same_pins` tells) goes, and its weight is added to the
/// first (held at `u32::MAX`), so one net of a set of duplicates stays.
/// Answers the weights and, in order, the nets that stay.
fn purge_duplicate_nets(
    ugraph: &petgraph::Graph<(), (), petgraph::Undirected>,
    net_weight: &Vec<u32>,
    num_clusters: usize,
    num_modules: usize,
) -> (r: (Vec<u32>, Vec<usize>))
    requires
        graph_node_count(*ugraph) == num_modules + net_weight@.len(),
        num_modules + net_weight@.len() < u32::MAX,
        num_clusters <= num_modules,
    ensures
        r.0@ == purge_spec(*ugraph, net_weight@, num_clusters as int, num_modules as int).0,
        r.1@ == purge_spec(*ugraph, net_weight@, num_clusters as int, num_modules as int).1,
        r.0@.len() == net_weight@.len(),
        forall|i: int| 0 <= i < net_weight@.len() ==> (#[trigger] r.0@[i]) >= net_weight@[i],
        forall|q: int|
            0 <= q < r.1@.len() ==> num_modules <= (#[trigger] r.1@[q]) < num_modules + net_weight@.len(),
        forall|q: int, t: int| 0 <= q < t < r.1@.len() ==> r.1@[q] < r.1@[t],
        r.1@.len() <= net_weight@.len(),
        forall|x: usize|
            num_modules <= x < num_modules + net_weight@.len() && !r.1@.contains(x) ==> near_cluster(
                *ugraph,
                num_modules as int,
                num_clusters as int,
                x,
            ),
{
    let n = net_weight.len();
    let total = num_modules + n;
    let mut weight = net_weight.clone();
    let mut removed: Vec<bool> = vec![false; n];
    let ghost edges = *ugraph;
    let ghost st0: PurgeState = (net_weight@, Seq::new(n as nat, |i: int| false));
    let ghost nm = num_modules as int;
    let ghost first = (num_modules - num_clusters) as int;
    proof {
        assert(removed@ =~= st0.1);
    }
    let mut c: usize = num_modules - num_clusters;
    while c < num_modules
        invariant
            weight@ == purge_upto(edges, st0, nm, total as int, first, c as int).0,
            removed@ == purge_upto(edges, st0, nm, total as int, first, c as int).1,
            nm == num_modules,
            first == num_modules - num_clusters,
            graph_node_count(*ugraph) == total,
            total == num_modules + n,
            n == net_weight@.len(),
            edges == *ugraph,
            num_modules - num_clusters <= c <= num_modules,
            weight@.len() == n,
            removed@.len() == n,
            forall|i: int| 0 <= i < n ==> (#[trigger] weight@[i]) >= net_weight@[i],
            forall|i: int|
                0 <= i < n && #[trigger] removed@[i] ==> near_cluster(
                    edges,
                    num_modules as int,
                    num_clusters as int,
                    (num_modules + i) as usize,
                ),
        decreases num_modules - c,
    {
        let nets = graph_neighbors(ugraph, c);
        let ghost st_c: PurgeState = (weight@, removed@);
        let mut a: usize = 0;
        while a < nets.len()
            invariant
                a <= nets@.len(),
                weight@ == purge_cluster_upto(edges, st_c, nm, total as int, c, a as int).0,
                removed@ == purge_cluster_upto(edges, st_c, nm, total as int, c, a as int).1,
                st_c == purge_upto(edges, st0, nm, total as int, first, c as int),
                nm == num_modules,
                first == num_modules - num_clusters,
                graph_node_count(*ugraph) == total,
                total == num_modules + n,
                n == net_weight@.len(),
                edges == *ugraph,
                num_modules - num_clusters <= c < num_modules,
                nets@ == neighbor_order(edges, c),
                weight@.len() == n,
                removed@.len() == n,
                forall|i: int| 0 <= i < n ==> (#[trigger] weight@[i]) >= net_weight@[i],
                forall|i: int|
                    0 <= i < n && #[trigger] removed@[i] ==> near_cluster(
                        edges,
                        num_modules as int,
                        num_clusters as int,
                        (num_modules + i) as usize,
                    ),
            decreases nets@.len() - a,
        {
            let n1 = nets[a];
            let ghost prev: PurgeState = (weight@, removed@);
            proof {
                assert(neighbor_order(edges, c).contains(n1));
            }
            if n1 >= num_modules && n1 < total && !removed[n1 - num_modules] {
                let nb1 = graph_neighbors(ugraph, n1);
                if nb1.len() == 1 {
                    removed.set(n1 - num_modules, true);
                    proof {
                        assert((num_modules + (n1 - num_modules)) as usize == n1);
                        assert(neighbor_order(edges, (c as int) as usize).contains(n1));
                        assert(near_cluster(edges, num_modules as int, num_clusters as int, n1));
                    }
                } else {
                    let ghost st_a: PurgeState = (weight@, removed@);
                    let mut b: usize = 0;
                    while b < nets.len()
                        invariant
                            b <= nets@.len(),
                            weight@ == purge_compare_upto(edges, st_a, nm, total as int, n1, nets@, b as int).0,
                            removed@ == purge_compare_upto(edges, st_a, nm, total as int, n1, nets@, b as int).1,
                            !st_a.1[n1 - num_modules],
                            nb1@ == neighbor_order(edges, n1),
                            nb1@.len() != 1,
                            nm == num_modules,
                            graph_node_count(*ugraph) == total,
                            total == num_modules + n,
                            n == net_weight@.len(),
                            edges == *ugraph,
                            num_modules - num_clusters <= c < num_modules,
                            nets@ == neighbor_order(edges, c),
                            num_modules <= n1 < total,
                            weight@.len() == n,
                            removed@.len() == n,
                            forall|i: int| 0 <= i < n ==> (#[trigger] weight@[i]) >= net_weight@[i],
                            forall|i: int|
                                0 <= i < n && #[trigger] removed@[i] ==> near_cluster(
                                    edges,
                                    num_modules as int,
                                    num_clusters as int,
                                    (num_modules + i) as usize,
                                ),
                        decreases nets@.len() - b,
                    {
                        let n2 = nets[b];
                        proof {
                            assert(neighbor_order(edges, c).contains(n2));
                        }
                        if n2 != n1 && n2 < total {
                            let nb2 = graph_neighbors(ugraph, n2);
                            if nb1.len() == nb2.len() && same_pins(&nb1, &nb2) {
                                let w2 = if n2 >= num_modules {
                                    removed.set(n2 - num_modules, true);
                                    proof {
                                        assert((num_modules + (n2 - num_modules)) as usize == n2);
                                        assert(neighbor_order(edges, (c as int) as usize).contains(n2));
                                        assert(near_cluster(edges, num_modules as int, num_clusters as int, n2));
                                    }
                                    weight[n2 - num_modules]
                                } else {
                                    1
                                };
                                let w1 = weight[n1 - num_modules];
                                weight.set(n1 - num_modules, w1.saturating_add(w2));
                            }
                        }
                        b = b + 1;
                    }
                }
            }
            proof {
                assert(purge_cluster_upto(edges, st_c, nm, total as int, c, a + 1) == purge_net(
                    edges,
                    prev,
                    nm,
                    total as int,
                    c,
                    n1,
                ));
            }
            a = a + 1;
        }
        proof {
            assert(((c + 1) - 1) as usize == c);
            assert(purge_upto(edges, st0, nm, total as int, first, c + 1) == purge_cluster_upto(
                edges,
                st_c,
                nm,
                total as int,
                c,
                nets@.len() as int,
            ));
        }
        c = c + 1;
    }
    let mut kept: Vec<usize> = Vec::new();
    let mut i: usize = 0;
    while i < n
        invariant
            n == net_weight@.len(),
            total == num_modules + n,
            removed@.len() == n,
            i <= n,
            kept@.len() <= i,
            kept@ == kept_upto(removed@, num_modules as int, i as int),
            forall|q: int| 0 <= q < kept@.len() ==> num_modules <= (#[trigger] kept@[q]) < num_modules + i,
            forall|q: int, t: int| 0 <= q < t < kept@.len() ==> kept@[q] < kept@[t],
            forall|j: int| 0 <= j < i && !removed@[j] ==> kept@.contains((num_modules + j) as usize),
        decreases n - i,
    {
        let ghost k0 = kept@;
        if !removed[i] {
            kept.push(num_modules + i);
            proof {
                assert(kept@[kept@.len() - 1] == num_modules + i);
                assert forall|j: int| 0 <= j < i && !removed@[j] implies kept@.contains(
                    (num_modules + j) as usize,
                ) by {
                    let t = choose|t: int| 0 <= t < k0.len() && k0[t] == (num_modules + j) as usize;
                    assert(kept@[t] == k0[t]);
                }
            }
        }
        i = i + 1;
    }
    proof {
        assert forall|x: usize|
            num_modules <= x < num_modules + net_weight@.len() && !kept@.contains(x) implies near_cluster(
            *ugraph,
            num_modules as int,
            num_clusters as int,
            x,
        ) by {
            let j = x - num_modules;
            assert((num_modules + j) as usize == x);
            assert(removed@[j]);
        }
    }
    (weight, kept)
}

/// The nets among the first `k` nets of `g` that `matched` holds, in order:
/// the nets that become clusters.
pub open spec fn clusters_upto<G: Hypergraph>(g: &G, matched: Set<usize>, k: int) -> Seq<usize>
    decreases k,
{
    if k <= 0 {
        Seq::empty()
    } else {
        let net = (g.spec_num_modules() + k - 1) as usize;
        if matched.contains(net) {
            clusters_upto(g, matched, k - 1).push(net)
        } else {
            clusters_upto(g, matched, k - 1)
        }
    }
}

/// The nets among the first `k` nets of `g` that `matched` does not hold,
/// in order: the nets that are rebuilt over the new modules.
pub open spec fn remaining_upto<G: Hypergraph>(g: &G, matched: Set<usize>, k: int) -> Seq<usize>
    decreases k,
{
    if k <= 0 {
        Seq::empty()
    } else {
        let net = (g.spec_num_modules() + k - 1) as usize;
        if matched.contains(net) {
            remaining_upto(g, matched, k - 1)
        } else {
            remaining_upto(g, matched, k - 1).push(net)
        }
    }
}

/// Module `v` is a pin of one of the nets `clusters`.
pub open spec fn covered_by<G: Hypergraph>(g: &G, clusters: Seq<usize>, v: usize) -> bool {
    exists|i: int| 0 <= i < clusters.len() && #[trigger] g.spec_neighbors(clusters[i]).contains(v)
}

/// The modules below `k` that no net of `clusters` covers, in order: the
/// cells.
pub open spec fn cells_upto<G: Hypergraph>(g: &G, clusters: Seq<usize>, k: int) -> Seq<usize>
    decreases k,
{
    if k <= 0 {
        Seq::empty()
    } else if covered_by(g, clusters, (k - 1) as usize) {
        cells_upto(g, clusters, k - 1)
    } else {
        cells_upto(g, clusters, k - 1).push((k - 1) as usize)
    }
}

/// The module weights after contraction: the cells' weights, then each
/// cluster's weight (the summed weight of its modules).
pub open spec fn contracted_weights<G: Hypergraph>(g: &G, module_weight: Seq<u32>, matched: Set<usize>) -> Seq<u32> {
    let cl = clusters_upto(g, matched, net_count(g));
    let ce = cells_upto(g, cl, g.spec_num_modules() as int);
    ce.map_values(|v: usize| cell_weight(module_weight, v) as u32) + cl.map_values(
        |net: usize| cluster_weight(g, module_weight, net) as u32,
    )
}

/// The last of the first `k` nets of `clusters` that has `v` as a pin, or -1.
pub open spec fn last_cover<G: Hypergraph>(g: &G, clusters: Seq<usize>, v: usize, k: int) -> int
    decreases k,
{
    if k <= 0 {
        -1
    } else if g.spec_neighbors(clusters[k - 1]).contains(v) {
        k - 1
    } else {
        last_cover(g, clusters, v, k - 1)
    }
}

/// The module of the contracted netlist that module `v` goes to: after the
/// cells, the module of the last cluster whose net has `v` as a pin; else
/// the position of `v` among the cells.
pub open spec fn new_module<G: Hypergraph>(g: &G, clusters: Seq<usize>, v: usize) -> int {
    let lc = last_cover(g, clusters, v, clusters.len() as int);
    if lc >= 0 {
        cells_upto(g, clusters, g.spec_num_modules() as int).len() + lc
    } else {
        cells_upto(g, clusters, v as int).len() as int
    }
}

/// The pins `pins` sent to the modules of the contracted netlist.
pub open spec fn mapped_pins<G: Hypergraph>(g: &G, clusters: Seq<usize>, pins: Seq<usize>) -> Seq<usize> {
    pins.map_values(|p: usize| new_module(g, clusters, p) as usize)
}

/// The number of pins of the first `k` nets of `nets`.
pub open spec fn degree_sum<G: Hypergraph>(g: &G, nets: Seq<usize>, k: int) -> int
    decreases k,
{
    if k <= 0 {
        0
    } else {
        degree_sum(g, nets, k - 1) + g.spec_neighbors(nets[k - 1]).len()
    }
}

/// The net node `q` of the contracted netlist with pins `edges` has, counted
/// with multiplicity, the new modules of the pins of one of the nets `rest`
/// of `g` as its pins.
pub open spec fn rebuilt_from<G: Hypergraph>(
    g: &G,
    clusters: Seq<usize>,
    rest: Seq<usize>,
    edges: Seq<(usize, usize)>,
    q: usize,
) -> bool {
    exists|s: int|
        0 <= s < rest.len() && adjacency(edges, q) == #[trigger] mapped_pins(
            g,
            clusters,
            g.spec_neighbors(rest[s]),
        ).to_multiset()
}

/// Where the clusters among the first `t` send module `p`: the module of the
/// last one whose net has `p` as a pin, or nowhere (`usize::MAX`).
pub open spec fn cover_up<G: Hypergraph>(g: &G, clusters: Seq<usize>, num_cells: int, p: usize, t: int) -> usize {
    if last_cover(g, clusters, p, t) >= 0 {
        (num_cells + last_cover(g, clusters, p, t)) as usize
    } else {
        usize::MAX
    }
}

/// Sums of degrees grow with the number of nets.
proof fn lemma_degree_sum_mono<G: Hypergraph>(g: &G, nets: Seq<usize>, a: int, b: int)
    requires
        0 <= a <= b,
    ensures
        degree_sum(g, nets, a) <= degree_sum(g, nets, b),
    decreases b - a,
{
    if a < b {
        lemma_degree_sum_mono(g, nets, a, b - 1);
    }
}

/// The last cluster found among the first `k` is one of them, and there is
/// one exactly where one of them covers `v`.
proof fn lemma_last_cover<G: Hypergraph>(g: &G, clusters: Seq<usize>, v: usize, k: int)
    requires
        0 <= k <= clusters.len(),
    ensures
        -1 <= last_cover(g, clusters, v, k) < k,
        last_cover(g, clusters, v, k) >= 0 <==> covered_by(g, clusters.subrange(0, k), v),
    decreases k,
{
    if k > 0 {
        lemma_last_cover(g, clusters, v, k - 1);
        let s0 = clusters.subrange(0, k - 1);
        let s1 = clusters.subrange(0, k);
        if covered_by(g, s0, v) {
            let i = choose|i: int| 0 <= i < s0.len() && #[trigger] g.spec_neighbors(s0[i]).contains(v);
            assert(s1[i] == s0[i]);
        }
        if covered_by(g, s1, v) {
            let i = choose|i: int| 0 <= i < s1.len() && #[trigger] g.spec_neighbors(s1[i]).contains(v);
            if i < k - 1 {
                assert(s0[i] == s1[i]);
            }
        }
        if g.spec_neighbors(clusters[k - 1]).contains(v) {
            assert(s1[k - 1] == clusters[k - 1]);
        }
    }
}

/// The `t`-th cell below `k` is a module below `k` that no cluster covers,
/// with `t` cells before it.
proof fn lemma_cell_at<G: Hypergraph>(g: &G, clusters: Seq<usize>, k: int, t: int)
    requires
        0 <= t < cells_upto(g, clusters, k).len(),
        k <= usize::MAX,
    ensures
        !covered_by(g, clusters, cells_upto(g, clusters, k)[t]),
        cells_upto(g, clusters, k)[t] < k,
        cells_upto(g, clusters, cells_upto(g, clusters, k)[t] as int).len() == t,
    decreases k,
{
    if k > 0 {
        let c0 = cells_upto(g, clusters, k - 1);
        if t < c0.len() {
            lemma_cell_at(g, clusters, k - 1, t);
            assert(cells_upto(g, clusters, k)[t] == c0[t]);
        } else {
            assert(!covered_by(g, clusters, (k - 1) as usize));
            assert(cells_upto(g, clusters, k) == c0.push((k - 1) as usize));
            assert(cells_upto(g, clusters, k)[t] == (k - 1) as usize);
        }
    }
}

/// A module `v < k` that no cluster covers is the cell at its position.
proof fn lemma_cell_index<G: Hypergraph>(g: &G, clusters: Seq<usize>, v: usize, k: int)
    requires
        0 <= v < k <= usize::MAX,
        !covered_by(g, clusters, v),
    ensures
        cells_upto(g, clusters, v as int).len() < cells_upto(g, clusters, k).len(),
        cells_upto(g, clusters, k)[cells_upto(g, clusters, v as int).len() as int] == v,
    decreases k,
{
    if k - 1 > v {
        lemma_cell_index(g, clusters, v, k - 1);
        lemma_cells_prefix(g, clusters, k - 1);
    }
}

/// The cells below `k - 1` start the cells below `k`.
proof fn lemma_cells_prefix<G: Hypergraph>(g: &G, clusters: Seq<usize>, k: int)
    requires
        k >= 0,
    ensures
        cells_upto(g, clusters, k + 1).len() >= cells_upto(g, clusters, k).len(),
        forall|i: int|
            0 <= i < cells_upto(g, clusters, k).len() ==> cells_upto(g, clusters, k + 1)[i] == cells_upto(
                g,
                clusters,
                k,
            )[i],
{
}

/// Every module goes to a module of the contracted netlist.
proof fn lemma_new_module_bound<G: Hypergraph>(g: &G, clusters: Seq<usize>, v: usize)
    requires
        v < g.spec_num_modules() <= usize::MAX,
    ensures
        0 <= new_module(g, clusters, v) < cells_upto(g, clusters, g.spec_num_modules() as int).len()
            + clusters.len(),
{
    lemma_last_cover(g, clusters, v, clusters.len() as int);
    assert(clusters.subrange(0, clusters.len() as int) =~= clusters);
    if last_cover(g, clusters, v, clusters.len() as int) < 0 {
        lemma_cell_index(g, clusters, v, g.spec_num_modules() as int);
    }
}

/// The first pin of each of the first `k` nets of `clusters` that has a
/// pin, in order: the modules of the level below that the clusters stand
/// for.
pub open spec fn first_pins<G: Hypergraph>(g: &G, clusters: Seq<usize>, k: int) -> Seq<usize>
    decreases k,
{
    if k <= 0 {
        Seq::empty()
    } else if g.spec_neighbors(clusters[k - 1]).len() > 0 {
        first_pins(g, clusters, k - 1).push(g.spec_neighbors(clusters[k - 1])[0])
    } else {
        first_pins(g, clusters, k - 1)
    }
}

/// Every pin of `edges` joins a module below `num_modules` to a net node
/// from `num_modules` up to `num_nodes`.
pub open spec fn pins_between(edges: Seq<(usize, usize)>, num_modules: int, num_nodes: int) -> bool {
    forall|i: int|
        0 <= i < edges.len() ==> (#[trigger] edges[i]).0 < num_modules && num_modules <= edges[i].1 < num_nodes
}

/// Contracts `g` with the nets `matched` as clusters. The modules of the
/// result are the cells (the modules no cluster covers), in order, then one
/// per cluster, in net order, weighing the summed weight of the cluster's
/// modules; the nets are the other nets over the new modules (a pin goes to
/// its cell, or to the cluster that covers it, the last one where several
/// do), with the duplicates next to the clusters merged by
/// `purge_duplicate_nets`. A merged net's weight is listed under its node.
/// Answers the contracted netlist and its module weights.
pub fn contract_with_matching<G: Hypergraph>(g: &G, module_weight: &[u32], matched: &[usize]) -> (r: (
    HierNetlist,
    Vec<u32>,
))
    requires
        g.wf(),
        is_netlist(g),
        g.spec_num_nodes() < u32::MAX,
        forall|k: int|
            0 <= k < net_count(g) ==> #[trigger] cluster_weight(
                g,
                module_weight@,
                (g.spec_num_modules() + k) as usize,
            ) <= u32::MAX,
    ensures
        r.1@ == contracted_weights(g, module_weight@, matched@.to_set()),
        r.0.inv(),
        r.0.parent is None,
        r.0.num_modules == r.1@.len(),
        r.0.module_weight@ == r.1@,
        r.0.clusters@ == clusters_upto(g, matched@.to_set(), net_count(g)),
        r.0.num_modules <= graph_node_count(r.0.gr) <= r.0.num_modules + remaining_upto(
            g,
            matched@.to_set(),
            net_count(g),
        ).len(),
        pins_between(graph_edges(r.0.gr), r.0.num_modules as int, graph_node_count(r.0.gr) as int),
        forall|k: usize|
            #[trigger] r.0.net_weight@.dom().contains(k) ==> r.0.num_modules <= k < graph_node_count(r.0.gr),
        r.0.node_down_list@ == cells_upto(
            g,
            clusters_upto(g, matched@.to_set(), net_count(g)),
            g.spec_num_modules() as int,
        ) + first_pins(
            g,
            clusters_upto(g, matched@.to_set(), net_count(g)),
            clusters_upto(g, matched@.to_set(), net_count(g)).len() as int,
        ),
        degree_sum(
            g,
            remaining_upto(g, matched@.to_set(), net_count(g)),
            remaining_upto(g, matched@.to_set(), net_count(g)).len() as int,
        ) < 0xffff_fffe && graph_edges(r.0.gr).len() < 0xffff_fffe ==> forall|q: usize|
            r.0.num_modules <= q < graph_node_count(r.0.gr) ==> #[trigger] rebuilt_from(
                g,
                clusters_upto(g, matched@.to_set(), net_count(g)),
                remaining_upto(g, matched@.to_set(), net_count(g)),
                graph_edges(r.0.gr),
                q,
            ),
{
    proof {
        g.lemma_node_counts();
    }
    let ghost ms = matched@.to_set();
    let m = g.number_of_modules();
    let nets = g.nets();
    let n = nets.len();
    // which nets are matched
    let mut flag: Vec<bool> = vec![false; n];
    let mut q: usize = 0;
    while q < matched.len()
        invariant
            m == g.spec_num_modules(),
            n == net_count(g),
            flag@.len() == n,
            m + n == g.spec_num_nodes(),
            g.spec_num_nodes() < u32::MAX,
            q <= matched@.len(),
            forall|k: int| 0 <= k < n ==> #[trigger] flag@[k] == matched@.subrange(0, q as int).contains((m + k) as usize),
        decreases matched@.len() - q,
    {
        let x = matched[q];
        let ghost f0 = flag@;
        if x >= m && x - m < n {
            flag.set(x - m, true);
        }
        proof {
            assert forall|k: int| 0 <= k < n implies #[trigger] flag@[k] == matched@.subrange(0, q + 1).contains(
                (m + k) as usize,
            ) by {
                let s0 = matched@.subrange(0, q as int);
                assert(matched@.subrange(0, q + 1) =~= s0.push(x));
                if x >= m && x - m < n && k == x - m {
                    assert(s0.push(x)[s0.len() as int] == x);
                    assert(flag@[k]);
                } else {
                    assert(flag@[k] == f0[k]);
                    assert((m + k) as usize != x);
                }
                if s0.contains((m + k) as usize) {
                    let t = choose|t: int| 0 <= t < s0.len() && s0[t] == (m + k) as usize;
                    assert(s0.push(x)[t] == s0[t]);
                }
                if s0.push(x).contains((m + k) as usize) {
                    let t = choose|t: int| 0 <= t < s0.len() + 1 && s0.push(x)[t] == (m + k) as usize;
                    if t < s0.len() {
                        assert(s0[t] == s0.push(x)[t]);
                    }
                }
            }
        }
        q = q + 1;
    }
    proof {
        assert(matched@.subrange(0, matched@.len() as int) =~= matched@);
        assert forall|k: int| 0 <= k < n implies #[trigger] flag@[k] == ms.contains((m + k) as usize) by {}
    }
    // clusters and the other nets, in net order
    let mut clusters: Vec<usize> = Vec::new();
    let mut remaining: Vec<usize> = Vec::new();
    let mut k: usize = 0;
    while k < n
        invariant
            m == g.spec_num_modules(),
            n == net_count(g),
            nets@.len() == n,
            forall|t: int| 0 <= t < n ==> nets@[t] == m + t,
            flag@.len() == n,
            forall|t: int| 0 <= t < n ==> #[trigger] flag@[t] == ms.contains((m + t) as usize),
            k <= n,
            clusters@ == clusters_upto(g, ms, k as int),
            remaining@ == remaining_upto(g, ms, k as int),
            clusters@.len() + remaining@.len() == k,
            forall|t: int| 0 <= t < clusters@.len() ==> m <= #[trigger] clusters@[t] < m + k,
            forall|t: int| 0 <= t < remaining@.len() ==> m <= #[trigger] remaining@[t] < m + k,
        decreases n - k,
    {
        let net = nets[k];
        proof {
            assert((g.spec_num_modules() + (k + 1) - 1) as usize == net);
        }
        if flag[k] {
            clusters.push(net);
        } else {
            remaining.push(net);
        }
        k = k + 1;
    }
    let ghost cl = clusters@;
    let cw = cluster_weights(g, module_weight);
    // the modules the clusters cover
    let mut covered: Vec<bool> = vec![false; m];
    let mut i: usize = 0;
    while i < clusters.len()
        invariant
            g.wf(),
            is_netlist(g),
            m == g.spec_num_modules(),
            n == net_count(g),
            clusters@ == cl,
            forall|t: int| 0 <= t < cl.len() ==> m <= #[trigger] cl[t] < m + n,
            covered@.len() == m,
            i <= cl.len(),
            forall|v: int| 0 <= v < m ==> #[trigger] covered@[v] == covered_by(g, cl.subrange(0, i as int), v as usize),
        decreases cl.len() - i,
    {
        let net = clusters[i];
        let pins = g.neighbors(net);
        let mut j: usize = 0;
        while j < pins.len()
            invariant
                g.wf(),
                is_netlist(g),
                m == g.spec_num_modules(),
                m <= net < g.spec_num_nodes(),
                net == cl[i as int],
                i < cl.len(),
                pins@ == g.spec_neighbors(net),
                covered@.len() == m,
                j <= pins@.len(),
                forall|v: int|
                    0 <= v < m ==> #[trigger] covered@[v] == (covered_by(g, cl.subrange(0, i as int), v as usize)
                        || pins@.subrange(0, j as int).contains(v as usize)),
            decreases pins@.len() - j,
        {
            let p = pins[j];
            proof {
                assert(g.spec_neighbors(net)[j as int] == p);
                assert(p < g.spec_num_nodes());
            }
            covered.set(p, true);
            proof {
                assert forall|v: int| 0 <= v < m implies #[trigger] covered@[v] == (covered_by(
                    g,
                    cl.subrange(0, i as int),
                    v as usize,
                ) || pins@.subrange(0, j + 1).contains(v as usize)) by {
                    let s0 = pins@.subrange(0, j as int);
                    assert(pins@.subrange(0, j + 1) =~= s0.push(p));
                    if s0.contains(v as usize) {
                        let t = choose|t: int| 0 <= t < s0.len() && s0[t] == v as usize;
                        assert(s0.push(p)[t] == s0[t]);
                    }
                    if s0.push(p).contains(v as usize) && v != p {
                        let t = choose|t: int| 0 <= t < s0.len() + 1 && s0.push(p)[t] == v as usize;
                        assert(t < s0.len());
                        assert(s0[t] == s0.push(p)[t]);
                    }
                    if v == p {
                        assert(s0.push(p)[s0.len() as int] == p);
                    }
                }
            }
            j = j + 1;
        }
        proof {
            assert(pins@.subrange(0, pins@.len() as int) =~= pins@);
            assert forall|v: int| 0 <= v < m implies #[trigger] covered@[v] == covered_by(
                g,
                cl.subrange(0, i + 1),
                v as usize,
            ) by {
                let s0 = cl.subrange(0, i as int);
                let s1 = cl.subrange(0, i + 1);
                if covered_by(g, s0, v as usize) {
                    let t = choose|t: int| 0 <= t < s0.len() && #[trigger] g.spec_neighbors(s0[t]).contains(v as usize);
                    assert(s1[t] == s0[t]);
                }
                if covered_by(g, s1, v as usize) {
                    let t = choose|t: int| 0 <= t < s1.len() && #[trigger] g.spec_neighbors(s1[t]).contains(v as usize);
                    if t < i {
                        assert(s0[t] == s1[t]);
                    } else {
                        assert(s1[t] == net);
                    }
                }
                if pins@.contains(v as usize) {
                    assert(s1[i as int] == net);
                    assert(g.spec_neighbors(s1[i as int]).contains(v as usize));
                }
            }
        }
        i = i + 1;
    }
    proof {
        assert(cl.subrange(0, cl.len() as int) =~= cl);
    }
    // the cells
    let mut cells: Vec<usize> = Vec::new();
    let mut v: usize = 0;
    while v < m
        invariant
            m == g.spec_num_modules(),
            covered@.len() == m,
            forall|u: int| 0 <= u < m ==> #[trigger] covered@[u] == covered_by(g, cl, u as usize),
            v <= m,
            cells@ == cells_upto(g, cl, v as int),
            cells@.len() <= v,
            forall|t: int| 0 <= t < cells@.len() ==> (#[trigger] cells@[t]) < v,
        decreases m - v,
    {
        if !covered[v] {
            cells.push(v);
        }
        v = v + 1;
    }
    proof {
        assert(remaining@.len() + cl.len() == n);
        assert(m + n == g.spec_num_nodes());
    }
    let num_cells = cells.len();
    let num_clusters = clusters.len();
    let nm2 = num_cells + num_clusters;
    // the weights of the new modules
    let mut weight2: Vec<u32> = Vec::new();
    let mut t: usize = 0;
    while t < num_cells
        invariant
            cells@.len() == num_cells,
            t <= num_cells,
            weight2@ == cells@.subrange(0, t as int).map_values(|u: usize| cell_weight(module_weight@, u) as u32),
        decreases num_cells - t,
    {
        let u = cells[t];
        let w = if u < module_weight.len() {
            module_weight[u]
        } else {
            1
        };
        weight2.push(w);
        proof {
            assert(cells@.subrange(0, t + 1).map_values(|u: usize| cell_weight(module_weight@, u) as u32)
                =~= weight2@);
        }
        t = t + 1;
    }
    let ghost wcells = weight2@;
    let mut t: usize = 0;
    while t < num_clusters
        invariant
            g.wf(),
            m == g.spec_num_modules(),
            n == net_count(g),
            cells@.len() == num_cells,
            clusters@ == cl,
            cl.len() == num_clusters,
            forall|s: int| 0 <= s < cl.len() ==> m <= #[trigger] cl[s] < m + n,
            cw@.len() == n,
            forall|s: int|
                0 <= s < cw@.len() ==> (#[trigger] cw@[s]) == cluster_weight(
                    g,
                    module_weight@,
                    (g.spec_num_modules() + s) as usize,
                ),
            t <= num_clusters,
            wcells == cells@.map_values(|u: usize| cell_weight(module_weight@, u) as u32),
            weight2@ == wcells + cl.subrange(0, t as int).map_values(
                |net: usize| cluster_weight(g, module_weight@, net) as u32,
            ),
        decreases num_clusters - t,
    {
        let net = clusters[t];
        let w = cw[net - m];
        proof {
            assert((g.spec_num_modules() + (net - m)) as usize == net);
        }
        weight2.push(w);
        proof {
            assert(wcells + cl.subrange(0, t + 1).map_values(|net: usize| cluster_weight(g, module_weight@, net) as u32)
                =~= weight2@);
        }
        t = t + 1;
    }
    proof {
        assert(cells@.subrange(0, num_cells as int) =~= cells@);
        assert(cl.subrange(0, num_clusters as int) =~= cl);
    }
    // where each module goes: its cell, or the (last) cluster covering it
    let mut up: Vec<usize> = vec![usize::MAX; m];
    let ghost nc = num_cells as int;
    let mut t: usize = 0;
    while t < num_clusters
        invariant
            g.wf(),
            is_netlist(g),
            m == g.spec_num_modules(),
            clusters@ == cl,
            cl.len() == num_clusters,
            forall|s: int| 0 <= s < cl.len() ==> m <= #[trigger] cl[s] < g.spec_num_nodes(),
            up@.len() == m,
            nm2 == num_cells + num_clusters,
            nm2 < u32::MAX,
            nc == num_cells,
            t <= num_clusters,
            forall|p: usize| p < m ==> #[trigger] up@[p as int] == cover_up(g, cl, nc, p, t as int),
        decreases num_clusters - t,
    {
        let pins = g.neighbors(clusters[t]);
        let mut j: usize = 0;
        while j < pins.len()
            invariant
                g.wf(),
                is_netlist(g),
                m == g.spec_num_modules(),
                t < cl.len(),
                pins@ == g.spec_neighbors(cl[t as int]),
                m <= cl[t as int] < g.spec_num_nodes(),
                up@.len() == m,
                nm2 == num_cells + num_clusters,
                nm2 < u32::MAX,
                nc == num_cells,
                t < num_clusters,
                j <= pins@.len(),
                forall|p: usize|
                    p < m ==> #[trigger] up@[p as int] == if pins@.subrange(0, j as int).contains(p) {
                        (nc + t) as usize
                    } else {
                        cover_up(g, cl, nc, p, t as int)
                    },
            decreases pins@.len() - j,
        {
            let p = pins[j];
            proof {
                assert(g.spec_neighbors(cl[t as int])[j as int] == p);
            }
            let ghost u0 = up@;
            up.set(p, num_cells + t);
            proof {
                let s0 = pins@.subrange(0, j as int);
                let s1 = pins@.subrange(0, j + 1);
                assert(s1 =~= s0.push(p));
                assert forall|x: usize| x < m implies #[trigger] up@[x as int] == if s1.contains(x) {
                    (nc + t) as usize
                } else {
                    cover_up(g, cl, nc, x, t as int)
                } by {
                    if x == p {
                        assert(s1[j as int] == p);
                    } else {
                        assert(up@[x as int] == u0[x as int]);
                        if s0.contains(x) {
                            let i = choose|i: int| 0 <= i < s0.len() && s0[i] == x;
                            assert(s1[i] == x);
                        }
                        if s1.contains(x) {
                            let i = choose|i: int| 0 <= i < s1.len() && s1[i] == x;
                            assert(i < j);
                            assert(s0[i] == x);
                        }
                    }
                }
            }
            j = j + 1;
        }
        proof {
            assert(pins@.subrange(0, pins@.len() as int) =~= pins@);
            assert forall|p: usize| p < m implies #[trigger] up@[p as int] == cover_up(g, cl, nc, p, t + 1) by {}
        }
        t = t + 1;
    }
    let mut t: usize = 0;
    while t < num_cells
        invariant
            m == g.spec_num_modules(),
            m <= usize::MAX,
            cells@.len() == num_cells,
            cells@ == cells_upto(g, cl, m as int),
            forall|s: int| 0 <= s < cells@.len() ==> (#[trigger] cells@[s]) < m,
            up@.len() == m,
            nc == num_cells,
            cl.len() == num_clusters,
            t <= num_cells,
            forall|p: usize|
                p < m ==> #[trigger] up@[p as int] == if !covered_by(g, cl, p) && cells_upto(g, cl, p as int).len()
                    < t {
                    cells_upto(g, cl, p as int).len() as usize
                } else {
                    cover_up(g, cl, nc, p, cl.len() as int)
                },
        decreases num_cells - t,
    {
        let c = cells[t];
        let ghost u0 = up@;
        proof {
            lemma_cell_at(g, cl, m as int, t as int);
        }
        up.set(cells[t], t);
        proof {
            assert forall|x: usize| x < m implies #[trigger] up@[x as int] == if !covered_by(g, cl, x) && cells_upto(
                g,
                cl,
                x as int,
            ).len() < t + 1 {
                cells_upto(g, cl, x as int).len() as usize
            } else {
                cover_up(g, cl, nc, x, cl.len() as int)
            } by {
                if x != c {
                    assert(up@[x as int] == u0[x as int]);
                    if !covered_by(g, cl, x) && cells_upto(g, cl, x as int).len() == t {
                        lemma_cell_index(g, cl, x, m as int);
                    }
                }
            }
        }
        t = t + 1;
    }
    proof {
        assert forall|p: usize| p < m implies #[trigger] up@[p as int] == new_module(g, cl, p) as usize by {
            lemma_last_cover(g, cl, p, cl.len() as int);
            assert(cl.subrange(0, cl.len() as int) =~= cl);
            lemma_new_module_bound(g, cl, p);
            if !covered_by(g, cl, p) {
                lemma_cell_index(g, cl, p, m as int);
            }
        }
        assert forall|p: usize| p < m implies #[trigger] new_module(g, cl, p) < nm2 by {
            lemma_new_module_bound(g, cl, p);
        }
    }
    // the other nets over the new modules
    let num_rem = remaining.len();
    let total = nm2 + num_rem;
    let mut ugraph = graph_new_undirected();
    let mut t: usize = 0;
    while t < total
        invariant
            t <= total,
            total < u32::MAX,
            graph_node_count(ugraph) == t,
            graph_edges(ugraph) == Seq::<(usize, usize)>::empty(),
        decreases total - t,
    {
        graph_add_node(&mut ugraph);
        t = t + 1;
    }
    let ghost rem = remaining@;
    let ghost small = degree_sum(g, rem, rem.len() as int) < 0xffff_fffe;
    let mut added: usize = 0;
    let mut t: usize = 0;
    while t < num_rem
        invariant
            g.wf(),
            is_netlist(g),
            m == g.spec_num_modules(),
            remaining@ == rem,
            remaining@.len() == num_rem,
            forall|s: int| 0 <= s < remaining@.len() ==> m <= #[trigger] remaining@[s] < g.spec_num_nodes(),
            up@.len() == m,
            forall|p: usize| p < m ==> #[trigger] up@[p as int] == new_module(g, cl, p) as usize,
            forall|p: usize| p < m ==> #[trigger] new_module(g, cl, p) < nm2,
            total == nm2 + num_rem,
            graph_node_count(ugraph) == total,
            graph_edges(ugraph).len() == added,
            t <= num_rem,
            small == (degree_sum(g, rem, rem.len() as int) < 0xffff_fffe),
            small ==> added == degree_sum(g, rem, t as int),
            small ==> forall|s: int|
                0 <= s < num_rem ==> #[trigger] adjacency(graph_edges(ugraph), (nm2 + s) as usize) == if s < t {
                    mapped_pins(g, cl, g.spec_neighbors(rem[s])).to_multiset()
                } else {
                    Multiset::<usize>::empty()
                },
            forall|i: int|
                0 <= i < graph_edges(ugraph).len() ==> (#[trigger] graph_edges(ugraph)[i]).0 < nm2 && nm2
                    <= graph_edges(ugraph)[i].1,
        decreases num_rem - t,
    {
        let pins = g.neighbors(remaining[t]);
        proof {
            lemma_degree_sum_mono(g, rem, t + 1, rem.len() as int);
            let mp = mapped_pins(g, cl, g.spec_neighbors(rem[t as int]));
            assert(mp.take(0) =~= Seq::<usize>::empty());
            assert(Seq::<usize>::empty().to_multiset() =~= Multiset::<usize>::empty()) by {
                broadcast use vstd::seq_lib::group_to_multiset_ensures;
            }
        }
        let mut j: usize = 0;
        while j < pins.len()
            invariant
                g.wf(),
                is_netlist(g),
                m == g.spec_num_modules(),
                t < num_rem,
                t < remaining@.len(),
                remaining@ == rem,
                pins@ == g.spec_neighbors(remaining@[t as int]),
                m <= remaining@[t as int] < g.spec_num_nodes(),
                up@.len() == m,
                forall|p: usize| p < m ==> #[trigger] up@[p as int] == new_module(g, cl, p) as usize,
            forall|p: usize| p < m ==> #[trigger] new_module(g, cl, p) < nm2,
                total == nm2 + num_rem,
                graph_node_count(ugraph) == total,
                graph_edges(ugraph).len() == added,
                j <= pins@.len(),
                small == (degree_sum(g, rem, rem.len() as int) < 0xffff_fffe),
                degree_sum(g, rem, t + 1) <= degree_sum(g, rem, rem.len() as int),
                small ==> added == degree_sum(g, rem, t as int) + j,
                small ==> forall|s: int|
                    0 <= s < num_rem ==> #[trigger] adjacency(graph_edges(ugraph), (nm2 + s) as usize) == if s < t {
                        mapped_pins(g, cl, g.spec_neighbors(rem[s])).to_multiset()
                    } else if s == t {
                        mapped_pins(g, cl, g.spec_neighbors(rem[s])).take(j as int).to_multiset()
                    } else {
                        Multiset::<usize>::empty()
                    },
                forall|i: int|
                    0 <= i < graph_edges(ugraph).len() ==> (#[trigger] graph_edges(ugraph)[i]).0 < nm2 && nm2
                        <= graph_edges(ugraph)[i].1,
            decreases pins@.len() - j,
        {
            let p = pins[j];
            proof {
                assert(g.spec_neighbors(remaining@[t as int])[j as int] == p);
                assert(g.spec_neighbors(remaining@[t as int]).contains(p));
            }
            let mapped = up[p];
            let ghost e0 = graph_edges(ugraph);
            if mapped < nm2 && added < 0xffff_fffe {
                graph_add_edge(&mut ugraph, mapped, nm2 + t);
                added = added + 1;
                proof {
                    let e1 = graph_edges(ugraph);
                    assert(e1.drop_last() =~= e0);
                    let mp = mapped_pins(g, cl, g.spec_neighbors(rem[t as int]));
                    assert(mp.take(j + 1) =~= mp.take(j as int).push(mp[j as int]));
                    assert(mp[j as int] == mapped);
                    if small {
                        assert forall|s: int| 0 <= s < num_rem implies #[trigger] adjacency(e1, (nm2 + s) as usize)
                            == if s < t {
                            mapped_pins(g, cl, g.spec_neighbors(rem[s])).to_multiset()
                        } else if s == t {
                            mapped_pins(g, cl, g.spec_neighbors(rem[s])).take(j + 1).to_multiset()
                        } else {
                            Multiset::<usize>::empty()
                        } by {
                            assert(adjacency(e1, (nm2 + s) as usize) == if e1.last().0 == (nm2 + s) as usize {
                                adjacency(e0, (nm2 + s) as usize).insert(e1.last().1)
                            } else if e1.last().1 == (nm2 + s) as usize {
                                adjacency(e0, (nm2 + s) as usize).insert(e1.last().0)
                            } else {
                                adjacency(e0, (nm2 + s) as usize)
                            });
                            assert(e1.last() == (mapped, (nm2 + t) as usize));
                            if s == t {
                                broadcast use vstd::seq_lib::group_to_multiset_ensures;
                                assert(mp.take(j as int).push(mp[j as int]).to_multiset() =~= mp.take(j as int).to_multiset().insert(mp[j as int]));
                            } else {
                                assert((nm2 + s) as usize != (nm2 + t) as usize);
                            }
                        }
                    }
                }
            } else {
                proof {
                    lemma_degree_sum_mono(g, rem, t + 1, rem.len() as int);
                    assert(!small);
                }
            }
            j = j + 1;
        }
        proof {
            let mp = mapped_pins(g, cl, g.spec_neighbors(rem[t as int]));
            assert(mp.take(mp.len() as int) =~= mp);
        }
        t = t + 1;
    }
    let ghost ug = ugraph;
    let mut rem_weight: Vec<u32> = Vec::new();
    let mut t: usize = 0;
    while t < num_rem
        invariant
            g.wf(),
            remaining@.len() == num_rem,
            rem_weight@.len() == t,
            t <= num_rem,
        decreases num_rem - t,
    {
        rem_weight.push(g.get_net_weight(remaining[t]));
        t = t + 1;
    }
    let (merged, kept) = purge_duplicate_nets(&ugraph, &rem_weight, num_clusters, nm2);
    // the contracted netlist
    let num_kept = kept.len();
    let mut hgr2 = HierNetlist::new(nm2, num_kept);
    let mut added: usize = 0;
    let ghost mut hit = false;
    proof {
        assert forall|t2: int| 0 <= t2 < num_kept implies #[trigger] adjacency(
            graph_edges(hgr2.gr),
            (nm2 + t2) as usize,
        ) == Multiset::<usize>::empty() by {
            assert(graph_edges(hgr2.gr) =~= Seq::<(usize, usize)>::empty());
        }
    }
    let mut t: usize = 0;
    while t < num_kept
        invariant
            hgr2.inv(),
            graph_node_count(hgr2.gr) == nm2 + num_kept,
            graph_edges(hgr2.gr).len() == added,
            pins_between(graph_edges(hgr2.gr), nm2 as int, (nm2 + num_kept) as int),
            hgr2.net_weight@ == Map::<usize, u32>::empty(),
            hgr2.num_modules == nm2,
            hgr2.parent is None,
            kept@.len() == num_kept,
            forall|q: int| 0 <= q < kept@.len() ==> nm2 <= (#[trigger] kept@[q]) < nm2 + num_rem,
            graph_node_count(ugraph) == total,
            total == nm2 + num_rem,
            ugraph == ug,
            t <= num_kept,
            added <= 0xffff_fffe,
            g.wf(),
            is_netlist(g),
            m == g.spec_num_modules(),
            num_rem == rem.len(),
            forall|s: int| 0 <= s < rem.len() ==> m <= #[trigger] rem[s] < g.spec_num_nodes(),
            forall|p: usize| p < m ==> #[trigger] new_module(g, cl, p) < nm2,
            small ==> forall|s: int|
                0 <= s < num_rem ==> #[trigger] adjacency(graph_edges(ug), (nm2 + s) as usize)
                    == mapped_pins(g, cl, g.spec_neighbors(rem[s])).to_multiset(),
            small && hit ==> added == 0xffff_fffe,
            small && !hit ==> forall|t2: int|
                0 <= t2 < num_kept ==> #[trigger] adjacency(graph_edges(hgr2.gr), (nm2 + t2) as usize) == if t2 < t {
                    adjacency(graph_edges(ug), kept@[t2])
                } else {
                    Multiset::<usize>::empty()
                },
        decreases num_kept - t,
    {
        let pins = graph_neighbors(&ugraph, kept[t]);
        proof {
            assert(pins@.take(0) =~= Seq::<usize>::empty());
            assert(Seq::<usize>::empty().to_multiset() =~= Multiset::<usize>::empty()) by {
                broadcast use vstd::seq_lib::group_to_multiset_ensures;
            }
        }
        let mut j: usize = 0;
        while j < pins.len()
            invariant
                hgr2.inv(),
                graph_node_count(hgr2.gr) == nm2 + num_kept,
                graph_edges(hgr2.gr).len() == added,
                pins_between(graph_edges(hgr2.gr), nm2 as int, (nm2 + num_kept) as int),
                hgr2.net_weight@ == Map::<usize, u32>::empty(),
                hgr2.num_modules == nm2,
                hgr2.parent is None,
                t < num_kept,
                j <= pins@.len(),
                pins@.to_multiset() == adjacency(graph_edges(ug), kept@[t as int]),
                kept@.len() == num_kept,
                forall|q: int| 0 <= q < kept@.len() ==> nm2 <= (#[trigger] kept@[q]) < nm2 + num_rem,
                added <= 0xffff_fffe,
                g.wf(),
                is_netlist(g),
                m == g.spec_num_modules(),
                num_rem == rem.len(),
                forall|s: int| 0 <= s < rem.len() ==> m <= #[trigger] rem[s] < g.spec_num_nodes(),
                forall|p: usize| p < m ==> #[trigger] new_module(g, cl, p) < nm2,
                small ==> forall|s: int|
                    0 <= s < num_rem ==> #[trigger] adjacency(graph_edges(ug), (nm2 + s) as usize)
                        == mapped_pins(g, cl, g.spec_neighbors(rem[s])).to_multiset(),
                small && hit ==> added == 0xffff_fffe,
                small && !hit ==> forall|t2: int|
                    0 <= t2 < num_kept ==> #[trigger] adjacency(graph_edges(hgr2.gr), (nm2 + t2) as usize) == if t2 < t {
                        adjacency(graph_edges(ug), kept@[t2])
                    } else if t2 == t {
                        pins@.take(j as int).to_multiset()
                    } else {
                        Multiset::<usize>::empty()
                    },
            decreases pins@.len() - j,
        {
            let p = pins[j];
            proof {
                if small {
                    broadcast use vstd::seq_lib::group_to_multiset_ensures;
                    assert(pins@.contains(p)) by {
                        assert(pins@[j as int] == p);
                    }
                    assert(pins@.to_multiset().count(p) > 0);
                    let s = kept@[t as int] - nm2;
                    assert((nm2 + s) as usize == kept@[t as int]);
                    let mp = mapped_pins(g, cl, g.spec_neighbors(rem[s]));
                    assert(mp.to_multiset().count(p) > 0);
                    assert(mp.contains(p));
                    let i = choose|i: int| 0 <= i < mp.len() && mp[i] == p;
                    let v = g.spec_neighbors(rem[s])[i];
                    assert(g.spec_neighbors(rem[s]).contains(v));
                    assert(v < m);
                    assert(new_module(g, cl, v) < nm2);
                    assert(p < nm2);
                }
            }
            let ghost e0 = graph_edges(hgr2.gr);
            if p < nm2 && added < 0xffff_fffe {
                hgr2.add_edge(p, nm2 + t);
                added = added + 1;
                proof {
                    let e1 = graph_edges(hgr2.gr);
                    assert(e1.drop_last() =~= e0);
                    assert(e1.last() == (p, (nm2 + t) as usize));
                    assert(pins@.take(j + 1) =~= pins@.take(j as int).push(p));
                    if small && !hit {
                        assert forall|t2: int| 0 <= t2 < num_kept implies #[trigger] adjacency(e1, (nm2 + t2) as usize)
                            == if t2 < t {
                            adjacency(graph_edges(ug), kept@[t2])
                        } else if t2 == t {
                            pins@.take(j + 1).to_multiset()
                        } else {
                            Multiset::<usize>::empty()
                        } by {
                            assert(adjacency(e1, (nm2 + t2) as usize) == if e1.last().0 == (nm2 + t2) as usize {
                                adjacency(e0, (nm2 + t2) as usize).insert(e1.last().1)
                            } else if e1.last().1 == (nm2 + t2) as usize {
                                adjacency(e0, (nm2 + t2) as usize).insert(e1.last().0)
                            } else {
                                adjacency(e0, (nm2 + t2) as usize)
                            });
                            if t2 == t {
                                broadcast use vstd::seq_lib::group_to_multiset_ensures;
                                assert(pins@.take(j as int).push(p).to_multiset() =~= pins@.take(j as int).to_multiset().insert(p));
                            } else {
                                assert((nm2 + t2) as usize != (nm2 + t) as usize);
                            }
                        }
                    }
                }
            } else {
                proof {
                    hit = true;
                }
            }
            j = j + 1;
        }
        proof {
            assert(pins@.take(pins@.len() as int) =~= pins@);
        }
        t = t + 1;
    }
    let ghost e2 = graph_edges(hgr2.gr);
    let mut t: usize = 0;
    while t < num_kept
        invariant
            kept@.len() == num_kept,
            forall|q: int| 0 <= q < kept@.len() ==> nm2 <= (#[trigger] kept@[q]) < nm2 + num_rem,
            merged@.len() == num_rem,
            graph_node_count(hgr2.gr) == nm2 + num_kept,
            graph_edges(hgr2.gr) == e2,
            pins_between(graph_edges(hgr2.gr), nm2 as int, (nm2 + num_kept) as int),
            forall|k: usize| #[trigger] hgr2.net_weight@.dom().contains(k) ==> nm2 <= k < nm2 + num_kept,
            hgr2.inv(),
            hgr2.num_modules == nm2,
            hgr2.parent is None,
            t <= num_kept,
        decreases num_kept - t,
    {
        let w = merged[kept[t] - nm2];
        if w != 1 {
            hgr2.net_weight.insert(nm2 + t, w);
        }
        t = t + 1;
    }
    // for each new module, a module of the level below it stands for
    let mut down: Vec<usize> = Vec::new();
    let mut t: usize = 0;
    while t < num_cells
        invariant
            cells@.len() == num_cells,
            t <= num_cells,
            down@ == cells@.subrange(0, t as int),
        decreases num_cells - t,
    {
        down.push(cells[t]);
        proof {
            assert(down@ =~= cells@.subrange(0, t + 1));
        }
        t = t + 1;
    }
    proof {
        assert(cells@.subrange(0, num_cells as int) =~= cells@);
        assert(down@ =~= cells@ + first_pins(g, cl, 0));
    }
    let mut t: usize = 0;
    while t < num_clusters
        invariant
            g.wf(),
            clusters@ == cl,
            cl.len() == num_clusters,
            forall|s: int| 0 <= s < cl.len() ==> m <= #[trigger] cl[s] < g.spec_num_nodes(),
            t <= num_clusters,
            down@ == cells@ + first_pins(g, cl, t as int),
        decreases num_clusters - t,
    {
        let pins = g.neighbors(clusters[t]);
        if pins.len() > 0 {
            down.push(pins[0]);
        }
        proof {
            assert(down@ =~= cells@ + first_pins(g, cl, t + 1));
        }
        t = t + 1;
    }
    hgr2.clusters = clusters;
    hgr2.node_down_list = down;
    hgr2.module_weight = weight2.clone();
    proof {
        if small && graph_edges(hgr2.gr).len() < 0xffff_fffe {
            assert(!hit);
            assert forall|q: usize|
                nm2 <= q < graph_node_count(hgr2.gr) implies #[trigger] rebuilt_from(
                g,
                cl,
                rem,
                graph_edges(hgr2.gr),
                q,
            ) by {
                let t2 = q - nm2;
                assert((nm2 + t2) as usize == q);
                let s = kept@[t2] - nm2;
                assert((nm2 + s) as usize == kept@[t2]);
                assert(adjacency(graph_edges(hgr2.gr), q) == mapped_pins(g, cl, g.spec_neighbors(rem[s])).to_multiset());
            }
        }
    }
    (hgr2, weight2)
}

/// The weights of the clusters of all nets, net by net.
pub open spec fn all_cluster_weights<G: Hypergraph>(g: &G, module_weight: Seq<u32>) -> Seq<u32> {
    Seq::new(
        net_count(g) as nat,
        |k: int| cluster_weight(g, module_weight, (g.spec_num_modules() + k) as usize) as u32,
    )
}

/// The nets that become clusters: those that the primal-dual matching over
/// the hypergraph's netlist picks with the cluster weights as net weights,
/// but the nets of `forbid`.
pub open spec fn chosen_clusters<G: Hypergraph>(g: &G, module_weight: Seq<u32>, forbid: Seq<usize>) -> Set<usize> {
    let m = g.spec_num_modules();
    let picked = primal_dual_matching(
        net_pin_edges(g, net_count(g)),
        m as usize,
        net_count(g) as usize,
        all_cluster_weights(g, module_weight),
    );
    Set::new(
        |net: usize|
            m <= net < m + net_count(g) && picked.contains((net - m) as usize) && !forbid.contains(net),
    )
}

/// Whether `x` is in `s`.
fn slice_contains(s: &[usize], x: usize) -> (r: bool)
    ensures
        r == s@.contains(x),
{
    let mut i: usize = 0;
    while i < s.len()
        invariant
            i <= s@.len(),
            forall|t: int| 0 <= t < i ==> s@[t] != x,
        decreases s@.len() - i,
    {
        if s[i] == x {
            return true;
        }
        i = i + 1;
    }
    false
}

/// Contracts the hypergraph: the nets that the primal-dual minimum-weight
/// maximal matching picks (weighing each net by the summed weight of its
/// modules), but those of `forbid`, become clusters, as
/// `contract_with_matching` describes. Answers the contracted netlist and
/// its module weights.
pub fn contract_subgraph<G: Hypergraph>(g: &G, module_weight: &[u32], forbid: &[usize]) -> (r: (
    HierNetlist,
    Vec<u32>,
))
    requires
        g.wf(),
        is_netlist(g),
        g.spec_num_nodes() < u32::MAX,
        net_pin_edges(g, net_count(g)).len() < u32::MAX,
        forall|k: int|
            0 <= k < net_count(g) ==> #[trigger] cluster_weight(
                g,
                module_weight@,
                (g.spec_num_modules() + k) as usize,
            ) * net_count(g) <= u32::MAX,
    ensures
        r.1@ == contracted_weights(g, module_weight@, chosen_clusters(g, module_weight@, forbid@)),
        r.0.inv(),
        r.0.parent is None,
        r.0.num_modules == r.1@.len(),
        r.0.module_weight@ == r.1@,
        r.0.clusters@ == clusters_upto(g, chosen_clusters(g, module_weight@, forbid@), net_count(g)),
        r.0.num_modules <= graph_node_count(r.0.gr) <= r.0.num_modules + remaining_upto(
            g,
            chosen_clusters(g, module_weight@, forbid@),
            net_count(g),
        ).len(),
        pins_between(graph_edges(r.0.gr), r.0.num_modules as int, graph_node_count(r.0.gr) as int),
        forall|k: usize|
            #[trigger] r.0.net_weight@.dom().contains(k) ==> r.0.num_modules <= k < graph_node_count(r.0.gr),
        r.0.node_down_list@ == cells_upto(
            g,
            clusters_upto(g, chosen_clusters(g, module_weight@, forbid@), net_count(g)),
            g.spec_num_modules() as int,
        ) + first_pins(
            g,
            clusters_upto(g, chosen_clusters(g, module_weight@, forbid@), net_count(g)),
            clusters_upto(g, chosen_clusters(g, module_weight@, forbid@), net_count(g)).len() as int,
        ),
        degree_sum(
            g,
            remaining_upto(g, chosen_clusters(g, module_weight@, forbid@), net_count(g)),
            remaining_upto(g, chosen_clusters(g, module_weight@, forbid@), net_count(g)).len() as int,
        ) < 0xffff_fffe && graph_edges(r.0.gr).len() < 0xffff_fffe ==> forall|q: usize|
            r.0.num_modules <= q < graph_node_count(r.0.gr) ==> #[trigger] rebuilt_from(
                g,
                clusters_upto(g, chosen_clusters(g, module_weight@, forbid@), net_count(g)),
                remaining_upto(g, chosen_clusters(g, module_weight@, forbid@), net_count(g)),
                graph_edges(r.0.gr),
                q,
            ),
{
    proof {
        g.lemma_node_counts();
        assert forall|k: int| 0 <= k < net_count(g) implies #[trigger] cluster_weight(
            g,
            module_weight@,
            (g.spec_num_modules() + k) as usize,
        ) <= u32::MAX by {
            let c = cluster_weight(g, module_weight@, (g.spec_num_modules() + k) as usize);
            let nc = net_count(g);
            lemma_pins_weight_nonneg(module_weight@, g.spec_neighbors((g.spec_num_modules() + k) as usize),
                g.spec_neighbors((g.spec_num_modules() + k) as usize).len() as int);
            assert(c <= c * nc) by (nonlinear_arith)
                requires
                    c >= 0,
                    nc >= 1,
            ;
        }
    }
    let m = g.number_of_modules();
    let cw = cluster_weights(g, module_weight);
    let nc = cw.len();
    let edges = to_netlist_edges(g);
    proof {
        assert(cw@ =~= all_cluster_weights(g, module_weight@));
        assert forall|k: int| 0 <= k < cw@.len() implies (#[trigger] cw@[k]) * cw@.len() <= u32::MAX by {
            assert(cw@[k] == cluster_weight(g, module_weight@, (g.spec_num_modules() + k) as usize));
        }
    }
    let picked = min_maximal_matching(m, nc, &edges, &cw);
    let ghost chosen = chosen_clusters(g, module_weight@, forbid@);
    let ghost pset = primal_dual_matching(edges@, m, nc, cw@);
    let mut matched: Vec<usize> = Vec::new();
    let mut q: usize = 0;
    while q < picked.len()
        invariant
            m == g.spec_num_modules(),
            nc == net_count(g),
            m + nc < u32::MAX,
            forall|t: int| 0 <= t < picked@.len() ==> (#[trigger] picked@[t]) < nc,
            q <= picked@.len(),
            forall|net: usize|
                matched@.contains(net) <==> (exists|t: int|
                    0 <= t < q && net == m + #[trigger] picked@[t] && !forbid@.contains(net)),
        decreases picked@.len() - q,
    {
        let net = m + picked[q];
        let ghost m0 = matched@;
        if !slice_contains(forbid, net) {
            matched.push(net);
        }
        proof {
            assert forall|x: usize|
                matched@.contains(x) <==> (exists|t: int|
                    0 <= t < q + 1 && x == m + #[trigger] picked@[t] && !forbid@.contains(x)) by {
                if matched@.contains(x) {
                    let i = choose|i: int| 0 <= i < matched@.len() && matched@[i] == x;
                    if i < m0.len() {
                        assert(m0[i] == x);
                        assert(m0.contains(x));
                    }
                }
                if m0.contains(x) {
                    let i = choose|i: int| 0 <= i < m0.len() && m0[i] == x;
                    assert(matched@[i] == x);
                }
                if x == net && !forbid@.contains(x) {
                    assert(matched@[matched@.len() - 1] == x);
                }
            }
        }
        q = q + 1;
    }
    proof {
        assert(matched@.to_set() =~= chosen) by {
            assert forall|x: usize| matched@.to_set().contains(x) <==> chosen.contains(x) by {
                if matched@.contains(x) {
                    let t = choose|t: int| 0 <= t < picked@.len() && x == m + #[trigger] picked@[t] && !forbid@.contains(x);
                    assert(picked@.to_set().contains(picked@[t]));
                    assert((x - m) as usize == picked@[t]);
                }
                if chosen.contains(x) {
                    let k = (x - m) as usize;
                    assert(pset.contains(k));
                    assert(picked@.to_set().contains(k));
                    let t = choose|t: int| 0 <= t < picked@.len() && picked@[t] == k;
                    assert(x == m + picked@[t]);
                }
            }
        }
    }
    contract_with_matching(g, module_weight, matched.as_slice())
}

/// Pin weights are never negative.
proof fn lemma_pins_weight_nonneg(module_weight: Seq<u32>, pins: Seq<usize>, j: int)
    ensures
        pins_weight(module_weight, pins, j) >= 0,
    decreases j,
{
    if j > 0 {
        lemma_pins_weight_nonneg(module_weight, pins, j - 1);
    }
}

} // verus!
