//! A hypergraph built from the pins of a netlist: module `i` is node `i`,
//! net `j` is node `num_modules + j`.
use vstd::prelude::*;
use crate::hypergraph::Hypergraph;

verus! {

/// What the adapter reads of a netlist: the numbers of modules and nets, the
/// module weights, and its pins as the node pairs of the netlist's graph
/// (modules are the nodes `0 .. num_modules`, nets the nodes after them).
pub struct NetlistData {
    pub num_modules: usize,
    pub num_nets: usize,
    pub module_weights: Vec<i32>,
    pub edges: Vec<(usize, usize)>,
}

/// A pin as (module node, net node): the endpoint below `nm` is the module.
pub open spec fn edge_pin(e: (usize, usize), nm: int) -> (int, int) {
    if e.0 < nm {
        (e.0 as int, e.1 as int)
    } else {
        (e.1 as int, e.0 as int)
    }
}

/// The pin joins a module to one of the `nn` nets.
pub open spec fn pin_kept(e: (usize, usize), nm: int, nn: int) -> bool {
    let p = edge_pin(e, nm);
    nm <= p.1 < nm + nn
}

/// The nets (as nodes) joined to module `m` by the first `k` pins.
pub open spec fn mod_nets(edges: Seq<(usize, usize)>, nm: int, nn: int, m: int, k: int) -> Seq<usize>
    decreases k,
{
    if k <= 0 {
        Seq::empty()
    } else {
        let prev = mod_nets(edges, nm, nn, m, k - 1);
        let e = edges[k - 1];
        if pin_kept(e, nm, nn) && edge_pin(e, nm).0 == m {
            prev.push(edge_pin(e, nm).1 as usize)
        } else {
            prev
        }
    }
}

/// The modules joined to net `j` (counted from 0) by the first `k` pins.
pub open spec fn net_mods(edges: Seq<(usize, usize)>, nm: int, nn: int, j: int, k: int) -> Seq<usize>
    decreases k,
{
    if k <= 0 {
        Seq::empty()
    } else {
        let prev = net_mods(edges, nm, nn, j, k - 1);
        let e = edges[k - 1];
        if pin_kept(e, nm, nn) && edge_pin(e, nm).1 - nm == j {
            prev.push(edge_pin(e, nm).0 as usize)
        } else {
            prev
        }
    }
}

/// The largest length among `lists[0 .. k]`, 0 when `k == 0`.
pub open spec fn max_len_upto(lists: Seq<Vec<usize>>, k: int) -> nat
    decreases k,
{
    if k <= 0 {
        0
    } else {
        let d = lists[k - 1]@.len();
        let m = max_len_upto(lists, k - 1);
        if d > m {
            d
        } else {
            m
        }
    }
}

/// Adapter that gives a netlist the [`Hypergraph`] interface.
pub struct NetlistHypergraph {
    pub num_modules: usize,
    pub num_nets: usize,
    pub module_weights: Vec<u32>,
    pub module_to_nets: Vec<Vec<usize>>,
    pub net_to_modules: Vec<Vec<usize>>,
    pub max_degree: usize,
}

impl NetlistHypergraph {
    /// The adapter's invariant: one weight and one net list per module, one
    /// module list per net, nodes that fit in `usize`, and `max_degree` the
    /// largest module degree.
    pub open spec fn inv(&self) -> bool {
        &&& self.num_modules + self.num_nets <= usize::MAX
        &&& self.module_weights@.len() == self.num_modules
        &&& self.module_to_nets@.len() == self.num_modules
        &&& self.net_to_modules@.len() == self.num_nets
        &&& self.max_degree == max_len_upto(self.module_to_nets@, self.num_modules as int)
    }

    /// The adapter for a netlist: module weights that are not positive read
    /// as 1, and pins that do not join a module to a net are skipped.
    pub fn from_netlist(nl: &NetlistData) -> (r: Self)
        requires
            nl.num_modules + nl.num_nets <= usize::MAX,
            forall|i: int| 0 <= i < nl.edges@.len() ==> (#[trigger] nl.edges@[i]).0 < nl.num_modules || nl.edges@[i].1
                < nl.num_modules,
        ensures
            r.inv(),
            r.num_modules == nl.num_modules,
            r.num_nets == nl.num_nets,
            forall|i: int|
                0 <= i < nl.num_modules ==> #[trigger] r.module_weights@[i] == (if i < nl.module_weights@.len()
                    && nl.module_weights@[i] > 0 {
                    nl.module_weights@[i] as u32
                } else {
                    1u32
                }),
            forall|m: int|
                0 <= m < nl.num_modules ==> #[trigger] r.module_to_nets@[m]@ == mod_nets(
                    nl.edges@,
                    nl.num_modules as int,
                    nl.num_nets as int,
                    m,
                    nl.edges@.len() as int,
                ),
            forall|j: int|
                0 <= j < nl.num_nets ==> #[trigger] r.net_to_modules@[j]@ == net_mods(
                    nl.edges@,
                    nl.num_modules as int,
                    nl.num_nets as int,
                    j,
                    nl.edges@.len() as int,
                ),
    {
        let num_modules = nl.num_modules;
        let num_nets = nl.num_nets;
        let mut module_weights: Vec<u32> = Vec::new();
        let mut i: usize = 0;
        while i < num_modules
            invariant
                num_modules == nl.num_modules,
                i <= num_modules,
                module_weights@.len() == i,
                forall|k: int|
                    0 <= k < i ==> #[trigger] module_weights@[k] == (if k < nl.module_weights@.len()
                        && nl.module_weights@[k] > 0 {
                        nl.module_weights@[k] as u32
                    } else {
                        1u32
                    }),
            decreases num_modules - i,
        {
            let mut w: u32 = 1;
            if i < nl.module_weights.len() && nl.module_weights[i] > 0 {
                w = nl.module_weights[i] as u32;
            }
            module_weights.push(w);
            i = i + 1;
        }
        let mut module_to_nets: Vec<Vec<usize>> = Vec::new();
        let mut k: usize = 0;
        while k < num_modules
            invariant
                k <= num_modules,
                module_to_nets@.len() == k,
                forall|q: int| 0 <= q < k ==> (#[trigger] module_to_nets@[q])@ == Seq::<usize>::empty(),
            decreases num_modules - k,
        {
            module_to_nets.push(Vec::new());
            k = k + 1;
        }
        let mut net_to_modules: Vec<Vec<usize>> = Vec::new();
        let mut k: usize = 0;
        while k < num_nets
            invariant
                k <= num_nets,
                net_to_modules@.len() == k,
                forall|q: int| 0 <= q < k ==> (#[trigger] net_to_modules@[q])@ == Seq::<usize>::empty(),
            decreases num_nets - k,
        {
            net_to_modules.push(Vec::new());
            k = k + 1;
        }
        let ghost nm = num_modules as int;
        let ghost nn = num_nets as int;
        let mut e: usize = 0;
        while e < nl.edges.len()
            invariant
                num_modules == nl.num_modules,
                num_nets == nl.num_nets,
                nm == num_modules,
                nn == num_nets,
                num_modules + num_nets <= usize::MAX,
                forall|i: int| 0 <= i < nl.edges@.len() ==> (#[trigger] nl.edges@[i]).0 < nl.num_modules
                    || nl.edges@[i].1 < nl.num_modules,
                e <= nl.edges@.len(),
                module_to_nets@.len() == num_modules,
                net_to_modules@.len() == num_nets,
                forall|m: int|
                    0 <= m < num_modules ==> #[trigger] module_to_nets@[m]@ == mod_nets(nl.edges@, nm, nn, m, e as int),
                forall|j: int|
                    0 <= j < num_nets ==> #[trigger] net_to_modules@[j]@ == net_mods(nl.edges@, nm, nn, j, e as int),
            decreases nl.edges@.len() - e,
        {
            let s = nl.edges[e].0;
            let t = nl.edges[e].1;
            let mut mod_idx = t;
            let mut net_global_idx = s;
            if s < num_modules {
                mod_idx = s;
                net_global_idx = t;
            }
            if net_global_idx >= num_modules && net_global_idx - num_modules < num_nets {
                let local_net_idx = net_global_idx - num_modules;
                module_to_nets[mod_idx].push(net_global_idx);
                net_to_modules[local_net_idx].push(mod_idx);
            }
            proof {
                assert forall|m: int| 0 <= m < num_modules implies #[trigger] module_to_nets@[m]@ == mod_nets(
                    nl.edges@,
                    nm,
                    nn,
                    m,
                    e + 1,
                ) by {}
                assert forall|j: int| 0 <= j < num_nets implies #[trigger] net_to_modules@[j]@ == net_mods(
                    nl.edges@,
                    nm,
                    nn,
                    j,
                    e + 1,
                ) by {}
            }
            e = e + 1;
        }
        let mut max_deg: usize = 0;
        let mut m: usize = 0;
        while m < num_modules
            invariant
                m <= num_modules,
                module_to_nets@.len() == num_modules,
                max_deg == max_len_upto(module_to_nets@, m as int),
            decreases num_modules - m,
        {
            if module_to_nets[m].len() > max_deg {
                max_deg = module_to_nets[m].len();
            }
            m = m + 1;
        }
        NetlistHypergraph {
            num_modules,
            num_nets,
            module_weights,
            module_to_nets,
            net_to_modules,
            max_degree: max_deg,
        }
    }
}

impl Hypergraph for NetlistHypergraph {
    open spec fn wf(&self) -> bool {
        self.inv()
    }

    open spec fn spec_num_modules(&self) -> nat {
        self.num_modules as nat
    }

    open spec fn spec_num_nodes(&self) -> nat {
        (self.num_modules + self.num_nets) as nat
    }

    open spec fn spec_neighbors(&self, node: usize) -> Seq<usize> {
        if node < self.num_modules {
            self.module_to_nets@[node as int]@
        } else {
            self.net_to_modules@[node - self.num_modules]@
        }
    }

    open spec fn spec_module_weight(&self, v: usize) -> u32 {
        if v < self.module_weights@.len() {
            self.module_weights@[v as int]
        } else {
            1
        }
    }

    open spec fn spec_net_weight(&self, net: usize) -> u32 {
        1
    }

    open spec fn spec_max_degree(&self) -> nat {
        self.max_degree as nat
    }

    proof fn lemma_node_counts(&self) {
    }

    fn modules(&self) -> (r: Vec<usize>) {
        let mut r: Vec<usize> = Vec::new();
        let mut i: usize = 0;
        while i < self.num_modules
            invariant
                i <= self.num_modules,
                r@.len() == i,
                forall|j: int| 0 <= j < r@.len() ==> r@[j] == j,
            decreases self.num_modules - i,
        {
            r.push(i);
            i = i + 1;
        }
        r
    }

    fn nets(&self) -> (r: Vec<usize>) {
        let mut r: Vec<usize> = Vec::new();
        let mut i: usize = 0;
        while i < self.num_nets
            invariant
                self.inv(),
                i <= self.num_nets,
                r@.len() == i,
                forall|j: int| 0 <= j < r@.len() ==> r@[j] == self.num_modules + j,
            decreases self.num_nets - i,
        {
            r.push(self.num_modules + i);
            i = i + 1;
        }
        r
    }

    fn neighbors(&self, node: usize) -> (r: Vec<usize>) {
        if node < self.num_modules {
            self.module_to_nets[node].clone()
        } else {
            self.net_to_modules[node - self.num_modules].clone()
        }
    }

    fn degree(&self, node: usize) -> (r: usize) {
        if node < self.num_modules {
            self.module_to_nets[node].len()
        } else {
            self.net_to_modules[node - self.num_modules].len()
        }
    }

    fn get_module_weight(&self, v: usize) -> (r: u32) {
        if v < self.module_weights.len() {
            self.module_weights[v]
        } else {
            1
        }
    }

    fn get_net_weight(&self, net: usize) -> (r: u32) {
        1
    }

    fn number_of_modules(&self) -> (r: usize) {
        self.num_modules
    }

    fn get_max_degree(&self) -> (r: usize) {
        self.max_degree
    }

    fn module_index(&self, v: usize) -> (r: usize) {
        v
    }
}

} // verus!
