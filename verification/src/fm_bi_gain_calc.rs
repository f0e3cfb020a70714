use vstd::prelude::*;
use crate::hypergraph::{Hypergraph, is_netlist};
use crate::moveinfo::MoveInfo;

verus! {

/// The number of the first `j` pins of `nb` whose module lies in part `p`.
pub open spec fn count_in_part(nb: Seq<usize>, part: Seq<u8>, p: int, j: int) -> nat
    decreases j,
{
    if j <= 0 {
        0
    } else {
        count_in_part(nb, part, p, j - 1) + if part[nb[j - 1] as int] == p {
            1nat
        } else {
            0nat
        }
    }
}

/// The position of the first of the first `j` pins of `nb` whose module lies
/// in part `p`, or -1.
pub open spec fn first_in_part(nb: Seq<usize>, part: Seq<u8>, p: int, j: int) -> int
    decreases j,
{
    if j <= 0 {
        -1
    } else {
        let f = first_in_part(nb, part, p, j - 1);
        if f >= 0 {
            f
        } else if part[nb[j - 1] as int] == p {
            j - 1
        } else {
            -1
        }
    }
}

/// The pins of `nb` other than `v`, in order, taken from the first `j` pins.
pub open spec fn pins_except(nb: Seq<usize>, v: usize, j: int) -> Seq<usize>
    decreases j,
{
    if j <= 0 {
        Seq::empty()
    } else if nb[j - 1] == v {
        pins_except(nb, v, j - 1)
    } else {
        pins_except(nb, v, j - 1).push(nb[j - 1])
    }
}

/// Whether the update and gain rules handle a net of this degree.
pub open spec fn handled_degree(d: nat) -> bool {
    2 <= d <= 65536
}

/// In a general net, the gain that module `x` draws from part `p`: every pin
/// loses `w` when no pin lies in `p`; the only pin in `p` gains `w`.
pub open spec fn part_term(nb: Seq<usize>, part: Seq<u8>, w: int, p: int, x: usize) -> int {
    let c = count_in_part(nb, part, p, nb.len() as int);
    if c == 0 {
        if nb.contains(x) {
            -w
        } else {
            0
        }
    } else if c == 1 && nb[first_in_part(nb, part, p, nb.len() as int)] == x {
        w
    } else {
        0
    }
}

/// The part of module `x`'s initial gain that comes from `net`, in binary FM.
pub open spec fn bi_net_gain<G: Hypergraph>(
    g: &G,
    part: Seq<u8>,
    special: bool,
    net: usize,
    x: usize,
) -> int {
    let nb = g.spec_neighbors(net);
    let w = g.spec_net_weight(net) as int;
    if !handled_degree(nb.len()) {
        0
    } else if special && nb.len() == 2 {
        let s = if part[nb[0] as int] != part[nb[1] as int] {
            w
        } else {
            -w
        };
        (if x == nb[0] {
            s
        } else {
            0
        }) + (if x == nb[1] {
            s
        } else {
            0
        })
    } else if special && nb.len() == 3 {
        let pw = part[nb[0] as int];
        let pv = part[nb[1] as int];
        let pu = part[nb[2] as int];
        if pu == pv && pw == pv {
            (if x == nb[0] {
                -w
            } else {
                0
            }) + (if x == nb[1] {
                -w
            } else {
                0
            }) + (if x == nb[2] {
                -w
            } else {
                0
            })
        } else if pu == pv {
            if x == nb[0] {
                w
            } else {
                0
            }
        } else if pw == pv {
            if x == nb[2] {
                w
            } else {
                0
            }
        } else if x == nb[1] {
            w
        } else {
            0
        }
    } else {
        part_term(nb, part, w, 0, x) + part_term(nb, part, w, 1, x)
    }
}

/// What `net` adds to the cut cost in binary FM: its weight when it has
/// pins in both parts.
pub open spec fn bi_net_cost<G: Hypergraph>(g: &G, part: Seq<u8>, special: bool, net: usize) -> int {
    let nb = g.spec_neighbors(net);
    let w = g.spec_net_weight(net) as int;
    if !handled_degree(nb.len()) {
        0
    } else if special && nb.len() == 2 {
        if part[nb[0] as int] != part[nb[1] as int] {
            w
        } else {
            0
        }
    } else if special && nb.len() == 3 {
        if part[nb[2] as int] == part[nb[1] as int] && part[nb[0] as int] == part[nb[1] as int] {
            0
        } else {
            w
        }
    } else if count_in_part(nb, part, 0, nb.len() as int) > 0 && count_in_part(
        nb,
        part,
        1,
        nb.len() as int,
    ) > 0 {
        w
    } else {
        0
    }
}

/// The `i`-th net.
pub open spec fn net_at<G: Hypergraph>(g: &G, i: int) -> usize {
    (g.spec_num_modules() + i) as usize
}

/// The cut cost collected from the first `k` nets.
pub open spec fn bi_cost_upto<G: Hypergraph>(g: &G, part: Seq<u8>, special: bool, k: int) -> int
    decreases k,
{
    if k <= 0 {
        0
    } else {
        bi_cost_upto(g, part, special, k - 1) + bi_net_cost(g, part, special, net_at(g, k - 1))
    }
}

/// Module `x`'s gain collected from the first `k` nets.
pub open spec fn bi_gain_upto<G: Hypergraph>(
    g: &G,
    part: Seq<u8>,
    special: bool,
    k: int,
    x: usize,
) -> int
    decreases k,
{
    if k <= 0 {
        0
    } else {
        bi_gain_upto(g, part, special, k - 1, x) + bi_net_gain(g, part, special, net_at(g, k - 1), x)
    }
}

/// The total weight of the first `k` nets.
pub open spec fn net_weight_upto<G: Hypergraph>(g: &G, k: int) -> int
    decreases k,
{
    if k <= 0 {
        0
    } else {
        net_weight_upto(g, k - 1) + g.spec_net_weight(net_at(g, k - 1)) as int
    }
}

/// The number of nets.
pub open spec fn num_nets<G: Hypergraph>(g: &G) -> int {
    g.spec_num_nodes() - g.spec_num_modules()
}

/// The total weight of all nets.
pub open spec fn total_net_weight<G: Hypergraph>(g: &G) -> int {
    net_weight_upto(g, num_nets(g))
}

/// The net weights are small enough for gains and costs to fit in `i32`.
pub open spec fn weights_fit<G: Hypergraph>(g: &G) -> bool {
    2 * total_net_weight(g) <= i32::MAX
}

/// The part of every module lies in `0 .. num_parts`.
pub open spec fn valid_part(part: Seq<u8>, num_parts: int) -> bool {
    forall|i: int| 0 <= i < part.len() ==> (#[trigger] part[i]) < num_parts
}

/// Binary Fiduccia-Mattheyses gain calculator.
pub struct FMBiGainCalc<Gnl: Hypergraph> {
    pub hyprgraph: Gnl,
    pub init_gain_list: Vec<i32>,
    pub total_cost: i32,
    pub delta_gain_w_val: i32,
    pub idx_vec: Vec<usize>,
    pub special_handle_2pin_nets: bool,
}

impl<Gnl: Hypergraph> FMBiGainCalc<Gnl> {
    /// The hypergraph the calculator reads.
    pub open spec fn spec_graph(&self) -> Gnl {
        self.hyprgraph
    }

    /// The calculator's invariant: it reads a netlist and keeps one gain per
    /// module.
    pub open spec fn wf(&self) -> bool {
        &&& self.spec_graph().wf()
        &&& is_netlist(&self.spec_graph())
        &&& self.init_gain_list@.len() == self.spec_graph().spec_num_modules()
    }

    /// A calculator for `hyprgraph` with all gains zero.
    pub fn new(hyprgraph: Gnl, _num_parts: u8) -> (r: Self)
        requires
            hyprgraph.wf(),
            is_netlist(&hyprgraph),
        ensures
            r.wf(),
            r.spec_graph() == hyprgraph,
            r.init_gain_list@ == Seq::new(hyprgraph.spec_num_modules(), |i: int| 0i32),
            r.total_cost == 0,
            r.delta_gain_w_val == 0,
            r.idx_vec@ == Seq::<usize>::empty(),
            r.special_handle_2pin_nets,
    {
        let nmod = hyprgraph.number_of_modules();
        let r = FMBiGainCalc {
            hyprgraph,
            init_gain_list: vec![0i32; nmod],
            total_cost: 0,
            delta_gain_w_val: 0,
            idx_vec: Vec::new(),
            special_handle_2pin_nets: true,
        };
        assert(r.init_gain_list@ =~= Seq::new(nmod as nat, |i: int| 0i32));
        r
    }

    /// The gains and cost leave room for one more net of weight `w`.
    pub open spec fn headroom(&self, w: int) -> bool {
        &&& 0 <= w <= i32::MAX / 2
        &&& 0 <= self.total_cost <= i32::MAX - w
        &&& forall|x: int|
            0 <= x < self.init_gain_list@.len() ==> -(i32::MAX - 2 * w) <= (
            #[trigger] self.init_gain_list@[x]) <= i32::MAX - 2 * w
    }

    /// The gain list after adding each module's share of `net`.
    pub open spec fn gains_after(&self, old_list: Seq<i32>, part: Seq<u8>, net: usize) -> Seq<i32> {
        Seq::new(
            old_list.len(),
            |x: int|
                (old_list[x] + bi_net_gain(
                    &self.spec_graph(),
                    part,
                    self.special_handle_2pin_nets,
                    net,
                    x as usize,
                )) as i32,
        )
    }

    fn increase_gain(&mut self, w: usize, weight: u32)
        requires
            old(self).wf(),
            w < old(self).init_gain_list@.len() ==> old(self).init_gain_list@[w as int] + weight
                <= i32::MAX,
            weight <= i32::MAX,
        ensures
            final(self).wf(),
            final(self).spec_graph() == old(self).spec_graph(),
            final(self).total_cost == old(self).total_cost,
            final(self).delta_gain_w_val == old(self).delta_gain_w_val,
            final(self).idx_vec == old(self).idx_vec,
            final(self).special_handle_2pin_nets == old(self).special_handle_2pin_nets,
            final(self).init_gain_list@ == (if w < old(self).init_gain_list@.len() {
                old(self).init_gain_list@.update(
                    w as int,
                    (old(self).init_gain_list@[w as int] + weight) as i32,
                )
            } else {
                old(self).init_gain_list@
            }),
    {
        let idx = self.hyprgraph.module_index(w);
        if idx < self.init_gain_list.len() {
            self.init_gain_list[idx] = self.init_gain_list[idx] + weight as i32;
        }
    }

    fn decrease_gain(&mut self, w: usize, weight: u32)
        requires
            old(self).wf(),
            w < old(self).init_gain_list@.len() ==> old(self).init_gain_list@[w as int] - weight
                >= i32::MIN,
            weight <= i32::MAX,
        ensures
            final(self).wf(),
            final(self).spec_graph() == old(self).spec_graph(),
            final(self).total_cost == old(self).total_cost,
            final(self).delta_gain_w_val == old(self).delta_gain_w_val,
            final(self).idx_vec == old(self).idx_vec,
            final(self).special_handle_2pin_nets == old(self).special_handle_2pin_nets,
            final(self).init_gain_list@ == (if w < old(self).init_gain_list@.len() {
                old(self).init_gain_list@.update(
                    w as int,
                    (old(self).init_gain_list@[w as int] - weight) as i32,
                )
            } else {
                old(self).init_gain_list@
            }),
    {
        let idx = self.hyprgraph.module_index(w);
        if idx < self.init_gain_list.len() {
            self.init_gain_list[idx] = self.init_gain_list[idx] - weight as i32;
        }
    }
}


impl<Gnl: Hypergraph> FMBiGainCalc<Gnl> {
    /// Facts about the pins of a net that follow from the netlist shape.
    proof fn lemma_net_pins(&self, net: usize)
        requires
            self.wf(),
            self.spec_graph().spec_num_modules() <= net < self.spec_graph().spec_num_nodes(),
        ensures
            self.spec_graph().spec_neighbors(net).no_duplicates(),
            forall|j: int|
                0 <= j < self.spec_graph().spec_neighbors(net).len() ==> (
                #[trigger] self.spec_graph().spec_neighbors(net)[j])
                    < self.spec_graph().spec_num_modules(),
    {
        let g = self.spec_graph();
        assert(g.spec_neighbors(net).no_duplicates());
        assert forall|j: int| 0 <= j < g.spec_neighbors(net).len() implies (#[trigger] g.spec_neighbors(
            net,
        )[j]) < g.spec_num_modules() by {
            assert(g.spec_neighbors(net)[j] < g.spec_num_nodes());
        }
    }

    fn init_gain_2pin_net(&mut self, net: usize, part: &[u8])
        requires
            old(self).wf(),
            old(self).special_handle_2pin_nets,
            old(self).spec_graph().spec_num_modules() <= net < old(self).spec_graph().spec_num_nodes(),
            part@.len() == old(self).spec_graph().spec_num_modules(),
            old(self).spec_graph().spec_neighbors(net).len() == 2,
            old(self).headroom(old(self).spec_graph().spec_net_weight(net) as int),
        ensures
            final(self).wf(),
            final(self).spec_graph() == old(self).spec_graph(),
            final(self).delta_gain_w_val == old(self).delta_gain_w_val,
            final(self).idx_vec == old(self).idx_vec,
            final(self).special_handle_2pin_nets == old(self).special_handle_2pin_nets,
            final(self).init_gain_list@ == old(self).gains_after(old(self).init_gain_list@, part@, net),
            final(self).total_cost == old(self).total_cost + bi_net_cost(
                &old(self).spec_graph(),
                part@,
                old(self).special_handle_2pin_nets,
                net,
            ),
    {
        proof {
            self.lemma_net_pins(net);
        }
        let nbrs = self.hyprgraph.neighbors(net);
        let node_w = nbrs[0];
        let node_v = nbrs[1];
        let weight = self.hyprgraph.get_net_weight(net) as i32;
        let ghost base = self.init_gain_list@;
        if part[self.hyprgraph.module_index(node_w)] != part[self.hyprgraph.module_index(node_v)] {
            self.total_cost = self.total_cost + weight;
            self.increase_gain(node_w, weight as u32);
            self.increase_gain(node_v, weight as u32);
        } else {
            self.decrease_gain(node_w, weight as u32);
            self.decrease_gain(node_v, weight as u32);
        }
        proof {
            assert(self.init_gain_list@ =~= old(self).gains_after(base, part@, net));
        }
    }

    fn init_gain_3pin_net(&mut self, net: usize, part: &[u8])
        requires
            old(self).wf(),
            old(self).special_handle_2pin_nets,
            old(self).spec_graph().spec_num_modules() <= net < old(self).spec_graph().spec_num_nodes(),
            part@.len() == old(self).spec_graph().spec_num_modules(),
            old(self).spec_graph().spec_neighbors(net).len() == 3,
            old(self).headroom(old(self).spec_graph().spec_net_weight(net) as int),
        ensures
            final(self).wf(),
            final(self).spec_graph() == old(self).spec_graph(),
            final(self).delta_gain_w_val == old(self).delta_gain_w_val,
            final(self).idx_vec == old(self).idx_vec,
            final(self).special_handle_2pin_nets == old(self).special_handle_2pin_nets,
            final(self).init_gain_list@ == old(self).gains_after(old(self).init_gain_list@, part@, net),
            final(self).total_cost == old(self).total_cost + bi_net_cost(
                &old(self).spec_graph(),
                part@,
                old(self).special_handle_2pin_nets,
                net,
            ),
    {
        proof {
            self.lemma_net_pins(net);
        }
        let nbrs = self.hyprgraph.neighbors(net);
        let node_w = nbrs[0];
        let node_v = nbrs[1];
        let node_u = nbrs[2];
        let weight = self.hyprgraph.get_net_weight(net) as i32;
        let ghost base = self.init_gain_list@;
        let pu = part[self.hyprgraph.module_index(node_u)];
        let pv = part[self.hyprgraph.module_index(node_v)];
        let pw = part[self.hyprgraph.module_index(node_w)];
        if pu == pv {
            if pw == pv {
                self.decrease_gain(node_u, weight as u32);
                self.decrease_gain(node_v, weight as u32);
                self.decrease_gain(node_w, weight as u32);
                proof {
                    assert(self.init_gain_list@ =~= old(self).gains_after(base, part@, net));
                }
                return;
            }
            self.increase_gain(node_w, weight as u32);
        } else if pw == pv {
            self.increase_gain(node_u, weight as u32);
        } else {
            self.increase_gain(node_v, weight as u32);
        }
        self.total_cost = self.total_cost + weight;
        proof {
            assert(self.init_gain_list@ =~= old(self).gains_after(base, part@, net));
        }
    }
}

/// When no pin before `j` lies in part `p`, none is counted.
pub proof fn lemma_first_none_count_zero(nb: Seq<usize>, part: Seq<u8>, p: int, j: int)
    requires
        first_in_part(nb, part, p, j) == -1,
    ensures
        count_in_part(nb, part, p, j) == 0,
    decreases j,
{
    if j > 0 {
        lemma_first_none_count_zero(nb, part, p, j - 1);
    }
}

/// The first pin in part `p` stays the first as the prefix grows.
pub proof fn lemma_first_found(nb: Seq<usize>, part: Seq<u8>, p: int, j: int, n: int)
    requires
        0 <= j < n,
        first_in_part(nb, part, p, j) == -1,
        part[nb[j] as int] == p,
    ensures
        first_in_part(nb, part, p, n) == j,
    decreases n,
{
    if n > j + 1 {
        lemma_first_found(nb, part, p, j, n - 1);
    }
}

/// The first pin in part `p`, when there is one, lies in part `p`.
pub proof fn lemma_first_props(nb: Seq<usize>, part: Seq<u8>, p: int, j: int)
    requires
        0 <= j <= nb.len(),
    ensures
        -1 <= first_in_part(nb, part, p, j) < j,
        first_in_part(nb, part, p, j) >= 0 ==> part[nb[first_in_part(nb, part, p, j)] as int] == p,
        first_in_part(nb, part, p, j) == -1 <==> count_in_part(nb, part, p, j) == 0,
    decreases j,
{
    if j > 0 {
        lemma_first_props(nb, part, p, j - 1);
    }
}

impl<Gnl: Hypergraph> FMBiGainCalc<Gnl> {
    /// Add to every module the gain it draws from part `p` of a general net
    /// whose pins are `nbrs`, `n` of them in part `p`.
    fn apply_part_term(&mut self, nbrs: &Vec<usize>, part: &[u8], p: usize, n: usize, weight: i32)
        requires
            old(self).wf(),
            nbrs@.no_duplicates(),
            forall|j: int| 0 <= j < nbrs@.len() ==> (#[trigger] nbrs@[j]) < part@.len(),
            part@.len() == old(self).init_gain_list@.len(),
            n == count_in_part(nbrs@, part@, p as int, nbrs@.len() as int),
            0 <= weight <= i32::MAX / 2,
            forall|x: int|
                0 <= x < old(self).init_gain_list@.len() ==> -(i32::MAX - weight) <= (
                #[trigger] old(self).init_gain_list@[x]) <= i32::MAX - weight,
        ensures
            final(self).wf(),
            final(self).spec_graph() == old(self).spec_graph(),
            final(self).total_cost == old(self).total_cost,
            final(self).delta_gain_w_val == old(self).delta_gain_w_val,
            final(self).idx_vec == old(self).idx_vec,
            final(self).special_handle_2pin_nets == old(self).special_handle_2pin_nets,
            final(self).init_gain_list@ == Seq::new(
                old(self).init_gain_list@.len(),
                |x: int|
                    (old(self).init_gain_list@[x] + part_term(
                        nbrs@,
                        part@,
                        weight as int,
                        p as int,
                        x as usize,
                    )) as i32,
            ),
    {
        let ghost nb = nbrs@;
        let ghost base = self.init_gain_list@;
        let ghost target = Seq::new(
            base.len(),
            |x: int| (base[x] + part_term(nb, part@, weight as int, p as int, x as usize)) as i32,
        );
        proof {
            lemma_first_props(nb, part@, p as int, nb.len() as int);
        }
        if n == 0 {
            let mut j: usize = 0;
            while j < nbrs.len()
                invariant
                    self.wf(),
                    self.spec_graph() == old(self).spec_graph(),
                    self.total_cost == old(self).total_cost,
                    self.delta_gain_w_val == old(self).delta_gain_w_val,
                    self.idx_vec == old(self).idx_vec,
                    self.special_handle_2pin_nets == old(self).special_handle_2pin_nets,
                    nbrs@ == nb,
                    nb.no_duplicates(),
                    forall|i: int| 0 <= i < nb.len() ==> (#[trigger] nb[i]) < part@.len(),
                    part@.len() == base.len(),
                    j <= nb.len(),
                    0 <= weight <= i32::MAX / 2,
                    forall|x: int|
                        0 <= x < base.len() ==> -(i32::MAX - weight) <= (#[trigger] base[x])
                            <= i32::MAX - weight,
                    self.init_gain_list@.len() == base.len(),
                    forall|x: int|
                        0 <= x < base.len() ==> #[trigger] self.init_gain_list@[x] == base[x] - (
                        if nb.subrange(0, j as int).contains(x as usize) {
                            weight as int
                        } else {
                            0
                        }),
                decreases nb.len() - j,
            {
                let w = nbrs[j];
                proof {
                    assert(!nb.subrange(0, j as int).contains(w)) by {
                        if nb.subrange(0, j as int).contains(w) {
                            let i = choose|i: int| 0 <= i < j && nb.subrange(0, j as int)[i] == w;
                            assert(nb[i] == nb[j as int]);
                        }
                    }
                }
                self.decrease_gain(w, weight as u32);
                proof {
                    assert forall|x: int| 0 <= x < base.len() implies #[trigger] self.init_gain_list@[x]
                        == base[x] - (if nb.subrange(0, j + 1).contains(x as usize) {
                        weight as int
                    } else {
                        0
                    }) by {
                        assert(nb.subrange(0, j + 1) =~= nb.subrange(0, j as int).push(w));
                        if x as usize == w {
                            assert(nb.subrange(0, j + 1)[j as int] == w);
                        } else if nb.subrange(0, j as int).contains(x as usize) {
                            let i = choose|i: int| 0 <= i < j && #[trigger] nb.subrange(0, j as int)[i] == x as usize;
                            assert(nb.subrange(0, j + 1)[i] == x as usize);
                        } else {
                            assert(!nb.subrange(0, j + 1).contains(x as usize)) by {
                                if nb.subrange(0, j + 1).contains(x as usize) {
                                    let i = choose|i: int| 0 <= i < j + 1 && #[trigger] nb.subrange(0, j + 1)[i] == x as usize;
                                    if i < j {
                                        assert(nb.subrange(0, j as int)[i] == x as usize);
                                    }
                                }
                            }
                        }
                    }
                }
                j = j + 1;
            }
            proof {
                assert(nb.subrange(0, nb.len() as int) =~= nb);
                assert(self.init_gain_list@ =~= target);
            }
        } else if n == 1 {
            let mut j: usize = 0;
            while j < nbrs.len()
                invariant
                    self.wf(),
                    self.spec_graph() == old(self).spec_graph(),
                    self.total_cost == old(self).total_cost,
                    self.delta_gain_w_val == old(self).delta_gain_w_val,
                    self.idx_vec == old(self).idx_vec,
                    self.special_handle_2pin_nets == old(self).special_handle_2pin_nets,
                    nbrs@ == nb,
                    forall|i: int| 0 <= i < nb.len() ==> (#[trigger] nb[i]) < part@.len(),
                    part@.len() == base.len(),
                    j <= nb.len(),
                    self.init_gain_list@ == base,
                    base == old(self).init_gain_list@,
                    first_in_part(nb, part@, p as int, j as int) == -1,
                    target == Seq::new(
                        base.len(),
                        |x: int| (base[x] + part_term(nb, part@, weight as int, p as int, x as usize)) as i32,
                    ),
                    n == 1,
                    n == count_in_part(nb, part@, p as int, nb.len() as int),
                    0 <= weight <= i32::MAX / 2,
                    forall|x: int|
                        0 <= x < base.len() ==> -(i32::MAX - weight) <= (#[trigger] base[x])
                            <= i32::MAX - weight,
                decreases nb.len() - j,
            {
                let w = nbrs[j];
                if part[self.hyprgraph.module_index(w)] as usize == p {
                    proof {
                        lemma_first_found(nb, part@, p as int, j as int, nb.len() as int);
                    }
                    self.increase_gain(w, weight as u32);
                    proof {
                        assert(first_in_part(nb, part@, p as int, nb.len() as int) == j);
                        assert(count_in_part(nb, part@, p as int, nb.len() as int) == 1);
                        assert forall|x: int| 0 <= x < base.len() implies #[trigger] target[x] == (base[x] + (
                        if x as usize == w {
                            weight as int
                        } else {
                            0
                        })) as i32 by {
                            assert(part_term(nb, part@, weight as int, p as int, x as usize) == (if x as usize
                                == w {
                                weight as int
                            } else {
                                0
                            }));
                        }
                        assert(self.init_gain_list@ =~= target);
                    }
                    return;
                }
                j = j + 1;
            }
            proof {
                lemma_first_none_count_zero(nb, part@, p as int, nb.len() as int);
            }
        } else {
            proof {
                assert(self.init_gain_list@ =~= target);
            }
        }
    }

    fn init_gain_general_net(&mut self, net: usize, part: &[u8])
        requires
            old(self).wf(),
            old(self).spec_graph().spec_num_modules() <= net < old(self).spec_graph().spec_num_nodes(),
            part@.len() == old(self).spec_graph().spec_num_modules(),
            handled_degree(old(self).spec_graph().spec_neighbors(net).len()),
            !(old(self).special_handle_2pin_nets && (old(self).spec_graph().spec_neighbors(net).len()
                == 2 || old(self).spec_graph().spec_neighbors(net).len() == 3)),
            old(self).headroom(old(self).spec_graph().spec_net_weight(net) as int),
        ensures
            final(self).wf(),
            final(self).spec_graph() == old(self).spec_graph(),
            final(self).delta_gain_w_val == old(self).delta_gain_w_val,
            final(self).idx_vec == old(self).idx_vec,
            final(self).special_handle_2pin_nets == old(self).special_handle_2pin_nets,
            final(self).init_gain_list@ == old(self).gains_after(old(self).init_gain_list@, part@, net),
            final(self).total_cost == old(self).total_cost + bi_net_cost(
                &old(self).spec_graph(),
                part@,
                old(self).special_handle_2pin_nets,
                net,
            ),
    {
        proof {
            self.lemma_net_pins(net);
        }
        let nbrs = self.hyprgraph.neighbors(net);
        let ghost nb = nbrs@;
        let mut num: [usize; 2] = [0, 0];
        let mut j: usize = 0;
        while j < nbrs.len()
            invariant
                nbrs@ == nb,
                forall|i: int| 0 <= i < nb.len() ==> (#[trigger] nb[i]) < part@.len(),
                j <= nb.len(),
                num@[0] == count_in_part(nb, part@, 0, j as int),
                num@[1] == count_in_part(nb, part@, 1, j as int),
                count_in_part(nb, part@, 0, j as int) <= j,
                count_in_part(nb, part@, 1, j as int) <= j,
            decreases nb.len() - j,
        {
            let w = nbrs[j];
            let p = part[self.hyprgraph.module_index(w)] as usize;
            if p < 2 {
                num[p] = num[p] + 1;
            }
            j = j + 1;
        }
        let weight = self.hyprgraph.get_net_weight(net) as i32;
        let ghost base = self.init_gain_list@;
        let mut part_idx: usize = 0;
        while part_idx < 2
            invariant
                self.wf(),
                self.spec_graph() == old(self).spec_graph(),
                self.total_cost == old(self).total_cost,
                self.delta_gain_w_val == old(self).delta_gain_w_val,
                self.idx_vec == old(self).idx_vec,
                self.special_handle_2pin_nets == old(self).special_handle_2pin_nets,
                nbrs@ == nb,
                nb == old(self).spec_graph().spec_neighbors(net),
                nb.no_duplicates(),
                forall|i: int| 0 <= i < nb.len() ==> (#[trigger] nb[i]) < part@.len(),
                part@.len() == base.len(),
                base == old(self).init_gain_list@,
                weight == old(self).spec_graph().spec_net_weight(net),
                old(self).headroom(weight as int),
                num@[0] == count_in_part(nb, part@, 0, nb.len() as int),
                num@[1] == count_in_part(nb, part@, 1, nb.len() as int),
                part_idx <= 2,
                self.init_gain_list@.len() == base.len(),
                forall|x: int|
                    0 <= x < base.len() ==> #[trigger] self.init_gain_list@[x] == base[x] + (if part_idx
                        > 0 {
                        part_term(nb, part@, weight as int, 0, x as usize)
                    } else {
                        0
                    }) + (if part_idx > 1 {
                        part_term(nb, part@, weight as int, 1, x as usize)
                    } else {
                        0
                    }),
                forall|x: int|
                    0 <= x < base.len() ==> -weight <= #[trigger] part_term(
                        nb,
                        part@,
                        weight as int,
                        0,
                        x as usize,
                    ) <= weight,
            decreases 2 - part_idx,
        {
            let n = num[part_idx];
            proof {
                assert forall|x: int| 0 <= x < base.len() implies -(i32::MAX - weight) <= (
                #[trigger] self.init_gain_list@[x]) <= i32::MAX - weight by {
                    assert(-(i32::MAX - 2 * weight) <= base[x] <= i32::MAX - 2 * weight);
                }
            }
            self.apply_part_term(&nbrs, part, part_idx, n, weight);
            part_idx = part_idx + 1;
        }
        if num[0] > 0 && num[1] > 0 {
            self.total_cost = self.total_cost + weight;
        }
        proof {
            assert(self.init_gain_list@ =~= old(self).gains_after(base, part@, net));
        }
    }
}

/// A net adds at most its weight to the cost and moves each gain by at most
/// twice its weight.
pub proof fn lemma_bi_net_bounds<G: Hypergraph>(g: &G, part: Seq<u8>, special: bool, net: usize, x: usize)
    requires
        is_netlist(g),
        g.spec_num_modules() <= net < g.spec_num_nodes(),
        part.len() == g.spec_num_modules(),
    ensures
        0 <= bi_net_cost(g, part, special, net) <= g.spec_net_weight(net),
        -2 * g.spec_net_weight(net) <= bi_net_gain(g, part, special, net, x) <= 2 * g.spec_net_weight(net),
{
    let nb = g.spec_neighbors(net);
    assert(nb.no_duplicates());
    if handled_degree(nb.len()) && special && nb.len() == 3 {
        assert(nb[0] != nb[1] && nb[1] != nb[2] && nb[0] != nb[2]);
    }
}

/// The total weight of a prefix of the nets grows with the prefix.
pub proof fn lemma_net_weight_mono<G: Hypergraph>(g: &G, k: int, n: int)
    requires
        0 <= k <= n,
    ensures
        0 <= net_weight_upto(g, k) <= net_weight_upto(g, n),
    decreases n,
{
    if n > k {
        lemma_net_weight_mono(g, k, n - 1);
    } else if k > 0 {
        lemma_net_weight_mono(g, k - 1, k - 1);
    }
}

impl<Gnl: Hypergraph> FMBiGainCalc<Gnl> {
    fn init_gain(&mut self, net: usize, part: &[u8])
        requires
            old(self).wf(),
            old(self).spec_graph().spec_num_modules() <= net < old(self).spec_graph().spec_num_nodes(),
            part@.len() == old(self).spec_graph().spec_num_modules(),
            old(self).headroom(old(self).spec_graph().spec_net_weight(net) as int),
        ensures
            final(self).wf(),
            final(self).spec_graph() == old(self).spec_graph(),
            final(self).delta_gain_w_val == old(self).delta_gain_w_val,
            final(self).idx_vec == old(self).idx_vec,
            final(self).special_handle_2pin_nets == old(self).special_handle_2pin_nets,
            final(self).init_gain_list@ == old(self).gains_after(old(self).init_gain_list@, part@, net),
            final(self).total_cost == old(self).total_cost + bi_net_cost(
                &old(self).spec_graph(),
                part@,
                old(self).special_handle_2pin_nets,
                net,
            ),
    {
        let degree = self.hyprgraph.degree(net);
        if !(2 <= degree && degree <= 65536) {
            proof {
                assert(self.init_gain_list@ =~= old(self).gains_after(old(self).init_gain_list@, part@, net));
            }
            return;
        }
        if !self.special_handle_2pin_nets {
            self.init_gain_general_net(net, part);
            return;
        }
        if degree == 2 {
            self.init_gain_2pin_net(net, part);
        } else if degree == 3 {
            self.init_gain_3pin_net(net, part);
        } else {
            self.init_gain_general_net(net, part);
        }
    }

    /// Compute every module's initial gain and the cut cost of `part`;
    /// returns the cost.
    pub fn init(&mut self, part: &[u8]) -> (r: i32)
        requires
            old(self).wf(),
            part@.len() == old(self).spec_graph().spec_num_modules(),
            weights_fit(&old(self).spec_graph()),
        ensures
            final(self).wf(),
            final(self).spec_graph() == old(self).spec_graph(),
            final(self).delta_gain_w_val == old(self).delta_gain_w_val,
            final(self).idx_vec == old(self).idx_vec,
            final(self).special_handle_2pin_nets == old(self).special_handle_2pin_nets,
            r == final(self).total_cost,
            r == bi_cost_upto(
                &old(self).spec_graph(),
                part@,
                old(self).special_handle_2pin_nets,
                num_nets(&old(self).spec_graph()),
            ),
            final(self).init_gain_list@ == Seq::new(
                old(self).spec_graph().spec_num_modules(),
                |x: int|
                    bi_gain_upto(
                        &old(self).spec_graph(),
                        part@,
                        old(self).special_handle_2pin_nets,
                        num_nets(&old(self).spec_graph()),
                        x as usize,
                    ) as i32,
            ),
    {
        let ghost g = self.spec_graph();
        let ghost special = self.special_handle_2pin_nets;
        self.total_cost = 0;
        let n = self.init_gain_list.len();
        let mut i: usize = 0;
        while i < n
            invariant
                self.wf(),
                self.spec_graph() == g,
                self.delta_gain_w_val == old(self).delta_gain_w_val,
                self.idx_vec == old(self).idx_vec,
                self.special_handle_2pin_nets == special,
                self.total_cost == 0,
                n == self.init_gain_list@.len(),
                i <= n,
                forall|x: int| 0 <= x < i ==> #[trigger] self.init_gain_list@[x] == 0,
            decreases n - i,
        {
            self.init_gain_list[i] = 0;
            i = i + 1;
        }
        let nets = self.hyprgraph.nets();
        proof {
            g.lemma_node_counts();
        }
        let mut k: usize = 0;
        while k < nets.len()
            invariant
                self.wf(),
                self.spec_graph() == g,
                self.delta_gain_w_val == old(self).delta_gain_w_val,
                self.idx_vec == old(self).idx_vec,
                self.special_handle_2pin_nets == special,
                part@.len() == g.spec_num_modules(),
                weights_fit(&g),
                g.spec_num_modules() <= g.spec_num_nodes(),
                nets@.len() == num_nets(&g),
                forall|j: int| 0 <= j < nets@.len() ==> nets@[j] == g.spec_num_modules() + j,
                k <= nets@.len(),
                self.total_cost == bi_cost_upto(&g, part@, special, k as int),
                0 <= bi_cost_upto(&g, part@, special, k as int) <= net_weight_upto(&g, k as int),
                self.init_gain_list@.len() == g.spec_num_modules(),
                forall|x: int|
                    0 <= x < self.init_gain_list@.len() ==> #[trigger] self.init_gain_list@[x]
                        == bi_gain_upto(&g, part@, special, k as int, x as usize),
                forall|x: int|
                    0 <= x < self.init_gain_list@.len() ==> -2 * net_weight_upto(&g, k as int)
                        <= #[trigger] self.init_gain_list@[x] <= 2 * net_weight_upto(&g, k as int),
            decreases nets@.len() - k,
        {
            let net = nets[k];
            let ghost w = g.spec_net_weight(net) as int;
            proof {
                lemma_net_weight_mono(&g, k as int + 1, num_nets(&g));
                assert(net_weight_upto(&g, k as int + 1) == net_weight_upto(&g, k as int) + w);
                assert(net == net_at(&g, k as int));
            }
            self.init_gain(net, part);
            proof {
                assert forall|x: int| 0 <= x < self.init_gain_list@.len() implies #[trigger] self.init_gain_list@[x]
                    == bi_gain_upto(&g, part@, special, k as int + 1, x as usize) && -2 * net_weight_upto(&g, k as int + 1)
                        <= self.init_gain_list@[x] <= 2 * net_weight_upto(&g, k as int + 1) by {
                    lemma_bi_net_bounds(&g, part@, special, net, x as usize);
                }
                lemma_bi_net_bounds(&g, part@, special, net, 0);
            }
            k = k + 1;
        }
        proof {
            assert(self.init_gain_list@ =~= Seq::new(
                g.spec_num_modules(),
                |x: int| bi_gain_upto(&g, part@, special, num_nets(&g), x as usize) as i32,
            ));
        }
        self.total_cost
    }
}

/// Each net weighs at most the total net weight.
pub proof fn lemma_net_weight_le_total<G: Hypergraph>(g: &G, i: int)
    requires
        0 <= i < num_nets(g),
    ensures
        g.spec_net_weight(net_at(g, i)) <= total_net_weight(g),
{
    lemma_net_weight_mono(g, i + 1, num_nets(g));
    lemma_net_weight_mono(g, i, i);
}

/// The pins other than `v` come from `nb`, and when the pins are distinct
/// exactly one is dropped if `v` is among them.
pub proof fn lemma_pins_except(nb: Seq<usize>, v: usize, j: int)
    requires
        0 <= j <= nb.len(),
    ensures
        forall|i: int|
            0 <= i < pins_except(nb, v, j).len() ==> nb.subrange(0, j).contains(
                #[trigger] pins_except(nb, v, j)[i],
            ) && pins_except(nb, v, j)[i] != v,
        nb.no_duplicates() ==> pins_except(nb, v, j).len() == j - (if nb.subrange(0, j).contains(v) {
            1int
        } else {
            0int
        }),
        nb.no_duplicates() ==> pins_except(nb, v, j).no_duplicates(),
    decreases j,
{
    if j > 0 {
        lemma_pins_except(nb, v, j - 1);
        let prev = pins_except(nb, v, j - 1);
        if nb.no_duplicates() && nb[j - 1] != v {
            assert forall|a: int, b: int|
                0 <= a < pins_except(nb, v, j).len() && 0 <= b < pins_except(nb, v, j).len() && a != b implies
                pins_except(nb, v, j)[a] != pins_except(nb, v, j)[b] by {
                let cur = pins_except(nb, v, j);
                if a < prev.len() && b < prev.len() {
                    assert(cur[a] == prev[a] && cur[b] == prev[b]);
                } else if a == prev.len() || b == prev.len() {
                    let o = if a == prev.len() { b } else { a };
                    assert(cur[o] == prev[o]);
                    assert(nb.subrange(0, j - 1).contains(prev[o]));
                    let k = choose|k: int| 0 <= k < j - 1 && #[trigger] nb.subrange(0, j - 1)[k] == prev[o];
                    assert(nb[k] == prev[o]);
                    assert(cur[prev.len() as int] == nb[j - 1]);
                }
            }
        }
        assert(nb.subrange(0, j) =~= nb.subrange(0, j - 1).push(nb[j - 1]));
        assert forall|i: int| 0 <= i < pins_except(nb, v, j).len() implies nb.subrange(0, j).contains(
            #[trigger] pins_except(nb, v, j)[i],
        ) && pins_except(nb, v, j)[i] != v by {
            if i < prev.len() {
                assert(pins_except(nb, v, j)[i] == prev[i]);
                let k = choose|k: int| 0 <= k < j - 1 && #[trigger] nb.subrange(0, j - 1)[k] == prev[i];
                assert(nb.subrange(0, j)[k] == prev[i]);
            } else {
                assert(nb.subrange(0, j)[j - 1] == nb[j - 1]);
            }
        }
        if nb.no_duplicates() {
            if nb[j - 1] == v {
                assert(!nb.subrange(0, j - 1).contains(v)) by {
                    if nb.subrange(0, j - 1).contains(v) {
                        let k = choose|k: int| 0 <= k < j - 1 && #[trigger] nb.subrange(0, j - 1)[k] == v;
                        assert(nb[k] == nb[j - 1]);
                    }
                }
                assert(nb.subrange(0, j)[j - 1] == v);
            } else {
                assert(nb.subrange(0, j).contains(v) == nb.subrange(0, j - 1).contains(v)) by {
                    if nb.subrange(0, j).contains(v) {
                        let k = choose|k: int| 0 <= k < j && #[trigger] nb.subrange(0, j)[k] == v;
                        assert(nb.subrange(0, j - 1)[k] == v);
                    }
                    if nb.subrange(0, j - 1).contains(v) {
                        let k = choose|k: int| 0 <= k < j - 1 && #[trigger] nb.subrange(0, j - 1)[k] == v;
                        assert(nb.subrange(0, j)[k] == v);
                    }
                }
            }
        }
    }
}

/// In a general net, the delta that the pin at position `i` of the other
/// pins `iv` draws from part `p`, with `c` the signed weight for that part:
/// every pin loses `c` when no other pin lies in `p`; the only one gains `c`.
pub open spec fn general_delta_term(iv: Seq<usize>, part: Seq<u8>, p: int, c: int, i: int) -> int {
    let n = count_in_part(iv, part, p, iv.len() as int);
    if n == 0 {
        -c
    } else if n == 1 && i == first_in_part(iv, part, p, iv.len() as int) {
        c
    } else {
        0
    }
}

impl<Gnl: Hypergraph> FMBiGainCalc<Gnl> {
    /// Nothing to prepare in binary FM.
    pub fn update_move_init(&mut self)
        ensures
            *final(self) == *old(self),
    {
    }

    /// Collect the pins of `net` other than `v` in `idx_vec`.
    pub fn init_idx_vec(&mut self, v: usize, net: usize)
        requires
            old(self).wf(),
            net < old(self).spec_graph().spec_num_nodes(),
            old(self).spec_graph().spec_neighbors(net).len() >= 1,
        ensures
            final(self).wf(),
            final(self).spec_graph() == old(self).spec_graph(),
            final(self).init_gain_list == old(self).init_gain_list,
            final(self).total_cost == old(self).total_cost,
            final(self).delta_gain_w_val == old(self).delta_gain_w_val,
            final(self).special_handle_2pin_nets == old(self).special_handle_2pin_nets,
            final(self).idx_vec@ == pins_except(
                old(self).spec_graph().spec_neighbors(net),
                v,
                old(self).spec_graph().spec_neighbors(net).len() as int,
            ),
    {
        self.idx_vec.clear();
        let nbrs = self.hyprgraph.neighbors(net);
        let degree = nbrs.len();
        self.idx_vec.reserve(degree - 1);
        let mut j: usize = 0;
        while j < nbrs.len()
            invariant
                self.wf(),
                self.spec_graph() == old(self).spec_graph(),
                self.init_gain_list == old(self).init_gain_list,
                self.total_cost == old(self).total_cost,
                self.delta_gain_w_val == old(self).delta_gain_w_val,
                self.special_handle_2pin_nets == old(self).special_handle_2pin_nets,
                nbrs@ == old(self).spec_graph().spec_neighbors(net),
                j <= nbrs@.len(),
                self.idx_vec@ == pins_except(nbrs@, v, j as int),
            decreases nbrs@.len() - j,
        {
            let w = nbrs[j];
            if w != v {
                self.idx_vec.push(w);
            }
            j = j + 1;
        }
    }

    /// The pins collected by the last `init_idx_vec`.
    pub fn idx_vec(&self) -> (r: &Vec<usize>)
        ensures
            r@ == self.idx_vec@,
    {
        &self.idx_vec
    }

    /// The gain delta of the other pin, set by the last 2-pin update.
    pub fn delta_gain_w(&self) -> (r: i32)
        ensures
            r == self.delta_gain_w_val,
    {
        self.delta_gain_w_val
    }

    /// Moving `move_info.v` across the 2-pin net `move_info.net`: returns the
    /// other pin `w` and records its gain delta (twice the net weight, positive
    /// when `w` stays behind in the source part).
    pub fn update_move_2pin_net(&mut self, part: &[u8], move_info: &MoveInfo<usize>) -> (r: usize)
        requires
            old(self).wf(),
            old(self).spec_graph().spec_num_modules() <= move_info.net < old(self).spec_graph().spec_num_nodes(),
            old(self).spec_graph().spec_neighbors(move_info.net).len() >= 2,
            part@.len() == old(self).spec_graph().spec_num_modules(),
            old(self).spec_graph().spec_net_weight(move_info.net) <= i32::MAX / 2,
        ensures
            final(self).wf(),
            final(self).spec_graph() == old(self).spec_graph(),
            final(self).init_gain_list == old(self).init_gain_list,
            final(self).total_cost == old(self).total_cost,
            final(self).idx_vec == old(self).idx_vec,
            final(self).special_handle_2pin_nets == old(self).special_handle_2pin_nets,
            ({
                let nb = old(self).spec_graph().spec_neighbors(move_info.net);
                let w = old(self).spec_graph().spec_net_weight(move_info.net) as int;
                &&& r == (if nb[0] != move_info.v {
                    nb[0]
                } else {
                    nb[1]
                })
                &&& r < part@.len()
                &&& final(self).delta_gain_w_val == 2 * (if part@[r as int] == move_info.from_part {
                    w
                } else {
                    -w
                })
            }),
    {
        proof {
            self.lemma_net_pins(move_info.net);
        }
        let nbrs = self.hyprgraph.neighbors(move_info.net);
        let first = nbrs[0];
        let second = nbrs[1];
        let node_w = if first != move_info.v {
            first
        } else {
            second
        };
        let gain = self.hyprgraph.get_net_weight(move_info.net) as i32;
        let delta = if part[self.hyprgraph.module_index(node_w)] == move_info.from_part {
            gain
        } else {
            -gain
        };
        self.delta_gain_w_val = 2 * delta;
        node_w
    }

    /// Moving `move_info.v` across a 3-pin net: the gain deltas of the two
    /// other pins `idx_vec[0]` and `idx_vec[1]`.
    pub fn update_move_3pin_net(&mut self, part: &[u8], move_info: &MoveInfo<usize>) -> (r: Vec<i32>)
        requires
            old(self).wf(),
            old(self).idx_vec@.len() >= 2,
            old(self).idx_vec@[0] < part@.len(),
            old(self).idx_vec@[1] < part@.len(),
            old(self).spec_graph().spec_net_weight(move_info.net) <= i32::MAX / 2,
        ensures
            *final(self) == *old(self),
            ({
                let w = old(self).spec_graph().spec_net_weight(move_info.net) as int;
                let part_w = part@[old(self).idx_vec@[0] as int];
                let part_u = part@[old(self).idx_vec@[1] as int];
                let adj = if part_w != move_info.from_part {
                    -w
                } else {
                    w
                };
                r@ == (if part_w == part_u {
                    seq![adj as i32, adj as i32]
                } else {
                    seq![adj as i32, (-adj) as i32]
                })
            }),
    {
        let mut delta_gain = vec![0i32; 2];
        let gain = self.hyprgraph.get_net_weight(move_info.net) as i32;
        let part_w = part[self.hyprgraph.module_index(self.idx_vec[0])];
        let adjusted_gain = if part_w != move_info.from_part {
            -gain
        } else {
            gain
        };
        if part_w == part[self.hyprgraph.module_index(self.idx_vec[1])] {
            delta_gain[0] = delta_gain[0] + adjusted_gain;
            delta_gain[1] = delta_gain[1] + adjusted_gain;
        } else {
            delta_gain[0] = delta_gain[0] + adjusted_gain;
            delta_gain[1] = delta_gain[1] - adjusted_gain;
        }
        proof {
            let w = self.spec_graph().spec_net_weight(move_info.net) as int;
            let adj = if part_w != move_info.from_part {
                -w
            } else {
                w
            };
            if part_w == part@[self.idx_vec@[1] as int] {
                assert(delta_gain@ =~= seq![adj as i32, adj as i32]);
            } else {
                assert(delta_gain@ =~= seq![adj as i32, (-adj) as i32]);
            }
        }
        delta_gain
    }

    /// Moving `move_info.v` across a general net: the gain delta of each other
    /// pin in `idx_vec`.
    pub fn update_move_general_net(&mut self, part: &[u8], move_info: &MoveInfo<usize>) -> (r: Vec<
        i32,
    >)
        requires
            old(self).wf(),
            forall|i: int| 0 <= i < old(self).idx_vec@.len() ==> (#[trigger] old(self).idx_vec@[i]) < part@.len(),
            move_info.from_part < 2,
            move_info.to_part < 2,
            old(self).spec_graph().spec_net_weight(move_info.net) <= i32::MAX / 2,
        ensures
            *final(self) == *old(self),
            r@.len() == old(self).idx_vec@.len(),
            forall|i: int|
                0 <= i < r@.len() ==> #[trigger] r@[i] == general_delta_term(
                    old(self).idx_vec@,
                    part@,
                    move_info.from_part as int,
                    old(self).spec_graph().spec_net_weight(move_info.net) as int,
                    i,
                ) + general_delta_term(
                    old(self).idx_vec@,
                    part@,
                    move_info.to_part as int,
                    -(old(self).spec_graph().spec_net_weight(move_info.net) as int),
                    i,
                ),
    {
        let ghost iv = self.idx_vec@;
        let degree = self.idx_vec.len();
        assert(iv.len() == degree);
        let mut delta_gain = vec![0i32; degree];
        let gain = self.hyprgraph.get_net_weight(move_info.net) as i32;
        let mut num: [usize; 2] = [0, 0];
        let mut j: usize = 0;
        while j < self.idx_vec.len()
            invariant
                self.idx_vec@ == iv,
                forall|i: int| 0 <= i < iv.len() ==> (#[trigger] iv[i]) < part@.len(),
                j <= iv.len(),
                num@[0] == count_in_part(iv, part@, 0, j as int),
                num@[1] == count_in_part(iv, part@, 1, j as int),
                count_in_part(iv, part@, 0, j as int) <= j,
                count_in_part(iv, part@, 1, j as int) <= j,
            decreases iv.len() - j,
        {
            let p = part[self.hyprgraph.module_index(self.idx_vec[j])] as usize;
            if p < 2 {
                num[p] = num[p] + 1;
            }
            j = j + 1;
        }
        let ghost g = gain as int;
        let mut current_gain = gain;
        let mut round: usize = 0;
        while round < 2
            invariant
                *self == *old(self),
                self.idx_vec@ == iv,
                forall|i: int| 0 <= i < iv.len() ==> (#[trigger] iv[i]) < part@.len(),
                num@[0] == count_in_part(iv, part@, 0, iv.len() as int),
                num@[1] == count_in_part(iv, part@, 1, iv.len() as int),
                move_info.from_part < 2,
                move_info.to_part < 2,
                0 <= g <= i32::MAX / 2,
                round <= 2,
                iv.len() == degree,
                current_gain == (if round == 1 {
                    -g
                } else {
                    g
                }),
                delta_gain@.len() == iv.len(),
                forall|i: int|
                    0 <= i < iv.len() ==> #[trigger] delta_gain@[i] == (if round > 0 {
                        general_delta_term(iv, part@, move_info.from_part as int, g, i)
                    } else {
                        0
                    }) + (if round > 1 {
                        general_delta_term(iv, part@, move_info.to_part as int, -g, i)
                    } else {
                        0
                    }),
            decreases 2 - round,
        {
            let target_part = if round == 0 {
                move_info.from_part
            } else {
                move_info.to_part
            };
            let tp = target_part as usize;
            let ghost before = delta_gain@;
            proof {
                lemma_first_props(iv, part@, tp as int, iv.len() as int);
                assert forall|i: int| 0 <= i < iv.len() implies -g <= #[trigger] general_delta_term(
                    iv,
                    part@,
                    move_info.from_part as int,
                    g,
                    i,
                ) <= g by {
                }
            }
            if num[tp] == 0 {
                let mut i: usize = 0;
                while i < delta_gain.len()
                    invariant
                        delta_gain@.len() == before.len(),
                        i <= before.len(),
                        forall|k: int|
                            0 <= k < before.len() ==> #[trigger] delta_gain@[k] == before[k] - (if k < i {
                                current_gain as int
                            } else {
                                0
                            }),
                        forall|k: int| 0 <= k < before.len() ==> -g <= #[trigger] before[k] <= g,
                        current_gain == g || current_gain == -g,
                        0 <= g <= i32::MAX / 2,
                    decreases before.len() - i,
                {
                    delta_gain[i] = delta_gain[i] - current_gain;
                    i = i + 1;
                }
            } else if num[tp] == 1 {
                let mut index: usize = 0;
                while part[self.hyprgraph.module_index(self.idx_vec[index])] != target_part
                    invariant
                        self.idx_vec@ == iv,
                        forall|i: int| 0 <= i < iv.len() ==> (#[trigger] iv[i]) < part@.len(),
                        index < iv.len(),
                        first_in_part(iv, part@, tp as int, index as int) == -1,
                        first_in_part(iv, part@, tp as int, iv.len() as int) >= index,
                        first_in_part(iv, part@, tp as int, iv.len() as int) < iv.len(),
                        part@[iv[first_in_part(iv, part@, tp as int, iv.len() as int)] as int] == tp,
                        tp == target_part,
                        iv.len() == degree,
                    decreases iv.len() - index,
                {
                    proof {
                        assert(first_in_part(iv, part@, tp as int, index as int + 1) == -1);
                        assert(first_in_part(iv, part@, tp as int, iv.len() as int) != index);
                    }
                    index = index + 1;
                }
                proof {
                    lemma_first_found(iv, part@, tp as int, index as int, iv.len() as int);
                }
                delta_gain[index] = delta_gain[index] + current_gain;
            }
            current_gain = -current_gain;
            round = round + 1;
        }
        delta_gain
    }
}
} // verus!
