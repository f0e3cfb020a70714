//! Gain calculation for k-way Fiduccia-Mattheyses partitioning: every module
//! keeps one gain per part, the gain of moving it there.
use vstd::prelude::*;
use crate::fm_bi_gain_calc::{
    count_in_part, first_in_part, handled_degree, lemma_first_found, lemma_first_none_count_zero,
    lemma_first_props, lemma_net_weight_mono, net_at, net_weight_upto, num_nets, pins_except,
    total_net_weight, valid_part,
};
use crate::hypergraph::{Hypergraph, is_netlist};
use crate::moveinfo::MoveInfo;

verus! {

/// A change of `d` to every gain of module `a` but its gain in part `pa`.
pub open spec fn others_term(a: usize, pa: int, d: int, k: int, x: usize) -> int {
    if x == a && k != pa {
        d
    } else {
        0
    }
}

/// A change of `d` to the gain of module `a` in part `k0`.
pub open spec fn one_term(a: usize, k0: int, d: int, k: int, x: usize) -> int {
    if x == a && k == k0 {
        d
    } else {
        0
    }
}

/// A 3-pin net with the lone pin `a` and the pins `b`, `c` together in one
/// part: `a` gains `w` for joining them, and `b`, `c` lose `w` for leaving,
/// except towards the part of `a`.
pub open spec fn lone_pin_term(part: Seq<u8>, a: usize, b: usize, c: usize, w: int, k: int, x: usize) -> int {
    one_term(a, part[b as int] as int, w, k, x) + others_term(b, part[b as int] as int, -w, k, x)
        + one_term(b, part[a as int] as int, w, k, x) + others_term(c, part[c as int] as int, -w, k, x)
        + one_term(c, part[a as int] as int, w, k, x)
}

/// A 3-pin net with its pins in three different parts: each pin gains `w`
/// towards the part of each other pin.
pub open spec fn spread_term(part: Seq<u8>, u: usize, v: usize, w0: usize, w: int, k: int, x: usize) -> int {
    one_term(v, part[u as int] as int, w, k, x) + one_term(w0, part[u as int] as int, w, k, x)
        + one_term(u, part[v as int] as int, w, k, x) + one_term(w0, part[v as int] as int, w, k, x)
        + one_term(u, part[w0 as int] as int, w, k, x) + one_term(v, part[w0 as int] as int, w, k, x)
}

/// A general net with pins `nb`: every pin loses `w` towards a part that
/// holds no pin, and the only pin of its part gains `w` towards every other
/// part.
pub open spec fn general_gain(nb: Seq<usize>, part: Seq<u8>, w: int, k: int, x: usize) -> int {
    (if count_in_part(nb, part, k, nb.len() as int) == 0 && nb.contains(x) {
        -w
    } else {
        0
    }) + (if nb.contains(x) && part[x as int] != k && count_in_part(
        nb,
        part,
        part[x as int] as int,
        nb.len() as int,
    ) == 1 {
        w
    } else {
        0
    })
}

/// The number of the parts `0..j` that hold a pin of `nb`.
pub open spec fn nonempty_parts(nb: Seq<usize>, part: Seq<u8>, j: int) -> nat
    decreases j,
{
    if j <= 0 {
        0
    } else {
        nonempty_parts(nb, part, j - 1) + if count_in_part(nb, part, j - 1, nb.len() as int) > 0 {
            1nat
        } else {
            0nat
        }
    }
}

/// What `net` adds to module `x`'s gain towards part `k`.
pub open spec fn kway_net_gain<G: Hypergraph>(g: &G, part: Seq<u8>, net: usize, k: int, x: usize) -> int {
    let nb = g.spec_neighbors(net);
    let w = g.spec_net_weight(net) as int;
    if !handled_degree(nb.len()) {
        0
    } else if nb.len() == 2 {
        let pa = part[nb[0] as int] as int;
        let pb = part[nb[1] as int] as int;
        if pa == pb {
            others_term(nb[0], pa, -w, k, x) + others_term(nb[1], pb, -w, k, x)
        } else {
            one_term(nb[0], pb, w, k, x) + one_term(nb[1], pa, w, k, x)
        }
    } else if nb.len() == 3 {
        let w0 = nb[0];
        let v = nb[1];
        let u = nb[2];
        let pw = part[w0 as int];
        let pv = part[v as int];
        let pu = part[u as int];
        if pu == pv && pw == pv {
            others_term(u, pu as int, -w, k, x) + others_term(v, pv as int, -w, k, x) + others_term(
                w0,
                pw as int,
                -w,
                k,
                x,
            )
        } else if pu == pv {
            lone_pin_term(part, w0, u, v, w, k, x)
        } else if pw == pv {
            lone_pin_term(part, u, v, w0, w, k, x)
        } else if pw == pu {
            lone_pin_term(part, v, w0, u, w, k, x)
        } else {
            spread_term(part, u, v, w0, w, k, x)
        }
    } else {
        general_gain(nb, part, w, k, x)
    }
}

/// What `net` adds to the cut cost: its weight for every part beyond the
/// first that holds one of its pins.
pub open spec fn kway_net_cost<G: Hypergraph>(g: &G, part: Seq<u8>, num_parts: int, net: usize) -> int {
    let nb = g.spec_neighbors(net);
    let w = g.spec_net_weight(net) as int;
    if !handled_degree(nb.len()) {
        0
    } else if nb.len() == 2 {
        if part[nb[0] as int] != part[nb[1] as int] {
            w
        } else {
            0
        }
    } else if nb.len() == 3 {
        let pw = part[nb[0] as int];
        let pv = part[nb[1] as int];
        let pu = part[nb[2] as int];
        if pu == pv && pw == pv {
            0
        } else if pu == pv || pw == pv || pw == pu {
            w
        } else {
            2 * w
        }
    } else {
        nonempty_parts(nb, part, num_parts) * w - w
    }
}

/// The cut cost collected from the first `k` nets.
pub open spec fn kway_cost_upto<G: Hypergraph>(g: &G, part: Seq<u8>, num_parts: int, k: int) -> int
    decreases k,
{
    if k <= 0 {
        0
    } else {
        kway_cost_upto(g, part, num_parts, k - 1) + kway_net_cost(g, part, num_parts, net_at(g, k - 1))
    }
}

/// Module `x`'s gain towards part `p`, collected from the first `k` nets.
pub open spec fn kway_gain_upto<G: Hypergraph>(g: &G, part: Seq<u8>, k: int, p: int, x: usize) -> int
    decreases k,
{
    if k <= 0 {
        0
    } else {
        kway_gain_upto(g, part, k - 1, p, x) + kway_net_gain(g, part, net_at(g, k - 1), p, x)
    }
}

/// The net weights are small enough for k-way gains and costs to fit in
/// `i32`.
pub open spec fn kway_weights_fit<G: Hypergraph>(g: &G, num_parts: int) -> bool {
    (num_parts + 2) * total_net_weight(g) <= i32::MAX
}

/// K-way Fiduccia-Mattheyses gain calculator.
pub struct FMKWayGainCalc<Gnl: Hypergraph> {
    pub hyprgraph: Gnl,
    pub init_gain_matrix: Vec<Vec<i32>>,
    pub total_cost: i32,
    pub delta_gain_v: Vec<i32>,
    pub idx_vec: Vec<usize>,
    pub delta_gain_w: Vec<Vec<i32>>,
    pub num_parts: u8,
}

impl<Gnl: Hypergraph> FMKWayGainCalc<Gnl> {
    /// The gain of module `x` towards part `k`.
    #[verifier::inline]
    pub open spec fn gain(&self, k: int, x: int) -> i32 {
        self.init_gain_matrix@[k]@[x]
    }

    /// The calculator's invariant: it reads a netlist whose weights fit, and
    /// keeps one gain per part and module.
    pub open spec fn wf(&self) -> bool {
        &&& self.hyprgraph.wf()
        &&& is_netlist(&self.hyprgraph)
        &&& kway_weights_fit(&self.hyprgraph, self.num_parts as int)
        &&& self.init_gain_matrix@.len() == self.num_parts
        &&& forall|k: int|
            0 <= k < self.num_parts ==> (#[trigger] self.init_gain_matrix@[k])@.len()
                == self.hyprgraph.spec_num_modules()
    }

    /// The other fields agree with those of `o`.
    pub open spec fn same_but_gains(&self, o: &Self) -> bool {
        &&& self.hyprgraph == o.hyprgraph
        &&& self.delta_gain_v == o.delta_gain_v
        &&& self.idx_vec == o.idx_vec
        &&& self.delta_gain_w == o.delta_gain_w
        &&& self.num_parts == o.num_parts
    }

    /// A calculator for `hyprgraph` and `num_parts` parts with all gains zero.
    pub fn new(hyprgraph: Gnl, num_parts: u8) -> (r: Self)
        requires
            hyprgraph.wf(),
            is_netlist(&hyprgraph),
            kway_weights_fit(&hyprgraph, num_parts as int),
        ensures
            r.wf(),
            r.hyprgraph == hyprgraph,
            r.num_parts == num_parts,
            r.total_cost == 0,
            forall|k: int, x: int|
                0 <= k < num_parts && 0 <= x < hyprgraph.spec_num_modules() ==> #[trigger] r.gain(k, x)
                    == 0,
            r.delta_gain_v@ == Seq::<i32>::empty(),
            r.idx_vec@ == Seq::<usize>::empty(),
            r.delta_gain_w@ == Seq::<Vec<i32>>::empty(),
    {
        let nmod = hyprgraph.number_of_modules();
        let mut init_gain_matrix: Vec<Vec<i32>> = Vec::new();
        let mut k: u8 = 0;
        while k < num_parts
            invariant
                k <= num_parts,
                init_gain_matrix@.len() == k,
                forall|q: int| 0 <= q < k ==> (#[trigger] init_gain_matrix@[q])@ == Seq::new(
                    nmod as nat,
                    |x: int| 0i32,
                ),
            decreases num_parts - k,
        {
            let row = vec![0i32; nmod];
            assert(row@ =~= Seq::new(nmod as nat, |x: int| 0i32));
            init_gain_matrix.push(row);
            k = k + 1;
        }
        FMKWayGainCalc {
            hyprgraph,
            init_gain_matrix,
            total_cost: 0,
            delta_gain_v: Vec::new(),
            idx_vec: Vec::new(),
            delta_gain_w: Vec::new(),
            num_parts,
        }
    }

    /// Adds `d` to the gain of module `x` towards part `k`.
    fn add_gain(&mut self, k: usize, x: usize, d: i32)
        requires
            old(self).wf(),
            k < old(self).num_parts,
            x < old(self).hyprgraph.spec_num_modules(),
            i32::MIN <= old(self).gain(k as int, x as int) + d <= i32::MAX,
        ensures
            final(self).wf(),
            final(self).same_but_gains(old(self)),
            final(self).total_cost == old(self).total_cost,
            forall|kk: int, xx: int|
                0 <= kk < old(self).num_parts && 0 <= xx < old(self).hyprgraph.spec_num_modules()
                    ==> #[trigger] final(self).gain(kk, xx) == old(self).gain(kk, xx) + one_term(
                    x,
                    k as int,
                    d as int,
                    kk,
                    xx as usize,
                ),
    {
        let v = self.init_gain_matrix[k][x] + d;
        self.init_gain_matrix[k].set(x, v);
    }

    /// Adds `weight` to every gain of module `v` but the one towards part
    /// `pv`.
    pub fn modify_gain(&mut self, v: usize, pv: u8, weight: i32)
        requires
            old(self).wf(),
            v < old(self).hyprgraph.spec_num_modules(),
            forall|k: int|
                0 <= k < old(self).num_parts && k != pv ==> i32::MIN <= #[trigger] old(self).gain(
                    k,
                    v as int,
                ) + weight <= i32::MAX,
        ensures
            final(self).wf(),
            final(self).same_but_gains(old(self)),
            final(self).total_cost == old(self).total_cost,
            forall|kk: int, xx: int|
                0 <= kk < old(self).num_parts && 0 <= xx < old(self).hyprgraph.spec_num_modules()
                    ==> #[trigger] final(self).gain(kk, xx) == old(self).gain(kk, xx) + others_term(
                    v,
                    pv as int,
                    weight as int,
                    kk,
                    xx as usize,
                ),
    {
        let idx = self.hyprgraph.module_index(v);
        let mut k: u8 = 0;
        while k < self.num_parts
            invariant
                self.wf(),
                self.same_but_gains(old(self)),
                self.total_cost == old(self).total_cost,
                idx == v,
                v < self.hyprgraph.spec_num_modules(),
                k <= self.num_parts,
                forall|kq: int|
                    0 <= kq < old(self).num_parts && kq != pv ==> i32::MIN <= #[trigger] old(self).gain(
                        kq,
                        v as int,
                    ) + weight <= i32::MAX,
                forall|kk: int, xx: int|
                    0 <= kk < self.num_parts && 0 <= xx < self.hyprgraph.spec_num_modules()
                        ==> #[trigger] self.gain(kk, xx) == old(self).gain(kk, xx) + (if kk < k {
                        others_term(v, pv as int, weight as int, kk, xx as usize)
                    } else {
                        0
                    }),
            decreases self.num_parts - k,
        {
            if k != pv {
                proof {
                    assert(self.gain(k as int, v as int) == old(self).gain(k as int, v as int));
                }
                self.add_gain(k as usize, idx, weight);
            }
            k = k + 1;
        }
    }
}

/// Multiplying by a weight keeps the order.
pub proof fn lemma_mul_le(a: int, b: int, w: int)
    requires
        a <= b,
        0 <= w,
    ensures
        a * w <= b * w,
{
    assert(a * w <= b * w) by (nonlinear_arith)
        requires
            a <= b,
            0 <= w,
    ;
}

/// At most `j` of the parts `0..j` hold a pin.
pub proof fn lemma_nonempty_parts_bound(nb: Seq<usize>, part: Seq<u8>, j: int)
    requires
        0 <= j,
    ensures
        nonempty_parts(nb, part, j) <= j,
    decreases j,
{
    if j > 0 {
        lemma_nonempty_parts_bound(nb, part, j - 1);
    }
}

/// A net moves each k-way gain by at most twice its weight, and adds between
/// minus its weight and `num_parts` times its weight to the cost.
pub proof fn lemma_kway_net_bounds<G: Hypergraph>(
    g: &G,
    part: Seq<u8>,
    num_parts: int,
    net: usize,
    k: int,
    x: usize,
)
    requires
        is_netlist(g),
        g.spec_num_modules() <= net < g.spec_num_nodes(),
        part.len() == g.spec_num_modules(),
        valid_part(part, num_parts),
        num_parts >= 0,
    ensures
        -2 * g.spec_net_weight(net) <= kway_net_gain(g, part, net, k, x) <= 2 * g.spec_net_weight(net),
        -g.spec_net_weight(net) <= kway_net_cost(g, part, num_parts, net) <= num_parts
            * g.spec_net_weight(net),
{
    let nb = g.spec_neighbors(net);
    let w = g.spec_net_weight(net) as int;
    assert(nb.no_duplicates());
    assert(num_parts * w >= 0 || num_parts < 0) by (nonlinear_arith)
        requires
            w >= 0,
    ;
    if handled_degree(nb.len()) {
        assert(nb[0] < g.spec_num_nodes());
        assert(nb[0] < g.spec_num_modules());
        assert(part[nb[0] as int] < num_parts);
        assert(num_parts >= 1);
        if nb.len() == 2 {
            assert(nb[0] != nb[1]);
            assert(nb[1] < g.spec_num_modules());
            assert(part[nb[1] as int] < num_parts);
            if part[nb[0] as int] != part[nb[1] as int] {
                assert(num_parts >= 2);
                assert(w <= num_parts * w) by (nonlinear_arith)
                    requires
                        num_parts >= 1,
                        w >= 0,
                ;
            }
        } else if nb.len() == 3 {
            assert(nb[0] != nb[1] && nb[1] != nb[2] && nb[0] != nb[2]);
            assert(nb[1] < g.spec_num_modules() && nb[2] < g.spec_num_modules());
            assert(part[nb[1] as int] < num_parts && part[nb[2] as int] < num_parts);
            let pw = part[nb[0] as int] as int;
            let pv = part[nb[1] as int] as int;
            let pu = part[nb[2] as int] as int;
            if !(pu == pv || pw == pv || pw == pu) {
                assert(num_parts >= 3);
            }
            assert(2 * w <= num_parts * w || num_parts < 2) by (nonlinear_arith)
                requires
                    w >= 0,
            ;
            assert(w <= num_parts * w) by (nonlinear_arith)
                requires
                    num_parts >= 1,
                    w >= 0,
            ;
        } else {
            lemma_nonempty_parts_bound(nb, part, num_parts);
            let ne = nonempty_parts(nb, part, num_parts) as int;
            assert(ne * w <= num_parts * w) by (nonlinear_arith)
                requires
                    ne <= num_parts,
                    w >= 0,
            ;
            assert(ne * w >= 0) by (nonlinear_arith)
                requires
                    ne >= 0,
                    w >= 0,
            ;
        }
    }
}

/// A pin in part `p` among the first `n` makes the count positive; two make
/// it at least two.
pub proof fn lemma_count_pins(nb: Seq<usize>, part: Seq<u8>, p: int, i: int, j: int, n: int)
    requires
        0 <= i < n <= nb.len(),
        part[nb[i] as int] == p,
    ensures
        count_in_part(nb, part, p, n) >= 1,
        i < j < n && part[nb[j] as int] == p ==> count_in_part(nb, part, p, n) >= 2,
    decreases n,
{
    if n > i + 1 {
        lemma_count_pins(nb, part, p, i, j, n - 1);
    }
    if i < j < n && part[nb[j] as int] == p {
        if j < n - 1 {
            lemma_count_pins(nb, part, p, i, j, n - 1);
        } else {
            lemma_count_pins(nb, part, p, i, i, n - 1);
        }
    }
}

/// The number of nonempty parts grows by one at each nonempty part.
pub proof fn lemma_nonempty_step(nb: Seq<usize>, part: Seq<u8>, j: int)
    requires
        0 <= j,
    ensures
        nonempty_parts(nb, part, j + 1) == nonempty_parts(nb, part, j) + if count_in_part(
            nb,
            part,
            j,
            nb.len() as int,
        ) > 0 {
            1int
        } else {
            0int
        },
{
}

/// The part of general gain that the parts `0..j` give.
pub open spec fn general_gain_upto(nb: Seq<usize>, part: Seq<u8>, w: int, j: int, k: int, x: usize) -> int {
    (if k < j && count_in_part(nb, part, k, nb.len() as int) == 0 && nb.contains(x) {
        -w
    } else {
        0
    }) + (if nb.contains(x) && part[x as int] < j && part[x as int] != k && count_in_part(
        nb,
        part,
        part[x as int] as int,
        nb.len() as int,
    ) == 1 {
        w
    } else {
        0
    })
}

impl<Gnl: Hypergraph> FMKWayGainCalc<Gnl> {
    /// The gains and cost leave room for one more net of weight `w`.
    pub open spec fn headroom(&self, w: int) -> bool {
        &&& 0 <= w
        &&& 2 * w <= i32::MAX
        &&& -i32::MAX + w <= self.total_cost
        &&& self.total_cost + self.num_parts * w <= i32::MAX
        &&& forall|k: int, x: int|
            0 <= k < self.num_parts && 0 <= x < self.hyprgraph.spec_num_modules() ==> -(i32::MAX - 2
                * w) <= #[trigger] self.gain(k, x) <= i32::MAX - 2 * w
    }

    /// Facts about the pins of a net that follow from the netlist shape.
    proof fn lemma_net_pins(&self, net: usize)
        requires
            self.wf(),
            self.hyprgraph.spec_num_modules() <= net < self.hyprgraph.spec_num_nodes(),
        ensures
            self.hyprgraph.spec_neighbors(net).no_duplicates(),
            forall|j: int|
                0 <= j < self.hyprgraph.spec_neighbors(net).len() ==> (
                #[trigger] self.hyprgraph.spec_neighbors(net)[j]) < self.hyprgraph.spec_num_modules(),
    {
        let g = self.hyprgraph;
        assert(g.spec_neighbors(net).no_duplicates());
        assert forall|j: int| 0 <= j < g.spec_neighbors(net).len() implies (#[trigger] g.spec_neighbors(
            net,
        )[j]) < g.spec_num_modules() by {
            assert(g.spec_neighbors(net)[j] < g.spec_num_nodes());
        }
    }

    /// The gains and cost after `net`: each gain gets its share of the net.
    pub open spec fn net_applied(&self, o: &Self, part: Seq<u8>, net: usize) -> bool {
        &&& self.wf()
        &&& self.same_but_gains(o)
        &&& self.total_cost == o.total_cost + kway_net_cost(&o.hyprgraph, part, o.num_parts as int, net)
        &&& forall|k: int, x: int|
            0 <= k < o.num_parts && 0 <= x < o.hyprgraph.spec_num_modules() ==> #[trigger] self.gain(k, x)
                == o.gain(k, x) + kway_net_gain(&o.hyprgraph, part, net, k, x as usize)
    }

    fn init_gain_2pin_net(&mut self, net: usize, part: &[u8])
        requires
            old(self).wf(),
            old(self).hyprgraph.spec_num_modules() <= net < old(self).hyprgraph.spec_num_nodes(),
            part@.len() == old(self).hyprgraph.spec_num_modules(),
            valid_part(part@, old(self).num_parts as int),
            old(self).hyprgraph.spec_neighbors(net).len() == 2,
            old(self).headroom(old(self).hyprgraph.spec_net_weight(net) as int),
        ensures
            final(self).net_applied(old(self), part@, net),
    {
        proof {
            self.lemma_net_pins(net);
        }
        let nbrs = self.hyprgraph.neighbors(net);
        let a = nbrs[0];
        let b = nbrs[1];
        let weight = self.hyprgraph.get_net_weight(net) as i32;
        let pa = part[self.hyprgraph.module_index(a)];
        let pb = part[self.hyprgraph.module_index(b)];
        if pa == pb {
            self.modify_gain(a, pa, -weight);
            self.modify_gain(b, pb, -weight);
        } else {
            proof {
                assert(-(i32::MAX - 2 * weight) <= self.gain(pb as int, a as int) <= i32::MAX - 2 * weight);
                assert(-(i32::MAX - 2 * weight) <= self.gain(pa as int, b as int) <= i32::MAX - 2 * weight);
                lemma_mul_le(1, self.num_parts as int, weight as int);
            }
            self.add_gain(pb as usize, a, weight);
            self.add_gain(pa as usize, b, weight);
            self.total_cost = self.total_cost + weight;
        }
    }

    /// The 3-pin case with the lone pin `a` and the pins `b`, `c` together.
    fn init_gain_lone_pin(&mut self, a: usize, b: usize, c: usize, weight: i32, part: &[u8])
        requires
            old(self).wf(),
            a < part@.len() && b < part@.len() && c < part@.len(),
            a != b && b != c && a != c,
            part@[b as int] == part@[c as int],
            part@[a as int] != part@[b as int],
            part@.len() == old(self).hyprgraph.spec_num_modules(),
            valid_part(part@, old(self).num_parts as int),
            old(self).headroom(weight as int),
        ensures
            final(self).wf(),
            final(self).same_but_gains(old(self)),
            final(self).total_cost == old(self).total_cost + weight,
            forall|k: int, x: int|
                0 <= k < old(self).num_parts && 0 <= x < old(self).hyprgraph.spec_num_modules()
                    ==> #[trigger] final(self).gain(k, x) == old(self).gain(k, x) + lone_pin_term(
                    part@,
                    a,
                    b,
                    c,
                    weight as int,
                    k,
                    x as usize,
                ),
    {
        let pa = part[a];
        let pb = part[b];
        let pc = part[c];
        let ghost s0 = *self;
        let ghost w = weight as int;
        proof {
            assert(-(i32::MAX - 2 * w) <= s0.gain(pb as int, a as int) <= i32::MAX - 2 * w);
            assert forall|k: int| 0 <= k < s0.num_parts implies -(i32::MAX - 2 * w) <= #[trigger] s0.gain(k, b as int)
                <= i32::MAX - 2 * w && -(i32::MAX - 2 * w) <= s0.gain(k, c as int) <= i32::MAX - 2 * w by {}
            lemma_mul_le(1, self.num_parts as int, w);
        }
        self.add_gain(pb as usize, a, weight);
        let ghost s1 = *self;
        self.modify_gain(b, pb, -weight);
        let ghost s2 = *self;
        proof {
            assert(s2.gain(pa as int, b as int) == s0.gain(pa as int, b as int) - w);
        }
        self.add_gain(pa as usize, b, weight);
        let ghost s3 = *self;
        self.modify_gain(c, pc, -weight);
        let ghost s4 = *self;
        proof {
            assert(s4.gain(pa as int, c as int) == s0.gain(pa as int, c as int) - w);
        }
        self.add_gain(pa as usize, c, weight);
        proof {
            assert forall|k: int, x: int|
                0 <= k < s0.num_parts && 0 <= x < s0.hyprgraph.spec_num_modules() implies #[trigger] self.gain(
                k,
                x,
            ) == s0.gain(k, x) + lone_pin_term(part@, a, b, c, w, k, x as usize) by {
                assert(self.gain(k, x) == s4.gain(k, x) + one_term(c, pa as int, w, k, x as usize));
                assert(s4.gain(k, x) == s3.gain(k, x) + others_term(c, pc as int, -w, k, x as usize));
                assert(s3.gain(k, x) == s2.gain(k, x) + one_term(b, pa as int, w, k, x as usize));
                assert(s2.gain(k, x) == s1.gain(k, x) + others_term(b, pb as int, -w, k, x as usize));
                assert(s1.gain(k, x) == s0.gain(k, x) + one_term(a, pb as int, w, k, x as usize));
            }
        }
        self.total_cost = self.total_cost + weight;
    }

    /// Applies the share of part `k` of a general net with pins `nbrs`, `n`
    /// of them in part `k`.
    fn init_gain_general_part(&mut self, nbrs: &Vec<usize>, part: &[u8], k: u8, n: usize, weight: i32)
        requires
            old(self).wf(),
            nbrs@.no_duplicates(),
            forall|j: int| 0 <= j < nbrs@.len() ==> (#[trigger] nbrs@[j]) < part@.len(),
            part@.len() == old(self).hyprgraph.spec_num_modules(),
            valid_part(part@, old(self).num_parts as int),
            k < old(self).num_parts,
            n == count_in_part(nbrs@, part@, k as int, nbrs@.len() as int),
            0 <= weight,
            2 * weight <= i32::MAX,
            forall|kk: int, xx: int|
                0 <= kk < old(self).num_parts && 0 <= xx < old(self).hyprgraph.spec_num_modules() ==> -(
                i32::MAX - weight) <= #[trigger] old(self).gain(kk, xx) <= i32::MAX - weight,
        ensures
            final(self).wf(),
            final(self).same_but_gains(old(self)),
            final(self).total_cost == old(self).total_cost,
            forall|kk: int, xx: int|
                0 <= kk < old(self).num_parts && 0 <= xx < old(self).hyprgraph.spec_num_modules()
                    ==> #[trigger] final(self).gain(kk, xx) == old(self).gain(kk, xx)
                    + general_gain_upto(nbrs@, part@, weight as int, k + 1, kk, xx as usize)
                    - general_gain_upto(nbrs@, part@, weight as int, k as int, kk, xx as usize),
    {
        let ghost nb = nbrs@;
        let ghost w = weight as int;
        let ghost s0 = *self;
        proof {
            lemma_first_props(nb, part@, k as int, nb.len() as int);
        }
        if n == 0 {
            let mut j: usize = 0;
            while j < nbrs.len()
                invariant
                    self.wf(),
                    self.same_but_gains(&s0),
                    self.total_cost == s0.total_cost,
                    s0 == *old(self),
                    nbrs@ == nb,
                    nb.no_duplicates(),
                    forall|i: int| 0 <= i < nb.len() ==> (#[trigger] nb[i]) < part@.len(),
                    part@.len() == s0.hyprgraph.spec_num_modules(),
                    k < s0.num_parts,
                    j <= nb.len(),
                    w == weight,
                    0 <= w,
                    2 * w <= i32::MAX,
                    forall|kk: int, xx: int|
                        0 <= kk < s0.num_parts && 0 <= xx < s0.hyprgraph.spec_num_modules() ==> -(i32::MAX
                            - w) <= #[trigger] s0.gain(kk, xx) <= i32::MAX - w,
                    forall|kk: int, xx: int|
                        0 <= kk < s0.num_parts && 0 <= xx < s0.hyprgraph.spec_num_modules()
                            ==> #[trigger] self.gain(kk, xx) == s0.gain(kk, xx) - (if kk == k
                            && nb.subrange(0, j as int).contains(xx as usize) {
                            w
                        } else {
                            0
                        }),
                decreases nb.len() - j,
            {
                let x = nbrs[j];
                proof {
                    assert(!nb.subrange(0, j as int).contains(x)) by {
                        if nb.subrange(0, j as int).contains(x) {
                            let i = choose|i: int| 0 <= i < j && nb.subrange(0, j as int)[i] == x;
                            assert(nb[i] == nb[j as int]);
                        }
                    }
                    assert(self.gain(k as int, x as int) == s0.gain(k as int, x as int));
                }
                self.add_gain(k as usize, x, -weight);
                proof {
                    assert forall|kk: int, xx: int|
                        0 <= kk < s0.num_parts && 0 <= xx < s0.hyprgraph.spec_num_modules() implies #[trigger] self.gain(
                        kk,
                        xx,
                    ) == s0.gain(kk, xx) - (if kk == k && nb.subrange(0, j + 1).contains(xx as usize) {
                        w
                    } else {
                        0
                    }) by {
                        assert(nb.subrange(0, j + 1) =~= nb.subrange(0, j as int).push(x));
                        if xx as usize == x {
                            assert(nb.subrange(0, j + 1)[j as int] == x);
                        } else if nb.subrange(0, j as int).contains(xx as usize) {
                            let i = choose|i: int| 0 <= i < j && #[trigger] nb.subrange(0, j as int)[i] == xx as usize;
                            assert(nb.subrange(0, j + 1)[i] == xx as usize);
                        } else {
                            assert(!nb.subrange(0, j + 1).contains(xx as usize)) by {
                                if nb.subrange(0, j + 1).contains(xx as usize) {
                                    let i = choose|i: int| 0 <= i < j + 1 && #[trigger] nb.subrange(0, j + 1)[i] == xx as usize;
                                    if i < j {
                                        assert(nb.subrange(0, j as int)[i] == xx as usize);
                                    }
                                }
                            }
                        }
                    }
                }
                j = j + 1;
            }
            proof {
                assert(nb.subrange(0, nb.len() as int) =~= nb);
                assert forall|kk: int, xx: int|
                    0 <= kk < s0.num_parts && 0 <= xx < s0.hyprgraph.spec_num_modules() implies #[trigger] self.gain(
                    kk,
                    xx,
                ) == s0.gain(kk, xx) + general_gain_upto(nb, part@, w, k + 1, kk, xx as usize)
                    - general_gain_upto(nb, part@, w, k as int, kk, xx as usize) by {
                    if nb.contains(xx as usize) && part@[xx] == k {
                        let i = choose|i: int| 0 <= i < nb.len() && nb[i] == xx as usize;
                        lemma_count_pins(nb, part@, k as int, i, i, nb.len() as int);
                    }
                }
            }
        } else if n == 1 {
            let mut j: usize = 0;
            while j < nbrs.len()
                invariant
                    *self == s0,
                    s0 == *old(self),
                    self.wf(),
                    nbrs@ == nb,
                    nb.no_duplicates(),
                    forall|i: int| 0 <= i < nb.len() ==> (#[trigger] nb[i]) < part@.len(),
                    part@.len() == s0.hyprgraph.spec_num_modules(),
                    valid_part(part@, s0.num_parts as int),
                    k < s0.num_parts,
                    j <= nb.len(),
                    first_in_part(nb, part@, k as int, j as int) == -1,
                    n == 1,
                    n == count_in_part(nb, part@, k as int, nb.len() as int),
                    w == weight,
                    0 <= w,
                    2 * w <= i32::MAX,
                    forall|kk: int, xx: int|
                        0 <= kk < s0.num_parts && 0 <= xx < s0.hyprgraph.spec_num_modules() ==> -(i32::MAX
                            - w) <= #[trigger] s0.gain(kk, xx) <= i32::MAX - w,
                decreases nb.len() - j,
            {
                let x = nbrs[j];
                if part[self.hyprgraph.module_index(x)] == k {
                    proof {
                        lemma_first_found(nb, part@, k as int, j as int, nb.len() as int);
                    }
                    self.modify_gain(x, k, weight);
                    proof {
                        assert forall|kk: int, xx: int|
                            0 <= kk < s0.num_parts && 0 <= xx < s0.hyprgraph.spec_num_modules() implies #[trigger] self.gain(
                            kk,
                            xx,
                        ) == s0.gain(kk, xx) + general_gain_upto(nb, part@, w, k + 1, kk, xx as usize)
                            - general_gain_upto(nb, part@, w, k as int, kk, xx as usize) by {
                            if nb.contains(xx as usize) && part@[xx] == k && xx as usize != x {
                                let i = choose|i: int| 0 <= i < nb.len() && nb[i] == xx as usize;
                                if i < j {
                                    lemma_count_pins(nb, part@, k as int, i, j as int, nb.len() as int);
                                } else {
                                    lemma_count_pins(nb, part@, k as int, j as int, i, nb.len() as int);
                                }
                            }
                            if xx as usize == x {
                                assert(nb.contains(x)) by {
                                    assert(nb[j as int] == x);
                                }
                            }
                        }
                    }
                    return ;
                }
                j = j + 1;
            }
            proof {
                lemma_first_none_count_zero(nb, part@, k as int, nb.len() as int);
            }
        } else {
            proof {
                assert forall|kk: int, xx: int|
                    0 <= kk < s0.num_parts && 0 <= xx < s0.hyprgraph.spec_num_modules() implies #[trigger] self.gain(
                    kk,
                    xx,
                ) == s0.gain(kk, xx) + general_gain_upto(nb, part@, w, k + 1, kk, xx as usize)
                    - general_gain_upto(nb, part@, w, k as int, kk, xx as usize) by {
                }
            }
        }
    }

    fn init_gain_general_net(&mut self, net: usize, part: &[u8])
        requires
            old(self).wf(),
            old(self).hyprgraph.spec_num_modules() <= net < old(self).hyprgraph.spec_num_nodes(),
            part@.len() == old(self).hyprgraph.spec_num_modules(),
            valid_part(part@, old(self).num_parts as int),
            handled_degree(old(self).hyprgraph.spec_neighbors(net).len()),
            old(self).hyprgraph.spec_neighbors(net).len() > 3,
            old(self).headroom(old(self).hyprgraph.spec_net_weight(net) as int),
        ensures
            final(self).net_applied(old(self), part@, net),
    {
        proof {
            self.lemma_net_pins(net);
        }
        let nbrs = self.hyprgraph.neighbors(net);
        let ghost nb = nbrs@;
        let np = self.num_parts as usize;
        let mut num: Vec<usize> = vec![0usize; np];
        let mut j: usize = 0;
        while j < nbrs.len()
            invariant
                nbrs@ == nb,
                forall|i: int| 0 <= i < nb.len() ==> (#[trigger] nb[i]) < part@.len(),
                j <= nb.len(),
                num@.len() == np,
                forall|q: int|
                    0 <= q < np ==> (#[trigger] num@[q]) == count_in_part(nb, part@, q, j as int)
                        && count_in_part(nb, part@, q, j as int) <= j,
            decreases nb.len() - j,
        {
            let x = nbrs[j];
            let p = part[self.hyprgraph.module_index(x)] as usize;
            let ghost num0 = num@;
            if p < np {
                num.set(p, num[p] + 1);
            }
            proof {
                assert forall|q: int| 0 <= q < np implies (#[trigger] num@[q]) == count_in_part(nb, part@, q, j + 1)
                    && count_in_part(nb, part@, q, j + 1) <= j + 1 by {
                    assert(num0[q] == count_in_part(nb, part@, q, j as int));
                    assert(count_in_part(nb, part@, q, j + 1) == count_in_part(nb, part@, q, j as int) + if part@[nb[j as int] as int] == q {
                        1int
                    } else {
                        0int
                    });
                }
            }
            j = j + 1;
        }
        let weight = self.hyprgraph.get_net_weight(net) as i32;
        let ghost w = weight as int;
        let ghost s0 = *self;
        proof {
            assert(nonempty_parts(nb, part@, 0) == 0);
            assert(0 * w == 0);
        }
        let mut k: usize = 0;
        while k < np
            invariant
                self.wf(),
                *self == (FMKWayGainCalc { total_cost: self.total_cost, ..s0 }),
                np == s0.num_parts,
                num@.len() == np,
                forall|q: int| 0 <= q < np ==> (#[trigger] num@[q]) == count_in_part(nb, part@, q, nb.len() as int),
                k <= np,
                w == weight,
                s0.headroom(w),
                self.total_cost == s0.total_cost + nonempty_parts(nb, part@, k as int) * w,
            decreases np - k,
        {
            proof {
                let ne = nonempty_parts(nb, part@, k as int) as int;
                assert((ne + 1) * w == ne * w + w) by (nonlinear_arith);
                lemma_nonempty_step(nb, part@, k as int);
                lemma_nonempty_parts_bound(nb, part@, k as int + 1);
                lemma_mul_le(nonempty_parts(nb, part@, k as int + 1) as int, np as int, w);
                lemma_mul_le(0, nonempty_parts(nb, part@, k as int) as int, w);
            }
            if num[k] > 0 {
                self.total_cost = self.total_cost + weight;
            }
            k = k + 1;
        }
        proof {
            lemma_mul_le(0, nonempty_parts(nb, part@, np as int) as int, w);
        }
        self.total_cost = self.total_cost - weight;
        let ghost s1 = *self;
        let mut k: u8 = 0;
        while k < self.num_parts
            invariant
                self.wf(),
                self.same_but_gains(&s1),
                self.total_cost == s1.total_cost,
                s1.same_but_gains(&s0),
                s1.num_parts == np,
                s1.wf(),
                nbrs@ == nb,
                nb == s0.hyprgraph.spec_neighbors(net),
                nb.no_duplicates(),
                forall|i: int| 0 <= i < nb.len() ==> (#[trigger] nb[i]) < part@.len(),
                part@.len() == s0.hyprgraph.spec_num_modules(),
                valid_part(part@, np as int),
                num@.len() == np,
                forall|q: int| 0 <= q < np ==> (#[trigger] num@[q]) == count_in_part(nb, part@, q, nb.len() as int),
                k <= np,
                w == weight,
                s0.headroom(w),
                forall|kk: int, xx: int|
                    0 <= kk < np && 0 <= xx < s0.hyprgraph.spec_num_modules() ==> #[trigger] self.gain(kk, xx)
                        == s0.gain(kk, xx) + general_gain_upto(nb, part@, w, k as int, kk, xx as usize),
            decreases np - k,
        {
            proof {
                assert forall|kk: int, xx: int|
                    0 <= kk < np && 0 <= xx < s0.hyprgraph.spec_num_modules() implies -(i32::MAX - w)
                        <= #[trigger] self.gain(kk, xx) <= i32::MAX - w by {
                    assert(-(i32::MAX - 2 * w) <= s0.gain(kk, xx) <= i32::MAX - 2 * w);
                }
            }
            let n = num[k as usize];
            self.init_gain_general_part(&nbrs, part, k, n, weight);
            k = k + 1;
        }
        proof {
            assert forall|kk: int, xx: int|
                0 <= kk < np && 0 <= xx < s0.hyprgraph.spec_num_modules() implies #[trigger] self.gain(kk, xx)
                    == s0.gain(kk, xx) + kway_net_gain(&s0.hyprgraph, part@, net, kk, xx as usize) by {
                assert(part@[xx] < np);
            }
        }
    }

    fn init_gain_3pin_net(&mut self, net: usize, part: &[u8])
        requires
            old(self).wf(),
            old(self).hyprgraph.spec_num_modules() <= net < old(self).hyprgraph.spec_num_nodes(),
            part@.len() == old(self).hyprgraph.spec_num_modules(),
            valid_part(part@, old(self).num_parts as int),
            old(self).hyprgraph.spec_neighbors(net).len() == 3,
            old(self).headroom(old(self).hyprgraph.spec_net_weight(net) as int),
        ensures
            final(self).net_applied(old(self), part@, net),
    {
        proof {
            self.lemma_net_pins(net);
            lemma_kway_net_bounds(&self.hyprgraph, part@, self.num_parts as int, net, 0, 0);
        }
        let nbrs = self.hyprgraph.neighbors(net);
        let w0 = nbrs[0];
        let v = nbrs[1];
        let u = nbrs[2];
        proof {
            assert(w0 != v && v != u && w0 != u);
        }
        let weight = self.hyprgraph.get_net_weight(net) as i32;
        let pu = part[self.hyprgraph.module_index(u)];
        let pv = part[self.hyprgraph.module_index(v)];
        let pw = part[self.hyprgraph.module_index(w0)];
        if pu == pv {
            if pw == pv {
                self.modify_gain(u, pu, -weight);
                self.modify_gain(v, pv, -weight);
                self.modify_gain(w0, pw, -weight);
                return ;
            }
            self.init_gain_lone_pin(w0, u, v, weight, part);
        } else if pw == pv {
            self.init_gain_lone_pin(u, v, w0, weight, part);
        } else if pw == pu {
            self.init_gain_lone_pin(v, w0, u, weight, part);
        } else {
            let ghost s0 = *self;
            let ghost w = weight as int;
            proof {
                assert(-(i32::MAX - 2 * w) <= s0.gain(pu as int, v as int) <= i32::MAX - 2 * w);
                assert(-(i32::MAX - 2 * w) <= s0.gain(pu as int, w0 as int) <= i32::MAX - 2 * w);
                assert(-(i32::MAX - 2 * w) <= s0.gain(pv as int, u as int) <= i32::MAX - 2 * w);
                assert(-(i32::MAX - 2 * w) <= s0.gain(pv as int, w0 as int) <= i32::MAX - 2 * w);
                assert(-(i32::MAX - 2 * w) <= s0.gain(pw as int, u as int) <= i32::MAX - 2 * w);
                assert(-(i32::MAX - 2 * w) <= s0.gain(pw as int, v as int) <= i32::MAX - 2 * w);
                assert(pu < self.num_parts && pv < self.num_parts && pw < self.num_parts);
                lemma_mul_le(2, self.num_parts as int, w);
            }
            self.add_gain(pu as usize, v, weight);
            let ghost s1 = *self;
            self.add_gain(pu as usize, w0, weight);
            let ghost s2 = *self;
            self.add_gain(pv as usize, u, weight);
            let ghost s3 = *self;
            self.add_gain(pv as usize, w0, weight);
            let ghost s4 = *self;
            self.add_gain(pw as usize, u, weight);
            let ghost s5 = *self;
            self.add_gain(pw as usize, v, weight);
            proof {
                assert forall|k: int, x: int|
                    0 <= k < s0.num_parts && 0 <= x < s0.hyprgraph.spec_num_modules() implies #[trigger] self.gain(
                    k,
                    x,
                ) == s0.gain(k, x) + spread_term(part@, u, v, w0, w, k, x as usize) by {
                    assert(self.gain(k, x) == s5.gain(k, x) + one_term(v, pw as int, w, k, x as usize));
                    assert(s5.gain(k, x) == s4.gain(k, x) + one_term(u, pw as int, w, k, x as usize));
                    assert(s4.gain(k, x) == s3.gain(k, x) + one_term(w0, pv as int, w, k, x as usize));
                    assert(s3.gain(k, x) == s2.gain(k, x) + one_term(u, pv as int, w, k, x as usize));
                    assert(s2.gain(k, x) == s1.gain(k, x) + one_term(w0, pu as int, w, k, x as usize));
                    assert(s1.gain(k, x) == s0.gain(k, x) + one_term(v, pu as int, w, k, x as usize));
                }
            }
            self.total_cost = self.total_cost + 2 * weight;
        }
    }
}

impl<Gnl: Hypergraph> FMKWayGainCalc<Gnl> {
    fn init_gain(&mut self, net: usize, part: &[u8])
        requires
            old(self).wf(),
            old(self).hyprgraph.spec_num_modules() <= net < old(self).hyprgraph.spec_num_nodes(),
            part@.len() == old(self).hyprgraph.spec_num_modules(),
            valid_part(part@, old(self).num_parts as int),
            old(self).headroom(old(self).hyprgraph.spec_net_weight(net) as int),
        ensures
            final(self).net_applied(old(self), part@, net),
    {
        let degree = self.hyprgraph.degree(net);
        if !(2 <= degree && degree <= 65536) {
            return ;
        }
        if degree == 2 {
            self.init_gain_2pin_net(net, part);
        } else if degree == 3 {
            self.init_gain_3pin_net(net, part);
        } else {
            self.init_gain_general_net(net, part);
        }
    }

    /// Computes every module's gain towards every part, and the cut cost of
    /// `part`; returns the cost.
    pub fn init(&mut self, part: &[u8]) -> (r: i32)
        requires
            old(self).wf(),
            part@.len() == old(self).hyprgraph.spec_num_modules(),
            valid_part(part@, old(self).num_parts as int),
        ensures
            final(self).wf(),
            final(self).same_but_gains(old(self)),
            r == final(self).total_cost,
            r == kway_cost_upto(
                &old(self).hyprgraph,
                part@,
                old(self).num_parts as int,
                num_nets(&old(self).hyprgraph),
            ),
            forall|k: int, x: int|
                0 <= k < old(self).num_parts && 0 <= x < old(self).hyprgraph.spec_num_modules()
                    ==> #[trigger] final(self).gain(k, x) == kway_gain_upto(
                    &old(self).hyprgraph,
                    part@,
                    num_nets(&old(self).hyprgraph),
                    k,
                    x as usize,
                ),
    {
        let ghost g = self.hyprgraph;
        let ghost np = self.num_parts as int;
        let ghost nm = g.spec_num_modules() as int;
        self.total_cost = 0;
        let mut k: usize = 0;
        while k < self.init_gain_matrix.len()
            invariant
                self.wf(),
                self.same_but_gains(old(self)),
                self.total_cost == 0,
                self.num_parts == np,
                self.hyprgraph == g,
                nm == g.spec_num_modules(),
                k <= np,
                forall|kk: int, xx: int| 0 <= kk < k && 0 <= xx < nm ==> #[trigger] self.gain(kk, xx) == 0,
            decreases np - k,
        {
            let n = self.init_gain_matrix[k].len();
            let mut i: usize = 0;
            while i < n
                invariant
                    self.wf(),
                    self.same_but_gains(old(self)),
                    self.total_cost == 0,
                    self.num_parts == np,
                    self.hyprgraph == g,
                    nm == g.spec_num_modules(),
                    k < np,
                    n == nm,
                    i <= n,
                    forall|kk: int, xx: int|
                        0 <= kk < k && 0 <= xx < nm ==> #[trigger] self.gain(kk, xx) == 0,
                    forall|xx: int| 0 <= xx < i ==> #[trigger] self.gain(k as int, xx) == 0,
                decreases n - i,
            {
                self.init_gain_matrix[k].set(i, 0);
                i = i + 1;
            }
            k = k + 1;
        }
        let nets = self.hyprgraph.nets();
        proof {
            g.lemma_node_counts();
            lemma_net_weight_mono(&g, 0, num_nets(&g));
            assert(2 * total_net_weight(&g) <= (np + 2) * total_net_weight(&g)) by (nonlinear_arith)
                requires
                    np >= 0,
                    total_net_weight(&g) >= 0,
            ;
        }
        let mut j: usize = 0;
        while j < nets.len()
            invariant
                self.wf(),
                self.hyprgraph == g,
                self.num_parts == np,
                self.same_but_gains(old(self)),
                part@.len() == nm,
                nm == g.spec_num_modules(),
                valid_part(part@, np),
                g.spec_num_modules() <= g.spec_num_nodes(),
                nets@.len() == num_nets(&g),
                forall|q: int| 0 <= q < nets@.len() ==> nets@[q] == g.spec_num_modules() + q,
                j <= nets@.len(),
                2 * total_net_weight(&g) <= i32::MAX,
                self.total_cost == kway_cost_upto(&g, part@, np, j as int),
                -net_weight_upto(&g, j as int) <= self.total_cost <= np * net_weight_upto(&g, j as int),
                forall|kk: int, xx: int|
                    0 <= kk < np && 0 <= xx < nm ==> #[trigger] self.gain(kk, xx) == kway_gain_upto(
                        &g,
                        part@,
                        j as int,
                        kk,
                        xx as usize,
                    ),
                forall|kk: int, xx: int|
                    0 <= kk < np && 0 <= xx < nm ==> -2 * net_weight_upto(&g, j as int) <= #[trigger] self.gain(
                        kk,
                        xx,
                    ) <= 2 * net_weight_upto(&g, j as int),
            decreases nets@.len() - j,
        {
            let net = nets[j];
            let ghost w = g.spec_net_weight(net) as int;
            let ghost wu = net_weight_upto(&g, j as int);
            proof {
                lemma_net_weight_mono(&g, j as int + 1, num_nets(&g));
                lemma_net_weight_mono(&g, j as int, j as int);
                assert(net_weight_upto(&g, j as int + 1) == wu + w);
                assert(net == net_at(&g, j as int));
                assert(np * wu + np * w == np * (wu + w)) by (nonlinear_arith);
                lemma_mul_le(wu + w, total_net_weight(&g), np);
                assert(np * total_net_weight(&g) <= (np + 2) * total_net_weight(&g)) by (nonlinear_arith)
                    requires
                        total_net_weight(&g) >= 0,
                ;
                assert((wu + w) * np == np * (wu + w)) by (nonlinear_arith);
                assert(total_net_weight(&g) * np == np * total_net_weight(&g)) by (nonlinear_arith);
            }
            let ghost s0 = *self;
            self.init_gain(net, part);
            proof {
                assert forall|kk: int, xx: int| 0 <= kk < np && 0 <= xx < nm implies #[trigger] self.gain(kk, xx)
                    == kway_gain_upto(&g, part@, j as int + 1, kk, xx as usize) && -2 * net_weight_upto(
                    &g,
                    j as int + 1,
                ) <= self.gain(kk, xx) <= 2 * net_weight_upto(&g, j as int + 1) by {
                    lemma_kway_net_bounds(&g, part@, np, net, kk, xx as usize);
                }
                lemma_kway_net_bounds(&g, part@, np, net, 0, 0);
            }
            j = j + 1;
        }
        self.total_cost
    }
}

/// The gain deltas, towards part `k`, of the other pin (in part `pw`) of a
/// 2-pin net of weight `w` when a pin moves from `fp` to `tp`.
pub open spec fn two_pin_row(pw: int, fp: int, tp: int, w: int, k: int) -> int {
    (if pw == fp {
        w
    } else {
        0
    }) - (if pw == tp {
        w
    } else {
        0
    }) - (if k == fp {
        w
    } else {
        0
    }) + (if k == tp {
        w
    } else {
        0
    })
}

/// The change that a 2-pin net makes to every per-part delta of the moved
/// vertex.
pub open spec fn two_pin_v(pw: int, fp: int, tp: int, w: int) -> int {
    (if pw == fp {
        w
    } else {
        0
    }) - (if pw == tp {
        w
    } else {
        0
    })
}

/// One round (part `cf` left, part `ct` joined) of the 3-pin update, for the
/// other pin `i` (0 in part `pw`, 1 in part `pu`), towards part `k`.
pub open spec fn three_pin_round(pw: int, pu: int, cf: int, w: int, i: int, k: int) -> int {
    if pw == pu {
        if pw != cf && k == cf {
            -w
        } else {
            0
        }
    } else if i == 0 {
        if pw == cf {
            w
        } else if pu != cf && k == cf {
            -w
        } else {
            0
        }
    } else {
        if pw == cf {
            0
        } else if pu == cf {
            w
        } else if k == cf {
            -w
        } else {
            0
        }
    }
}

/// One round of the 3-pin update for the moved vertex's per-part deltas.
pub open spec fn three_pin_round_v(pw: int, pu: int, cf: int, ct: int, w: int) -> int {
    if pw == pu {
        if pw != cf && pw == ct {
            -w
        } else {
            0
        }
    } else if pw != cf && pu != cf && (pw == ct || pu == ct) {
        -w
    } else {
        0
    }
}

/// One round (part `cf` left with signed weight `cw`, part `ct` joined) of
/// the general update, for the other pin at position `i` of `iv`, towards
/// part `k`.
pub open spec fn general_round(iv: Seq<usize>, part: Seq<u8>, cf: int, cw: int, i: int, k: int) -> int {
    let n = count_in_part(iv, part, cf, iv.len() as int);
    if n == 0 {
        if k == cf {
            -cw
        } else {
            0
        }
    } else if n == 1 && i == first_in_part(iv, part, cf, iv.len() as int) {
        cw
    } else {
        0
    }
}

/// One round of the general update for the moved vertex's per-part deltas.
pub open spec fn general_round_v(iv: Seq<usize>, part: Seq<u8>, cf: int, ct: int, cw: int) -> int {
    if count_in_part(iv, part, cf, iv.len() as int) == 0 && count_in_part(iv, part, ct, iv.len() as int)
        > 0 {
        -cw
    } else {
        0
    }
}

impl<Gnl: Hypergraph> FMKWayGainCalc<Gnl> {
    /// The moved vertex has one delta per part, each with room for `b` more.
    pub open spec fn dv_room(&self, b: int) -> bool {
        &&& self.delta_gain_v@.len() == self.num_parts
        &&& forall|k: int|
            0 <= k < self.num_parts ==> -(i32::MAX - b) <= #[trigger] self.delta_gain_v@[k] <= i32::MAX
                - b
    }

    /// Starts a move: every per-part delta of the moved vertex is zero.
    pub fn update_move_init(&mut self)
        ensures
            final(self).hyprgraph == old(self).hyprgraph,
            final(self).init_gain_matrix == old(self).init_gain_matrix,
            final(self).total_cost == old(self).total_cost,
            final(self).idx_vec == old(self).idx_vec,
            final(self).delta_gain_w == old(self).delta_gain_w,
            final(self).num_parts == old(self).num_parts,
            final(self).delta_gain_v@ == Seq::new(old(self).num_parts as nat, |k: int| 0i32),
    {
        self.delta_gain_v = vec![0i32; self.num_parts as usize];
        assert(self.delta_gain_v@ =~= Seq::new(self.num_parts as nat, |k: int| 0i32));
    }

    /// Collects the pins of `net` other than `v` in `idx_vec`.
    pub fn init_idx_vec(&mut self, v: usize, net: usize)
        requires
            old(self).wf(),
            net < old(self).hyprgraph.spec_num_nodes(),
            old(self).hyprgraph.spec_neighbors(net).len() >= 1,
        ensures
            final(self).wf(),
            final(self).hyprgraph == old(self).hyprgraph,
            final(self).init_gain_matrix == old(self).init_gain_matrix,
            final(self).total_cost == old(self).total_cost,
            final(self).delta_gain_v == old(self).delta_gain_v,
            final(self).delta_gain_w == old(self).delta_gain_w,
            final(self).num_parts == old(self).num_parts,
            final(self).idx_vec@ == pins_except(
                old(self).hyprgraph.spec_neighbors(net),
                v,
                old(self).hyprgraph.spec_neighbors(net).len() as int,
            ),
    {
        self.idx_vec.clear();
        let nbrs = self.hyprgraph.neighbors(net);
        let degree = nbrs.len();
        self.idx_vec.reserve(degree - 1);
        let mut j: usize = 0;
        while j < nbrs.len()
            invariant
                self.wf(),
                self.hyprgraph == old(self).hyprgraph,
                self.init_gain_matrix == old(self).init_gain_matrix,
                self.total_cost == old(self).total_cost,
                self.delta_gain_v == old(self).delta_gain_v,
                self.delta_gain_w == old(self).delta_gain_w,
                self.num_parts == old(self).num_parts,
                nbrs@ == old(self).hyprgraph.spec_neighbors(net),
                j <= nbrs@.len(),
                self.idx_vec@ == pins_except(nbrs@, v, j as int),
            decreases nbrs@.len() - j,
        {
            let w = nbrs[j];
            if w != v {
                self.idx_vec.push(w);
            }
            j = j + 1;
        }
    }

    /// The pins collected by the last `init_idx_vec`.
    pub fn idx_vec(&self) -> (r: &Vec<usize>)
        ensures
            r@ == self.idx_vec@,
    {
        &self.idx_vec
    }

    /// Adds `d` to every per-part delta of the moved vertex.
    fn add_to_dv(&mut self, d: i32)
        requires
            old(self).delta_gain_v@.len() == old(self).num_parts,
            forall|k: int|
                0 <= k < old(self).num_parts ==> i32::MIN <= #[trigger] old(self).delta_gain_v@[k] + d
                    <= i32::MAX,
        ensures
            final(self).hyprgraph == old(self).hyprgraph,
            final(self).init_gain_matrix == old(self).init_gain_matrix,
            final(self).total_cost == old(self).total_cost,
            final(self).idx_vec == old(self).idx_vec,
            final(self).delta_gain_w == old(self).delta_gain_w,
            final(self).num_parts == old(self).num_parts,
            final(self).delta_gain_v@ == Seq::new(
                old(self).num_parts as nat,
                |k: int| (old(self).delta_gain_v@[k] + d) as i32,
            ),
    {
        let np = self.num_parts as usize;
        let mut k: usize = 0;
        while k < np
            invariant
                self.hyprgraph == old(self).hyprgraph,
                self.init_gain_matrix == old(self).init_gain_matrix,
                self.total_cost == old(self).total_cost,
                self.idx_vec == old(self).idx_vec,
                self.delta_gain_w == old(self).delta_gain_w,
                self.num_parts == old(self).num_parts,
                np == self.num_parts,
                k <= np,
                self.delta_gain_v@.len() == np,
                forall|q: int|
                    0 <= q < np ==> i32::MIN <= #[trigger] old(self).delta_gain_v@[q] + d <= i32::MAX,
                forall|q: int|
                    0 <= q < np ==> #[trigger] self.delta_gain_v@[q] == (if q < k {
                        old(self).delta_gain_v@[q] + d
                    } else {
                        old(self).delta_gain_v@[q] as int
                    }),
            decreases np - k,
        {
            let x = self.delta_gain_v[k] + d;
            self.delta_gain_v.set(k, x);
            k = k + 1;
        }
        assert(self.delta_gain_v@ =~= Seq::new(
            old(self).num_parts as nat,
            |k: int| (old(self).delta_gain_v@[k] + d) as i32,
        ));
    }

    /// Moving `move_info.v` from `from_part` to `to_part` across the 2-pin
    /// net `move_info.net`: returns the other pin `w`, records its per-part
    /// deltas as the one row of `delta_gain_w`, and updates the moved vertex's
    /// deltas.
    pub fn update_move_2pin_net(&mut self, part: &[u8], move_info: &MoveInfo<usize>) -> (r: usize)
        requires
            old(self).wf(),
            old(self).hyprgraph.spec_num_modules() <= move_info.net < old(self).hyprgraph.spec_num_nodes(),
            old(self).hyprgraph.spec_neighbors(move_info.net).len() == 2,
            part@.len() == old(self).hyprgraph.spec_num_modules(),
            valid_part(part@, old(self).num_parts as int),
            move_info.from_part < old(self).num_parts,
            move_info.to_part < old(self).num_parts,
            2 * old(self).hyprgraph.spec_net_weight(move_info.net) <= i32::MAX,
            old(self).dv_room(2 * old(self).hyprgraph.spec_net_weight(move_info.net)),
        ensures
            final(self).wf(),
            final(self).hyprgraph == old(self).hyprgraph,
            final(self).init_gain_matrix == old(self).init_gain_matrix,
            final(self).total_cost == old(self).total_cost,
            final(self).idx_vec == old(self).idx_vec,
            final(self).num_parts == old(self).num_parts,
            ({
                let nb = old(self).hyprgraph.spec_neighbors(move_info.net);
                let w = old(self).hyprgraph.spec_net_weight(move_info.net) as int;
                let np = old(self).num_parts as nat;
                let fp = move_info.from_part as int;
                let tp = move_info.to_part as int;
                &&& r == (if nb[0] != move_info.v {
                    nb[0]
                } else {
                    nb[1]
                })
                &&& r < part@.len()
                &&& final(self).delta_gain_w@.len() == 1
                &&& final(self).delta_gain_w@[0]@ == Seq::new(
                    np,
                    |k: int| two_pin_row(part@[r as int] as int, fp, tp, w, k) as i32,
                )
                &&& final(self).delta_gain_v@ == Seq::new(
                    np,
                    |k: int|
                        (old(self).delta_gain_v@[k] + two_pin_v(part@[r as int] as int, fp, tp, w)) as i32,
                )
            }),
    {
        proof {
            self.lemma_net_pins(move_info.net);
        }
        let nbrs = self.hyprgraph.neighbors(move_info.net);
        let first = nbrs[0];
        let second = nbrs[1];
        let w = if first != move_info.v {
            first
        } else {
            second
        };
        let part_w = part[self.hyprgraph.module_index(w)];
        let mut weight = self.hyprgraph.get_net_weight(move_info.net) as i32;
        let ghost wt = weight as int;
        let fp = move_info.from_part;
        let tp = move_info.to_part;
        let np = self.num_parts as usize;
        let mut dg_w: Vec<i32> = vec![0i32; np];
        let ghost dv0 = self.delta_gain_v@;
        let mut round: usize = 0;
        while round < 2
            invariant
                self.wf(),
                self.hyprgraph == old(self).hyprgraph,
                self.init_gain_matrix == old(self).init_gain_matrix,
                self.total_cost == old(self).total_cost,
                self.idx_vec == old(self).idx_vec,
                self.delta_gain_w == old(self).delta_gain_w,
                self.num_parts == old(self).num_parts,
                np == self.num_parts,
                fp < np,
                tp < np,
                round <= 2,
                0 <= wt,
                2 * wt <= i32::MAX,
                weight == (if round == 1 {
                    -wt
                } else {
                    wt
                }),
                dv0 == old(self).delta_gain_v@,
                old(self).dv_room(2 * wt),
                dg_w@.len() == np,
                self.delta_gain_v@.len() == np,
                forall|k: int|
                    0 <= k < np ==> #[trigger] dg_w@[k] == (if round > 0 {
                        (if part_w == fp {
                            wt
                        } else {
                            0
                        }) - (if k == fp {
                            wt
                        } else {
                            0
                        })
                    } else {
                        0
                    }) + (if round > 1 {
                        (if part_w == tp {
                            -wt
                        } else {
                            0
                        }) + (if k == tp {
                            wt
                        } else {
                            0
                        })
                    } else {
                        0
                    }),
                forall|k: int|
                    0 <= k < np ==> #[trigger] self.delta_gain_v@[k] == dv0[k] + (if round > 0
                        && part_w == fp {
                        wt
                    } else {
                        0
                    }) + (if round > 1 && part_w == tp {
                        -wt
                    } else {
                        0
                    }),
            decreases 2 - round,
        {
            let l_part = if round == 0 {
                fp
            } else {
                tp
            };
            if part_w == l_part {
                let mut k: usize = 0;
                let ghost dg0 = dg_w@;
                while k < np
                    invariant
                        dg_w@.len() == np,
                        k <= np,
                        weight == wt || weight == -wt,
                        0 <= wt,
                        2 * wt <= i32::MAX,
                        forall|q: int| 0 <= q < np ==> -wt <= #[trigger] dg0[q] <= wt,
                        forall|q: int|
                            0 <= q < np ==> #[trigger] dg_w@[q] == dg0[q] + (if q < k {
                                weight as int
                            } else {
                                0
                            }),
                    decreases np - k,
                {
                    let x = dg_w[k] + weight;
                    dg_w.set(k, x);
                    k = k + 1;
                }
                self.add_to_dv(weight);
            }
            let x = dg_w[l_part as usize] - weight;
            dg_w.set(l_part as usize, x);
            weight = -weight;
            round = round + 1;
        }
        let mut rows: Vec<Vec<i32>> = Vec::new();
        rows.push(dg_w);
        self.delta_gain_w = rows;
        proof {
            assert(self.delta_gain_w@[0]@ =~= Seq::new(
                np as nat,
                |k: int| two_pin_row(part@[w as int] as int, fp as int, tp as int, wt, k) as i32,
            ));
            assert(self.delta_gain_v@ =~= Seq::new(
                np as nat,
                |k: int| (dv0[k] + two_pin_v(part@[w as int] as int, fp as int, tp as int, wt)) as i32,
            ));
        }
        w
    }
}

/// Adds `d` to entry `k` of row `i`.
fn add_row_entry(rows: &mut Vec<Vec<i32>>, i: usize, k: usize, d: i32)
    requires
        i < old(rows)@.len(),
        k < old(rows)@[i as int]@.len(),
        i32::MIN <= old(rows)@[i as int]@[k as int] + d <= i32::MAX,
    ensures
        final(rows)@.len() == old(rows)@.len(),
        forall|q: int|
            0 <= q < old(rows)@.len() ==> (#[trigger] final(rows)@[q])@ == if q == i {
                old(rows)@[q]@.update(k as int, (old(rows)@[q]@[k as int] + d) as i32)
            } else {
                old(rows)@[q]@
            },
{
    let x = rows[i][k] + d;
    rows[i].set(k, x);
}

/// Adds `d` to every entry of row `i`.
fn add_row_all(rows: &mut Vec<Vec<i32>>, i: usize, d: i32)
    requires
        i < old(rows)@.len(),
        forall|k: int|
            0 <= k < old(rows)@[i as int]@.len() ==> i32::MIN <= #[trigger] old(rows)@[i as int]@[k] + d
                <= i32::MAX,
    ensures
        final(rows)@.len() == old(rows)@.len(),
        forall|q: int|
            0 <= q < old(rows)@.len() ==> (#[trigger] final(rows)@[q])@ == if q == i {
                Seq::new(old(rows)@[q]@.len(), |k: int| (old(rows)@[q]@[k] + d) as i32)
            } else {
                old(rows)@[q]@
            },
{
    let n = rows[i].len();
    let mut k: usize = 0;
    while k < n
        invariant
            i < old(rows)@.len(),
            rows@.len() == old(rows)@.len(),
            n == old(rows)@[i as int]@.len(),
            k <= n,
            forall|q: int| 0 <= q < old(rows)@.len() && q != i ==> (#[trigger] rows@[q])@ == old(rows)@[q]@,
            rows@[i as int]@.len() == n,
            forall|j: int|
                0 <= j < n ==> i32::MIN <= #[trigger] old(rows)@[i as int]@[j] + d <= i32::MAX,
            forall|j: int|
                0 <= j < n ==> #[trigger] rows@[i as int]@[j] == (if j < k {
                    old(rows)@[i as int]@[j] + d
                } else {
                    old(rows)@[i as int]@[j] as int
                }),
        decreases n - k,
    {
        let x = rows[i][k] + d;
        rows[i].set(k, x);
        k = k + 1;
    }
    assert(rows@[i as int]@ =~= Seq::new(old(rows)@[i as int]@.len(), |j: int| (old(rows)@[i as int]@[j] + d) as i32));
}

/// `n` rows of `np` zeros.
fn zero_rows(n: usize, np: usize) -> (rows: Vec<Vec<i32>>)
    ensures
        rows@.len() == n,
        forall|q: int| 0 <= q < n ==> (#[trigger] rows@[q])@ == Seq::new(np as nat, |k: int| 0i32),
{
    let mut rows: Vec<Vec<i32>> = Vec::new();
    let mut i: usize = 0;
    while i < n
        invariant
            i <= n,
            rows@.len() == i,
            forall|q: int| 0 <= q < i ==> (#[trigger] rows@[q])@ == Seq::new(np as nat, |k: int| 0i32),
        decreases n - i,
    {
        let row = vec![0i32; np];
        assert(row@ =~= Seq::new(np as nat, |k: int| 0i32));
        rows.push(row);
        i = i + 1;
    }
    rows
}

impl<Gnl: Hypergraph> FMKWayGainCalc<Gnl> {
    /// Moving `move_info.v` across a 3-pin net: the per-part deltas of the
    /// two other pins `idx_vec[0]` and `idx_vec[1]` (one row each, further
    /// rows zero), and the moved vertex's deltas updated.
    pub fn update_move_3pin_net(&mut self, part: &[u8], move_info: &MoveInfo<usize>) -> (r: Vec<Vec<i32>>)
        requires
            old(self).wf(),
            old(self).idx_vec@.len() >= 2,
            old(self).idx_vec@[0] < part@.len(),
            old(self).idx_vec@[1] < part@.len(),
            valid_part(part@, old(self).num_parts as int),
            move_info.from_part < old(self).num_parts,
            move_info.to_part < old(self).num_parts,
            2 * old(self).hyprgraph.spec_net_weight(move_info.net) <= i32::MAX,
            old(self).dv_room(2 * old(self).hyprgraph.spec_net_weight(move_info.net)),
        ensures
            final(self).wf(),
            final(self).hyprgraph == old(self).hyprgraph,
            final(self).init_gain_matrix == old(self).init_gain_matrix,
            final(self).total_cost == old(self).total_cost,
            final(self).idx_vec == old(self).idx_vec,
            final(self).delta_gain_w == old(self).delta_gain_w,
            final(self).num_parts == old(self).num_parts,
            ({
                let w = old(self).hyprgraph.spec_net_weight(move_info.net) as int;
                let np = old(self).num_parts as nat;
                let fp = move_info.from_part as int;
                let tp = move_info.to_part as int;
                let pw = part@[old(self).idx_vec@[0] as int] as int;
                let pu = part@[old(self).idx_vec@[1] as int] as int;
                &&& r@.len() == old(self).idx_vec@.len()
                &&& forall|i: int|
                    0 <= i < r@.len() ==> (#[trigger] r@[i])@ == Seq::new(
                        np,
                        |k: int|
                            (if i < 2 {
                                three_pin_round(pw, pu, fp, w, i, k) + three_pin_round(pw, pu, tp, -w, i, k)
                            } else {
                                0
                            }) as i32,
                    )
                &&& final(self).delta_gain_v@ == Seq::new(
                    np,
                    |k: int|
                        (old(self).delta_gain_v@[k] + three_pin_round_v(pw, pu, fp, tp, w)
                            + three_pin_round_v(pw, pu, tp, fp, -w)) as i32,
                )
            }),
    {
        let weight = self.hyprgraph.get_net_weight(move_info.net) as i32;
        let ghost wt = weight as int;
        let np = self.num_parts as usize;
        let fp = move_info.from_part;
        let tp = move_info.to_part;
        let mut delta_gain = zero_rows(self.idx_vec.len(), np);
        let part_w = part[self.hyprgraph.module_index(self.idx_vec[0])];
        let part_u = part[self.hyprgraph.module_index(self.idx_vec[1])];
        let ghost pw = part_w as int;
        let ghost pu = part_u as int;
        let ghost dv0 = self.delta_gain_v@;
        let ghost nrows = self.idx_vec@.len();
        let mut cur_fp = fp;
        let mut cur_tp = tp;
        let mut cur_w: i32 = weight;
        let mut round: usize = 0;
        while round < 2
            invariant
                self.wf(),
                self.hyprgraph == old(self).hyprgraph,
                self.init_gain_matrix == old(self).init_gain_matrix,
                self.total_cost == old(self).total_cost,
                self.idx_vec == old(self).idx_vec,
                self.delta_gain_w == old(self).delta_gain_w,
                self.num_parts == old(self).num_parts,
                np == self.num_parts,
                nrows == self.idx_vec@.len(),
                nrows >= 2,
                pw == part_w as int,
                pu == part_u as int,
                fp < np,
                tp < np,
                round <= 2,
                cur_fp == (if round == 1 {
                    tp
                } else {
                    fp
                }),
                cur_tp == (if round == 1 {
                    fp
                } else {
                    tp
                }),
                weight == wt,
                cur_w == (if round == 1 {
                    -wt
                } else {
                    wt
                }),
                0 <= wt,
                2 * wt <= i32::MAX,
                dv0 == old(self).delta_gain_v@,
                old(self).dv_room(2 * wt),
                self.delta_gain_v@.len() == np,
                delta_gain@.len() == nrows,
                forall|i: int|
                    0 <= i < nrows ==> (#[trigger] delta_gain@[i])@.len() == np,
                forall|i: int, k: int|
                    0 <= i < nrows && 0 <= k < np ==> #[trigger] delta_gain@[i]@[k] == (if i < 2 {
                        (if round > 0 {
                            three_pin_round(pw, pu, fp as int, wt, i, k)
                        } else {
                            0
                        }) + (if round > 1 {
                            three_pin_round(pw, pu, tp as int, -wt, i, k)
                        } else {
                            0
                        })
                    } else {
                        0
                    }),
                forall|k: int|
                    0 <= k < np ==> #[trigger] self.delta_gain_v@[k] == dv0[k] + (if round > 0 {
                        three_pin_round_v(pw, pu, fp as int, tp as int, wt)
                    } else {
                        0
                    }) + (if round > 1 {
                        three_pin_round_v(pw, pu, tp as int, fp as int, -wt)
                    } else {
                        0
                    }),
            decreases 2 - round,
        {
            let ghost before = delta_gain@;
            let ghost dvb = self.delta_gain_v@;
            let ghost cf = cur_fp as int;
            let ghost ct = cur_tp as int;
            let ghost cw = cur_w as int;
            if part_w == part_u {
                if part_w != cur_fp {
                    add_row_entry(&mut delta_gain, 0, cur_fp as usize, -cur_w);
                    let ghost mid = delta_gain@;
                    add_row_entry(&mut delta_gain, 1, cur_fp as usize, -cur_w);
                    proof {
                        assert forall|i: int, k: int|
                            0 <= i < nrows && 0 <= k < np implies #[trigger] delta_gain@[i]@[k] == before[i]@[k]
                                + (if i < 2 {
                                three_pin_round(pw, pu, cf, cw, i, k)
                            } else {
                                0
                            }) by {
                            assert(mid[i]@ == (if i == 0 {
                                before[i]@.update(cf, (before[i]@[cf] - cw) as i32)
                            } else {
                                before[i]@
                            }));
                            assert(-wt <= before[i]@[k] <= wt);
                            assert(-wt <= before[i]@[cf] <= wt);
                            if i == 0 {
                                assert(delta_gain@[i]@ == mid[i]@);
                                if k == cf {
                                    assert(delta_gain@[i]@[k] == before[i]@[k] - cw);
                                } else {
                                    assert(delta_gain@[i]@[k] == before[i]@[k]);
                                }
                            } else if i == 1 {
                                assert(delta_gain@[i]@ == mid[i]@.update(cf, (mid[i]@[cf] - cw) as i32));
                                if k == cf {
                                    assert(delta_gain@[i]@[k] == before[i]@[k] - cw);
                                } else {
                                    assert(delta_gain@[i]@[k] == before[i]@[k]);
                                }
                            } else {
                                assert(delta_gain@[i]@ == before[i]@);
                            }
                        }
                    }
                    if part_w == cur_tp {
                        self.add_to_dv(-cur_w);
                    }
                } else {
                    assert(delta_gain@ == before);
                }
            } else {
                if part_w == cur_fp {
                    add_row_all(&mut delta_gain, 0, cur_w);
                    proof {
                        assert forall|i: int, k: int|
                            0 <= i < nrows && 0 <= k < np implies #[trigger] delta_gain@[i]@[k] == before[i]@[k]
                                + (if i < 2 {
                                three_pin_round(pw, pu, cf, cw, i, k)
                            } else {
                                0
                            }) by {}
                    }
                } else if part_u == cur_fp {
                    add_row_all(&mut delta_gain, 1, cur_w);
                    proof {
                        assert forall|i: int, k: int|
                            0 <= i < nrows && 0 <= k < np implies #[trigger] delta_gain@[i]@[k] == before[i]@[k]
                                + (if i < 2 {
                                three_pin_round(pw, pu, cf, cw, i, k)
                            } else {
                                0
                            }) by {}
                    }
                } else {
                    add_row_entry(&mut delta_gain, 0, cur_fp as usize, -cur_w);
                    let ghost mid = delta_gain@;
                    add_row_entry(&mut delta_gain, 1, cur_fp as usize, -cur_w);
                    proof {
                        assert forall|i: int, k: int|
                            0 <= i < nrows && 0 <= k < np implies #[trigger] delta_gain@[i]@[k] == before[i]@[k]
                                + (if i < 2 {
                                three_pin_round(pw, pu, cf, cw, i, k)
                            } else {
                                0
                            }) by {
                            assert(mid[i]@ == (if i == 0 {
                                before[i]@.update(cf, (before[i]@[cf] - cw) as i32)
                            } else {
                                before[i]@
                            }));
                        }
                    }
                    if part_w == cur_tp || part_u == cur_tp {
                        self.add_to_dv(-cur_w);
                    }
                }
            }
            proof {
                assert forall|k: int| 0 <= k < np implies #[trigger] self.delta_gain_v@[k] == dvb[k]
                    + three_pin_round_v(pw, pu, cf, ct, cw) by {
                    assert(-(i32::MAX - 2 * wt) <= dv0[k] <= i32::MAX - 2 * wt);
                    assert(-wt <= dvb[k] - dv0[k] <= wt);
                }
            }
            let t = cur_fp;
            cur_fp = cur_tp;
            cur_tp = t;
            cur_w = -cur_w;
            round = round + 1;
        }
        proof {
            assert forall|i: int| 0 <= i < delta_gain@.len() implies (#[trigger] delta_gain@[i])@ =~= Seq::new(
                np as nat,
                |k: int|
                    (if i < 2 {
                        three_pin_round(pw, pu, fp as int, wt, i, k) + three_pin_round(pw, pu, tp as int, -wt, i, k)
                    } else {
                        0
                    }) as i32,
            ) by {}
            assert(self.delta_gain_v@ =~= Seq::new(
                np as nat,
                |k: int|
                    (dv0[k] + three_pin_round_v(pw, pu, fp as int, tp as int, wt) + three_pin_round_v(
                        pw,
                        pu,
                        tp as int,
                        fp as int,
                        -wt,
                    )) as i32,
            ));
        }
        delta_gain
    }
}

impl<Gnl: Hypergraph> FMKWayGainCalc<Gnl> {
    /// Moving `move_info.v` across a general net: the per-part deltas of each
    /// other pin in `idx_vec` (one row each), and the moved vertex's deltas
    /// updated.
    pub fn update_move_general_net(&mut self, part: &[u8], move_info: &MoveInfo<usize>) -> (r: Vec<Vec<i32>>)
        requires
            old(self).wf(),
            forall|i: int| 0 <= i < old(self).idx_vec@.len() ==> (#[trigger] old(self).idx_vec@[i]) < part@.len(),
            valid_part(part@, old(self).num_parts as int),
            move_info.from_part < old(self).num_parts,
            move_info.to_part < old(self).num_parts,
            2 * old(self).hyprgraph.spec_net_weight(move_info.net) <= i32::MAX,
            old(self).dv_room(2 * old(self).hyprgraph.spec_net_weight(move_info.net)),
        ensures
            final(self).wf(),
            final(self).hyprgraph == old(self).hyprgraph,
            final(self).init_gain_matrix == old(self).init_gain_matrix,
            final(self).total_cost == old(self).total_cost,
            final(self).idx_vec == old(self).idx_vec,
            final(self).delta_gain_w == old(self).delta_gain_w,
            final(self).num_parts == old(self).num_parts,
            ({
                let w = old(self).hyprgraph.spec_net_weight(move_info.net) as int;
                let np = old(self).num_parts as nat;
                let fp = move_info.from_part as int;
                let tp = move_info.to_part as int;
                let iv = old(self).idx_vec@;
                &&& r@.len() == iv.len()
                &&& forall|i: int|
                    0 <= i < r@.len() ==> (#[trigger] r@[i])@ == Seq::new(
                        np,
                        |k: int| (general_round(iv, part@, fp, w, i, k) + general_round(iv, part@, tp, -w, i, k)) as i32,
                    )
                &&& final(self).delta_gain_v@ == Seq::new(
                    np,
                    |k: int|
                        (old(self).delta_gain_v@[k] + general_round_v(iv, part@, fp, tp, w)
                            + general_round_v(iv, part@, tp, fp, -w)) as i32,
                )
            }),
    {
        let ghost iv = self.idx_vec@;
        let np = self.num_parts as usize;
        let degree = self.idx_vec.len();
        let mut num: Vec<usize> = vec![0usize; np];
        let mut j: usize = 0;
        while j < self.idx_vec.len()
            invariant
                self.idx_vec@ == iv,
                forall|i: int| 0 <= i < iv.len() ==> (#[trigger] iv[i]) < part@.len(),
                j <= iv.len(),
                num@.len() == np,
                forall|q: int|
                    0 <= q < np ==> (#[trigger] num@[q]) == count_in_part(iv, part@, q, j as int)
                        && count_in_part(iv, part@, q, j as int) <= j,
            decreases iv.len() - j,
        {
            let p = part[self.hyprgraph.module_index(self.idx_vec[j])] as usize;
            let ghost num0 = num@;
            if p < np {
                num.set(p, num[p] + 1);
            }
            proof {
                assert forall|q: int| 0 <= q < np implies (#[trigger] num@[q]) == count_in_part(iv, part@, q, j + 1)
                    && count_in_part(iv, part@, q, j + 1) <= j + 1 by {
                    assert(num0[q] == count_in_part(iv, part@, q, j as int));
                }
            }
            j = j + 1;
        }
        let mut delta_gain = zero_rows(degree, np);
        let weight = self.hyprgraph.get_net_weight(move_info.net) as i32;
        let ghost wt = weight as int;
        let fp = move_info.from_part;
        let tp = move_info.to_part;
        let ghost dv0 = self.delta_gain_v@;
        let mut cur_fp = fp;
        let mut cur_tp = tp;
        let mut cur_weight = weight;
        let mut round: usize = 0;
        while round < 2
            invariant
                self.wf(),
                self.hyprgraph == old(self).hyprgraph,
                self.init_gain_matrix == old(self).init_gain_matrix,
                self.total_cost == old(self).total_cost,
                self.idx_vec == old(self).idx_vec,
                self.delta_gain_w == old(self).delta_gain_w,
                self.num_parts == old(self).num_parts,
                self.idx_vec@ == iv,
                iv == old(self).idx_vec@,
                forall|i: int| 0 <= i < iv.len() ==> (#[trigger] iv[i]) < part@.len(),
                np == self.num_parts,
                degree == iv.len(),
                num@.len() == np,
                forall|q: int| 0 <= q < np ==> (#[trigger] num@[q]) == count_in_part(iv, part@, q, iv.len() as int),
                fp < np,
                tp < np,
                round <= 2,
                cur_fp == (if round == 1 {
                    tp
                } else {
                    fp
                }),
                cur_tp == (if round == 1 {
                    fp
                } else {
                    tp
                }),
                cur_weight == (if round == 1 {
                    -wt
                } else {
                    wt
                }),
                weight == wt,
                0 <= wt,
                2 * wt <= i32::MAX,
                dv0 == old(self).delta_gain_v@,
                old(self).dv_room(2 * wt),
                self.delta_gain_v@.len() == np,
                delta_gain@.len() == degree,
                forall|i: int| 0 <= i < degree ==> (#[trigger] delta_gain@[i])@.len() == np,
                forall|i: int, k: int|
                    0 <= i < degree && 0 <= k < np ==> #[trigger] delta_gain@[i]@[k] == (if round > 0 {
                        general_round(iv, part@, fp as int, wt, i, k)
                    } else {
                        0
                    }) + (if round > 1 {
                        general_round(iv, part@, tp as int, -wt, i, k)
                    } else {
                        0
                    }),
                forall|k: int|
                    0 <= k < np ==> #[trigger] self.delta_gain_v@[k] == dv0[k] + (if round > 0 {
                        general_round_v(iv, part@, fp as int, tp as int, wt)
                    } else {
                        0
                    }) + (if round > 1 {
                        general_round_v(iv, part@, tp as int, fp as int, -wt)
                    } else {
                        0
                    }),
            decreases 2 - round,
        {
            let ghost before = delta_gain@;
            let ghost dvb = self.delta_gain_v@;
            let ghost cf = cur_fp as int;
            let ghost ct = cur_tp as int;
            let ghost cw = cur_weight as int;
            let fp_idx = cur_fp as usize;
            proof {
                lemma_first_props(iv, part@, cf, iv.len() as int);
                assert forall|i: int, k: int| 0 <= i < degree && 0 <= k < np implies -wt <= #[trigger] before[i]@[k] <= wt by {}
            }
            if num[fp_idx] == 0 {
                let mut row: usize = 0;
                while row < degree
                    invariant
                        delta_gain@.len() == degree,
                        forall|i: int| 0 <= i < degree ==> (#[trigger] delta_gain@[i])@.len() == np,
                        forall|i: int, k: int| 0 <= i < degree && 0 <= k < np ==> -wt <= #[trigger] before[i]@[k] <= wt,
                        before.len() == degree,
                        forall|i: int| 0 <= i < degree ==> (#[trigger] before[i])@.len() == np,
                        fp_idx < np,
                        row <= degree,
                        cw == cur_weight,
                        cw == wt || cw == -wt,
                        0 <= wt,
                        2 * wt <= i32::MAX,
                        forall|i: int, k: int|
                            0 <= i < degree && 0 <= k < np ==> #[trigger] delta_gain@[i]@[k] == before[i]@[k] - (
                            if i < row && k == fp_idx {
                                cw
                            } else {
                                0
                            }),
                    decreases degree - row,
                {
                    let ghost pre = delta_gain@;
                    add_row_entry(&mut delta_gain, row, fp_idx, -cur_weight);
                    proof {
                        assert forall|i: int, k: int|
                            0 <= i < degree && 0 <= k < np implies #[trigger] delta_gain@[i]@[k] == before[i]@[k] - (
                            if i < row + 1 && k == fp_idx {
                                cw
                            } else {
                                0
                            }) by {
                            assert(pre[i]@[k] == before[i]@[k] - (if i < row && k == fp_idx {
                                cw
                            } else {
                                0
                            }));
                        }
                    }
                    row = row + 1;
                }
                if num[cur_tp as usize] > 0 {
                    proof {
                        assert forall|k: int| 0 <= k < np implies i32::MIN <= #[trigger] self.delta_gain_v@[k] + (-cw) <= i32::MAX by {
                            assert(-(i32::MAX - 2 * wt) <= dv0[k] <= i32::MAX - 2 * wt);
                        }
                    }
                    self.add_to_dv(-cur_weight);
                }
            } else if num[fp_idx] == 1 {
                let mut index: usize = 0;
                while part[self.hyprgraph.module_index(self.idx_vec[index])] != cur_fp
                    invariant
                        self.idx_vec@ == iv,
                        forall|i: int| 0 <= i < iv.len() ==> (#[trigger] iv[i]) < part@.len(),
                        index < iv.len(),
                        degree == iv.len(),
                        first_in_part(iv, part@, cf, index as int) == -1,
                        first_in_part(iv, part@, cf, iv.len() as int) >= index,
                        first_in_part(iv, part@, cf, iv.len() as int) < iv.len(),
                        part@[iv[first_in_part(iv, part@, cf, iv.len() as int)] as int] == cf,
                        cf == cur_fp,
                    decreases iv.len() - index,
                {
                    proof {
                        assert(first_in_part(iv, part@, cf, index as int + 1) == -1);
                        assert(first_in_part(iv, part@, cf, iv.len() as int) != index);
                    }
                    index = index + 1;
                }
                proof {
                    lemma_first_found(iv, part@, cf, index as int, iv.len() as int);
                }
                add_row_all(&mut delta_gain, index, cur_weight);
            }
            proof {
                assert forall|i: int, k: int|
                    0 <= i < degree && 0 <= k < np implies #[trigger] delta_gain@[i]@[k] == before[i]@[k]
                        + general_round(iv, part@, cf, cw, i, k) by {}
                assert forall|k: int| 0 <= k < np implies #[trigger] self.delta_gain_v@[k] == dvb[k]
                    + general_round_v(iv, part@, cf, ct, cw) by {
                    assert(-(i32::MAX - 2 * wt) <= dv0[k] <= i32::MAX - 2 * wt);
                }
            }
            cur_weight = -cur_weight;
            let t = cur_fp;
            cur_fp = cur_tp;
            cur_tp = t;
            round = round + 1;
        }
        proof {
            assert forall|i: int| 0 <= i < delta_gain@.len() implies (#[trigger] delta_gain@[i])@ =~= Seq::new(
                np as nat,
                |k: int| (general_round(iv, part@, fp as int, wt, i, k) + general_round(iv, part@, tp as int, -wt, i, k)) as i32,
            ) by {}
            assert(self.delta_gain_v@ =~= Seq::new(
                np as nat,
                |k: int|
                    (dv0[k] + general_round_v(iv, part@, fp as int, tp as int, wt) + general_round_v(
                        iv,
                        part@,
                        tp as int,
                        fp as int,
                        -wt,
                    )) as i32,
            ));
        }
        delta_gain
    }
}

} // verus!
