//! The middle-levels partition manager: it walks the Hamiltonian cycle of the
//! middle-levels graph, whose vertices are the balanced two-part partitions,
//! keeps the gains and the cost of the current partition up to date flip by
//! flip, and remembers the cheapest legal partition it meets.
use vstd::prelude::*;
use crate::fm_bi_constr_mgr::FMBiConstrMgr;
use crate::fm_bi_gain_calc::{
    FMBiGainCalc, valid_part, weights_fit, lemma_pins_except, net_weight_upto, pins_except, general_delta_term,
};
use crate::fm_constr_mgr::{
    ConstrMgrInterface, LegalCheck, module_weight_upto, part_weights, meets_bound, lemma_move_part_weights, part_weight_upto,
};
use crate::hypergraph::{Hypergraph, is_netlist};
use crate::midlevel::hamcycle::{MidHamCycle, MidVisitor};
use crate::midlevel::vertex::MidVertex;
use crate::moveinfo::{MoveInfo, MoveInfoV};

verus! {

/// The largest degree of a net whose gains the walk updates.
pub const FM_MAX_DEGREE: usize = 500;


/// A shared hypergraph weighs what the hypergraph weighs.
proof fn lemma_shared_weights<G: Hypergraph>(g: &G, k: int)
    ensures
        net_weight_upto(&g, k) == net_weight_upto(g, k),
        module_weight_upto(&g, k) == module_weight_upto(g, k),
    decreases k,
{
    if k > 0 {
        lemma_shared_weights(g, k - 1);
    }
}

/// A shared hypergraph gives its parts the weights the hypergraph gives.
proof fn lemma_shared_part_weight<G: Hypergraph>(g: &G, part: Seq<u8>, p: int, k: int)
    ensures
        part_weight_upto(&g, part, p, k) == part_weight_upto(g, part, p, k),
    decreases k,
{
    if k > 0 {
        lemma_shared_part_weight(g, part, p, k - 1);
    }
}

/// The weights of the modules `0 .. k` of `g`, followed by `k`.
pub open spec fn module_weights_of<G: Hypergraph>(g: &G, k: int) -> Seq<int> {
    Seq::new(k as nat, |x: int| g.spec_module_weight(x as usize) as int).push(k)
}

/// Parts weigh the same under two hypergraphs whose modules below `k` weigh
/// the same.
pub(crate) proof fn lemma_part_weight_agree<G: Hypergraph, H: Hypergraph>(a: &G, b: &H, part: Seq<u8>, p: int, k: int)
    requires
        forall|x: int| 0 <= x < k ==> #[trigger] a.spec_module_weight(x as usize) == b.spec_module_weight(x as usize),
    ensures
        part_weight_upto(a, part, p, k) == part_weight_upto(b, part, p, k),
    decreases k,
{
    if k > 0 {
        lemma_part_weight_agree(a, b, part, p, k - 1);
        assert(a.spec_module_weight((k - 1) as usize) == b.spec_module_weight((k - 1) as usize));
    }
}

/// The gain changes that moving `v` from `from_part` to `to_part` hands
/// the other pins of `net`, as (module, delta) in the order they are made:
/// none for a net of a degree or weight the walk does not handle; for a
/// 2-pin net, twice the weight to the other pin, positive where it stays in
/// `from_part`; for a 3-pin net, the weight to the first other pin (negated
/// where it lies off `from_part`) and the same or its opposite to the second
/// (the same where the two lie together); for a larger net, each other pin's
/// terms for leaving `from_part` and for joining `to_part`.
pub open spec fn net_gain_updates<G: Hypergraph>(g: G, part: Seq<u8>, v: usize, from_part: u8, to_part: u8, net: usize) -> Seq<(usize, int)> {
    let nb = g.spec_neighbors(net);
    let deg = nb.len();
    let wt = g.spec_net_weight(net) as int;
    if !(2 <= deg <= FM_MAX_DEGREE && wt <= 1073741823) {
        Seq::empty()
    } else if deg == 2 {
        let w = if nb[0] != v {
            nb[0]
        } else {
            nb[1]
        };
        seq![(w, 2 * (if part[w as int] == from_part { wt } else { -wt }))]
    } else {
        let iv = pins_except(nb, v, deg as int);
        if deg == 3 {
            let adj = if part[iv[0] as int] != from_part {
                -wt
            } else {
                wt
            };
            seq![(iv[0], adj), (iv[1], if part[iv[0] as int] == part[iv[1] as int] { adj } else { -adj })]
        } else {
            Seq::new(
                iv.len(),
                |i: int|
                    (
                        iv[i],
                        general_delta_term(iv, part, from_part as int, wt, i) + general_delta_term(
                            iv,
                            part,
                            to_part as int,
                            -wt,
                            i,
                        ),
                    ),
            )
        }
    }
}

/// The gain changes over the first `k` nets of `v`, net after net.
pub open spec fn gain_updates_upto<G: Hypergraph>(g: G, part: Seq<u8>, v: usize, from_part: u8, to_part: u8, k: int) -> Seq<
    (usize, int),
>
    decreases k,
{
    if k <= 0 {
        Seq::empty()
    } else {
        gain_updates_upto(g, part, v, from_part, to_part, k - 1) + net_gain_updates(
            g,
            part,
            v,
            from_part,
            to_part,
            g.spec_neighbors(v)[k - 1],
        )
    }
}

/// The gains after adding each change in turn; `None` where a sum leaves
/// `i32`.
pub open spec fn apply_gain_updates(gains: Seq<i32>, ups: Seq<(usize, int)>) -> Option<Seq<i32>>
    decreases ups.len(),
{
    if ups.len() == 0 {
        Some(gains)
    } else {
        match apply_gain_updates(gains, ups.drop_last()) {
            Some(h) => {
                let w = ups.last().0 as int;
                let x = h[w] + ups.last().1;
                if i32::MIN <= x <= i32::MAX {
                    Some(h.update(w, x as i32))
                } else {
                    None
                }
            },
            None => None,
        }
    }
}

/// Once the changes overflow, more changes overflow too.
proof fn lemma_apply_none_extends(gains: Seq<i32>, a: Seq<(usize, int)>, b: Seq<(usize, int)>)
    requires
        apply_gain_updates(gains, a) is None,
    ensures
        apply_gain_updates(gains, a + b) is None,
    decreases b.len(),
{
    if b.len() == 0 {
        assert(a + b =~= a);
    } else {
        lemma_apply_none_extends(gains, a, b.drop_last());
        assert((a + b).drop_last() =~= a + b.drop_last());
    }
}

/// Once the changes of the first `k1` nets overflow, those of the first
/// `k2 >= k1` nets do.
proof fn lemma_updates_none_extends<G: Hypergraph>(
    gains: Seq<i32>,
    g: G,
    part: Seq<u8>,
    v: usize,
    from_part: u8,
    to_part: u8,
    k1: int,
    k2: int,
)
    requires
        k1 <= k2,
        apply_gain_updates(gains, gain_updates_upto(g, part, v, from_part, to_part, k1)) is None,
    ensures
        apply_gain_updates(gains, gain_updates_upto(g, part, v, from_part, to_part, k2)) is None,
    decreases k2 - k1,
{
    if k1 < k2 {
        lemma_updates_none_extends(gains, g, part, v, from_part, to_part, k1, k2 - 1);
        if k2 > 0 {
            lemma_apply_none_extends(
                gains,
                gain_updates_upto(g, part, v, from_part, to_part, k2 - 1),
                net_gain_updates(g, part, v, from_part, to_part, g.spec_neighbors(v)[k2 - 1]),
            );
        }
    }
}

/// What the walk keeps: the calculator and the balance manager of the
/// current partition, its gains and cost, and the best legal partition met.
/// `overflowed` is set once an update would leave `i32`; the walk's later
/// flips are then not followed.
struct MidLvlState<'a, Gnl: Hypergraph> {
    gain_calc: FMBiGainCalc<&'a Gnl>,
    constr_mgr: FMBiConstrMgr<&'a Gnl>,
    current_part: Vec<u8>,
    current_gain: Vec<i32>,
    current_cost: i32,
    best_part: Vec<u8>,
    best_cost: i32,
    num_modules: usize,
    overflowed: bool,
    seen: Ghost<Seq<(Seq<i32>, usize)>>,
}

impl<'a, Gnl: Hypergraph> MidLvlState<'a, Gnl> {
    /// The state's invariant: the calculator reads a netlist with
    /// `num_modules` modules, the balance manager has two parts, and the
    /// partitions and gains have one entry per module.
    spec fn state_inv(&self) -> bool {
        &&& self.gain_calc.wf()
        &&& self.constr_mgr.0.wf()
        &&& self.constr_mgr.0.num_parts == 2
        &&& self.num_modules == self.gain_calc.spec_graph().spec_num_modules()
        &&& self.current_part@.len() == self.num_modules
        &&& self.current_gain@.len() == self.num_modules
        &&& self.best_part@.len() == self.num_modules
        &&& valid_part(self.current_part@, 2)
        &&& valid_part(self.best_part@, 2)
    }

    /// Apply the gain delta `d` to module `w`; on overflow nothing changes
    /// and `false` comes back.
    fn add_gain(&mut self, w: usize, d: i32) -> (r: bool)
        requires
            old(self).state_inv(),
            w < old(self).num_modules,
        ensures
            final(self).state_inv(),
            final(self).gain_calc == old(self).gain_calc,
            final(self).constr_mgr == old(self).constr_mgr,
            final(self).current_part == old(self).current_part,
            final(self).num_modules == old(self).num_modules,
            final(self).overflowed == old(self).overflowed,
            final(self).current_cost == old(self).current_cost,
            final(self).best_part == old(self).best_part,
            final(self).best_cost == old(self).best_cost,
            final(self).seen == old(self).seen,
            r == (i32::MIN <= old(self).current_gain@[w as int] + d <= i32::MAX),
            final(self).current_gain@ == if r {
                old(self).current_gain@.update(w as int, (old(self).current_gain@[w as int] + d) as i32)
            } else {
                old(self).current_gain@
            },
    {
        match self.current_gain[w].checked_add(d) {
            Some(g) => {
                self.current_gain.set(w, g);
                true
            },
            None => false,
        }
    }

    /// Follow the move of module `v` from `from_part` to `to_part` through
    /// the nets of `v`: each net of a handled degree hands its other pins
    /// their gain deltas. Answers `false` where an update would leave `i32`.
    fn update_gains(&mut self, v: usize, from_part: u8, to_part: u8) -> (r: bool)
        requires
            old(self).state_inv(),
            v < old(self).num_modules,
            from_part < 2,
            to_part < 2,
        ensures
            final(self).state_inv(),
            final(self).constr_mgr == old(self).constr_mgr,
            final(self).current_part == old(self).current_part,
            final(self).num_modules == old(self).num_modules,
            final(self).overflowed == old(self).overflowed,
            final(self).current_cost == old(self).current_cost,
            final(self).best_part == old(self).best_part,
            final(self).best_cost == old(self).best_cost,
            final(self).seen == old(self).seen,
            apply_gain_updates(
                old(self).current_gain@,
                gain_updates_upto(
                    old(self).gain_calc.spec_graph(),
                    old(self).current_part@,
                    v,
                    from_part,
                    to_part,
                    old(self).gain_calc.spec_graph().spec_neighbors(v).len() as int,
                ),
            ) == if r {
                Some(final(self).current_gain@)
            } else {
                None::<Seq<i32>>
            },
    {
        let ghost g = self.gain_calc.spec_graph();
        let ghost part0 = self.current_part@;
        let ghost gains0 = self.current_gain@;
        let nbrs = self.gain_calc.hyprgraph.neighbors(v);
        let mut j: usize = 0;
        while j < nbrs.len()
            invariant
                self.state_inv(),
                self.gain_calc.spec_graph() == g,
                self.constr_mgr == old(self).constr_mgr,
                self.current_part == old(self).current_part,
                self.num_modules == old(self).num_modules,
                self.overflowed == old(self).overflowed,
                self.current_cost == old(self).current_cost,
                self.best_part == old(self).best_part,
                self.best_cost == old(self).best_cost,
                self.seen == old(self).seen,
                nbrs@ == g.spec_neighbors(v),
                v < g.spec_num_modules(),
                from_part < 2,
                to_part < 2,
                j <= nbrs@.len(),
                part0 == old(self).current_part@,
                gains0 == old(self).current_gain@,
                g == old(self).gain_calc.spec_graph(),
                apply_gain_updates(gains0, gain_updates_upto(g, part0, v, from_part, to_part, j as int))
                    == Some(self.current_gain@),
            decreases nbrs@.len() - j,
        {
            let net = nbrs[j];
            proof {
                let sv = Hypergraph::spec_neighbors(&g, v);
                let sn = Hypergraph::spec_neighbors(&g, net);
                assert(sv[j as int] == net);
                assert(net < g.spec_num_nodes());
                assert(sv.contains(net));
                assert(sn.contains(v));
                assert(g.spec_num_modules() <= net);
            }
            let degree = self.gain_calc.hyprgraph.degree(net);
            let weight = self.gain_calc.hyprgraph.get_net_weight(net);
            let ghost prior = gain_updates_upto(g, part0, v, from_part, to_part, j as int);
            let ghost ups = net_gain_updates(g, part0, v, from_part, to_part, net);
            proof {
                assert(gain_updates_upto(g, part0, v, from_part, to_part, j + 1) == prior + ups);
            }
            if 2 <= degree && degree <= FM_MAX_DEGREE && weight <= 1073741823 {
                let move_info = MoveInfo { net, v, from_part, to_part };
                let nb = self.gain_calc.hyprgraph.neighbors(net);
                proof {
                    let s = g.spec_neighbors(net);
                    assert forall|q: int| 0 <= q < s.len() implies #[trigger] s[q] < g.spec_num_modules() by {
                        assert(s[q] < g.spec_num_nodes());
                    }
                }
                if degree == 2 {
                    let w = self.gain_calc.update_move_2pin_net(self.current_part.as_slice(), &move_info);
                    let d = self.gain_calc.delta_gain_w();
                    proof {
                        assert(ups =~= seq![(w, d as int)]);
                        assert((prior + ups).drop_last() =~= prior);
                    }
                    if !self.add_gain(w, d) {
                        proof {
                            lemma_updates_none_extends(gains0, g, part0, v, from_part, to_part, j + 1, nbrs@.len() as int);
                        }
                        return false;
                    }
                } else {
                    self.gain_calc.init_idx_vec(v, net);
                    let iv = self.gain_calc.idx_vec.clone();
                    proof {
                        let s = g.spec_neighbors(net);
                        lemma_pins_except(s, v, s.len() as int);
                        assert(s.subrange(0, s.len() as int) =~= s);
                        assert forall|q: int| 0 <= q < iv@.len() implies (#[trigger] iv@[q]) < g.spec_num_modules() by {
                            assert(s.contains(iv@[q]));
                        }
                    }
                    let deltas = if degree == 3 {
                        self.gain_calc.update_move_3pin_net(self.current_part.as_slice(), &move_info)
                    } else {
                        self.gain_calc.update_move_general_net(self.current_part.as_slice(), &move_info)
                    };
                    proof {
                        assert(iv@ == pins_except(g.spec_neighbors(net), v, g.spec_neighbors(net).len() as int));
                        if degree == 3 {
                            assert(ups.len() == 2);
                        } else {
                            assert(ups.len() == iv@.len());
                        }
                        assert forall|q: int| 0 <= q < ups.len() implies ups[q].0 == iv@[q] && ups[q].1
                            == deltas@[q] as int by {}
                        assert(prior + ups.take(0) =~= prior);
                    }
                    let mut i: usize = 0;
                    while i < iv.len() && i < deltas.len()
                        invariant
                            ups == net_gain_updates(g, part0, v, from_part, to_part, net),
                            prior == gain_updates_upto(g, part0, v, from_part, to_part, j as int),
                            gain_updates_upto(g, part0, v, from_part, to_part, j + 1) == prior + ups,
                            ups.len() == if iv@.len() < deltas@.len() {
                                iv@.len()
                            } else {
                                deltas@.len()
                            },
                            forall|q: int| 0 <= q < ups.len() ==> ups[q].0 == iv@[q] && ups[q].1 == deltas@[q] as int,
                            i <= ups.len(),
                            apply_gain_updates(gains0, prior + ups.take(i as int)) == Some(self.current_gain@),
                            part0 == old(self).current_part@,
                            gains0 == old(self).current_gain@,
                            j < nbrs@.len(),
                            nbrs@ == g.spec_neighbors(v),
                            g == old(self).gain_calc.spec_graph(),
                            self.state_inv(),
                            self.gain_calc.spec_graph() == g,
                            self.constr_mgr == old(self).constr_mgr,
                            self.current_part == old(self).current_part,
                            self.num_modules == old(self).num_modules,
                            self.overflowed == old(self).overflowed,
                            self.current_cost == old(self).current_cost,
                            self.best_part == old(self).best_part,
                            self.best_cost == old(self).best_cost,
                            self.seen == old(self).seen,
                            forall|q: int| 0 <= q < iv@.len() ==> (#[trigger] iv@[q]) < g.spec_num_modules(),
                        decreases iv@.len() - i,
                    {
                        proof {
                            assert((prior + ups.take(i + 1)).drop_last() =~= prior + ups.take(i as int));
                        }
                        if !self.add_gain(iv[i], deltas[i]) {
                            proof {
                                assert((prior + ups.take(i + 1)).last() == ups[i as int]);
                                assert(apply_gain_updates(gains0, prior + ups.take(i + 1)) is None);
                                lemma_apply_none_extends(gains0, prior + ups.take(i + 1), ups.skip(i + 1));
                                assert(prior + ups.take(i + 1) + ups.skip(i + 1) =~= prior + ups);
                                lemma_updates_none_extends(gains0, g, part0, v, from_part, to_part, j + 1, nbrs@.len() as int);
                            }
                            return false;
                        }
                        i = i + 1;
                    }
                    proof {
                        assert(ups.take(ups.len() as int) =~= ups);
                    }
                }
            } else {
                proof {
                    assert(ups.len() == 0);
                    assert(prior + ups =~= prior);
                }
            }
            j = j + 1;
        }
        true
    }
}

impl<'a, Gnl: Hypergraph> MidLvlState<'a, Gnl> {
    /// What a visit does: nothing where the walk has overflowed, the bit is
    /// not a module's 0/1 bit or the module already lies in the part the bit
    /// names; else, unless it overflows now, module
    /// `pos` moves to the part its bit names, its gain turns into the opposite
    /// and the cost drops by its old gain; the best cost only drops, and when
    /// it does it is the new cost, with the new partition as the best.
    pub closed spec fn visit_done(&self, new: &Self, bits: Seq<i32>, pos: usize) -> bool {
        let old = *self;
        let final_ = *new;
        let v = pos as int;
                if old.overflowed || pos >= old.num_modules || pos >= bits.len()
                    || (bits[v] != 0 && bits[v] != 1) || old.current_part@[v] == bits[v] as u8 {
                    final_ == (MidLvlState { seen: final_.seen, ..old })
                } else {
                    &&& final_.num_modules == old.num_modules
                    &&& final_.best_cost <= old.best_cost
                    &&& final_.best_cost < old.best_cost ==> final_.best_cost
                        == final_.current_cost && final_.best_part@ == final_.current_part@
                    &&& final_.best_cost == old.best_cost ==> final_.best_part
                        == old.best_part
                    &&& !final_.overflowed ==> {
                        &&& final_.current_part@ == old.current_part@.update(v, bits[v] as u8)
                        &&& final_.current_cost == old.current_cost - old.current_gain@[v]
                        &&& final_.current_gain@[v] == -old.current_gain@[v]
                    }
                }
    }
}

impl<'a, Gnl: Hypergraph> MidLvlState<'a, Gnl> {
    /// The balance manager keeps the part weights of the current partition,
    /// and the best partition is the starting one (all modules in part 0) or
    /// one whose two parts both weigh at least the bound.
    spec fn balance_inv(&self) -> bool {
        let cg = self.constr_mgr.0.hyprgraph;
        &&& cg.spec_num_modules() == self.num_modules
        &&& module_weight_upto(&cg, self.num_modules as int) <= u32::MAX
        &&& self.constr_mgr.0.diff@ == part_weights(&cg, self.current_part@, 2)
        &&& (self.best_part@ == Seq::new(self.num_modules as nat, |i: int| 0u8) || meets_bound(
            &cg,
            self.best_part@,
            2,
            self.constr_mgr.0.lowerbound,
        ))
    }
}

impl<'a, Gnl: Hypergraph> MidVisitor for MidLvlState<'a, Gnl> {
    closed spec fn inv(&self) -> bool {
        self.state_inv() && self.balance_inv()
    }

    /// The walk keeps the module weights the balance manager adds up, their
    /// number and the bound.
    closed spec fn frame(&self) -> Seq<int> {
        module_weights_of(&self.constr_mgr.0.hyprgraph, self.num_modules as int).push(
            self.constr_mgr.0.lowerbound as int,
        )
    }

    closed spec fn seen(&self) -> Seq<(Seq<i32>, usize)> {
        self.seen@
    }

    /// Follow the flip of bit `flipped_pos`: the module moves to the part the
    /// bit now names, its own gain turns into the opposite, its neighbours'
    /// gains change by the calculator's deltas and the cost drops by its old
    /// gain; a legal partition cheaper than the best one becomes the best.
    /// Bits beyond the modules are not followed.
    fn visit(&mut self, bits: &[i32], flipped_pos: usize)
        ensures
            old(self).visit_done(&*final(self), bits@, flipped_pos),
    {
        proof {
            self.seen@ = self.seen@.push((bits@, flipped_pos));
        }
        if self.overflowed || flipped_pos >= self.num_modules || flipped_pos >= bits.len() {
            return ;
        }
        let b = bits[flipped_pos];
        if b != 0 && b != 1 {
            return ;
        }
        let to_part: u8 = if b == 1 {
            1
        } else {
            0
        };
        let from_part: u8 = 1 - to_part;
        let v = flipped_pos;
        if self.current_part[v] == to_part {
            return ;
        }
        let move_info_v = MoveInfoV { v, from_part, to_part };
        let legal = self.constr_mgr.0.check_legal(&move_info_v);
        let gain = self.current_gain[v];
        let cost = match self.current_cost.checked_sub(gain) {
            Some(c) => c,
            None => {
                self.overflowed = true;
                return ;
            },
        };
        if gain == i32::MIN || !self.constr_mgr.0.can_update(&move_info_v) {
            self.overflowed = true;
            return ;
        }
        self.current_cost = cost;
        if !self.update_gains(v, from_part, to_part) {
            self.overflowed = true;
            return ;
        }
        self.current_gain.set(v, -gain);
        let ghost part_before = self.current_part@;
        let ghost diff_before = self.constr_mgr.0.diff@;
        self.constr_mgr.0.update_move(&move_info_v);
        self.current_part.set(v, to_part);
        proof {
            let cg = self.constr_mgr.0.hyprgraph;
            assert(part_before[v as int] == from_part);
            lemma_move_part_weights(&cg, part_before, v, to_part, 2);
            assert(self.current_part@ == part_before.update(v as int, to_part));
            assert(self.constr_mgr.0.diff@ == part_weights(&cg, self.current_part@, 2));
            if legal == LegalCheck::AllSatisfied {
                let w = cg.spec_module_weight(v) as int;
                let d = self.constr_mgr.0.diff@;
                assert(diff_before[from_part as int] >= self.constr_mgr.0.lowerbound + w);
                assert(diff_before[to_part as int] + w >= self.constr_mgr.0.lowerbound);
                assert(d[0] >= self.constr_mgr.0.lowerbound && d[1] >= self.constr_mgr.0.lowerbound);
                assert(meets_bound(&cg, self.current_part@, 2, self.constr_mgr.0.lowerbound));
            }
        }
        if legal == LegalCheck::AllSatisfied && self.current_cost < self.best_cost {
            self.best_cost = self.current_cost;
            self.best_part = self.current_part.clone();
        }
    }
}

/// Middle-levels partition manager: the hypergraph, the least weight each of
/// the two parts must keep, and the cost of the partition found.
pub struct MidLvlPartMgr<'a, Gnl: Hypergraph> {
    pub hyprgraph: &'a Gnl,
    pub lowerbound: u32,
    pub total_cost: i32,
}

impl<'a, Gnl: Hypergraph> MidLvlPartMgr<'a, Gnl> {
    /// A manager for `hyprgraph` whose parts must each weigh at least
    /// `lowerbound`; the cost starts at 0.
    pub fn new(hyprgraph: &'a Gnl, lowerbound: u32) -> (r: Self)
        ensures
            r.spec_graph() == *hyprgraph,
            r.spec_lowerbound() == lowerbound,
            r.total_cost == 0,
    {
        MidLvlPartMgr { hyprgraph, lowerbound, total_cost: 0 }
    }

    /// The hypergraph the manager partitions.
    pub open spec fn spec_graph(&self) -> Gnl {
        *self.hyprgraph
    }

    /// The least weight each part must keep.
    pub open spec fn spec_lowerbound(&self) -> u32 {
        self.lowerbound
    }

    /// Walk the middle-levels cycle from the partition that puts the first
    /// half of the modules in part 1, following each flip of a module's bit
    /// as a move of that module, and write the cheapest partition met whose
    /// last move the balance manager found fully legal into `part` (all
    /// modules in part 0 when there is none), with its cost as the total cost.
    /// With fewer than two modules nothing changes, nor with so many that
    /// the walk's bit strings would not fit (`0x1000_0000` modules or more).
    ///
    /// The walk also stops after `WALK_CAP` visits, and stops following the
    /// flips where an update of a gain or of the cost would leave `i32` or the
    /// balance manager could not record a move.
    pub fn optimize(&mut self, part: &mut [u8])
        requires
            old(self).spec_graph().wf(),
            is_netlist(&old(self).spec_graph()),
            weights_fit(&old(self).spec_graph()),
            module_weight_upto(&old(self).spec_graph(), old(self).spec_graph().spec_num_modules() as int)
                <= u32::MAX,
            old(part)@.len() == old(self).spec_graph().spec_num_modules(),
        ensures
            final(self).spec_graph() == old(self).spec_graph(),
            final(self).spec_lowerbound() == old(self).spec_lowerbound(),
            final(part)@.len() == old(part)@.len(),
            old(self).spec_graph().spec_num_modules() < 2 ==> final(part)@ == old(part)@ && final(self).total_cost
                == old(self).total_cost,
            2 <= old(self).spec_graph().spec_num_modules() < 0x1000_0000 ==> valid_part(final(part)@, 2),
            old(self).spec_graph().spec_num_modules() >= 0x1000_0000 ==> final(part)@ == old(part)@
                && final(self).total_cost == old(self).total_cost,
            2 <= old(self).spec_graph().spec_num_modules() < 0x1000_0000 ==> (forall|q: int|
                0 <= q < final(part)@.len() ==> final(part)@[q] == 0) || meets_bound(
                &old(self).spec_graph(),
                final(part)@,
                2,
                old(self).spec_lowerbound(),
            ),
    {
        let num_modules = self.hyprgraph.number_of_modules();
        if num_modules < 2 || num_modules >= 0x1000_0000 {
            return ;
        }
        let half_bits = num_modules / 2;
        let total_bits = 2 * half_bits + 1;
        let mut current_part = vec![0u8; num_modules];
        let mut i: usize = 0;
        while i < half_bits
            invariant
                current_part@.len() == num_modules,
                half_bits <= num_modules,
                valid_part(current_part@, 2),
            decreases half_bits - i,
        {
            current_part.set(i, 1);
            i = i + 1;
        }
        proof {
            lemma_shared_weights(self.hyprgraph, self.hyprgraph.spec_num_nodes() - self.hyprgraph.spec_num_modules());
            lemma_shared_weights(self.hyprgraph, self.hyprgraph.spec_num_modules() as int);
        }
        let mut gain_calc = FMBiGainCalc::new(self.hyprgraph, 2);
        let mut constr_mgr = FMBiConstrMgr::with_lowerbound(self.hyprgraph, self.lowerbound);
        let current_cost = gain_calc.init(current_part.as_slice());
        constr_mgr.0.init(current_part.as_slice());
        let current_gain = gain_calc.init_gain_list.clone();
        let mut init_bits = vec![0i32; total_bits];
        let mut i: usize = 0;
        while i < half_bits
            invariant
                init_bits@.len() == total_bits,
                half_bits < total_bits,
                forall|q: int| 0 <= q < init_bits@.len() ==> 0 <= #[trigger] init_bits@[q] <= 1,
            decreases half_bits - i,
        {
            init_bits.set(i, 1);
            i = i + 1;
        }
        let mut state = MidLvlState {
            gain_calc,
            constr_mgr,
            current_part,
            current_gain,
            current_cost,
            best_part: vec![0u8; num_modules],
            best_cost: current_cost,
            num_modules,
            overflowed: false,
            seen: Ghost(Seq::empty()),
        };
        proof {
            assert(valid_part(state.best_part@, 2));
            assert(state.best_part@ =~= Seq::new(num_modules as nat, |i: int| 0u8));
            assert(state.balance_inv());
        }
        let start_vertex = MidVertex::new(init_bits);
        let _ham = MidHamCycle::new(start_vertex, -1, &mut state);
        let ghost cg = state.constr_mgr.0.hyprgraph;
        proof {
            assert(state.balance_inv());
            let f0 = module_weights_of(&self.hyprgraph, num_modules as int).push(self.lowerbound as int);
            let f1 = module_weights_of(&cg, state.num_modules as int).push(state.constr_mgr.0.lowerbound as int);
            assert(f1.len() == f0.len());
            assert(f1[f1.len() - 1] == f0[f0.len() - 1]);
            assert(f1[f1.len() - 2] == f0[f0.len() - 2]);
            assert(state.num_modules == num_modules);
            assert forall|x: int| 0 <= x < num_modules implies #[trigger] cg.spec_module_weight(x as usize)
                == self.hyprgraph.spec_module_weight(x as usize) by {
                assert(f1[x] == f0[x]);
            }
        }
        let mut i: usize = 0;
        while i < num_modules
            invariant
                state.state_inv(),
                part@.len() == num_modules,
                forall|q: int| 0 <= q < i ==> part@[q] < 2,
                forall|q: int| 0 <= q < i ==> part@[q] == state.best_part@[q],
                state.num_modules == num_modules,
                i <= num_modules,
            decreases num_modules - i,
        {
            part[i] = if i < state.best_part.len() {
                state.best_part[i]
            } else {
                0
            };
            i = i + 1;
        }
        proof {
            assert(part@ =~= state.best_part@);
            if !(state.best_part@ == Seq::new(num_modules as nat, |i: int| 0u8)) {
                assert forall|q: int| 0 <= q < 2 implies #[trigger] part_weights(self.hyprgraph, part@, 2)[q]
                    >= self.lowerbound by {
                    lemma_part_weight_agree(&cg, self.hyprgraph, part@, q, num_modules as int);
                    assert(part_weights(&cg, part@, 2)[q] >= state.constr_mgr.0.lowerbound);
                }
            } else {
                assert forall|q: int| 0 <= q < part@.len() implies part@[q] == 0 by {
                    assert(state.best_part@[q] == Seq::new(num_modules as nat, |i: int| 0u8)[q]);
                }
            }
        }
        self.total_cost = state.best_cost;
    }
}

} // verus!
