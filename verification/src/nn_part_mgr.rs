//! The no-nonsense partition manager: FM legalization in which every move
//! also updates the moved module's own gains.
use vstd::prelude::*;
use crate::fm_bi_gain_calc::{valid_part, weights_fit};
use crate::fm_constr_mgr::{
    ConstrMgrInterface, LegalCheck, part_weights, deficit, lemma_two_parts_bound,
    lemma_part_weight_move, lemma_part_weight_bound, lemma_move_part_weights, meets_bound, module_weight_upto,
    uniform_weight,
};
use crate::fm_gain_mgr::{
    FMGainMgr, GainCalcTrait, same_graph, nbr_weight, nbr_weight_of, lemma_keys_within_mono,
    lemma_keys_near_within, lemma_refreshed_idempotent, best_bucket, lemma_top_from_props,
};
use crate::hypergraph::Hypergraph;
use crate::moveinfo::MoveInfoV;
use crate::part_mgr_base::{
    count_in, count_not_in, present_pairs, lemma_count_in_remove, lemma_count_not_in_move,
    lemma_same_part_weights, lemma_pop_present, lemma_part_weight_member, lemma_same_module_weight,
    lemma_present_pairs_agree, lemma_present_pairs_update, lemma_best_bucket_range,
};

verus! {

/// No-nonsense partitioning manager: like the FM manager, but each move also
/// updates the moved module's own gains. The hypergraph, a gain manager, a
/// constraint manager (the validator), the number of parts and the cost of
/// the current partition.
pub struct NNPartMgr<Gnl: Hypergraph, GainMgr, ConstrMgr> {
    pub hyprgraph: Gnl,
    pub gain_mgr: GainMgr,
    pub validator: ConstrMgr,
    pub num_parts: usize,
    pub total_cost: i32,
}

impl<Gnl: Hypergraph, GainMgr, ConstrMgr> NNPartMgr<Gnl, GainMgr, ConstrMgr> {
    /// A manager over the given parts; the cost starts at 0.
    pub fn new(hyprgraph: Gnl, gain_mgr: GainMgr, validator: ConstrMgr, num_parts: usize) -> (r: Self)
        ensures
            r.hyprgraph == hyprgraph,
            r.gain_mgr == gain_mgr,
            r.validator == validator,
            r.num_parts == num_parts,
            r.total_cost == 0,
    {
        NNPartMgr { hyprgraph, gain_mgr, validator, num_parts, total_cost: 0 }
    }
}

impl<Gnl: Hypergraph, GainCalc: GainCalcTrait<Gnl>, ConstrMgr: ConstrMgrInterface<Gnl>> NNPartMgr<
    Gnl,
    FMGainMgr<Gnl, GainCalc>,
    ConstrMgr,
> {
    /// The manager's invariant: both managers are sound, read the same
    /// hypergraph, and keep one entry per part; there are at least two parts.
    pub open spec fn wf(&self) -> bool {
        &&& self.hyprgraph.wf()
        &&& self.gain_mgr.wf()
        &&& same_graph(&self.gain_mgr.hyprgraph, &self.hyprgraph)
        &&& weights_fit(&self.gain_mgr.hyprgraph)
        &&& self.validator.constr_wf()
        &&& same_graph(&self.validator.constr_graph(), &self.hyprgraph)
        &&& self.gain_mgr.num_parts == self.num_parts
        &&& self.validator.spec_diff().len() == self.num_parts
        &&& self.num_parts >= 2
    }

    /// The part weights of `part`.
    pub open spec fn weights_of(&self, part: Seq<u8>) -> Seq<u32> {
        part_weights(&self.hyprgraph, part, self.num_parts as nat)
    }

    /// Fill the gain manager for `part` and take its cut cost as the total
    /// cost; the validator takes the part weights of `part`.
    pub fn init(&mut self, part: &mut [u8])
        requires
            old(self).wf(),
            old(part)@.len() == old(self).hyprgraph.spec_num_modules(),
            valid_part(old(part)@, old(self).num_parts as int),
        ensures
            final(self).wf(),
            final(part)@ == old(part)@,
            final(self).hyprgraph == old(self).hyprgraph,
            final(self).num_parts == old(self).num_parts,
            final(self).gain_mgr.hyprgraph == old(self).gain_mgr.hyprgraph,
            old(self).gain_mgr.gain_calc.init_post(final(self).gain_mgr.gain_calc, old(part)@, final(self).total_cost),
            final(self).gain_mgr.gain_calc.populate_post(
                old(part)@,
                Seq::new(old(self).hyprgraph.spec_num_modules(), |i: int| i as usize),
                Seq::new(
                    old(self).gain_mgr.buckets().len(),
                    |k: int| old(self).gain_mgr.buckets()[k].cleared(),
                ),
                final(self).gain_mgr.buckets(),
            ),
            final(self).validator.constr_graph() == old(self).validator.constr_graph(),
            final(self).validator.spec_lowerbound() == old(self).validator.spec_lowerbound(),
            final(self).validator.spec_diff() == final(self).weights_of(old(part)@),
            final(self).validator.spec_weight_cache() == old(self).validator.spec_weight_cache(),
    {
        proof {
            self.validator.lemma_ready(MoveInfoV { v: 0, from_part: 0, to_part: 0 }, part@);
        }
        self.total_cost = self.gain_mgr.init(&*part);
        self.validator.init(&*part);
        proof {
            let vg = self.validator.constr_graph();
            let np = self.num_parts as nat;
            assert forall|x: usize| #[trigger] vg.spec_module_weight(x) == self.hyprgraph.spec_module_weight(x) by {}
            assert(self.validator.spec_diff() =~= self.weights_of(part@)) by {
                assert forall|p: int| 0 <= p < np implies self.validator.spec_diff()[p] == self.weights_of(part@)[p] by {
                    lemma_same_part_weights(&vg, &self.hyprgraph, part@, p, part@.len() as int);
                }
            }
        }
    }

    /// Move modules until the partition meets the validator's demands: each
    /// round takes the best move towards the part the validator names, drops
    /// it when the validator refuses it, and makes it otherwise, updating the
    /// gains of the moved module's neighbours and of the module; the rounds
    /// end with the first move that satisfies the validator, or when no move
    /// towards the named part is queued. Returns the validator's answer to
    /// the last move looked at.
    ///
    /// A round also ends the legalization, before the move is checked, where
    /// a gain update could leave `i32` (twice the weight of the moved module's
    /// nets is more than the keys leave room for) or the cost would leave
    /// `i32`.
    pub fn legalize(&mut self, part: &mut [u8]) -> (r: LegalCheck)
        requires
            old(self).wf(),
            old(part)@.len() == old(self).hyprgraph.spec_num_modules(),
            valid_part(old(part)@, old(self).num_parts as int),
        ensures
            final(self).wf(),
            final(self).hyprgraph == old(self).hyprgraph,
            final(self).num_parts == old(self).num_parts,
            final(self).validator.spec_lowerbound() == old(self).validator.spec_lowerbound(),
            final(part)@.len() == old(part)@.len(),
            valid_part(final(part)@, old(self).num_parts as int),
            final(self).validator.spec_diff() == final(self).weights_of(final(part)@),
            r == LegalCheck::AllSatisfied ==> ConstrMgr::accepts(
                final(self).weights_of(final(part)@),
                final(self).validator.spec_lowerbound(),
            ),
    {
        let ghost g = self.hyprgraph;
        let ghost np = self.num_parts as int;
        let ghost n = g.spec_num_modules() as int;
        let ghost lb = self.validator.spec_lowerbound();
        let ghost vg = self.validator.constr_graph();
        self.init(part);
        let mut legalcheck = LegalCheck::NotSatisfied;
        loop
            invariant_except_break
                legalcheck != LegalCheck::AllSatisfied,
            invariant
                self.wf(),
                self.hyprgraph == g,
                self.num_parts == np,
                n == g.spec_num_modules(),
                self.validator.constr_graph() == vg,
                self.validator.spec_lowerbound() == lb,
                part@.len() == n,
                valid_part(part@, np),
                self.validator.spec_diff() == self.weights_of(part@),
                legalcheck == LegalCheck::AllSatisfied ==> ConstrMgr::accepts(self.validator.spec_diff(), lb),
            decreases
                deficit(self.validator.spec_diff(), lb),
                count_not_in(part@, ConstrMgr::togo_of(self.validator.spec_diff()), n),
                count_in(self.gain_mgr.buckets()[ConstrMgr::togo_of(self.validator.spec_diff())].present, n),
        {
            let ghost diff = self.validator.spec_diff();
            let ghost t = ConstrMgr::togo_of(diff);
            let ghost cnt = count_in(self.gain_mgr.buckets()[t].present, n);
            proof {
                self.validator.lemma_ready(MoveInfoV { v: 0, from_part: 0, to_part: 0 }, part@);
                ConstrMgr::lemma_togo(diff);
            }
            let to_part = self.validator.select_togo();
            if self.gain_mgr.is_empty_togo(to_part) {
                break;
            }
            let ghost b0 = self.gain_mgr.buckets()[t];
            proof {
                self.gain_mgr.gain_bucket@[t].lemma_wf();
                assert(b0 == self.gain_mgr.gain_bucket@[t]@);
                lemma_refreshed_idempotent(b0);
            }
            if !self.gain_mgr.has_move_togo(to_part) {
                break;
            }
            let ghost b = self.gain_mgr.buckets()[t];
            proof {
                self.gain_mgr.gain_bucket@[t].lemma_wf();
                assert(b == self.gain_mgr.gain_bucket@[t]@);
                assert(b == b0.refreshed());
                lemma_pop_present(b, n);
                assert(count_in(b.present, n) == cnt);
            }
            let (v, gainmax) = self.gain_mgr.select_togo(to_part);
            proof {
                lemma_count_in_remove(b.present, v, n);
                assert(self.gain_mgr.buckets()[t].present == b.present.remove(v));
            }
            let nw = nbr_weight_of(&self.gain_mgr.hyprgraph, v);
            let kb = self.gain_mgr.max_abs_key();
            proof {
                assert(self.gain_mgr.buckets()[t].keys == b.keys);
                assert(self.gain_mgr.buckets()[t].keys.contains_key(v));
                assert(-kb <= gainmax <= kb);
            }
            if nw > 536870911 || kb as u128 + 4 * nw > 2147483647 {
                break;
            }
            let new_cost = match self.total_cost.checked_sub(gainmax) {
                Some(c) => c,
                None => {
                    break;
                },
            };
            let from_part = part[v];
            let move_info_v = MoveInfoV { v, from_part, to_part };
            proof {
                self.validator.lemma_ready(move_info_v, part@);
            }
            legalcheck = self.validator.check_legal(&move_info_v);
            if legalcheck == LegalCheck::NotSatisfied {
                continue;
            }
            let ghost w = vg.spec_module_weight(v) as int;
            proof {
                lemma_same_module_weight(&vg, &g, n);
                lemma_part_weight_bound(&g, part@, to_part as int, n);
                lemma_part_weight_bound(&g, part@, from_part as int, n);
                if from_part != to_part {
                    lemma_two_parts_bound(&g, part@, to_part as int, from_part as int, n);
                    lemma_part_weight_member(&g, part@, v as int, n);
                }
                ConstrMgr::lemma_legal(diff, lb, w, move_info_v);
                lemma_keys_within_mono(
                    self.gain_mgr.buckets(),
                    kb as int,
                    i32::MAX - 2 * nbr_weight(&self.gain_mgr.hyprgraph, v),
                );
            }
            let ghost bk = self.gain_mgr.buckets();
            self.gain_mgr.update_move(&*part, &move_info_v);
            proof {
                let e = 2 * nbr_weight(&self.gain_mgr.hyprgraph, v);
                lemma_keys_near_within(self.gain_mgr.buckets(), bk, e, kb as int);
                self.gain_mgr.gain_calc.lemma_dv_within_bound(e);
                let dv = self.gain_mgr.gain_calc.spec_delta_gain_v();
                assert forall|k: int|
                    0 <= k < self.num_parts && k != from_part && k != to_part && k < dv.len() && dv[k] != 0 implies (
                    #[trigger] self.gain_mgr.buckets()[k]).key_fits(dv[k] as int, v) by {
                    if self.gain_mgr.buckets()[k].keys.contains_key(v) {
                        assert(-(kb + e) <= self.gain_mgr.buckets()[k].keys[v] <= kb + e);
                    }
                }
            }
            self.gain_mgr.update_move_v(&move_info_v, gainmax);
            if from_part != to_part {
                proof {
                    self.validator.lemma_ready(move_info_v, part@);
                }
                self.validator.update_move(&move_info_v);
            }
            let ghost old_part = part@;
            part[v] = to_part;
            self.total_cost = new_cost;
            proof {
                assert(part@ == old_part.update(v as int, to_part));
                if from_part != to_part {
                    assert(self.validator.spec_diff() =~= self.weights_of(part@)) by {
                        assert forall|p: int| 0 <= p < np implies self.validator.spec_diff()[p] == self.weights_of(
                            part@,
                        )[p] by {
                            lemma_part_weight_move(&g, old_part, v as int, to_part, p, n);
                            lemma_part_weight_bound(&g, part@, p, n);
                            lemma_part_weight_bound(&g, old_part, p, n);
                        }
                    }
                } else {
                    assert(part@ =~= old_part);
                }
                if legalcheck == LegalCheck::GetBetter {
                    if w == 0 {
                        assert(self.validator.spec_diff() =~= diff);
                        lemma_count_not_in_move(old_part, v as int, to_part, n);
                    }
                }
            }
            if legalcheck == LegalCheck::AllSatisfied {
                break;
            }
        }
        legalcheck
    }

    /// One pass of moves: while a move is queued, take the best one; stop at
    /// the first whose gain is not positive, skip it when the validator
    /// refuses it, and make it otherwise, updating the gains of the moved
    /// module's neighbours and of the module. The cost drops by the gains of
    /// the moves made.
    ///
    /// The pass also stops where a gain update could leave `i32`, where the
    /// validator could not record the move, or where the gains made would
    /// exceed the cost (a cut never weighs less than nothing).
    fn optimize_1pass(&mut self, part: &mut [u8])
        requires
            old(self).wf(),
            old(part)@.len() == old(self).hyprgraph.spec_num_modules(),
            valid_part(old(part)@, old(self).num_parts as int),
        ensures
            final(self).wf(),
            final(self).hyprgraph == old(self).hyprgraph,
            final(self).num_parts == old(self).num_parts,
            final(self).validator.constr_graph() == old(self).validator.constr_graph(),
            final(self).validator.spec_lowerbound() == old(self).validator.spec_lowerbound(),
            final(part)@.len() == old(part)@.len(),
            valid_part(final(part)@, old(self).num_parts as int),
            old(self).total_cost >= 0 ==> 0 <= final(self).total_cost <= old(self).total_cost,
            old(self).total_cost < 0 ==> final(self).total_cost == old(self).total_cost,
            final(self).validator.spec_weight_cache() == old(self).validator.spec_weight_cache(),
            uniform_weight(&old(self).hyprgraph, old(self).validator.spec_weight_cache())
                && old(self).validator.spec_diff() == old(self).weights_of(old(part)@) ==> final(self).validator.spec_diff()
                == final(self).weights_of(final(part)@) && (meets_bound(
                &old(self).hyprgraph,
                old(part)@,
                old(self).num_parts as nat,
                old(self).validator.spec_lowerbound(),
            ) ==> meets_bound(
                &old(self).hyprgraph,
                final(part)@,
                old(self).num_parts as nat,
                old(self).validator.spec_lowerbound(),
            )),
    {
        let ghost g = self.hyprgraph;
        let ghost np = self.num_parts as int;
        let ghost n = g.spec_num_modules() as int;
        let ghost lb = self.validator.spec_lowerbound();
        let ghost vg = self.validator.constr_graph();
        let ghost cost0 = self.total_cost;
        let ghost cap: int = if cost0 >= 0 {
            cost0 as int
        } else {
            0
        };
        let ghost wc = self.validator.spec_weight_cache();
        let ghost tracked0 = uniform_weight(&g, wc) && self.validator.spec_diff() == self.weights_of(part@);
        let ghost meets0 = meets_bound(&g, part@, np as nat, lb);
        if self.hyprgraph.number_of_modules() == 0 {
            return ;
        }
        let mut totalgain: i32 = 0;
        while !self.gain_mgr.is_empty()
            invariant
                self.wf(),
                self.hyprgraph == g,
                self.num_parts == np,
                n == g.spec_num_modules(),
                n >= 1,
                self.validator.constr_graph() == vg,
                self.validator.spec_lowerbound() == lb,
                part@.len() == n,
                valid_part(part@, np),
                self.total_cost == cost0,
                cap == (if cost0 >= 0 {
                    cost0 as int
                } else {
                    0
                }),
                0 <= totalgain <= cap,
                self.validator.spec_weight_cache() == wc,
                tracked0 == (uniform_weight(&g, wc) && old(self).validator.spec_diff() == old(self).weights_of(
                    old(part)@,
                )),
                meets0 == meets_bound(&g, old(part)@, np as nat, lb),
                tracked0 ==> self.validator.spec_diff() == self.weights_of(part@),
                tracked0 && meets0 ==> meets_bound(&g, part@, np as nat, lb),
            decreases
                cap - totalgain,
                present_pairs(self.gain_mgr.buckets(), n, np),
        {
            let ghost bs = self.gain_mgr.buckets();
            let ghost rb = self.gain_mgr.refreshed_buckets();
            let ghost best = best_bucket(rb, rb.len() as int);
            proof {
                assert forall|i: int| 0 <= i < np implies #[trigger] bs[i].present == rb[i].present by {}
                lemma_present_pairs_agree(bs, rb, n, np);
                lemma_best_bucket_range(rb, np);
                self.gain_mgr.gain_bucket@[best].lemma_wf();
                assert(bs[best] == self.gain_mgr.gain_bucket@[best]@);
                lemma_refreshed_idempotent(bs[best]);
                lemma_top_from_props(bs[best], bs[best].cursor);
            }
            let (move_info_v, gainmax) = self.gain_mgr.select(&*part);
            if gainmax <= 0 {
                break;
            }
            let v = move_info_v.v;
            proof {
                assert(rb[best].cursor >= 0);
                lemma_pop_present(rb[best], n);
                lemma_present_pairs_update(rb, best, rb[best].after_pop(), n, np);
                lemma_count_in_remove(rb[best].present, v, n);
                self.validator.lemma_ready(move_info_v, part@);
            }
            let satisfied_ok = self.validator.check_constraints(&move_info_v);
            if !satisfied_ok {
                continue;
            }
            let nw = nbr_weight_of(&self.gain_mgr.hyprgraph, v);
            let kb = self.gain_mgr.max_abs_key();
            if nw > 536870911 || kb as u128 + 4 * nw > 2147483647 {
                break;
            }
            if totalgain as i64 + gainmax as i64 > self.total_cost as i64 {
                break;
            }
            if !self.validator.can_update(&move_info_v) {
                break;
            }
            proof {
                lemma_keys_within_mono(
                    self.gain_mgr.buckets(),
                    kb as int,
                    i32::MAX - 2 * nbr_weight(&self.gain_mgr.hyprgraph, v),
                );
            }
            let from_part = move_info_v.from_part;
            let to_part = move_info_v.to_part;
            let ghost bk = self.gain_mgr.buckets();
            self.gain_mgr.update_move(&*part, &move_info_v);
            proof {
                let e = 2 * nbr_weight(&self.gain_mgr.hyprgraph, v);
                lemma_keys_near_within(self.gain_mgr.buckets(), bk, e, kb as int);
                self.gain_mgr.gain_calc.lemma_dv_within_bound(e);
                let dv = self.gain_mgr.gain_calc.spec_delta_gain_v();
                assert forall|k: int|
                    0 <= k < self.num_parts && k != from_part && k != to_part && k < dv.len() && dv[k] != 0 implies (
                    #[trigger] self.gain_mgr.buckets()[k]).key_fits(dv[k] as int, v) by {
                    if self.gain_mgr.buckets()[k].keys.contains_key(v) {
                        assert(-(kb + e) <= self.gain_mgr.buckets()[k].keys[v] <= kb + e);
                    }
                }
            }
            self.gain_mgr.update_move_v(&move_info_v, gainmax);
            let ghost diff_before = self.validator.spec_diff();
            let ghost part_before = part@;
            self.validator.update_move(&move_info_v);
            totalgain = totalgain + gainmax;
            part[v] = to_part;
            proof {
                if tracked0 {
                    lemma_same_module_weight(&g, &vg, g.spec_num_modules() as int);
                    lemma_move_part_weights(&g, part_before, v, to_part, np as nat);
                    assert(part@ == part_before.update(v as int, to_part));
                    assert(g.spec_module_weight(v) == wc);
                    assert(self.validator.spec_diff() == self.weights_of(part@));
                    if meets0 {
                        let w = g.spec_module_weight(v) as int;
                        assert forall|q: int| 0 <= q < np implies #[trigger] part_weights(&g, part@, np as nat)[q]
                            >= lb by {
                            let d = part_weights(&g, part_before, np as nat);
                            assert(d[q] >= lb);
                            assert(vg.spec_module_weight(v) == g.spec_module_weight(v));
                            assert(diff_before == d);
                            assert(from_part == part_before[v as int]);
                            assert(d[from_part as int] >= lb + w);
                            let d1 = d.update(to_part as int, (d[to_part as int] + w) as u32);
                            let mvv = MoveInfoV { v, from_part: part_before[v as int], to_part };
                            assert(part_weights(&g, part@, np as nat) == crate::fm_constr_mgr::moved_weights(d, mvv, w));
                            if from_part == to_part {
                                assert(part@ =~= part_before);
                            } else if q == from_part as int {
                                assert(d1[q] == d[q]);
                            } else if q == to_part as int {
                                assert(d[q] + w <= u32::MAX) by {
                                    let n = g.spec_num_modules() as int;
                                    lemma_part_weight_bound(&g, part@, q, n);
                                    lemma_part_weight_bound(&g, part_before, q, n);
                                    lemma_part_weight_move(&g, part_before, v as int, to_part, q, n);
                                    assert(module_weight_upto(&vg, n) <= u32::MAX);
                                }
                            }
                        }
                    }
                }
            }
        }
        self.total_cost = self.total_cost - totalgain;
    }

    /// Run passes until one leaves the cost where it was: each pass starts
    /// from the gains and cost of the current partition.
    ///
    /// The passes also end when the cost computed at the start of a pass is
    /// not below the one computed at the start of the pass before (with
    /// exact gains a pass that changes the cost lowers it). The cost left is
    /// at most the one computed for the given partition, or else the one
    /// computed for the partition left.
    pub fn optimize(&mut self, part: &mut [u8])
        requires
            old(self).wf(),
            old(part)@.len() == old(self).hyprgraph.spec_num_modules(),
            valid_part(old(part)@, old(self).num_parts as int),
        ensures
            final(self).wf(),
            final(self).hyprgraph == old(self).hyprgraph,
            final(self).num_parts == old(self).num_parts,
            final(self).validator.spec_lowerbound() == old(self).validator.spec_lowerbound(),
            final(part)@.len() == old(part)@.len(),
            valid_part(final(part)@, old(self).num_parts as int),
            (exists|c0: i32, gc: GainCalc|
                old(self).gain_mgr.gain_calc.init_post(gc, old(part)@, c0) && final(self).total_cost <= c0)
                || (exists|gc: GainCalc| gc.init_post(final(self).gain_mgr.gain_calc, final(part)@, final(self).total_cost)),
            final(self).validator.spec_weight_cache() == old(self).validator.spec_weight_cache(),
            uniform_weight(&old(self).hyprgraph, old(self).validator.spec_weight_cache()) && meets_bound(
                &old(self).hyprgraph,
                old(part)@,
                old(self).num_parts as nat,
                old(self).validator.spec_lowerbound(),
            ) ==> meets_bound(
                &old(self).hyprgraph,
                final(part)@,
                old(self).num_parts as nat,
                old(self).validator.spec_lowerbound(),
            ),
    {
        let ghost g = self.hyprgraph;
        let ghost wc = self.validator.spec_weight_cache();
        let ghost good = uniform_weight(&g, wc) && meets_bound(&g, part@, self.num_parts as nat, self.validator.spec_lowerbound());
        let ghost np = self.num_parts as int;
        let ghost lb = self.validator.spec_lowerbound();
        let ghost gc0 = self.gain_mgr.gain_calc;
        let ghost part0 = part@;
        let ghost mut started = false;
        let mut bound: i64 = 2147483648;
        loop
            invariant
                self.wf(),
                self.hyprgraph == g,
                self.num_parts == np,
                self.validator.spec_lowerbound() == lb,
                part@.len() == g.spec_num_modules(),
                valid_part(part@, np),
                i32::MIN <= bound <= 2147483648,
                gc0 == old(self).gain_mgr.gain_calc,
                part0 == old(part)@,
                !started ==> self.gain_mgr.gain_calc == gc0 && part@ == part0 && bound == 2147483648,
                started ==> exists|c0: i32, gc: GainCalc| gc0.init_post(gc, part0, c0) && bound <= c0,
                self.validator.spec_weight_cache() == wc,
                good == (uniform_weight(&g, wc) && meets_bound(&g, part0, np as nat, lb)),
                good ==> meets_bound(&g, part@, np as nat, lb),
            ensures
                (exists|c0: i32, gc: GainCalc| gc0.init_post(gc, part0, c0) && self.total_cost <= c0) || (exists|
                    gc: GainCalc,
                | gc.init_post(self.gain_mgr.gain_calc, part@, self.total_cost)),
            decreases bound - i32::MIN,
        {
            let ghost gc_before = self.gain_mgr.gain_calc;
            self.init(part);
            let totalcost_before = self.total_cost;
            proof {
                assert(gc_before.init_post(self.gain_mgr.gain_calc, part@, self.total_cost));
                if !started {
                    assert(gc0.init_post(self.gain_mgr.gain_calc, part0, totalcost_before));
                }
            }
            if totalcost_before as i64 >= bound {
                proof {
                    assert(exists|gc: GainCalc| gc.init_post(self.gain_mgr.gain_calc, part@, self.total_cost));
                }
                break;
            }
            let ghost c_now = totalcost_before;
            let ghost gc_now = self.gain_mgr.gain_calc;
            proof {
                if !started {
                    assert(gc0.init_post(gc_now, part0, c_now));
                }
            }
            bound = totalcost_before as i64;
            self.optimize_1pass(part);
            proof {
                if !started {
                    assert(gc0.init_post(gc_now, part0, c_now) && bound <= c_now);
                }
                started = true;
            }
            if self.total_cost == totalcost_before {
                proof {
                    assert(exists|c0: i32, gc: GainCalc| gc0.init_post(gc, part0, c0) && bound <= c0);
                    let (c0, gc) = choose|c0: i32, gc: GainCalc| gc0.init_post(gc, part0, c0) && bound <= c0;
                    assert(gc0.init_post(gc, part0, c0) && self.total_cost <= c0);
                }
                break;
            }
        }
    }

    /// Whether every part of `part` holds the validator's bound (the
    /// validator takes the part weights of `part`).
    pub fn final_check(&mut self, part: &mut [u8]) -> (r: bool)
        requires
            old(self).wf(),
            old(part)@.len() == old(self).hyprgraph.spec_num_modules(),
        ensures
            final(self).wf(),
            final(part)@ == old(part)@,
            final(self).hyprgraph == old(self).hyprgraph,
            final(self).gain_mgr == old(self).gain_mgr,
            final(self).num_parts == old(self).num_parts,
            final(self).total_cost == old(self).total_cost,
            final(self).validator.spec_lowerbound() == old(self).validator.spec_lowerbound(),
            final(self).validator.spec_diff() == final(self).weights_of(old(part)@),
            r == (forall|p: int|
                0 <= p < old(self).num_parts ==> #[trigger] final(self).weights_of(old(part)@)[p]
                    >= old(self).validator.spec_lowerbound()),
    {
        proof {
            self.validator.lemma_ready(MoveInfoV { v: 0, from_part: 0, to_part: 0 }, part@);
        }
        let r = self.validator.final_check(&*part);
        proof {
            let vg = self.validator.constr_graph();
            let np = self.num_parts as nat;
            assert(self.validator.spec_diff() =~= self.weights_of(part@)) by {
                assert forall|p: int| 0 <= p < np implies self.validator.spec_diff()[p] == self.weights_of(part@)[p] by {
                    lemma_same_part_weights(&vg, &self.hyprgraph, part@, p, part@.len() as int);
                }
            }
        }
        r
    }
}

} // verus!
