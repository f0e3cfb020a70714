//! The FM partition manager: it drives a gain manager and a constraint
//! manager over a partition, and legalizes the partition by moving modules
//! into the part that the constraint manager names.
use vstd::prelude::*;
use crate::fm_bi_gain_calc::{valid_part, weights_fit};
use crate::fm_constr_mgr::{
    ConstrMgrInterface, LegalCheck, part_weights, part_weight_upto, deficit, module_weight_upto,
    lemma_two_parts_bound, lemma_part_weight_move, lemma_part_weight_bound,
};
use crate::fm_gain_mgr::{
    BucketQueueView, FMGainMgr, GainCalcTrait, same_graph, nbr_weight, nbr_weight_of,
    lemma_keys_within_mono, lemma_popped_entry_below, lemma_refreshed_idempotent, lemma_top_from_props,
    lemma_last_fresh, bucket_ok, lemma_modified_locks, best_bucket,
    lemma_keys_near_within,
};
use crate::hypergraph::Hypergraph;
use crate::moveinfo::MoveInfoV;

verus! {

/// The number of the nodes `0 .. n` that `s` holds.
pub open spec fn count_in(s: Set<usize>, n: int) -> nat
    decreases n,
{
    if n <= 0 {
        0
    } else {
        count_in(s, n - 1) + if s.contains((n - 1) as usize) {
            1nat
        } else {
            0nat
        }
    }
}

/// The number of the modules `0 .. k` that `part` places outside part `p`.
pub open spec fn count_not_in(part: Seq<u8>, p: int, k: int) -> nat
    decreases k,
{
    if k <= 0 {
        0
    } else {
        count_not_in(part, p, k - 1) + if part[k - 1] != p {
            1nat
        } else {
            0nat
        }
    }
}

/// Two sets that agree below `n` hold as many nodes below `n`.
pub proof fn lemma_count_in_agree(s: Set<usize>, t: Set<usize>, n: int)
    requires
        forall|x: usize| x < n ==> (s.contains(x) <==> t.contains(x)),
    ensures
        count_in(s, n) == count_in(t, n),
    decreases n,
{
    if n > 0 {
        lemma_count_in_agree(s, t, n - 1);
    }
}

/// Removing a node below `n` that the set holds lowers the count by one.
pub proof fn lemma_count_in_remove(s: Set<usize>, v: usize, n: int)
    requires
        s.contains(v),
        v < n <= usize::MAX,
    ensures
        count_in(s.remove(v), n) + 1 == count_in(s, n),
    decreases n,
{
    if v < n - 1 {
        lemma_count_in_remove(s, v, n - 1);
        assert(s.remove(v).contains((n - 1) as usize) == s.contains((n - 1) as usize));
    } else {
        assert forall|x: usize| x < n - 1 implies (s.remove(v).contains(x) <==> s.contains(x)) by {}
        lemma_count_in_agree(s.remove(v), s, n - 1);
        assert((n - 1) as usize == v);
    }
}

/// Moving a module below `k` into part `p` from another part lowers the
/// count of modules outside `p` by one.
pub proof fn lemma_count_not_in_move(part: Seq<u8>, v: int, p: u8, k: int)
    requires
        0 <= v < k <= part.len(),
        part[v] != p,
    ensures
        count_not_in(part.update(v, p), p as int, k) + 1 == count_not_in(part, p as int, k),
    decreases k,
{
    if v < k - 1 {
        lemma_count_not_in_move(part, v, p, k - 1);
    } else {
        lemma_count_not_in_same(part.update(v, p), part, p as int, k - 1);
    }
}

/// Partitions that agree on the modules below `k` count alike.
pub proof fn lemma_count_not_in_same(a: Seq<u8>, b: Seq<u8>, p: int, k: int)
    requires
        0 <= k <= a.len(),
        k <= b.len(),
        forall|i: int| 0 <= i < k ==> a[i] == b[i],
    ensures
        count_not_in(a, p, k) == count_not_in(b, p, k),
    decreases k,
{
    if k > 0 {
        lemma_count_not_in_same(a, b, p, k - 1);
    }
}

/// Hypergraphs with the same module weights give the same part weights.
pub proof fn lemma_same_part_weights<G: Hypergraph>(a: &G, b: &G, part: Seq<u8>, p: int, k: int)
    requires
        forall|x: usize| #[trigger] a.spec_module_weight(x) == b.spec_module_weight(x),
    ensures
        part_weight_upto(a, part, p, k) == part_weight_upto(b, part, p, k),
    decreases k,
{
    if k > 0 {
        lemma_same_part_weights(a, b, part, p, k - 1);
    }
}

/// The entry that the next pop of a searched bucket takes is live: it names
/// a queued node below `n`, and the pop leaves that node out of the queue.
pub proof fn lemma_pop_present(b: BucketQueueView<usize>, n: int)
    requires
        crate::fm_gain_mgr::nodes_below(b, n),
        -1 <= b.cursor < b.buckets.len(),
        b.refreshed().cursor >= 0,
    ensures
        b.present.contains(b.popped_entry().1),
        b.keys.contains_key(b.popped_entry().1),
        b.keys[b.popped_entry().1] == b.popped_entry().0,
        b.popped_entry().1 < n,
        b.after_pop().present == b.present.remove(b.popped_entry().1),
{
    lemma_popped_entry_below(b, n);
    lemma_top_from_props(b, b.cursor);
    lemma_last_fresh(b, b.top_from(b.cursor));
}

/// The number of (bucket, node) pairs among the first `k` buckets in which a
/// node below `n` is queued.
pub open spec fn present_pairs(bqs: Seq<BucketQueueView<usize>>, n: int, k: int) -> nat
    decreases k,
{
    if k <= 0 {
        0
    } else {
        present_pairs(bqs, n, k - 1) + count_in(bqs[k - 1].present, n)
    }
}

/// Buckets that queue the same nodes give the same count.
pub proof fn lemma_present_pairs_agree(a: Seq<BucketQueueView<usize>>, b: Seq<BucketQueueView<usize>>, n: int, k: int)
    requires
        0 <= k <= a.len(),
        k <= b.len(),
        forall|i: int| 0 <= i < k ==> #[trigger] a[i].present == b[i].present,
    ensures
        present_pairs(a, n, k) == present_pairs(b, n, k),
    decreases k,
{
    if k > 0 {
        lemma_present_pairs_agree(a, b, n, k - 1);
    }
}

/// Replacing one bucket changes the count by that bucket's change.
pub proof fn lemma_present_pairs_update(
    a: Seq<BucketQueueView<usize>>,
    i: int,
    x: BucketQueueView<usize>,
    n: int,
    k: int,
)
    requires
        0 <= i < k <= a.len(),
    ensures
        present_pairs(a.update(i, x), n, k) + count_in(a[i].present, n) == present_pairs(a, n, k) + count_in(
            x.present,
            n,
        ),
    decreases k,
{
    if i < k - 1 {
        lemma_present_pairs_update(a, i, x, n, k - 1);
    } else {
        lemma_present_pairs_agree(a.update(i, x), a, n, k - 1);
    }
}

/// The number of the nodes `0 .. n` that `s` leaves out.
pub open spec fn count_out(s: Set<usize>, n: int) -> nat
    decreases n,
{
    if n <= 0 {
        0
    } else {
        count_out(s, n - 1) + if s.contains((n - 1) as usize) {
            0nat
        } else {
            1nat
        }
    }
}

/// The number of (bucket, node) pairs among the first `k` buckets in which a
/// node below `n` is not locked.
pub open spec fn unlocked_pairs(bqs: Seq<BucketQueueView<usize>>, n: int, k: int) -> nat
    decreases k,
{
    if k <= 0 {
        0
    } else {
        unlocked_pairs(bqs, n, k - 1) + count_out(bqs[k - 1].locked, n)
    }
}

/// Adding a node never raises the count of nodes left out, and adding one
/// below `n` that was left out lowers it by one.
pub proof fn lemma_count_out_insert(s: Set<usize>, v: usize, n: int)
    requires
        n <= usize::MAX,
    ensures
        count_out(s.insert(v), n) <= count_out(s, n),
        v < n && !s.contains(v) ==> count_out(s.insert(v), n) + 1 == count_out(s, n),
    decreases n,
{
    if n > 0 {
        lemma_count_out_insert(s, v, n - 1);
        if v == (n - 1) as usize {
            assert(v == n - 1);
            lemma_count_out_agree(s.insert(v), s, n - 1);
        }
    }
}

/// Sets that agree below `n` leave out as many nodes below `n`.
pub proof fn lemma_count_out_agree(s: Set<usize>, t: Set<usize>, n: int)
    requires
        forall|x: usize| x < n ==> (s.contains(x) <==> t.contains(x)),
    ensures
        count_out(s, n) == count_out(t, n),
    decreases n,
{
    if n > 0 {
        lemma_count_out_agree(s, t, n - 1);
    }
}

/// Locking `v` in some buckets, bucket `to` among them where it was not
/// locked, lowers the count of unlocked pairs.
pub proof fn lemma_unlocked_pairs_lock(
    a: Seq<BucketQueueView<usize>>,
    b: Seq<BucketQueueView<usize>>,
    v: usize,
    to: int,
    n: int,
    k: int,
)
    requires
        0 <= k <= a.len(),
        k <= b.len(),
        n <= usize::MAX,
        v < n,
        forall|i: int|
            0 <= i < k ==> (#[trigger] b[i]).locked == a[i].locked || b[i].locked == a[i].locked.insert(v),
        0 <= to < a.len(),
        to < b.len(),
        b[to].locked == a[to].locked.insert(v),
        !a[to].locked.contains(v),
    ensures
        unlocked_pairs(b, n, k) + (if to < k {
            1nat
        } else {
            0nat
        }) <= unlocked_pairs(a, n, k),
    decreases k,
{
    if k > 0 {
        lemma_unlocked_pairs_lock(a, b, v, to, n, k - 1);
        lemma_count_out_insert(a[k - 1].locked, v, n);
    }
}

/// Buckets with the same locked nodes give the same count.
pub proof fn lemma_unlocked_pairs_agree(a: Seq<BucketQueueView<usize>>, b: Seq<BucketQueueView<usize>>, n: int, k: int)
    requires
        0 <= k <= a.len(),
        k <= b.len(),
        forall|i: int| 0 <= i < k ==> #[trigger] a[i].locked == b[i].locked,
    ensures
        unlocked_pairs(a, n, k) == unlocked_pairs(b, n, k),
    decreases k,
{
    if k > 0 {
        lemma_unlocked_pairs_agree(a, b, n, k - 1);
    }
}

/// The bucket that `select` picks exists.
pub proof fn lemma_best_bucket_range(bqs: Seq<BucketQueueView<usize>>, n: int)
    requires
        n >= 1,
    ensures
        0 <= crate::fm_gain_mgr::best_bucket(bqs, n) < n,
    decreases n,
{
    if n > 1 {
        lemma_best_bucket_range(bqs, n - 1);
    }
}

/// Fiduccia-Mattheyses partitioning manager: the hypergraph, a gain manager,
/// a constraint manager (the validator), the number of parts and the cost
/// of the current partition.
pub struct PartMgrBase<Gnl: Hypergraph, GainMgr, ConstrMgr> {
    pub hyprgraph: Gnl,
    pub gain_mgr: GainMgr,
    pub validator: ConstrMgr,
    pub num_parts: usize,
    pub total_cost: i32,
}

impl<Gnl: Hypergraph, GainMgr, ConstrMgr> PartMgrBase<Gnl, GainMgr, ConstrMgr> {
    /// A manager over the given parts; the cost starts at 0.
    pub fn new(hyprgraph: Gnl, gain_mgr: GainMgr, validator: ConstrMgr, num_parts: usize) -> (r: Self)
        ensures
            r.hyprgraph == hyprgraph,
            r.gain_mgr == gain_mgr,
            r.validator == validator,
            r.num_parts == num_parts,
            r.total_cost == 0,
    {
        PartMgrBase { hyprgraph, gain_mgr, validator, num_parts, total_cost: 0 }
    }
}

impl<Gnl: Hypergraph, GainCalc: GainCalcTrait<Gnl>, ConstrMgr: ConstrMgrInterface<Gnl>> PartMgrBase<
    Gnl,
    FMGainMgr<Gnl, GainCalc>,
    ConstrMgr,
> {
    /// The manager's invariant: both managers are sound, read the same
    /// hypergraph, and keep one entry per part; there are at least two parts.
    pub open spec fn wf(&self) -> bool {
        &&& self.hyprgraph.wf()
        &&& self.gain_mgr.wf()
        &&& same_graph(&self.gain_mgr.hyprgraph, &self.hyprgraph)
        &&& weights_fit(&self.gain_mgr.hyprgraph)
        &&& self.validator.constr_wf()
        &&& same_graph(&self.validator.constr_graph(), &self.hyprgraph)
        &&& self.gain_mgr.num_parts == self.num_parts
        &&& self.validator.spec_diff().len() == self.num_parts
        &&& self.num_parts >= 2
    }

    /// The part weights of `part`.
    pub open spec fn weights_of(&self, part: Seq<u8>) -> Seq<u32> {
        part_weights(&self.hyprgraph, part, self.num_parts as nat)
    }

    /// Fill the gain manager for `part` and take its cut cost as the total
    /// cost; the validator takes the part weights of `part`.
    pub fn init(&mut self, part: &mut [u8])
        requires
            old(self).wf(),
            old(part)@.len() == old(self).hyprgraph.spec_num_modules(),
            valid_part(old(part)@, old(self).num_parts as int),
        ensures
            final(self).wf(),
            final(part)@ == old(part)@,
            final(self).hyprgraph == old(self).hyprgraph,
            final(self).num_parts == old(self).num_parts,
            final(self).gain_mgr.hyprgraph == old(self).gain_mgr.hyprgraph,
            old(self).gain_mgr.gain_calc.init_post(final(self).gain_mgr.gain_calc, old(part)@, final(self).total_cost),
            final(self).gain_mgr.gain_calc.populate_post(
                old(part)@,
                Seq::new(old(self).hyprgraph.spec_num_modules(), |i: int| i as usize),
                Seq::new(
                    old(self).gain_mgr.buckets().len(),
                    |k: int| old(self).gain_mgr.buckets()[k].cleared(),
                ),
                final(self).gain_mgr.buckets(),
            ),
            final(self).validator.constr_graph() == old(self).validator.constr_graph(),
            final(self).validator.spec_lowerbound() == old(self).validator.spec_lowerbound(),
            final(self).validator.spec_diff() == final(self).weights_of(old(part)@),
            forall|k: int| 0 <= k < final(self).num_parts ==> #[trigger] bucket_ok(final(self).gain_mgr.buckets()[k]),
    {
        proof {
            self.validator.lemma_ready(MoveInfoV { v: 0, from_part: 0, to_part: 0 }, part@);
        }
        let ghost cleared = Seq::new(
            self.gain_mgr.buckets().len(),
            |k: int| self.gain_mgr.buckets()[k].cleared(),
        );
        self.total_cost = self.gain_mgr.init(&*part);
        self.validator.init(&*part);
        proof {
            self.gain_mgr.gain_calc.lemma_populate_locks(
                part@,
                Seq::new(self.hyprgraph.spec_num_modules(), |i: int| i as usize),
                cleared,
                self.gain_mgr.buckets(),
            );
            assert forall|k: int| 0 <= k < self.num_parts implies #[trigger] bucket_ok(self.gain_mgr.buckets()[k]) by {
                assert(self.gain_mgr.buckets()[k].locked == cleared[k].locked);
            }
            let vg = self.validator.constr_graph();
            let np = self.num_parts as nat;
            assert forall|x: usize| #[trigger] vg.spec_module_weight(x) == self.hyprgraph.spec_module_weight(x) by {}
            assert(self.validator.spec_diff() =~= self.weights_of(part@)) by {
                assert forall|p: int| 0 <= p < np implies self.validator.spec_diff()[p] == self.weights_of(part@)[p] by {
                    lemma_same_part_weights(&vg, &self.hyprgraph, part@, p, part@.len() as int);
                }
            }
        }
    }

    /// Move modules until the partition meets the validator's demands: each
    /// round takes the best move towards the part the validator names, drops
    /// it when the validator refuses it, and makes it otherwise; the rounds
    /// end with the first move that satisfies the validator, or when no move
    /// towards the named part is queued. Returns the validator's answer to
    /// the last move looked at.
    ///
    /// A round also ends the legalization, before the move is checked, where
    /// a gain update could leave `i32` (the moved module's nets weigh more
    /// than the keys leave room for) or the cost would leave `i32`.
    pub fn legalize(&mut self, part: &mut [u8]) -> (r: LegalCheck)
        requires
            old(self).wf(),
            old(part)@.len() == old(self).hyprgraph.spec_num_modules(),
            valid_part(old(part)@, old(self).num_parts as int),
        ensures
            final(self).wf(),
            final(self).hyprgraph == old(self).hyprgraph,
            final(self).num_parts == old(self).num_parts,
            final(self).validator.spec_lowerbound() == old(self).validator.spec_lowerbound(),
            final(part)@.len() == old(part)@.len(),
            valid_part(final(part)@, old(self).num_parts as int),
            final(self).validator.spec_diff() == final(self).weights_of(final(part)@),
            r == LegalCheck::AllSatisfied ==> ConstrMgr::accepts(
                final(self).weights_of(final(part)@),
                final(self).validator.spec_lowerbound(),
            ),
    {
        let ghost g = self.hyprgraph;
        let ghost np = self.num_parts as int;
        let ghost n = g.spec_num_modules() as int;
        let ghost lb = self.validator.spec_lowerbound();
        let ghost vg = self.validator.constr_graph();
        self.init(part);
        let mut legalcheck = LegalCheck::NotSatisfied;
        loop
            invariant_except_break
                legalcheck != LegalCheck::AllSatisfied,
            invariant
                self.wf(),
                self.hyprgraph == g,
                self.num_parts == np,
                n == g.spec_num_modules(),
                self.validator.constr_graph() == vg,
                self.validator.spec_lowerbound() == lb,
                part@.len() == n,
                valid_part(part@, np),
                self.validator.spec_diff() == self.weights_of(part@),
                legalcheck == LegalCheck::AllSatisfied ==> ConstrMgr::accepts(self.validator.spec_diff(), lb),
            decreases
                deficit(self.validator.spec_diff(), lb),
                count_not_in(part@, ConstrMgr::togo_of(self.validator.spec_diff()), n),
                count_in(self.gain_mgr.buckets()[ConstrMgr::togo_of(self.validator.spec_diff())].present, n),
        {
            let ghost diff = self.validator.spec_diff();
            let ghost t = ConstrMgr::togo_of(diff);
            let ghost cnt = count_in(self.gain_mgr.buckets()[t].present, n);
            proof {
                self.validator.lemma_ready(MoveInfoV { v: 0, from_part: 0, to_part: 0 }, part@);
                ConstrMgr::lemma_togo(diff);
            }
            let to_part = self.validator.select_togo();
            if self.gain_mgr.is_empty_togo(to_part) {
                break;
            }
            let ghost b0 = self.gain_mgr.buckets()[t];
            proof {
                self.gain_mgr.gain_bucket@[t].lemma_wf();
                assert(b0 == self.gain_mgr.gain_bucket@[t]@);
                lemma_refreshed_idempotent(b0);
            }
            if !self.gain_mgr.has_move_togo(to_part) {
                break;
            }
            let ghost b = self.gain_mgr.buckets()[t];
            proof {
                self.gain_mgr.gain_bucket@[t].lemma_wf();
                assert(b == self.gain_mgr.gain_bucket@[t]@);
                assert(b == b0.refreshed());
                lemma_pop_present(b, n);
                assert(count_in(b.present, n) == cnt);
            }
            let (v, gainmax) = self.gain_mgr.select_togo(to_part);
            proof {
                lemma_count_in_remove(b.present, v, n);
                assert(self.gain_mgr.buckets()[t].present == b.present.remove(v));
            }
            let nw = nbr_weight_of(&self.gain_mgr.hyprgraph, v);
            let kb = self.gain_mgr.max_abs_key();
            if nw > 1073741823 || kb as u128 + 2 * nw > 2147483647 {
                break;
            }
            let new_cost = match self.total_cost.checked_sub(gainmax) {
                Some(c) => c,
                None => {
                    break;
                },
            };
            let from_part = part[v];
            let move_info_v = MoveInfoV { v, from_part, to_part };
            proof {
                self.validator.lemma_ready(move_info_v, part@);
            }
            legalcheck = self.validator.check_legal(&move_info_v);
            if legalcheck == LegalCheck::NotSatisfied {
                continue;
            }
            let ghost w = vg.spec_module_weight(v) as int;
            proof {
                lemma_same_module_weight(&vg, &g, n);
                lemma_part_weight_bound(&g, part@, to_part as int, n);
                lemma_part_weight_bound(&g, part@, from_part as int, n);
                if from_part != to_part {
                    lemma_two_parts_bound(&g, part@, to_part as int, from_part as int, n);
                    lemma_part_weight_member(&g, part@, v as int, n);
                }
                ConstrMgr::lemma_legal(diff, lb, w, move_info_v);
                lemma_keys_within_mono(
                    self.gain_mgr.buckets(),
                    kb as int,
                    i32::MAX - 2 * nbr_weight(&self.gain_mgr.hyprgraph, v),
                );
            }
            self.gain_mgr.update_move(&*part, &move_info_v);
            if from_part != to_part {
                proof {
                    self.validator.lemma_ready(move_info_v, part@);
                }
                self.validator.update_move(&move_info_v);
            }
            let ghost old_part = part@;
            part[v] = to_part;
            self.total_cost = new_cost;
            proof {
                assert(part@ == old_part.update(v as int, to_part));
                if from_part != to_part {
                    assert(self.validator.spec_diff() =~= self.weights_of(part@)) by {
                        assert forall|p: int| 0 <= p < np implies self.validator.spec_diff()[p] == self.weights_of(
                            part@,
                        )[p] by {
                            lemma_part_weight_move(&g, old_part, v as int, to_part, p, n);
                            lemma_part_weight_bound(&g, part@, p, n);
                            lemma_part_weight_bound(&g, old_part, p, n);
                        }
                    }
                } else {
                    assert(part@ =~= old_part);
                }
                if legalcheck == LegalCheck::GetBetter {
                    if w == 0 {
                        assert(self.validator.spec_diff() =~= diff);
                        lemma_count_not_in_move(old_part, v as int, to_part, n);
                    }
                }
            }
            if legalcheck == LegalCheck::AllSatisfied {
                break;
            }
        }
        legalcheck
    }

    /// One pass of moves: while a move is queued, take the best one, skip it
    /// when the validator refuses it, and make it otherwise, locking the
    /// moved module. A snapshot of the partition is kept before the first
    /// move of each run of losing moves that follows the best total gain so
    /// far; when the pass ends inside such a run, the partition goes back to
    /// the snapshot. The cost drops by the total gain kept.
    ///
    /// The pass also stops where no queued move has a live entry, where a gain
    /// update could leave `i32`, where the validator could not record the
    /// move, or where the total gain would leave `i32`.
    fn optimize_1pass(&mut self, part: &mut [u8])
        requires
            old(self).wf(),
            old(part)@.len() == old(self).hyprgraph.spec_num_modules(),
            valid_part(old(part)@, old(self).num_parts as int),
            forall|k: int| 0 <= k < old(self).num_parts ==> #[trigger] bucket_ok(old(self).gain_mgr.buckets()[k]),
        ensures
            final(self).wf(),
            final(self).hyprgraph == old(self).hyprgraph,
            final(self).num_parts == old(self).num_parts,
            final(self).validator.constr_graph() == old(self).validator.constr_graph(),
            final(self).validator.spec_lowerbound() == old(self).validator.spec_lowerbound(),
            final(part)@.len() == old(part)@.len(),
            valid_part(final(part)@, old(self).num_parts as int),
            final(self).total_cost <= old(self).total_cost,
    {
        let ghost g = self.hyprgraph;
        let ghost np = self.num_parts as int;
        let ghost n = g.spec_num_modules() as int;
        let ghost lb = self.validator.spec_lowerbound();
        let ghost vg = self.validator.constr_graph();
        let ghost cost0 = self.total_cost;
        if self.hyprgraph.number_of_modules() == 0 {
            return ;
        }
        proof {
            self.gain_mgr.hyprgraph.lemma_node_counts();
        }
        let mut snapshot: Option<Vec<u8>> = None;
        let mut totalgain: i32 = 0;
        let mut deferredsnapshot = false;
        let mut besttotalgain: i32 = 0;
        while !self.gain_mgr.is_empty()
            invariant
                self.wf(),
                self.hyprgraph == g,
                self.num_parts == np,
                n == g.spec_num_modules(),
                1 <= n <= usize::MAX,
                self.validator.constr_graph() == vg,
                self.validator.spec_lowerbound() == lb,
                part@.len() == n,
                valid_part(part@, np),
                self.total_cost == cost0,
                forall|k: int| 0 <= k < np ==> #[trigger] bucket_ok(self.gain_mgr.buckets()[k]),
                0 <= besttotalgain,
                !deferredsnapshot ==> totalgain >= besttotalgain,
                deferredsnapshot ==> snapshot is Some && snapshot->0@.len() == n && valid_part(snapshot->0@, np),
            decreases
                unlocked_pairs(self.gain_mgr.buckets(), n, np),
                present_pairs(self.gain_mgr.buckets(), n, np),
        {
            let ghost bs = self.gain_mgr.buckets();
            let ghost rb = self.gain_mgr.refreshed_buckets();
            let ghost best = best_bucket(rb, rb.len() as int);
            proof {
                assert forall|i: int| 0 <= i < np implies #[trigger] bs[i].present == rb[i].present && bs[i].locked
                    == rb[i].locked by {}
                lemma_present_pairs_agree(bs, rb, n, np);
                lemma_unlocked_pairs_agree(bs, rb, n, np);
                lemma_best_bucket_range(rb, np);
                self.gain_mgr.gain_bucket@[best].lemma_wf();
                assert(bs[best] == self.gain_mgr.gain_bucket@[best]@);
                lemma_refreshed_idempotent(bs[best]);
                lemma_top_from_props(bs[best], bs[best].cursor);
            }
            let (move_info_v, gainmax) = self.gain_mgr.select(&*part);
            proof {
                let nb = self.gain_mgr.buckets();
                if rb[best].cursor >= 0 {
                    lemma_pop_present(rb[best], n);
                }
                assert forall|k: int| 0 <= k < np implies #[trigger] bucket_ok(nb[k]) by {
                    assert(bucket_ok(bs[k]));
                    assert forall|x: usize| #[trigger] nb[k].present.contains(x) implies !nb[k].locked.contains(x) by {
                        assert(bs[k].present.contains(x));
                    }
                }
            }
            if gainmax == -2147483646 {
                break;
            }
            let v = move_info_v.v;
            let from_part = move_info_v.from_part;
            let to_part = move_info_v.to_part;
            proof {
                assert(rb[best].cursor >= 0);
                lemma_pop_present(rb[best], n);
                lemma_present_pairs_update(rb, best, rb[best].after_pop(), n, np);
                lemma_count_in_remove(rb[best].present, v, n);
                assert(bucket_ok(bs[best]));
                assert(!rb[best].locked.contains(v));
                let nb = self.gain_mgr.buckets();
                assert forall|i: int| 0 <= i < np implies #[trigger] nb[i].locked == bs[i].locked by {}
                lemma_unlocked_pairs_agree(nb, bs, n, np);
                assert forall|k: int| 0 <= k < np implies #[trigger] bucket_ok(nb[k]) by {
                    assert(bucket_ok(bs[k]));
                    if k == best {
                        assert forall|x: usize| #[trigger] nb[k].present.contains(x) implies !nb[k].locked.contains(
                            x,
                        ) by {
                            assert(bs[k].present.contains(x));
                        }
                    }
                }
                self.validator.lemma_ready(move_info_v, part@);
            }
            let satisfied_ok = self.validator.check_constraints(&move_info_v);
            if !satisfied_ok {
                continue;
            }
            let nw = nbr_weight_of(&self.gain_mgr.hyprgraph, v);
            let kb = self.gain_mgr.max_abs_key();
            proof {
                assert(self.gain_mgr.buckets()[best].keys == rb[best].keys);
                assert(self.gain_mgr.buckets()[best].keys.contains_key(v));
                assert(-kb <= gainmax <= kb);
            }
            if nw > 536870911 || kb as u128 + 4 * nw > 2147483647 {
                break;
            }
            if !self.validator.can_update(&move_info_v) {
                break;
            }
            let tg = match totalgain.checked_add(gainmax) {
                Some(t) => t,
                None => {
                    break;
                },
            };
            if gainmax < 0 {
                if !deferredsnapshot || totalgain > besttotalgain {
                    snapshot = Some(vstd::slice::slice_to_vec(&*part));
                    besttotalgain = totalgain;
                }
                deferredsnapshot = true;
            } else if tg >= besttotalgain {
                besttotalgain = tg;
                deferredsnapshot = false;
            }
            let ghost b1 = self.gain_mgr.buckets();
            self.gain_mgr.lock(to_part, v);
            let ghost b2 = self.gain_mgr.buckets();
            proof {
                lemma_unlocked_pairs_lock(b1, b2, v, to_part as int, n, np);
                assert forall|k: int| 0 <= k < np implies #[trigger] bucket_ok(b2[k]) by {
                    assert(bucket_ok(b1[k]));
                    if np == 2 || k == to_part {
                        assert forall|x: usize| #[trigger] b2[k].present.contains(x) implies !b2[k].locked.contains(
                            x,
                        ) by {
                            assert(b1[k].present.contains(x));
                        }
                    }
                }
                lemma_keys_within_mono(b2, kb as int, i32::MAX - 2 * nbr_weight(&self.gain_mgr.hyprgraph, v));
            }
            self.gain_mgr.update_move(&*part, &move_info_v);
            let ghost b3 = self.gain_mgr.buckets();
            proof {
                let e = 2 * nbr_weight(&self.gain_mgr.hyprgraph, v);
                lemma_keys_near_within(b3, b2, e, kb as int);
                self.gain_mgr.gain_calc.lemma_dv_within_bound(e);
                let dv = self.gain_mgr.gain_calc.spec_delta_gain_v();
                assert forall|k: int|
                    0 <= k < self.num_parts && k != from_part && k != to_part && k < dv.len() && dv[k] != 0 implies (
                    #[trigger] b3[k]).key_fits(dv[k] as int, v) by {
                    if b3[k].keys.contains_key(v) {
                        assert(-(kb + e) <= b3[k].keys[v] <= kb + e);
                    }
                }
            }
            let ghost dv = self.gain_mgr.gain_calc.spec_delta_gain_v();
            self.gain_mgr.update_move_v(&move_info_v, gainmax);
            let ghost b4 = self.gain_mgr.buckets();
            proof {
                assert forall|k: int| 0 <= k < np implies #[trigger] b4[k].locked == b3[k].locked && (bucket_ok(b3[k])
                    ==> bucket_ok(b4[k])) by {
                    if self.num_parts != 2 && k != from_part && k != to_part && k < dv.len() && dv[k] != 0 {
                        lemma_modified_locks(b3[k], dv[k], v);
                    }
                    if k == from_part && self.num_parts != 2 && k < dv.len() && dv[k] != 0 && k != to_part {
                        lemma_modified_locks(b3[k], dv[k], v);
                    }
                }
                assert forall|k: int| 0 <= k < np implies #[trigger] bucket_ok(b4[k]) by {
                    assert(bucket_ok(b2[k]));
                    assert(bucket_ok(b3[k]));
                }
                assert forall|i: int| 0 <= i < np implies #[trigger] b4[i].locked == b2[i].locked by {}
                lemma_unlocked_pairs_agree(b4, b2, n, np);
            }
            self.validator.update_move(&move_info_v);
            totalgain = tg;
            part[v] = to_part;
        }
        if deferredsnapshot {
            match snapshot {
                Some(snap) => {
                    let mut i: usize = 0;
                    while i < snap.len()
                        invariant
                            part@.len() == n,
                            snap@.len() == n,
                            valid_part(snap@, np),
                            valid_part(part@, np),
                            i <= n,
                        decreases n - i,
                    {
                        part[i] = snap[i];
                        i = i + 1;
                    }
                },
                None => {},
            }
            totalgain = besttotalgain;
        }
        match self.total_cost.checked_sub(totalgain) {
            Some(c) => {
                self.total_cost = c;
            },
            None => {},
        }
    }

    /// Run passes until one leaves the cost where it was: each pass starts
    /// from the gains and cost of the current partition.
    ///
    /// The passes also end when the cost computed at the start of a pass is
    /// not below the one computed at the start of the pass before (with
    /// exact gains a pass that changes the cost lowers it). The cost left is
    /// at most the one computed for the given partition, or else the one
    /// computed for the partition left.
    pub fn optimize(&mut self, part: &mut [u8])
        requires
            old(self).wf(),
            old(part)@.len() == old(self).hyprgraph.spec_num_modules(),
            valid_part(old(part)@, old(self).num_parts as int),
        ensures
            final(self).wf(),
            final(self).hyprgraph == old(self).hyprgraph,
            final(self).num_parts == old(self).num_parts,
            final(self).validator.spec_lowerbound() == old(self).validator.spec_lowerbound(),
            final(part)@.len() == old(part)@.len(),
            valid_part(final(part)@, old(self).num_parts as int),
            (exists|c0: i32, gc: GainCalc|
                old(self).gain_mgr.gain_calc.init_post(gc, old(part)@, c0) && final(self).total_cost <= c0)
                || (exists|gc: GainCalc| gc.init_post(final(self).gain_mgr.gain_calc, final(part)@, final(self).total_cost)),
    {
        let ghost g = self.hyprgraph;
        let ghost np = self.num_parts as int;
        let ghost lb = self.validator.spec_lowerbound();
        let ghost gc0 = self.gain_mgr.gain_calc;
        let ghost part0 = part@;
        let ghost mut started = false;
        let mut bound: i64 = 2147483648;
        loop
            invariant
                self.wf(),
                self.hyprgraph == g,
                self.num_parts == np,
                self.validator.spec_lowerbound() == lb,
                part@.len() == g.spec_num_modules(),
                valid_part(part@, np),
                i32::MIN <= bound <= 2147483648,
                gc0 == old(self).gain_mgr.gain_calc,
                part0 == old(part)@,
                !started ==> self.gain_mgr.gain_calc == gc0 && part@ == part0 && bound == 2147483648,
                started ==> exists|c0: i32, gc: GainCalc| gc0.init_post(gc, part0, c0) && bound <= c0,
            ensures
                (exists|c0: i32, gc: GainCalc| gc0.init_post(gc, part0, c0) && self.total_cost <= c0) || (exists|
                    gc: GainCalc,
                | gc.init_post(self.gain_mgr.gain_calc, part@, self.total_cost)),
            decreases bound - i32::MIN,
        {
            let ghost gc_before = self.gain_mgr.gain_calc;
            self.init(part);
            let totalcost_before = self.total_cost;
            proof {
                assert(gc_before.init_post(self.gain_mgr.gain_calc, part@, self.total_cost));
                if !started {
                    assert(gc0.init_post(self.gain_mgr.gain_calc, part0, totalcost_before));
                }
            }
            if totalcost_before as i64 >= bound {
                proof {
                    assert(exists|gc: GainCalc| gc.init_post(self.gain_mgr.gain_calc, part@, self.total_cost));
                }
                break;
            }
            let ghost c_now = totalcost_before;
            let ghost gc_now = self.gain_mgr.gain_calc;
            proof {
                if !started {
                    assert(gc0.init_post(gc_now, part0, c_now));
                }
            }
            bound = totalcost_before as i64;
            self.optimize_1pass(part);
            proof {
                if !started {
                    assert(gc0.init_post(gc_now, part0, c_now) && bound <= c_now);
                }
                started = true;
            }
            if self.total_cost == totalcost_before {
                proof {
                    assert(exists|c0: i32, gc: GainCalc| gc0.init_post(gc, part0, c0) && bound <= c0);
                    let (c0, gc) = choose|c0: i32, gc: GainCalc| gc0.init_post(gc, part0, c0) && bound <= c0;
                    assert(gc0.init_post(gc, part0, c0) && self.total_cost <= c0);
                }
                break;
            }
        }
    }
}

/// A module counts towards the weight of its own part.
pub proof fn lemma_part_weight_member<G: Hypergraph>(g: &G, part: Seq<u8>, v: int, k: int)
    requires
        0 <= v < k <= part.len(),
    ensures
        part_weight_upto(g, part, part[v] as int, k) >= g.spec_module_weight(v as usize),
    decreases k,
{
    if v < k - 1 {
        lemma_part_weight_member(g, part, v, k - 1);
    } else {
        lemma_part_weight_bound(g, part, part[v] as int, k - 1);
    }
}

/// Hypergraphs with the same module weights weigh the same in total.
pub proof fn lemma_same_module_weight<G: Hypergraph>(a: &G, b: &G, k: int)
    requires
        forall|x: usize| #[trigger] a.spec_module_weight(x) == b.spec_module_weight(x),
    ensures
        module_weight_upto(a, k) == module_weight_upto(b, k),
    decreases k,
{
    if k > 0 {
        lemma_same_module_weight(a, b, k - 1);
    }
}

} // verus!
