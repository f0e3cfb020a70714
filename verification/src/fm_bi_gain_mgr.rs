use vstd::prelude::*;
use crate::fm_bi_gain_calc::{FMBiGainCalc, pins_except, bi_cost_upto, bi_gain_upto, num_nets, general_delta_term, lemma_net_weight_le_total, valid_part};
use crate::fm_gain_mgr::{BucketQueue, BucketQueueView, FMGainMgr, GainCalcTrait, GainDelta, nodes_below};
use crate::hypergraph::{Hypergraph, is_netlist};
use crate::moveinfo::MoveInfo;

verus! {

/// The buckets after binary FM queued the first `k` modules: module
/// `modules[i]` goes, with its initial gain, into the bucket of the other
/// part `1 - part[i]`. With fewer than two buckets nothing is queued.
pub open spec fn bi_populate(
    bqs: Seq<BucketQueueView<usize>>,
    part: Seq<u8>,
    modules: Seq<usize>,
    gains: Seq<i32>,
    k: int,
) -> Seq<BucketQueueView<usize>>
    decreases k,
{
    if k <= 0 || bqs.len() < 2 {
        bqs
    } else {
        let prev = bi_populate(bqs, part, modules, gains, k - 1);
        let t = 1 - part[k - 1] as int;
        if 0 <= t < prev.len() {
            prev.update(t, prev[t].with_entry(gains[k - 1], modules[k - 1]))
        } else {
            prev
        }
    }
}

/// Queueing modules leaves every bucket's locked nodes as they were.
pub proof fn lemma_bi_populate_locks(
    bqs: Seq<BucketQueueView<usize>>,
    part: Seq<u8>,
    modules: Seq<usize>,
    gains: Seq<i32>,
    k: int,
)
    ensures
        bi_populate(bqs, part, modules, gains, k).len() == bqs.len(),
        forall|j: int|
            0 <= j < bqs.len() ==> (#[trigger] bi_populate(bqs, part, modules, gains, k)[j]).locked
                == bqs[j].locked,
    decreases k,
{
    if k > 0 && bqs.len() >= 2 {
        lemma_bi_populate_locks(bqs, part, modules, gains, k - 1);
    }
}

impl<Gnl: Hypergraph> GainCalcTrait<Gnl> for FMBiGainCalc<Gnl> {
    open spec fn calc_wf(&self) -> bool {
        self.wf()
    }

    open spec fn calc_graph(&self) -> Gnl {
        self.hyprgraph
    }

    open spec fn calc_num_parts(&self) -> nat {
        2
    }

    open spec fn spec_idx_vec(&self) -> Seq<usize> {
        self.idx_vec@
    }

    open spec fn spec_delta_gain_v(&self) -> Seq<i32> {
        Seq::empty()
    }

    open spec fn dv_within(&self, lim: int) -> bool {
        true
    }

    proof fn lemma_dv_within_mono(&self, a: int, b: int) {
    }

    proof fn lemma_dv_within_bound(&self, lim: int) {
    }

    proof fn lemma_populate_locks(
        self,
        part: Seq<u8>,
        modules: Seq<usize>,
        old_b: Seq<BucketQueueView<usize>>,
        new_b: Seq<BucketQueueView<usize>>,
    ) {
        lemma_bi_populate_locks(
            old_b,
            part,
            modules,
            self.init_gain_list@,
            if modules.len() <= self.init_gain_list@.len() {
                modules.len() as int
            } else {
                self.init_gain_list@.len() as int
            },
        );
    }

    open spec fn init_post(self, new: Self, part: Seq<u8>, cost: i32) -> bool {
        &&& new.hyprgraph == self.hyprgraph
        &&& new.idx_vec == self.idx_vec
        &&& new.delta_gain_w_val == self.delta_gain_w_val
        &&& new.special_handle_2pin_nets == self.special_handle_2pin_nets
        &&& new.total_cost == cost
        &&& cost == bi_cost_upto(&self.hyprgraph, part, self.special_handle_2pin_nets, num_nets(&self.hyprgraph))
        &&& new.init_gain_list@ == Seq::new(
            self.hyprgraph.spec_num_modules(),
            |x: int|
                bi_gain_upto(
                    &self.hyprgraph,
                    part,
                    self.special_handle_2pin_nets,
                    num_nets(&self.hyprgraph),
                    x as usize,
                ) as i32,
        )
    }

    open spec fn update_move_init_post(self, new: Self) -> bool {
        new == self
    }

    open spec fn init_idx_vec_post(self, new: Self, v: usize, net: usize) -> bool {
        &&& new.hyprgraph == self.hyprgraph
        &&& new.init_gain_list == self.init_gain_list
        &&& new.total_cost == self.total_cost
        &&& new.delta_gain_w_val == self.delta_gain_w_val
        &&& new.special_handle_2pin_nets == self.special_handle_2pin_nets
        &&& new.idx_vec@ == pins_except(
            self.hyprgraph.spec_neighbors(net),
            v,
            self.hyprgraph.spec_neighbors(net).len() as int,
        )
    }

    open spec fn update_2pin_post(
        self,
        new: Self,
        part: Seq<u8>,
        mi: MoveInfo<usize>,
        r: (usize, GainDelta),
    ) -> bool {
        let nb = self.hyprgraph.spec_neighbors(mi.net);
        let w = self.hyprgraph.spec_net_weight(mi.net) as int;
        let node_w = if nb[0] != mi.v {
            nb[0]
        } else {
            nb[1]
        };
        let d = 2 * (if part[node_w as int] == mi.from_part {
            w
        } else {
            -w
        });
        &&& r.0 == node_w
        &&& r.1 == GainDelta::Scalar(d as i32)
        &&& new == FMBiGainCalc { delta_gain_w_val: d as i32, ..self }
    }

    open spec fn update_3pin_post(self, new: Self, part: Seq<u8>, mi: MoveInfo<usize>, r: Seq<GainDelta>) -> bool {
        let w = self.hyprgraph.spec_net_weight(mi.net) as int;
        let part_w = part[self.idx_vec@[0] as int];
        let part_u = part[self.idx_vec@[1] as int];
        let adj = if part_w != mi.from_part {
            -w
        } else {
            w
        };
        &&& new == self
        &&& r == (if part_w == part_u {
            seq![GainDelta::Scalar(adj as i32), GainDelta::Scalar(adj as i32)]
        } else {
            seq![GainDelta::Scalar(adj as i32), GainDelta::Scalar((-adj) as i32)]
        })
    }

    open spec fn update_general_post(
        self,
        new: Self,
        part: Seq<u8>,
        mi: MoveInfo<usize>,
        r: Seq<GainDelta>,
    ) -> bool {
        let w = self.hyprgraph.spec_net_weight(mi.net) as int;
        &&& new == self
        &&& r.len() == self.idx_vec@.len()
        &&& forall|i: int|
            0 <= i < r.len() ==> #[trigger] r[i] == GainDelta::Scalar(
                (general_delta_term(self.idx_vec@, part, mi.from_part as int, w, i) + general_delta_term(
                    self.idx_vec@,
                    part,
                    mi.to_part as int,
                    -w,
                    i,
                )) as i32,
            )
    }

    open spec fn populate_post(
        self,
        part: Seq<u8>,
        modules: Seq<usize>,
        old_b: Seq<BucketQueueView<usize>>,
        new_b: Seq<BucketQueueView<usize>>,
    ) -> bool {
        new_b == bi_populate(
            old_b,
            part,
            modules,
            self.init_gain_list@,
            if modules.len() <= self.init_gain_list@.len() {
                modules.len() as int
            } else {
                self.init_gain_list@.len() as int
            },
        )
    }

    fn init(&mut self, part: &[u8]) -> (r: i32) {
        FMBiGainCalc::init(self, part)
    }

    fn update_move_init(&mut self) {
        FMBiGainCalc::update_move_init(self)
    }

    fn init_idx_vec(&mut self, v: usize, net: usize) {
        FMBiGainCalc::init_idx_vec(self, v, net)
    }

    fn idx_vec(&self) -> (r: &Vec<usize>) {
        &self.idx_vec
    }

    fn update_move_2pin_net(&mut self, part: &[u8], move_info: &MoveInfo<usize>) -> (r: (usize, GainDelta)) {
        proof {
            lemma_net_weight_le_total(&self.hyprgraph, move_info.net - self.hyprgraph.spec_num_modules());
        }
        let w = FMBiGainCalc::update_move_2pin_net(self, part, move_info);
        (w, GainDelta::Scalar(self.delta_gain_w_val))
    }

    fn update_move_3pin_net(&mut self, part: &[u8], move_info: &MoveInfo<usize>) -> (r: Vec<GainDelta>) {
        proof {
            lemma_net_weight_le_total(&self.hyprgraph, move_info.net - self.hyprgraph.spec_num_modules());
        }
        let deltas = FMBiGainCalc::update_move_3pin_net(self, part, move_info);
        let mut r: Vec<GainDelta> = Vec::new();
        r.push(GainDelta::Scalar(deltas[0]));
        r.push(GainDelta::Scalar(deltas[1]));
        proof {
            assert(r@ =~= seq![GainDelta::Scalar(deltas@[0]), GainDelta::Scalar(deltas@[1])]);
        }
        r
    }

    fn update_move_general_net(&mut self, part: &[u8], move_info: &MoveInfo<usize>) -> (r: Vec<GainDelta>) {
        proof {
            lemma_net_weight_le_total(&self.hyprgraph, move_info.net - self.hyprgraph.spec_num_modules());
        }
        proof {
            assert forall|i: int| 0 <= i < self.idx_vec@.len() implies (#[trigger] self.idx_vec@[i]) < part@.len() by {
                assert(self.spec_idx_vec()[i] < part@.len());
            }
        }
        let deltas = FMBiGainCalc::update_move_general_net(self, part, move_info);
        let ghost w = self.hyprgraph.spec_net_weight(move_info.net) as int;
        let mut r: Vec<GainDelta> = Vec::new();
        let mut i: usize = 0;
        while i < deltas.len()
            invariant
                i <= deltas@.len(),
                r@.len() == i,
                forall|j: int| 0 <= j < i ==> #[trigger] r@[j] == GainDelta::Scalar(deltas@[j]),
                forall|j: int| 0 <= j < deltas@.len() ==> -2 * w <= #[trigger] deltas@[j] <= 2 * w,
            decreases deltas@.len() - i,
        {
            r.push(GainDelta::Scalar(deltas[i]));
            i = i + 1;
        }
        r
    }

    fn delta_gain_v(&self) -> (r: Vec<i32>) {
        Vec::new()
    }

    fn populate_buckets(&self, part: &[u8], modules: &[usize], gain_bucket: &mut Vec<BucketQueue<usize>>) {
        let ghost old_b = old(gain_bucket)@.map_values(|b: BucketQueue<usize>| b@);
        let ghost gains = self.init_gain_list@;
        let ghost nm = self.hyprgraph.spec_num_modules() as int;
        let mut v_idx: usize = 0;
        while v_idx < modules.len()
            invariant
                v_idx <= modules@.len(),
                modules@.len() == nm,
                gains.len() == nm,
                gains == self.init_gain_list@,
                part@.len() == nm,
                valid_part(part@, 2),
                forall|i: int| 0 <= i < modules@.len() ==> modules@[i] == i,
                gain_bucket@.len() == old(gain_bucket)@.len(),
                forall|k: int| 0 <= k < gain_bucket@.len() ==> (#[trigger] gain_bucket@[k]).wf(),
                forall|k: int|
                    0 <= k < gain_bucket@.len() ==> nodes_below((#[trigger] gain_bucket@[k])@, nm),
                gain_bucket@.map_values(|b: BucketQueue<usize>| b@) == bi_populate(
                    old_b,
                    part@,
                    modules@,
                    gains,
                    v_idx as int,
                ),
            ensures
                v_idx >= modules@.len() || gain_bucket@.len() < 2,
            decreases modules@.len() - v_idx,
        {
            if v_idx >= self.init_gain_list.len() || gain_bucket.len() < 2 {
                break;
            }
            let pv = part[v_idx];
            let to_part = 1 - pv;
            let ghost pre = gain_bucket@;
            if (to_part as usize) < gain_bucket.len() {
                let gain = self.init_gain_list[v_idx];
                gain_bucket[to_part as usize].push(gain, modules[v_idx]);
                proof {
                    let t = to_part as int;
                    assert forall|k: int| 0 <= k < gain_bucket@.len() implies nodes_below(
                        (#[trigger] gain_bucket@[k])@,
                        nm,
                    ) by {
                        if k != t {
                            assert(gain_bucket@[k] == pre[k]);
                        } else {
                            let v = gain_bucket@[k]@;
                            let o = pre[k]@;
                            assert forall|i: int, j: int|
                                0 <= i < v.buckets.len() && 0 <= j < v.buckets[i].len() implies (
                                #[trigger] v.buckets[i][j]).1 < nm by {
                                if o.in_range(gain as int) && i == gain - o.offset {
                                    if j < o.buckets[i].len() {
                                        assert(v.buckets[i][j] == o.buckets[i][j]);
                                    }
                                } else {
                                    assert(v.buckets[i] == o.buckets[i]);
                                }
                            }
                        }
                    }
                    assert forall|k: int| 0 <= k < gain_bucket@.len() implies (#[trigger] gain_bucket@[k]).wf() by {
                        if k != t {
                            assert(gain_bucket@[k] == pre[k]);
                        }
                    }
                    assert(gain_bucket@.map_values(|b: BucketQueue<usize>| b@) =~= bi_populate(
                        old_b,
                        part@,
                        modules@,
                        gains,
                        v_idx as int + 1,
                    ));
                }
            } else {
                proof {
                    assert(gain_bucket@.map_values(|b: BucketQueue<usize>| b@) =~= bi_populate(
                        old_b,
                        part@,
                        modules@,
                        gains,
                        v_idx as int + 1,
                    ));
                }
            }
            v_idx = v_idx + 1;
        }
        proof {
            assert(old_b.len() == old(gain_bucket)@.len());
            if v_idx < modules@.len() {
                assert(gain_bucket@.len() < 2);
                assert(old_b.len() < 2);
                assert(bi_populate(old_b, part@, modules@, gains, v_idx as int) == old_b);
                assert(bi_populate(old_b, part@, modules@, gains, nm) == old_b);
            }
        }
    }
}

/// Binary Fiduccia-Mattheyses Gain Manager
///
/// Specialized for 2-way partitioning.
pub type FMBiGainMgr<Gnl> = FMGainMgr<Gnl, FMBiGainCalc<Gnl>>;

} // verus!
