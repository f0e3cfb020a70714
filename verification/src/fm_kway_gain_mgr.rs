//! The k-way gain manager: the generic manager driven by the k-way gain
//! calculator.
use vstd::prelude::*;
use crate::fm_bi_gain_calc::{lemma_net_weight_le_total, num_nets, pins_except, valid_part};
use crate::fm_gain_mgr::{BucketQueue, BucketQueueView, FMGainMgr, GainCalcTrait, GainDelta, nodes_below};
use crate::fm_kway_gain_calc::{
    FMKWayGainCalc, general_round, general_round_v, kway_cost_upto, kway_gain_upto, three_pin_round,
    three_pin_round_v, two_pin_row, two_pin_v,
};
use crate::hypergraph::Hypergraph;
use crate::moveinfo::MoveInfo;

verus! {

/// The buckets after k-way FM queued the first `n` modules: module
/// `modules[i]` goes, with its gain towards part `k`, into the bucket of
/// every part `k` other than its own.
pub open spec fn kway_populate(
    bqs: Seq<BucketQueueView<usize>>,
    part: Seq<u8>,
    modules: Seq<usize>,
    gains: Seq<Seq<i32>>,
    n: int,
) -> Seq<BucketQueueView<usize>>
    decreases n,
{
    if n <= 0 {
        bqs
    } else {
        let prev = kway_populate(bqs, part, modules, gains, n - 1);
        Seq::new(
            prev.len(),
            |k: int|
                if k != part[n - 1] && k < gains.len() {
                    prev[k].with_entry(gains[k][n - 1], modules[n - 1])
                } else {
                    prev[k]
                },
        )
    }
}

/// Queueing modules leaves every bucket's locked nodes as they were.
pub proof fn lemma_kway_populate_locks(
    bqs: Seq<BucketQueueView<usize>>,
    part: Seq<u8>,
    modules: Seq<usize>,
    gains: Seq<Seq<i32>>,
    n: int,
)
    ensures
        kway_populate(bqs, part, modules, gains, n).len() == bqs.len(),
        forall|j: int|
            0 <= j < bqs.len() ==> (#[trigger] kway_populate(bqs, part, modules, gains, n)[j]).locked
                == bqs[j].locked,
    decreases n,
{
    if n > 0 {
        lemma_kway_populate_locks(bqs, part, modules, gains, n - 1);
    }
}

/// The per-part deltas of a pin as a [`GainDelta`].
pub open spec fn per_part_is(d: GainDelta, row: Seq<i32>) -> bool {
    d matches GainDelta::PerPart(v) && v@ == row
}

/// A vector that holds the same entries as `v`.
fn copy_row(v: &Vec<i32>) -> (r: Vec<i32>)
    ensures
        r@ == v@,
{
    let mut r: Vec<i32> = Vec::new();
    let mut i: usize = 0;
    while i < v.len()
        invariant
            i <= v@.len(),
            r@ == v@.subrange(0, i as int),
        decreases v@.len() - i,
    {
        r.push(v[i]);
        i = i + 1;
    }
    assert(v@.subrange(0, v@.len() as int) =~= v@);
    r
}

/// The rows as per-part deltas, in order.
fn rows_to_deltas(rows: &Vec<Vec<i32>>) -> (r: Vec<GainDelta>)
    ensures
        r@.len() == rows@.len(),
        forall|i: int| 0 <= i < r@.len() ==> per_part_is(#[trigger] r@[i], rows@[i]@),
{
    let mut r: Vec<GainDelta> = Vec::new();
    let mut i: usize = 0;
    while i < rows.len()
        invariant
            i <= rows@.len(),
            r@.len() == i,
            forall|q: int| 0 <= q < i ==> per_part_is(#[trigger] r@[q], rows@[q]@),
        decreases rows@.len() - i,
    {
        r.push(GainDelta::PerPart(copy_row(&rows[i])));
        i = i + 1;
    }
    r
}

impl<Gnl: Hypergraph> GainCalcTrait<Gnl> for FMKWayGainCalc<Gnl> {
    open spec fn calc_wf(&self) -> bool {
        self.wf()
    }

    open spec fn calc_graph(&self) -> Gnl {
        self.hyprgraph
    }

    open spec fn calc_num_parts(&self) -> nat {
        self.num_parts as nat
    }

    open spec fn spec_idx_vec(&self) -> Seq<usize> {
        self.idx_vec@
    }

    open spec fn spec_delta_gain_v(&self) -> Seq<i32> {
        self.delta_gain_v@
    }

    open spec fn dv_within(&self, lim: int) -> bool {
        &&& self.delta_gain_v@.len() == self.num_parts
        &&& forall|k: int|
            0 <= k < self.num_parts ==> -lim <= #[trigger] self.delta_gain_v@[k] <= lim
    }

    proof fn lemma_dv_within_mono(&self, a: int, b: int) {
    }

    proof fn lemma_dv_within_bound(&self, lim: int) {
    }

    proof fn lemma_populate_locks(
        self,
        part: Seq<u8>,
        modules: Seq<usize>,
        old_b: Seq<BucketQueueView<usize>>,
        new_b: Seq<BucketQueueView<usize>>,
    ) {
        lemma_kway_populate_locks(
            old_b,
            part,
            modules,
            Seq::new(self.num_parts as nat, |k: int| self.init_gain_matrix@[k]@),
            modules.len() as int,
        );
    }

    open spec fn init_post(self, new: Self, part: Seq<u8>, cost: i32) -> bool {
        &&& new.same_but_gains(&self)
        &&& new.total_cost == cost
        &&& cost == kway_cost_upto(&self.hyprgraph, part, self.num_parts as int, num_nets(&self.hyprgraph))
        &&& forall|k: int, x: int|
            0 <= k < self.num_parts && 0 <= x < self.hyprgraph.spec_num_modules() ==> #[trigger] new.gain(k, x)
                == kway_gain_upto(&self.hyprgraph, part, num_nets(&self.hyprgraph), k, x as usize)
    }

    open spec fn update_move_init_post(self, new: Self) -> bool {
        &&& new == (FMKWayGainCalc { delta_gain_v: new.delta_gain_v, ..self })
        &&& new.delta_gain_v@ == Seq::new(self.num_parts as nat, |k: int| 0i32)
    }

    open spec fn init_idx_vec_post(self, new: Self, v: usize, net: usize) -> bool {
        &&& new == (FMKWayGainCalc { idx_vec: new.idx_vec, ..self })
        &&& new.idx_vec@ == pins_except(
            self.hyprgraph.spec_neighbors(net),
            v,
            self.hyprgraph.spec_neighbors(net).len() as int,
        )
    }

    open spec fn update_2pin_post(
        self,
        new: Self,
        part: Seq<u8>,
        mi: MoveInfo<usize>,
        r: (usize, GainDelta),
    ) -> bool {
        let nb = self.hyprgraph.spec_neighbors(mi.net);
        let w = self.hyprgraph.spec_net_weight(mi.net) as int;
        let np = self.num_parts as nat;
        let pw = part[r.0 as int] as int;
        let row = Seq::new(np, |k: int| two_pin_row(pw, mi.from_part as int, mi.to_part as int, w, k) as i32);
        &&& r.0 == (if nb[0] != mi.v {
            nb[0]
        } else {
            nb[1]
        })
        &&& per_part_is(r.1, row)
        &&& new == (FMKWayGainCalc {
            delta_gain_w: new.delta_gain_w,
            delta_gain_v: new.delta_gain_v,
            ..self
        })
        &&& new.delta_gain_w@.len() == 1
        &&& new.delta_gain_w@[0]@ == row
        &&& new.delta_gain_v@ == Seq::new(
            np,
            |k: int| (self.delta_gain_v@[k] + two_pin_v(pw, mi.from_part as int, mi.to_part as int, w)) as i32,
        )
    }

    open spec fn update_3pin_post(self, new: Self, part: Seq<u8>, mi: MoveInfo<usize>, r: Seq<GainDelta>) -> bool {
        let w = self.hyprgraph.spec_net_weight(mi.net) as int;
        let np = self.num_parts as nat;
        let fp = mi.from_part as int;
        let tp = mi.to_part as int;
        let pw = part[self.idx_vec@[0] as int] as int;
        let pu = part[self.idx_vec@[1] as int] as int;
        &&& new == (FMKWayGainCalc { delta_gain_v: new.delta_gain_v, ..self })
        &&& r.len() == self.idx_vec@.len()
        &&& forall|i: int|
            0 <= i < r.len() ==> per_part_is(
                #[trigger] r[i],
                Seq::new(
                    np,
                    |k: int|
                        (if i < 2 {
                            three_pin_round(pw, pu, fp, w, i, k) + three_pin_round(pw, pu, tp, -w, i, k)
                        } else {
                            0
                        }) as i32,
                ),
            )
        &&& new.delta_gain_v@ == Seq::new(
            np,
            |k: int|
                (self.delta_gain_v@[k] + three_pin_round_v(pw, pu, fp, tp, w) + three_pin_round_v(
                    pw,
                    pu,
                    tp,
                    fp,
                    -w,
                )) as i32,
        )
    }

    open spec fn update_general_post(
        self,
        new: Self,
        part: Seq<u8>,
        mi: MoveInfo<usize>,
        r: Seq<GainDelta>,
    ) -> bool {
        let w = self.hyprgraph.spec_net_weight(mi.net) as int;
        let np = self.num_parts as nat;
        let fp = mi.from_part as int;
        let tp = mi.to_part as int;
        let iv = self.idx_vec@;
        &&& new == (FMKWayGainCalc { delta_gain_v: new.delta_gain_v, ..self })
        &&& r.len() == iv.len()
        &&& forall|i: int|
            0 <= i < r.len() ==> per_part_is(
                #[trigger] r[i],
                Seq::new(
                    np,
                    |k: int| (general_round(iv, part, fp, w, i, k) + general_round(iv, part, tp, -w, i, k)) as i32,
                ),
            )
        &&& new.delta_gain_v@ == Seq::new(
            np,
            |k: int|
                (self.delta_gain_v@[k] + general_round_v(iv, part, fp, tp, w) + general_round_v(
                    iv,
                    part,
                    tp,
                    fp,
                    -w,
                )) as i32,
        )
    }

    open spec fn populate_post(
        self,
        part: Seq<u8>,
        modules: Seq<usize>,
        old_b: Seq<BucketQueueView<usize>>,
        new_b: Seq<BucketQueueView<usize>>,
    ) -> bool {
        new_b == kway_populate(
            old_b,
            part,
            modules,
            Seq::new(self.num_parts as nat, |k: int| self.init_gain_matrix@[k]@),
            modules.len() as int,
        )
    }

    fn init(&mut self, part: &[u8]) -> (r: i32) {
        FMKWayGainCalc::init(self, part)
    }

    fn update_move_init(&mut self) {
        FMKWayGainCalc::update_move_init(self)
    }

    fn init_idx_vec(&mut self, v: usize, net: usize) {
        FMKWayGainCalc::init_idx_vec(self, v, net)
    }

    fn idx_vec(&self) -> (r: &Vec<usize>) {
        &self.idx_vec
    }

    fn update_move_2pin_net(&mut self, part: &[u8], move_info: &MoveInfo<usize>) -> (r: (usize, GainDelta)) {
        proof {
            lemma_net_weight_le_total(&self.hyprgraph, move_info.net - self.hyprgraph.spec_num_modules());
        }
        let w = FMKWayGainCalc::update_move_2pin_net(self, part, move_info);
        let row = copy_row(&self.delta_gain_w[0]);
        (w, GainDelta::PerPart(row))
    }

    fn update_move_3pin_net(&mut self, part: &[u8], move_info: &MoveInfo<usize>) -> (r: Vec<GainDelta>) {
        proof {
            lemma_net_weight_le_total(&self.hyprgraph, move_info.net - self.hyprgraph.spec_num_modules());
        }
        let rows = FMKWayGainCalc::update_move_3pin_net(self, part, move_info);
        rows_to_deltas(&rows)
    }

    fn update_move_general_net(&mut self, part: &[u8], move_info: &MoveInfo<usize>) -> (r: Vec<GainDelta>) {
        proof {
            lemma_net_weight_le_total(&self.hyprgraph, move_info.net - self.hyprgraph.spec_num_modules());
        }
        proof {
            assert forall|i: int| 0 <= i < self.idx_vec@.len() implies (#[trigger] self.idx_vec@[i]) < part@.len() by {
                assert(self.spec_idx_vec()[i] < part@.len());
            }
        }
        let rows = FMKWayGainCalc::update_move_general_net(self, part, move_info);
        rows_to_deltas(&rows)
    }

    fn delta_gain_v(&self) -> (r: Vec<i32>) {
        copy_row(&self.delta_gain_v)
    }

    fn populate_buckets(&self, part: &[u8], modules: &[usize], gain_bucket: &mut Vec<BucketQueue<usize>>) {
        let ghost old_b = old(gain_bucket)@.map_values(|b: BucketQueue<usize>| b@);
        let ghost gains = Seq::new(self.num_parts as nat, |k: int| self.init_gain_matrix@[k]@);
        let ghost nm = self.hyprgraph.spec_num_modules() as int;
        let np = self.num_parts as usize;
        let mut v_idx: usize = 0;
        while v_idx < modules.len()
            invariant
                self.wf(),
                v_idx <= modules@.len(),
                modules@.len() == nm,
                nm == self.hyprgraph.spec_num_modules(),
                np == self.num_parts,
                gains == Seq::new(self.num_parts as nat, |k: int| self.init_gain_matrix@[k]@),
                part@.len() == nm,
                valid_part(part@, np as int),
                forall|i: int| 0 <= i < modules@.len() ==> modules@[i] == i,
                gain_bucket@.len() == old(gain_bucket)@.len(),
                forall|k: int| 0 <= k < gain_bucket@.len() ==> (#[trigger] gain_bucket@[k]).wf(),
                forall|k: int|
                    0 <= k < gain_bucket@.len() ==> nodes_below((#[trigger] gain_bucket@[k])@, nm),
                gain_bucket@.map_values(|b: BucketQueue<usize>| b@) == kway_populate(
                    old_b,
                    part@,
                    modules@,
                    gains,
                    v_idx as int,
                ),
            decreases modules@.len() - v_idx,
        {
            let pv = part[v_idx];
            let ghost pre = gain_bucket@.map_values(|b: BucketQueue<usize>| b@);
            let mut k: usize = 0;
            while k < gain_bucket.len()
                invariant
                    self.wf(),
                    v_idx < modules@.len(),
                    modules@.len() == nm,
                    nm == self.hyprgraph.spec_num_modules(),
                    np == self.num_parts,
                    gains == Seq::new(self.num_parts as nat, |k: int| self.init_gain_matrix@[k]@),
                    forall|i: int| 0 <= i < modules@.len() ==> modules@[i] == i,
                    pv == part@[v_idx as int],
                    pre.len() == old(gain_bucket)@.len(),
                    gain_bucket@.len() == old(gain_bucket)@.len(),
                    k <= gain_bucket@.len(),
                    forall|q: int| 0 <= q < gain_bucket@.len() ==> (#[trigger] gain_bucket@[q]).wf(),
                    forall|q: int|
                        0 <= q < gain_bucket@.len() ==> nodes_below((#[trigger] gain_bucket@[q])@, nm),
                    forall|q: int|
                        0 <= q < gain_bucket@.len() ==> (#[trigger] gain_bucket@[q])@ == (if q < k && q != pv
                            && q < gains.len() {
                            pre[q].with_entry(gains[q][v_idx as int], modules@[v_idx as int])
                        } else {
                            pre[q]
                        }),
                decreases gain_bucket@.len() - k,
            {
                if k != pv as usize && k < np {
                    let gain = self.init_gain_matrix[k][v_idx];
                    let ghost before = gain_bucket@;
                    gain_bucket[k].push(gain, modules[v_idx]);
                    proof {
                        assert forall|q: int| 0 <= q < gain_bucket@.len() implies nodes_below(
                            (#[trigger] gain_bucket@[q])@,
                            nm,
                        ) && gain_bucket@[q].wf() by {
                            if q != k {
                                assert(gain_bucket@[q] == before[q]);
                            } else {
                                let nv = gain_bucket@[q]@;
                                let o = before[q]@;
                                assert forall|i: int, j: int|
                                    0 <= i < nv.buckets.len() && 0 <= j < nv.buckets[i].len() implies (
                                    #[trigger] nv.buckets[i][j]).1 < nm by {
                                    if o.in_range(gain as int) && i == gain - o.offset {
                                        if j < o.buckets[i].len() {
                                            assert(nv.buckets[i][j] == o.buckets[i][j]);
                                        }
                                    } else {
                                        assert(nv.buckets[i] == o.buckets[i]);
                                    }
                                }
                            }
                        }
                    }
                }
                k = k + 1;
            }
            proof {
                assert(gain_bucket@.map_values(|b: BucketQueue<usize>| b@) =~= kway_populate(
                    old_b,
                    part@,
                    modules@,
                    gains,
                    v_idx as int + 1,
                ));
            }
            v_idx = v_idx + 1;
        }
    }
}

/// K-way Fiduccia-Mattheyses gain manager.
pub type FMKWayGainMgr<Gnl> = FMGainMgr<Gnl, FMKWayGainCalc<Gnl>>;

} // verus!
