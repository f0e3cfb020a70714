//! The middle-levels k-way partition manager: for each pair of parts it
//! walks the middle-levels cycle over the modules of the two parts, following
//! each flip as a move between them, and keeps the cheapest legal split of
//! the pair that it meets; the passes repeat while a pass improves the cost.
use vstd::prelude::*;
use crate::fm_bi_gain_calc::valid_part;
use crate::fm_constr_mgr::{
    ConstrMgrInterface, LegalCheck, module_weight_upto, part_weights, meets_bound, lemma_move_part_weights,
};
use crate::fm_kway_constr_mgr::FMKWayConstrMgr;
use crate::hypergraph::{Hypergraph, is_netlist};
use crate::midlevel::hamcycle::{MidHamCycle, MidVisitor};
use crate::midlevel::vertex::MidVertex;
use crate::moveinfo::MoveInfoV;

verus! {

/// The most passes over all pairs of parts.
pub const MAX_PASSES: i32 = 5;

/// The most modules that a pair of parts may hold to be walked.
pub const MAX_PAIR_MODULES: usize = 15;

/// What the walk over one pair of parts keeps: the balance manager and the
/// partition of all modules, the modules of the pair (`selected`) and the
/// pair `i`, `j`, the cost and the split of the pair that the walk is at, and
/// the best legal ones met. `overflowed` is set once an update would leave
/// its type or the balance manager could not record a move; the later flips
/// are then not followed.
struct PairState<'a, Gnl: Hypergraph> {
    hyprgraph: &'a Gnl,
    constr_mgr: FMKWayConstrMgr<&'a Gnl>,
    current_part: Vec<u8>,
    selected: Vec<usize>,
    i: u8,
    j: u8,
    num_parts: u8,
    start_cost: i32,
    best_cost: i32,
    best_part: Vec<u8>,
    local_cost: i32,
    local_part: Vec<u8>,
    overflowed: bool,
    seen: Ghost<Seq<(Seq<i32>, usize)>>,
    base: Ghost<Seq<u8>>,
    best_full: Ghost<Seq<u8>>,
}

/// The numbers `head`, then the parts of `base`, the modules `sel` and the
/// module weights of `g`, as integers.
pub open spec fn pair_frame<G: Hypergraph>(head: Seq<int>, base: Seq<u8>, sel: Seq<usize>, g: &G) -> Seq<int> {
    head + base.map_values(|b: u8| b as int) + sel.map_values(|v: usize| v as int) + Seq::new(
        g.spec_num_modules(),
        |x: int| g.spec_module_weight(x as usize) as int,
    )
}

/// The part a split bit names: `j` for 1, `i` for 0.
pub open spec fn split_target(b: u8, i: u8, j: u8) -> u8 {
    if b == 1 {
        j
    } else {
        i
    }
}

/// `base` with each of the first `k` modules of `sel` put in the part its
/// bit of `bits` names.
pub open spec fn apply_split(base: Seq<u8>, sel: Seq<usize>, bits: Seq<u8>, i: u8, j: u8, k: int) -> Seq<u8>
    decreases k,
{
    if k <= 0 {
        base
    } else {
        apply_split(base, sel, bits, i, j, k - 1).update(sel[k - 1] as int, split_target(bits[k - 1], i, j))
    }
}

/// The modules of `sel` come in increasing order.
pub open spec fn increasing(sel: Seq<usize>) -> bool {
    forall|a: int, b: int| 0 <= a < b < sel.len() ==> sel[a] < sel[b]
}

/// The split keeps the number of modules.
proof fn lemma_apply_split_len(base: Seq<u8>, sel: Seq<usize>, bits: Seq<u8>, i: u8, j: u8, k: int)
    requires
        k <= sel.len(),
        forall|q: int| 0 <= q < k ==> (#[trigger] sel[q]) < base.len(),
    ensures
        apply_split(base, sel, bits, i, j, k).len() == base.len(),
    decreases k,
{
    if k > 0 {
        lemma_apply_split_len(base, sel, bits, i, j, k - 1);
    }
}

/// Where the split puts a module: a selected module in the part its bit
/// names, any other module where `base` has it.
proof fn lemma_apply_split_at(base: Seq<u8>, sel: Seq<usize>, bits: Seq<u8>, i: u8, j: u8, k: int, x: int)
    requires
        0 <= k <= sel.len(),
        increasing(sel),
        forall|q: int| 0 <= q < k ==> (#[trigger] sel[q]) < base.len(),
        0 <= x < base.len(),
    ensures
        apply_split(base, sel, bits, i, j, k).len() == base.len(),
        (forall|q: int| 0 <= q < k ==> #[trigger] sel[q] != x) ==> apply_split(base, sel, bits, i, j, k)[x]
            == base[x],
        forall|q: int|
            0 <= q < k && #[trigger] sel[q] == x ==> apply_split(base, sel, bits, i, j, k)[x] == split_target(
                bits[q],
                i,
                j,
            ),
    decreases k,
{
    if k > 0 {
        lemma_apply_split_at(base, sel, bits, i, j, k - 1, x);
        assert forall|q: int| 0 <= q < k && #[trigger] sel[q] == x implies apply_split(base, sel, bits, i, j, k)[x]
            == split_target(bits[q], i, j) by {
            if q < k - 1 {
                assert(sel[q] < sel[k - 1]);
            }
        }
    }
}

/// Changing the bit of the selected module at `pos` moves just that module.
proof fn lemma_apply_split_update(
    base: Seq<u8>,
    sel: Seq<usize>,
    bits: Seq<u8>,
    i: u8,
    j: u8,
    pos: int,
    b: u8,
)
    requires
        increasing(sel),
        forall|q: int| 0 <= q < sel.len() ==> (#[trigger] sel[q]) < base.len(),
        0 <= pos < sel.len(),
        bits.len() == sel.len(),
    ensures
        apply_split(base, sel, bits.update(pos, b), i, j, sel.len() as int) == apply_split(
            base,
            sel,
            bits,
            i,
            j,
            sel.len() as int,
        ).update(sel[pos] as int, split_target(b, i, j)),
{
    let k = sel.len() as int;
    let l = apply_split(base, sel, bits.update(pos, b), i, j, k);
    let r = apply_split(base, sel, bits, i, j, k).update(sel[pos] as int, split_target(b, i, j));
    lemma_apply_split_at(base, sel, bits, i, j, k, 0);
    lemma_apply_split_at(base, sel, bits.update(pos, b), i, j, k, 0);
    assert forall|x: int| 0 <= x < base.len() implies l[x] == r[x] by {
        lemma_apply_split_at(base, sel, bits, i, j, k, x);
        lemma_apply_split_at(base, sel, bits.update(pos, b), i, j, k, x);
        if exists|q: int| 0 <= q < k && sel[q] == x {
            let q = choose|q: int| 0 <= q < k && sel[q] == x;
            if q != pos {
                assert(sel[q] != sel[pos]) by {
                    if q < pos {
                        assert(sel[q] < sel[pos]);
                    } else {
                        assert(sel[pos] < sel[q]);
                    }
                }
            }
        }
    }
    assert(l =~= r);
}

/// Splitting a partition that was itself split over the same modules gives
/// the split of the first partition.
proof fn lemma_apply_split_twice(base: Seq<u8>, sel: Seq<usize>, b1: Seq<u8>, b2: Seq<u8>, i: u8, j: u8)
    requires
        increasing(sel),
        forall|q: int| 0 <= q < sel.len() ==> (#[trigger] sel[q]) < base.len(),
    ensures
        apply_split(apply_split(base, sel, b1, i, j, sel.len() as int), sel, b2, i, j, sel.len() as int)
            == apply_split(base, sel, b2, i, j, sel.len() as int),
{
    let k = sel.len() as int;
    let mid = apply_split(base, sel, b1, i, j, k);
    lemma_apply_split_len(base, sel, b1, i, j, k);
    let l = apply_split(mid, sel, b2, i, j, k);
    let r = apply_split(base, sel, b2, i, j, k);
    lemma_apply_split_len(mid, sel, b2, i, j, k);
    lemma_apply_split_len(base, sel, b2, i, j, k);
    assert forall|x: int| 0 <= x < base.len() implies l[x] == r[x] by {
        lemma_apply_split_at(base, sel, b1, i, j, k, x);
        lemma_apply_split_at(mid, sel, b2, i, j, k, x);
        lemma_apply_split_at(base, sel, b2, i, j, k, x);
        if exists|q: int| 0 <= q < k && sel[q] == x {
            let q = choose|q: int| 0 <= q < k && sel[q] == x;
            assert(l[x] == split_target(b2[q], i, j));
        }
    }
    assert(l =~= r);
}

/// Equal frames hold equal parts.
proof fn lemma_pair_frame_eq<G: Hypergraph>(
    h1: Seq<int>,
    base1: Seq<u8>,
    sel1: Seq<usize>,
    g1: &G,
    h2: Seq<int>,
    base2: Seq<u8>,
    sel2: Seq<usize>,
    g2: &G,
)
    requires
        pair_frame(h1, base1, sel1, g1) == pair_frame(h2, base2, sel2, g2),
        h1.len() == h2.len(),
        base1.len() == base2.len(),
        sel1.len() == sel2.len(),
    ensures
        h1 == h2,
        base1 == base2,
        sel1 == sel2,
        g1.spec_num_modules() == g2.spec_num_modules(),
        forall|x: usize| x < g1.spec_num_modules() ==> #[trigger] g1.spec_module_weight(x) == g2.spec_module_weight(x),
{
    let f1 = pair_frame(h1, base1, sel1, g1);
    let f2 = pair_frame(h2, base2, sel2, g2);
    let a = h1.len() as int;
    let b = base1.len() as int;
    let c = sel1.len() as int;
    assert(f1.len() == f2.len());
    assert forall|x: int| 0 <= x < a implies h1[x] == h2[x] by {
        assert(f1[x] == f2[x]);
    }
    assert(h1 =~= h2);
    assert forall|x: int| 0 <= x < b implies base1[x] == base2[x] by {
        assert(f1[a + x] == f2[a + x]);
    }
    assert(base1 =~= base2);
    assert forall|x: int| 0 <= x < c implies sel1[x] == sel2[x] by {
        assert(f1[a + b + x] == f2[a + b + x]);
    }
    assert(sel1 =~= sel2);
    assert forall|x: usize| x < g1.spec_num_modules() implies #[trigger] g1.spec_module_weight(x)
        == g2.spec_module_weight(x) by {
        assert(f1[a + b + c + x] == f2[a + b + c + x]);
    }
}

/// Two hypergraphs of one module count whose modules weigh the same agree on
/// whether a partition keeps every part at the bound.
proof fn lemma_meets_transfer<G: Hypergraph, H: Hypergraph>(a: &G, b: &H, part: Seq<u8>, np: nat, lb: u32)
    requires
        a.spec_num_modules() == b.spec_num_modules(),
        forall|x: usize| x < a.spec_num_modules() ==> #[trigger] a.spec_module_weight(x) == b.spec_module_weight(x),
    ensures
        meets_bound(a, part, np, lb) == meets_bound(b, part, np, lb),
{
    assert forall|q: int| 0 <= q < np implies #[trigger] part_weights(a, part, np)[q] == part_weights(b, part, np)[q] by {
        assert forall|x: int| 0 <= x < a.spec_num_modules() implies #[trigger] a.spec_module_weight(x as usize)
            == b.spec_module_weight(x as usize) by {}
        crate::mid_lvl_part_mgr::lemma_part_weight_agree(a, b, part, q, a.spec_num_modules() as int);
    }
    if meets_bound(a, part, np, lb) {
        assert forall|q: int| 0 <= q < np implies #[trigger] part_weights(b, part, np)[q] >= lb by {
            assert(part_weights(a, part, np)[q] >= lb);
        }
    }
    if meets_bound(b, part, np, lb) {
        assert forall|q: int| 0 <= q < np implies #[trigger] part_weights(a, part, np)[q] >= lb by {
            assert(part_weights(b, part, np)[q] >= lb);
        }
    }
}

/// Bits that name where each selected module already is leave `base` as it is.
proof fn lemma_apply_split_same(base: Seq<u8>, sel: Seq<usize>, bits: Seq<u8>, i: u8, j: u8)
    requires
        increasing(sel),
        forall|q: int| 0 <= q < sel.len() ==> (#[trigger] sel[q]) < base.len(),
        forall|q: int| 0 <= q < sel.len() ==> split_target(bits[q], i, j) == base[#[trigger] sel[q] as int],
    ensures
        apply_split(base, sel, bits, i, j, sel.len() as int) == base,
{
    let k = sel.len() as int;
    let l = apply_split(base, sel, bits, i, j, k);
    lemma_apply_split_len(base, sel, bits, i, j, k);
    assert forall|x: int| 0 <= x < base.len() implies l[x] == base[x] by {
        lemma_apply_split_at(base, sel, bits, i, j, k, x);
        if exists|q: int| 0 <= q < k && sel[q] == x {
            let q = choose|q: int| 0 <= q < k && sel[q] == x;
            assert(split_target(bits[q], i, j) == base[sel[q] as int]);
        }
    }
    assert(l =~= base);
}

impl<'a, Gnl: Hypergraph> PairState<'a, Gnl> {
    /// The state's invariant: the hypergraph is a netlist, the balance
    /// manager keeps `num_parts` parts, the partition gives every module a
    /// part below `num_parts`, the pair are parts, the selected modules are
    /// modules, and the splits have one bit per selected module.
    spec fn state_inv(&self) -> bool {
        &&& self.hyprgraph.wf()
        &&& is_netlist(self.hyprgraph)
        &&& self.constr_mgr.0.wf()
        &&& self.constr_mgr.0.num_parts == self.num_parts
        &&& self.i < self.num_parts
        &&& self.j < self.num_parts
        &&& self.current_part@.len() == self.hyprgraph.spec_num_modules()
        &&& valid_part(self.current_part@, self.num_parts as int)
        &&& forall|q: int| 0 <= q < self.selected@.len() ==> (#[trigger] self.selected@[q]) < self.hyprgraph.spec_num_modules()
        &&& self.best_part@.len() == self.selected@.len()
        &&& self.local_part@.len() == self.selected@.len()
        &&& valid_part(self.best_part@, 2)
        &&& valid_part(self.local_part@, 2)
        &&& self.best_cost <= self.start_cost
    }

    /// The change in cost that moving `v` from `from_part` to `to_part`
    /// brings, counted net by net: a net whose other pins all lie in
    /// `from_part` starts to cost its weight, one whose other pins all lie in
    /// `to_part` stops. `None` where the sum leaves `i32`.
    fn move_delta(&self, v: usize, from_part: u8, to_part: u8) -> (r: Option<i32>)
        requires
            self.state_inv(),
            v < self.hyprgraph.spec_num_modules(),
        ensures
            ({
                let g = self.hyprgraph;
                let nets = g.spec_neighbors(v);
                let part = self.current_part@;
                &&& (r is Some) <==> forall|k: int|
                    0 <= k <= nets.len() ==> fits_i32(#[trigger] delta_upto(g, part, v, from_part, to_part, k))
                &&& r is Some ==> r->0 == delta_upto(g, part, v, from_part, to_part, nets.len() as int)
            }),
    {
        let nets = self.hyprgraph.neighbors(v);
        let mut delta: i32 = 0;
        let mut k: usize = 0;
        while k < nets.len()
            invariant
                self.state_inv(),
                v < self.hyprgraph.spec_num_modules(),
                nets@ == self.hyprgraph.spec_neighbors(v),
                k <= nets@.len(),
                delta == delta_upto(self.hyprgraph, self.current_part@, v, from_part, to_part, k as int),
                forall|k2: int|
                    0 <= k2 <= k ==> fits_i32(
                        #[trigger] delta_upto(self.hyprgraph, self.current_part@, v, from_part, to_part, k2),
                    ),
            decreases nets@.len() - k,
        {
            let net = nets[k];
            proof {
                assert(self.hyprgraph.spec_neighbors(v)[k as int] == net);
                assert(net < self.hyprgraph.spec_num_nodes());
            }
            let pins = self.hyprgraph.neighbors(net);
            let mut cnt_from: usize = 0;
            let mut cnt_to: usize = 0;
            let mut cnt_other: usize = 0;
            let mut q: usize = 0;
            while q < pins.len()
                invariant
                    self.state_inv(),
                    v < self.hyprgraph.spec_num_modules(),
                    net < self.hyprgraph.spec_num_nodes(),
                    self.hyprgraph.spec_num_modules() <= net,
                    pins@ == self.hyprgraph.spec_neighbors(net),
                    cnt_from <= q,
                    cnt_to <= q,
                    cnt_other <= q,
                    q <= pins@.len(),
                    (cnt_from as int, cnt_to as int, cnt_other as int) == pin_counts(
                        self.current_part@,
                        pins@.subrange(0, q as int),
                        v,
                        from_part,
                        to_part,
                    ),
                decreases pins@.len() - q,
            {
                let w = pins[q];
                proof {
                    assert(self.hyprgraph.spec_neighbors(net)[q as int] == w);
                    assert(w < self.hyprgraph.spec_num_modules());
                }
                let w_idx = self.hyprgraph.module_index(w);
                proof {
                    assert(pins@.subrange(0, q + 1).drop_last() =~= pins@.subrange(0, q as int));
                }
                if w_idx != v {
                    let pw = self.current_part[w_idx];
                    if pw == from_part {
                        cnt_from = cnt_from + 1;
                    } else if pw == to_part {
                        cnt_to = cnt_to + 1;
                    } else {
                        cnt_other = cnt_other + 1;
                    }
                }
                q = q + 1;
            }
            proof {
                assert(pins@.subrange(0, pins@.len() as int) =~= pins@);
            }
            let wt = self.hyprgraph.get_net_weight(net) as i32;
            let before = cnt_to > 0 || cnt_other > 0;
            let after = cnt_from > 0 || cnt_other > 0;
            proof {
                assert(delta_upto(self.hyprgraph, self.current_part@, v, from_part, to_part, k + 1) == delta
                    + net_delta(self.hyprgraph, self.current_part@, v, from_part, to_part, net));
            }
            if !before && after {
                delta = match delta.checked_add(wt) {
                    Some(d) => d,
                    None => {
                        return None;
                    },
                };
            } else if before && !after {
                delta = match delta.checked_sub(wt) {
                    Some(d) => d,
                    None => {
                        return None;
                    },
                };
            }
            k = k + 1;
        }
        Some(delta)
    }
}

impl<'a, Gnl: Hypergraph> PairState<'a, Gnl> {
    /// What a visit does: nothing where the walk has overflowed, the bit is
    /// not a selected module's or the module does not lie in the part its
    /// bit moves it from; else, unless it overflows now, the selected
    /// module `v` at `pos` moves to part `i` for a 0 bit and to `j` for a 1
    /// bit, its bit of the split is set, and the cost changes by the move's
    /// delta; the best cost only drops, and when it does it is the new cost,
    /// with the new split as the best.
    pub closed spec fn visit_done(&self, new: &Self, bits: Seq<i32>, pos: usize) -> bool {
        let old = *self;
        let final_ = *new;
        let sv = old.selected@[pos as int] as int;
        let from = if bits[pos as int] == 0 {
            old.j
        } else {
            old.i
        };
        if old.overflowed || pos >= old.selected@.len() || pos >= bits.len() || old.current_part@[sv] != from {
            final_ == (PairState { seen: final_.seen, ..old })
        } else {
            let v = old.selected@[pos as int];
            let zero = bits[pos as int] == 0;
            let to_part = if zero { old.i } else { old.j };
            let from_part = if zero { old.j } else { old.i };
            &&& final_.hyprgraph == old.hyprgraph
            &&& final_.selected == old.selected
            &&& final_.i == old.i
            &&& final_.j == old.j
            &&& final_.num_parts == old.num_parts
            &&& final_.start_cost == old.start_cost
            &&& final_.constr_mgr.0.hyprgraph == old.constr_mgr.0.hyprgraph
            &&& final_.best_cost <= old.best_cost
            &&& final_.best_cost < old.best_cost ==> final_.best_cost == final_.local_cost
                && final_.best_part@ == final_.local_part@
            &&& final_.best_cost == old.best_cost ==> final_.best_part == old.best_part
            &&& final_.best_cost < old.best_cost ==> meets_bound(
                &final_.constr_mgr.0.hyprgraph,
                final_.current_part@,
                final_.num_parts as nat,
                final_.constr_mgr.0.lowerbound,
            )
            &&& !final_.overflowed ==> {
                &&& final_.current_part@ == old.current_part@.update(v as int, to_part)
                &&& final_.local_part@ == old.local_part@.update(pos as int, if zero { 0u8 } else { 1u8 })
                &&& final_.local_cost == old.local_cost + delta_upto(
                    old.hyprgraph,
                    old.current_part@,
                    v,
                    from_part,
                    to_part,
                    old.hyprgraph.spec_neighbors(v).len() as int,
                )
            }
        }
    }
}

impl<'a, Gnl: Hypergraph> PairState<'a, Gnl> {
    /// The balance manager keeps the part weights of the current partition.
    spec fn balance_inv(&self) -> bool {
        let cg = self.constr_mgr.0.hyprgraph;
        &&& cg.spec_num_modules() == self.current_part@.len()
        &&& module_weight_upto(&cg, cg.spec_num_modules() as int) <= u32::MAX
        &&& self.constr_mgr.0.diff@ == part_weights(&cg, self.current_part@, self.num_parts as nat)
    }

    /// The partition is the one the pair started from with the selected
    /// modules split as the current bits say, the best split is held as a
    /// partition the same way, and it keeps every part at the bound when the
    /// starting partition did.
    spec fn split_inv(&self) -> bool {
        let cg = self.constr_mgr.0.hyprgraph;
        let n = self.selected@.len() as int;
        &&& self.base@.len() == self.current_part@.len()
        &&& increasing(self.selected@)
        &&& self.current_part@ == apply_split(self.base@, self.selected@, self.local_part@, self.i, self.j, n)
        &&& self.best_full@ == apply_split(self.base@, self.selected@, self.best_part@, self.i, self.j, n)
        &&& meets_bound(&cg, self.base@, self.num_parts as nat, self.constr_mgr.0.lowerbound) ==> meets_bound(
            &cg,
            self.best_full@,
            self.num_parts as nat,
            self.constr_mgr.0.lowerbound,
        )
    }
}

impl<'a, Gnl: Hypergraph> MidVisitor for PairState<'a, Gnl> {
    closed spec fn inv(&self) -> bool {
        self.state_inv() && self.balance_inv() && self.split_inv()
    }

    closed spec fn seen(&self) -> Seq<(Seq<i32>, usize)> {
        self.seen@
    }

    /// The walk keeps the number of parts, the module counts of the
    /// hypergraph and of the balance manager's hypergraph, the number of
    /// selected modules, the cost it started from, the pair, the bound, the
    /// starting partition, the selected modules and the module weights.
    closed spec fn frame(&self) -> Seq<int> {
        pair_frame(
            seq![
                self.num_parts as int,
                self.hyprgraph.spec_num_modules() as int,
                self.constr_mgr.0.hyprgraph.spec_num_modules() as int,
                self.selected@.len() as int,
                self.start_cost as int,
                self.i as int,
                self.j as int,
                self.constr_mgr.0.lowerbound as int,
            ],
            self.base@,
            self.selected@,
            &self.constr_mgr.0.hyprgraph,
        )
    }

    /// Follow the flip of the bit of the selected module at `flipped_pos`:
    /// the module moves to part `i` for a 0 bit and to part `j` for a 1 bit,
    /// the cost changes by the move's delta, and a legal split cheaper than
    /// the best one becomes the best. Bits beyond the selected modules are
    /// not followed.
    fn visit(&mut self, bits: &[i32], flipped_pos: usize)
        ensures
            old(self).visit_done(&*final(self), bits@, flipped_pos),
    {
        proof {
            self.seen@ = self.seen@.push((bits@, flipped_pos));
        }
        if self.overflowed || flipped_pos >= self.selected.len() || flipped_pos >= bits.len() {
            return ;
        }
        let v = self.selected[flipped_pos];
        let zero = bits[flipped_pos] == 0;
        let to_part = if zero {
            self.i
        } else {
            self.j
        };
        let from_part = if zero {
            self.j
        } else {
            self.i
        };
        if self.current_part[v] != from_part {
            return ;
        }
        let move_info_v = MoveInfoV { v, from_part, to_part };
        let legal = self.constr_mgr.check_legal(&move_info_v);
        let delta = match self.move_delta(v, from_part, to_part) {
            Some(d) => d,
            None => {
                self.overflowed = true;
                return ;
            },
        };
        let cost = match self.local_cost.checked_add(delta) {
            Some(c) => c,
            None => {
                self.overflowed = true;
                return ;
            },
        };
        if !self.constr_mgr.can_update(&move_info_v) {
            self.overflowed = true;
            return ;
        }
        self.local_cost = cost;
        let ghost part_before = self.current_part@;
        let ghost local_before = self.local_part@;
        let ghost diff_before = self.constr_mgr.0.diff@;
        self.current_part.set(v, to_part);
        self.local_part.set(
            flipped_pos,
            if zero {
                0
            } else {
                1
            },
        );
        self.constr_mgr.update_move(&move_info_v);
        proof {
            let cg = self.constr_mgr.0.hyprgraph;
            let np = self.num_parts as nat;
            lemma_apply_split_update(
                self.base@,
                self.selected@,
                local_before,
                self.i,
                self.j,
                flipped_pos as int,
                if zero {
                    0u8
                } else {
                    1u8
                },
            );
            lemma_move_part_weights(&cg, part_before, v, to_part, np);
            assert(self.current_part@ == part_before.update(v as int, to_part));
            assert(self.constr_mgr.0.diff@ == part_weights(&cg, self.current_part@, np));
            if legal == LegalCheck::AllSatisfied {
                let w = cg.spec_module_weight(v) as int;
                let lb = self.constr_mgr.0.lowerbound;
                let d = self.constr_mgr.0.diff@;
                assert(diff_before[from_part as int] >= lb + w);
                assert(diff_before[to_part as int] + w >= lb);
                assert forall|q: int| 0 <= q < np implies #[trigger] part_weights(&cg, self.current_part@, np)[q]
                    >= lb by {
                    if q != from_part && q != to_part {
                        assert(!(diff_before[q] < lb));
                    }
                }
            }
        }
        if legal == LegalCheck::AllSatisfied && self.local_cost < self.best_cost {
            self.best_cost = self.local_cost;
            self.best_part = self.local_part.clone();
            proof {
                self.best_full@ = self.current_part@;
            }
        }
    }
}

/// Middle-levels k-way partition manager: the least weight each part must
/// keep, the number of parts, and the cost found.
pub struct MidLvlKWayPartMgr {
    pub lowerbound: u32,
    pub num_parts: u8,
    pub total_cost: i32,
}

impl MidLvlKWayPartMgr {
    /// A manager for `num_parts` parts that must each weigh at least
    /// `lowerbound`; the cost starts at 0.
    pub fn new(lowerbound: u32, num_parts: u8) -> (r: Self)
        ensures
            r.lowerbound == lowerbound,
            r.num_parts == num_parts,
            r.total_cost == 0,
    {
        MidLvlKWayPartMgr { lowerbound, num_parts, total_cost: 0 }
    }

    /// The number of nets of `hyprgraph` that have a pin (counted under
    /// `part`, whose parts lie below 8), held at `i32::MAX`.
    fn pinned_nets<Gnl: Hypergraph>(hyprgraph: &Gnl, part: &Vec<u8>) -> (r: i32)
        requires
            hyprgraph.wf(),
            is_netlist(hyprgraph),
            part@.len() == hyprgraph.spec_num_modules(),
            valid_part(part@, 8),
        ensures
            r == capped_count(
                pinned_nets_upto(hyprgraph, hyprgraph.spec_num_nodes() - hyprgraph.spec_num_modules()),
            ),
    {
        let nets = hyprgraph.nets();
        let mut count: i32 = 0;
        let mut k: usize = 0;
        while k < nets.len()
            invariant
                hyprgraph.wf(),
                is_netlist(hyprgraph),
                part@.len() == hyprgraph.spec_num_modules(),
                valid_part(part@, 8),
                nets@.len() == hyprgraph.spec_num_nodes() - hyprgraph.spec_num_modules(),
                forall|q: int| 0 <= q < nets@.len() ==> nets@[q] == hyprgraph.spec_num_modules() + q,
                0 <= count <= k,
                k <= nets@.len(),
                count == capped_count(pinned_nets_upto(hyprgraph, k as int)),
            decreases nets@.len() - k,
        {
            let net = nets[k];
            let pins = hyprgraph.neighbors(net);
            let mut seen: u8 = 0;
            let mut q: usize = 0;
            while q < pins.len()
                invariant
                    hyprgraph.wf(),
                    is_netlist(hyprgraph),
                    part@.len() == hyprgraph.spec_num_modules(),
                    valid_part(part@, 8),
                    net < hyprgraph.spec_num_nodes(),
                    hyprgraph.spec_num_modules() <= net,
                    pins@ == hyprgraph.spec_neighbors(net),
                    q <= pins@.len(),
                    q == 0 ==> seen == 0,
                    q > 0 ==> seen != 0,
                decreases pins@.len() - q,
            {
                let w = pins[q];
                proof {
                    assert(hyprgraph.spec_neighbors(net)[q as int] == w);
                    assert(w < hyprgraph.spec_num_modules());
                }
                let idx = hyprgraph.module_index(w);
                let p = part[idx];
                assert((seen | (1u8 << p)) != 0) by (bit_vector)
                    requires
                        p < 8,
                ;
                seen = seen | (1u8 << p);
                q = q + 1;
            }
            proof {
                assert(net == hyprgraph.spec_num_modules() + k);
            }
            if seen != 0 && count < i32::MAX {
                count = count + 1;
            }
            k = k + 1;
        }
        count
    }

    /// Up to `MAX_PASSES` passes over every pair of parts `i < j`: the
    /// modules of the pair (when there are two to `MAX_PAIR_MODULES` of them)
    /// are split anew by a walk of the middle-levels cycle, from the split
    /// that puts the first half of them in `j`, into the cheapest split the
    /// walk meets whose move the balance manager found fully legal (the
    /// split into part `i` alone when there is none). The cost the walk
    /// starts from is the number of nets that have a pin. The total cost
    /// takes the pair's best cost on the first pass and whenever it is lower;
    /// the passes go on while one improves it. So where parts 0 and 1 of the
    /// given partition hold two to `MAX_PAIR_MODULES` modules, the first walk
    /// happens and the cost found is at most the number of nets with a pin.
    ///
    /// A walk also stops following the flips where a cost would leave `i32`
    /// or the balance manager could not record a move.
    pub fn optimize<Gnl: Hypergraph>(&mut self, part: &mut [u8], hyprgraph: &Gnl)
        requires
            hyprgraph.wf(),
            is_netlist(hyprgraph),
            module_weight_upto(hyprgraph, hyprgraph.spec_num_modules() as int) <= u32::MAX,
            2 <= old(self).num_parts <= 8,
            old(part)@.len() == hyprgraph.spec_num_modules(),
            valid_part(old(part)@, old(self).num_parts as int),
        ensures
            final(self).lowerbound == old(self).lowerbound,
            final(self).num_parts == old(self).num_parts,
            final(part)@.len() == old(part)@.len(),
            valid_part(final(part)@, old(self).num_parts as int),
            hyprgraph.spec_num_modules() < 2 ==> final(part)@ == old(part)@ && final(self).total_cost
                == old(self).total_cost,
            2 <= pair_count(old(part)@, 0, 1, old(part)@.len() as int) <= MAX_PAIR_MODULES
                ==> final(self).total_cost <= capped_count(
                pinned_nets_upto(hyprgraph, hyprgraph.spec_num_nodes() - hyprgraph.spec_num_modules()),
            ),
            meets_bound(hyprgraph, old(part)@, old(self).num_parts as nat, old(self).lowerbound) ==> meets_bound(
                hyprgraph,
                final(part)@,
                old(self).num_parts as nat,
                old(self).lowerbound,
            ),
    {
        let ghost good = meets_bound(hyprgraph, part@, self.num_parts as nat, self.lowerbound);
        let ghost pc = capped_count(
            pinned_nets_upto(hyprgraph, hyprgraph.spec_num_nodes() - hyprgraph.spec_num_modules()),
        );
        let ghost fw = 2 <= pair_count(part@, 0, 1, part@.len() as int) <= MAX_PAIR_MODULES;
        let ghost mut walked1 = false;
        let np = self.num_parts;
        let total_modules = hyprgraph.number_of_modules();
        let mut current_part = vstd::slice::slice_to_vec(&*part);
        proof {
            lemma_shared_module_weights(hyprgraph, hyprgraph.spec_num_modules() as int);
        }
        let mut constr_mgr = FMKWayConstrMgr::with_lowerbound(hyprgraph, self.lowerbound, np);
        let mut improved = true;
        let mut pass: i32 = 0;
        while improved && pass < MAX_PASSES
            invariant
                hyprgraph.wf(),
                is_netlist(hyprgraph),
                self.lowerbound == old(self).lowerbound,
                self.num_parts == np,
                old(self).num_parts == np,
                2 <= np <= 8,
                0 <= pass <= MAX_PASSES,
                total_modules == hyprgraph.spec_num_modules(),
                current_part@.len() == total_modules,
                valid_part(current_part@, np as int),
                constr_mgr.0.wf(),
                constr_mgr.0.num_parts == np,
                constr_mgr.0.hyprgraph.spec_num_modules() == total_modules,
                constr_mgr.0.lowerbound == old(self).lowerbound,
                forall|x: usize| x < total_modules ==> #[trigger] constr_mgr.0.hyprgraph.spec_module_weight(x)
                    == hyprgraph.spec_module_weight(x),
                good == meets_bound(hyprgraph, old(part)@, np as nat, old(self).lowerbound),
                good ==> meets_bound(hyprgraph, current_part@, np as nat, old(self).lowerbound),
                part@ == old(part)@,
                valid_part(part@, np as int),
                total_modules < 2 ==> current_part@ == old(part)@ && self.total_cost == old(self).total_cost,
                part@.len() == total_modules,
                walked1 ==> self.total_cost <= pc,
                pass >= 1 && fw ==> walked1,
                pass == 0 ==> current_part@ == old(part)@,
                pass == 0 ==> improved,
                fw == (2 <= pair_count(old(part)@, 0, 1, old(part)@.len() as int) <= MAX_PAIR_MODULES),
                pc == capped_count(
                    pinned_nets_upto(hyprgraph, hyprgraph.spec_num_nodes() - hyprgraph.spec_num_modules()),
                ),
            decreases MAX_PASSES - pass,
        {
            improved = false;
            pass = pass + 1;
            let mut i: u8 = 0;
            while i < np - 1
                invariant
                    hyprgraph.wf(),
                    is_netlist(hyprgraph),
                    self.lowerbound == old(self).lowerbound,
                    self.num_parts == np,
                old(self).num_parts == np,
                    2 <= np <= 8,
                    1 <= pass <= MAX_PASSES,
                    total_modules == hyprgraph.spec_num_modules(),
                    current_part@.len() == total_modules,
                    valid_part(current_part@, np as int),
                    constr_mgr.0.wf(),
                    constr_mgr.0.num_parts == np,
                    constr_mgr.0.hyprgraph.spec_num_modules() == total_modules,
                constr_mgr.0.lowerbound == old(self).lowerbound,
                forall|x: usize| x < total_modules ==> #[trigger] constr_mgr.0.hyprgraph.spec_module_weight(x)
                    == hyprgraph.spec_module_weight(x),
                good == meets_bound(hyprgraph, old(part)@, np as nat, old(self).lowerbound),
                good ==> meets_bound(hyprgraph, current_part@, np as nat, old(self).lowerbound),
                    part@ == old(part)@,
                valid_part(part@, np as int),
                total_modules < 2 ==> current_part@ == old(part)@ && self.total_cost == old(self).total_cost,
                part@.len() == total_modules,
                walked1 ==> self.total_cost <= pc,
                (pass > 1 || i > 0) && fw ==> walked1,
                pass == 1 && i == 0 ==> current_part@ == old(part)@,
                fw == (2 <= pair_count(old(part)@, 0, 1, old(part)@.len() as int) <= MAX_PAIR_MODULES),
                pc == capped_count(
                    pinned_nets_upto(hyprgraph, hyprgraph.spec_num_nodes() - hyprgraph.spec_num_modules()),
                ),
                decreases np - i,
            {
                let mut j: u8 = i + 1;
                while j < np
                    invariant
                        hyprgraph.wf(),
                        is_netlist(hyprgraph),
                        self.lowerbound == old(self).lowerbound,
                        self.num_parts == np,
                old(self).num_parts == np,
                        2 <= np <= 8,
                        1 <= pass <= MAX_PASSES,
                        i < j,
                        i < np - 1,
                        total_modules == hyprgraph.spec_num_modules(),
                        current_part@.len() == total_modules,
                        valid_part(current_part@, np as int),
                        constr_mgr.0.wf(),
                        constr_mgr.0.num_parts == np,
                        constr_mgr.0.hyprgraph.spec_num_modules() == total_modules,
                constr_mgr.0.lowerbound == old(self).lowerbound,
                forall|x: usize| x < total_modules ==> #[trigger] constr_mgr.0.hyprgraph.spec_module_weight(x)
                    == hyprgraph.spec_module_weight(x),
                good == meets_bound(hyprgraph, old(part)@, np as nat, old(self).lowerbound),
                good ==> meets_bound(hyprgraph, current_part@, np as nat, old(self).lowerbound),
                        part@ == old(part)@,
                valid_part(part@, np as int),
                total_modules < 2 ==> current_part@ == old(part)@ && self.total_cost == old(self).total_cost,
                part@.len() == total_modules,
                walked1 ==> self.total_cost <= pc,
                (pass > 1 || i > 0 || j > 1) && fw ==> walked1,
                pass == 1 && i == 0 && j == 1 ==> current_part@ == old(part)@,
                fw == (2 <= pair_count(old(part)@, 0, 1, old(part)@.len() as int) <= MAX_PAIR_MODULES),
                pc == capped_count(
                    pinned_nets_upto(hyprgraph, hyprgraph.spec_num_nodes() - hyprgraph.spec_num_modules()),
                ),
                    decreases np - j,
                {
                    let mut selected: Vec<usize> = Vec::new();
                    let mut v: usize = 0;
                    while v < total_modules
                        invariant
                            current_part@.len() == total_modules,
                            v <= total_modules,
                            forall|q: int| 0 <= q < selected@.len() ==> (#[trigger] selected@[q]) < total_modules,
                            selected@.len() <= v,
                            selected@.len() == pair_count(current_part@, i, j, v as int),
                            increasing(selected@),
                            forall|q: int| 0 <= q < selected@.len() ==> (#[trigger] selected@[q]) < v,
                            forall|q: int|
                                0 <= q < selected@.len() ==> current_part@[#[trigger] selected@[q] as int] == i
                                    || current_part@[selected@[q] as int] == j,
                        decreases total_modules - v,
                    {
                        let pv = current_part[v];
                        if pv == i || pv == j {
                            selected.push(v);
                        }
                        v = v + 1;
                    }
                    if selected.len() <= 1 || selected.len() > MAX_PAIR_MODULES {
                        j = j + 1;
                        continue;
                    }
                    let num_modules = selected.len();
                    let half_bits = num_modules / 2;
                    let total_bits = 2 * half_bits + 1;
                    let mut init_bits = vec![0i32; total_bits];
                    let mut init_part = vec![0u8; num_modules];
                    let mut pos: usize = 0;
                    while pos < num_modules
                        invariant
                            init_bits@.len() == total_bits,
                            init_part@.len() == num_modules,
                            selected@.len() == num_modules,
                            half_bits < total_bits,
                            current_part@.len() == total_modules,
                            forall|q: int| 0 <= q < selected@.len() ==> (#[trigger] selected@[q]) < total_modules,
                            forall|q: int| 0 <= q < init_bits@.len() ==> 0 <= #[trigger] init_bits@[q] <= 1,
                            valid_part(init_part@, 2),
                            forall|q: int|
                                0 <= q < pos ==> #[trigger] init_part@[q] == if current_part@[selected@[q] as int]
                                    == j {
                                    1u8
                                } else {
                                    0u8
                                },
                        decreases num_modules - pos,
                    {
                        let sv = selected[pos];
                        init_part.set(
                            pos,
                            if current_part[sv] == j {
                                1
                            } else {
                                0
                            },
                        );
                        if pos < half_bits {
                            init_bits.set(pos, 1);
                        }
                        pos = pos + 1;
                    }
                    constr_mgr.init(current_part.as_slice());
                    let ghost base0 = current_part@;
                    proof {
                        assert forall|q: int| 0 <= q < selected@.len() implies split_target(init_part@[q], i, j)
                            == base0[#[trigger] selected@[q] as int] by {}
                        lemma_apply_split_same(base0, selected@, init_part@, i, j);
                    }
                    let best_cost = Self::pinned_nets(hyprgraph, &current_part);
                    let mut state = PairState {
                        hyprgraph,
                        constr_mgr,
                        current_part,
                        selected: selected.clone(),
                        i,
                        j,
                        num_parts: np,
                        start_cost: best_cost,
                        best_cost,
                        best_part: init_part.clone(),
                        local_cost: best_cost,
                        local_part: init_part,
                        overflowed: false,
                        seen: Ghost(Seq::empty()),
                        base: Ghost(base0),
                        best_full: Ghost(base0),
                    };
                    let start_vertex = MidVertex::new(init_bits);
                    let ghost frame0 = state.frame();
                    let ghost cg0 = state.constr_mgr.0.hyprgraph;
                    proof {
                        assert forall|x: usize| x < total_modules implies #[trigger] cg0.spec_module_weight(x)
                            == hyprgraph.spec_module_weight(x) by {}
                    }
                    let _ham = MidHamCycle::new(start_vertex, -1, &mut state);
                    proof {
                        assert(state.frame() == frame0);
                        assert(state.frame()[0] == frame0[0]);
                        assert(state.frame()[1] == frame0[1]);
                        assert(state.frame()[2] == frame0[2]);
                        assert(state.frame()[3] == frame0[3]);
                        assert(state.frame()[4] == frame0[4]);
                        lemma_pair_frame_eq(
                            seq![
                                state.num_parts as int,
                                state.hyprgraph.spec_num_modules() as int,
                                state.constr_mgr.0.hyprgraph.spec_num_modules() as int,
                                state.selected@.len() as int,
                                state.start_cost as int,
                                state.i as int,
                                state.j as int,
                                state.constr_mgr.0.lowerbound as int,
                            ],
                            state.base@,
                            state.selected@,
                            &state.constr_mgr.0.hyprgraph,
                            seq![
                                np as int,
                                hyprgraph.spec_num_modules() as int,
                                total_modules as int,
                                selected@.len() as int,
                                best_cost as int,
                                i as int,
                                j as int,
                                old(self).lowerbound as int,
                            ],
                            base0,
                            selected@,
                            &cg0,
                        );
                        assert forall|x: usize| x < total_modules implies #[trigger] state.constr_mgr.0.hyprgraph.spec_module_weight(x)
                            == hyprgraph.spec_module_weight(x) by {
                            assert((&state.constr_mgr.0.hyprgraph).spec_module_weight(x) == (&cg0).spec_module_weight(x));
                            assert(cg0.spec_module_weight(x) == hyprgraph.spec_module_weight(x));
                        }
                    }
                    let ghost state_local = state.local_part@;
                    let PairState {
                        hyprgraph: _,
                        constr_mgr: cm,
                        current_part: cp,
                        selected: _,
                        i: _,
                        j: _,
                        num_parts: _,
                        start_cost: _,
                        best_cost: bc,
                        best_part: bp,
                        local_cost: _,
                        local_part: _,
                        overflowed: _,
                        seen: _,
                        base: _,
                        best_full: _,
                    } = state;
                    constr_mgr = cm;
                    current_part = cp;
                    let ghost cp0 = current_part@;
                    let mut pos: usize = 0;
                    while pos < num_modules
                        invariant
                            current_part@.len() == total_modules,
                            valid_part(current_part@, np as int),
                            selected@.len() == num_modules,
                            bp@.len() == num_modules,
                            forall|q: int| 0 <= q < selected@.len() ==> (#[trigger] selected@[q]) < total_modules,
                            i < j < np,
                            pos <= num_modules,
                            cp0.len() == total_modules,
                            current_part@ == apply_split(cp0, selected@, bp@, i, j, pos as int),
                        decreases num_modules - pos,
                    {
                        let sv = selected[pos];
                        current_part.set(
                            sv,
                            if bp[pos] == 1 {
                                j
                            } else {
                                i
                            },
                        );
                        pos = pos + 1;
                    }
                    proof {
                        assert(bc <= pc);
                        lemma_apply_split_twice(base0, selected@, state_local, bp@, i, j);
                        let cgs = constr_mgr.0.hyprgraph;
                        assert forall|x: usize| x < hyprgraph.spec_num_modules() implies #[trigger] hyprgraph.spec_module_weight(x)
                            == (&cgs).spec_module_weight(x) by {
                            assert(constr_mgr.0.hyprgraph.spec_module_weight(x) == hyprgraph.spec_module_weight(x));
                        }
                        if good {
                            lemma_meets_transfer(hyprgraph, &cgs, base0, np as nat, old(self).lowerbound);
                            lemma_meets_transfer(hyprgraph, &cgs, current_part@, np as nat, old(self).lowerbound);
                        }
                    }
                    if bc < self.total_cost || pass == 1 {
                        self.total_cost = bc;
                        improved = true;
                    }
                    proof {
                        if pass == 1 {
                            walked1 = true;
                        }
                    }
                    j = j + 1;
                }
                i = i + 1;
            }
        }
        let mut k: usize = 0;
        while k < total_modules
            invariant
                current_part@.len() == total_modules,
                part@.len() == total_modules,
                valid_part(current_part@, np as int),
                forall|q: int| 0 <= q < k ==> part@[q] == current_part@[q],
                fw ==> self.total_cost <= pc,
                total_modules < 2 ==> current_part@ == old(part)@ && self.total_cost == old(self).total_cost,
            decreases total_modules - k,
        {
            part[k] = current_part[k];
            k = k + 1;
        }
        assert(part@ =~= current_part@);
    }
}

/// The number of the first `k` modules that `part` puts in part `i` or `j`.
pub open spec fn pair_count(part: Seq<u8>, i: u8, j: u8, k: int) -> int
    decreases k,
{
    if k <= 0 {
        0
    } else {
        pair_count(part, i, j, k - 1) + if part[k - 1] == i || part[k - 1] == j {
            1int
        } else {
            0int
        }
    }
}

/// Whether `x` is a value of `i32`.
pub open spec fn fits_i32(x: int) -> bool {
    i32::MIN <= x <= i32::MAX
}

/// Among the pins `pins` other than `v`: how many lie in `from_part`, how
/// many in `to_part`, and how many elsewhere.
pub open spec fn pin_counts(part: Seq<u8>, pins: Seq<usize>, v: usize, from_part: u8, to_part: u8) -> (
    int,
    int,
    int,
)
    decreases pins.len(),
{
    if pins.len() == 0 {
        (0, 0, 0)
    } else {
        let c = pin_counts(part, pins.drop_last(), v, from_part, to_part);
        let w = pins.last();
        if w == v {
            c
        } else if part[w as int] == from_part {
            (c.0 + 1, c.1, c.2)
        } else if part[w as int] == to_part {
            (c.0, c.1 + 1, c.2)
        } else {
            (c.0, c.1, c.2 + 1)
        }
    }
}

/// The change in cost that `net` brings when `v` moves from `from_part` to
/// `to_part`, with its weight read as an `i32`: `+weight` where no other pin
/// lies in `to_part` or elsewhere but some lies in `from_part` or elsewhere,
/// `-weight` where the reverse holds, else 0.
pub open spec fn net_delta<G: Hypergraph>(g: G, part: Seq<u8>, v: usize, from_part: u8, to_part: u8, net: usize) -> int {
    let c = pin_counts(part, g.spec_neighbors(net), v, from_part, to_part);
    let before = c.1 > 0 || c.2 > 0;
    let after = c.0 > 0 || c.2 > 0;
    let wt = g.spec_net_weight(net) as i32;
    if !before && after {
        wt as int
    } else if before && !after {
        -wt
    } else {
        0
    }
}

/// The change in cost summed over the first `k` nets of `v`.
pub open spec fn delta_upto<G: Hypergraph>(g: G, part: Seq<u8>, v: usize, from_part: u8, to_part: u8, k: int) -> int
    decreases k,
{
    if k <= 0 {
        0
    } else {
        delta_upto(g, part, v, from_part, to_part, k - 1) + net_delta(
            g,
            part,
            v,
            from_part,
            to_part,
            g.spec_neighbors(v)[k - 1],
        )
    }
}

/// The number of the first `k` nets of `g` that have a pin.
pub open spec fn pinned_nets_upto<G: Hypergraph>(g: &G, k: int) -> int
    decreases k,
{
    if k <= 0 {
        0
    } else {
        pinned_nets_upto(g, k - 1) + if g.spec_neighbors((g.spec_num_modules() + k - 1) as usize).len() > 0 {
            1int
        } else {
            0int
        }
    }
}

/// A count held at `i32::MAX`.
pub open spec fn capped_count(c: int) -> int {
    if c < i32::MAX {
        c
    } else {
        i32::MAX as int
    }
}

/// A shared hypergraph weighs what the hypergraph weighs.
proof fn lemma_shared_module_weights<G: Hypergraph>(g: &G, k: int)
    ensures
        module_weight_upto(&g, k) == module_weight_upto(g, k),
    decreases k,
{
    if k > 0 {
        lemma_shared_module_weights(g, k - 1);
    }
}

} // verus!
