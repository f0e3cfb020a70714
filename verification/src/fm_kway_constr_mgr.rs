//! The k-way constraint manager: moves go to the lightest part, and a move
//! is only fully satisfying when every part already holds the bound.
use vstd::prelude::*;
use crate::fm_constr_mgr::{
    ConstrMgrInterface, FMConstrMgr, LegalCheck, module_weight_upto, part_weights, moved_weights, deficit,
    lemma_deficit_update,
};
use crate::hypergraph::Hypergraph;
use crate::moveinfo::MoveInfoV;

verus! {

/// The first position of a smallest value among `d[0 .. k]`.
pub open spec fn first_min(d: Seq<u32>, k: int) -> int
    decreases k,
{
    if k <= 1 {
        0
    } else {
        let m = first_min(d, k - 1);
        if d[k - 1] < d[m] {
            k - 1
        } else {
            m
        }
    }
}

/// What the k-way `check_legal` answers, given the answer `base` of the
/// two-part check and the part weights `diff` before a move from `fp` to
/// `tp`: where the two-part check is satisfied, both parts of the move meet
/// the bound after it, so the move is fully legal unless another part is
/// still below the bound.
pub open spec fn kway_legal(base: LegalCheck, diff: Seq<u32>, lowerbound: u32, fp: int, tp: int) -> LegalCheck {
    if base != LegalCheck::AllSatisfied {
        base
    } else if exists|p: int| 0 <= p < diff.len() && p != fp && p != tp && #[trigger] diff[p] < lowerbound {
        LegalCheck::GetBetter
    } else {
        LegalCheck::AllSatisfied
    }
}

/// K-way constraint manager over [`FMConstrMgr`].
pub struct FMKWayConstrMgr<Gnl: Hypergraph>(pub FMConstrMgr<Gnl>);

/// The first minimum is no larger than any of the first `k` values.
proof fn lemma_first_min_le(d: Seq<u32>, k: int, p: int)
    requires
        0 <= p < k,
    ensures
        d[first_min(d, k)] <= d[p],
    decreases k,
{
    if k > 1 && p < k - 1 {
        lemma_first_min_le(d, k - 1, p);
    }
}

/// The first minimum lies among the first `k` positions.
proof fn lemma_first_min_range(d: Seq<u32>, k: int)
    requires
        k >= 1,
    ensures
        0 <= first_min(d, k) < k,
    decreases k,
{
    if k > 1 {
        lemma_first_min_range(d, k - 1);
    }
}

impl<Gnl: Hypergraph> FMKWayConstrMgr<Gnl> {
    /// A manager for `num_parts` parts that requires `lowerbound` of the
    /// weight in every part.
    pub fn with_lowerbound(hyprgraph: Gnl, lowerbound: u32, num_parts: u8) -> (r: Self)
        requires
            hyprgraph.wf(),
            module_weight_upto(&hyprgraph, hyprgraph.spec_num_modules() as int) <= u32::MAX,
        ensures
            r.0.wf(),
            r.0.hyprgraph == hyprgraph,
            r.0.lowerbound == lowerbound,
            r.0.num_parts == num_parts,
            r.0.weight_cache == 0,
            r.0.diff@ == Seq::new(num_parts as nat, |p: int| 0u32),
    {
        FMKWayConstrMgr(FMConstrMgr::with_lowerbound(hyprgraph, lowerbound, num_parts))
    }

    /// The lightest part (the first one on a tie).
    pub fn select_togo(&self) -> (r: u8)
        requires
            self.0.wf(),
            self.0.num_parts >= 1,
        ensures
            r == first_min(self.0.diff@, self.0.num_parts as int),
    {
        let n = self.0.diff.len();
        let mut min_idx: usize = 0;
        let mut min_val = self.0.diff[0];
        let mut i: usize = 1;
        while i < n
            invariant
                self.0.wf(),
                n == self.0.diff@.len(),
                n <= u8::MAX,
                1 <= i <= n,
                min_idx == first_min(self.0.diff@, i as int),
                min_idx < i,
                min_val == self.0.diff@[min_idx as int],
            decreases n - i,
        {
            if self.0.diff[i] < min_val {
                min_val = self.0.diff[i];
                min_idx = i;
            }
            i = i + 1;
        }
        min_idx as u8
    }

    /// The two-part check, and `GetBetter` in place of `AllSatisfied` while
    /// some part is still below the bound after the move (a part other than
    /// the two the move touches).
    pub fn check_legal(&mut self, move_info_v: &MoveInfoV<usize>) -> (r: LegalCheck)
        requires
            old(self).0.wf(),
            move_info_v.from_part < old(self).0.num_parts,
            move_info_v.to_part < old(self).0.num_parts,
        ensures
            final(self).0.wf(),
            final(self).0 == (FMConstrMgr {
                weight_cache: old(self).0.hyprgraph.spec_module_weight(move_info_v.v),
                ..old(self).0
            }),
            ({
                let w = old(self).0.hyprgraph.spec_module_weight(move_info_v.v) as int;
                let lb = old(self).0.lowerbound as int;
                let base = if old(self).0.diff@[move_info_v.from_part as int] < lb + w {
                    LegalCheck::NotSatisfied
                } else if old(self).0.diff@[move_info_v.to_part as int] + w < lb {
                    LegalCheck::GetBetter
                } else {
                    LegalCheck::AllSatisfied
                };
                r == kway_legal(
                    base,
                    old(self).0.diff@,
                    old(self).0.lowerbound,
                    move_info_v.from_part as int,
                    move_info_v.to_part as int,
                )
            }),
    {
        let status = self.0.check_legal(move_info_v);
        match status {
            LegalCheck::AllSatisfied => {},
            _ => {
                return status;
            },
        }
        let mut p: usize = 0;
        while p < self.0.diff.len()
            invariant
                self.0.wf(),
                self.0 == (FMConstrMgr {
                    weight_cache: old(self).0.hyprgraph.spec_module_weight(move_info_v.v),
                    ..old(self).0
                }),
                p <= self.0.diff@.len(),
                forall|q: int|
                    0 <= q < p && q != move_info_v.from_part && q != move_info_v.to_part ==> #[trigger] self.0.diff@[q]
                        >= self.0.lowerbound,
                !(old(self).0.diff@[move_info_v.from_part as int] < old(self).0.lowerbound
                    + old(self).0.hyprgraph.spec_module_weight(move_info_v.v)),
                !(old(self).0.diff@[move_info_v.to_part as int] + old(self).0.hyprgraph.spec_module_weight(
                    move_info_v.v,
                ) < old(self).0.lowerbound),
            decreases self.0.diff@.len() - p,
        {
            if p != move_info_v.from_part as usize && p != move_info_v.to_part as usize && self.0.diff[p]
                < self.0.lowerbound {
                proof {
                    assert(old(self).0.diff@[p as int] < old(self).0.lowerbound);
                }
                return LegalCheck::GetBetter;
            }
            p = p + 1;
        }
        LegalCheck::AllSatisfied
    }
}

impl<Gnl: Hypergraph> ConstrMgrInterface<Gnl> for FMKWayConstrMgr<Gnl> {
    open spec fn constr_wf(&self) -> bool {
        self.0.wf()
    }

    open spec fn part_ready(&self, part: Seq<u8>) -> bool {
        &&& self.0.wf()
        &&& part.len() == self.0.hyprgraph.spec_num_modules()
    }

    open spec fn move_ready(&self, move_info_v: MoveInfoV<usize>) -> bool {
        &&& self.0.wf()
        &&& move_info_v.from_part < self.0.num_parts
        &&& move_info_v.to_part < self.0.num_parts
    }

    open spec fn update_ready(&self, move_info_v: MoveInfoV<usize>) -> bool {
        &&& self.0.wf()
        &&& move_info_v.from_part < self.0.num_parts
        &&& move_info_v.to_part < self.0.num_parts
        &&& self.0.diff@[move_info_v.to_part as int] + self.0.weight_cache <= u32::MAX
        &&& self.0.weight_cache <= self.0.diff@[move_info_v.from_part as int] + (if move_info_v.from_part
            == move_info_v.to_part {
            self.0.weight_cache as int
        } else {
            0
        })
    }

    open spec fn togo_ready(&self) -> bool {
        &&& self.0.wf()
        &&& self.0.num_parts >= 1
    }

    open spec fn constr_graph(&self) -> Gnl {
        self.0.hyprgraph
    }

    open spec fn spec_diff(&self) -> Seq<u32> {
        self.0.diff@
    }

    open spec fn spec_lowerbound(&self) -> u32 {
        self.0.lowerbound
    }

    open spec fn spec_weight_cache(&self) -> u32 {
        self.0.weight_cache
    }

    open spec fn togo_of(diff: Seq<u32>) -> int {
        first_min(diff, diff.len() as int)
    }

    open spec fn legal_of(diff: Seq<u32>, lb: u32, w: int, mv: MoveInfoV<usize>) -> LegalCheck {
        let base = if diff[mv.from_part as int] < lb + w {
            LegalCheck::NotSatisfied
        } else if diff[mv.to_part as int] + w < lb {
            LegalCheck::GetBetter
        } else {
            LegalCheck::AllSatisfied
        };
        kway_legal(base, diff, lb, mv.from_part as int, mv.to_part as int)
    }

    open spec fn accepts(diff: Seq<u32>, lb: u32) -> bool {
        forall|p: int| 0 <= p < diff.len() ==> #[trigger] diff[p] >= lb
    }

    proof fn lemma_ready(&self, mv: MoveInfoV<usize>, part: Seq<u8>) {
    }

    proof fn lemma_togo(diff: Seq<u32>) {
        lemma_first_min_range(diff, diff.len() as int);
    }

    proof fn lemma_legal(diff: Seq<u32>, lb: u32, w: int, mv: MoveInfoV<usize>) {
        let t = mv.to_part as int;
        let f = mv.from_part as int;
        let r = Self::legal_of(diff, lb, w, mv);
        if r == LegalCheck::GetBetter && !(diff[t] + w < lb) {
            let p = choose|p: int| 0 <= p < diff.len() && p != f && p != t && #[trigger] diff[p] < lb;
            lemma_first_min_le(diff, diff.len() as int, p);
        }
        if r == LegalCheck::GetBetter && w > 0 {
            let d1 = diff.update(t, (diff[t] + w) as u32);
            lemma_deficit_update(diff, lb, t, (diff[t] + w) as u32, diff.len() as int);
            lemma_deficit_update(d1, lb, f, (d1[f] - w) as u32, d1.len() as int);
        }
        if r == LegalCheck::AllSatisfied {
            let m = if mv.from_part == mv.to_part {
                diff
            } else {
                moved_weights(diff, mv, w)
            };
            assert forall|p: int| 0 <= p < m.len() implies #[trigger] m[p] >= lb by {
                if p != f && p != t {
                    assert(diff[p] >= lb);
                }
            }
        }
    }

    fn init(&mut self, part: &[u8])
        ensures
            final(self).0 == (FMConstrMgr { diff: final(self).0.diff, ..old(self).0 }),
            final(self).0.diff@ == part_weights(&old(self).0.hyprgraph, part@, old(self).0.num_parts as nat),
    {
        self.0.init(part)
    }

    fn check_legal(&mut self, move_info_v: &MoveInfoV<usize>) -> (r: LegalCheck)
        ensures
            final(self).0 == (FMConstrMgr {
                weight_cache: old(self).0.hyprgraph.spec_module_weight(move_info_v.v),
                ..old(self).0
            }),
            ({
                let w = old(self).0.hyprgraph.spec_module_weight(move_info_v.v) as int;
                let lb = old(self).0.lowerbound as int;
                let base = if old(self).0.diff@[move_info_v.from_part as int] < lb + w {
                    LegalCheck::NotSatisfied
                } else if old(self).0.diff@[move_info_v.to_part as int] + w < lb {
                    LegalCheck::GetBetter
                } else {
                    LegalCheck::AllSatisfied
                };
                r == kway_legal(
                    base,
                    old(self).0.diff@,
                    old(self).0.lowerbound,
                    move_info_v.from_part as int,
                    move_info_v.to_part as int,
                )
            }),
    {
        FMKWayConstrMgr::<Gnl>::check_legal(self, move_info_v)
    }

    fn check_constraints(&self, move_info_v: &MoveInfoV<usize>) -> (r: bool)
        ensures
            r == (self.0.diff@[move_info_v.from_part as int] >= self.0.lowerbound
                + self.0.hyprgraph.spec_module_weight(move_info_v.v)),
    {
        self.0.check_constraints(move_info_v)
    }

    fn can_update(&self, move_info_v: &MoveInfoV<usize>) -> (r: bool) {
        self.0.can_update(move_info_v)
    }

    fn update_move(&mut self, move_info_v: &MoveInfoV<usize>)
        ensures
            final(self).0 == (FMConstrMgr { diff: final(self).0.diff, ..old(self).0 }),
            ({
                let d1 = old(self).0.diff@.update(
                    move_info_v.to_part as int,
                    (old(self).0.diff@[move_info_v.to_part as int] + old(self).0.weight_cache) as u32,
                );
                final(self).0.diff@ == d1.update(
                    move_info_v.from_part as int,
                    (d1[move_info_v.from_part as int] - old(self).0.weight_cache) as u32,
                )
            }),
    {
        self.0.update_move(move_info_v)
    }

    fn select_togo(&self) -> (r: u8)
        ensures
            r == first_min(self.0.diff@, self.0.num_parts as int),
    {
        FMKWayConstrMgr::<Gnl>::select_togo(self)
    }

    fn final_check(&mut self, part: &[u8]) -> (r: bool)
        ensures
            final(self).0.diff@ == part_weights(&old(self).0.hyprgraph, part@, old(self).0.num_parts as nat),
            r == (forall|p: int| 0 <= p < old(self).0.num_parts ==> #[trigger] final(self).0.diff@[p] >= old(self).0.lowerbound),
    {
        let r = self.0.final_check(part);
        assert(self.0.num_parts == old(self).0.num_parts);
        assert(self.0.lowerbound == old(self).0.lowerbound);
        r
    }
}

} // verus!
