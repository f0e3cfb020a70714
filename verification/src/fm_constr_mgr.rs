//! Balance constraints of FM partitioning: every part must keep at least
//! `lowerbound` of the module weight.
use vstd::prelude::*;
use crate::hypergraph::Hypergraph;
use crate::moveinfo::MoveInfoV;

verus! {

/// Result of a legality check for a proposed move.
#[derive(Debug, Clone, Copy, PartialEq, Eq, Structural)]
pub enum LegalCheck {
    /// The move would take its source part below the lower bound.
    NotSatisfied,
    /// The move is allowed, but the target part is still below the bound.
    GetBetter,
    /// The move is allowed and leaves the parts it touches within bounds.
    AllSatisfied,
}

/// The total weight of the modules `0 .. k`.
pub open spec fn module_weight_upto<G: Hypergraph>(g: &G, k: int) -> int
    decreases k,
{
    if k <= 0 {
        0
    } else {
        module_weight_upto(g, k - 1) + g.spec_module_weight((k - 1) as usize)
    }
}

/// The total weight of the modules of `part` that lie in part `p`, among the
/// modules `0 .. k`.
pub open spec fn part_weight_upto<G: Hypergraph>(g: &G, part: Seq<u8>, p: int, k: int) -> int
    decreases k,
{
    if k <= 0 {
        0
    } else {
        part_weight_upto(g, part, p, k - 1) + if part[k - 1] == p {
            g.spec_module_weight((k - 1) as usize) as int
        } else {
            0
        }
    }
}

/// The weight of each part `0 .. num_parts` under `part`.
pub open spec fn part_weights<G: Hypergraph>(g: &G, part: Seq<u8>, num_parts: nat) -> Seq<u32> {
    Seq::new(num_parts, |p: int| part_weight_upto(g, part, p, g.spec_num_modules() as int) as u32)
}

/// The weight of a part is at most the weight of all the modules.
pub proof fn lemma_part_weight_bound<G: Hypergraph>(g: &G, part: Seq<u8>, p: int, k: int)
    ensures
        0 <= part_weight_upto(g, part, p, k) <= module_weight_upto(g, k),
    decreases k,
{
    if k > 0 {
        lemma_part_weight_bound(g, part, p, k - 1);
    }
}

/// Fiduccia-Mattheyses partition constraint manager: it keeps the weight
/// `diff[p]` of each part and checks moves against `lowerbound`.
pub struct FMConstrMgr<Gnl: Hypergraph> {
    pub hyprgraph: Gnl,
    pub total_weight: u32,
    pub weight_cache: u32,
    pub diff: Vec<u32>,
    pub lowerbound: u32,
    pub num_parts: u8,
}

/// The total weight of the modules of `hyprgraph`.
pub fn total_module_weight<Gnl: Hypergraph>(hyprgraph: &Gnl) -> (r: u32)
    requires
        hyprgraph.wf(),
        module_weight_upto(hyprgraph, hyprgraph.spec_num_modules() as int) <= u32::MAX,
    ensures
        r == module_weight_upto(hyprgraph, hyprgraph.spec_num_modules() as int),
{
    let modules = hyprgraph.modules();
    let mut total: u32 = 0;
    let mut i: usize = 0;
    while i < modules.len()
        invariant
            hyprgraph.wf(),
            modules@.len() == hyprgraph.spec_num_modules(),
            forall|k: int| 0 <= k < modules@.len() ==> modules@[k] == k,
            module_weight_upto(hyprgraph, hyprgraph.spec_num_modules() as int) <= u32::MAX,
            i <= modules@.len(),
            total == module_weight_upto(hyprgraph, i as int),
        decreases modules@.len() - i,
    {
        proof {
            lemma_weight_mono(hyprgraph, i + 1, hyprgraph.spec_num_modules() as int);
        }
        total = total + hyprgraph.get_module_weight(modules[i]);
        i = i + 1;
    }
    total
}

/// The total weight grows with the number of modules counted.
pub proof fn lemma_weight_mono<G: Hypergraph>(g: &G, a: int, b: int)
    requires
        a <= b,
    ensures
        module_weight_upto(g, a) <= module_weight_upto(g, b),
    decreases b - a,
{
    if a < b {
        lemma_weight_mono(g, a, b - 1);
    }
}

impl<Gnl: Hypergraph> FMConstrMgr<Gnl> {
    /// The manager's invariant: one weight per part, and the module weights
    /// fit in `u32` together.
    pub open spec fn wf(&self) -> bool {
        &&& self.hyprgraph.wf()
        &&& self.diff@.len() == self.num_parts
        &&& self.total_weight == module_weight_upto(
            &self.hyprgraph,
            self.hyprgraph.spec_num_modules() as int,
        )
    }

    /// A manager for `num_parts` parts that requires `lowerbound` of the
    /// weight in every part; all part weights start at 0.
    pub fn with_lowerbound(hyprgraph: Gnl, lowerbound: u32, num_parts: u8) -> (r: Self)
        requires
            hyprgraph.wf(),
            module_weight_upto(&hyprgraph, hyprgraph.spec_num_modules() as int) <= u32::MAX,
        ensures
            r.wf(),
            r.hyprgraph == hyprgraph,
            r.lowerbound == lowerbound,
            r.num_parts == num_parts,
            r.weight_cache == 0,
            r.diff@ == Seq::new(num_parts as nat, |p: int| 0u32),
    {
        let total_weight = total_module_weight(&hyprgraph);
        let diff = vec![0u32; num_parts as usize];
        FMConstrMgr { hyprgraph, total_weight, weight_cache: 0, diff, lowerbound, num_parts }
    }

    /// Compute the weight of every part under `part`; modules assigned to no
    /// part below `num_parts` are not counted.
    pub fn init(&mut self, part: &[u8])
        requires
            old(self).wf(),
            part@.len() == old(self).hyprgraph.spec_num_modules(),
        ensures
            final(self).wf(),
            *final(self) == (FMConstrMgr {
                diff: final(self).diff,
                ..*old(self)
            }),
            final(self).diff@ == part_weights(&old(self).hyprgraph, part@, old(self).num_parts as nat),
    {
        let np = self.diff.len();
        let mut p: usize = 0;
        while p < np
            invariant
                self.wf(),
                *self == (FMConstrMgr { diff: self.diff, ..*old(self) }),
                np == self.diff@.len(),
                p <= np,
                forall|q: int| 0 <= q < p ==> self.diff@[q] == 0,
            decreases np - p,
        {
            self.diff.set(p, 0);
            p = p + 1;
        }
        let modules = self.hyprgraph.modules();
        let mut i: usize = 0;
        while i < modules.len()
            invariant
                self.wf(),
                *self == (FMConstrMgr { diff: self.diff, ..*old(self) }),
                np == self.diff@.len(),
                part@.len() == self.hyprgraph.spec_num_modules(),
                modules@.len() == self.hyprgraph.spec_num_modules(),
                forall|k: int| 0 <= k < modules@.len() ==> modules@[k] == k,
                i <= modules@.len(),
                forall|q: int| 0 <= q < np ==> self.diff@[q] == part_weight_upto(&self.hyprgraph, part@, q, i as int),
            decreases modules@.len() - i,
        {
            let pi = part[i] as usize;
            if pi < self.diff.len() {
                proof {
                    lemma_part_weight_bound(&self.hyprgraph, part@, pi as int, i + 1);
                    lemma_weight_mono(&self.hyprgraph, i + 1, self.hyprgraph.spec_num_modules() as int);
                }
                let w = self.hyprgraph.get_module_weight(modules[i]);
                let v = self.diff[pi] + w;
                self.diff.set(pi, v);
            }
            i = i + 1;
        }
        proof {
            assert(self.diff@ =~= part_weights(&old(self).hyprgraph, part@, old(self).num_parts as nat)) by {
                assert forall|q: int| 0 <= q < np implies self.diff@[q] == part_weight_upto(
                    &self.hyprgraph,
                    part@,
                    q,
                    self.hyprgraph.spec_num_modules() as int,
                ) as u32 by {}
            }
        }
    }

    /// Check a move against the bound: `NotSatisfied` when the source part
    /// would fall below it, `GetBetter` when the target part stays below it,
    /// `AllSatisfied` otherwise. Remembers the weight of the moved module.
    pub fn check_legal(&mut self, move_info_v: &MoveInfoV<usize>) -> (r: LegalCheck)
        requires
            old(self).wf(),
            move_info_v.from_part < old(self).num_parts,
            move_info_v.to_part < old(self).num_parts,
        ensures
            final(self).wf(),
            *final(self) == (FMConstrMgr {
                weight_cache: old(self).hyprgraph.spec_module_weight(move_info_v.v),
                ..*old(self)
            }),
            ({
                let w = old(self).hyprgraph.spec_module_weight(move_info_v.v) as int;
                let lb = old(self).lowerbound as int;
                r == (if old(self).diff@[move_info_v.from_part as int] < lb + w {
                    LegalCheck::NotSatisfied
                } else if old(self).diff@[move_info_v.to_part as int] + w < lb {
                    LegalCheck::GetBetter
                } else {
                    LegalCheck::AllSatisfied
                })
            }),
    {
        self.weight_cache = self.hyprgraph.get_module_weight(move_info_v.v);
        let diff_from = self.diff[move_info_v.from_part as usize] as u64;
        if diff_from < self.lowerbound as u64 + self.weight_cache as u64 {
            return LegalCheck::NotSatisfied;
        }
        let diff_to = self.diff[move_info_v.to_part as usize] as u64;
        if diff_to + (self.weight_cache as u64) < self.lowerbound as u64 {
            return LegalCheck::GetBetter;
        }
        LegalCheck::AllSatisfied
    }

    /// Whether the source part keeps the bound after the move.
    pub fn check_constraints(&self, move_info_v: &MoveInfoV<usize>) -> (r: bool)
        requires
            self.wf(),
            move_info_v.from_part < self.num_parts,
        ensures
            r == (self.diff@[move_info_v.from_part as int] >= self.lowerbound
                + self.hyprgraph.spec_module_weight(move_info_v.v)),
    {
        let weight = self.hyprgraph.get_module_weight(move_info_v.v);
        let diff_from = self.diff[move_info_v.from_part as usize] as u64;
        diff_from >= self.lowerbound as u64 + weight as u64
    }

    /// Move the weight remembered by the last `check_legal` from the source
    /// part to the target part.
    pub fn update_move(&mut self, move_info_v: &MoveInfoV<usize>)
        requires
            old(self).wf(),
            move_info_v.from_part < old(self).num_parts,
            move_info_v.to_part < old(self).num_parts,
            old(self).diff@[move_info_v.to_part as int] + old(self).weight_cache <= u32::MAX,
            old(self).weight_cache <= old(self).diff@[move_info_v.from_part as int] + (if move_info_v.from_part
                == move_info_v.to_part {
                old(self).weight_cache as int
            } else {
                0
            }),
        ensures
            final(self).wf(),
            *final(self) == (FMConstrMgr { diff: final(self).diff, ..*old(self) }),
            ({
                let d1 = old(self).diff@.update(
                    move_info_v.to_part as int,
                    (old(self).diff@[move_info_v.to_part as int] + old(self).weight_cache) as u32,
                );
                final(self).diff@ == d1.update(
                    move_info_v.from_part as int,
                    (d1[move_info_v.from_part as int] - old(self).weight_cache) as u32,
                )
            }),
    {
        let t = move_info_v.to_part as usize;
        let f = move_info_v.from_part as usize;
        let vt = self.diff[t] + self.weight_cache;
        self.diff.set(t, vt);
        let vf = self.diff[f] - self.weight_cache;
        self.diff.set(f, vf);
    }

    /// Whether every part of `part` holds at least the bound (the part
    /// weights are recomputed).
    pub fn final_check(&mut self, part: &[u8]) -> (r: bool)
        requires
            old(self).wf(),
            part@.len() == old(self).hyprgraph.spec_num_modules(),
        ensures
            final(self).wf(),
            *final(self) == (FMConstrMgr { diff: final(self).diff, ..*old(self) }),
            final(self).diff@ == part_weights(&old(self).hyprgraph, part@, old(self).num_parts as nat),
            r == (forall|p: int| 0 <= p < old(self).num_parts ==> #[trigger] final(self).diff@[p] >= old(self).lowerbound),
    {
        self.init(part);
        let mut p: usize = 0;
        while p < self.diff.len()
            invariant
                self.wf(),
                *self == (FMConstrMgr { diff: self.diff, ..*old(self) }),
                self.diff@ == part_weights(&old(self).hyprgraph, part@, old(self).num_parts as nat),
                p <= self.diff@.len(),
                forall|q: int| 0 <= q < p ==> #[trigger] self.diff@[q] >= self.lowerbound,
            decreases self.diff@.len() - p,
        {
            if self.diff[p] < self.lowerbound {
                return false;
            }
            p = p + 1;
        }
        true
    }

    /// The lighter of parts 0 and 1 (part 1 on a tie).
    pub fn select_togo(&self) -> (r: u8)
        requires
            self.wf(),
            self.num_parts >= 2,
        ensures
            r == (if self.diff@[0] < self.diff@[1] {
                0u8
            } else {
                1u8
            }),
    {
        if self.diff[0] < self.diff[1] {
            0
        } else {
            1
        }
    }
}

/// The part weights after a module of weight `w` moved as `mv`: the target
/// part gains `w`, then the source part loses it.
pub open spec fn moved_weights(diff: Seq<u32>, mv: MoveInfoV<usize>, w: int) -> Seq<u32> {
    let d1 = diff.update(mv.to_part as int, (diff[mv.to_part as int] + w) as u32);
    d1.update(mv.from_part as int, (d1[mv.from_part as int] - w) as u32)
}

/// How far a part of weight `d` falls short of `lb` (0 when it does not).
pub open spec fn shortfall(d: int, lb: int) -> nat {
    if d < lb {
        (lb - d) as nat
    } else {
        0
    }
}

/// The total shortfall of the parts `0 .. k` below `lb`.
pub open spec fn deficit_upto(diff: Seq<u32>, lb: u32, k: int) -> nat
    decreases k,
{
    if k <= 0 {
        0
    } else {
        deficit_upto(diff, lb, k - 1) + shortfall(diff[k - 1] as int, lb as int)
    }
}

/// The total shortfall of all parts below `lb`.
pub open spec fn deficit(diff: Seq<u32>, lb: u32) -> nat {
    deficit_upto(diff, lb, diff.len() as int)
}

/// Changing one part's weight changes the shortfall by that part's change.
pub proof fn lemma_deficit_update(diff: Seq<u32>, lb: u32, i: int, x: u32, k: int)
    requires
        0 <= i < diff.len(),
        0 <= k <= diff.len(),
    ensures
        deficit_upto(diff.update(i, x), lb, k) + (if i < k {
            shortfall(diff[i] as int, lb as int)
        } else {
            0
        }) == deficit_upto(diff, lb, k) + (if i < k {
            shortfall(x as int, lb as int)
        } else {
            0
        }),
    decreases k,
{
    if k > 0 {
        lemma_deficit_update(diff, lb, i, x, k - 1);
    }
}

/// The weights of two different parts add up to at most the total weight.
pub proof fn lemma_two_parts_bound<G: Hypergraph>(g: &G, part: Seq<u8>, p: int, q: int, k: int)
    requires
        p != q,
    ensures
        part_weight_upto(g, part, p, k) + part_weight_upto(g, part, q, k) <= module_weight_upto(g, k),
    decreases k,
{
    if k > 0 {
        lemma_two_parts_bound(g, part, p, q, k - 1);
    }
}

/// Moving module `v` from part `a` to part `b` moves its weight between the
/// two parts' weights.
pub proof fn lemma_part_weight_move<G: Hypergraph>(g: &G, part: Seq<u8>, v: int, b: u8, p: int, k: int)
    requires
        0 <= v < part.len(),
        0 <= k <= part.len(),
    ensures
        part_weight_upto(g, part.update(v, b), p, k) == part_weight_upto(g, part, p, k) + (if v < k && p
            == b {
            g.spec_module_weight(v as usize) as int
        } else {
            0
        }) - (if v < k && p == part[v] {
            g.spec_module_weight(v as usize) as int
        } else {
            0
        }),
    decreases k,
{
    if k > 0 {
        lemma_part_weight_move(g, part, v, b, p, k - 1);
    }
}

/// Every part of `part` weighs at least `lb`.
pub open spec fn meets_bound<G: Hypergraph>(g: &G, part: Seq<u8>, np: nat, lb: u32) -> bool {
    forall|q: int| 0 <= q < np ==> #[trigger] part_weights(g, part, np)[q] >= lb
}

/// Every module of `g` weighs `w`.
pub open spec fn uniform_weight<G: Hypergraph>(g: &G, w: u32) -> bool {
    forall|x: usize| x < g.spec_num_modules() ==> #[trigger] g.spec_module_weight(x) == w
}

/// Moving module `v` to part `to` changes the part weights as the constraint
/// managers record a move of a module of that weight.
pub proof fn lemma_move_part_weights<G: Hypergraph>(g: &G, part: Seq<u8>, v: usize, to: u8, np: nat)
    requires
        part.len() == g.spec_num_modules(),
        v < part.len(),
        part[v as int] < np,
        to < np,
        module_weight_upto(g, g.spec_num_modules() as int) <= u32::MAX,
    ensures
        part_weights(g, part.update(v as int, to), np) == moved_weights(
            part_weights(g, part, np),
            MoveInfoV { v, from_part: part[v as int], to_part: to },
            g.spec_module_weight(v) as int,
        ),
{
    let n = g.spec_num_modules() as int;
    let a = part_weights(g, part.update(v as int, to), np);
    let b = moved_weights(
        part_weights(g, part, np),
        MoveInfoV { v, from_part: part[v as int], to_part: to },
        g.spec_module_weight(v) as int,
    );
    assert forall|q: int| 0 <= q < np implies a[q] == b[q] by {
        lemma_part_weight_move(g, part, v as int, to, q, n);
        lemma_part_weight_bound(g, part, q, n);
        lemma_part_weight_bound(g, part.update(v as int, to), q, n);
        lemma_part_weight_move(g, part, v as int, to, part[v as int] as int, n);
        lemma_part_weight_bound(g, part, part[v as int] as int, n);
        lemma_part_weight_move(g, part, v as int, to, to as int, n);
        lemma_part_weight_bound(g, part, to as int, n);
        lemma_part_weight_bound(g, part.update(v as int, to), to as int, n);
        let from = part[v as int] as int;
        let w = g.spec_module_weight(v) as int;
        let old_q = part_weight_upto(g, part, q, n);
        let new_q = part_weight_upto(g, part.update(v as int, to), q, n);
        assert(a[q] == new_q as u32);
        let d = part_weights(g, part, np);
        assert(d[q] == old_q as u32);
        assert(d[to as int] == part_weight_upto(g, part, to as int, n) as u32);
        let d1 = d.update(to as int, (d[to as int] + w) as u32);
        if from == to as int {
            assert(new_q == old_q);
            if q == to as int {
                let x: u32 = old_q as u32;
                let ww: u32 = g.spec_module_weight(v);
                assert(((x + ww) as u32 - ww) as u32 == x) by (bit_vector);
                assert(d1[q] == (x + ww) as u32);
                assert(b[q] == (d1[q] - w) as u32);
            } else {
                assert(b[q] == d[q]);
            }
        } else if q == to as int {
            assert(new_q == old_q + w);
            assert(b[q] == d1[q]);
        } else if q == from {
            assert(new_q == old_q - w);
            assert(d1[q] == d[q]);
            assert(b[q] == (d1[q] - w) as u32);
        } else {
            assert(new_q == old_q);
            assert(b[q] == d[q]);
        }
    }
    assert(a =~= b);
}

/// The interface through which a partition manager consults a constraint
/// manager. Each `*_ready` function says when the corresponding call is
/// allowed; the implementations state the exact effect of each call.
pub trait ConstrMgrInterface<Gnl: Hypergraph>: Sized {
    /// The manager's invariant.
    spec fn constr_wf(&self) -> bool;

    /// `init` and `final_check` may be called with `part`.
    spec fn part_ready(&self, part: Seq<u8>) -> bool;

    /// `check_legal` and `check_constraints` may be called for this move.
    spec fn move_ready(&self, move_info_v: MoveInfoV<usize>) -> bool;

    /// `update_move` may be called for this move.
    spec fn update_ready(&self, move_info_v: MoveInfoV<usize>) -> bool;

    /// `select_togo` may be called.
    spec fn togo_ready(&self) -> bool;

    /// The hypergraph whose module weights the manager adds up.
    spec fn constr_graph(&self) -> Gnl;

    /// The weight the manager keeps for each part.
    spec fn spec_diff(&self) -> Seq<u32>;

    /// The least weight a part should keep.
    spec fn spec_lowerbound(&self) -> u32;

    /// The module weight remembered by the last `check_legal`.
    spec fn spec_weight_cache(&self) -> u32;

    /// The part that `select_togo` picks under the part weights `diff`.
    spec fn togo_of(diff: Seq<u32>) -> int;

    /// What `check_legal` answers for a module of weight `w` moved as `mv`
    /// under the part weights `diff` and the bound `lb`.
    spec fn legal_of(diff: Seq<u32>, lb: u32, w: int, mv: MoveInfoV<usize>) -> LegalCheck;

    /// The part weights `diff` meet every demand the manager checks.
    spec fn accepts(diff: Seq<u32>, lb: u32) -> bool;

    /// What the invariant gives, and when each call may be made.
    proof fn lemma_ready(&self, mv: MoveInfoV<usize>, part: Seq<u8>)
        requires
            self.constr_wf(),
        ensures
            self.constr_graph().wf(),
            self.spec_diff().len() <= u8::MAX,
            module_weight_upto(&self.constr_graph(), self.constr_graph().spec_num_modules() as int) <= u32::MAX,
            self.spec_diff().len() >= 2 ==> self.togo_ready(),
            part.len() == self.constr_graph().spec_num_modules() ==> self.part_ready(part),
            mv.from_part < self.spec_diff().len() && mv.to_part < self.spec_diff().len() ==> self.move_ready(mv),
            mv.from_part < self.spec_diff().len() && mv.to_part < self.spec_diff().len()
                && self.spec_diff()[mv.to_part as int] + self.spec_weight_cache() <= u32::MAX
                && self.spec_weight_cache() <= self.spec_diff()[mv.from_part as int] ==> self.update_ready(mv),
    ;

    /// `select_togo` names a part.
    proof fn lemma_togo(diff: Seq<u32>)
        requires
            diff.len() >= 2,
        ensures
            0 <= Self::togo_of(diff) < diff.len(),
    ;

    /// A move towards the part `select_togo` picks: unless refused, the
    /// source part holds the module's weight; when the answer is `GetBetter`
    /// the move leaves its part and, for a module of positive weight, lowers
    /// the total shortfall; when it is `AllSatisfied` the weights after the
    /// move (unchanged when the module stays in its part) meet the manager's
    /// demands.
    proof fn lemma_legal(diff: Seq<u32>, lb: u32, w: int, mv: MoveInfoV<usize>)
        requires
            diff.len() >= 2,
            0 <= w <= u32::MAX,
            mv.from_part < diff.len(),
            mv.to_part < diff.len(),
            mv.to_part == Self::togo_of(diff),
            mv.from_part != mv.to_part ==> diff[mv.to_part as int] + w <= u32::MAX,
        ensures
            Self::legal_of(diff, lb, w, mv) != LegalCheck::NotSatisfied ==> w <= diff[mv.from_part as int],
            Self::legal_of(diff, lb, w, mv) == LegalCheck::GetBetter ==> mv.from_part != mv.to_part && (w
                > 0 ==> deficit(moved_weights(diff, mv, w), lb) < deficit(diff, lb)),
            Self::legal_of(diff, lb, w, mv) == LegalCheck::AllSatisfied ==> Self::accepts(
                if mv.from_part == mv.to_part {
                    diff
                } else {
                    moved_weights(diff, mv, w)
                },
                lb,
            ),
    ;

    /// Compute the part weights of `part`.
    fn init(&mut self, part: &[u8])
        requires
            old(self).part_ready(part@),
        ensures
            final(self).constr_wf(),
            final(self).constr_graph() == old(self).constr_graph(),
            final(self).spec_lowerbound() == old(self).spec_lowerbound(),
            final(self).spec_weight_cache() == old(self).spec_weight_cache(),
            final(self).spec_diff() == part_weights(
                &old(self).constr_graph(),
                part@,
                old(self).spec_diff().len(),
            ),
    ;

    /// Check a move against the balance bound.
    fn check_legal(&mut self, move_info_v: &MoveInfoV<usize>) -> (r: LegalCheck)
        requires
            old(self).move_ready(*move_info_v),
        ensures
            final(self).constr_wf(),
            final(self).constr_graph() == old(self).constr_graph(),
            final(self).spec_lowerbound() == old(self).spec_lowerbound(),
            final(self).spec_diff() == old(self).spec_diff(),
            final(self).spec_weight_cache() == old(self).constr_graph().spec_module_weight(move_info_v.v),
            r == Self::legal_of(
                old(self).spec_diff(),
                old(self).spec_lowerbound(),
                old(self).constr_graph().spec_module_weight(move_info_v.v) as int,
                *move_info_v,
            ),
    ;

    /// Whether the source part keeps the bound after the move: its weight is
    /// at least the bound plus the module's weight.
    fn check_constraints(&self, move_info_v: &MoveInfoV<usize>) -> (r: bool)
        requires
            self.move_ready(*move_info_v),
        ensures
            r == (self.spec_diff()[move_info_v.from_part as int] >= self.spec_lowerbound()
                + self.constr_graph().spec_module_weight(move_info_v.v)),
    ;

    /// Whether `update_move` may be called for this move: the remembered
    /// weight fits in the target part's weight and the source part holds it.
    fn can_update(&self, move_info_v: &MoveInfoV<usize>) -> (r: bool)
        requires
            self.move_ready(*move_info_v),
        ensures
            r == self.update_ready(*move_info_v),
    ;

    /// Record a move.
    fn update_move(&mut self, move_info_v: &MoveInfoV<usize>)
        requires
            old(self).update_ready(*move_info_v),
        ensures
            final(self).constr_wf(),
            final(self).constr_graph() == old(self).constr_graph(),
            final(self).spec_lowerbound() == old(self).spec_lowerbound(),
            final(self).spec_weight_cache() == old(self).spec_weight_cache(),
            final(self).spec_diff() == moved_weights(
                old(self).spec_diff(),
                *move_info_v,
                old(self).spec_weight_cache() as int,
            ),
    ;

    /// The part to move a module to.
    fn select_togo(&self) -> (r: u8)
        requires
            self.togo_ready(),
        ensures
            r == Self::togo_of(self.spec_diff()),
    ;

    /// Whether `part` keeps the bound in every part.
    fn final_check(&mut self, part: &[u8]) -> (r: bool)
        requires
            old(self).part_ready(part@),
        ensures
            final(self).constr_wf(),
            final(self).constr_graph() == old(self).constr_graph(),
            final(self).spec_lowerbound() == old(self).spec_lowerbound(),
            final(self).spec_weight_cache() == old(self).spec_weight_cache(),
            final(self).spec_diff() == part_weights(
                &old(self).constr_graph(),
                part@,
                old(self).spec_diff().len(),
            ),
            r == (forall|p: int|
                0 <= p < final(self).spec_diff().len() ==> #[trigger] final(self).spec_diff()[p]
                    >= final(self).spec_lowerbound()),
    ;
}

impl<Gnl: Hypergraph> ConstrMgrInterface<Gnl> for FMConstrMgr<Gnl> {
    open spec fn constr_wf(&self) -> bool {
        self.wf()
    }

    open spec fn part_ready(&self, part: Seq<u8>) -> bool {
        &&& self.wf()
        &&& part.len() == self.hyprgraph.spec_num_modules()
    }

    open spec fn move_ready(&self, move_info_v: MoveInfoV<usize>) -> bool {
        &&& self.wf()
        &&& move_info_v.from_part < self.num_parts
        &&& move_info_v.to_part < self.num_parts
    }

    open spec fn update_ready(&self, move_info_v: MoveInfoV<usize>) -> bool {
        &&& self.wf()
        &&& move_info_v.from_part < self.num_parts
        &&& move_info_v.to_part < self.num_parts
        &&& self.diff@[move_info_v.to_part as int] + self.weight_cache <= u32::MAX
        &&& self.weight_cache <= self.diff@[move_info_v.from_part as int] + (if move_info_v.from_part
            == move_info_v.to_part {
            self.weight_cache as int
        } else {
            0
        })
    }

    open spec fn togo_ready(&self) -> bool {
        &&& self.wf()
        &&& self.num_parts >= 2
    }

    open spec fn constr_graph(&self) -> Gnl {
        self.hyprgraph
    }

    open spec fn spec_diff(&self) -> Seq<u32> {
        self.diff@
    }

    open spec fn spec_lowerbound(&self) -> u32 {
        self.lowerbound
    }

    open spec fn spec_weight_cache(&self) -> u32 {
        self.weight_cache
    }

    open spec fn togo_of(diff: Seq<u32>) -> int {
        if diff[0] < diff[1] {
            0
        } else {
            1
        }
    }

    open spec fn legal_of(diff: Seq<u32>, lb: u32, w: int, mv: MoveInfoV<usize>) -> LegalCheck {
        if diff[mv.from_part as int] < lb + w {
            LegalCheck::NotSatisfied
        } else if diff[mv.to_part as int] + w < lb {
            LegalCheck::GetBetter
        } else {
            LegalCheck::AllSatisfied
        }
    }

    open spec fn accepts(diff: Seq<u32>, lb: u32) -> bool {
        diff.len() == 2 ==> diff[0] >= lb && diff[1] >= lb
    }

    proof fn lemma_ready(&self, mv: MoveInfoV<usize>, part: Seq<u8>) {
    }

    proof fn lemma_togo(diff: Seq<u32>) {
    }

    proof fn lemma_legal(diff: Seq<u32>, lb: u32, w: int, mv: MoveInfoV<usize>) {
        let m = moved_weights(diff, mv, w);
        if Self::legal_of(diff, lb, w, mv) == LegalCheck::GetBetter && w > 0 {
            let t = mv.to_part as int;
            let f = mv.from_part as int;
            let d1 = diff.update(t, (diff[t] + w) as u32);
            lemma_deficit_update(diff, lb, t, (diff[t] + w) as u32, diff.len() as int);
            lemma_deficit_update(d1, lb, f, (d1[f] - w) as u32, d1.len() as int);
        }
        if Self::legal_of(diff, lb, w, mv) == LegalCheck::AllSatisfied && diff.len() == 2 && mv.from_part
            != mv.to_part {
            assert(m[0] >= lb && m[1] >= lb);
        }
    }

    fn init(&mut self, part: &[u8])
        ensures
            *final(self) == (FMConstrMgr { diff: final(self).diff, ..*old(self) }),
            final(self).diff@ == part_weights(&old(self).hyprgraph, part@, old(self).num_parts as nat),
    {
        FMConstrMgr::<Gnl>::init(self, part)
    }

    fn check_legal(&mut self, move_info_v: &MoveInfoV<usize>) -> (r: LegalCheck)
        ensures
            *final(self) == (FMConstrMgr {
                weight_cache: old(self).hyprgraph.spec_module_weight(move_info_v.v),
                ..*old(self)
            }),
            ({
                let w = old(self).hyprgraph.spec_module_weight(move_info_v.v) as int;
                let lb = old(self).lowerbound as int;
                r == (if old(self).diff@[move_info_v.from_part as int] < lb + w {
                    LegalCheck::NotSatisfied
                } else if old(self).diff@[move_info_v.to_part as int] + w < lb {
                    LegalCheck::GetBetter
                } else {
                    LegalCheck::AllSatisfied
                })
            }),
    {
        FMConstrMgr::<Gnl>::check_legal(self, move_info_v)
    }

    fn check_constraints(&self, move_info_v: &MoveInfoV<usize>) -> (r: bool)
        ensures
            r == (self.diff@[move_info_v.from_part as int] >= self.lowerbound
                + self.hyprgraph.spec_module_weight(move_info_v.v)),
    {
        FMConstrMgr::<Gnl>::check_constraints(self, move_info_v)
    }

    fn can_update(&self, move_info_v: &MoveInfoV<usize>) -> (r: bool) {
        let t = self.diff[move_info_v.to_part as usize] as u64;
        let f = self.diff[move_info_v.from_part as usize] as u64;
        let wc = self.weight_cache as u64;
        let room = if move_info_v.from_part == move_info_v.to_part {
            f + wc
        } else {
            f
        };
        t + wc <= 4294967295 && wc <= room
    }

    fn update_move(&mut self, move_info_v: &MoveInfoV<usize>)
        ensures
            *final(self) == (FMConstrMgr { diff: final(self).diff, ..*old(self) }),
            ({
                let d1 = old(self).diff@.update(
                    move_info_v.to_part as int,
                    (old(self).diff@[move_info_v.to_part as int] + old(self).weight_cache) as u32,
                );
                final(self).diff@ == d1.update(
                    move_info_v.from_part as int,
                    (d1[move_info_v.from_part as int] - old(self).weight_cache) as u32,
                )
            }),
    {
        FMConstrMgr::<Gnl>::update_move(self, move_info_v)
    }

    fn select_togo(&self) -> (r: u8)
        ensures
            r == (if self.diff@[0] < self.diff@[1] {
                0u8
            } else {
                1u8
            }),
    {
        FMConstrMgr::<Gnl>::select_togo(self)
    }

    fn final_check(&mut self, part: &[u8]) -> (r: bool)
        ensures
            final(self).diff@ == part_weights(&old(self).hyprgraph, part@, old(self).num_parts as nat),
            r == (forall|p: int| 0 <= p < old(self).num_parts ==> #[trigger] final(self).diff@[p] >= old(self).lowerbound),
    {
        let r = FMConstrMgr::<Gnl>::final_check(self, part);
        proof {
            assert(self.num_parts == old(self).num_parts);
            assert(self.lowerbound == old(self).lowerbound);
            assert(self.diff@.len() == self.num_parts);
            assert(r == (forall|p: int| 0 <= p < self.spec_diff().len() ==> #[trigger] self.spec_diff()[p]
                >= self.spec_lowerbound())) by {
                if r {
                    assert forall|p: int| 0 <= p < self.spec_diff().len() implies #[trigger] self.spec_diff()[p]
                        >= self.spec_lowerbound() by {
                        assert(self.diff@[p] >= old(self).lowerbound);
                    }
                } else {
                    let p = choose|p: int| 0 <= p < old(self).num_parts && !(#[trigger] self.diff@[p] >= old(
                        self,
                    ).lowerbound);
                    assert(!(self.spec_diff()[p] >= self.spec_lowerbound()));
                }
            }
        }
        r
    }
}

} // verus!
