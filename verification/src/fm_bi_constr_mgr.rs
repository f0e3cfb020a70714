//! The binary constraint manager: moves go to the lighter of the two parts.
use vstd::prelude::*;
use crate::fm_constr_mgr::{FMConstrMgr, module_weight_upto};
use crate::hypergraph::Hypergraph;

verus! {

/// Binary constraint manager over [`FMConstrMgr`] with two parts.
pub struct FMBiConstrMgr<Gnl: Hypergraph>(pub FMConstrMgr<Gnl>);

impl<Gnl: Hypergraph> FMBiConstrMgr<Gnl> {
    /// A binary manager that requires `lowerbound` of the weight in each of
    /// the two parts.
    pub fn with_lowerbound(hyprgraph: Gnl, lowerbound: u32) -> (r: Self)
        requires
            hyprgraph.wf(),
            module_weight_upto(&hyprgraph, hyprgraph.spec_num_modules() as int) <= u32::MAX,
        ensures
            r.0.wf(),
            r.0.hyprgraph == hyprgraph,
            r.0.lowerbound == lowerbound,
            r.0.num_parts == 2,
            r.0.weight_cache == 0,
            r.0.diff@ == seq![0u32, 0u32],
    {
        let r = FMBiConstrMgr(FMConstrMgr::with_lowerbound(hyprgraph, lowerbound, 2));
        assert(r.0.diff@ =~= seq![0u32, 0u32]);
        r
    }

    /// The lighter of the two parts (part 1 on a tie).
    pub fn select_togo(&self) -> (r: u8)
        requires
            self.0.wf(),
            self.0.num_parts >= 2,
        ensures
            r == (if self.0.diff@[0] < self.0.diff@[1] {
                0u8
            } else {
                1u8
            }),
    {
        self.0.select_togo()
    }
}

} // verus!
