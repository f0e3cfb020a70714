//! The settings of the multi-level partitioning managers.
use vstd::prelude::*;

verus! {

/// Multi-level partitioning settings: the cost of the last partition and the
/// module count from which a hypergraph is contracted before it is
/// partitioned.
pub struct MLPartMgr {
    pub total_cost: i32,
    pub limitsize: usize,
}

impl MLPartMgr {
    /// No cost yet, and contraction from 50 modules on.
    pub fn new() -> (r: Self)
        ensures
            r.total_cost == 0,
            r.limitsize == 50,
    {
        MLPartMgr { total_cost: 0, limitsize: 50 }
    }
}

impl Default for MLPartMgr {
    fn default() -> (r: Self)
        ensures
            r.total_cost == 0,
            r.limitsize == 50,
    {
        Self::new()
    }
}

} // verus!
