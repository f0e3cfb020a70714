//! Circuit partitioning with the Fiduccia-Mattheyses heuristic: hypergraphs,
//! bucket priority queues, gain calculators, gain and constraint managers and
//! the partition managers that drive them, the laws that tie gains to the
//! cut cost, the middle-levels walks, and the contraction of a hypergraph for
//! the multi-level partitioners.
pub mod moveinfo;
pub mod hypergraph;
pub mod hier_netlist;
pub mod netlist_adapter;
pub mod fm_gain_mgr;
pub mod fm_bi_gain_calc;
pub mod fm_bi_gain_mgr;
pub mod fm_kway_gain_calc;
pub mod fm_kway_gain_mgr;
pub mod midlevel;
pub mod dllist;
pub mod bpqueue;
pub mod fm_constr_mgr;
pub mod fm_bi_constr_mgr;
pub mod fm_kway_constr_mgr;
pub mod part_mgr_base;
pub mod nn_part_mgr;
pub mod ml_part_mgr;
pub mod gain_laws;
pub mod mid_lvl_part_mgr;
pub mod mid_lvl_kway_part_mgr;
pub mod min_cover;
