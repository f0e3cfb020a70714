# ckpttn_rs

Circuit partitioning with the Fiduccia-Mattheyses (FM) heuristic, written in
Verus: every function of the library carries a contract that Verus proves.

## Layout

- `src/hypergraph.rs`, `src/hier_netlist.rs`, `src/netlist_adapter.rs`:
  netlists (modules and nets as the nodes of a petgraph graph), hierarchical
  netlists with projections between levels, and a netlist built from plain
  module/net data. `check_netlist` tells whether a hypergraph is a netlist
  that the partitioning algorithms accept (their common precondition).
- `src/dllist.rs`, `src/bpqueue.rs`: an index-based doubly linked list and the
  bounded priority queue of FM built on it.
- `src/fm_bi_gain_calc.rs`, `src/fm_kway_gain_calc.rs`: the gain calculators
  of two-way and k-way FM; `src/fm_gain_mgr.rs` and the `*_gain_mgr.rs` files:
  the gain managers with their bucket queues.
- `src/fm_constr_mgr.rs` and the `*_constr_mgr.rs` files: balance constraints.
- `src/part_mgr_base.rs`, `src/nn_part_mgr.rs`: the partition managers that
  legalize and optimize a partition; `src/ml_part_mgr.rs`: multi-level
  settings.
- `src/mid_lvl_part_mgr.rs`, `src/mid_lvl_kway_part_mgr.rs`: partition
  managers that walk the middle-levels Hamiltonian cycle.
- `src/min_cover.rs`: contraction of a hypergraph by a primal-dual matching
  (from `netlistx-rs`), with duplicate nets merged.
- `src/gain_laws.rs`: the laws that tie gains to the cut cost.
- `src/midlevel/`: middle-levels Gray code helpers (vertices, trees,
  Hamiltonian cycles).
- `tests/`: the tests; `app/main.rs`: the demo program.
