use ckpttn_rs::fm_constr_mgr::total_module_weight;
use ckpttn_rs::hypergraph::SimpleNetlist;
use ckpttn_rs::mid_lvl_kway_part_mgr::MidLvlKWayPartMgr;

/// The balance bound for `bal_tol`: the share `2 / num_parts` of the total
/// module weight, scaled by `bal_tol` and rounded.
fn lowerbound(nl: &SimpleNetlist, bal_tol: f64, num_parts: u8) -> u32 {
    let total = total_module_weight(nl);
    let totalweight_k = (total as f64) * (2.0 / num_parts as f64);
    (totalweight_k * bal_tol).round() as u32
}

fn create_dwarf_netlist() -> SimpleNetlist {
    let mut netlist = SimpleNetlist::new(7, 6);
    let edges: Vec<(usize, usize)> = vec![
        (4, 7),
        (0, 7),
        (1, 7),
        (0, 8),
        (2, 8),
        (3, 8),
        (1, 9),
        (2, 9),
        (3, 9),
        (2, 10),
        (5, 10),
        (3, 11),
        (6, 11),
        (0, 12),
    ];
    for (u, v) in &edges {
        netlist.add_edge(*u, *v);
    }
    netlist.module_weight = vec![1, 3, 4, 2, 0, 0, 0];
    netlist
}

#[test]
fn test_mid_lvl_kway_dwarf_3way() {
    let hyprgraph = create_dwarf_netlist();
    let n = hyprgraph.num_modules;
    let lb = lowerbound(&hyprgraph, 0.4, 3);
    let mut mgr = MidLvlKWayPartMgr::new(lb, 3);
    let mut part = vec![0u8; n];
    for (i, p) in part.iter_mut().enumerate().take(n) {
        *p = (i % 3) as u8;
    }
    mgr.optimize(&mut part, &hyprgraph);
    assert!(mgr.total_cost >= 0);
    assert_eq!(part.len(), n);
    assert!(part.iter().all(|&p| p < 3));
}

#[test]
fn test_mid_lvl_kway_new() {
    let mgr = MidLvlKWayPartMgr::new(7, 4);
    assert_eq!(mgr.lowerbound, 7);
    assert_eq!(mgr.num_parts, 4);
    assert_eq!(mgr.total_cost, 0);
}

#[test]
fn test_mid_lvl_kway_single_module_unchanged() {
    let mut netlist = SimpleNetlist::new(1, 1);
    netlist.add_edge(0, 1);
    let mut mgr = MidLvlKWayPartMgr::new(0, 3);
    mgr.total_cost = 5;
    let mut part = vec![2u8];
    mgr.optimize(&mut part, &netlist);
    assert_eq!(part, vec![2u8]);
    assert_eq!(mgr.total_cost, 5);
}

#[test]
fn test_mid_lvl_kway_two_nets_two_parts() {
    // Two nets {0,1,2} and {3,4,5}; every net has a pin, so each walk starts
    // from a cost of 2 and keeps it or a lower one.
    let mut netlist = SimpleNetlist::new(6, 2);
    for i in 0..3 {
        netlist.add_edge(i, 6);
    }
    for i in 3..6 {
        netlist.add_edge(i, 7);
    }
    let lb = lowerbound(&netlist, 0.45, 2);
    let mut mgr = MidLvlKWayPartMgr::new(lb, 2);
    let mut part = vec![1u8, 1, 1, 0, 0, 0];
    mgr.optimize(&mut part, &netlist);
    assert!(mgr.total_cost <= 2);
    assert_eq!(part.len(), 6);
    assert!(part.iter().all(|&p| p < 2));
}

#[test]
fn test_mid_lvl_kway_pairs_too_large_are_skipped() {
    // Sixteen modules in parts 0 and 1 form a pair too large to walk: the
    // partition and the cost stay as they were.
    let mut netlist = SimpleNetlist::new(16, 1);
    for i in 0..16 {
        netlist.add_edge(i, 16);
    }
    let mut mgr = MidLvlKWayPartMgr::new(0, 2);
    mgr.total_cost = 9;
    let mut part: Vec<u8> = (0..16).map(|i| (i % 2) as u8).collect();
    let before = part.clone();
    mgr.optimize(&mut part, &netlist);
    assert_eq!(part, before);
    assert_eq!(mgr.total_cost, 9);
}
