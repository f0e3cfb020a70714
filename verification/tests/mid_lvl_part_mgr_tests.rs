use ckpttn_rs::fm_bi_gain_calc::FMBiGainCalc;
use ckpttn_rs::fm_constr_mgr::total_module_weight;
use ckpttn_rs::hypergraph::SimpleNetlist;
use ckpttn_rs::mid_lvl_part_mgr::MidLvlPartMgr;

/// The balance bound of two parts for `bal_tol`: the total module weight
/// scaled by `bal_tol` and rounded.
fn lowerbound(nl: &SimpleNetlist, bal_tol: f64) -> u32 {
    let total = total_module_weight(nl);
    ((total as f64) * bal_tol).round() as u32
}

fn create_star_netlist(m: usize) -> SimpleNetlist {
    let mut netlist = SimpleNetlist::new(m, 1);
    for i in 0..m {
        netlist.add_edge(i, m);
    }
    netlist
}

fn run_star(m: usize) -> (i32, Vec<u8>) {
    let netlist = create_star_netlist(m);
    let lb = lowerbound(&netlist, 0.45);
    let mut mgr = MidLvlPartMgr::new(&netlist, lb);
    let mut part = vec![0u8; m];
    for i in 0..m / 2 {
        part[i] = 1;
    }
    mgr.optimize(&mut part);
    (mgr.total_cost, part)
}

#[test]
fn test_mid_lvl_part_mgr_n8() {
    let (total_cost, _) = run_star(8);
    assert!(total_cost >= 0);
}

#[test]
fn test_mid_lvl_part_mgr_n11() {
    let (total_cost, _) = run_star(11);
    assert!(total_cost >= 0);
}

#[test]
fn test_mid_lvl_part_mgr_n15() {
    let (total_cost, _) = run_star(15);
    assert!(total_cost >= 0);
}

#[test]
fn test_mid_lvl_cost_is_the_cut_cost_of_the_partition() {
    // Two nets {0,1,2} and {3,4,5}: the walk meets the partition that
    // separates them, whose cut is empty.
    let make = || {
        let mut nl = SimpleNetlist::new(6, 2);
        for i in 0..3 {
            nl.add_edge(i, 6);
        }
        for i in 3..6 {
            nl.add_edge(i, 7);
        }
        nl
    };
    let netlist = make();
    let lb = lowerbound(&netlist, 0.45);
    let mut mgr = MidLvlPartMgr::new(&netlist, lb);
    let mut part = vec![1u8, 1, 1, 0, 0, 0];
    mgr.optimize(&mut part);
    let mut calc = FMBiGainCalc::new(make(), 2);
    let cost = calc.init(&part);
    assert_eq!(cost, mgr.total_cost);
    assert_eq!(cost, 0);
}

#[test]
fn test_mid_lvl_single_module_unchanged() {
    let netlist = SimpleNetlist::new(1, 0);
    let mut mgr = MidLvlPartMgr::new(&netlist, 0);
    let mut part = vec![1u8];
    mgr.optimize(&mut part);
    assert_eq!(part, vec![1u8]);
    assert_eq!(mgr.total_cost, 0);
}
