use ckpttn_rs::fm_bi_gain_calc::FMBiGainCalc;
use ckpttn_rs::fm_bi_gain_mgr::FMBiGainMgr;
use ckpttn_rs::fm_constr_mgr::{total_module_weight, FMConstrMgr, LegalCheck};
use ckpttn_rs::fm_gain_mgr::NNGainMgr;
use ckpttn_rs::fm_kway_constr_mgr::FMKWayConstrMgr;
use ckpttn_rs::fm_kway_gain_calc::FMKWayGainCalc;
use ckpttn_rs::fm_kway_gain_mgr::FMKWayGainMgr;
use ckpttn_rs::hypergraph::SimpleNetlist;
use ckpttn_rs::nn_part_mgr::NNPartMgr;
use ckpttn_rs::part_mgr_base::PartMgrBase;

/// The balance bound for `bal_tol`: the share `2 / num_parts` of the total
/// module weight, scaled by `bal_tol` and rounded.
fn lowerbound(nl: &SimpleNetlist, bal_tol: f64, num_parts: u8) -> u32 {
    let total = total_module_weight(nl);
    let totalweight_k = (total as f64) * (2.0 / num_parts as f64);
    (totalweight_k * bal_tol).round() as u32
}

fn constr_mgr(nl: SimpleNetlist, bal_tol: f64) -> FMConstrMgr<SimpleNetlist> {
    let lb = lowerbound(&nl, bal_tol, 2);
    FMConstrMgr::with_lowerbound(nl, lb, 2)
}

type BiPartMgr = PartMgrBase<SimpleNetlist, FMBiGainMgr<SimpleNetlist>, FMConstrMgr<SimpleNetlist>>;

fn bi_part_mgr(make: fn() -> SimpleNetlist, bal_tol: f64) -> BiPartMgr {
    let gain_calc = FMBiGainCalc::new(make(), 2);
    let gain_mgr = FMBiGainMgr::new(make(), gain_calc, 2);
    let validator = constr_mgr(make(), bal_tol);
    PartMgrBase::new(make(), gain_mgr, validator, 2)
}

fn make_nl_4m2n() -> SimpleNetlist {
    let mut netlist = SimpleNetlist::new(4, 2);
    netlist.add_edge(0, 4);
    netlist.add_edge(1, 4);
    netlist.add_edge(2, 5);
    netlist.add_edge(3, 5);
    netlist
}

fn make_nl_4m2n_heavy0() -> SimpleNetlist {
    let mut netlist = make_nl_4m2n();
    netlist.module_weight[0] = 100;
    netlist
}

fn make_nl_6m3n() -> SimpleNetlist {
    let mut netlist = SimpleNetlist::new(6, 3);
    netlist.add_edge(0, 6);
    netlist.add_edge(1, 6);
    netlist.add_edge(0, 7);
    netlist.add_edge(2, 7);
    netlist.add_edge(3, 8);
    netlist.add_edge(4, 8);
    netlist.add_edge(5, 8);
    netlist
}

fn make_netlist_drawf() -> SimpleNetlist {
    let mut netlist = SimpleNetlist::new(7, 6);
    netlist.module_weight[0] = 3;
    netlist.add_edge(0, 7);
    netlist.add_edge(1, 7);
    netlist.add_edge(1, 8);
    netlist.add_edge(2, 8);
    netlist.add_edge(2, 9);
    netlist.add_edge(3, 9);
    netlist.add_edge(3, 10);
    netlist.add_edge(4, 10);
    netlist.add_edge(4, 11);
    netlist.add_edge(5, 11);
    netlist.add_edge(5, 12);
    netlist.add_edge(6, 12);
    netlist.add_edge(6, 7);
    netlist
}

#[test]
fn part_mgr_base_test_new() {
    let pm = bi_part_mgr(make_nl_4m2n, 0.5);
    assert_eq!(pm.num_parts, 2);
    assert_eq!(pm.total_cost, 0);
}

#[test]
fn test_init() {
    let mut pm = bi_part_mgr(make_nl_4m2n, 0.5);
    let mut part = vec![0u8, 0, 1, 1];
    pm.init(&mut part);
    assert_eq!(pm.total_cost, 0);
}

#[test]
fn test_legalize_already_balanced() {
    let mut pm = bi_part_mgr(make_nl_4m2n, 0.5);
    let mut part = vec![0u8, 0, 1, 1];
    let _result = pm.legalize(&mut part);
}

#[test]
fn test_legalize_not_satisfied() {
    let mut pm = bi_part_mgr(make_nl_4m2n_heavy0, 0.5);
    let mut part = vec![0u8, 0, 1, 1];
    let result = pm.legalize(&mut part);
    assert!(result == LegalCheck::AllSatisfied || result == LegalCheck::NotSatisfied);
}

#[test]
fn test_optimize_basic() {
    let mut pm = bi_part_mgr(make_nl_6m3n, 0.5);
    let mut part = vec![0u8, 0, 0, 0, 0, 0];
    pm.optimize(&mut part);
}

#[test]
fn test_legalize_boundary() {
    let mut pm = bi_part_mgr(make_nl_4m2n, 0.5);
    let mut part = vec![0u8, 0, 0, 0];
    let result = pm.legalize(&mut part);
    assert!(result == LegalCheck::AllSatisfied || result == LegalCheck::NotSatisfied);
}

#[test]
fn test_legalize_and_optimize_with_dict_part() {
    let mut pm = bi_part_mgr(make_netlist_drawf, 0.5);
    let mut part = vec![0u8; 7];

    let legal_check = pm.legalize(&mut part);
    assert!(legal_check == LegalCheck::AllSatisfied || legal_check == LegalCheck::NotSatisfied);

    if legal_check == LegalCheck::AllSatisfied {
        let totalcost_before = pm.total_cost;
        pm.init(&mut part);
        assert_eq!(pm.total_cost, totalcost_before);

        pm.optimize(&mut part);
        assert!(pm.validator.final_check(&mut part));
        assert!(pm.total_cost <= totalcost_before);
    }
}

#[test]
fn test_optimize_reduces_cost() {
    let mut pm = bi_part_mgr(make_netlist_drawf, 0.45);
    let mut part = vec![0u8; 7];

    let _ = pm.legalize(&mut part);
    let totalcost_before = pm.total_cost;
    pm.optimize(&mut part);
    assert!(pm.total_cost <= totalcost_before);
}

#[test]
fn test_total_cost_non_negative() {
    let mut pm = bi_part_mgr(make_netlist_drawf, 0.45);
    let mut part = vec![0u8; 7];

    let _ = pm.legalize(&mut part);
    assert!(pm.total_cost >= 0);

    pm.optimize(&mut part);
    assert!(pm.total_cost >= 0);
}

// ── No-nonsense manager ─────────────────────────────────────────────

type BiNNPartMgr = NNPartMgr<SimpleNetlist, NNGainMgr<SimpleNetlist, FMBiGainCalc<SimpleNetlist>>, FMConstrMgr<SimpleNetlist>>;

fn nn_part_mgr(make: fn() -> SimpleNetlist, bal_tol: f64) -> BiNNPartMgr {
    let gain_calc = FMBiGainCalc::new(make(), 2);
    let gain_mgr = NNGainMgr::new(make(), gain_calc, 2);
    let validator = constr_mgr(make(), bal_tol);
    NNPartMgr::new(make(), gain_mgr, validator, 2)
}

#[test]
fn test_nn_part_mgr_new() {
    let pm = nn_part_mgr(make_nl_4m2n, 0.5);
    assert_eq!(pm.num_parts, 2);
    assert_eq!(pm.total_cost, 0);
}

#[test]
fn test_nn_part_mgr_init() {
    let mut pm = nn_part_mgr(make_nl_4m2n, 0.5);
    let mut part = vec![0u8, 0, 1, 1];
    pm.init(&mut part);
    assert_eq!(pm.total_cost, 0);
}

#[test]
fn test_nn_part_mgr_final_check() {
    let mut pm = nn_part_mgr(make_nl_4m2n, 0.5);
    let mut part = vec![0u8, 0, 1, 1];
    pm.init(&mut part);
    let legal = pm.final_check(&mut part);
    assert!(legal);
}

// ── Further cases ───────────────────────────────────────────────────

#[test]
fn test_legalize_balances_an_all_in_one_partition() {
    // The bound is 2 of the 4 unit modules: two moves bring part 1 to 2.
    let mut pm = bi_part_mgr(make_nl_4m2n, 0.5);
    let mut part = vec![0u8; 4];
    let result = pm.legalize(&mut part);
    assert_eq!(result, LegalCheck::AllSatisfied);
    assert_eq!(part.iter().filter(|&&p| p == 1).count(), 2);
    assert_eq!(pm.validator.diff, vec![2, 2]);
    assert!(pm.validator.final_check(&mut part));
}

#[test]
fn test_legalize_all_satisfied_means_final_check_passes() {
    for bal_tol in [0.3, 0.4, 0.45, 0.5] {
        let mut pm = bi_part_mgr(make_netlist_drawf, bal_tol);
        let mut part = vec![0u8; 7];
        if pm.legalize(&mut part) == LegalCheck::AllSatisfied {
            assert!(pm.validator.final_check(&mut part));
        }
    }
}

#[test]
fn test_legalize_first_move_cuts_the_net() {
    // Moving module 0 out of {0, 1} cuts net 4: the cost becomes 1.
    let mut pm = bi_part_mgr(make_nl_4m2n, 0.25);
    let mut part = vec![0u8; 4];
    let result = pm.legalize(&mut part);
    assert_eq!(result, LegalCheck::AllSatisfied);
    assert_eq!(part.iter().filter(|&&p| p == 1).count(), 1);
    assert_eq!(pm.total_cost, 1);
}

#[test]
fn test_optimize_keeps_the_optimum() {
    // Nets {0,1} and {2,3} apart: the partition {0,1}/{2,3} costs nothing.
    let mut pm = bi_part_mgr(make_nl_4m2n, 0.5);
    let mut part = vec![0u8, 0, 1, 1];
    pm.optimize(&mut part);
    assert_eq!(pm.total_cost, 0);
    assert!(pm.validator.final_check(&mut part));
}

#[test]
fn test_optimize_uncuts_a_net() {
    // {0,2}/{1,3} cuts both nets; moving modules brings the cost down.
    let mut pm = bi_part_mgr(make_nl_4m2n, 0.25);
    let mut part = vec![0u8, 1, 0, 1];
    pm.init(&mut part);
    assert_eq!(pm.total_cost, 2);
    pm.optimize(&mut part);
    assert!(pm.total_cost < 2);
    let mut check = bi_part_mgr(make_nl_4m2n, 0.25);
    check.init(&mut part);
    assert_eq!(check.total_cost, pm.total_cost);
}

#[test]
fn test_nn_legalize_and_optimize() {
    let mut pm = nn_part_mgr(make_netlist_drawf, 0.5);
    let mut part = vec![0u8; 7];
    let result = pm.legalize(&mut part);
    if result == LegalCheck::AllSatisfied {
        assert!(pm.final_check(&mut part));
    }
    let before = pm.total_cost;
    pm.optimize(&mut part);
    assert!(pm.total_cost <= before);
    assert!(pm.total_cost >= 0);
}

#[test]
fn test_nn_optimize_uncuts_a_net() {
    let mut pm = nn_part_mgr(make_nl_4m2n, 0.25);
    let mut part = vec![0u8, 1, 0, 1];
    pm.init(&mut part);
    assert_eq!(pm.total_cost, 2);
    pm.optimize(&mut part);
    assert!(pm.total_cost < 2);
}

#[test]
fn test_kway_legalize() {
    let make = || {
        let mut nl = SimpleNetlist::new(6, 3);
        nl.add_edge(0, 6);
        nl.add_edge(1, 6);
        nl.add_edge(2, 7);
        nl.add_edge(3, 7);
        nl.add_edge(4, 8);
        nl.add_edge(5, 8);
        nl
    };
    let gain_calc = FMKWayGainCalc::new(make(), 3);
    let gain_mgr = FMKWayGainMgr::new(make(), gain_calc, 3);
    let validator = FMKWayConstrMgr::with_lowerbound(make(), 1, 3);
    let mut pm = PartMgrBase::new(make(), gain_mgr, validator, 3);
    let mut part = vec![0u8; 6];
    let result = pm.legalize(&mut part);
    assert_eq!(result, LegalCheck::AllSatisfied);
    for p in 0..3u8 {
        assert!(part.iter().any(|&x| x == p));
    }
}
